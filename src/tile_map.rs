//! The mine field: a rectangular grid of tiles, mine placement and
//! adjacency counting.
use vstd::prelude::*;
use crate::coordinates::{Coordinates, COORD_MAX};
use crate::tile::{Tile, decimal, decimal_text, rendered_as, plain_glyph};

verus! {

/// Horizontal part of the `k`-th of the eight compass offsets, in the order
/// bottom-left, bottom, bottom-right, left, right, top-left, top, top-right.
pub open spec fn dx(k: int) -> int {
    if k == 0 || k == 3 || k == 5 {
        -1
    } else if k == 1 || k == 6 {
        0
    } else {
        1
    }
}

/// Vertical part of the `k`-th of the eight compass offsets.
pub open spec fn dy(k: int) -> int {
    if k <= 2 {
        -1
    } else if k <= 4 {
        0
    } else {
        1
    }
}

/// Two distinct cells that touch by a side or a corner.
pub open spec fn adjacent(ax: int, ay: int, bx: int, by: int) -> bool {
    (ax != bx || ay != by) && -1 <= bx - ax <= 1 && -1 <= by - ay <= 1
}

/// The position among the compass offsets of the offset from `a` to an
/// adjacent `b`.
pub open spec fn offset_rank(ax: int, ay: int, bx: int, by: int) -> int {
    let (ddx, ddy) = (bx - ax, by - ay);
    if ddy == -1 {
        ddx + 1
    } else if ddy == 0 {
        if ddx == -1 {
            3
        } else {
            4
        }
    } else {
        ddx + 6
    }
}

/// Every adjacent cell is reached by one of the eight compass offsets.
pub proof fn lemma_adjacent_offset(ax: int, ay: int, bx: int, by: int)
    requires
        adjacent(ax, ay, bx, by),
    ensures
        0 <= offset_rank(ax, ay, bx, by) < 8,
        bx == ax + dx(offset_rank(ax, ay, bx, by)),
        by == ay + dy(offset_rank(ax, ay, bx, by)),
{
}

/// The `k`-th compass offset.
pub(crate) fn square_offset(k: usize) -> (r: (i8, i8))
    requires
        k < 8,
    ensures
        r.0 == dx(k as int),
        r.1 == dy(k as int),
{
    if k == 0 {
        (-1, -1)
    } else if k == 1 {
        (0, -1)
    } else if k == 2 {
        (1, -1)
    } else if k == 3 {
        (-1, 0)
    } else if k == 4 {
        (1, 0)
    } else if k == 5 {
        (-1, 1)
    } else if k == 6 {
        (0, 1)
    } else {
        (1, 1)
    }
}

/// A position whose components fit in a coordinate.
pub open spec fn representable(x: int, y: int) -> bool {
    0 <= x <= COORD_MAX && 0 <= y <= COORD_MAX
}

/// The neighbours of `c` reached by the first `k` compass offsets, leaving
/// out those that fall outside the representable range.
pub open spec fn safe_square_upto(c: Coordinates, k: int) -> Seq<Coordinates>
    decreases k,
{
    if k <= 0 {
        Seq::empty()
    } else {
        let prev = safe_square_upto(c, k - 1);
        let (nx, ny) = (c.x + dx(k - 1), c.y + dy(k - 1));
        if representable(nx, ny) {
            prev.push(Coordinates { x: nx as u16, y: ny as u16 })
        } else {
            prev
        }
    }
}

/// The neighbours of `c` by all eight compass offsets that are representable.
pub open spec fn safe_square(c: Coordinates) -> Seq<Coordinates> {
    safe_square_upto(c, 8)
}

/// Number of `Mine` tiles in a sequence of tiles.
pub open spec fn count_mines(s: Seq<Tile>) -> nat
    decreases s.len(),
{
    if s.len() == 0 {
        0
    } else {
        count_mines(s.drop_last()) + if s.last() is Mine {
            1nat
        } else {
            0nat
        }
    }
}

/// Why a mine field cannot be built as asked.
#[derive(Debug, Clone, Copy, PartialEq, Eq, Structural)]
pub enum MapError {
    /// The width or the height is zero.
    EmptyArea,
    /// As many mines as cells, or more, were asked for.
    TooManyMines,
    /// A mine position lies outside the grid or is given twice.
    InvalidMine,
}

/// A rectangular mine field, stored row by row from the bottom row up.
#[derive(Debug, Clone)]
pub struct TileMap {
    pub mine_count: u16,
    pub width: u16,
    pub height: u16,
    /// The tile at `(x, y)` is at position `y * width + x`.
    pub map: Vec<Tile>,
}

impl TileMap {
    pub open spec fn cell_count(self) -> int {
        self.width * self.height
    }

    pub open spec fn in_bounds(self, x: int, y: int) -> bool {
        0 <= x < self.width && 0 <= y < self.height
    }

    pub open spec fn index_of(self, x: int, y: int) -> int {
        y * self.width + x
    }

    pub open spec fn tile(self, x: int, y: int) -> Tile {
        self.map@[self.index_of(x, y)]
    }

    /// A mine lies at `(x, y)`; never true outside the grid.
    pub open spec fn mine_at(self, x: int, y: int) -> bool {
        self.in_bounds(x, y) && self.tile(x, y) is Mine
    }

    /// Mines among the cells reached from `(x, y)` by the first `k` compass
    /// offsets; cells outside the grid count as no mine.
    pub open spec fn mines_among(self, x: int, y: int, k: int) -> nat
        decreases k,
    {
        if k <= 0 {
            0
        } else {
            self.mines_among(x, y, k - 1) + if self.mine_at(x + dx(k - 1), y + dy(k - 1)) {
                1nat
            } else {
                0nat
            }
        }
    }

    /// Mines among the up to eight cells around `(x, y)` inside the grid.
    pub open spec fn mines_around(self, x: int, y: int) -> nat {
        self.mines_among(x, y, 8)
    }

    /// What the cell at `(x, y)` must hold given where the mines lie.
    pub open spec fn expected_tile(self, x: int, y: int) -> Tile {
        if self.tile(x, y) is Mine {
            Tile::Mine
        } else if self.mines_around(x, y) == 0 {
            Tile::Empty
        } else {
            Tile::Neighbor(self.mines_around(x, y) as u8)
        }
    }

    /// Dimensions are positive and the storage holds one tile per cell.
    pub open spec fn shaped(self) -> bool {
        &&& self.width > 0
        &&& self.height > 0
        &&& self.map@.len() == self.cell_count()
    }

    /// A consistent mine field: `mine_count` mines, fewer than the cells, and
    /// every other cell holds the count of mines around it (`Empty` for none).
    pub open spec fn valid(self) -> bool {
        &&& self.shaped()
        &&& self.mine_count < self.cell_count()
        &&& count_mines(self.map@) == self.mine_count
        &&& forall|x: int, y: int|
            self.in_bounds(x, y) ==> #[trigger] self.tile(x, y) == self.expected_tile(x, y)
    }
}

/// The storage position of an in-bounds cell lies inside the storage.
pub proof fn lemma_index_in_range(w: int, h: int, x: int, y: int)
    requires
        0 <= x < w,
        0 <= y < h,
    ensures
        0 <= y * w + x < w * h,
{
    assert(y * w + x < w * h) by (nonlinear_arith)
        requires
            0 <= x < w,
            0 <= y < h,
    ;
    assert(0 <= y * w) by (nonlinear_arith)
        requires
            0 <= x < w,
            0 <= y,
    ;
}

/// The number of cells of a grid fits in 32 bits.
pub proof fn lemma_cell_count_fits(w: int, h: int)
    requires
        0 <= w <= COORD_MAX,
        0 <= h <= COORD_MAX,
    ensures
        0 <= w * h <= 4294836225,
        w > 0 && h > 0 ==> w * h > 0,
{
    assert(0 <= w * h <= 4294836225) by (nonlinear_arith)
        requires
            0 <= w <= 65535,
            0 <= h <= 65535,
    ;
    assert(w > 0 && h > 0 ==> w * h > 0) by (nonlinear_arith);
}

/// Distinct in-bounds cells have distinct storage positions, and a position
/// gives back its cell by division.
pub proof fn lemma_index_inverse(w: int, x: int, y: int)
    requires
        0 <= x < w,
        0 <= y,
    ensures
        (y * w + x) % w == x,
        (y * w + x) / w == y,
{
    vstd::arithmetic::div_mod::lemma_fundamental_div_mod_converse(y * w + x, w, y, x);
}

/// A storage position below `w * h` is the position of the cell
/// `(i % w, i / w)`, which lies in the grid.
pub proof fn lemma_position_cell(w: int, h: int, i: int)
    requires
        0 < w,
        0 <= i < w * h,
    ensures
        0 <= i % w < w,
        0 <= i / w < h,
        (i / w) * w + i % w == i,
{
    vstd::arithmetic::div_mod::lemma_fundamental_div_mod(i, w);
    vstd::arithmetic::div_mod::lemma_mod_pos_bound(i, w);
    vstd::arithmetic::mul::lemma_mul_is_commutative(w, i / w);
    assert(0 <= i / w < h) by (nonlinear_arith)
        requires
            0 < w,
            0 <= i < w * h,
            i == w * (i / w) + (i % w),
            0 <= i % w < w,
    ;
}

/// At most one mine per compass offset.
pub proof fn lemma_mines_among_bound(m: TileMap, x: int, y: int, k: int)
    ensures
        m.mines_among(x, y, k) <= if k < 0 {
            0
        } else {
            k
        },
    decreases k,
{
    if k > 0 {
        lemma_mines_among_bound(m, x, y, k - 1);
    }
}

impl TileMap {
    /// A mine field of the given size without any mine.
    pub fn empty(width: u16, height: u16) -> (r: Result<TileMap, MapError>)
        ensures
            r is Err <==> (width == 0 || height == 0),
            r matches Err(e) ==> e == MapError::EmptyArea,
            r matches Ok(m) ==> {
                &&& m.valid()
                &&& m.width == width
                &&& m.height == height
                &&& m.mine_count == 0
                &&& forall|x: int, y: int| m.in_bounds(x, y) ==> #[trigger] m.tile(x, y) is Empty
            },
    {
        if width == 0 || height == 0 {
            return Err(MapError::EmptyArea);
        }
        proof {
            lemma_cell_count_fits(width as int, height as int);
        }
        let n: usize = width as usize * height as usize;
        let mut map: Vec<Tile> = Vec::new();
        while map.len() < n
            invariant
                n == width * height,
                map@.len() <= n,
                forall|i: int| 0 <= i < map@.len() ==> map@[i] is Empty,
                count_mines(map@) == 0,
            decreases n - map@.len(),
        {
            proof {
                assert(map@.push(Tile::Empty).drop_last() =~= map@);
            }
            map.push(Tile::Empty);
        }
        let m = TileMap { mine_count: 0, width, height, map };
        assert forall|x: int, y: int| m.in_bounds(x, y) implies #[trigger] m.tile(x, y) is Empty
            && m.tile(x, y) == m.expected_tile(x, y) by {
            lemma_index_in_range(width as int, height as int, x, y);
            assert forall|k: int| 0 <= k <= 8 implies m.mines_among(x, y, k) == 0 by {
                lemma_no_mines_among(m, x, y, k);
            }
        }
        Ok(m)
    }

    /// Storage position of an in-bounds cell.
    pub(crate) fn index(&self, c: Coordinates) -> (r: usize)
        requires
            self.shaped(),
            self.in_bounds(c.x as int, c.y as int),
        ensures
            r == self.index_of(c.x as int, c.y as int),
            r < self.map@.len(),
    {
        proof {
            lemma_index_in_range(self.width as int, self.height as int, c.x as int, c.y as int);
            lemma_cell_count_fits(self.width as int, self.height as int);
        }
        c.y as usize * self.width as usize + c.x as usize
    }

    /// Whether `c` lies outside the grid.
    pub fn is_out_of_bounds(&self, c: Coordinates) -> (r: bool)
        ensures
            r == !self.in_bounds(c.x as int, c.y as int),
    {
        c.x >= self.width || c.y >= self.height
    }

    /// The tile at `c`, or `None` outside the grid.
    pub fn tile_at(&self, c: Coordinates) -> (r: Option<Tile>)
        requires
            self.shaped(),
        ensures
            r is Some <==> self.in_bounds(c.x as int, c.y as int),
            r matches Some(t) ==> t == self.tile(c.x as int, c.y as int),
    {
        if self.is_out_of_bounds(c) {
            None
        } else {
            Some(self.map[self.index(c)])
        }
    }

    /// Whether a mine lies at `c`; `false` outside the grid.
    pub fn is_mine_at(&self, c: Coordinates) -> (r: bool)
        requires
            self.shaped(),
        ensures
            r == self.mine_at(c.x as int, c.y as int),
    {
        match self.tile_at(c) {
            Some(Tile::Mine) => true,
            _ => false,
        }
    }

    /// The up to eight neighbours of `c` by the compass offsets, leaving out
    /// those that would leave the range of a coordinate. They are not checked
    /// against the size of the grid.
    pub fn safe_square_at(&self, c: Coordinates) -> (r: Vec<Coordinates>)
        ensures
            r@ == safe_square(c),
    {
        let mut r: Vec<Coordinates> = Vec::new();
        let mut k: usize = 0;
        while k < 8
            invariant
                k <= 8,
                r@ == safe_square_upto(c, k as int),
            decreases 8 - k,
        {
            if let Some(p) = c.checked_offset(square_offset(k)) {
                r.push(p);
            }
            k += 1;
        }
        r
    }

    /// Number of mines around `c`, inside the grid; `0` where `c` itself is
    /// a mine.
    pub fn neighbor_count_at(&self, c: Coordinates) -> (r: u8)
        requires
            self.shaped(),
        ensures
            r == if self.mine_at(c.x as int, c.y as int) {
                0
            } else {
                self.mines_around(c.x as int, c.y as int)
            },
    {
        if self.is_mine_at(c) {
            return 0;
        }
        let mut count: u8 = 0;
        let mut k: usize = 0;
        while k < 8
            invariant
                self.shaped(),
                k <= 8,
                count == self.mines_among(c.x as int, c.y as int, k as int),
            decreases 8 - k,
        {
            proof {
                lemma_mines_among_bound(*self, c.x as int, c.y as int, k as int);
            }
            if let Some(p) = c.checked_offset(square_offset(k)) {
                if self.is_mine_at(p) {
                    count += 1;
                }
            }
            k += 1;
        }
        count
    }
}

/// No mines anywhere means no mines around any cell.
proof fn lemma_no_mines_among(m: TileMap, x: int, y: int, k: int)
    requires
        count_mines(m.map@) == 0,
        m.shaped(),
    ensures
        m.mines_among(x, y, k) == 0,
    decreases k,
{
    if k > 0 {
        lemma_no_mines_among(m, x, y, k - 1);
        let (nx, ny) = (x + dx(k - 1), y + dy(k - 1));
        if m.in_bounds(nx, ny) {
            lemma_index_in_range(m.width as int, m.height as int, nx, ny);
            lemma_count_mines_zero(m.map@, m.index_of(nx, ny));
        }
    }
}

/// A sequence without mines holds none at any position.
proof fn lemma_count_mines_zero(s: Seq<Tile>, i: int)
    requires
        count_mines(s) == 0,
        0 <= i < s.len(),
    ensures
        !(s[i] is Mine),
    decreases s.len(),
{
    if i < s.len() - 1 {
        assert(s.drop_last()[i] == s[i]);
        lemma_count_mines_zero(s.drop_last(), i);
    }
}

/// Replacing one tile changes the number of mines by what left and what came.
pub proof fn lemma_count_mines_update(s: Seq<Tile>, i: int, t: Tile)
    requires
        0 <= i < s.len(),
    ensures
        count_mines(s.update(i, t)) + (if s[i] is Mine {
            1int
        } else {
            0int
        }) == count_mines(s) + (if t is Mine {
            1int
        } else {
            0int
        }),
    decreases s.len(),
{
    if i < s.len() - 1 {
        assert(s.update(i, t).drop_last() =~= s.drop_last().update(i, t));
        lemma_count_mines_update(s.drop_last(), i, t);
    } else {
        assert(s.update(i, t).drop_last() =~= s.drop_last());
    }
}

/// Two fields of one size with mines in the same cells count the same
/// mines around every cell.
pub proof fn lemma_same_mines(a: TileMap, b: TileMap, x: int, y: int, k: int)
    requires
        a.shaped(),
        a.width == b.width,
        a.height == b.height,
        a.map@.len() == b.map@.len(),
        forall|i: int| 0 <= i < a.map@.len() ==> (#[trigger] a.map@[i] is Mine) == (b.map@[i] is Mine),
    ensures
        a.mines_among(x, y, k) == b.mines_among(x, y, k),
    decreases k,
{
    if k > 0 {
        lemma_same_mines(a, b, x, y, k - 1);
        let (nx, ny) = (x + dx(k - 1), y + dy(k - 1));
        if a.in_bounds(nx, ny) {
            lemma_index_in_range(a.width as int, a.height as int, nx, ny);
            assert(a.map@[a.index_of(nx, ny)] is Mine == b.map@[b.index_of(nx, ny)] is Mine);
        }
    }
}

#[verifier::external_type_specification]
#[verifier::external_body]
pub struct ExThreadRng(rand::rngs::ThreadRng);

pub assume_specification[ rand::thread_rng ]() -> rand::rngs::ThreadRng;

/// Relies on rand's `Rng::gen_range`: a value drawn from `low..high`, which
/// must not be empty (it panics on an empty range).
#[verifier::external_body]
fn gen_range(rng: &mut rand::rngs::ThreadRng, low: usize, high: usize) -> (r: usize)
    requires
        low < high,
    ensures
        low <= r < high,
{
    rand::Rng::gen_range(rng, low..high)
}

/// The mines listed in `mines` are all inside the field and none is listed
/// twice.
pub open spec fn mines_placeable(m: TileMap, mines: Seq<Coordinates>) -> bool {
    &&& forall|i: int| 0 <= i < mines.len() ==> m.in_bounds(#[trigger] mines[i].x as int, mines[i].y as int)
    &&& forall|i: int, j: int| 0 <= i < j < mines.len() ==> #[trigger] mines[i] != #[trigger] mines[j]
}

/// A storage position belongs to one cell only.
pub proof fn lemma_index_injective(w: int, h: int, ax: int, ay: int, bx: int, by: int)
    requires
        0 <= ax < w,
        0 <= bx < w,
        0 <= ay < h,
        0 <= by < h,
        ay * w + ax == by * w + bx,
    ensures
        ax == bx && ay == by,
{
    lemma_index_inverse(w, ax, ay);
    lemma_index_inverse(w, bx, by);
}

impl TileMap {
    /// Replaces the tiles by `mines` mines at the storage positions listed in
    /// `mines` and fills in the counts of all other cells.
    pub fn place_mines_at(&mut self, mines: &Vec<Coordinates>) -> (r: Result<(), MapError>)
        requires
            old(self).shaped(),
        ensures
            final(self).width == old(self).width,
            final(self).height == old(self).height,
            r matches Err(e) ==> *final(self) == *old(self) && e != MapError::EmptyArea,
            r == Err::<(), MapError>(MapError::TooManyMines) <==> (mines@.len() >= old(
                self,
            ).cell_count() || mines@.len() > COORD_MAX),
            r == Err::<(), MapError>(MapError::InvalidMine) <==> (mines@.len() < old(self).cell_count()
                && mines@.len() <= COORD_MAX && !mines_placeable(*old(self), mines@)),
            r is Ok ==> {
                &&& final(self).valid()
                &&& final(self).mine_count == mines@.len()
                &&& forall|x: int, y: int|
                    final(self).in_bounds(x, y) ==> (#[trigger] final(self).tile(x, y) is Mine <==> exists|i: int|
                        0 <= i < mines@.len() && mines@[i].x == x && mines@[i].y == y)
            },
    {
        let n: usize = self.map.len();
        if mines.len() >= n || mines.len() > COORD_MAX as usize {
            return Err(MapError::TooManyMines);
        }
        let mut layout: Vec<Tile> = Vec::new();
        while layout.len() < n
            invariant
                layout@.len() <= n,
                forall|i: int| 0 <= i < layout@.len() ==> layout@[i] is Empty,
                count_mines(layout@) == 0,
            decreases n - layout@.len(),
        {
            proof {
                assert(layout@.push(Tile::Empty).drop_last() =~= layout@);
            }
            layout.push(Tile::Empty);
        }
        let w = self.width;
        let h = self.height;
        let mut i: usize = 0;
        while i < mines.len()
            invariant
                self.shaped(),
                *self == *old(self),
                mines@.len() < n,
                mines@.len() <= COORD_MAX,
                w == self.width,
                h == self.height,
                n == self.map@.len(),
                layout@.len() == n,
                i <= mines@.len(),
                count_mines(layout@) == i,
                forall|j: int| 0 <= j < i ==> self.in_bounds(#[trigger] mines@[j].x as int, mines@[j].y as int),
                forall|j: int, k: int| 0 <= j < k < i ==> #[trigger] mines@[j] != #[trigger] mines@[k],
                forall|p: int| 0 <= p < n ==> (#[trigger] layout@[p] is Mine <==> exists|j: int|
                    0 <= j < i && self.index_of(mines@[j].x as int, mines@[j].y as int) == p),
                forall|p: int| 0 <= p < n ==> (#[trigger] layout@[p] is Mine || layout@[p] is Empty),
            decreases mines@.len() - i,
        {
            let c = mines[i];
            if self.is_out_of_bounds(c) {
                assert(!self.in_bounds(mines@[i as int].x as int, mines@[i as int].y as int));
                return Err(MapError::InvalidMine);
            }
            let p = self.index(c);
            if let Tile::Mine = layout[p] {
                proof {
                    let j = choose|j: int|
                        0 <= j < i && self.index_of(mines@[j].x as int, mines@[j].y as int) == p;
                    lemma_index_injective(
                        w as int,
                        h as int,
                        mines@[j].x as int,
                        mines@[j].y as int,
                        c.x as int,
                        c.y as int,
                    );
                    assert(mines@[j] == mines@[i as int]);
                }
                return Err(MapError::InvalidMine);
            }
            proof {
                lemma_count_mines_update(layout@, p as int, Tile::Mine);
                assert forall|j: int| 0 <= j < i implies mines@[j] != mines@[i as int] by {
                    if mines@[j] == mines@[i as int] {
                        assert(layout@[p as int] is Mine);
                    }
                }
            }
            layout.set(p, Tile::Mine);
            i += 1;
        }
        self.map = layout;
        self.mine_count = mines.len() as u16;
        proof {
            lemma_cell_count_fits(w as int, h as int);
        }
        let ghost laid = *self;
        self.fill_counts();
        proof {
            assert forall|x: int, y: int| self.in_bounds(x, y) implies (#[trigger] self.tile(x, y) is Mine
                <==> exists|j: int| 0 <= j < mines@.len() && mines@[j].x == x && mines@[j].y == y) by {
                lemma_index_in_range(w as int, h as int, x, y);
                assert(laid.map@[self.index_of(x, y)] is Mine == self.map@[self.index_of(x, y)] is Mine);
                if self.tile(x, y) is Mine {
                    let j = choose|j: int|
                        0 <= j < mines@.len() && laid.index_of(mines@[j].x as int, mines@[j].y as int)
                            == laid.index_of(x, y);
                    lemma_index_injective(
                        w as int,
                        h as int,
                        mines@[j].x as int,
                        mines@[j].y as int,
                        x,
                        y,
                    );
                }
            }
        }
        Ok(())
    }

    /// Writes into every cell that holds no mine the number of mines around it.
    fn fill_counts(&mut self)
        requires
            old(self).shaped(),
            old(self).mine_count < old(self).cell_count(),
            count_mines(old(self).map@) == old(self).mine_count,
        ensures
            final(self).valid(),
            final(self).width == old(self).width,
            final(self).height == old(self).height,
            final(self).mine_count == old(self).mine_count,
            forall|i: int|
                0 <= i < old(self).map@.len() ==> (#[trigger] final(self).map@[i] is Mine) == (
                old(self).map@[i] is Mine),
    {
        let ghost orig = *self;
        let n: usize = self.map.len();
        let w = self.width;
        let mut i: usize = 0;
        while i < n
            invariant
                self.shaped(),
                self.width == orig.width,
                self.height == orig.height,
                self.mine_count == orig.mine_count,
                self.mine_count < self.cell_count(),
                n == self.map@.len(),
                w == self.width,
                orig.map@.len() == n,
                orig.shaped(),
                i <= n,
                count_mines(self.map@) == self.mine_count,
                forall|p: int| 0 <= p < n ==> (#[trigger] self.map@[p] is Mine) == (orig.map@[p] is Mine),
                forall|p: int|
                    0 <= p < i ==> #[trigger] self.map@[p] == self.expected_tile(p % w as int, p / w as int),
            decreases n - i,
        {
            proof {
                lemma_position_cell(w as int, self.height as int, i as int);
            }
            let c = Coordinates { x: (i % w as usize) as u16, y: (i / w as usize) as u16 };
            if let Tile::Mine = self.map[i] {
            } else {
                let count = self.neighbor_count_at(c);
                let t = if count == 0 {
                    Tile::Empty
                } else {
                    Tile::Neighbor(count)
                };
                let ghost before = *self;
                proof {
                    lemma_count_mines_update(self.map@, i as int, t);
                }
                self.map.set(i, t);
                proof {
                    assert forall|x: int, y: int| #![auto] self.mines_among(x, y, 8) == before.mines_among(x, y, 8) by {
                        lemma_same_mines(*self, before, x, y, 8);
                    }
                    assert forall|p: int| 0 <= p < i implies #[trigger] self.map@[p] == self.expected_tile(p % w as int, p / w as int) by {
                        lemma_position_cell(w as int, self.height as int, p);
                        lemma_index_in_range(w as int, self.height as int, p % w as int, p / w as int);
                        assert(before.map@[p] == before.expected_tile(p % w as int, p / w as int));
                    }
                }
            }
            i += 1;
        }
        proof {
            assert forall|x: int, y: int| self.in_bounds(x, y) implies #[trigger] self.tile(x, y) == self.expected_tile(x, y) by {
                lemma_index_in_range(w as int, self.height as int, x, y);
                lemma_index_inverse(w as int, x, y);
                assert(self.map@[self.index_of(x, y)] == self.expected_tile(self.index_of(x, y) % w as int, self.index_of(x, y) / w as int));
            }
        }
    }
}

impl TileMap {
    /// Replaces the tiles by `mine_count` mines at random cells, each choice
    /// of cells equally likely, and fills in the counts of all other cells.
    /// Cells are drawn by a partial shuffle, so the work is bounded by the
    /// number of cells.
    pub fn place_mines(&mut self, mine_count: u16) -> (r: Result<(), MapError>)
        requires
            old(self).shaped(),
        ensures
            final(self).width == old(self).width,
            final(self).height == old(self).height,
            r is Err <==> mine_count >= old(self).cell_count(),
            r matches Err(e) ==> e == MapError::TooManyMines && *final(self) == *old(self),
            r is Ok ==> final(self).valid() && final(self).mine_count == mine_count,
    {
        let n: usize = self.map.len();
        let count: usize = mine_count as usize;
        if count >= n {
            return Err(MapError::TooManyMines);
        }
        let mut cells: Vec<usize> = Vec::new();
        while cells.len() < n
            invariant
                cells@.len() <= n,
                forall|i: int| 0 <= i < cells@.len() ==> cells@[i] == i,
            decreases n - cells@.len(),
        {
            cells.push(cells.len());
        }
        let mut rng = rand::thread_rng();
        let mut i: usize = 0;
        while i < count
            invariant
                count < n,
                i <= count,
                cells@.len() == n,
                forall|p: int| 0 <= p < n ==> #[trigger] cells@[p] < n,
                forall|p: int, q: int| 0 <= p < q < n ==> #[trigger] cells@[p] != #[trigger] cells@[q],
            decreases count - i,
        {
            let j = gen_range(&mut rng, i, n);
            let a = cells[i];
            let b = cells[j];
            cells.set(i, b);
            cells.set(j, a);
            i += 1;
        }
        let w = self.width;
        let h = self.height;
        let mut mines: Vec<Coordinates> = Vec::new();
        let mut k: usize = 0;
        while k < count
            invariant
                self.shaped(),
                w == self.width,
                h == self.height,
                n == self.map@.len(),
                count < n,
                k <= count,
                cells@.len() == n,
                forall|p: int| 0 <= p < n ==> #[trigger] cells@[p] < n,
                forall|p: int, q: int| 0 <= p < q < n ==> #[trigger] cells@[p] != #[trigger] cells@[q],
                mines@.len() == k,
                forall|p: int|
                    0 <= p < k ==> self.index_of(#[trigger] mines@[p].x as int, mines@[p].y as int)
                        == cells@[p] && self.in_bounds(mines@[p].x as int, mines@[p].y as int),
            decreases count - k,
        {
            let p = cells[k];
            proof {
                lemma_position_cell(w as int, h as int, p as int);
            }
            mines.push(Coordinates { x: (p % w as usize) as u16, y: (p / w as usize) as u16 });
            k += 1;
        }
        proof {
            assert forall|p: int, q: int| 0 <= p < q < mines@.len() implies #[trigger] mines@[p]
                != #[trigger] mines@[q] by {
                assert(self.index_of(mines@[p].x as int, mines@[p].y as int) == cells@[p]);
                assert(self.index_of(mines@[q].x as int, mines@[q].y as int) == cells@[q]);
            }
            assert forall|p: int| 0 <= p < mines@.len() implies self.in_bounds(
                #[trigger] mines@[p].x as int,
                mines@[p].y as int,
            ) by {
                assert(self.index_of(mines@[p].x as int, mines@[p].y as int) == cells@[p]);
            }
        }
        self.place_mines_at(&mines)
    }
}

/// `n` dashes.
pub open spec fn dash_line(n: nat) -> Seq<char> {
    Seq::new(n, |i: int| '-')
}

/// The texts `t[lo]`, ..., `t[lo + k - 1]` one after the other.
pub open spec fn concat_texts(t: Seq<Seq<char>>, lo: int, k: int) -> Seq<char>
    decreases k,
{
    if k <= 0 {
        Seq::empty()
    } else {
        concat_texts(t, lo, k - 1) + t[lo + k - 1]
    }
}

proof fn lemma_concat_frame(t: Seq<Seq<char>>, lo: int, k: int, i: int, v: Seq<char>)
    requires
        0 <= i < t.len(),
        0 <= lo,
        lo + k <= t.len(),
        !(lo <= i < lo + k),
    ensures
        concat_texts(t.update(i, v), lo, k) == concat_texts(t, lo, k),
    decreases k,
{
    if k > 0 {
        lemma_concat_frame(t, lo, k - 1, i, v);
        assert(t.update(i, v)[lo + k - 1] == t[lo + k - 1]);
    }
}

impl TileMap {
    /// First line of the console dump: size and number of mines.
    pub open spec fn dump_header(self) -> Seq<char> {
        seq!['M', 'a', 'p', ' ', '('] + decimal(self.width as nat) + seq!['x'] + decimal(
            self.height as nat,
        ) + seq![')', ' ', 'w', 'i', 't', 'h', ' '] + decimal(self.mine_count as nat) + seq![
            ' ',
            'b',
            'o',
            'm',
            'b',
            's',
            ':',
            '\n',
        ]
    }

    /// One row of the dump, framed by bars, from the cell texts `t`.
    pub open spec fn row_text(self, t: Seq<Seq<char>>, y: int) -> Seq<char> {
        seq!['|'] + concat_texts(t, y * self.width, self.width as int) + seq!['|', '\n']
    }

    /// The top `k` rows of the dump, the top row first.
    pub open spec fn rows_text(self, t: Seq<Seq<char>>, k: int) -> Seq<char>
        decreases k,
    {
        if k <= 0 {
            Seq::empty()
        } else {
            self.rows_text(t, k - 1) + self.row_text(t, self.height - k)
        }
    }

    /// The whole dump from the cell texts `t`: the header, a dashed line,
    /// the rows from top to bottom, and a dashed line.
    pub open spec fn dump_text(self, t: Seq<Seq<char>>) -> Seq<char> {
        self.dump_header() + dash_line((self.width + 2) as nat) + seq!['\n'] + self.rows_text(
            t,
            self.height as int,
        ) + dash_line((self.width + 2) as nat)
    }

    proof fn lemma_rows_frame(self, t: Seq<Seq<char>>, k: int, i: int, v: Seq<char>)
        requires
            self.shaped(),
            t.len() == self.map@.len(),
            0 <= i < t.len(),
            k <= self.height,
            i < (self.height - k) * self.width,
        ensures
            self.rows_text(t.update(i, v), k) == self.rows_text(t, k),
        decreases k,
    {
        if k > 0 {
            let y = self.height - k;
            assert(i < y * self.width);
            lemma_index_in_range(self.width as int, self.height as int, 0, y);
            assert(y * self.width + self.width <= self.width * self.height) by (nonlinear_arith)
                requires 0 <= y < self.height, self.width > 0;
            lemma_concat_frame(t, y * self.width, self.width as int, i, v);
            assert((self.height - k) * self.width <= (self.height - (k - 1)) * self.width) by (nonlinear_arith)
                requires self.width > 0;
            self.lemma_rows_frame(t, k - 1, i, v);
        }
    }

    /// A picture of the mine field for the console, the top row first;
    /// each cell is drawn as `Tile::console_output` draws it.
    pub fn console_output(&self) -> (r: String)
        requires
            self.shaped(),
        ensures
            exists|t: Seq<Seq<char>>|
                {
                    &&& t.len() == self.map@.len()
                    &&& forall|i: int| 0 <= i < t.len() ==> rendered_as(#[trigger] t[i], self.map@[i])
                    &&& r@ == self.dump_text(t)
                },
    {
        let mut out = String::from_str("Map (");
        proof { reveal_strlit("Map ("); reveal_strlit("x"); reveal_strlit(") with "); reveal_strlit(" bombs:\n"); }
        let wt = decimal_text(self.width as u64);
        out.append(wt.as_str());
        out.append("x");
        let ht = decimal_text(self.height as u64);
        out.append(ht.as_str());
        out.append(") with ");
        let mt = decimal_text(self.mine_count as u64);
        out.append(mt.as_str());
        out.append(" bombs:\n");
        assert(out@ =~= self.dump_header());
        let mut line = String::new();
        let mut d: usize = 0;
        let dashes: usize = self.width as usize + 2;
        proof { reveal_strlit("-"); }
        while d < dashes
            invariant
                d <= dashes,
                line@ =~= dash_line(d as nat),
            decreases dashes - d,
        {
            proof { reveal_strlit("-"); }
            line.append("-");
            d += 1;
        }
        out.append(line.as_str());
        proof { reveal_strlit("\n"); }
        out.append("\n");
        let ghost mut t: Seq<Seq<char>> = Seq::new(self.map@.len(), |i: int| plain_glyph(self.map@[i]));
        let ghost start = out@;
        assert forall|i: int| 0 <= i < t.len() implies rendered_as(#[trigger] t[i], self.map@[i]) by {
            assert(self.map@[i] is Empty || !(self.map@[i] is Empty));
        }
        let w = self.width;
        let h = self.height;
        let mut k: u16 = 0;
        proof { reveal_strlit("|"); reveal_strlit("|\n"); }
        while k < h
            invariant
                self.shaped(),
                w == self.width,
                h == self.height,
                k <= h,
                t.len() == self.map@.len(),
                forall|i: int| 0 <= i < t.len() ==> rendered_as(#[trigger] t[i], self.map@[i]),
                out@ =~= start + self.rows_text(t, k as int),
            decreases h - k,
        {
            proof { reveal_strlit("|"); reveal_strlit("|\n"); }
            let y: u16 = h - 1 - k;
            let ghost before = out@;
            out.append("|");
            let mut x: u16 = 0;
            while x < w
                invariant
                    self.shaped(),
                    w == self.width,
                    h == self.height,
                    k < h,
                    y == h - 1 - k,
                    x <= w,
                    t.len() == self.map@.len(),
                    forall|i: int| 0 <= i < t.len() ==> rendered_as(#[trigger] t[i], self.map@[i]),
                    before =~= start + self.rows_text(t, k as int),
                    out@ =~= before + seq!['|'] + concat_texts(t, y * w, x as int),
                decreases w - x,
            {
                let c = Coordinates { x, y };
                let p = self.index(c);
                let text = self.map[p].console_output();
                proof {
                    assert(p < (h - k) * w) by (nonlinear_arith)
                        requires p == y * w + x, x < w, y == h - 1 - k;
                    lemma_index_in_range(w as int, h as int, 0, y as int);
                    assert(y * w + w <= w * h) by (nonlinear_arith)
                        requires 0 <= y < h, w > 0;
                    let old_t = t;
                    t = t.update(p as int, text@);
                    self.lemma_rows_frame(old_t, k as int, p as int, text@);
                    lemma_concat_frame(old_t, y * w, x as int, p as int, text@);
                    assert(concat_texts(t, y * w, x + 1) == concat_texts(t, y * w, x as int) + t[y * w + x]);
                }
                out.append(text.as_str());
                x += 1;
            }
            out.append("|\n");
            proof {
                assert(self.rows_text(t, k + 1) == self.rows_text(t, k as int) + self.row_text(t, y as int));
            }
            k += 1;
        }
        out.append(line.as_str());
        assert(out@ =~= self.dump_text(t));
        out
    }
}

impl TileMap {
    /// A mine field of the given size with `mine_count` mines at random cells.
    pub fn generate(width: u16, height: u16, mine_count: u16) -> (r: Result<TileMap, MapError>)
        ensures
            r == Err::<TileMap, MapError>(MapError::EmptyArea) <==> (width == 0 || height == 0),
            r == Err::<TileMap, MapError>(MapError::TooManyMines) <==> (width > 0 && height > 0
                && mine_count >= width * height),
            r matches Err(e) ==> e != MapError::InvalidMine,
            r matches Ok(m) ==> {
                &&& m.valid()
                &&& m.width == width
                &&& m.height == height
                &&& m.mine_count == mine_count
            },
    {
        let mut m = TileMap::empty(width, height)?;
        m.place_mines(mine_count)?;
        Ok(m)
    }
}

/// Of a consistent field: the number of `Mine` tiles is `mine_count`, and
/// no cell holds a count of zero (such a cell is `Empty`).
pub proof fn lemma_mine_total(m: TileMap, x: int, y: int)
    requires
        m.valid(),
        m.in_bounds(x, y),
    ensures
        count_mines(m.map@) == m.mine_count,
        m.tile(x, y) != Tile::Neighbor(0),
{
    lemma_mines_among_bound(m, x, y, 8);
}

/// Of a consistent field: a cell without a mine is `Neighbor(n)`, for `n`
/// from 1 to 8, exactly when `n` of the cells around it inside the grid
/// hold mines.
pub proof fn lemma_neighbor_count(m: TileMap, x: int, y: int, n: u8)
    requires
        m.valid(),
        m.in_bounds(x, y),
        !(m.tile(x, y) is Mine),
        1 <= n <= 8,
    ensures
        m.tile(x, y) == Tile::Neighbor(n) <==> m.mines_around(x, y) == n,
{
    lemma_mines_among_bound(m, x, y, 8);
}

/// Whatever the field, no mine lies outside the grid.
pub proof fn lemma_no_mine_outside(m: TileMap, x: int, y: int)
    requires
        x >= m.width || y >= m.height,
    ensures
        !m.mine_at(x, y),
{
}

/// None of the first `k` compass neighbours holds a mine when they count
/// no mine.
pub proof fn lemma_no_mine_among(m: TileMap, x: int, y: int, k: int, j: int)
    requires
        m.mines_among(x, y, k) == 0,
        0 <= j < k,
    ensures
        !m.mine_at(x + dx(j), y + dy(j)),
    decreases k,
{
    if j < k - 1 {
        lemma_no_mine_among(m, x, y, k - 1, j);
    }
}

/// Of a consistent field: no cell next to an `Empty` cell holds a mine.
pub proof fn lemma_empty_has_no_mine_around(m: TileMap, x: int, y: int, bx: int, by: int)
    requires
        m.valid(),
        m.in_bounds(x, y),
        m.tile(x, y) is Empty,
        adjacent(x, y, bx, by),
    ensures
        !m.mine_at(bx, by),
{
    lemma_adjacent_offset(x, y, bx, by);
    lemma_no_mine_among(m, x, y, 8, offset_rank(x, y, bx, by));
}

impl TileMap {
    /// The first `Empty` cell in storage order (bottom row first, left to
    /// right), a safe place to start a game from; `None` when there is none.
    pub fn first_empty(&self) -> (r: Option<Coordinates>)
        requires
            self.shaped(),
        ensures
            r is None <==> forall|i: int| 0 <= i < self.map@.len() ==> !(#[trigger] self.map@[i] is Empty),
            r matches Some(c) ==> {
                &&& self.in_bounds(c.x as int, c.y as int)
                &&& self.tile(c.x as int, c.y as int) is Empty
                &&& forall|i: int|
                    0 <= i < self.index_of(c.x as int, c.y as int) ==> !(#[trigger] self.map@[i] is Empty)
            },
    {
        let n: usize = self.map.len();
        let w = self.width;
        let mut i: usize = 0;
        while i < n
            invariant
                self.shaped(),
                w == self.width,
                n == self.map@.len(),
                i <= n,
                forall|j: int| 0 <= j < i ==> !(#[trigger] self.map@[j] is Empty),
            decreases n - i,
        {
            if let Tile::Empty = self.map[i] {
                proof {
                    lemma_position_cell(w as int, self.height as int, i as int);
                    lemma_index_inverse(w as int, (i % w as usize) as int, (i / w as usize) as int);
                }
                return Some(Coordinates { x: (i % w as usize) as u16, y: (i / w as usize) as u16 });
            }
            i += 1;
        }
        None
    }
}

} // verus!
