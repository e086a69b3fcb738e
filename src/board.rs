//! The state of a game: which cells are still covered and which are flagged,
//! with the reveal and flag operations.
use vstd::prelude::*;
use crate::coordinates::Coordinates;
use crate::tile::Tile;
use crate::tile_map::{
    TileMap, adjacent, dx, dy, lemma_adjacent_offset, lemma_empty_has_no_mine_around,
    lemma_index_in_range, lemma_index_injective, offset_rank, representable,
};

verus! {

/// Number of `true` entries.
pub open spec fn count_true(s: Seq<bool>) -> nat
    decreases s.len(),
{
    if s.len() == 0 {
        0
    } else {
        count_true(s.drop_last()) + if s.last() {
            1nat
        } else {
            0nat
        }
    }
}

/// Setting one entry to `false` lowers the count by one exactly when the
/// entry was `true`.
pub proof fn lemma_count_true_clear(s: Seq<bool>, i: int)
    requires
        0 <= i < s.len(),
    ensures
        count_true(s.update(i, false)) + (if s[i] {
            1int
        } else {
            0int
        }) == count_true(s),
    decreases s.len(),
{
    if i < s.len() - 1 {
        assert(s.update(i, false).drop_last() =~= s.drop_last().update(i, false));
        lemma_count_true_clear(s.drop_last(), i);
    } else {
        assert(s.update(i, false).drop_last() =~= s.drop_last());
    }
}

proof fn lemma_count_true_all(s: Seq<bool>)
    requires
        forall|i: int| 0 <= i < s.len() ==> s[i],
    ensures
        count_true(s) == s.len(),
    decreases s.len(),
{
    if s.len() > 0 {
        lemma_count_true_all(s.drop_last());
    }
}

/// A game in progress over a mine field.
///
/// Each cell is covered and unflagged, covered and flagged, or revealed. The
/// handle of a cell, as the operations report it, is its storage position in
/// the field (`y * width + x`).
#[derive(Debug)]
pub struct Board {
    pub tile_map: TileMap,
    /// `covered_tiles[i]`: the cell at storage position `i` is not revealed.
    pub covered_tiles: Vec<bool>,
    /// `marked_tiles[i]`: the cell at storage position `i` carries a flag.
    pub marked_tiles: Vec<bool>,
    /// Number of covered cells.
    pub covered_count: usize,
}

/// What a reveal did.
#[derive(Debug)]
pub struct RevealOutcome {
    /// The cells that were revealed, in the order they were revealed.
    pub revealed: Vec<Coordinates>,
    /// A mine was revealed.
    pub mine_exploded: bool,
    /// The board became completed by this reveal.
    pub completed: bool,
}

impl Board {
    /// The cell `(x, y)` lies in the field and is not revealed yet.
    pub open spec fn covered(self, x: int, y: int) -> bool {
        self.tile_map.in_bounds(x, y) && self.covered_tiles@[self.tile_map.index_of(x, y)]
    }

    /// The cell `(x, y)` lies in the field and carries a flag.
    pub open spec fn marked(self, x: int, y: int) -> bool {
        self.tile_map.in_bounds(x, y) && self.marked_tiles@[self.tile_map.index_of(x, y)]
    }

    /// Number of covered cells.
    pub open spec fn covered_len(self) -> nat {
        count_true(self.covered_tiles@)
    }

    /// Every cell without a mine has been revealed: as many cells are
    /// covered as there are mines.
    pub open spec fn complete(self) -> bool {
        self.covered_len() == self.tile_map.mine_count
    }

    /// A consistent field, one covered and one flag entry per cell, the count
    /// of covered cells, and flags on covered cells only.
    pub open spec fn wf(self) -> bool {
        &&& self.tile_map.valid()
        &&& self.covered_tiles@.len() == self.tile_map.map@.len()
        &&& self.marked_tiles@.len() == self.tile_map.map@.len()
        &&& self.covered_count == self.covered_len()
        &&& forall|i: int|
            0 <= i < self.marked_tiles@.len() ==> #[trigger] self.marked_tiles@[i]
                ==> self.covered_tiles@[i]
    }

    /// A new game: every cell covered, none flagged.
    pub fn new(tile_map: TileMap) -> (r: Board)
        requires
            tile_map.valid(),
        ensures
            r.wf(),
            r.tile_map == tile_map,
            forall|x: int, y: int| tile_map.in_bounds(x, y) ==> #[trigger] r.covered(x, y) && !r.marked(x, y),
            r.covered_len() == tile_map.cell_count(),
    {
        let n: usize = tile_map.map.len();
        let mut covered_tiles: Vec<bool> = Vec::new();
        let mut marked_tiles: Vec<bool> = Vec::new();
        while covered_tiles.len() < n
            invariant
                covered_tiles@.len() == marked_tiles@.len(),
                covered_tiles@.len() <= n,
                forall|i: int| 0 <= i < covered_tiles@.len() ==> covered_tiles@[i],
                forall|i: int| 0 <= i < marked_tiles@.len() ==> !marked_tiles@[i],
            decreases n - covered_tiles@.len(),
        {
            covered_tiles.push(true);
            marked_tiles.push(false);
        }
        proof {
            lemma_count_true_all(covered_tiles@);
            assert forall|x: int, y: int| tile_map.in_bounds(x, y) implies 0 <= #[trigger] tile_map.index_of(x, y) < n by {
                lemma_index_in_range(tile_map.width as int, tile_map.height as int, x, y);
            }
        }
        Board { tile_map, covered_tiles, marked_tiles, covered_count: n }
    }

    /// Storage position of `c`, or `None` outside the field.
    fn position(&self, c: Coordinates) -> (r: Option<usize>)
        requires
            self.wf(),
        ensures
            r is Some <==> self.tile_map.in_bounds(c.x as int, c.y as int),
            r matches Some(i) ==> i == self.tile_map.index_of(c.x as int, c.y as int) && i
                < self.covered_tiles@.len(),
    {
        if c.x >= self.tile_map.width || c.y >= self.tile_map.height {
            None
        } else {
            Some(self.tile_map.index(c))
        }
    }

    /// Whether `c` carries a flag.
    pub fn is_marked(&self, c: Coordinates) -> (r: bool)
        requires
            self.wf(),
        ensures
            r == self.marked(c.x as int, c.y as int),
    {
        match self.position(c) {
            Some(i) => self.marked_tiles[i],
            None => false,
        }
    }

    /// The handle of `c` if it is covered and carries no flag.
    pub fn get_covered_tile(&self, c: Coordinates) -> (r: Option<usize>)
        requires
            self.wf(),
        ensures
            r is Some <==> self.covered(c.x as int, c.y as int) && !self.marked(c.x as int, c.y as int),
            r matches Some(i) ==> i == self.tile_map.index_of(c.x as int, c.y as int),
    {
        match self.position(c) {
            Some(i) => if self.covered_tiles[i] && !self.marked_tiles[i] {
                Some(i)
            } else {
                None
            },
            None => None,
        }
    }

    /// Reveals the cell at storage position `i`, which is covered and not
    /// flagged.
    fn uncover_position(&mut self, i: usize)
        requires
            old(self).wf(),
            i < old(self).covered_tiles@.len(),
            old(self).covered_tiles@[i as int],
            !old(self).marked_tiles@[i as int],
        ensures
            final(self).wf(),
            final(self).tile_map == old(self).tile_map,
            final(self).marked_tiles == old(self).marked_tiles,
            final(self).covered_tiles@ == old(self).covered_tiles@.update(i as int, false),
            final(self).covered_count + 1 == old(self).covered_count,
    {
        proof {
            lemma_count_true_clear(self.covered_tiles@, i as int);
        }
        self.covered_tiles.set(i, false);
        self.covered_count = self.covered_count - 1;
    }

    /// Removes the flag of the cell at storage position `i`.
    fn unmark_position(&mut self, i: usize)
        requires
            old(self).wf(),
            i < old(self).marked_tiles@.len(),
        ensures
            final(self).wf(),
            final(self).tile_map == old(self).tile_map,
            final(self).covered_tiles == old(self).covered_tiles,
            final(self).covered_count == old(self).covered_count,
            final(self).marked_tiles@ == old(self).marked_tiles@.update(i as int, false),
    {
        self.marked_tiles.set(i, false);
    }

    /// Tries to reveal `c` alone, without looking at its neighbours. A flag
    /// on `c` is removed instead and `None` comes back; so it does for a cell
    /// that is revealed already or lies outside the field. Otherwise `c` is
    /// revealed and its handle comes back.
    pub fn uncover_tile(&mut self, c: Coordinates) -> (r: Option<usize>)
        requires
            old(self).wf(),
        ensures
            final(self).wf(),
            final(self).tile_map == old(self).tile_map,
            old(self).marked(c.x as int, c.y as int) ==> {
                &&& r is None
                &&& final(self).covered_tiles == old(self).covered_tiles
                &&& final(self).covered_count == old(self).covered_count
                &&& final(self).marked_tiles@ == old(self).marked_tiles@.update(
                    old(self).tile_map.index_of(c.x as int, c.y as int),
                    false,
                )
            },
            !old(self).covered(c.x as int, c.y as int) ==> r is None && *final(self) == *old(self),
            old(self).covered(c.x as int, c.y as int) && !old(self).marked(c.x as int, c.y as int)
                ==> {
                &&& r == Some(old(self).tile_map.index_of(c.x as int, c.y as int) as usize)
                &&& final(self).marked_tiles == old(self).marked_tiles
                &&& final(self).covered_tiles@ == old(self).covered_tiles@.update(
                    old(self).tile_map.index_of(c.x as int, c.y as int),
                    false,
                )
                &&& final(self).covered_count + 1 == old(self).covered_count
            },
    {
        match self.position(c) {
            Some(i) => {
                if self.marked_tiles[i] {
                    self.unmark_position(i);
                    None
                } else if self.covered_tiles[i] {
                    self.uncover_position(i);
                    Some(i)
                } else {
                    None
                }
            },
            None => None,
        }
    }

    /// What `toggle_mark(c)` does to the board `self`, giving `after` and
    /// reporting `r`: on a covered cell the flag flips and the handle comes
    /// back with the new flag state; otherwise nothing changes and `None`
    /// comes back.
    pub open spec fn toggles(self, after: Board, c: Coordinates, r: Option<(usize, bool)>) -> bool {
        let (x, y) = (c.x as int, c.y as int);
        &&& after.wf()
        &&& after.tile_map == self.tile_map
        &&& after.covered_tiles == self.covered_tiles
        &&& after.covered_count == self.covered_count
        &&& r is None <==> !self.covered(x, y)
        &&& r is None ==> after == self
        &&& r matches Some(p) ==> {
            &&& p.0 == self.tile_map.index_of(x, y)
            &&& p.1 == !self.marked(x, y)
            &&& after.marked_tiles@ == self.marked_tiles@.update(p.0 as int, p.1)
        }
    }

    /// Flips the flag of a covered cell and gives its handle and whether it
    /// is flagged now; `None`, and nothing changes, for a revealed cell or
    /// one outside the field.
    pub fn toggle_mark(&mut self, c: Coordinates) -> (r: Option<(usize, bool)>)
        requires
            old(self).wf(),
        ensures
            old(self).toggles(*final(self), c, r),
    {
        match self.position(c) {
            Some(i) => {
                if !self.covered_tiles[i] {
                    return None;
                }
                let now = !self.marked_tiles[i];
                self.marked_tiles.set(i, now);
                Some((i, now))
            },
            None => None,
        }
    }

    /// Whether every cell without a mine has been revealed.
    pub fn is_completed(&self) -> (r: bool)
        requires
            self.wf(),
        ensures
            r == self.complete(),
    {
        self.covered_count == self.tile_map.mine_count as usize
    }

    /// Handles of the neighbours of `c` by the first `k` compass offsets that
    /// are covered and carry no flag.
    pub open spec fn covered_neighbors_upto(self, c: Coordinates, k: int) -> Seq<usize>
        decreases k,
    {
        if k <= 0 {
            Seq::empty()
        } else {
            let prev = self.covered_neighbors_upto(c, k - 1);
            let (nx, ny) = (c.x + dx(k - 1), c.y + dy(k - 1));
            if representable(nx, ny) && self.covered(nx, ny) && !self.marked(nx, ny) {
                prev.push(self.tile_map.index_of(nx, ny) as usize)
            } else {
                prev
            }
        }
    }

    /// Handles of the neighbours of `c` that are covered and carry no flag,
    /// in the order of the compass offsets.
    pub fn get_covered_neighbors(&self, c: Coordinates) -> (r: Vec<usize>)
        requires
            self.wf(),
        ensures
            r@ == self.covered_neighbors_upto(c, 8),
    {
        let mut r: Vec<usize> = Vec::new();
        let mut k: usize = 0;
        while k < 8
            invariant
                self.wf(),
                k <= 8,
                r@ == self.covered_neighbors_upto(c, k as int),
            decreases 8 - k,
        {
            if let Some(p) = c.checked_offset(crate::tile_map::square_offset(k)) {
                if let Some(i) = self.get_covered_tile(p) {
                    r.push(i);
                }
            }
            k += 1;
        }
        r
    }
}

/// Each cell of `r` after the first is next to an earlier `Empty` one.
pub open spec fn each_follows_empty(m: TileMap, r: Seq<Coordinates>) -> bool {
    forall|i: int|
        1 <= i < r.len() ==> exists|j: int|
            0 <= j < i && m.tile(r[j].x as int, r[j].y as int) is Empty && adjacent(
                r[j].x as int,
                r[j].y as int,
                #[trigger] r[i].x as int,
                r[i].y as int,
            )
}

/// A cascade with every listed cell looked around is complete.
proof fn lemma_cascade_done(start: Board, after: Board, c: Coordinates, r: Seq<Coordinates>)
    requires
        after.tracks(start, c, r),
        after.settled_upto(r, r.len() as int),
    ensures
        start.cascade(after, c, r),
{
    reveal(Board::tracks);
    assert forall|i: int|
        0 <= i < r.len() && #[trigger] start.tile_map.tile(r[i].x as int, r[i].y as int) is Empty
        implies after.settled_around(r[i].x as int, r[i].y as int) by {
        assert(after.tile_map.tile(r[i].x as int, r[i].y as int) is Empty);
    }
}

/// `(x, y)` is one of the cells listed in `s`.
pub open spec fn lists(s: Seq<Coordinates>, x: int, y: int) -> bool {
    exists|i: int| 0 <= i < s.len() && s[i].x == x && s[i].y == y
}

impl Board {
    /// Every cell around `(x, y)` inside the field is revealed or flagged.
    pub open spec fn settled_around(self, x: int, y: int) -> bool {
        forall|bx: int, by: int|
            self.tile_map.in_bounds(bx, by) && adjacent(x, y, bx, by) ==> !#[trigger] self.covered(bx, by)
                || self.marked(bx, by)
    }

    /// What revealing a covered, unflagged cell `c` does, as a list `r` of
    /// revealed cells: `c` first, each other one next to an earlier `Empty`
    /// one, none listed twice, all covered and unflagged before and revealed
    /// after, while every other cell keeps its state; around each revealed
    /// `Empty` cell nothing is left covered but flagged cells.
    pub open spec fn cascade(self, after: Board, c: Coordinates, r: Seq<Coordinates>) -> bool {
        &&& r.len() >= 1
        &&& r[0] == c
        &&& after.tile_map == self.tile_map
        &&& after.marked_tiles@ == self.marked_tiles@
        &&& forall|i: int|
            0 <= i < r.len() ==> self.covered(#[trigger] r[i].x as int, r[i].y as int) && !self.marked(
                r[i].x as int,
                r[i].y as int,
            )
        &&& forall|i: int, j: int| 0 <= i < j < r.len() ==> #[trigger] r[i] != #[trigger] r[j]
        &&& forall|x: int, y: int|
            self.tile_map.in_bounds(x, y) ==> #[trigger] after.covered(x, y) == (self.covered(x, y)
                && !lists(r, x, y))
        &&& each_follows_empty(self.tile_map, r)
        &&& forall|i: int|
            0 <= i < r.len() && #[trigger] self.tile_map.tile(r[i].x as int, r[i].y as int) is Empty
                ==> after.settled_around(r[i].x as int, r[i].y as int)
    }

    /// The state of a cascade that started from `start` at `c` and has
    /// revealed the cells `r` so far: the same field and flags, `r` as
    /// `cascade` describes it but for the cells that are still to be looked
    /// around, and no mine among the cells after `c`.
    #[verifier::opaque]
    pub open spec fn tracks(self, start: Board, c: Coordinates, r: Seq<Coordinates>) -> bool {
        &&& self.wf()
        &&& start.wf()
        &&& self.tile_map == start.tile_map
        &&& self.marked_tiles@ == start.marked_tiles@
        &&& r.len() >= 1
        &&& r[0] == c
        &&& forall|i: int|
            0 <= i < r.len() ==> start.covered(#[trigger] r[i].x as int, r[i].y as int) && !start.marked(
                r[i].x as int,
                r[i].y as int,
            ) && !self.covered(r[i].x as int, r[i].y as int)
        &&& forall|i: int, j: int| 0 <= i < j < r.len() ==> #[trigger] r[i] != #[trigger] r[j]
        &&& forall|x: int, y: int|
            start.tile_map.in_bounds(x, y) ==> #[trigger] self.covered(x, y) == (start.covered(x, y)
                && !lists(r, x, y))
        &&& each_follows_empty(start.tile_map, r)
        &&& forall|i: int|
            1 <= i < r.len() ==> !(start.tile_map.tile(#[trigger] r[i].x as int, r[i].y as int) is Mine)
    }

    /// Around each of the first `m` cells of `r` that is `Empty`, nothing is
    /// left covered but flagged cells.
    pub open spec fn settled_upto(self, r: Seq<Coordinates>, m: int) -> bool {
        forall|i: int|
            0 <= i < m && #[trigger] self.tile_map.tile(r[i].x as int, r[i].y as int) is Empty
                ==> self.settled_around(r[i].x as int, r[i].y as int)
    }

    /// Reveals `q`, a covered and unflagged neighbour of the `Empty` cell
    /// `revealed[next - 1]`, and lists it.
    fn reveal_neighbor(
        &mut self,
        Ghost(start): Ghost<Board>,
        Ghost(c): Ghost<Coordinates>,
        revealed: &mut Vec<Coordinates>,
        next: usize,
        q: Coordinates,
        qi: usize,
    )
        requires
            old(self).tracks(start, c, old(revealed)@),
            old(self).settled_upto(old(revealed)@, next - 1),
            1 <= next <= old(revealed)@.len(),
            start.tile_map.in_bounds(old(revealed)@[next - 1].x as int, old(revealed)@[next - 1].y as int),
            start.tile_map.tile(old(revealed)@[next - 1].x as int, old(revealed)@[next - 1].y as int) is Empty,
            adjacent(old(revealed)@[next - 1].x as int, old(revealed)@[next - 1].y as int, q.x as int, q.y as int),
            old(self).covered(q.x as int, q.y as int),
            !old(self).marked(q.x as int, q.y as int),
            qi == start.tile_map.index_of(q.x as int, q.y as int),
        ensures
            final(self).tracks(start, c, final(revealed)@),
            final(self).settled_upto(final(revealed)@, next - 1),
            final(revealed)@ == old(revealed)@.push(q),
            final(self).covered_count + 1 == old(self).covered_count,
            forall|x: int, y: int| #[trigger] final(self).covered(x, y) ==> old(self).covered(x, y),
            final(self).marked_tiles@ == old(self).marked_tiles@,
    {
        proof {
            reveal(Board::tracks);
        }
        let ghost before = *self;
        let ghost rbefore = revealed@;
        let ghost p = rbefore[next - 1];
        let ghost w = self.tile_map.width as int;
        let ghost h = self.tile_map.height as int;
        proof {
            lemma_index_in_range(w, h, q.x as int, q.y as int);
        }
        self.uncover_position(qi);
        revealed.push(q);
        proof {
            let n = rbefore.len() as int;
            assert(revealed@[n] == q);
            lemma_empty_has_no_mine_around(start.tile_map, p.x as int, p.y as int, q.x as int, q.y as int);
            assert forall|x: int, y: int| start.tile_map.in_bounds(x, y) implies #[trigger] self.covered(x, y)
                == (before.covered(x, y) && !(x == q.x && y == q.y)) by {
                lemma_index_in_range(w, h, x, y);
                if self.tile_map.index_of(x, y) == qi {
                    lemma_index_injective(w, h, x, y, q.x as int, q.y as int);
                }
            }
            assert forall|x: int, y: int| start.tile_map.in_bounds(x, y) implies #[trigger] self.covered(x, y)
                == (start.covered(x, y) && !lists(revealed@, x, y)) by {
                if lists(rbefore, x, y) {
                    let i = choose|i: int| 0 <= i < rbefore.len() && rbefore[i].x == x && rbefore[i].y == y;
                    assert(revealed@[i] == rbefore[i]);
                }
                if lists(revealed@, x, y) && !(x == q.x && y == q.y) {
                    let i = choose|i: int| 0 <= i < revealed@.len() && revealed@[i].x == x && revealed@[i].y == y;
                    assert(rbefore[i] == revealed@[i]);
                }
                if x == q.x && y == q.y {
                    assert(lists(revealed@, x, y));
                }
            }
            assert forall|x: int, y: int| #[trigger] self.covered(x, y) implies before.covered(x, y) by {
                assert(start.tile_map.in_bounds(x, y));
            }
            assert forall|i: int, j: int| 0 <= i < j < revealed@.len() implies #[trigger] revealed@[i]
                != #[trigger] revealed@[j] by {
                if j == n {
                    assert(rbefore[i] == revealed@[i]);
                    assert(!before.covered(rbefore[i].x as int, rbefore[i].y as int));
                } else {
                    assert(rbefore[i] == revealed@[i] && rbefore[j] == revealed@[j]);
                }
            }
            assert forall|i: int| 1 <= i < revealed@.len() implies exists|j: int|
                0 <= j < i && start.tile_map.tile(revealed@[j].x as int, revealed@[j].y as int) is Empty
                    && adjacent(
                    revealed@[j].x as int,
                    revealed@[j].y as int,
                    #[trigger] revealed@[i].x as int,
                    revealed@[i].y as int,
                ) by {
                if i == n {
                    assert(revealed@[next - 1] == p);
                } else {
                    assert(rbefore[i] == revealed@[i]);
                    let j = choose|j: int|
                        0 <= j < i && start.tile_map.tile(rbefore[j].x as int, rbefore[j].y as int) is Empty
                            && adjacent(rbefore[j].x as int, rbefore[j].y as int, #[trigger] rbefore[i].x as int, rbefore[i].y as int);
                    assert(rbefore[j] == revealed@[j]);
                }
            }
            assert forall|i: int| 0 <= i < revealed@.len() implies start.covered(#[trigger] revealed@[i].x as int, revealed@[i].y as int)
                && !start.marked(revealed@[i].x as int, revealed@[i].y as int)
                && !self.covered(revealed@[i].x as int, revealed@[i].y as int) by {
                if i < n {
                    assert(rbefore[i] == revealed@[i]);
                }
            }
            assert forall|i: int| 1 <= i < revealed@.len() implies !(start.tile_map.tile(
                #[trigger] revealed@[i].x as int,
                revealed@[i].y as int,
            ) is Mine) by {
                if i < n {
                    assert(rbefore[i] == revealed@[i]);
                }
            }
            assert forall|i: int| 0 <= i < next - 1 && #[trigger] self.tile_map.tile(revealed@[i].x as int, revealed@[i].y as int) is Empty
                implies self.settled_around(revealed@[i].x as int, revealed@[i].y as int) by {
                assert(rbefore[i] == revealed@[i]);
                assert(before.settled_around(rbefore[i].x as int, rbefore[i].y as int));
            }
        }
    }

    /// Reveals every covered, unflagged neighbour of the `Empty` cell
    /// `revealed[next - 1]`, listing each.
    #[verifier::rlimit(40)]
    fn spread_around(
        &mut self,
        Ghost(start): Ghost<Board>,
        Ghost(c): Ghost<Coordinates>,
        revealed: &mut Vec<Coordinates>,
        next: usize,
    )
        requires
            old(self).tracks(start, c, old(revealed)@),
            old(self).settled_upto(old(revealed)@, next - 1),
            1 <= next <= old(revealed)@.len(),
            start.tile_map.in_bounds(old(revealed)@[next - 1].x as int, old(revealed)@[next - 1].y as int),
            start.tile_map.tile(old(revealed)@[next - 1].x as int, old(revealed)@[next - 1].y as int) is Empty,
        ensures
            final(self).tracks(start, c, final(revealed)@),
            final(self).settled_upto(final(revealed)@, next as int),
            final(self).wf(),
            final(self).tile_map == old(self).tile_map,
            final(revealed)@.len() >= old(revealed)@.len(),
            final(self).covered_count + final(revealed)@.len() == old(self).covered_count + old(revealed)@.len(),
    {
        proof {
            reveal(Board::tracks);
        }
        let p = revealed[next - 1];
        let mut k: usize = 0;
        while k < 8
            invariant
                self.tracks(start, c, revealed@),
                self.wf(),
                self.tile_map == start.tile_map,
                old(self).tile_map == start.tile_map,
                self.settled_upto(revealed@, next - 1),
                1 <= next <= revealed@.len(),
                old(revealed)@.len() <= revealed@.len(),
                p == revealed@[next - 1],
                start.tile_map.in_bounds(p.x as int, p.y as int),
                start.tile_map.tile(p.x as int, p.y as int) is Empty,
                k <= 8,
                self.covered_count + revealed@.len() == old(self).covered_count + old(revealed)@.len(),
                forall|j: int|
                    0 <= j < k && start.tile_map.in_bounds(p.x + dx(j), p.y + dy(j)) ==> !#[trigger] self.covered(
                        p.x + dx(j),
                        p.y + dy(j),
                    ) || self.marked(p.x + dx(j), p.y + dy(j)),
            decreases 8 - k,
        {
            let ghost before = *self;
            let ghost (qx, qy) = (p.x + dx(k as int), p.y + dy(k as int));
            match p.checked_offset(crate::tile_map::square_offset(k)) {
                Some(q) => {
                    match self.get_covered_tile(q) {
                        Some(qi) => {
                            let ghost rb = revealed@;
                            self.reveal_neighbor(Ghost(start), Ghost(c), revealed, next, q, qi);
                            proof {
                                reveal(Board::tracks);
                            }
                            assert(revealed@[next - 1] == rb[next - 1]);
                            assert(revealed@[revealed@.len() - 1] == q);
                            assert(!self.covered(qx, qy));
                        },
                        None => {
                            assert(!self.covered(qx, qy) || self.marked(qx, qy));
                        },
                    }
                },
                None => {
                    assert(!start.tile_map.in_bounds(qx, qy));
                },
            }
            proof {
                assert forall|j: int|
                    0 <= j <= k && start.tile_map.in_bounds(p.x + dx(j), p.y + dy(j)) implies !#[trigger] self.covered(
                        p.x + dx(j),
                        p.y + dy(j),
                    ) || self.marked(p.x + dx(j), p.y + dy(j)) by {
                    if j < k {
                        assert(!before.covered(p.x + dx(j), p.y + dy(j)) || before.marked(p.x + dx(j), p.y + dy(j)));
                        if self.covered(p.x + dx(j), p.y + dy(j)) {
                            assert(before.covered(p.x + dx(j), p.y + dy(j)));
                        }
                    }
                }
            }
            k += 1;
        }
        proof {
            assert forall|bx: int, by: int| self.tile_map.in_bounds(bx, by) && adjacent(p.x as int, p.y as int, bx, by)
                implies !#[trigger] self.covered(bx, by) || self.marked(bx, by) by {
                lemma_adjacent_offset(p.x as int, p.y as int, bx, by);
                let j = offset_rank(p.x as int, p.y as int, bx, by);
                assert(start.tile_map.in_bounds(p.x + dx(j), p.y + dy(j)));
            }
        }
    }

    /// What `reveal_tile(c)` does to the board `self`, giving `after` and
    /// reporting `r`. A flag on `c` is removed and nothing is revealed; a
    /// revealed cell or one outside the field is left alone; otherwise the
    /// cells are revealed as `cascade` says, a mine is reported exactly when
    /// `c` holds one (no cell after `c` does), and completion is reported when
    /// the board has just become complete.
    pub open spec fn reveals(self, after: Board, c: Coordinates, r: RevealOutcome) -> bool {
        let (x, y) = (c.x as int, c.y as int);
        &&& after.wf()
        &&& after.tile_map == self.tile_map
        &&& self.marked(x, y) ==> {
            &&& r.revealed@.len() == 0
            &&& after.covered_tiles == self.covered_tiles
            &&& after.marked_tiles@ == self.marked_tiles@.update(self.tile_map.index_of(x, y), false)
        }
        &&& !self.covered(x, y) ==> r.revealed@.len() == 0 && after == self
        &&& self.covered(x, y) && !self.marked(x, y) ==> self.cascade(after, c, r.revealed@)
        &&& r.mine_exploded == (self.covered(x, y) && !self.marked(x, y) && self.tile_map.tile(x, y) is Mine)
        &&& forall|i: int|
            1 <= i < r.revealed@.len() ==> !(self.tile_map.tile(
                #[trigger] r.revealed@[i].x as int,
                r.revealed@[i].y as int,
            ) is Mine)
        &&& r.completed == (!self.complete() && after.complete())
    }

    /// Reveals the covered, unflagged cell `c` and spreads from it.
    #[verifier::rlimit(40)]
    fn cascade_from(&mut self, c: Coordinates) -> (r: Vec<Coordinates>)
        requires
            old(self).wf(),
            old(self).covered(c.x as int, c.y as int),
            !old(self).marked(c.x as int, c.y as int),
        ensures
            final(self).wf(),
            old(self).cascade(*final(self), c, r@),
            forall|i: int|
                1 <= i < r@.len() ==> !(old(self).tile_map.tile(#[trigger] r@[i].x as int, r@[i].y as int) is Mine),
    {
        let ghost start = *self;
        let first = self.tile_map.index(c);
        self.uncover_position(first);
        let mut revealed: Vec<Coordinates> = Vec::new();
        revealed.push(c);
        proof {
            let w = self.tile_map.width as int;
            let h = self.tile_map.height as int;
            assert forall|x: int, y: int| start.tile_map.in_bounds(x, y) implies #[trigger] self.covered(x, y)
                == (start.covered(x, y) && !lists(revealed@, x, y)) by {
                lemma_index_in_range(w, h, x, y);
                if self.tile_map.index_of(x, y) == first {
                    lemma_index_injective(w, h, x, y, c.x as int, c.y as int);
                }
                assert(revealed@[0] == c);
            }
            assert(revealed@[0] == c);
            reveal(Board::tracks);
        }
        let mut next: usize = 0;
        while next < revealed.len()
            invariant
                self.tracks(start, c, revealed@),
                self.wf(),
                self.tile_map == start.tile_map,
                self.settled_upto(revealed@, next as int),
                next <= revealed@.len(),
            decreases 2 * self.covered_count + revealed@.len() - next,
        {
            let p = revealed[next];
            next += 1;
            if let Some(Tile::Empty) = self.tile_map.tile_at(p) {
                self.spread_around(Ghost(start), Ghost(c), &mut revealed, next);
            } else {
                proof {
                    reveal(Board::tracks);
                    assert(start.covered(p.x as int, p.y as int));
                }
                assert(self.settled_upto(revealed@, next as int));
            }
        }
        proof {
            lemma_cascade_done(start, *self, c, revealed@);
        }
        revealed
    }

    /// Reveals `c` as a player's click does. A flag on `c` is removed and
    /// nothing is revealed; a revealed cell or one outside the field is left
    /// alone. Otherwise `c` is revealed, and when it is `Empty` the reveal
    /// spreads to its covered, unflagged neighbours, on through `Empty`
    /// cells, and stops at cells that count mines.
    pub fn reveal_tile(&mut self, c: Coordinates) -> (r: RevealOutcome)
        requires
            old(self).wf(),
        ensures
            old(self).reveals(*final(self), c, r),
    {
        let was_complete = self.is_completed();
        let ghost start = *self;
        if self.is_marked(c) {
            let i = self.tile_map.index(c);
            self.unmark_position(i);
            return RevealOutcome { revealed: Vec::new(), mine_exploded: false, completed: false };
        }
        if self.get_covered_tile(c).is_none() {
            return RevealOutcome { revealed: Vec::new(), mine_exploded: false, completed: false };
        }
        let revealed = self.cascade_from(c);
        let completed = !was_complete && self.is_completed();
        let mine_exploded = match self.tile_map.tile_at(c) {
            Some(Tile::Mine) => true,
            _ => false,
        };
        RevealOutcome { revealed, mine_exploded, completed }
    }
}

/// Revealing a flagged cell reveals nothing and only removes the flag, so
/// the cell stays covered; revealing it a second time reveals it.
pub proof fn lemma_flag_protects(
    b0: Board,
    b1: Board,
    b2: Board,
    c: Coordinates,
    r1: RevealOutcome,
    r2: RevealOutcome,
)
    requires
        b0.wf(),
        b0.marked(c.x as int, c.y as int),
        b0.reveals(b1, c, r1),
        b1.reveals(b2, c, r2),
    ensures
        r1.revealed@.len() == 0,
        b1.covered(c.x as int, c.y as int),
        !b1.marked(c.x as int, c.y as int),
        r2.revealed@.len() >= 1,
        r2.revealed@[0] == c,
        !b2.covered(c.x as int, c.y as int),
{
    let (x, y) = (c.x as int, c.y as int);
    lemma_index_in_range(b0.tile_map.width as int, b0.tile_map.height as int, x, y);
    assert(b0.marked_tiles@[b0.tile_map.index_of(x, y)]);
    assert(lists(r2.revealed@, x, y)) by {
        assert(r2.revealed@[0] == c);
    }
}

/// A reveal that reveals nothing, and any flag toggle, leave the board as
/// complete or incomplete as it was.
pub proof fn lemma_completion_kept(b0: Board, b1: Board, c: Coordinates, r: RevealOutcome)
    requires
        b0.wf(),
        b0.reveals(b1, c, r),
        r.revealed@.len() == 0,
    ensures
        b1.complete() == b0.complete(),
        !r.completed,
{
}

/// A flag toggle leaves the board as complete or incomplete as it was.
pub proof fn lemma_completion_kept_by_flags(b0: Board, b1: Board, c: Coordinates, r: Option<(usize, bool)>)
    requires
        b0.wf(),
        b0.toggles(b1, c, r),
    ensures
        b1.complete() == b0.complete(),
{
}

} // verus!
