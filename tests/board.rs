use minesweeper::{Board, Coordinates, Tile, TileMap};

fn c(x: u16, y: u16) -> Coordinates {
    Coordinates { x, y }
}

fn board_with(width: u16, height: u16, mines: &[Coordinates]) -> Board {
    let mut m = TileMap::empty(width, height).unwrap();
    m.place_mines_at(&mines.to_vec()).unwrap();
    Board::new(m)
}

fn covered(b: &Board, x: u16, y: u16) -> bool {
    b.covered_tiles[y as usize * b.tile_map.width as usize + x as usize]
}

#[test]
fn new_board_covers_everything() {
    let b = board_with(3, 2, &[c(2, 1)]);
    assert_eq!(b.covered_count, 6);
    for y in 0..2 {
        for x in 0..3 {
            assert!(covered(&b, x, y));
            assert!(!b.is_marked(c(x, y)));
        }
    }
    assert!(!b.is_completed());
}

#[test]
fn one_cell_round_trip() {
    let m = TileMap::generate(1, 1, 0).unwrap();
    assert_eq!(m.tile_at(c(0, 0)), Some(Tile::Empty));
    let mut b = Board::new(m);
    assert!(!b.is_completed());
    let out = b.reveal_tile(c(0, 0));
    assert_eq!(out.revealed, vec![c(0, 0)]);
    assert!(out.completed);
    assert!(!out.mine_exploded);
    assert!(b.is_completed());
}

#[test]
fn corner_next_to_center_mine_reveals_alone() {
    let mut b = board_with(3, 3, &[c(1, 1)]);
    let out = b.reveal_tile(c(0, 0));
    assert_eq!(out.revealed, vec![c(0, 0)]);
    assert!(!out.mine_exploded);
    assert!(!out.completed);
    assert_eq!(b.covered_count, 8);
    assert!(!covered(&b, 0, 0));
    assert!(covered(&b, 1, 0));
}

#[test]
fn flag_blocks_first_reveal() {
    let mut b = board_with(3, 3, &[c(2, 2)]);
    assert_eq!(b.toggle_mark(c(0, 0)), Some((0, true)));
    let out = b.reveal_tile(c(0, 0));
    assert!(out.revealed.is_empty());
    assert!(covered(&b, 0, 0));
    assert!(!b.is_marked(c(0, 0)));
    let out = b.reveal_tile(c(0, 0));
    assert_eq!(out.revealed[0], c(0, 0));
    assert!(!covered(&b, 0, 0));
}

#[test]
fn last_safe_cell_completes_the_board() {
    let mut b = board_with(2, 2, &[c(0, 0), c(1, 0), c(1, 1)]);
    assert_eq!(b.tile_map.tile_at(c(0, 1)), Some(Tile::Neighbor(3)));
    let out = b.reveal_tile(c(0, 1));
    assert_eq!(out.revealed, vec![c(0, 1)]);
    assert!(out.completed);
    assert!(b.is_completed());
}

#[test]
fn random_nearly_full_board_completes_on_its_safe_cell() {
    let m = TileMap::generate(2, 2, 3).unwrap();
    let safe = (0..4).map(|i| c(i % 2, i / 2)).find(|p| !m.is_mine_at(*p)).unwrap();
    assert_eq!(m.neighbor_count_at(safe), 3);
    let mut b = Board::new(m);
    let out = b.reveal_tile(safe);
    assert!(out.completed);
}

#[test]
fn cascade_stops_at_numbered_cells() {
    // Mines down the column x = 2 split the field in two.
    let mut b = board_with(5, 3, &[c(2, 0), c(2, 1), c(2, 2)]);
    let out = b.reveal_tile(c(0, 0));
    let mut revealed = out.revealed.clone();
    revealed.sort();
    assert_eq!(revealed, vec![c(0, 0), c(0, 1), c(0, 2), c(1, 0), c(1, 1), c(1, 2)]);
    assert_eq!(out.revealed[0], c(0, 0));
    for y in 0..3 {
        assert!(covered(&b, 3, y));
        assert!(covered(&b, 4, y));
        assert!(covered(&b, 2, y));
    }
    assert!(!out.completed);
}

#[test]
fn cascade_reveals_whole_empty_region() {
    let mut b = board_with(5, 5, &[c(4, 4)]);
    let out = b.reveal_tile(c(0, 0));
    assert_eq!(out.revealed.len(), 24);
    assert!(covered(&b, 4, 4));
    assert!(out.completed);
    assert!(b.is_completed());
    let again = b.reveal_tile(c(1, 1));
    assert!(again.revealed.is_empty());
    assert!(!again.completed);
    assert!(b.is_completed());
    assert_eq!(b.toggle_mark(c(1, 1)), None);
    assert!(b.is_completed());
}

#[test]
fn cascade_skips_flagged_cells() {
    let mut b = board_with(4, 1, &[c(3, 0)]);
    b.toggle_mark(c(1, 0));
    let out = b.reveal_tile(c(0, 0));
    assert_eq!(out.revealed, vec![c(0, 0)]);
    assert!(covered(&b, 1, 0));
    assert!(b.is_marked(c(1, 0)));
}

#[test]
fn revealing_a_mine_explodes() {
    let mut b = board_with(2, 2, &[c(1, 1)]);
    let out = b.reveal_tile(c(1, 1));
    assert!(out.mine_exploded);
    assert_eq!(out.revealed, vec![c(1, 1)]);
    assert!(!out.completed);
}

#[test]
fn outside_and_revealed_cells_are_left_alone() {
    let mut b = board_with(2, 2, &[c(1, 1)]);
    let out = b.reveal_tile(c(5, 5));
    assert!(out.revealed.is_empty());
    assert_eq!(b.toggle_mark(c(5, 5)), None);
    assert_eq!(b.uncover_tile(c(0, 0)), Some(0));
    assert_eq!(b.uncover_tile(c(0, 0)), None);
    assert_eq!(b.toggle_mark(c(0, 0)), None);
    assert_eq!(b.covered_count, 3);
}

#[test]
fn toggle_mark_flips_back_and_forth() {
    let mut b = board_with(3, 3, &[c(0, 0)]);
    assert_eq!(b.toggle_mark(c(2, 1)), Some((5, true)));
    assert!(b.is_marked(c(2, 1)));
    assert_eq!(b.get_covered_tile(c(2, 1)), None);
    assert_eq!(b.toggle_mark(c(2, 1)), Some((5, false)));
    assert_eq!(b.get_covered_tile(c(2, 1)), Some(5));
}

#[test]
fn uncover_tile_removes_a_flag_first() {
    let mut b = board_with(3, 3, &[c(0, 0)]);
    b.toggle_mark(c(1, 1));
    assert_eq!(b.uncover_tile(c(1, 1)), None);
    assert!(!b.is_marked(c(1, 1)));
    assert_eq!(b.uncover_tile(c(1, 1)), Some(4));
}

#[test]
fn covered_neighbors_skip_flags_and_revealed_cells() {
    let mut b = board_with(3, 3, &[c(2, 2)]);
    b.toggle_mark(c(1, 0));
    b.uncover_tile(c(0, 1));
    assert_eq!(b.get_covered_neighbors(c(0, 0)), vec![4]);
    assert_eq!(b.get_covered_neighbors(c(1, 1)), vec![0, 2, 5, 6, 7, 8]);
}
