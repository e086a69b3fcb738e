use minesweeper::tile::{decimal_text, mine_counter_color_index};
use minesweeper::{Coordinates, MapError, Tile, TileMap};

fn c(x: u16, y: u16) -> Coordinates {
    Coordinates { x, y }
}

fn tile(m: &TileMap, x: u16, y: u16) -> Tile {
    m.tile_at(c(x, y)).unwrap()
}

fn count_mines(m: &TileMap) -> usize {
    let mut n = 0;
    for y in 0..m.height {
        for x in 0..m.width {
            if tile(m, x, y) == Tile::Mine {
                n += 1;
            }
        }
    }
    n
}

fn mines_around(m: &TileMap, x: u16, y: u16) -> u8 {
    let mut n = 0;
    for dy in -1i32..=1 {
        for dx in -1i32..=1 {
            if dx == 0 && dy == 0 {
                continue;
            }
            let (nx, ny) = (x as i32 + dx, y as i32 + dy);
            if nx >= 0 && ny >= 0 && nx < m.width as i32 && ny < m.height as i32 {
                if tile(m, nx as u16, ny as u16) == Tile::Mine {
                    n += 1;
                }
            }
        }
    }
    n
}

#[test]
fn empty_map_holds_only_empty_tiles() {
    let m = TileMap::empty(4, 3).unwrap();
    assert_eq!((m.width, m.height, m.mine_count), (4, 3, 0));
    for y in 0..3 {
        for x in 0..4 {
            assert_eq!(tile(&m, x, y), Tile::Empty);
        }
    }
}

#[test]
fn empty_map_rejects_zero_area() {
    assert_eq!(TileMap::empty(0, 3).unwrap_err(), MapError::EmptyArea);
    assert_eq!(TileMap::empty(3, 0).unwrap_err(), MapError::EmptyArea);
}

#[test]
fn generated_grid_has_exact_mines_and_no_zero_counts() {
    for _ in 0..20 {
        let m = TileMap::generate(9, 7, 20).unwrap();
        assert_eq!(m.mine_count, 20);
        assert_eq!(count_mines(&m), 20);
        for y in 0..7 {
            for x in 0..9 {
                assert_ne!(tile(&m, x, y), Tile::Neighbor(0));
            }
        }
    }
}

#[test]
fn generated_grid_counts_neighbors() {
    let m = TileMap::generate(10, 8, 25).unwrap();
    for y in 0..8 {
        for x in 0..10 {
            let t = tile(&m, x, y);
            if t != Tile::Mine {
                let n = mines_around(&m, x, y);
                assert_eq!(t, if n == 0 { Tile::Empty } else { Tile::Neighbor(n) });
                assert_eq!(m.neighbor_count_at(c(x, y)), n);
            } else {
                assert_eq!(m.neighbor_count_at(c(x, y)), 0);
            }
        }
    }
}

#[test]
fn generate_rejects_too_many_mines() {
    assert_eq!(TileMap::generate(2, 2, 4).unwrap_err(), MapError::TooManyMines);
    assert_eq!(TileMap::generate(0, 2, 1).unwrap_err(), MapError::EmptyArea);
    let mut m = TileMap::empty(3, 3).unwrap();
    assert_eq!(m.place_mines(9), Err(MapError::TooManyMines));
    assert_eq!(count_mines(&m), 0);
}

#[test]
fn nearly_full_grid_is_generated() {
    let m = TileMap::generate(5, 5, 24).unwrap();
    assert_eq!(count_mines(&m), 24);
}

#[test]
fn is_mine_at_is_false_outside() {
    let mut m = TileMap::empty(3, 2).unwrap();
    m.place_mines(5).unwrap();
    for &(x, y) in &[(3, 0), (0, 2), (3, 2), (65_535, 0), (0, 65_535), (65_535, 65_535)] {
        assert!(!m.is_mine_at(c(x, y)));
        assert!(m.is_out_of_bounds(c(x, y)));
        assert_eq!(m.tile_at(c(x, y)), None);
    }
}

#[test]
fn center_mine_surrounded_by_ones() {
    let mut m = TileMap::empty(3, 3).unwrap();
    m.place_mines_at(&vec![c(1, 1)]).unwrap();
    assert_eq!(m.mine_count, 1);
    for y in 0..3 {
        for x in 0..3 {
            let expected = if (x, y) == (1, 1) { Tile::Mine } else { Tile::Neighbor(1) };
            assert_eq!(tile(&m, x, y), expected);
        }
    }
}

#[test]
fn place_mines_at_rejects_bad_positions() {
    let mut m = TileMap::empty(3, 3).unwrap();
    assert_eq!(m.place_mines_at(&vec![c(0, 0), c(3, 0)]), Err(MapError::InvalidMine));
    assert_eq!(m.place_mines_at(&vec![c(0, 0), c(0, 0)]), Err(MapError::InvalidMine));
    let all: Vec<Coordinates> = (0..9).map(|i| c(i % 3, i / 3)).collect();
    assert_eq!(m.place_mines_at(&all), Err(MapError::TooManyMines));
    assert_eq!(count_mines(&m), 0);
}

#[test]
fn three_mines_on_two_by_two() {
    let mut m = TileMap::empty(2, 2).unwrap();
    m.place_mines_at(&vec![c(0, 0), c(1, 0), c(1, 1)]).unwrap();
    assert_eq!(tile(&m, 0, 1), Tile::Neighbor(3));
    assert_eq!(m.neighbor_count_at(c(0, 1)), 3);
}

#[test]
fn corner_counts_clip_to_the_grid() {
    let mut m = TileMap::empty(4, 4).unwrap();
    m.place_mines_at(&vec![c(0, 1), c(1, 0), c(1, 1), c(3, 3)]).unwrap();
    assert_eq!(tile(&m, 0, 0), Tile::Neighbor(3));
    assert_eq!(tile(&m, 3, 0), Tile::Empty);
    assert_eq!(tile(&m, 2, 2), Tile::Neighbor(2));
    assert_eq!(tile(&m, 2, 1), Tile::Neighbor(2));
    assert_eq!(tile(&m, 3, 2), Tile::Neighbor(1));
}

#[test]
fn safe_square_leaves_out_unrepresentable_cells() {
    let m = TileMap::empty(2, 2).unwrap();
    assert_eq!(m.safe_square_at(c(0, 0)), vec![c(1, 0), c(0, 1), c(1, 1)]);
    assert_eq!(m.safe_square_at(c(5, 5)).len(), 8);
    assert_eq!(m.safe_square_at(c(5, 5))[0], c(4, 4));
    assert_eq!(m.safe_square_at(c(65_535, 0)), vec![c(65_534, 0), c(65_534, 1), c(65_535, 1)]);
}

#[test]
fn first_empty_is_the_first_in_storage_order() {
    let mut m = TileMap::empty(3, 3).unwrap();
    m.place_mines_at(&vec![c(0, 0)]).unwrap();
    assert_eq!(m.first_empty(), Some(c(2, 0)));
    let mut full = TileMap::empty(2, 2).unwrap();
    full.place_mines_at(&vec![c(0, 0), c(1, 0), c(1, 1)]).unwrap();
    assert_eq!(full.first_empty(), None);
}

#[test]
fn decimal_text_writes_numbers() {
    assert_eq!(decimal_text(0), "0");
    assert_eq!(decimal_text(7), "7");
    assert_eq!(decimal_text(1234), "1234");
    assert_eq!(decimal_text(65_535), "65535");
}

#[test]
fn tile_console_output_without_colors() {
    colored::control::set_override(false);
    assert_eq!(Tile::Empty.console_output(), " ");
    assert_eq!(Tile::Mine.console_output(), "*");
    assert_eq!(Tile::Neighbor(2).console_output(), "2");
    assert_eq!(Tile::Neighbor(12).console_output(), "12");
}

#[test]
fn tile_console_output_with_colors() {
    colored::control::set_override(true);
    assert_eq!(Tile::Empty.console_output(), " ");
    assert_eq!(Tile::Mine.console_output(), "\x1b[91m*\x1b[0m");
    assert_eq!(Tile::Neighbor(1).console_output(), "\x1b[36m1\x1b[0m");
    assert_eq!(Tile::Neighbor(2).console_output(), "\x1b[32m2\x1b[0m");
    assert_eq!(Tile::Neighbor(3).console_output(), "\x1b[33m3\x1b[0m");
    assert_eq!(Tile::Neighbor(5).console_output(), "\x1b[31m5\x1b[0m");
}

#[test]
fn map_console_output_draws_top_row_first() {
    colored::control::set_override(false);
    let mut m = TileMap::empty(3, 2).unwrap();
    m.place_mines_at(&vec![c(0, 0)]).unwrap();
    let expected = "Map (3x2) with 1 bombs:\n-----\n|11 |\n|*1 |\n-----";
    assert_eq!(m.console_output(), expected);
}

#[test]
fn mine_counter_colors_are_clamped() {
    assert_eq!(mine_counter_color_index(1, 5), Some(0));
    assert_eq!(mine_counter_color_index(0, 5), Some(0));
    assert_eq!(mine_counter_color_index(3, 5), Some(2));
    assert_eq!(mine_counter_color_index(8, 5), Some(4));
    assert_eq!(mine_counter_color_index(2, 0), None);
}

#[test]
fn mine_placement_varies_between_draws() {
    let layout = |m: &TileMap| -> Vec<bool> {
        (0..100).map(|i| m.is_mine_at(c(i % 10, i / 10))).collect()
    };
    let first = layout(&TileMap::generate(10, 10, 10).unwrap());
    let mut differs = false;
    for _ in 0..20 {
        if layout(&TileMap::generate(10, 10, 10).unwrap()) != first {
            differs = true;
        }
    }
    assert!(differs);
}
