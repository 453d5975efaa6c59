use puzzle2048::{color_index, Board, Direction, Tile};

const N: usize = 4;

fn board_of(cells: &[(usize, usize, u64)]) -> Board {
    let mut b = Board::new();
    for &(r, c, v) in cells {
        b.insert_tile(Tile::new(v, r, c));
    }
    b
}

fn grid_of(b: &Board) -> Vec<Vec<Option<u64>>> {
    let mut g = Vec::new();
    for r in 0..N {
        let mut row = Vec::new();
        for c in 0..N {
            row.push(b.value_at(r, c));
        }
        g.push(row);
    }
    g
}

fn occupied_cells(b: &Board) -> usize {
    let mut n = 0;
    for r in 0..N {
        for c in 0..N {
            if b.value_at(r, c).is_some() {
                n += 1;
            }
        }
    }
    n
}

#[test]
fn move_left_merges_pair_before_four() {
    let mut b = board_of(&[(0, 0, 2), (0, 1, 2), (0, 2, 4)]);
    let moved = b.move_tiles(Direction::Left);
    assert!(moved);
    assert_eq!(b.value_at(0, 0), Some(4));
    assert_eq!(b.value_at(0, 1), Some(4));
    assert_eq!(b.value_at(0, 2), None);
    assert_eq!(b.value_at(0, 3), None);
    assert_eq!(b.tile_count(), 2);
}

#[test]
fn move_left_blocked_row_unchanged() {
    let mut b = board_of(&[(0, 0, 2), (0, 1, 4), (0, 2, 8), (0, 3, 16)]);
    let before = grid_of(&b);
    let moved = b.move_tiles(Direction::Left);
    assert!(!moved);
    assert_eq!(grid_of(&b), before);
    assert_eq!(b.tile_count(), 4);
}

#[test]
fn full_board_without_pairs_is_deadlocked() {
    let mut cells = Vec::new();
    for r in 0..N {
        for c in 0..N {
            let v = if (r + c) % 2 == 0 { 2 } else { 4 };
            cells.push((r, c, v));
        }
    }
    let mut b = board_of(&cells);
    let before = grid_of(&b);
    for d in [Direction::Left, Direction::Right, Direction::Up, Direction::Down] {
        let moved = b.move_tiles(d);
        assert!(!moved);
        assert_eq!(grid_of(&b), before);
        assert_eq!(b.tile_count(), 16);
    }
}

#[test]
fn three_equal_tiles_merge_once() {
    let mut b = board_of(&[(0, 0, 2), (0, 1, 2), (0, 2, 2)]);
    let moved = b.move_tiles(Direction::Left);
    assert!(moved);
    assert_eq!(b.value_at(0, 0), Some(4));
    assert_eq!(b.value_at(0, 1), Some(2));
    assert_eq!(b.value_at(0, 2), None);
    assert_eq!(b.tile_count(), 2);
}

#[test]
fn four_equal_tiles_merge_pairwise() {
    let mut b = board_of(&[(0, 0, 2), (0, 1, 2), (0, 2, 2), (0, 3, 2)]);
    let moved = b.move_tiles(Direction::Left);
    assert!(moved);
    assert_eq!(b.value_at(0, 0), Some(4));
    assert_eq!(b.value_at(0, 1), Some(4));
    assert_eq!(b.value_at(0, 2), None);
    assert_eq!(b.value_at(0, 3), None);
    assert_eq!(b.tile_count(), 2);
}

#[test]
fn repeated_move_without_pairs_reports_no_move() {
    let mut b = board_of(&[(0, 0, 2), (0, 2, 4), (2, 1, 8)]);
    let first = b.move_tiles(Direction::Left);
    assert!(first);
    let before = grid_of(&b);
    let second = b.move_tiles(Direction::Left);
    assert!(!second);
    assert_eq!(grid_of(&b), before);
}

#[test]
fn repeated_move_can_merge_what_the_first_left_adjacent() {
    let mut b = board_of(&[(0, 0, 2), (0, 1, 2), (0, 2, 2), (0, 3, 2)]);
    assert!(b.move_tiles(Direction::Left));
    assert_eq!(b.value_at(0, 0), Some(4));
    assert_eq!(b.value_at(0, 1), Some(4));
    let second = b.move_tiles(Direction::Left);
    assert!(second);
    assert_eq!(b.value_at(0, 0), Some(8));
    assert_eq!(b.value_at(0, 1), None);
    assert_eq!(b.tile_count(), 1);
}

#[test]
fn move_right_packs_against_right_edge() {
    let mut b = board_of(&[(0, 0, 2), (0, 1, 2), (1, 0, 8)]);
    let moved = b.move_tiles(Direction::Right);
    assert!(moved);
    assert_eq!(b.value_at(0, 3), Some(4));
    assert_eq!(b.value_at(1, 3), Some(8));
    assert_eq!(b.tile_count(), 2);
}

#[test]
fn move_up_merges_along_columns() {
    let mut b = board_of(&[(1, 0, 2), (3, 0, 2), (2, 2, 4)]);
    let moved = b.move_tiles(Direction::Up);
    assert!(moved);
    assert_eq!(b.value_at(0, 0), Some(4));
    assert_eq!(b.value_at(0, 2), Some(4));
    assert_eq!(b.tile_count(), 2);
}

#[test]
fn move_down_merges_toward_bottom() {
    let mut b = board_of(&[(0, 1, 2), (1, 1, 2), (2, 1, 4)]);
    let moved = b.move_tiles(Direction::Down);
    assert!(moved);
    assert_eq!(b.value_at(3, 1), Some(4));
    assert_eq!(b.value_at(2, 1), Some(4));
    assert_eq!(b.value_at(1, 1), None);
    assert_eq!(b.value_at(0, 1), None);
    assert_eq!(b.tile_count(), 2);
}

#[test]
fn moves_keep_tiles_on_grid_and_one_per_cell() {
    let mut b = board_of(&[(0, 0, 2), (0, 1, 2), (1, 1, 2), (3, 3, 4), (2, 3, 4)]);
    for d in [Direction::Up, Direction::Left, Direction::Down, Direction::Right] {
        b.move_tiles(d);
        assert_eq!(occupied_cells(&b), b.tile_count());
        for i in 0..b.tile_count() {
            let t = b.tile(i);
            assert!(t.row < N && t.col < N);
        }
    }
}

#[test]
fn no_move_leaves_tiles_untouched() {
    let mut b = board_of(&[(0, 0, 2), (1, 0, 4)]);
    let tiles_before: Vec<Tile> = (0..b.tile_count()).map(|i| b.tile(i)).collect();
    let moved = b.move_tiles(Direction::Left);
    assert!(!moved);
    let tiles_after: Vec<Tile> = (0..b.tile_count()).map(|i| b.tile(i)).collect();
    assert_eq!(tiles_before, tiles_after);
}

#[test]
fn spawn_on_empty_board_adds_one_small_tile() {
    let mut b = Board::new();
    b.spawn_tile();
    assert_eq!(b.tile_count(), 1);
    assert_eq!(occupied_cells(&b), 1);
    let t = b.tile(0);
    assert!(t.row < N && t.col < N);
    assert!(t.value == 2 || t.value == 4);
}

#[test]
fn spawn_on_full_board_is_a_no_op() {
    let mut cells = Vec::new();
    for r in 0..N {
        for c in 0..N {
            let v = if (r + c) % 2 == 0 { 2 } else { 4 };
            cells.push((r, c, v));
        }
    }
    let mut b = board_of(&cells);
    let before = grid_of(&b);
    b.spawn_tile();
    assert_eq!(b.tile_count(), 16);
    assert_eq!(grid_of(&b), before);
}

#[test]
fn spawn_fills_only_the_free_cell() {
    let mut cells = Vec::new();
    for r in 0..N {
        for c in 0..N {
            if (r, c) != (2, 1) {
                let v = if (r + c) % 2 == 0 { 2 } else { 4 };
                cells.push((r, c, v));
            }
        }
    }
    let mut b = board_of(&cells);
    b.spawn_tile();
    assert_eq!(b.tile_count(), 16);
    let v = b.value_at(2, 1).unwrap();
    assert!(v == 2 || v == 4);
}

#[test]
fn spawn_draws_value_four_about_one_time_in_nine() {
    macroquad::rand::srand(123_456_789);
    let trials = 9000;
    let mut fours = 0;
    for _ in 0..trials {
        let mut b = Board::new();
        b.spawn_tile();
        if b.tile(0).value == 4 {
            fours += 1;
        }
    }
    assert!(fours > 500, "too few fours: {fours}");
    assert!(fours < 1700, "too many fours: {fours}");
}

#[test]
fn new_game_seeds_two_tiles_of_value_two() {
    macroquad::rand::srand(42);
    let b = Board::new_game();
    assert_eq!(b.tile_count(), 2);
    assert_eq!(occupied_cells(&b), 2);
    let (t0, t1) = (b.tile(0), b.tile(1));
    assert_eq!(t0.value, 2);
    assert_eq!(t1.value, 2);
    assert!((t0.row, t0.col) != (t1.row, t1.col));
}

#[test]
fn find_tile_reports_the_occupying_tile() {
    let b = board_of(&[(1, 2, 8)]);
    let i = b.find_tile(1, 2).unwrap();
    let t = b.tile(i);
    assert_eq!((t.row, t.col, t.value), (1, 2, 8));
    assert!(b.find_tile(0, 0).is_none());
    assert_eq!(b.value_at(1, 2), Some(8));
    assert_eq!(b.value_at(2, 1), None);
}

#[test]
fn color_index_follows_the_value_ladder() {
    assert_eq!(color_index(2), 0);
    assert_eq!(color_index(4), 1);
    assert_eq!(color_index(8), 2);
    assert_eq!(color_index(512), 8);
    assert_eq!(color_index(1024), 9);
    assert_eq!(color_index(2048), 9);
    assert_eq!(color_index(65536), 9);
}
