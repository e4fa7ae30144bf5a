use x800::board::{Board, Direction};
use x800::game::{scripted_action, Action, Outcome};
use x800::tile::{CornerSide, EdgeSide, Tile};

/// A board whose playable cells hold the given powers, row by row; zero
/// leaves a cell empty.
fn board_from(rows: [[u32; 4]; 4]) -> Board {
    let mut b = Board::new();
    for r in 0..4 {
        for c in 0..4 {
            if rows[r][c] != 0 {
                b.put_number(r + 1, c + 1, rows[r][c], 0);
            }
        }
    }
    b
}

/// The powers on the playable cells, row by row; zero for an empty cell.
fn powers(b: &Board) -> [[u32; 4]; 4] {
    let mut out = [[0; 4]; 4];
    for r in 0..4 {
        for c in 0..4 {
            out[r][c] = match b.tile(r + 1, c + 1) {
                Tile::Number(p, _) => p,
                Tile::Empty() => 0,
                _ => panic!("border inside the grid"),
            };
        }
    }
    out
}

fn empty_playable_cells(b: &Board) -> u32 {
    let mut n = 0;
    for r in 1..5 {
        for c in 1..5 {
            if b.tile(r, c) == Tile::Empty() {
                n += 1;
            }
        }
    }
    n
}

fn same_grid(a: &Board, b: &Board) -> bool {
    (0..6).all(|r| (0..6).all(|c| a.tile(r, c) == b.tile(r, c)))
}

#[test]
fn new_board_is_empty_and_bordered() {
    let b = Board::new();
    assert_eq!(b.score, 0);
    assert_eq!(b.open_tiles, 16);
    assert_eq!(b.max_tile, 0);
    assert!(b.has_space());
    assert_eq!(b.tile(0, 0), Tile::Corner(CornerSide::TopLeft));
    assert_eq!(b.tile(0, 5), Tile::Corner(CornerSide::TopRight));
    assert_eq!(b.tile(5, 0), Tile::Corner(CornerSide::BottomLeft));
    assert_eq!(b.tile(5, 5), Tile::Corner(CornerSide::BottomRight));
    assert_eq!(b.tile(0, 3), Tile::Edge(EdgeSide::Top));
    assert_eq!(b.tile(5, 2), Tile::Edge(EdgeSide::Bottom));
    assert_eq!(b.tile(2, 0), Tile::Edge(EdgeSide::Left));
    assert_eq!(b.tile(4, 5), Tile::Edge(EdgeSide::Right));
    assert_eq!(empty_playable_cells(&b), 16);
}

#[test]
fn three_equal_tiles_merge_once_to_the_left() {
    let mut b = board_from([[1, 1, 1, 0], [0; 4], [0; 4], [0; 4]]);
    assert!(b.update(Direction::Left, 1));
    assert_eq!(powers(&b)[0], [2, 1, 0, 0]);
    assert_eq!(b.tile(1, 1), Tile::Number(2, 1));
    assert_eq!(b.tile(1, 2), Tile::Number(1, 0));
    assert_eq!(b.score, 4);
    assert_eq!(b.max_tile, 2);
    assert_eq!(b.open_tiles, 14);
}

#[test]
fn gap_closes_and_pair_merges_to_the_right() {
    let mut b = board_from([[0, 2, 0, 2], [0; 4], [0; 4], [0; 4]]);
    let before = b.score;
    assert!(b.update(Direction::Right, 1));
    assert_eq!(powers(&b)[0], [0, 0, 0, 3]);
    assert_eq!(b.score - before, 8);
    assert_eq!(b.max_tile, 3);
}

#[test]
fn two_pairs_merge_separately() {
    let mut b = board_from([[1, 1, 1, 1], [1, 1, 2, 2], [1, 0, 1, 1], [0; 4]]);
    assert!(b.update(Direction::Left, 1));
    assert_eq!(powers(&b)[0], [2, 2, 0, 0]);
    assert_eq!(powers(&b)[1], [2, 3, 0, 0]);
    assert_eq!(powers(&b)[2], [2, 1, 0, 0]);
    // 4 + 4, then 4 + 8, then 4
    assert_eq!(b.score, 24);
    assert_eq!(b.open_tiles, 10);
}

#[test]
fn columns_slide_up_and_down() {
    let mut b = board_from([[1, 0, 0, 0], [1, 0, 0, 3], [0, 0, 0, 0], [2, 0, 0, 3]]);
    assert!(b.update(Direction::Down, 1));
    assert_eq!(powers(&b), [[0, 0, 0, 0], [0, 0, 0, 0], [2, 0, 0, 0], [2, 0, 0, 4]]);
    assert_eq!(b.score, 4 + 16);
    assert!(b.update(Direction::Up, 2));
    assert_eq!(powers(&b), [[3, 0, 0, 4], [0, 0, 0, 0], [0, 0, 0, 0], [0, 0, 0, 0]]);
    assert_eq!(b.score, 4 + 16 + 8);
}

#[test]
fn tiles_stamped_by_this_move_do_not_merge() {
    let mut b = Board::new();
    b.put_number(1, 1, 1, 5);
    b.put_number(1, 2, 1, 5);
    assert!(!b.update(Direction::Left, 5));
    assert_eq!(powers(&b)[0], [1, 1, 0, 0]);
    assert!(b.update(Direction::Left, 6));
    assert_eq!(powers(&b)[0], [2, 0, 0, 0]);
}

#[test]
fn no_op_move_changes_nothing() {
    let mut b = board_from([[1, 2, 0, 0], [3, 0, 0, 0], [0; 4], [1, 0, 0, 0]]);
    let before = b;
    assert!(!b.update(Direction::Left, 1));
    assert!(same_grid(&b, &before));
    assert_eq!(b.score, before.score);
    assert_eq!(b.open_tiles, before.open_tiles);
    assert_eq!(b.max_tile, before.max_tile);
}

#[test]
fn locked_board_cannot_move_and_ends_the_game() {
    let rows = [[1, 2, 1, 2], [2, 1, 2, 1], [1, 2, 1, 2], [2, 1, 2, 1]];
    let b = board_from(rows);
    assert_eq!(b.open_tiles, 0);
    assert!(!b.has_space());
    for d in [Direction::Up, Direction::Down, Direction::Left, Direction::Right] {
        let mut moved = b;
        assert!(!moved.update(d, 1));
        assert_eq!(powers(&moved), rows);
        let mut stepped = b;
        assert_eq!(stepped.apply(Action::Direction(d), 1), Outcome::GameOver);
        assert!(same_grid(&stepped, &b));
    }
}

#[test]
fn full_board_that_can_merge_is_not_over() {
    let b = board_from([[1, 1, 2, 3], [2, 3, 1, 2], [3, 2, 3, 1], [1, 3, 2, 3]]);
    let mut stepped = b;
    assert_eq!(stepped.apply(Action::Direction(Direction::Left), 1), Outcome::Moved);
    assert_eq!(stepped.score, 4);
    assert_eq!(stepped.open_tiles, 0);
}

#[test]
fn spawn_fills_one_empty_cell() {
    let mut b = Board::new();
    for n in 0..16 {
        assert!(b.spawn_tile(0));
        assert_eq!(b.open_tiles, 15 - n);
        assert_eq!(empty_playable_cells(&b), 15 - n);
        assert!(b.max_tile == 1 || b.max_tile == 2);
    }
    assert!(!b.spawn_tile(0));
    assert_eq!(b.open_tiles, 0);
}

#[test]
fn place_tile_uses_row_major_order_of_empty_cells() {
    let mut b = board_from([[1, 0, 1, 0], [0; 4], [0; 4], [0; 4]]);
    b.place_tile(0, 2, 7);
    assert_eq!(b.tile(1, 2), Tile::Number(2, 7));
    b.place_tile(1, 1, 7);
    assert_eq!(b.tile(2, 1), Tile::Number(1, 7));
    assert_eq!(b.open_tiles, 12);
    assert_eq!(b.max_tile, 2);
}

#[test]
fn spawned_fours_are_one_in_four() {
    let trials = 40_000;
    let mut fours = 0;
    for _ in 0..trials {
        let mut b = Board::new();
        assert!(b.spawn_tile(0));
        if b.max_tile == 2 {
            fours += 1;
        } else {
            assert_eq!(b.max_tile, 1);
        }
    }
    let ratio = fours as f64 / trials as f64;
    assert!((ratio - 0.25).abs() < 0.02, "ratio {}", ratio);
}

#[test]
fn spawn_power_for_each_draw() {
    assert_eq!(x800::board::spawn_power(0), 1);
    assert_eq!(x800::board::spawn_power(1), 1);
    assert_eq!(x800::board::spawn_power(2), 1);
    assert_eq!(x800::board::spawn_power(3), 2);
}

#[test]
fn spawn_reaches_every_empty_cell() {
    let mut seen = [[false; 4]; 4];
    for _ in 0..2_000 {
        let mut b = Board::new();
        assert!(b.spawn_tile(0));
        let p = powers(&b);
        for r in 0..4 {
            for c in 0..4 {
                if p[r][c] != 0 {
                    seen[r][c] = true;
                }
            }
        }
    }
    assert!(seen.iter().all(|row| row.iter().all(|&s| s)));
}

#[test]
fn new_game_has_two_tiles() {
    let b = Board::new_game(0);
    assert_eq!(b.open_tiles, 14);
    assert_eq!(empty_playable_cells(&b), 14);
    assert_eq!(b.score, 0);
    assert!(b.max_tile == 1 || b.max_tile == 2);
}

#[test]
fn open_count_follows_play() {
    let mut b = Board::new_game(0);
    let keys = b"wasdwasdddssaawwdsadsawdsadwasdsdadwas";
    let mut generation = 0;
    for &k in keys.iter().cycle().take(400) {
        if !b.has_headroom() {
            break;
        }
        generation += 1;
        let o = b.apply(Action::parse(k), generation);
        assert_eq!(b.open_tiles, empty_playable_cells(&b));
        if o == Outcome::GameOver {
            assert_eq!(b.open_tiles, 0);
            break;
        }
    }
}

#[test]
fn apply_ignores_and_stops() {
    let mut b = board_from([[1, 0, 0, 0], [0; 4], [0; 4], [0; 4]]);
    let before = b;
    assert_eq!(b.apply(Action::Continue, 1), Outcome::Continue);
    assert!(same_grid(&b, &before));
    assert_eq!(b.apply(Action::Shutdown, 1), Outcome::Shutdown);
    assert!(same_grid(&b, &before));
    // a slide that changes nothing on a grid with room
    assert_eq!(b.apply(Action::Direction(Direction::Up), 1), Outcome::Continue);
    assert!(same_grid(&b, &before));
    assert_eq!(b.apply(Action::Direction(Direction::Right), 1), Outcome::Moved);
    assert_eq!(b.tile(1, 4), Tile::Number(1, 0));
    assert_eq!(b.open_tiles, 14);
}

#[test]
fn input_bytes_parse() {
    assert_eq!(Action::parse(b'w'), Action::Direction(Direction::Up));
    assert_eq!(Action::parse(b'a'), Action::Direction(Direction::Left));
    assert_eq!(Action::parse(b's'), Action::Direction(Direction::Down));
    assert_eq!(Action::parse(b'd'), Action::Direction(Direction::Right));
    assert_eq!(Action::parse(3), Action::Shutdown);
    assert_eq!(Action::parse(b'W'), Action::Continue);
    assert_eq!(Action::parse(b'q'), Action::Continue);
}

#[test]
fn script_ends_with_shutdown() {
    let script = [b'a', b'x'];
    assert_eq!(scripted_action(&script, 0), Action::Direction(Direction::Left));
    assert_eq!(scripted_action(&script, 1), Action::Continue);
    assert_eq!(scripted_action(&script, 2), Action::Shutdown);
}

#[test]
fn winning_power_is_eleven() {
    let mut b = Board::new();
    b.put_number(1, 1, 10, 0);
    assert!(!b.is_won());
    b.put_number(1, 2, 10, 0);
    assert!(b.update(Direction::Left, 1));
    assert_eq!(b.max_tile, 11);
    assert!(b.is_won());
    assert_eq!(b.score, 2048);
}

#[test]
fn full_grid_blocked_one_way_is_not_over() {
    let rows = [[1, 2, 1, 2], [1, 2, 1, 2], [3, 4, 3, 4], [5, 6, 5, 6]];
    let b = board_from(rows);
    assert_eq!(b.open_tiles, 0);
    assert!(!b.can_move(Direction::Left, 1));
    assert!(!b.can_move(Direction::Right, 1));
    assert!(b.can_move(Direction::Up, 1));
    assert!(b.can_move(Direction::Down, 1));
    let mut stepped = b;
    assert_eq!(stepped.apply(Action::Direction(Direction::Left), 1), Outcome::Continue);
    assert!(same_grid(&stepped, &b));
    assert_eq!(stepped.apply(Action::Direction(Direction::Up), 1), Outcome::Moved);
    assert_eq!(powers(&stepped)[0][0], 2);
    assert_eq!(stepped.score, 4 + 8 + 4 + 8);
}

#[test]
fn new_game_seeds_are_stamped_twos_or_fours() {
    let b = Board::new_game(9);
    let mut seeds = 0;
    for r in 1..5 {
        for c in 1..5 {
            match b.tile(r, c) {
                Tile::Empty() => {}
                t => {
                    assert!(t == Tile::Number(1, 9) || t == Tile::Number(2, 9));
                    seeds += 1;
                }
            }
        }
    }
    assert_eq!(seeds, 2);
}
