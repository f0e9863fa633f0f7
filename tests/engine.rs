use tiles2048::{compact_tiles, merge_tiles, slide_line, Direction, Game, SIZE};

fn game(board: [[u32; 4]; 4], score: u32) -> Game {
    Game::from_cells(board, score).expect("a board of tiles")
}

fn cells(g: &Game) -> [[u32; 4]; 4] {
    let mut out = [[0u32; 4]; 4];
    for r in 0..SIZE {
        for c in 0..SIZE {
            out[r][c] = g.cell(r, c);
        }
    }
    out
}

fn is_tile(v: u32) -> bool {
    v == 0 || (v >= 2 && v.is_power_of_two())
}

/// Three full rows with no equal neighbours in a row: a move to the left or
/// right leaves them as they are.
const FULL_ROWS: [[u32; 4]; 3] = [[8, 16, 8, 16], [16, 8, 16, 8], [8, 16, 8, 16]];

fn with_top_row(top: [u32; 4]) -> [[u32; 4]; 4] {
    [top, FULL_ROWS[0], FULL_ROWS[1], FULL_ROWS[2]]
}

fn moved(g: &mut Game, d: Direction) {
    assert!(g.has_room_for_move());
    g.apply_move(d);
}

#[test]
fn line_pair_merges_to_front() {
    assert_eq!(slide_line(&vec![2, 2, 0, 0]), (vec![4, 0, 0, 0], 4));
}

#[test]
fn line_pair_nearest_edge_merges_first() {
    assert_eq!(slide_line(&vec![2, 0, 2, 2]), (vec![4, 2, 0, 0], 4));
    assert_eq!(slide_line(&vec![2, 2, 2, 0]), (vec![4, 2, 0, 0], 4));
}

#[test]
fn line_merged_tile_does_not_merge_again() {
    assert_eq!(slide_line(&vec![2, 2, 4, 0]), (vec![4, 4, 0, 0], 4));
    assert_eq!(slide_line(&vec![4, 4, 4, 4]), (vec![8, 8, 0, 0], 16));
    assert_eq!(slide_line(&vec![0, 4, 2, 2]), (vec![4, 4, 0, 0], 4));
}

#[test]
fn line_without_pairs_only_packs() {
    assert_eq!(slide_line(&vec![0, 2, 0, 4]), (vec![2, 4, 0, 0], 0));
    assert_eq!(slide_line(&vec![2, 4, 8, 16]), (vec![2, 4, 8, 16], 0));
    assert_eq!(slide_line(&vec![0, 0, 0, 0]), (vec![0, 0, 0, 0], 0));
}

#[test]
fn compact_and_merge_steps() {
    assert_eq!(compact_tiles(&vec![0, 2, 0, 2]), vec![2, 2]);
    assert_eq!(compact_tiles(&vec![0, 0]), Vec::<u32>::new());
    assert_eq!(merge_tiles(&vec![2, 2, 2]), (vec![4, 2], 4));
    assert_eq!(merge_tiles(&vec![8, 8, 16]), (vec![16, 16], 16));
    assert_eq!(merge_tiles(&vec![]), (vec![], 0));
}

#[test]
fn board_left_pair_scenario() {
    let mut g = game(with_top_row([2, 2, 0, 0]), 0);
    moved(&mut g, Direction::Left);
    let b = cells(&g);
    assert_eq!(b[0][0], 4);
    assert_eq!(g.score(), 4);
    let spawned: Vec<u32> = b[0][1..].iter().copied().filter(|v| *v != 0).collect();
    assert_eq!(spawned.len(), 1);
    assert!(spawned[0] == 2 || spawned[0] == 4);
    assert_eq!(&b[1..], &FULL_ROWS[..]);
}

#[test]
fn board_left_three_twos_scenario() {
    let mut g = game(with_top_row([2, 0, 2, 2]), 10);
    moved(&mut g, Direction::Left);
    let b = cells(&g);
    assert_eq!(b[0][0], 4);
    assert_eq!(b[0][1], 2);
    assert_eq!(g.score(), 14);
    let spawned: Vec<u32> = b[0][2..].iter().copied().filter(|v| *v != 0).collect();
    assert_eq!(spawned.len(), 1);
}

#[test]
fn board_other_directions() {
    let mut g = game(with_top_row([0, 0, 2, 2]), 0);
    moved(&mut g, Direction::Right);
    assert_eq!(g.cell(0, 3), 4);
    assert_eq!(g.score(), 4);

    let mut g = game([[2, 0, 0, 4], [2, 0, 0, 0], [0, 0, 0, 4], [2, 0, 0, 8]], 0);
    moved(&mut g, Direction::Up);
    assert_eq!([g.cell(0, 0), g.cell(1, 0)], [4, 2]);
    assert_eq!([g.cell(0, 3), g.cell(1, 3)], [8, 8]);
    assert_eq!(g.score(), 12);

    let mut g = game([[2, 0, 0, 4], [2, 0, 0, 0], [0, 0, 0, 4], [2, 0, 0, 8]], 0);
    moved(&mut g, Direction::Down);
    assert_eq!([g.cell(2, 0), g.cell(3, 0)], [2, 4]);
    assert_eq!([g.cell(2, 3), g.cell(3, 3)], [8, 8]);
    assert_eq!(g.score(), 12);
}

#[test]
fn move_that_changes_nothing_leaves_game_as_is() {
    let board = [[2, 4, 0, 0], [8, 0, 0, 0], [0, 0, 0, 0], [4, 2, 4, 0]];
    let mut g = game(board, 36);
    moved(&mut g, Direction::Left);
    assert_eq!(cells(&g), board);
    assert_eq!(g.score(), 36);
}

#[test]
fn move_that_changes_spawns_one_tile() {
    let board = [[0, 2, 0, 0], [0, 0, 0, 0], [0, 0, 0, 0], [0, 0, 0, 0]];
    let mut g = game(board, 0);
    moved(&mut g, Direction::Left);
    let b = cells(&g);
    assert_eq!(b[0][0], 2);
    let count = b.iter().flatten().filter(|v| **v != 0).count();
    assert_eq!(count, 2);
    assert_eq!(g.score(), 0);
}

#[test]
fn stuck_board_is_game_over() {
    let g = game([[2, 4, 2, 4], [4, 2, 4, 2], [2, 4, 2, 4], [4, 2, 4, 2]], 0);
    assert!(g.is_game_over());
}

#[test]
fn board_with_empty_cell_is_not_over() {
    let g = game([[2, 4, 2, 4], [4, 2, 4, 2], [2, 4, 0, 4], [4, 2, 4, 2]], 0);
    assert!(!g.is_game_over());
}

#[test]
fn full_board_with_equal_neighbours_is_not_over() {
    let g = game([[2, 4, 2, 4], [4, 2, 4, 2], [2, 4, 2, 4], [4, 2, 4, 4]], 0);
    assert!(!g.is_game_over());
    let g = game([[2, 4, 2, 4], [4, 2, 4, 2], [2, 4, 2, 8], [4, 2, 4, 8]], 0);
    assert!(!g.is_game_over());
}

#[test]
fn spawn_on_single_empty_cell() {
    let board = [[2, 4, 2, 4], [4, 2, 4, 2], [2, 0, 2, 4], [4, 2, 4, 2]];
    let mut twos = 0;
    let trials = 2000;
    for _ in 0..trials {
        let mut g = game(board, 0);
        g.add_random_tile();
        let b = cells(&g);
        for r in 0..SIZE {
            for c in 0..SIZE {
                if (r, c) != (2, 1) {
                    assert_eq!(b[r][c], board[r][c]);
                }
            }
        }
        assert!(b[2][1] == 2 || b[2][1] == 4);
        if b[2][1] == 2 {
            twos += 1;
        }
    }
    assert!(twos > trials * 8 / 10 && twos < trials * 97 / 100);
}

#[test]
fn spawn_on_full_board_does_nothing() {
    let board = [[2, 4, 2, 4], [4, 2, 4, 2], [2, 4, 2, 4], [4, 2, 4, 2]];
    let mut g = game(board, 5);
    g.add_random_tile();
    assert_eq!(cells(&g), board);
    assert_eq!(g.score(), 5);
}

#[test]
fn place_tile_follows_pick_and_roll() {
    let mut g = game([[0, 2, 0, 0], [0; 4], [0; 4], [0; 4]], 0);
    g.place_tile(0, 9);
    assert_eq!(g.cell(0, 0), 4);
    g.place_tile(1, 0);
    assert_eq!(g.cell(0, 2), 0);
    assert_eq!(g.cell(0, 3), 2);
    g.place_tile(12, 8);
    assert_eq!(g.cell(3, 3), 2);
}

#[test]
fn new_game_has_two_tiles() {
    let g = Game::new();
    let b = cells(&g);
    let tiles: Vec<u32> = b.iter().flatten().copied().filter(|v| *v != 0).collect();
    assert_eq!(tiles.len(), 2);
    assert!(tiles.iter().all(|v| *v == 2 || *v == 4));
    assert_eq!(g.score(), 0);
}

#[test]
fn from_cells_rejects_non_tiles() {
    assert!(Game::from_cells([[3, 0, 0, 0], [0; 4], [0; 4], [0; 4]], 0).is_none());
    assert!(Game::from_cells([[1, 0, 0, 0], [0; 4], [0; 4], [0; 4]], 0).is_none());
    assert!(Game::from_cells([[0; 4], [0; 4], [0; 4], [0, 0, 0, 12]], 0).is_none());
    assert!(Game::from_cells([[2, 1024, 0, 0], [0; 4], [0; 4], [0, 0, 0, 65536]], 0).is_some());
}

#[test]
fn room_for_move_counts_score_and_tiles() {
    let g = game([[2, 2, 0, 0], [0; 4], [0; 4], [0; 4]], u32::MAX - 4);
    assert!(g.has_room_for_move());
    let g = game([[2, 2, 0, 0], [0; 4], [0; 4], [0; 4]], u32::MAX - 3);
    assert!(!g.has_room_for_move());
}

#[test]
fn many_moves_keep_tiles_and_score_rises() {
    let dirs = [Direction::Left, Direction::Up, Direction::Right, Direction::Down];
    let mut g = Game::new();
    let mut last = g.score();
    for step in 0..400 {
        if g.is_game_over() {
            break;
        }
        moved(&mut g, dirs[(step * 7 + step / 3) % 4]);
        assert!(g.score() >= last);
        last = g.score();
        for r in 0..SIZE {
            for c in 0..SIZE {
                assert!(is_tile(g.cell(r, c)));
            }
        }
    }
}
