use connect4::board::Board;
use connect4::hash::{compute_hash, Keys};
use connect4::search::{solve, Args};
use connect4::shared::SharedTable;
use connect4::{Colors, Depth, Sigs, Vals, BLACK, EMPTY, VALMAX, VALMIN, WHITE};

fn scramble(state: &mut u64) -> u64 {
    *state = state.wrapping_add(0x9e3779b97f4a7c15);
    let mut z = *state;
    z = (z ^ (z >> 30)).wrapping_mul(0xbf58476d1ce4e5b9);
    z = (z ^ (z >> 27)).wrapping_mul(0x94d049bb133111eb);
    z ^ (z >> 31)
}

fn seeded_keys(width: usize, height: usize, seed: u64) -> Keys {
    let mut state = seed;
    let mut hw: Vec<Vec<Sigs>> = Vec::new();
    let mut hb: Vec<Vec<Sigs>> = Vec::new();
    for _ in 0..width {
        hw.push((0..height).map(|_| scramble(&mut state)).collect());
        hb.push((0..height).map(|_| scramble(&mut state)).collect());
    }
    let fh = scramble(&mut state);
    Keys { width, height, fh, hw, hb }
}

fn after(width: usize, height: usize, moves: &[usize]) -> (Board, Colors) {
    let mut board = Board::new(width, height).unwrap();
    let mut color = WHITE;
    for &x in moves {
        board.place(x, color);
        color = -color;
    }
    (board, color)
}

fn table_key(board: &Board, keys: &Keys) -> Sigs {
    let mut copy = board.clone();
    let mut image = board.mirrored();
    compute_hash(&mut copy, keys).min(compute_hash(&mut image, keys))
}

fn can_be_shared<T: Sync + Send>(_: &T) {}

#[test]
fn shared_table_can_cross_threads() {
    let table = SharedTable::new(4, seeded_keys(4, 4, 1), WHITE).unwrap();
    can_be_shared(&table);
}

#[test]
fn shared_new_rejects_bad_arguments() {
    assert!(SharedTable::new(32, seeded_keys(4, 4, 1), WHITE).is_none());
    assert!(SharedTable::new(4, seeded_keys(4, 4, 1), EMPTY).is_none());
    assert!(SharedTable::new(4, seeded_keys(4, 4, 1), 2).is_none());
    assert!(SharedTable::new(4, seeded_keys(16, 16, 1), WHITE).is_none());
    assert!(SharedTable::new(4, seeded_keys(0, 4, 1), WHITE).is_none());
    assert!(SharedTable::new(4, seeded_keys(4, 0, 1), WHITE).is_none());
    let mut ragged = seeded_keys(4, 4, 1);
    ragged.hb[2].pop();
    assert!(SharedTable::new(4, ragged, WHITE).is_none());
    assert!(SharedTable::new(0, seeded_keys(4, 4, 1), BLACK).is_some());
    assert!(SharedTable::new(4, seeded_keys(127, 2, 1), WHITE).is_some());
}

#[test]
fn shared_table_keeps_its_keys_and_first_mover() {
    let keys = seeded_keys(5, 4, 2);
    let table = SharedTable::new(6, keys.clone(), BLACK).unwrap();
    assert_eq!(table.first(), BLACK);
    assert_eq!(table.keys().fh, keys.fh);
    assert_eq!(table.keys().hw, keys.hw);
    assert_eq!(table.keys().hb, keys.hb);
    assert_eq!((table.keys().width, table.keys().height), (5, 4));
}

#[test]
fn fresh_shared_table_knows_nothing() {
    let table = SharedTable::new(4, seeded_keys(4, 4, 3), WHITE).unwrap();
    for sig in [1u64, 5, 16, 17, u64::MAX] {
        assert_eq!(table.retrieve(sig), None);
    }
    assert_eq!(table.retrieve(0), Some((-127, 127)));
}

#[test]
fn shared_solve_agrees_with_solve() {
    let cases: [(usize, usize, &[usize], Vals); 8] = [
        (4, 4, &[], 0),
        (4, 5, &[], 0),
        (4, 4, &[1, 3, 1], 1),
        (4, 4, &[2, 3, 2, 2], -1),
        (5, 4, &[2, 2, 1], 1),
        (5, 4, &[0, 4, 0, 1, 2, 2], -1),
        (4, 5, &[3, 3, 0], 1),
        (4, 5, &[0, 0, 3, 0], -1),
    ];
    for (i, (width, height, moves, expected)) in cases.iter().enumerate() {
        let keys = seeded_keys(*width, *height, 40 + i as u64);
        let (mut board, color) = after(*width, *height, moves);
        let table = SharedTable::new(16, keys.clone(), WHITE).unwrap();
        assert_eq!(table.solve(&mut board, color), Some(*expected));
        assert_eq!(solve(&mut board, color, &keys, 16), *expected);
    }
}

#[test]
fn shared_table_serves_many_positions_of_one_game() {
    // One table, many searches: what one search stored must not mislead the next.
    let keys = seeded_keys(4, 4, 7);
    let table = SharedTable::new(12, keys.clone(), WHITE).unwrap();
    let mut state = 77u64;
    for _ in 0..120 {
        let (mut board, mut color) = after(4, 4, &[]);
        let count = (scramble(&mut state) % 10) as usize;
        let mut played = 0;
        while played < count {
            let x = (scramble(&mut state) % 4) as usize;
            if board.first[x] < 4 {
                board.place(x, color);
                color = -color;
                played += 1;
            }
        }
        let expected = solve(&mut board, color, &keys, 14);
        assert_eq!(table.solve(&mut board, color), Some(expected));
    }
}

#[test]
fn shared_search_restores_the_board() {
    let keys = seeded_keys(4, 4, 8);
    let table = SharedTable::new(10, keys, WHITE).unwrap();
    let (mut board, color) = after(4, 4, &[2, 0, 1, 0, 2, 2]);
    let cells = board.cells.clone();
    let first = board.first.clone();
    assert_eq!(table.solve(&mut board, color), Some(-1));
    assert_eq!(board.cells, cells);
    assert_eq!(board.first, first);
}

#[test]
fn shared_search_leaves_the_value_in_the_table() {
    let keys = seeded_keys(5, 4, 9);
    let table = SharedTable::new(16, keys.clone(), WHITE).unwrap();
    let (mut board, color) = after(5, 4, &[0, 4, 0, 1, 2, 2]);
    let key = table_key(&board, &keys);
    assert_eq!(table.retrieve(key), None);
    assert_eq!(table.solve(&mut board, color), Some(-1));
    assert_eq!(table.retrieve(key), Some((-1, -1)));
    // The mirror image has the same key and is answered from the same slot.
    let mut image = board.mirrored();
    assert_eq!(table_key(&image, &keys), key);
    assert_eq!(table.solve(&mut image, color), Some(-1));
}

#[test]
fn shared_search_with_a_window() {
    let keys = seeded_keys(4, 4, 10);
    let (mut board, color) = after(4, 4, &[2, 3, 2, 2]);
    let mut copy = board.clone();
    let mut image = board.mirrored();
    let hv = compute_hash(&mut copy, &keys);
    let hv2 = compute_hash(&mut image, &keys);
    for (alpha, beta) in [(-1, 0), (0, 1), (-1, 1), (-127, 127), (-127, -1), (1, 127)] {
        let table = SharedTable::new(12, keys.clone(), WHITE).unwrap();
        let args = Args { alpha, beta, color, depth: 4 as Depth, hv, hv2 };
        let got = table.search(args, &mut board);
        if got <= alpha {
            assert!(-1 <= got);
        }
        if got >= beta {
            assert!(-1 >= got);
        }
        if alpha < got && got < beta {
            assert_eq!(got, -1);
        }
    }
    assert_eq!((VALMIN, VALMAX), (-127, 127));
}

#[test]
fn shared_solve_refuses_the_wrong_side() {
    let keys = seeded_keys(4, 4, 11);
    let table = SharedTable::new(8, keys, WHITE).unwrap();
    let (mut board, color) = after(4, 4, &[1]);
    assert_eq!(color, BLACK);
    assert_eq!(table.solve(&mut board, WHITE), None);
    assert!(table.solve(&mut board, BLACK).is_some());
    let (mut empty, _) = after(4, 4, &[]);
    assert_eq!(table.solve(&mut empty, BLACK), None);
    assert_eq!(table.solve(&mut empty, WHITE), Some(0));
    assert_eq!(table.solve(&mut empty, 3), None);
}

#[test]
fn shared_solve_refuses_a_board_of_another_size() {
    let table = SharedTable::new(8, seeded_keys(4, 4, 12), WHITE).unwrap();
    let (mut board, color) = after(4, 5, &[]);
    assert_eq!(table.solve(&mut board, color), None);
    let (mut board, color) = after(5, 4, &[]);
    assert_eq!(table.solve(&mut board, color), None);
}

#[test]
fn shared_solve_refuses_an_illegal_board() {
    let table = SharedTable::new(8, seeded_keys(4, 4, 13), WHITE).unwrap();
    let (mut board, _) = after(4, 4, &[]);
    board.cells[1][2] = WHITE;
    let cells = board.cells.clone();
    assert_eq!(table.solve(&mut board, WHITE), None);
    assert_eq!(board.cells, cells);
}

#[test]
fn shared_solve_of_a_full_board_is_a_draw() {
    let mut board = Board::new(4, 3).unwrap();
    for x in 0..4usize {
        for y in 0..3usize {
            board.place(x, if (x + y) % 2 == 0 { WHITE } else { BLACK });
        }
    }
    // Twelve stones: the last ply is 11, at which the second mover is to move.
    let table = SharedTable::new(8, seeded_keys(4, 3, 14), WHITE).unwrap();
    assert_eq!(table.solve(&mut board, BLACK), Some(0));
    assert_eq!(table.solve(&mut board, WHITE), None);
}

#[test]
fn black_may_move_first() {
    let keys = seeded_keys(4, 4, 15);
    let table = SharedTable::new(12, keys.clone(), BLACK).unwrap();
    let mut board = Board::new(4, 4).unwrap();
    let mut color = BLACK;
    for x in [1usize, 3, 1] {
        board.place(x, color);
        color = -color;
    }
    assert_eq!(color, WHITE);
    assert_eq!(table.solve(&mut board, WHITE), Some(solve(&mut board, WHITE, &keys, 12)));
    assert_eq!(table.solve(&mut board, WHITE), Some(1));
}
