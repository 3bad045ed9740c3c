use connect4::board::Board;
use connect4::hash::{compute_hash, Keys};
use connect4::order::ind;
use connect4::search::{ab2, solve, Args};
use connect4::table::{retrieve, store, HTable};
use connect4::{Colors, Depth, Sigs, Vals, BLACK, EMPTY, VALMAX, VALMIN, WHITE};

fn mix(state: &mut u64) -> u64 {
    *state = state.wrapping_add(0x9e3779b97f4a7c15);
    let mut z = *state;
    z = (z ^ (z >> 30)).wrapping_mul(0xbf58476d1ce4e5b9);
    z = (z ^ (z >> 27)).wrapping_mul(0x94d049bb133111eb);
    z ^ (z >> 31)
}

fn fixed_keys(width: usize, height: usize, seed: u64) -> Keys {
    let mut state = seed;
    let mut hw: Vec<Vec<Sigs>> = Vec::new();
    let mut hb: Vec<Vec<Sigs>> = Vec::new();
    for _ in 0..width {
        hw.push((0..height).map(|_| mix(&mut state)).collect());
        hb.push((0..height).map(|_| mix(&mut state)).collect());
    }
    let fh = mix(&mut state);
    Keys { width, height, fh, hw, hb }
}

/// The board after the moves, white first, and the side then to move.
fn played(width: usize, height: usize, moves: &[usize]) -> (Board, Colors) {
    let mut board = Board::new(width, height).unwrap();
    let mut color = WHITE;
    for &x in moves {
        board.place(x, color);
        color = -color;
    }
    (board, color)
}

fn root(board: &Board, keys: &Keys, color: Colors) -> Args {
    let mut copy = board.clone();
    let mut image = board.mirrored();
    let stones = board.stones();
    let last = board.maxdepth() as usize;
    Args {
        alpha: VALMIN,
        beta: VALMAX,
        color,
        depth: stones.min(last) as Depth,
        hv: compute_hash(&mut copy, keys),
        hv2: compute_hash(&mut image, keys),
    }
}

fn four_through(board: &Board, x: usize, y: usize, color: Colors) -> bool {
    let axes: [(i64, i64); 4] = [(0, 1), (1, 0), (1, 1), (1, -1)];
    for (dx, dy) in axes {
        let mut run = 1;
        for sign in [1i64, -1] {
            let mut t = 1i64;
            loop {
                let px = x as i64 + sign * t * dx;
                let py = y as i64 + sign * t * dy;
                if px < 0 || py < 0 || px >= board.width as i64 || py >= board.height as i64 {
                    break;
                }
                if board.cells[px as usize][py as usize] != color {
                    break;
                }
                run += 1;
                t += 1;
            }
        }
        if run >= 4 {
            return true;
        }
    }
    false
}

/// Plain negamax over the whole tree: no window, no table.
fn brute(board: &mut Board, color: Colors, depth: usize) -> Vals {
    let last = board.width * board.height - 1;
    for x in 0..board.width {
        let y = board.first[x];
        if y < board.height && four_through(board, x, y, color) {
            return 1;
        }
    }
    if depth == last {
        return 0;
    }
    let mut best: Vals = -127;
    for x in 0..board.width {
        if board.first[x] < board.height {
            board.place(x, color);
            let reply = -brute(board, -color, depth + 1);
            board.remove(x);
            if reply > best {
                best = reply;
            }
        }
    }
    best
}

fn state_of(board: &Board) -> Vec<Colors> {
    board.cells.iter().flatten().copied().collect()
}

/// Negamax over the whole tree that remembers finished positions by their exact
/// cells, for boards too large for `brute`.
fn brute_memo(
    board: &mut Board,
    color: Colors,
    depth: usize,
    memo: &mut std::collections::HashMap<Vec<Colors>, Vals>,
) -> Vals {
    let state = state_of(board);
    if let Some(&v) = memo.get(&state) {
        return v;
    }
    let last = board.width * board.height - 1;
    let mut result: Option<Vals> = None;
    for x in 0..board.width {
        let y = board.first[x];
        if y < board.height && four_through(board, x, y, color) {
            result = Some(1);
        }
    }
    if result.is_none() && depth == last {
        result = Some(0);
    }
    let value = match result {
        Some(v) => v,
        None => {
            let mut best: Vals = -127;
            for x in 0..board.width {
                if board.first[x] < board.height {
                    board.place(x, color);
                    let reply = -brute_memo(board, -color, depth + 1, memo);
                    board.remove(x);
                    if reply > best {
                        best = reply;
                    }
                }
            }
            best
        }
    };
    memo.insert(state, value);
    value
}

#[test]
fn move_order_starts_in_the_centre() {
    let order: Vec<usize> = (0..6).map(|ix| ind(6, ix)).collect();
    assert_eq!(order, vec![2, 3, 1, 4, 0, 5]);
    let order: Vec<usize> = (0..7).map(|ix| ind(7, ix)).collect();
    assert_eq!(order, vec![3, 4, 2, 5, 1, 6, 0]);
    let order: Vec<usize> = (0..4).map(|ix| ind(4, ix)).collect();
    assert_eq!(order, vec![1, 2, 0, 3]);
    assert_eq!(ind(1, 0), 0);
    assert_eq!((0..2).map(|ix| ind(2, ix)).collect::<Vec<usize>>(), vec![0, 1]);
}

#[test]
fn move_order_names_every_column_once() {
    for width in 1..40usize {
        let mut seen = vec![false; width];
        for ix in 0..width {
            let x = ind(width, ix);
            assert!(!seen[x]);
            seen[x] = true;
        }
        assert!(seen.iter().all(|&s| s));
    }
}

#[test]
fn empty_four_by_five_is_a_draw() {
    let (mut board, _) = played(4, 5, &[]);
    let keys = Keys::random(4, 5);
    assert_eq!(solve(&mut board, WHITE, &keys, 18), 0);
    assert_eq!(solve(&mut board, BLACK, &keys, 18), 0);
}

#[test]
fn empty_five_by_four_is_a_draw() {
    let (mut board, _) = played(5, 4, &[]);
    let keys = Keys::random(5, 4);
    assert_eq!(solve(&mut board, WHITE, &keys, 18), 0);
}

#[test]
fn empty_four_by_four_is_a_draw() {
    let (mut board, _) = played(4, 4, &[]);
    let keys = fixed_keys(4, 4, 21);
    assert_eq!(solve(&mut board, WHITE, &keys, 16), 0);
}

#[test]
fn boards_without_room_for_four_are_draws() {
    for (width, height) in [(1usize, 1usize), (2, 2), (3, 3), (1, 3), (3, 1)] {
        let (mut board, _) = played(width, height, &[]);
        let keys = fixed_keys(width, height, 5);
        assert_eq!(solve(&mut board, WHITE, &keys, 8), 0);
    }
}

#[test]
fn known_wins_for_the_side_to_move() {
    let cases: [(usize, usize, &[usize]); 9] = [
        (4, 4, &[0, 1, 0, 0, 3]),
        (4, 4, &[1, 3, 1]),
        (4, 4, &[1, 0, 2]),
        (5, 4, &[4, 3, 1, 3, 2, 3, 0, 2, 3]),
        (5, 4, &[2, 2, 1]),
        (5, 4, &[3, 3, 3, 4, 0, 2, 0]),
        (4, 5, &[3, 2, 1, 2, 0]),
        (4, 5, &[3, 3, 0]),
        (4, 5, &[2, 0, 3, 0, 2]),
    ];
    for (i, (width, height, moves)) in cases.iter().enumerate() {
        let (mut board, color) = played(*width, *height, moves);
        let keys = fixed_keys(*width, *height, 100 + i as u64);
        assert_eq!(solve(&mut board, color, &keys, 18), 1);
    }
}

#[test]
fn known_losses_for_the_side_to_move() {
    let cases: [(usize, usize, &[usize]); 9] = [
        (4, 4, &[2, 1, 1, 3, 3, 3, 0, 1, 3]),
        (4, 4, &[2, 0, 1, 0, 2, 2]),
        (4, 4, &[2, 3, 2, 2]),
        (5, 4, &[3, 3, 4, 3, 3, 2, 0, 1, 1]),
        (5, 4, &[0, 4, 0, 1, 2, 2]),
        (5, 4, &[2, 2, 0, 3]),
        (4, 5, &[3, 2, 2, 1, 2, 0, 3, 1, 3]),
        (4, 5, &[0, 2, 3, 0, 1, 0]),
        (4, 5, &[0, 0, 3, 0]),
    ];
    for (i, (width, height, moves)) in cases.iter().enumerate() {
        let (mut board, color) = played(*width, *height, moves);
        let keys = fixed_keys(*width, *height, 200 + i as u64);
        assert_eq!(solve(&mut board, color, &keys, 18), -1);
    }
}

#[test]
fn search_equals_brute_force_on_whole_small_boards() {
    for (width, height) in [(4usize, 3usize), (3, 4), (2, 5), (5, 2), (4, 1), (1, 4)] {
        for color in [WHITE, BLACK] {
            let (mut board, _) = played(width, height, &[]);
            let keys = fixed_keys(width, height, 31);
            let expected = brute(&mut board, color, 0);
            assert_eq!(solve(&mut board, color, &keys, 12), expected);
        }
    }
}

#[test]
fn search_equals_brute_force_from_many_positions() {
    let mut state = 4242u64;
    let keys = fixed_keys(4, 4, 77);
    let mut seen = [0usize; 3];
    for _ in 0..150 {
        let (mut board, mut color) = played(4, 4, &[]);
        let mut depth = 0usize;
        let target = 6 + (mix(&mut state) % 8) as usize;
        while depth < target {
            let x = (mix(&mut state) % 4) as usize;
            if board.first[x] == 4 {
                continue;
            }
            if four_through(&board, x, board.first[x], color) {
                break;
            }
            board.place(x, color);
            color = -color;
            depth += 1;
        }
        let expected = brute(&mut board, color, depth);
        assert!(expected == 1 || expected == 0 || expected == -1);
        seen[(expected + 1) as usize] += 1;
        assert_eq!(solve(&mut board, color, &keys, 10), expected);
    }
    // The sample holds wins, draws and losses.
    assert!(seen.iter().all(|&n| n > 0));
}

#[test]
fn search_equals_brute_force_with_a_tiny_table() {
    // Two slots only: nearly every store collides with another position.
    let keys = fixed_keys(4, 3, 55);
    let (mut board, _) = played(4, 3, &[]);
    let expected = brute(&mut board, WHITE, 0);
    assert_eq!(solve(&mut board, WHITE, &keys, 1), expected);
    assert_eq!(solve(&mut board, WHITE, &keys, 0), expected);
}

#[test]
fn narrow_windows_bound_the_value() {
    // Each pair is a position and its value for the side to move.
    let cases: [(&[usize], Vals); 4] =
        [(&[], 0), (&[1, 3, 1], 1), (&[2, 3, 2, 2], -1), (&[2, 0, 1, 0, 2, 2], -1)];
    for (moves, value) in cases {
        for (alpha, beta) in [(-1, 0), (0, 1), (-1, 1), (-127, 0), (0, 127), (-127, -1), (1, 127)] {
            let (mut board, color) = played(4, 4, moves);
            let keys = fixed_keys(4, 4, 9);
            let mut table = HTable::new(14, board.maxdepth()).unwrap();
            let args = Args { alpha, beta, ..root(&board, &keys, color) };
            let got = ab2(args, &mut board, &keys, &mut table);
            if got <= alpha {
                assert!(value <= got);
            }
            if got >= beta {
                assert!(value >= got);
            }
            if alpha < got && got < beta {
                assert_eq!(got, value);
            }
        }
    }
}

#[test]
fn search_restores_the_board() {
    for moves in [&[][..], &[1, 3, 1], &[2, 0, 1, 0, 2, 2], &[0, 0, 0, 0, 3]] {
        let (mut board, color) = played(4, 4, moves);
        let cells = board.cells.clone();
        let first = board.first.clone();
        let keys = fixed_keys(4, 4, 3);
        let mut table = HTable::new(12, board.maxdepth()).unwrap();
        let args = root(&board, &keys, color);
        ab2(args, &mut board, &keys, &mut table);
        assert_eq!(board.cells, cells);
        assert_eq!(board.first, first);
        assert_eq!((board.width, board.height), (4, 4));
        solve(&mut board, color, &keys, 12);
        assert_eq!(board.cells, cells);
        assert_eq!(board.first, first);
    }
}

fn check_entries(
    board: &mut Board,
    color: Colors,
    depth: usize,
    keys: &Keys,
    table: &HTable,
    memo: &mut std::collections::HashMap<Vec<Colors>, Vals>,
    visited: &mut std::collections::HashSet<Vec<Colors>>,
    hits: &mut usize,
) {
    if !visited.insert(state_of(board)) {
        return;
    }
    let value = brute_memo(board, color, depth, memo);
    let args = root(board, keys, color);
    if let Some((lower, upper)) = retrieve(args.hv.min(args.hv2), table) {
        assert!(lower <= upper);
        assert!(lower <= value);
        assert!(value <= upper);
        *hits += 1;
    }
    if depth == board.width * board.height - 1 {
        return;
    }
    for x in 0..board.width {
        if board.first[x] < board.height {
            board.place(x, color);
            check_entries(board, -color, depth + 1, keys, table, memo, visited, hits);
            board.remove(x);
        }
    }
}

#[test]
fn stored_bounds_enclose_the_true_value() {
    for (width, height, bits) in [(4usize, 4usize, 16u8), (4, 4, 6), (4, 3, 10), (3, 4, 3)] {
        let keys = fixed_keys(width, height, 808);
        let (mut board, color) = played(width, height, &[]);
        let mut table = HTable::new(bits, board.maxdepth()).unwrap();
        let args = root(&board, &keys, color);
        let got = ab2(args, &mut board, &keys, &mut table);
        let mut memo = std::collections::HashMap::new();
        assert_eq!(got, brute_memo(&mut board, color, 0, &mut memo));
        let mut visited = std::collections::HashSet::new();
        let mut hits = 0usize;
        check_entries(&mut board, color, 0, &keys, &table, &mut memo, &mut visited, &mut hits);
        assert!(hits > 0);
        for slot in &table.slots {
            assert!(slot.v_inf <= slot.v_sup);
            assert!(slot.v_inf >= -127);
        }
    }
}

#[test]
fn solve_is_deterministic() {
    let keys = fixed_keys(4, 5, 4711);
    let (mut board, color) = played(4, 5, &[1]);
    let first = solve(&mut board, color, &keys, 16);
    let second = solve(&mut board, color, &keys, 16);
    assert_eq!(first, second);
    // Same inputs, same table contents and same number of nodes.
    let mut one = HTable::new(12, board.maxdepth()).unwrap();
    let mut two = HTable::new(12, board.maxdepth()).unwrap();
    let args = root(&board, &keys, color);
    let a = ab2(args, &mut board, &keys, &mut one);
    let b = ab2(args, &mut board, &keys, &mut two);
    assert_eq!(a, b);
    assert_eq!(a, first);
    assert_eq!(one.nodes, two.nodes);
    assert!(one.nodes > 1);
    for (x, y) in one.slots.iter().zip(two.slots.iter()) {
        assert_eq!((x.sig, x.v_inf, x.v_sup, x.d), (y.sig, y.v_inf, y.v_sup, y.d));
    }
}

#[test]
fn value_does_not_depend_on_the_keys() {
    let (mut board, color) = played(4, 4, &[2, 3, 2, 2]);
    for seed in 0..8 {
        let keys = fixed_keys(4, 4, seed);
        assert_eq!(solve(&mut board, color, &keys, 10), -1);
    }
}

#[test]
fn three_in_a_row_with_open_fourth_wins_at_once() {
    // White holds the bottom of columns 0, 1, 2; column 3 is free.
    let (mut board, color) = played(4, 4, &[0, 0, 1, 1, 2, 2]);
    assert_eq!(color, WHITE);
    let keys = fixed_keys(4, 4, 1);
    assert_eq!(solve(&mut board, WHITE, &keys, 10), 1);
    let mut table = HTable::new(10, board.maxdepth()).unwrap();
    let args = root(&board, &keys, WHITE);
    assert_eq!(ab2(args, &mut board, &keys, &mut table), 1);
    // One call, no recursion, nothing stored.
    assert_eq!(table.nodes, 1);
    for slot in &table.slots {
        assert_eq!((slot.sig, slot.v_inf, slot.v_sup, slot.d), (0, -127, 127, 0));
    }
}

#[test]
fn vertical_three_wins_at_once() {
    let (mut board, color) = played(5, 5, &[4, 0, 4, 1, 4, 0]);
    assert_eq!(color, WHITE);
    let keys = fixed_keys(5, 5, 2);
    let mut table = HTable::new(10, board.maxdepth()).unwrap();
    let args = root(&board, &keys, WHITE);
    assert_eq!(ab2(args, &mut board, &keys, &mut table), 1);
    assert_eq!(table.nodes, 1);
}

#[test]
fn full_board_at_the_last_ply_is_a_draw() {
    // WBWB / BWBW / WBWB over three rows: no three in a row anywhere.
    let mut board = Board::new(4, 3).unwrap();
    for x in 0..4usize {
        for y in 0..3usize {
            board.place(x, if (x + y) % 2 == 0 { WHITE } else { BLACK });
        }
    }
    assert_eq!(board.stones(), 12);
    assert_eq!(board.maxdepth(), 11);
    let keys = fixed_keys(4, 3, 3);
    let mut table = HTable::new(8, 11).unwrap();
    let args = root(&board, &keys, WHITE);
    assert_eq!(args.depth, 11);
    assert_eq!(ab2(args, &mut board, &keys, &mut table), 0);
    assert_eq!(table.nodes, 1);
    assert_eq!(solve(&mut board, WHITE, &keys, 8), 0);
    assert_eq!(solve(&mut board, BLACK, &keys, 8), 0);
}

#[test]
fn last_free_cell_without_a_win_is_a_draw() {
    let mut board = Board::new(4, 3).unwrap();
    for x in 0..4usize {
        for y in 0..3usize {
            if (x, y) != (3, 2) {
                board.place(x, if (x + y) % 2 == 0 { WHITE } else { BLACK });
            }
        }
    }
    assert_eq!(board.stones(), 11);
    let keys = fixed_keys(4, 3, 4);
    assert_eq!(solve(&mut board, BLACK, &keys, 8), 0);
    assert_eq!(solve(&mut board, WHITE, &keys, 8), 0);
}

#[test]
fn mirror_images_share_a_slot_and_the_second_is_a_hit() {
    let keys = fixed_keys(5, 4, 17);
    let (mut board, color) = played(5, 4, &[0, 4, 0, 1, 2, 2]);
    let mut image = board.mirrored();
    let mut table = HTable::new(16, board.maxdepth()).unwrap();
    let args = root(&board, &keys, color);
    let mirrored_args = root(&image, &keys, color);
    assert_eq!((mirrored_args.hv, mirrored_args.hv2), (args.hv2, args.hv));
    let key = args.hv.min(args.hv2);
    assert_eq!(table.index(key), table.index(mirrored_args.hv.min(mirrored_args.hv2)));

    let first = ab2(args, &mut board, &keys, &mut table);
    assert_eq!(first, -1);
    let searched = table.nodes;
    assert!(searched > 1);
    assert_eq!(retrieve(key, &table), Some((-1, -1)));

    let before: Vec<(Sigs, Vals, Vals, Depth)> =
        table.slots.iter().map(|e| (e.sig, e.v_inf, e.v_sup, e.d)).collect();
    let second = ab2(mirrored_args, &mut image, &keys, &mut table);
    assert_eq!(second, first);
    assert_eq!(table.nodes, searched + 1);
    // Nothing was stored by the second search.
    let after: Vec<(Sigs, Vals, Vals, Depth)> =
        table.slots.iter().map(|e| (e.sig, e.v_inf, e.v_sup, e.d)).collect();
    assert_eq!(after, before);
}

#[test]
fn mirror_image_of_a_won_position_is_won_without_a_store() {
    // White wins at once on the left; in the mirror image on the right.
    let keys = fixed_keys(5, 4, 23);
    let (mut board, color) = played(5, 4, &[0, 0, 1, 1, 2, 2]);
    let mut image = board.mirrored();
    let mut table = HTable::new(10, board.maxdepth()).unwrap();
    let args = root(&board, &keys, color);
    let mirrored_args = root(&image, &keys, color);
    assert_eq!(ab2(args, &mut board, &keys, &mut table), 1);
    assert_eq!(ab2(mirrored_args, &mut image, &keys, &mut table), 1);
    assert_eq!(table.nodes, 2);
    for slot in &table.slots {
        assert_eq!((slot.sig, slot.v_inf, slot.v_sup, slot.d), (0, -127, 127, 0));
    }
}

#[test]
fn a_search_raises_no_priority_above_its_own() {
    let keys = fixed_keys(4, 4, 24);
    let (mut board, color) = played(4, 4, &[1, 2]);
    let mut table = HTable::new(8, board.maxdepth()).unwrap();
    let args = root(&board, &keys, color);
    ab2(args, &mut board, &keys, &mut table);
    // The search began at ply 2 of a board whose last ply is 15.
    let own = 15 + 2 - 2;
    assert!(table.slots.iter().all(|e| e.d <= own));
    let key = args.hv.min(args.hv2);
    assert_eq!(table.slots[table.index(key)].d, own);
    assert_eq!(table.slots[table.index(key)].sig, key);
}

#[test]
fn a_second_search_of_the_same_position_is_a_hit() {
    let keys = fixed_keys(4, 4, 18);
    let (mut board, color) = played(4, 4, &[]);
    let mut table = HTable::new(16, board.maxdepth()).unwrap();
    let args = root(&board, &keys, color);
    assert_eq!(ab2(args, &mut board, &keys, &mut table), 0);
    let searched = table.nodes;
    assert_eq!(ab2(args, &mut board, &keys, &mut table), 0);
    assert_eq!(table.nodes, searched + 1);
}

#[test]
fn probe_cuts_on_a_stored_bound() {
    let keys = fixed_keys(4, 4, 19);
    let (mut board, color) = played(4, 4, &[1]);
    let args = root(&board, &keys, color);
    let key = args.hv.min(args.hv2);

    // A lower bound at or above beta is returned as it is.
    let mut table = HTable::new(8, 15).unwrap();
    store(key, 0, 1, 1, 1, &mut table);
    assert_eq!(retrieve(key, &table), Some((1, 127)));
    let got = ab2(Args { alpha: -1, beta: 1, ..args }, &mut board, &keys, &mut table);
    assert_eq!(got, 1);
    assert_eq!(table.nodes, 1);

    // An upper bound at or below alpha is returned as it is.
    let mut table = HTable::new(8, 15).unwrap();
    store(key, -1, 0, -1, 1, &mut table);
    assert_eq!(retrieve(key, &table), Some((-127, -1)));
    let got = ab2(Args { alpha: -1, beta: 1, ..args }, &mut board, &keys, &mut table);
    assert_eq!(got, -1);
    assert_eq!(table.nodes, 1);
}

#[test]
fn node_counter_stops_at_its_largest_value() {
    let keys = fixed_keys(4, 4, 20);
    let (mut board, color) = played(4, 4, &[0, 0, 1, 1, 2, 2]);
    let mut table = HTable::new(8, 15).unwrap();
    table.nodes = u64::MAX;
    let args = root(&board, &keys, color);
    assert_eq!(ab2(args, &mut board, &keys, &mut table), 1);
    assert_eq!(table.nodes, u64::MAX);
}

#[test]
fn board_without_any_legal_move_before_the_last_ply() {
    // A full board searched at a ply below the last one has no reply to look at.
    let mut board = Board::new(2, 2).unwrap();
    for x in 0..2usize {
        board.place(x, WHITE);
        board.place(x, BLACK);
    }
    assert_eq!(board.cells, vec![vec![WHITE, BLACK], vec![WHITE, BLACK]]);
    assert_ne!(board.cells[0][0], EMPTY);
    let keys = fixed_keys(2, 2, 6);
    let mut table = HTable::new(4, 3).unwrap();
    let args = Args { depth: 1, ..root(&board, &keys, WHITE) };
    assert_eq!(ab2(args, &mut board, &keys, &mut table), -127);
}
