use connect4::board::{Board, MAXCELLS};
use connect4::{BLACK, EMPTY, WHITE};

fn played(width: usize, height: usize, moves: &[usize]) -> Board {
    let mut board = Board::new(width, height).unwrap();
    let mut color = WHITE;
    for &x in moves {
        board.place(x, color);
        color = -color;
    }
    board
}

#[test]
fn new_board_is_empty_and_legal() {
    let board = Board::new(6, 6).unwrap();
    assert_eq!(board.width, 6);
    assert_eq!(board.height, 6);
    assert_eq!(board.cells.len(), 6);
    assert_eq!(board.first, vec![0usize; 6]);
    for column in &board.cells {
        assert_eq!(column, &vec![EMPTY; 6]);
    }
    assert!(board.is_wf());
    assert_eq!(board.stones(), 0);
    assert_eq!(board.maxdepth(), 35);
}

#[test]
fn new_rejects_zero_dimensions() {
    assert!(Board::new(0, 5).is_none());
    assert!(Board::new(5, 0).is_none());
    assert!(Board::new(0, 0).is_none());
}

#[test]
fn new_rejects_more_than_maxcells() {
    assert_eq!(MAXCELLS, 254);
    assert!(Board::new(127, 2).is_some());
    assert!(Board::new(254, 1).is_some());
    assert!(Board::new(1, 254).is_some());
    assert!(Board::new(15, 17).is_none());
    assert!(Board::new(255, 1).is_none());
    assert!(Board::new(1, 255).is_none());
    assert!(Board::new(16, 16).is_none());
    assert!(Board::new(usize::MAX, usize::MAX).is_none());
    assert!(Board::new(usize::MAX, 1).is_none());
}

#[test]
fn maxdepth_is_cells_minus_one() {
    assert_eq!(Board::new(1, 1).unwrap().maxdepth(), 0);
    assert_eq!(Board::new(4, 5).unwrap().maxdepth(), 19);
    assert_eq!(Board::new(127, 2).unwrap().maxdepth(), 253);
}

#[test]
fn place_writes_lowest_free_cell() {
    let mut board = Board::new(4, 4).unwrap();
    board.place(2, WHITE);
    assert_eq!(board.cells[2], vec![WHITE, EMPTY, EMPTY, EMPTY]);
    assert_eq!(board.first, vec![0, 0, 1, 0]);
    board.place(2, BLACK);
    assert_eq!(board.cells[2], vec![WHITE, BLACK, EMPTY, EMPTY]);
    assert_eq!(board.first, vec![0, 0, 2, 0]);
    board.place(0, WHITE);
    assert_eq!(board.cells[0], vec![WHITE, EMPTY, EMPTY, EMPTY]);
    assert_eq!(board.cells[1], vec![EMPTY; 4]);
    assert_eq!(board.cells[3], vec![EMPTY; 4]);
    assert_eq!(board.first, vec![1, 0, 2, 0]);
    assert_eq!(board.stones(), 3);
    assert!(board.is_wf());
}

#[test]
fn remove_clears_the_top_stone() {
    let mut board = played(4, 4, &[1, 1, 1, 3]);
    board.remove(1);
    assert_eq!(board.cells[1], vec![WHITE, BLACK, EMPTY, EMPTY]);
    assert_eq!(board.first, vec![0, 2, 0, 1]);
    board.remove(3);
    assert_eq!(board.cells[3], vec![EMPTY; 4]);
    assert_eq!(board.first, vec![0, 2, 0, 0]);
    assert_eq!(board.stones(), 2);
}

#[test]
fn place_then_remove_restores_the_board() {
    let before = played(5, 4, &[2, 2, 0, 4, 4, 1]);
    for x in 0..5 {
        for color in [WHITE, BLACK] {
            let mut board = played(5, 4, &[2, 2, 0, 4, 4, 1]);
            board.place(x, color);
            assert_eq!(board.stones(), 7);
            board.remove(x);
            assert_eq!(board.cells, before.cells);
            assert_eq!(board.first, before.first);
        }
    }
}

#[test]
fn a_column_can_be_filled_to_the_top() {
    let mut board = Board::new(2, 3).unwrap();
    board.place(1, WHITE);
    board.place(1, BLACK);
    board.place(1, WHITE);
    assert_eq!(board.first[1], 3);
    assert_eq!(board.cells[1], vec![WHITE, BLACK, WHITE]);
    assert!(board.is_wf());
}

#[test]
fn stones_counts_every_column() {
    assert_eq!(played(4, 5, &[]).stones(), 0);
    assert_eq!(played(4, 5, &[0, 1, 2, 3, 3, 3]).stones(), 6);
    let mut full = Board::new(3, 2).unwrap();
    for x in 0..3 {
        full.place(x, WHITE);
        full.place(x, BLACK);
    }
    assert_eq!(full.stones(), 6);
    assert_eq!(full.maxdepth(), 5);
}

#[test]
fn mirrored_swaps_left_and_right() {
    let board = played(5, 4, &[0, 0, 1, 4]);
    let image = board.mirrored();
    assert_eq!(image.width, 5);
    assert_eq!(image.height, 4);
    assert_eq!(image.first, vec![1, 0, 0, 1, 2]);
    assert_eq!(image.cells[4], vec![WHITE, BLACK, EMPTY, EMPTY]);
    assert_eq!(image.cells[3], vec![WHITE, EMPTY, EMPTY, EMPTY]);
    assert_eq!(image.cells[0], vec![BLACK, EMPTY, EMPTY, EMPTY]);
    assert_eq!(image.cells[1], vec![EMPTY; 4]);
    assert_eq!(image.cells[2], vec![EMPTY; 4]);
    let back = image.mirrored();
    assert_eq!(back.cells, board.cells);
    assert_eq!(back.first, board.first);
}

#[test]
fn is_wf_rejects_a_floating_stone() {
    let mut board = Board::new(4, 4).unwrap();
    board.cells[1][2] = WHITE;
    assert!(!board.is_wf());
}

#[test]
fn is_wf_rejects_a_counter_that_disagrees() {
    let mut board = played(4, 4, &[1, 1]);
    board.first[1] = 1;
    assert!(!board.is_wf());
    board.first[1] = 3;
    assert!(!board.is_wf());
    board.first[1] = 2;
    assert!(board.is_wf());
    board.first[0] = 5;
    assert!(!board.is_wf());
}

#[test]
fn is_wf_rejects_a_ragged_matrix() {
    let mut board = Board::new(4, 4).unwrap();
    board.cells[3].push(EMPTY);
    assert!(!board.is_wf());
    let mut board = Board::new(4, 4).unwrap();
    board.cells.pop();
    assert!(!board.is_wf());
    let mut board = Board::new(4, 4).unwrap();
    board.first.push(0);
    assert!(!board.is_wf());
    let mut board = Board::new(4, 4).unwrap();
    board.width = 5;
    assert!(!board.is_wf());
}

#[test]
fn is_wf_rejects_an_unknown_cell_content() {
    let mut board = played(4, 4, &[0]);
    board.cells[0][0] = 2;
    assert!(!board.is_wf());
}

#[test]
fn is_wf_rejects_too_large_a_board() {
    let board = Board {
        width: 16,
        height: 16,
        cells: vec![vec![EMPTY; 16]; 16],
        first: vec![0; 16],
    };
    assert!(!board.is_wf());
    let board = Board { width: 0, height: 4, cells: vec![], first: vec![] };
    assert!(!board.is_wf());
}
