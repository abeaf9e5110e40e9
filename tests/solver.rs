use sudoku_solver::board::{easy_example, hard_example, SudokuBoard};
use sudoku_solver::candidates::{propagate_move, remove_candidate, SudokuMoveGroups};
use sudoku_solver::parallel::{decode_result, decode_results, encode_batch};
use sudoku_solver::solver::{cpu_solve_boards, solve_board, try_candidates};

fn assert_valid(values: &[[u32; 9]; 9]) {
    for i in 0..9 {
        let mut row = [false; 10];
        let mut col = [false; 10];
        let mut bx = [false; 10];
        for j in 0..9 {
            let a = values[i][j] as usize;
            let b = values[j][i] as usize;
            let c = values[(i / 3) * 3 + j / 3][(i % 3) * 3 + j % 3] as usize;
            assert!((1..=9).contains(&a) && (1..=9).contains(&b) && (1..=9).contains(&c));
            assert!(!row[a] && !col[b] && !bx[c]);
            row[a] = true;
            col[b] = true;
            bx[c] = true;
        }
    }
}

fn assert_keeps_givens(input: &SudokuBoard, output: &SudokuBoard) {
    for r in 0..9 {
        for c in 0..9 {
            if input.values[r][c] != 0 {
                assert_eq!(input.values[r][c], output.values[r][c]);
            }
        }
    }
}

fn fresh_moves() -> SudokuMoveGroups {
    SudokuMoveGroups { values: vec![vec![1, 2, 3, 4, 5, 6, 7, 8, 9]; 81] }
}

#[test]
fn hard_example_is_solved() {
    let board = hard_example();
    assert_eq!(board.values[0], [4, 0, 0, 0, 0, 0, 8, 0, 5]);
    let solved = solve_board(&board).expect("the hard example has a solution");
    assert_valid(&solved.values);
    assert_keeps_givens(&board, &solved);
}

#[test]
fn easy_example_is_solved() {
    let board = easy_example();
    let solved = solve_board(&board).expect("the easy example has a solution");
    assert_valid(&solved.values);
    assert_keeps_givens(&board, &solved);
}

#[test]
fn empty_grid_gives_first_grid_in_row_major_order() {
    let board = SudokuBoard { values: [[0; 9]; 9] };
    let solved = solve_board(&board).expect("an empty grid can be completed");
    let expected: [[u32; 9]; 9] = [
        [1, 2, 3, 4, 5, 6, 7, 8, 9],
        [4, 5, 6, 7, 8, 9, 1, 2, 3],
        [7, 8, 9, 1, 2, 3, 4, 5, 6],
        [2, 1, 4, 3, 6, 5, 8, 9, 7],
        [3, 6, 5, 8, 9, 7, 2, 1, 4],
        [8, 9, 7, 2, 1, 4, 3, 6, 5],
        [5, 3, 1, 6, 4, 2, 9, 7, 8],
        [6, 4, 2, 9, 7, 8, 5, 3, 1],
        [9, 7, 8, 5, 3, 1, 6, 4, 2],
    ];
    assert_valid(&solved.values);
    assert_eq!(solved.values, expected);
}

#[test]
fn duplicate_in_row_gives_none() {
    let mut board = SudokuBoard { values: [[0; 9]; 9] };
    board.values[0][0] = 5;
    board.values[0][7] = 5;
    assert_eq!(solve_board(&board), None);
}

#[test]
fn duplicate_in_box_gives_none() {
    let mut board = SudokuBoard { values: [[0; 9]; 9] };
    board.values[3][3] = 2;
    board.values[5][4] = 2;
    assert_eq!(solve_board(&board), None);
}

#[test]
fn full_valid_grid_is_returned_unchanged() {
    let board = SudokuBoard { values: [[0; 9]; 9] };
    let solved = solve_board(&board).unwrap();
    assert_eq!(solve_board(&solved), Some(solved));
}

#[test]
fn solving_twice_gives_identical_results() {
    let board = easy_example();
    assert_eq!(solve_board(&board), solve_board(&board));
}

#[test]
fn batch_keeps_order_and_reports_failures() {
    let mut bad = SudokuBoard { values: [[0; 9]; 9] };
    bad.values[2][0] = 9;
    bad.values[8][0] = 9;
    let empty = SudokuBoard { values: [[0; 9]; 9] };
    let boards = vec![easy_example(), bad, empty];
    let results = cpu_solve_boards(&boards);
    assert_eq!(results.len(), 3);
    assert_eq!(results[0], solve_board(&boards[0]));
    assert_eq!(results[1], None);
    assert_eq!(results[2], solve_board(&boards[2]));
    assert_eq!(results[2].unwrap().values[0], [1, 2, 3, 4, 5, 6, 7, 8, 9]);
}

#[test]
fn empty_batch_gives_empty_result() {
    assert!(cpu_solve_boards(&vec![]).is_empty());
}

#[test]
fn propagation_into_resolved_cell_keeps_its_set() {
    let mut moves = fresh_moves();
    moves.values[40] = vec![6];
    let next = propagate_move(4, 4, 6, &moves).unwrap();
    assert_eq!(next.values[40], vec![6]);
    let again = propagate_move(4, 4, 6, &next).unwrap();
    assert_eq!(again.values[40], vec![6]);
}

#[test]
fn propagation_removes_digit_from_peers_only() {
    let moves = fresh_moves();
    let next = propagate_move(1, 2, 4, &moves).unwrap();
    assert_eq!(next.values[1 * 9 + 2], vec![4]);
    // same row, same column, same box
    assert_eq!(next.values[1 * 9 + 8], vec![1, 2, 3, 5, 6, 7, 8, 9]);
    assert_eq!(next.values[7 * 9 + 2], vec![1, 2, 3, 5, 6, 7, 8, 9]);
    assert_eq!(next.values[0 * 9 + 0], vec![1, 2, 3, 5, 6, 7, 8, 9]);
    // unrelated cell
    assert_eq!(next.values[5 * 9 + 5], vec![1, 2, 3, 4, 5, 6, 7, 8, 9]);
    // input untouched
    assert_eq!(moves, fresh_moves());
}

#[test]
fn propagation_fails_when_a_peer_runs_out() {
    let mut moves = fresh_moves();
    moves.values[8] = vec![3];
    assert!(propagate_move(0, 0, 3, &moves).is_none());
    assert!(propagate_move(0, 0, 2, &moves).is_some());
}

#[test]
fn remove_candidate_keeps_order() {
    assert_eq!(remove_candidate(&vec![1, 4, 7, 9], 7), vec![1, 4, 9]);
    assert_eq!(remove_candidate(&vec![1, 4, 7, 9], 5), vec![1, 4, 7, 9]);
    assert_eq!(remove_candidate(&vec![5], 5), Vec::<u32>::new());
}

#[test]
fn search_from_last_cell() {
    let board = SudokuBoard { values: [[0; 9]; 9] };
    let solved = solve_board(&board).unwrap();
    let mut moves = SudokuMoveGroups { values: Vec::new() };
    for r in 0..9 {
        for c in 0..9 {
            moves.values.push(vec![solved.values[r][c]]);
        }
    }
    let out = try_candidates(&moves, (8, 8)).unwrap();
    assert_eq!(out, moves);
}

#[test]
fn text_rendering() {
    let mut board = SudokuBoard { values: [[0; 9]; 9] };
    board.values[0] = [1, 2, 3, 4, 5, 6, 7, 8, 9];
    board.values[8][8] = 7;
    let mut expected = String::from("1 2 3 4 5 6 7 8 9\n");
    for _ in 0..7 {
        expected.push_str(". . . . . . . . .\n");
    }
    expected.push_str(". . . . . . . . 7");
    assert_eq!(board.to_text(), expected);
}

#[test]
fn cells_are_row_major() {
    let mut board = SudokuBoard { values: [[0; 9]; 9] };
    board.values[1][0] = 5;
    board.values[0][1] = 3;
    let cells = board.to_cells();
    assert_eq!(cells[9], 5);
    assert_eq!(cells[1], 3);
    assert_eq!(SudokuBoard::from_cells(cells), board);
}

#[test]
fn result_buffers_with_a_zero_are_unsolved() {
    let solved = solve_board(&easy_example()).unwrap();
    let mut buffers = encode_batch(&vec![solved, easy_example()]);
    assert_eq!(buffers.len(), 2);
    assert_eq!(decode_result(&buffers[0]), Some(solved));
    assert_eq!(decode_result(&buffers[1]), None);
    buffers[0][80] = 0;
    assert_eq!(decode_results(&buffers), vec![None, None]);
}

#[test]
fn default_board_is_empty() {
    let board = SudokuBoard::default();
    assert_eq!(board.values, [[0; 9]; 9]);
    assert!(board.to_text().starts_with(". . . . . . . . .\n"));
}
