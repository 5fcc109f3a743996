use kenken::solver::sequence_gen;
use kenken::solver::{Cage, Cell, KenkenPuzzle, MathOp};

#[test]
fn generate_sequences_mul() {
    let seq = sequence_gen::generate_sequences_mul(3, 5, 18, None); //Seq.0 [3, 2, 3]
    assert_eq!(seq.len(), 1);
    assert_eq!(seq[0].len(), 3);
    assert_eq!(seq[0], vec![3, 2, 3]);
    let mut area = vec![Cell::Possible(vec![1, 2, 3, 4, 5]); 3];
    area[0] = Cell::Solution(3);
    let seq = sequence_gen::generate_sequences_mul(3, 5, 15, Some(&area));
    assert_eq!(seq.len(), 2);
    area[0] = Cell::Possible(vec![3, 4, 5]);
    let seq = sequence_gen::generate_sequences_mul(3, 5, 15, Some(&area));
    assert_eq!(seq.len(), 4);
    area[0] = Cell::Possible(vec![2, 4]);
    let seq = sequence_gen::generate_sequences_mul(3, 5, 15, Some(&area));
    assert_eq!(seq.len(), 0);
}

#[test]
fn generate_sequences_div() {
    assert_eq!(sequence_gen::generate_sequences_div(5, 2, None).len(), 4);
}

fn solve_test_board(board: &KenkenPuzzle, expected: Vec<u8>) {
    if let Some(x) = board.solve(&40, &1).unwrap() {
        assert_eq!(x[0].grid.0, expected);
    } else {
        assert!(false);
    }
}

#[test]
fn solve_test() {
    let board = KenkenPuzzle::new(3, vec![ //kenken tutorial puzzle
        Cage {target: 5, operation: MathOp::Add, cells: vec![0,1]},
        Cage {target: 3, operation: MathOp::Add, cells: vec![2,5]},
        Cage {target: 4, operation: MathOp::Add, cells: vec![3,6]},
        Cage {target: 3, operation: MathOp::Add, cells: vec![4,7]},
        Cage {target: 3, operation: MathOp::Free, cells: vec![8]}
        ]);
    solve_test_board(&board, vec![2,3,1,3,1,2,1,2,3]);
    let board = KenkenPuzzle::new(3, vec![
        Cage {target: 5, operation: MathOp::Add, cells: vec![0,1]},
        Cage {target: 1, operation: MathOp::Sub, cells: vec![2,5]},
        Cage {target: 3, operation: MathOp::Div, cells: vec![3,4]},
        Cage {target: 2, operation: MathOp::Free, cells: vec![6]},
        Cage {target: 3, operation: MathOp::Div, cells: vec![7,8]}
    ]);
    solve_test_board(&board, vec![3,2,1,1,3,2,2,1,3]);
    let board = KenkenPuzzle::new(4, vec![
        Cage {target: 24, operation: MathOp::Mul, cells: vec![0,4,5]},
        Cage {target: 2, operation: MathOp::Sub, cells: vec![1,2]},
        Cage {target: 7, operation: MathOp::Add, cells: vec![3,7,11]},
        Cage {target: 12, operation: MathOp::Add, cells: vec![6,10,14,15]},
        Cage {target: 2, operation: MathOp::Div, cells: vec![8,12]},
        Cage {target: 3, operation: MathOp::Sub, cells: vec![9,13]}
        ]);
    solve_test_board(&board, vec![4,3,1,2,3,2,4,1,2,1,3,4,1,4,2,3]);
    let board = KenkenPuzzle::new(5, vec![
        Cage {target: 3, operation: MathOp::Sub, cells: vec![0,5]},
        Cage {target: 12, operation: MathOp::Add, cells: vec![1,2,3]},
        Cage {target: 10, operation: MathOp::Mul, cells: vec![4,9]},
        Cage {target: 6, operation: MathOp::Add, cells: vec![6,7,8]},
        Cage {target: 3, operation: MathOp::Sub, cells: vec![10,15]},
        Cage {target: 2, operation: MathOp::Div, cells: vec![11,16]},
        Cage {target: 9, operation: MathOp::Add, cells: vec![12,13,14]},
        Cage {target: 40, operation: MathOp::Mul, cells: vec![17,22,21]},
        Cage {target: 2, operation: MathOp::Sub, cells: vec![18,23]},
        Cage {target: 3, operation: MathOp::Sub, cells: vec![19,24]},
        Cage {target: 3, operation: MathOp::Free, cells: vec![20]}
        ]);
    solve_test_board(&board, vec![1,3,5,4,2,4,1,3,2,5,2,4,1,5,3,5,2,4,3,1,3,5,2,1,4]);
    let board = KenkenPuzzle::new(9, vec![
        Cage {target: 8, operation: MathOp::Sub, cells: vec![0,1]},
        Cage {target: 7, operation: MathOp::Free, cells: vec![2]},
        Cage {target: 2, operation: MathOp::Sub, cells: vec![3,4]},
        Cage {target: 3, operation: MathOp::Sub, cells: vec![5,6]},
        Cage {target: 10, operation: MathOp::Add, cells: vec![7,16,25]},
        Cage {target: 90, operation: MathOp::Mul, cells: vec![8,17,26]},
        Cage {target: 3, operation: MathOp::Div, cells: vec![9, 10]},
        Cage {target: 11, operation: MathOp::Add, cells: vec![11,20]},
        Cage {target: 7, operation: MathOp::Add, cells: vec![12,21]},
        Cage {target: 1, operation: MathOp::Sub, cells: vec![13,22]},
        Cage {target: 2, operation: MathOp::Div, cells: vec![14,15]},
        Cage {target: 2, operation: MathOp::Sub, cells: vec![18,19]},
        Cage {target: 24, operation: MathOp::Mul, cells: vec![23,32,41]},
        Cage {target: 9, operation: MathOp::Free, cells: vec![24]},
        Cage {target: 5, operation: MathOp::Sub, cells: vec![27, 28]},
        Cage {target: 8, operation: MathOp::Sub, cells: vec![29,38]},
        Cage {target: 15, operation: MathOp::Add, cells: vec![30, 31]},
        Cage {target: 60, operation: MathOp::Mul, cells: vec![33,34,35]},
        Cage {target: 70, operation: MathOp::Mul, cells: vec![36,37,46,45]},
        Cage {target: 7, operation: MathOp::Sub, cells: vec![39,40]},
        Cage {target: 2, operation: MathOp::Div, cells: vec![42,51]},
        Cage {target: 2, operation: MathOp::Sub, cells: vec![43,52]},
        Cage {target: 56, operation: MathOp::Mul, cells: vec![44,53]},
        Cage {target: 1, operation: MathOp::Sub, cells: vec![47,48]},
        Cage {target: 54, operation: MathOp::Mul, cells: vec![50,49,58]},
        Cage {target: 30, operation: MathOp::Mul, cells: vec![54,55]},
        Cage {target: 3, operation: MathOp::Sub, cells: vec![56,57]},
        Cage {target: 8, operation: MathOp::Sub, cells: vec![59,60]},
        Cage {target: 31, operation: MathOp::Add, cells: vec![61,70,79,80]},
        Cage {target: 2, operation: MathOp::Div, cells: vec![62,71]},
        Cage {target: 2, operation: MathOp::Div, cells: vec![63,72]},
        Cage {target: 4, operation: MathOp::Div, cells: vec![64,65]},
        Cage {target: 3, operation: MathOp::Div, cells: vec![66,75]},
        Cage {target: 5, operation: MathOp::Free, cells: vec![67]},
        Cage {target: 15, operation: MathOp::Add, cells: vec![68,77,76]},
        Cage {target: 11, operation: MathOp::Add, cells: vec![69,78]},
        Cage {target: 2, operation: MathOp::Div, cells: vec![73,74]}
        ]);
        solve_test_board(&board, vec![9,1,7,6,4,5,8,2,3,3,9,8,5,7,4,2,1,6,6,4,3,2,8,1,9,7,5,
            7,2,1,9,6,8,5,3,4,2,5,9,8,1,3,6,4,7,1,7,5,4,9,2,3,6,8,
            5,6,4,7,3,9,1,8,2,4,8,2,3,5,6,7,9,1,8,3,6,1,2,7,4,5,9]);
}
