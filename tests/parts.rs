use kenken::cell::Cell;
use kenken::generator::{
    cage_target, neighbor, operation_allowed, validate_puzzle, Difficulty, Directions,
};
use kenken::sequence_gen::{
    generate_sequences_div, generate_sequences_mul, generate_sequences_sub,
    generate_sequences_sum,
};
use kenken::solver::{Cage, KenkenPuzzle, MathOp};
use kenken::Grid;

fn tutorial() -> KenkenPuzzle {
    KenkenPuzzle::new(3, vec![
        Cage { target: 5, operation: MathOp::Add, cells: vec![0, 1] },
        Cage { target: 3, operation: MathOp::Add, cells: vec![2, 5] },
        Cage { target: 4, operation: MathOp::Add, cells: vec![3, 6] },
        Cage { target: 3, operation: MathOp::Add, cells: vec![4, 7] },
        Cage { target: 3, operation: MathOp::Free, cells: vec![8] },
    ])
}

fn is_latin(g: &Grid) -> bool {
    let n = g.1 as usize;
    if g.0.len() != n * n {
        return false;
    }
    let want: Vec<u8> = (1..=n as u8).collect();
    (0..n).all(|r| {
        let mut row: Vec<u8> = g.0[r * n..r * n + n].to_vec();
        let mut col: Vec<u8> = (0..n).map(|k| g.0[k * n + r]).collect();
        row.sort();
        col.sort();
        row == want && col == want
    })
}

#[test]
fn product_sequences_exact() {
    assert_eq!(generate_sequences_mul(3, 5, 18, None), vec![vec![3, 2, 3]]);
    assert_eq!(generate_sequences_mul(2, 4, 4, None), vec![vec![1, 4], vec![4, 1]]);
    assert!(generate_sequences_mul(2, 4, 0, None).is_empty());
    assert_eq!(generate_sequences_mul(0, 4, 1, None), vec![Vec::<u8>::new()]);
}

#[test]
fn sum_sequences_exact() {
    assert_eq!(generate_sequences_sum(2, 3, 5, None), vec![vec![2, 3], vec![3, 2]]);
    assert_eq!(
        generate_sequences_sum(3, 3, 6, None),
        vec![vec![1, 2, 3], vec![1, 3, 2], vec![2, 1, 3], vec![2, 3, 1], vec![3, 1, 2], vec![3, 2, 1]]
    );
    // Neighbours may not repeat, positions further apart may.
    assert_eq!(generate_sequences_sum(3, 2, 4, None), vec![vec![1, 2, 1]]);
    assert!(generate_sequences_sum(2, 3, 7, None).is_empty());
    let area = vec![Cell::Solution(3), Cell::Possible(vec![1, 2, 3])];
    assert_eq!(generate_sequences_sum(2, 3, 5, Some(&area)), vec![vec![3, 2]]);
}

#[test]
fn quotient_pairs_exact() {
    assert_eq!(generate_sequences_div(5, 2, None), vec![(2, 1), (1, 2), (4, 2), (2, 4)]);
    assert!(generate_sequences_div(5, 1, None).is_empty());
    assert!(generate_sequences_div(5, 0, None).is_empty());
    let a = Cell::Possible(vec![4]);
    let b = Cell::Possible(vec![1, 2, 3]);
    assert_eq!(generate_sequences_div(5, 2, Some((&a, &b))), vec![(4, 2)]);
}

#[test]
fn difference_pairs_exact() {
    assert_eq!(generate_sequences_sub(4, 2, None), vec![(3, 1), (1, 3), (4, 2), (2, 4)]);
    assert!(generate_sequences_sub(4, 0, None).is_empty());
    assert!(generate_sequences_sub(4, 300, None).is_empty());
    let a = Cell::Solution(1);
    let b = Cell::Possible(vec![1, 2, 3, 4]);
    assert_eq!(generate_sequences_sub(4, 2, Some((&a, &b))), vec![(1, 3)]);
}

#[test]
fn format_text() {
    assert_eq!(tutorial().format(), "3<5.a.0,1>3.a.2,5>4.a.3,6>3.a.4,7>3.f.8>");
    let p = KenkenPuzzle::new(12, vec![
        Cage { target: 240, operation: MathOp::Mul, cells: vec![0, 12, 13] },
        Cage { target: 3, operation: MathOp::Div, cells: vec![1, 2] },
        Cage { target: 10, operation: MathOp::Sub, cells: vec![14, 15] },
    ]);
    assert_eq!(p.format(), "12<240.m.0,12,13>3.d.1,2>10.s.14,15>");
    assert_eq!(KenkenPuzzle::new(0, vec![]).format(), "0<");
}

#[test]
fn difficulty_bands() {
    assert_eq!(Difficulty::from_depth(0), Difficulty::Easy);
    assert_eq!(Difficulty::from_depth(1), Difficulty::Medium);
    assert_eq!(Difficulty::from_depth(2), Difficulty::Medium);
    assert_eq!(Difficulty::from_depth(3), Difficulty::Hard);
    assert_eq!(Difficulty::from_depth(5), Difficulty::Hard);
    assert_eq!(Difficulty::from_depth(6), Difficulty::Extreme);
    assert!(Difficulty::Any.test_depth(17));
    assert!(Difficulty::Hard.test_depth(4));
    assert!(!Difficulty::Hard.test_depth(6));
}

#[test]
fn validate_generated_puzzle() {
    let p = tutorial();
    assert!(validate_puzzle(&p, 40, true, Difficulty::Easy));
    assert!(validate_puzzle(&p, 40, true, Difficulty::Any));
    assert!(!validate_puzzle(&p, 40, true, Difficulty::Medium));
    let two = KenkenPuzzle::new(2, vec![
        Cage { target: 3, operation: MathOp::Add, cells: vec![0, 1] },
        Cage { target: 3, operation: MathOp::Add, cells: vec![2, 3] },
    ]);
    assert!(!validate_puzzle(&two, 40, true, Difficulty::Any));
    assert!(validate_puzzle(&two, 40, false, Difficulty::Medium));
    assert!(!validate_puzzle(&two, 0, false, Difficulty::Any));
}

#[test]
fn grid_new_values() {
    let g = Grid::new(3);
    assert_eq!(g.0, vec![1, 2, 3, 2, 3, 1, 3, 1, 2]);
    assert_eq!(g.1, 3);
    assert!(is_latin(&Grid::new(7)));
    assert!(Grid::new(0).0.is_empty());
}

#[test]
fn grid_swaps_and_transpose() {
    let mut g = Grid(vec![1, 2, 3, 4, 5, 6, 7, 8, 9], 3);
    g.swap_row(0, 2);
    assert_eq!(g.0, vec![7, 8, 9, 4, 5, 6, 1, 2, 3]);
    g.swap_col(0, 1);
    assert_eq!(g.0, vec![8, 7, 9, 5, 4, 6, 2, 1, 3]);
    g.transpose();
    assert_eq!(g.0, vec![8, 5, 2, 7, 4, 1, 9, 6, 3]);
    g.swap_row(1, 1);
    assert_eq!(g.0, vec![8, 5, 2, 7, 4, 1, 9, 6, 3]);
}

#[test]
fn grid_shuffle_keeps_latin() {
    for size in 1..7u8 {
        let mut g = Grid::new(size);
        g.shuffle(50);
        assert_eq!(g.1, size);
        assert!(is_latin(&g));
    }
}

#[test]
fn neighbours_on_board() {
    assert_eq!(neighbor(0, 3, Directions::Up), None);
    assert_eq!(neighbor(0, 3, Directions::Left), None);
    assert_eq!(neighbor(0, 3, Directions::Right), Some(1));
    assert_eq!(neighbor(0, 3, Directions::Down), Some(3));
    assert_eq!(neighbor(8, 3, Directions::Down), None);
    assert_eq!(neighbor(8, 3, Directions::Right), None);
    assert_eq!(neighbor(5, 3, Directions::Right), None);
    assert_eq!(neighbor(4, 3, Directions::Up), Some(1));
    assert_eq!(neighbor(4, 3, Directions::Left), Some(3));
}

#[test]
fn cage_targets_and_operations() {
    let g = Grid(vec![1, 2, 3, 2, 3, 1, 3, 1, 2], 3);
    assert_eq!(cage_target(&g, &vec![0, 1, 4], MathOp::Add), 6);
    assert_eq!(cage_target(&g, &vec![1, 2, 4], MathOp::Mul), 18);
    assert_eq!(cage_target(&g, &vec![0, 2], MathOp::Sub), 2);
    assert_eq!(cage_target(&g, &vec![2, 0], MathOp::Sub), 2);
    assert_eq!(cage_target(&g, &vec![0, 1], MathOp::Div), 2);
    assert_eq!(cage_target(&g, &vec![7, 6], MathOp::Div), 3);
    assert_eq!(cage_target(&g, &vec![4], MathOp::Free), 3);
    assert!(operation_allowed(&g, &vec![0, 1], MathOp::Div));
    assert!(!operation_allowed(&g, &vec![1, 2], MathOp::Div));
    assert!(!operation_allowed(&g, &vec![0], MathOp::Add));
    assert!(operation_allowed(&g, &vec![0, 1, 2], MathOp::Mul));
    assert!(!operation_allowed(&g, &vec![0, 1, 2], MathOp::Sub));
    assert!(operation_allowed(&g, &vec![5], MathOp::Free));
}
