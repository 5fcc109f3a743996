use kenken::cell::Cell;
use kenken::solver::{Cage, KenkenPuzzle, MathOp, SolverError};

fn cage(target: u32, operation: MathOp, cells: Vec<usize>) -> Cage {
    Cage { target, operation, cells }
}

fn tutorial() -> KenkenPuzzle {
    KenkenPuzzle::new(3, vec![
        cage(5, MathOp::Add, vec![0, 1]),
        cage(3, MathOp::Add, vec![2, 5]),
        cage(4, MathOp::Add, vec![3, 6]),
        cage(3, MathOp::Add, vec![4, 7]),
        cage(3, MathOp::Free, vec![8]),
    ])
}

fn four_by_four() -> KenkenPuzzle {
    KenkenPuzzle::new(4, vec![
        cage(24, MathOp::Mul, vec![0, 4, 5]),
        cage(2, MathOp::Sub, vec![1, 2]),
        cage(7, MathOp::Add, vec![3, 7, 11]),
        cage(12, MathOp::Add, vec![6, 10, 14, 15]),
        cage(2, MathOp::Div, vec![8, 12]),
        cage(3, MathOp::Sub, vec![9, 13]),
    ])
}

/// Checks a filled grid against the puzzle without the solver: Latin rows and columns, and
/// the arithmetic of every cage.
fn check_independently(p: &KenkenPuzzle, g: &[u8]) -> bool {
    let n = p.size as usize;
    if g.len() != n * n {
        return false;
    }
    for r in 0..n {
        let mut row: Vec<u8> = g[r * n..r * n + n].to_vec();
        let mut col: Vec<u8> = (0..n).map(|k| g[k * n + r]).collect();
        row.sort();
        col.sort();
        let want: Vec<u8> = (1..=n as u8).collect();
        if row != want || col != want {
            return false;
        }
    }
    for c in &p.cages {
        let vals: Vec<u64> = c.cells.iter().map(|&i| g[i] as u64).collect();
        let t = c.target as u64;
        let ok = match c.operation {
            MathOp::Add => vals.iter().sum::<u64>() == t && vals.windows(2).all(|w| w[0] != w[1]),
            MathOp::Mul => {
                vals.iter().product::<u64>() == t && vals.windows(2).all(|w| w[0] != w[1])
            }
            MathOp::Sub => vals.len() == 2 && vals[0].abs_diff(vals[1]) == t && vals[0] != vals[1],
            MathOp::Div => {
                let (a, b) = (vals[0].max(vals[1]), vals[0].min(vals[1]));
                vals.len() == 2 && a != b && a % b == 0 && a / b == t
            }
            MathOp::Free => vals.len() == 1 && vals[0] == t,
        };
        if !ok {
            return false;
        }
    }
    true
}

/// Every filled grid of the puzzle, by brute force over all grids of its size.
fn brute_force_count(p: &KenkenPuzzle) -> usize {
    let n = p.size as usize;
    let mut g = vec![1u8; n * n];
    let mut count = 0;
    loop {
        if check_independently(p, &g) {
            count += 1;
        }
        let mut i = 0;
        while i < g.len() && g[i] as usize == n {
            g[i] = 1;
            i += 1;
        }
        if i == g.len() {
            return count;
        }
        g[i] += 1;
    }
}

fn board_text(board: &[Cell]) -> String {
    format!("{:?}", board)
}

#[test]
fn scenario_tutorial_unique_at_depth_zero() {
    let solutions = tutorial().solve(&40, &0).unwrap().unwrap();
    assert_eq!(solutions.len(), 1);
    assert_eq!(solutions[0].grid.0, vec![2, 3, 1, 3, 1, 2, 1, 2, 3]);
    assert_eq!(solutions[0].grid.1, 3);
    assert_eq!(solutions[0].depth, 0);
}

#[test]
fn scenario_four_by_four_unique() {
    let solutions = four_by_four().solve(&40, &0).unwrap().unwrap();
    assert_eq!(solutions.len(), 1);
    assert_eq!(solutions[0].grid.0, vec![4, 3, 1, 2, 3, 2, 4, 1, 2, 1, 3, 4, 1, 4, 2, 3]);
}

#[test]
fn scenario_malformed_sub_cage() {
    let p = KenkenPuzzle::new(3, vec![cage(1, MathOp::Sub, vec![0, 1, 2])]);
    assert!(matches!(p.solve(&40, &0), Err(SolverError::MalformedCage)));
    assert!(!p.is_well_formed());
}

#[test]
fn scenario_malformed_div_cage() {
    let p = KenkenPuzzle::new(3, vec![cage(2, MathOp::Div, vec![0, 1, 2])]);
    assert!(matches!(p.solve(&40, &2), Err(SolverError::MalformedCage)));
}

#[test]
fn malformed_free_cage_and_index() {
    let p = KenkenPuzzle::new(2, vec![cage(1, MathOp::Free, vec![0, 1])]);
    assert!(matches!(p.solve(&40, &0), Err(SolverError::MalformedCage)));
    let p = KenkenPuzzle::new(2, vec![cage(3, MathOp::Add, vec![0, 4])]);
    assert!(matches!(p.solve(&40, &0), Err(SolverError::MalformedCage)));
    let p = KenkenPuzzle::new(2, vec![cage(3, MathOp::Add, vec![])]);
    assert!(matches!(p.solve(&40, &0), Err(SolverError::MalformedCage)));
    assert!(tutorial().is_well_formed());
}

#[test]
fn depth_exceeded_and_no_solution() {
    // Two solutions that deduction alone cannot tell apart: a guess is needed.
    let p = KenkenPuzzle::new(2, vec![cage(3, MathOp::Add, vec![0, 1]), cage(3, MathOp::Add, vec![2, 3])]);
    assert!(matches!(p.solve(&0, &0), Err(SolverError::DepthExceeded)));
    let p = KenkenPuzzle::new(2, vec![cage(4, MathOp::Add, vec![0, 1]), cage(3, MathOp::Add, vec![2, 3])]);
    assert!(matches!(p.solve(&40, &0), Ok(None)));
}

#[test]
fn deduction_twice_on_a_fixed_point() {
    let p = four_by_four();
    let mut board = p.get_area();
    loop {
        let before = board_text(&board);
        p.deduction(&mut board);
        if board_text(&board) == before {
            break;
        }
    }
    let fixed = board_text(&board);
    p.deduction(&mut board);
    p.deduction(&mut board);
    assert_eq!(board_text(&board), fixed);
}

#[test]
fn solutions_check_independently() {
    let puzzles = vec![
        tutorial(),
        four_by_four(),
        KenkenPuzzle::new(2, vec![cage(3, MathOp::Add, vec![0, 1]), cage(3, MathOp::Add, vec![2, 3])]),
        KenkenPuzzle::new(3, vec![cage(6, MathOp::Mul, vec![0, 1, 2])]),
    ];
    for p in &puzzles {
        let solutions = p.solve(&40, &0).unwrap().unwrap();
        for s in &solutions {
            assert!(check_independently(p, &s.grid.0));
        }
    }
}

#[test]
fn count_matches_brute_force() {
    let puzzles = vec![
        KenkenPuzzle::new(2, vec![cage(3, MathOp::Add, vec![0, 1]), cage(3, MathOp::Add, vec![2, 3])]),
        KenkenPuzzle::new(3, vec![cage(6, MathOp::Mul, vec![0, 1, 2])]),
        KenkenPuzzle::new(3, vec![cage(2, MathOp::Free, vec![4]), cage(1, MathOp::Sub, vec![0, 1])]),
        tutorial(),
    ];
    for p in &puzzles {
        let found = match p.solve(&40, &0).unwrap() {
            Some(l) => {
                let mut grids: Vec<Vec<u8>> = l.iter().map(|s| s.grid.0.clone()).collect();
                let n = grids.len();
                grids.sort();
                grids.dedup();
                assert_eq!(grids.len(), n);
                n
            }
            None => 0,
        };
        assert_eq!(found, brute_force_count(p));
    }
}

#[test]
fn cap_on_solutions() {
    // A 3x3 with a single multiplication cage over the first row has 12 solutions.
    let p = KenkenPuzzle::new(3, vec![cage(6, MathOp::Mul, vec![0, 1, 2])]);
    let all = p.solve(&40, &0).unwrap().unwrap();
    assert_eq!(all.len(), brute_force_count(&p));
    let capped = p.solve(&40, &1).unwrap().unwrap();
    assert!(!capped.is_empty());
    assert_eq!(capped[0].grid.0, all[0].grid.0);
}

#[test]
fn depth_bound_monotone() {
    for p in [
        KenkenPuzzle::new(2, vec![cage(3, MathOp::Add, vec![0, 1]), cage(3, MathOp::Add, vec![2, 3])]),
        KenkenPuzzle::new(3, vec![cage(6, MathOp::Mul, vec![0, 1, 2])]),
        four_by_four(),
    ] {
        let mut low = 0usize;
        while p.solve(&low, &0).is_err() {
            low += 1;
        }
        let at_low: Vec<(Vec<u8>, usize)> = p.solve(&low, &0).unwrap().unwrap_or_default().iter().map(|s| (s.grid.0.clone(), s.depth)).collect();
        for high in low..low + 4 {
            let at_high: Vec<(Vec<u8>, usize)> = p.solve(&high, &0).unwrap().unwrap_or_default().iter().map(|s| (s.grid.0.clone(), s.depth)).collect();
            assert_eq!(at_low, at_high);
        }
        if low > 0 {
            assert!(matches!(p.solve(&(low - 1), &0), Err(SolverError::DepthExceeded)));
        }
    }
}

#[test]
fn free_cage_sets_its_target() {
    let free = cage(3, MathOp::Free, vec![0]);
    let mut area = vec![Cell::Possible(vec![1, 2])];
    free.solve(&mut area, 3);
    assert_eq!(board_text(&area), board_text(&[Cell::Possible(vec![3])]));
    let mut area = vec![Cell::Solution(2)];
    free.solve(&mut area, 3);
    assert_eq!(board_text(&area), board_text(&[Cell::Solution(2)]));
}

#[test]
fn cap_is_a_running_total() {
    let p = KenkenPuzzle::new(3, vec![cage(6, MathOp::Mul, vec![0, 1, 2])]);
    let all = p.solve(&40, &0).unwrap().unwrap().len();
    assert_eq!(all, 12);
    for k in 1..=14usize {
        let found = p.solve(&40, &k).unwrap().unwrap().len();
        assert_eq!(found, k.min(all));
    }
}
