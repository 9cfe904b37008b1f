use bfcrunch::cruncher::Cruncher;
use bfcrunch::options::Options;
use bfcrunch::solver::Solver;

#[test]
fn solver_emits_single_byte_from_zero_cell() {
    let mut solver = Solver::new(&[5u8], vec![0u8; 10], 1, 5, 20, false);
    let path = solver.solve(10).expect("a path within budget");
    assert_eq!(path.len(), 1);
    assert_eq!(path.cost(), 6);
    assert_eq!(path.get(0).pointer, 1);
}

#[test]
fn solver_respects_budget() {
    let mut solver = Solver::new(&[5u8], vec![0u8; 10], 1, 5, 20, false);
    assert!(solver.solve(6).is_some());
    assert!(solver.solve(5).is_none());
}

#[test]
fn solver_reuses_prepared_cells() {
    // the goal bytes already sit on the tape: one dot each plus the moves
    let tape = vec![0u8, 65, 66, 0, 0, 0];
    let mut solver = Solver::new(&[65u8, 66u8], tape, 1, 5, 20, false);
    let path = solver.solve(10).expect("a path within budget");
    assert_eq!(path.len(), 2);
    assert_eq!(path.cost(), 3);
    // ties go to the first class tried: adjusting in place beats moving
    assert_eq!(path.get(0).pointer, 1);
    assert_eq!(path.get(1).pointer, 1);
}

#[test]
fn unique_cells_forbids_reuse() {
    // without the rule, a run of equal goal bytes is emitted from one cell
    let tape = vec![0u8, 65, 0, 65, 0, 65, 0, 65, 0];
    let goal = [65u8, 65, 65, 65];

    let mut plain = Solver::new(&goal, tape.clone(), 1, 7, 20, false);
    let cheap = plain.solve(30).expect("a path without the rule");
    assert_eq!(cheap.cost(), 4);
    for i in 0..cheap.len() {
        assert_eq!(cheap.get(i).pointer, 1);
    }

    // under the rule the single-cell pattern is rejected; since the best
    // continuation of every move also sits on the cell just written, the
    // filter admits nothing at all on this tape
    let mut restricted = Solver::new(&goal, tape, 1, 7, 20, true);
    assert!(restricted.solve(30).is_none());
}

#[test]
fn unique_cells_paths_never_share_a_cell() {
    // distinct goal bytes at distinct cells: the rule is satisfiable here
    let tape = vec![0u8, 65, 0, 70];
    let goal = [65u8, 70];

    let mut restricted = Solver::new(&goal, tape, 1, 3, 20, true);
    let path = restricted.solve(30).expect("a path under the rule");
    assert_eq!(path.len(), 2);
    assert_eq!(path.cost(), 4);
    let mut seen = Vec::new();
    for i in 0..path.len() {
        let ptr = path.get(i).pointer;
        assert!(!seen.contains(&ptr), "cell {} used twice", ptr);
        seen.push(ptr);
    }
}

#[test]
fn crunch_finds_single_byte_program() {
    // the sweep at length fourteen solves a one-byte goal
    let mut options = Options::new(String::from("A"));
    options.max_tape = 100;
    let mut cruncher = Cruncher::new(&options).unwrap();
    let solutions = cruncher.crunch(14);
    assert!(!solutions.is_empty());
    for sol in &solutions {
        assert_eq!(sol.path.len(), 1);
        assert_eq!(sol.len, 14);
        assert!(sol.path.get(0).pointer <= sol.max_pntr);
        assert_eq!(sol.total, sol.path.cost() + 14);
    }
}

#[test]
fn crunch_two_byte_goal_meets_lower_bound() {
    // two distinct bytes cost at least two beyond the initialization
    let mut options = Options::new(String::from("AB"));
    options.max_tape = 100;
    let mut cruncher = Cruncher::new(&options).unwrap();
    let solutions = cruncher.crunch(14);
    assert!(!solutions.is_empty());
    for sol in &solutions {
        assert_eq!(sol.path.len(), 2);
        assert!(sol.path.cost() >= 2);
    }
}

#[test]
fn crunch_handles_nul_goal() {
    // a NUL goal: the initialization must leave a zero under the pointer
    let mut options = Options::new(String::from("\\x00"));
    options.max_tape = 100;
    let mut cruncher = Cruncher::new(&options).unwrap();
    let solutions = cruncher.crunch(14);
    assert!(!solutions.is_empty());
    for sol in &solutions {
        assert_eq!(sol.tape[sol.pntr as usize], 0);
    }
}

#[test]
fn rolling_limit_never_increases() {
    // a two-byte goal cannot use rolling loops, so the limit can only
    // tighten across the sweep
    let mut options = Options::new(String::from("AB"));
    options.max_tape = 100;
    let mut cruncher = Cruncher::new(&options).unwrap();
    let mut previous = cruncher.limit();
    for len in 14..=16 {
        let solutions = cruncher.crunch(len);
        for sol in &solutions {
            for i in 0..sol.path.len() {
                assert!(!sol.path.get(i).rolling);
            }
        }
        let current = cruncher.limit();
        assert!(current <= previous, "limit rose from {} to {}", previous, current);
        previous = current;
    }
}

#[test]
fn derived_limit_follows_the_distance_formula() {
    // with no explicit limit: a third of the byte distance walked from
    // zero, plus one command per byte, plus twenty
    let options = Options::new(String::from("AB"));
    let cruncher = Cruncher::new(&options).unwrap();
    assert_eq!(cruncher.limit(), (65 + 1) / 3 + 2 + 20);

    let mut capped = Options::new(String::from("AB"));
    capped.limit = Some(30);
    let cruncher = Cruncher::new(&capped).unwrap();
    assert_eq!(cruncher.limit(), 30);
}

#[test]
fn rolling_limit_tracks_best_total() {
    // with the rolling limit on, each report caps later programs
    let mut options = Options::new(String::from("AB"));
    options.max_tape = 100;
    let mut cruncher = Cruncher::new(&options).unwrap();
    let solutions = cruncher.crunch(14);
    if let Some(last) = solutions.last() {
        assert_eq!(cruncher.limit(), last.total);
    }
}
