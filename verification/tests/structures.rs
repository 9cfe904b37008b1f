use bfcrunch::cruncher::{c_list_gen, j_list_gen, k_list_gen, s_list_gen};
use bfcrunch::node::Node;
use bfcrunch::path::Path;

#[test]
fn node_equality_compares_pointer_only() {
    let a = Node::new(3, 10);
    let b = Node::new_with_rolling(3, 99);
    let c = Node::new(4, 10);
    assert_eq!(a, b);
    assert_ne!(a, c);
    assert!(!a.rolling);
    assert!(b.rolling);
}

#[test]
fn path_operations() {
    let mut p = Path::new();
    assert_eq!(p.len(), 0);
    assert_eq!(p.cost(), 0);
    p.add_last(Node::new(1, 5));
    p.add_last(Node::new(2, 7));
    p.add_first(Node::new(0, 3));
    assert_eq!(p.len(), 3);
    assert_eq!(p.cost(), 15);
    assert_eq!(p.get(0).pointer, 0);
    assert_eq!(p.get(1).pointer, 1);
    assert_eq!(p.get(2).pointer, 2);
    assert!(p.contains(&Node::new(2, 0)));
    assert!(!p.contains(&Node::new(9, 0)));

    let mut q = Path::new();
    q.add_last(Node::new(8, 1));
    p.extend_back(&q);
    assert_eq!(p.len(), 4);
    assert_eq!(p.get(3).pointer, 8);
    assert_eq!(p.cost(), 16);
}

/// Cost of an `s` segment: magnitude plus one per term.
fn s_seg_cost(e: &[i32]) -> i32 {
    e.iter().map(|v| v.abs() + 1).sum()
}

/// Cost of a `c` segment: magnitude plus one for the first term, magnitude
/// plus two for each later term.
fn c_seg_cost(e: &[i32]) -> i32 {
    let mut total = 0;
    for (i, v) in e.iter().enumerate() {
        total += v.abs() + if i == 0 { 1 } else { 2 };
    }
    total
}

#[test]
fn s_list_entries_cost_one_more_than_len() {
    // each emitted list costs len + 1: the first element may spend the
    // whole budget, and a spend of exactly len - 1 is excluded
    for len in 1..=5 {
        let lists = s_list_gen(len);
        assert!(!lists.is_empty());
        for e in &lists {
            assert_eq!(s_seg_cost(e), len + 1, "len = {}, e = {:?}", len, e);
            assert_ne!(e[0], 0);
        }
    }
}

#[test]
fn s_list_smallest_cases() {
    assert_eq!(s_list_gen(1), vec![vec![-1], vec![1]]);
    assert_eq!(s_list_gen(2), vec![vec![-2], vec![2]]);
}

#[test]
fn c_list_entries_cost_exactly_len() {
    for len in 1..=6 {
        let lists = c_list_gen(len);
        for e in &lists {
            assert_eq!(c_seg_cost(e), len, "len = {}, e = {:?}", len, e);
        }
    }
}

#[test]
fn c_list_smallest_cases() {
    assert_eq!(c_list_gen(3), vec![vec![-2], vec![2]]);
    assert_eq!(c_list_gen(1), vec![vec![0]]);
}

#[test]
fn k_list_magnitudes_total_len() {
    assert_eq!(k_list_gen(0), vec![[0, 0]]);
    let pairs = k_list_gen(2);
    assert_eq!(
        pairs,
        vec![
            [-2, 0],
            [-1, 1],
            [-1, -1],
            [0, 2],
            [0, -2],
            [1, 1],
            [1, -1],
            [2, 0]
        ]
    );
    for len in 1..=4 {
        for p in k_list_gen(len) {
            assert_eq!(p[0].abs() + p[1].abs(), len);
        }
    }
}

#[test]
fn j_list_covers_all_splits() {
    assert_eq!(j_list_gen(4), vec![[3, 1], [2, 2], [1, 3]]);
    assert_eq!(j_list_gen(2), vec![[1, 1]]);
    assert_eq!(j_list_gen(1), Vec::<[i32; 2]>::new());
    for len in 2..=6 {
        for p in j_list_gen(len) {
            assert_eq!(p[0] + p[1], len);
            assert!(p[1] >= 1);
        }
    }
}
