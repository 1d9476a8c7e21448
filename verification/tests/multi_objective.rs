use particle_swarm::{ObjectiveVec, ParetoFront};

#[test]
fn dominance() {
    let a = ObjectiveVec::new(vec![1, 2]);
    let b = ObjectiveVec::new(vec![2, 3]);
    assert!(a.dominates(&b));
    assert!(!b.dominates(&a));
}

#[test]
fn non_dominating() {
    let a = ObjectiveVec::new(vec![1, 3]);
    let b = ObjectiveVec::new(vec![3, 1]);
    assert!(!a.dominates(&b));
    assert!(!b.dominates(&a));
}

#[test]
fn pareto_front_add_non_dominated() {
    let mut pf = ParetoFront::new();
    pf.add(vec![1], ObjectiveVec::new(vec![1, 3]));
    pf.add(vec![2], ObjectiveVec::new(vec![3, 1]));
    assert_eq!(pf.len(), 2);
}

#[test]
fn pareto_front_removes_dominated() {
    let mut pf = ParetoFront::new();
    pf.add(vec![1], ObjectiveVec::new(vec![3, 3]));
    pf.add(vec![2], ObjectiveVec::new(vec![1, 1]));
    assert_eq!(pf.len(), 1);
}

#[test]
fn equal_vectors_do_not_dominate() {
    let a = ObjectiveVec::new(vec![2, 2]);
    assert!(!a.dominates(&a.clone()));
}

#[test]
fn dominance_compares_common_prefix_only() {
    let a = ObjectiveVec::new(vec![1, 100]);
    let b = ObjectiveVec::new(vec![2]);
    assert!(a.dominates(&b));
    assert!(!b.dominates(&a));
    let empty = ObjectiveVec::new(vec![]);
    assert!(!empty.dominates(&a));
    assert!(!a.dominates(&empty));
}

#[test]
fn dominance_is_transitive_on_equal_lengths() {
    let a = ObjectiveVec::new(vec![1, 1]);
    let b = ObjectiveVec::new(vec![1, 2]);
    let c = ObjectiveVec::new(vec![2, 2]);
    assert!(a.dominates(&b) && b.dominates(&c) && a.dominates(&c));
}

#[test]
fn dominated_newcomer_is_not_added() {
    let mut pf = ParetoFront::new();
    pf.add("a", ObjectiveVec::new(vec![1, 1]));
    pf.add("b", ObjectiveVec::new(vec![2, 2]));
    assert_eq!(pf.len(), 1);
    assert_eq!(pf.solutions[0].0, "a");
}

#[test]
fn add_removes_every_dominated_and_keeps_order() {
    let mut pf = ParetoFront::new();
    pf.add("a", ObjectiveVec::new(vec![1, 5]));
    pf.add("b", ObjectiveVec::new(vec![3, 3]));
    pf.add("c", ObjectiveVec::new(vec![5, 1]));
    pf.add("d", ObjectiveVec::new(vec![4, 4]));
    assert_eq!(pf.len(), 3);
    pf.add("e", ObjectiveVec::new(vec![0, 4]));
    let names: Vec<&str> = pf.solutions.iter().map(|s| s.0).collect();
    assert_eq!(names, vec!["b", "c", "e"]);
    assert_eq!(pf.solutions[2].1.values, vec![0, 4]);
}

#[test]
fn equal_objectives_are_both_kept() {
    let mut pf = ParetoFront::new();
    pf.add(1, ObjectiveVec::new(vec![2, 2]));
    pf.add(2, ObjectiveVec::new(vec![2, 2]));
    assert_eq!(pf.len(), 2);
}

#[test]
fn new_and_default_fronts_are_empty() {
    let pf: ParetoFront<u8> = ParetoFront::new();
    assert!(pf.is_empty());
    assert_eq!(pf.len(), 0);
    let d: ParetoFront<u8> = ParetoFront::default();
    assert!(d.is_empty());
    let mut e: ParetoFront<u8> = ParetoFront::default();
    e.add(0, ObjectiveVec::new(vec![7]));
    assert!(!e.is_empty());
}

#[test]
fn series_of_adds_keeps_exactly_the_non_dominated() {
    let items: Vec<(u32, Vec<i64>)> = vec![
        (0, vec![5, 5]),
        (1, vec![4, 6]),
        (2, vec![6, 4]),
        (3, vec![3, 3]),
        (4, vec![9, 0]),
        (5, vec![3, 3]),
        (6, vec![2, 8]),
        (7, vec![4, 4]),
    ];
    let mut pf = ParetoFront::new();
    for (p, o) in &items {
        pf.add(*p, ObjectiveVec::new(o.clone()));
    }
    // non-dominated among all added: 3, 4, 5, 6 (in insertion order)
    let kept: Vec<u32> = pf.solutions.iter().map(|s| s.0).collect();
    assert_eq!(kept, vec![3, 4, 5, 6]);
}
