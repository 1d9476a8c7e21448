use particle_swarm::{RingTopology, StarTopology, Topology, VonNeumannTopology};

#[test]
fn star_all_neighbors() {
    let star = StarTopology;
    let n = star.neighbors(2, 5);
    assert_eq!(n.len(), 5);
}

#[test]
fn ring_correct_count() {
    let ring = RingTopology { k: 2 };
    let n = ring.neighbors(0, 10);
    assert_eq!(n.len(), 3); // self + 2
}

#[test]
fn ring_wraps_around() {
    let ring = RingTopology { k: 2 };
    let n = ring.neighbors(0, 10);
    assert!(n.contains(&9)); // wraps
    assert!(n.contains(&1));
}

#[test]
fn von_neumann_correct() {
    let vn = VonNeumannTopology::new(3, 3);
    let n = vn.neighbors(4, 9); // center
    assert_eq!(n.len(), 5); // self + 4
}

#[test]
fn von_neumann_corner() {
    let vn = VonNeumannTopology::new(3, 3);
    let n = vn.neighbors(0, 9); // top-left
    assert_eq!(n.len(), 3); // self + right + down
}

#[test]
fn neighborhood_best_finds_best() {
    // best fitness of particles 0..5; particle 3 has the lowest
    let fitness: Vec<i64> = vec![10, 5, 8, 3, 7];
    let star = StarTopology;
    let nb = star.neighborhood_best(&fitness, 0);
    assert_eq!(nb, 3);
}

#[test]
fn star_lists_every_particle_in_order() {
    assert_eq!(StarTopology.neighbors(4, 6), vec![0, 1, 2, 3, 4, 5]);
    assert_eq!(StarTopology.neighbors(0, 0), Vec::<usize>::new());
}

#[test]
fn ring_order_is_plus_minus_then_self() {
    let ring = RingTopology { k: 4 };
    assert_eq!(ring.neighbors(0, 10), vec![1, 9, 2, 8, 0]);
    assert_eq!(ring.neighbors(9, 10), vec![0, 8, 1, 7, 9]);
}

#[test]
fn ring_with_odd_k_has_k_neighbors() {
    let ring = RingTopology { k: 3 };
    assert_eq!(ring.neighbors(5, 10), vec![6, 4, 7, 5]);
    let n = ring.neighbors(0, 10);
    assert_eq!(n.len(), 4); // self + 3
    assert_eq!(n, vec![1, 9, 2, 0]);
    let one = RingTopology { k: 1 };
    assert_eq!(one.neighbors(3, 10), vec![4, 3]);
    assert_eq!(one.neighbors(9, 10), vec![0, 9]);
}

#[test]
fn ring_without_neighbors_is_self_only() {
    let ring = RingTopology { k: 0 };
    assert_eq!(ring.neighbors(3, 0), vec![3]);
    assert_eq!(RingTopology { k: 1 }.neighbors(0, 1), vec![0, 0]);
}

#[test]
fn ring_neighbors_are_distinct_in_large_swarm() {
    let ring = RingTopology { k: 5 };
    let mut n = ring.neighbors(1, 6);
    assert_eq!(n.len(), 6);
    n.sort();
    assert_eq!(n, vec![0, 1, 2, 3, 4, 5]);
}

#[test]
fn ring_small_swarm_repeats_indices() {
    let ring = RingTopology { k: 4 };
    assert_eq!(ring.neighbors(0, 2), vec![1, 1, 0, 0, 0]);
}

#[test]
fn von_neumann_center_order() {
    let vn = VonNeumannTopology::new(3, 3);
    assert_eq!(vn.neighbors(4, 9), vec![4, 1, 7, 3, 5]);
    assert_eq!(vn.neighbors(0, 9), vec![0, 3, 1]);
    assert_eq!(vn.neighbors(8, 9), vec![8, 5, 7]);
}

#[test]
fn von_neumann_partial_last_row() {
    // 3x3 grid holding only 7 particles: index 7 and 8 are missing
    let vn = VonNeumannTopology::new(3, 3);
    assert_eq!(vn.neighbors(4, 7), vec![4, 1, 3, 5]);
    assert_eq!(vn.neighbors(5, 7), vec![5, 2, 4]);
}

#[test]
fn von_neumann_grid_position_round_trip() {
    let vn = VonNeumannTopology::new(4, 5);
    assert_eq!(vn.grid_pos(13), (2, 3));
    assert_eq!(vn.idx(2, 3), 13);
    assert_eq!(vn.rows, 4);
    assert_eq!(vn.cols, 5);
}

#[test]
fn neighborhood_best_prefers_first_of_equal() {
    let fitness: Vec<i64> = vec![4, 2, 9, 2, 7];
    assert_eq!(StarTopology.neighborhood_best(&fitness, 0), 1);
    // a star neighbourhood does not depend on the particle's own index
    assert_eq!(StarTopology.neighborhood_best(&fitness, 17), 1);
    // ring neighbours of 4 in 5: 0, 3, 4; lowest is 3
    assert_eq!(RingTopology { k: 2 }.neighborhood_best(&fitness, 4), 3);
    let vn = VonNeumannTopology::new(2, 3);
    let grid_fitness: Vec<i64> = vec![5, -1, 0, 8, 3, -1];
    // neighbours of 4: 4, 1, 3, 5; fitness 3, -1, 8, -1
    assert_eq!(vn.neighborhood_best(&grid_fitness, 4), 1);
}
