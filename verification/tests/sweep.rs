use conservation_spectral_topology::sweep::sweep_cut_sizes;

fn ring(n: usize) -> Vec<Vec<bool>> {
    (0..n)
        .map(|i| (0..n).map(|j| j == (i + 1) % n || (j + 1) % n == i).collect())
        .collect()
}

#[test]
fn sweep_cuts_of_a_ring_in_ring_order() {
    // every proper arc of C6 is left by exactly two edges
    let cuts = sweep_cut_sizes(&ring(6), &(0..6).collect());
    assert_eq!(cuts, vec![0, 2, 2, 2, 2, 2]);
}

#[test]
fn sweep_cuts_follow_the_given_order() {
    // alternating vertices of C6: {0}, {0,2}, {0,2,4}, {0,2,4,1}, ...
    let cuts = sweep_cut_sizes(&ring(6), &vec![0, 2, 4, 1, 3, 5]);
    assert_eq!(cuts, vec![0, 2, 4, 6, 4, 2]);
}

#[test]
fn sweep_cuts_of_a_complete_graph() {
    // K4: a set of k vertices is left by k * (4 - k) edges
    let k4: Vec<Vec<bool>> = (0..4).map(|i| (0..4).map(|j| i != j).collect()).collect();
    let cuts = sweep_cut_sizes(&k4, &vec![3, 1, 0, 2]);
    assert_eq!(cuts, vec![0, 3, 4, 3]);
}

#[test]
fn sweep_cuts_of_an_empty_graph() {
    assert_eq!(sweep_cut_sizes(&Vec::new(), &Vec::new()), Vec::<usize>::new());
    let none = vec![vec![false; 3]; 3];
    assert_eq!(sweep_cut_sizes(&none, &vec![2, 0, 1]), vec![0, 0, 0]);
}
