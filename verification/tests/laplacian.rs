use conservation_spectral_topology::laplacian::{
    complete_laplacian, cycle_laplacian, path_laplacian,
};

#[test]
fn test_cycle_laplacian_structure() {
    let l = cycle_laplacian(4);
    for i in 0..4 {
        assert_eq!(l[i][i], 2);
        assert_eq!(l[i][(i + 1) % 4], -1);
        assert_eq!(l[i][(i + 3) % 4], -1);
    }
}

#[test]
fn test_path_laplacian_structure() {
    let l = path_laplacian(4);
    assert_eq!(l[0][0], 1);
    assert_eq!(l[3][3], 1);
    assert_eq!(l[1][1], 2);
    assert_eq!(l[2][2], 2);
}

#[test]
fn test_complete_laplacian_structure() {
    let l = complete_laplacian(4);
    for i in 0..4 {
        assert_eq!(l[i][i], 3);
        for j in 0..4 {
            if i != j {
                assert_eq!(l[i][j], -1);
            }
        }
    }
}

fn trace(m: &Vec<Vec<i64>>) -> i64 {
    (0..m.len()).map(|i| m[i][i]).sum()
}

#[test]
fn cycle_laplacian_full_matrix() {
    let l = cycle_laplacian(5);
    assert_eq!(
        l,
        vec![
            vec![2, -1, 0, 0, -1],
            vec![-1, 2, -1, 0, 0],
            vec![0, -1, 2, -1, 0],
            vec![0, 0, -1, 2, -1],
            vec![-1, 0, 0, -1, 2],
        ]
    );
}

#[test]
fn cycle_laplacian_degenerate_sizes() {
    assert_eq!(cycle_laplacian(0), Vec::<Vec<i64>>::new());
    // the neighbour writes land on the diagonal and overwrite the 2
    assert_eq!(cycle_laplacian(1), vec![vec![-1]]);
    // both neighbours are the same vertex, written once
    assert_eq!(cycle_laplacian(2), vec![vec![2, -1], vec![-1, 2]]);
}

#[test]
fn path_laplacian_full_matrix() {
    assert_eq!(path_laplacian(0), Vec::<Vec<i64>>::new());
    assert_eq!(path_laplacian(1), vec![vec![0]]);
    assert_eq!(
        path_laplacian(3),
        vec![vec![1, -1, 0], vec![-1, 2, -1], vec![0, -1, 1]]
    );
}

#[test]
fn complete_laplacian_full_matrix() {
    assert_eq!(complete_laplacian(1), vec![vec![0]]);
    assert_eq!(
        complete_laplacian(3),
        vec![vec![2, -1, -1], vec![-1, 2, -1], vec![-1, -1, 2]]
    );
}

#[test]
fn laplacians_have_zero_row_sums_and_are_symmetric() {
    for n in 3..12 {
        for l in [cycle_laplacian(n), path_laplacian(n), complete_laplacian(n)] {
            for i in 0..n {
                assert_eq!(l[i].iter().sum::<i64>(), 0);
                for j in 0..n {
                    assert_eq!(l[i][j], l[j][i]);
                }
            }
        }
    }
}

#[test]
fn laplacian_traces_count_edges_twice() {
    // C6 has 6 edges, P4 has 3, K4 has 6
    assert_eq!(trace(&cycle_laplacian(6)), 12);
    assert_eq!(trace(&path_laplacian(4)), 6);
    assert_eq!(trace(&complete_laplacian(4)), 12);
    assert_eq!(trace(&cycle_laplacian(2)), 4);
    assert_eq!(trace(&path_laplacian(1)), 0);
}

fn quadratic_form(m: &Vec<Vec<i64>>, x: &[i64]) -> i64 {
    let n = m.len();
    let mut total = 0;
    for i in 0..n {
        for j in 0..n {
            total += x[i] * m[i][j] * x[j];
        }
    }
    total
}

#[test]
fn test_laplacian_quadratic_form_is_edge_energy() {
    let x: [i64; 5] = [3, -1, 4, 1, -5];
    // path edges (i, i + 1)
    let path: i64 = (0..4).map(|i| (x[i + 1] - x[i]) * (x[i + 1] - x[i])).sum();
    assert_eq!(path, 16 + 25 + 9 + 36);
    assert_eq!(quadratic_form(&path_laplacian(5), &x), path);
    // the ring adds the closing edge (4, 0)
    let cycle = path + (x[4] - x[0]) * (x[4] - x[0]);
    assert_eq!(quadratic_form(&cycle_laplacian(5), &x), cycle);
    assert_eq!(cycle, 150);
    // every pair i < j
    let mut complete = 0;
    for i in 0..5 {
        for j in (i + 1)..5 {
            complete += (x[i] - x[j]) * (x[i] - x[j]);
        }
    }
    assert_eq!(quadratic_form(&complete_laplacian(5), &x), complete);
    assert_eq!(complete, 5 * 52 - 2 * 2);
}

#[test]
fn test_laplacian_quadratic_form_nonnegative() {
    let vectors: [[i64; 4]; 4] = [[0, 0, 0, 0], [1, 1, 1, 1], [1, -1, 1, -1], [7, 0, -3, 2]];
    for x in vectors.iter() {
        assert!(quadratic_form(&path_laplacian(4), x) >= 0);
        assert!(quadratic_form(&cycle_laplacian(4), x) >= 0);
        assert!(quadratic_form(&complete_laplacian(4), x) >= 0);
    }
    // the constant vector is in the kernel
    assert_eq!(quadratic_form(&complete_laplacian(4), &[1, 1, 1, 1]), 0);
}
