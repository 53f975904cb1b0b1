use wasserstein::{wasserstein_1d, wasserstein_2d, wasserstein_nd, Error, Grid, EMD};

#[test]
fn test_wasserstein_1d_0() {
    let left = vec![2, 1, 0, 0, 3, 0, 4];
    let right = vec![0, 5, 3, 0, 2, 0, 0];
    let dist = wasserstein_1d(left, right).unwrap();
    assert_eq!(dist, 22);
}

#[test]
fn test_wasserstein_1d_1() {
    let left = vec![2, 1, 0, 0, 3, 0, 0];
    let right = vec![0, 2, 1, 0, 3, 0, 0];
    let dist = wasserstein_1d(left, right).unwrap();
    assert_eq!(dist, 3);
}

#[test]
fn test_wasserstein_1d_2() {
    let left = vec![2, 1, 0, 0, 3, 0, 0];
    let right = vec![0, 2, 1, 0, 0, 3, 0];
    let dist = wasserstein_1d(left, right).unwrap();
    assert_eq!(dist, 6);
}

#[test]
fn test_wasserstein_1d_3() {
    let left = vec![2, 1, 0, 0, 3, 0, 0];
    let right = vec![0, 0, 2, 1, 0, 0, 3];
    let dist = wasserstein_1d(left, right).unwrap();
    assert_eq!(dist, 12);
}

#[test]
fn test_wasserstein_2d() {
    let left = vec![
        vec![2, 1, 0, 0, 3, 0, 4],
        vec![2, 1, 0, 0, 3, 0, 4],
        vec![2, 1, 0, 0, 3, 0, 4],
        vec![2, 1, 0, 0, 3, 0, 4],
    ];
    let right = vec![
        vec![0, 5, 3, 0, 2, 0, 0],
        vec![0, 5, 3, 0, 2, 0, 0],
        vec![0, 5, 3, 0, 2, 0, 0],
        vec![0, 5, 3, 0, 2, 0, 0],
    ];
    let dist = wasserstein_2d(left, right).unwrap();
    assert_eq!(dist, 88);

    let left = vec![vec![3, 0, 0], vec![0, 0, 0], vec![0, 0, 0]];
    let right = vec![vec![0, 0, 0], vec![0, 0, 0], vec![0, 0, 3]];
    let dist = wasserstein_2d(left, right).unwrap();
    assert_eq!(dist, 3 * 4);
}

#[test]
fn symmetry_1d() {
    let a = vec![2, 1, 0, 0, 3, 0, 4];
    let b = vec![0, 5, 3, 0, 2, 0, 0];
    let d1 = wasserstein_1d(a.clone(), b.clone()).unwrap();
    let d2 = wasserstein_1d(b, a).unwrap();
    assert_eq!(d1, d2);
    assert_eq!(d1, 22);
}

#[test]
fn symmetry_2d() {
    let a = vec![vec![1, 0, 2], vec![0, 4, 0]];
    let b = vec![vec![0, 3, 0], vec![2, 0, 2]];
    let d1 = wasserstein_2d(a.clone(), b.clone()).unwrap();
    let d2 = wasserstein_2d(b, a).unwrap();
    assert_eq!(d1, d2);
}

#[test]
fn identity_1d() {
    let a = vec![4, 0, 1, 9];
    assert_eq!(wasserstein_1d(a.clone(), a).unwrap(), 0);
}

#[test]
fn identity_2d() {
    let a = vec![vec![4, 0], vec![1, 9]];
    assert_eq!(wasserstein_2d(a.clone(), a).unwrap(), 0);
}

#[test]
fn scale_invariance_1d() {
    let a = vec![2, 1, 0, 0, 3, 0, 4];
    let b = vec![0, 5, 3, 0, 2, 0, 0];
    let a3: Vec<u64> = a.iter().map(|x| x * 3).collect();
    let b3: Vec<u64> = b.iter().map(|x| x * 3).collect();
    let d = wasserstein_1d(a, b).unwrap();
    let d3 = wasserstein_1d(a3, b3).unwrap();
    assert_eq!(d3, 3 * d);
}

#[test]
fn scale_invariance_2d() {
    let a = vec![vec![2, 1, 0], vec![0, 3, 0]];
    let b = vec![vec![0, 5, 0], vec![1, 0, 0]];
    let a7: Vec<Vec<u64>> = a.iter().map(|r| r.iter().map(|x| x * 7).collect()).collect();
    let b7: Vec<Vec<u64>> = b.iter().map(|r| r.iter().map(|x| x * 7).collect()).collect();
    let d = wasserstein_2d(a, b).unwrap();
    let d7 = wasserstein_2d(a7, b7).unwrap();
    assert_eq!(d7, 7 * d);
}

#[test]
fn path_equivalence_degenerate_row() {
    // a 1-by-n grid must agree exactly with the closed-form 1D solver
    let a = vec![2, 1, 0, 0, 3, 0, 4];
    let b = vec![0, 5, 3, 0, 2, 0, 0];
    let d1 = wasserstein_1d(a.clone(), b.clone()).unwrap();
    let dn = wasserstein_2d(vec![a.clone()], vec![b.clone()]).unwrap();
    assert_eq!(dn, d1);
    // and the 1-axis grid takes the fast path with the same result
    let gl = Grid { shape: vec![7], data: a };
    let gr = Grid { shape: vec![7], data: b };
    assert_eq!(wasserstein_nd(&gl, &gr).unwrap(), d1);
}

#[test]
fn three_axis_transport() {
    // two units moved across all three axes of a 2x2x2 grid: cost 2 * 3
    let mut ldata = vec![0u64; 8];
    let mut rdata = vec![0u64; 8];
    ldata[0] = 2;
    rdata[7] = 2;
    let gl = Grid { shape: vec![2, 2, 2], data: ldata };
    let gr = Grid { shape: vec![2, 2, 2], data: rdata };
    assert_eq!(wasserstein_nd(&gl, &gr).unwrap(), 6);
}

#[test]
fn two_by_two_corner_move() {
    let left = vec![vec![5, 0], vec![0, 0]];
    let right = vec![vec![0, 0], vec![0, 5]];
    assert_eq!(wasserstein_2d(left, right).unwrap(), 10);
}

#[test]
fn imbalance_rejected_1d() {
    let a = vec![1, 2, 3];
    let b = vec![1, 2, 4];
    assert_eq!(wasserstein_1d(a, b), Err(Error::ImbalancedMass));
}

#[test]
fn imbalance_rejected_2d() {
    let a = vec![vec![1, 2], vec![3, 0]];
    let b = vec![vec![1, 2], vec![4, 0]];
    assert_eq!(wasserstein_2d(a, b), Err(Error::ImbalancedMass));
}

#[test]
fn shape_mismatch_1d() {
    let a = vec![1, 2, 3];
    let b = vec![1, 2, 3, 0];
    assert_eq!(wasserstein_1d(a, b), Err(Error::ShapeMismatch));
}

#[test]
fn shape_mismatch_nd() {
    let gl = Grid { shape: vec![2, 2], data: vec![1, 0, 0, 1] };
    let gr = Grid { shape: vec![4], data: vec![1, 0, 0, 1] };
    assert_eq!(wasserstein_nd(&gl, &gr), Err(Error::ShapeMismatch));
}

#[test]
fn empty_input_rejected() {
    let gl = Grid { shape: vec![2, 2], data: vec![0, 0, 0, 0] };
    let gr = Grid { shape: vec![2, 2], data: vec![0, 0, 0, 0] };
    assert_eq!(wasserstein_nd(&gl, &gr), Err(Error::EmptyInput));
}

#[test]
fn ragged_matrix_rejected() {
    let a = vec![vec![1, 2], vec![3]];
    let b = vec![vec![1, 2], vec![3, 0]];
    assert_eq!(wasserstein_2d(a, b), Err(Error::InvalidInput));
}

#[test]
fn emd_carries_scale() {
    let emd = EMD::new(100_000_000);
    assert_eq!(emd.0, 100_000_000);
    let other = EMD::new(100_000_000);
    assert_eq!(emd, other);
}

#[test]
fn single_source_split_delivery() {
    // one supply cell serving two demand cells at unit distance each
    let left = vec![vec![4, 0], vec![0, 0]];
    let right = vec![vec![0, 2], vec![2, 0]];
    assert_eq!(wasserstein_2d(left, right).unwrap(), 4);
}
