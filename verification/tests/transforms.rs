use luffverb::mixer::hadamard;
use luffverb::mixer::hadamard_recursive;
use luffverb::mixer::Householder;

#[test]
fn test_hadamard() {
    let _m1 = hadamard(1);
    let _m2 = hadamard(2);
    let _m4 = hadamard(4);
    let _m16 = hadamard(16);
}

#[test]
fn hadamard_matrix_entries() {
    let m = hadamard(4);
    assert_eq!(m.len(), 4);
    for row in &m {
        assert_eq!(row.len(), 4);
        for &v in row {
            assert!(v == 1 || v == -1);
        }
    }
    // The first row and column of a Hadamard matrix are all ones.
    for i in 0..4 {
        assert_eq!(m[0][i], 1);
        assert_eq!(m[i][0], 1);
    }
    assert_eq!(m[1], vec![1, -1, 1, -1]);
    assert_eq!(m[2], vec![1, 1, -1, -1]);
    assert_eq!(m[3], vec![1, -1, -1, 1]);
}

#[test]
fn hadamard_twice_scales_by_length() {
    for n in [1usize, 2, 4, 16] {
        let mut frame: Vec<i64> = (0..n).map(|i| (i as i64) * 3 - 7).collect();
        let original = frame.clone();
        hadamard_recursive(&mut frame);
        hadamard_recursive(&mut frame);
        for i in 0..n {
            assert_eq!(frame[i], original[i] * n as i64);
        }
    }
}

#[test]
fn hadamard_single_pass_known_values() {
    let mut frame: Vec<i64> = vec![1, 2, 3, 4];
    hadamard_recursive(&mut frame);
    // Halves (1,2) -> (3,-1) and (3,4) -> (7,-1); combined: (10,-2,-4,0).
    assert_eq!(frame, vec![10, -2, -4, 0]);
}

#[test]
fn householder_preserves_energy() {
    for frame in [
        vec![3i64, 1, -2, 2],
        vec![6i64, 2],
        vec![5i64],
        vec![1i64, 3, 5, 7, 2, 4, 6, 4],
    ] {
        let sum: i64 = frame.iter().sum();
        // The shift is exact when the length divides twice the sum.
        assert_eq!((2 * sum) % frame.len() as i64, 0);
        let energy_before: i64 = frame.iter().map(|&v| v * v).sum();
        let mut mixed = frame.clone();
        Householder::in_place(&mut mixed);
        let energy_after: i64 = mixed.iter().map(|&v| v * v).sum();
        assert_eq!(energy_before, energy_after);
    }
}

#[test]
fn householder_self_inverse() {
    let frame: Vec<i64> = vec![3, 1, -2, 2];
    let mut mixed = frame.clone();
    Householder::in_place(&mut mixed);
    Householder::in_place(&mut mixed);
    assert_eq!(mixed, frame);
}

#[test]
fn householder_known_values() {
    // Sum 4 over 4 channels: shift is -2, so every sample drops by 2.
    let mut frame: Vec<i64> = vec![3, 1, -2, 2];
    Householder::in_place(&mut frame);
    assert_eq!(frame, vec![1, -1, -4, 0]);
}
