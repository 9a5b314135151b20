use enigma::math::Permutation;
use enigma::math::PermutationBuilder;

#[test]
fn test_identity_perm() {
    let perm = Permutation::identity(4);
    assert_eq!(perm, Permutation::from_perm(vec![0u8, 1u8, 2u8, 3u8]).unwrap());
}

#[test]
fn math_test_from_perm_valid() {
    let perm = Permutation::from_perm(vec![0u8, 2u8, 1u8, 3u8]).unwrap();
    assert_eq!(perm, PermutationBuilder::new(4).swap(1, 2).build());
}

#[test]
fn test_from_perm_invalid_range_err() {
    assert!(Permutation::from_perm(vec![0u8, 2u8, 4u8, 3u8]).is_err());
}

#[test]
fn test_from_perm_invalid_duplicate() {
    assert!(Permutation::from_perm(vec![0u8, 2u8, 3u8, 2u8]).is_err());
}

#[test]
fn math_test_map() {
    let perm = Permutation::from_perm(vec![0u8, 2u8, 1u8, 3u8]).unwrap();
    assert_eq!(perm.map(0), 0);
    assert_eq!(perm.map(1), 2);
    assert_eq!(perm.map(2), 1);
    assert_eq!(perm.map(3), 3);
}

#[test]
fn test_max_cycle_len() {
    let perm = Permutation::from_perm(vec![0u8, 1u8, 2u8, 3u8]).unwrap();
    assert_eq!(perm.max_cycle_len(), 1);

    let perm = Permutation::from_perm(vec![0u8, 2u8, 1u8, 3u8]).unwrap();
    assert_eq!(perm.max_cycle_len(), 2);

    let perm = Permutation::from_perm(vec![1u8, 2u8, 3u8, 0u8]).unwrap();
    assert_eq!(perm.max_cycle_len(), 4);
}

#[test]
fn test_initial_identity() {
    let perm = PermutationBuilder::new(4).build();
    assert_eq!(perm, Permutation::identity(4));
}

#[test]
fn test_swap() {
    let perm = PermutationBuilder::new(4).swap(1, 2).swap(2, 3).build();
    assert_eq!(perm, Permutation::from_perm(vec![0u8, 2u8, 3u8, 1u8]).unwrap());
}

#[test]
fn test_inverse_round_trip() {
    let perm = Permutation::from_perm(vec![3u8, 0u8, 2u8, 4u8, 1u8]).unwrap();
    let inv = perm.inverse();
    for x in 0..5u8 {
        assert_eq!(inv.map(perm.map(x)), x);
        assert_eq!(perm.map(inv.map(x)), x);
    }
}

#[test]
fn test_max_cycle_len_bounds() {
    let perm = Permutation::from_perm(vec![1u8, 0u8, 3u8, 4u8, 2u8]).unwrap();
    let len = perm.max_cycle_len();
    assert!(1 <= len && len <= 5);
    assert_eq!(len, 3);
}

#[test]
fn test_cycle_decomposition_largest_is_max_cycle_len() {
    let perm = Permutation::from_perm(vec![1u8, 0u8, 3u8, 4u8, 2u8]).unwrap();
    let decomp = perm.cycle_decomposition();
    assert_eq!(*decomp.last().unwrap() as usize, perm.max_cycle_len());

    let rotation = Permutation::from_perm(vec![1u8, 2u8, 3u8, 0u8]).unwrap();
    let decomp = rotation.cycle_decomposition();
    assert_eq!(*decomp.last().unwrap() as usize, rotation.max_cycle_len());
}

#[test]
fn test_cycle_decomposition_is_deterministic() {
    // Equal permutations built along different paths decompose equally.
    let p = Permutation::from_perm(vec![0u8, 2u8, 3u8, 1u8]).unwrap();
    let q = PermutationBuilder::new(4).swap(1, 2).swap(2, 3).build();
    assert_eq!(p, q);
    assert_eq!(p.cycle_decomposition(), q.cycle_decomposition());
}

#[test]
fn test_cycle_decomposition_sums_to_n() {
    let perm = Permutation::from_perm(vec![1u8, 0u8, 3u8, 4u8, 2u8]).unwrap();
    let decomp = perm.cycle_decomposition();
    assert_eq!(decomp, vec![2u8, 3u8]);
    assert_eq!(decomp.iter().map(|x| *x as usize).sum::<usize>(), 5);

    let identity = Permutation::identity(4);
    assert_eq!(identity.cycle_decomposition(), vec![1u8, 1u8, 1u8, 1u8]);

    let rotation = Permutation::from_perm(vec![1u8, 2u8, 3u8, 0u8]).unwrap();
    assert_eq!(rotation.cycle_decomposition(), vec![4u8]);
}
