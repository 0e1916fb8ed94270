use subgroup_calculator::permutation::{
    action, composition, equal_permutations, identity, invert, make_permutation, Permutation,
};

fn perm(mapping: Vec<usize>) -> Permutation {
    make_permutation(mapping).expect("mapping should be a valid permutation")
}

#[test]
fn accepts_bijections() {
    assert!(make_permutation(vec![5, 4, 3, 2, 1]).is_some());
    assert!(make_permutation(vec![1]).is_some());
    assert!(make_permutation(vec![2, 3, 1]).is_some());
    assert!(make_permutation(vec![]).is_some());
}

#[test]
fn rejects_duplicates() {
    assert!(make_permutation(vec![1, 2, 3, 2, 1]).is_none());
    assert!(make_permutation(vec![1, 1]).is_none());
}

#[test]
fn rejects_out_of_range_values() {
    assert!(make_permutation(vec![3, 1, 4]).is_none());
    assert!(make_permutation(vec![0, 1]).is_none());
    assert!(make_permutation(vec![2]).is_none());
}

#[test]
fn identity_maps_every_point_to_itself() {
    let e = identity(4);
    assert_eq!(e.images().as_slice(), &[1, 2, 3, 4]);
    assert_eq!(e.degree(), 4);
    let e0 = identity(0);
    assert_eq!(e0.degree(), 0);
}

#[test]
fn action_reads_the_image() {
    let e = identity(3);
    assert_eq!(action(&e, 2), 2);
    let p = perm(vec![2, 1, 3]);
    assert_eq!(action(&p, 2), 1);
    let q = perm(vec![3, 1, 2]);
    assert_eq!(action(&q, 2), 1);
}

#[test]
fn composition_applies_left_then_right() {
    let p = perm(vec![2, 1, 3]);
    let q = perm(vec![3, 1, 2]);
    let e = identity(3);
    assert_eq!(composition(&p, &q).images().as_slice(), &[1, 3, 2]);
    assert_eq!(composition(&p, &e).images().as_slice(), &[2, 1, 3]);
    assert_eq!(composition(&e, &q).images().as_slice(), &[3, 1, 2]);
}

#[test]
fn invert_reverses_the_mapping() {
    let c = perm(vec![2, 3, 1]);
    assert_eq!(invert(&c).images().as_slice(), &[3, 1, 2]);
    let r = perm(vec![5, 4, 3, 2, 1]);
    assert_eq!(invert(&r).images().as_slice(), &[5, 4, 3, 2, 1]);
}

#[test]
fn inverse_composes_to_identity() {
    let samples = vec![
        vec![2, 3, 1],
        vec![5, 4, 3, 2, 1],
        vec![3, 1, 4, 2],
        vec![1],
    ];
    for mapping in samples {
        let n = mapping.len();
        let p = perm(mapping);
        let q = invert(&p);
        let e = identity(n);
        assert!(equal_permutations(&composition(&p, &q), &e));
        assert!(equal_permutations(&composition(&q, &p), &e));
    }
}

#[test]
fn composition_is_associative() {
    let p = perm(vec![2, 3, 4, 1]);
    let q = perm(vec![2, 1, 4, 3]);
    let r = perm(vec![4, 3, 2, 1]);
    let left = composition(&composition(&p, &q), &r);
    let right = composition(&p, &composition(&q, &r));
    assert!(equal_permutations(&left, &right));
}

#[test]
fn equality_is_by_mapping() {
    let p = perm(vec![2, 1]);
    let q = perm(vec![2, 1]);
    let r = perm(vec![1, 2]);
    assert!(equal_permutations(&p, &q));
    assert!(!equal_permutations(&p, &r));
    assert!(equal_permutations(&p, &p.duplicate()));
    assert!(!equal_permutations(&p, &identity(3)));
}
