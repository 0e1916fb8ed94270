use subgroup_calculator::group::{
    conjugate, elements, generate, make_subgroup, make_subset, trivial, Subgroup,
};
use subgroup_calculator::permutation::{equal_permutations, identity, make_permutation, Permutation};

fn perm(mapping: Vec<usize>) -> Permutation {
    make_permutation(mapping).expect("mapping should be a valid permutation")
}

fn members_of(group: &Subgroup) -> Vec<Permutation> {
    let mut out = Vec::new();
    let mut i = 0;
    while i < group.cardinality() {
        out.push(group.member(i).duplicate());
        i += 1;
    }
    out
}

fn same_group(a: &Subgroup, b: &Subgroup) -> bool {
    if a.cardinality() != b.cardinality() {
        return false;
    }
    let mut i = 0;
    while i < a.cardinality() {
        if !b.has_element(a.member(i)) {
            return false;
        }
        i += 1;
    }
    true
}

#[test]
fn make_subset_rejects_empty_and_mixed_degrees() {
    assert!(make_subset(Vec::new()).is_none());
    let mixed = vec![perm(vec![1, 2]), perm(vec![1, 2, 3])];
    assert!(make_subset(mixed).is_none());
}

#[test]
fn make_subset_collapses_duplicates() {
    let s = make_subset(vec![perm(vec![2, 1]), perm(vec![2, 1])]).unwrap();
    assert_eq!(s.cardinality(), 1);
    assert_eq!(s.degree(), 2);
    assert!(s.has_element(&perm(vec![2, 1])));
    assert!(!s.has_element(&perm(vec![1, 2])));
}

#[test]
fn make_subgroup_rejects_a_set_without_identity() {
    let candidate = vec![perm(vec![2, 1, 3])];
    assert!(make_subgroup(candidate).is_none());
}

#[test]
fn make_subgroup_rejects_a_set_not_closed() {
    // identity plus a 3-cycle but not its inverse
    let candidate = vec![identity(3), perm(vec![2, 3, 1])];
    assert!(make_subgroup(candidate).is_none());
}

#[test]
fn make_subgroup_accepts_a_closed_set() {
    let candidate = vec![identity(2), perm(vec![2, 1])];
    let g = make_subgroup(candidate).unwrap();
    assert_eq!(g.cardinality(), 2);
}

#[test]
fn make_subgroup_accepts_trivial_elements() {
    for n in 0..5 {
        let t = trivial(n);
        assert_eq!(t.cardinality(), 1);
        assert!(t.has_element(&identity(n)));
        let again = make_subgroup(members_of(&t)).unwrap();
        assert_eq!(again.cardinality(), 1);
    }
}

#[test]
fn generate_builds_the_symmetric_group_on_three_points() {
    let gens = make_subset(vec![perm(vec![2, 3, 1]), perm(vec![2, 1, 3])]).unwrap();
    let g = generate(&gens);
    assert_eq!(g.cardinality(), 6);
    let s3 = elements(3);
    assert!(same_group(&g, &s3));
}

#[test]
fn generate_of_a_single_cycle_gives_the_cyclic_group() {
    let gens = make_subset(vec![perm(vec![2, 3, 1])]).unwrap();
    let g = generate(&gens);
    assert_eq!(g.cardinality(), 3);
    assert!(g.has_element(&identity(3)));
    assert!(g.has_element(&perm(vec![2, 3, 1])));
    assert!(g.has_element(&perm(vec![3, 1, 2])));
}

#[test]
fn elements_has_factorial_cardinality() {
    assert_eq!(elements(2).cardinality(), 2);
    assert_eq!(elements(3).cardinality(), 6);
    assert_eq!(elements(4).cardinality(), 24);
}

#[test]
fn elements_contains_the_canonical_generators() {
    let s4 = elements(4);
    assert!(s4.has_element(&perm(vec![2, 3, 4, 1])));
    assert!(s4.has_element(&perm(vec![2, 1, 3, 4])));
    assert!(s4.has_element(&identity(4)));
}

#[test]
fn conjugate_preserves_cardinality_and_yields_a_group() {
    let gens = make_subset(vec![perm(vec![2, 3, 1])]).unwrap();
    let g = generate(&gens);
    let by = perm(vec![2, 1, 3]);
    let conj = conjugate(&g, &by);
    assert_eq!(conj.cardinality(), g.cardinality());
    assert!(make_subgroup(members_of(&conj)).is_some());
}

#[test]
fn conjugating_the_whole_symmetric_group_returns_it() {
    let s3 = elements(3);
    let conj = conjugate(&s3, &perm(vec![3, 1, 2]));
    assert!(same_group(&s3, &conj));
}

#[test]
fn generate_is_idempotent() {
    let gens = make_subset(vec![perm(vec![2, 3, 1]), perm(vec![2, 1, 3])]).unwrap();
    let first = generate(&gens);
    let regenerated = generate(&make_subset(members_of(&first)).unwrap());
    assert_eq!(first.cardinality(), regenerated.cardinality());
    assert!(same_group(&first, &regenerated));
}

#[test]
fn trivial_group_holds_only_the_identity() {
    let t = trivial(3);
    assert_eq!(t.degree(), 3);
    assert_eq!(t.cardinality(), 1);
    let m = t.member(0);
    assert!(equal_permutations(m, &identity(3)));
}
