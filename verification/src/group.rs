use vstd::prelude::*;

use vstd::arithmetic::power::pow;

use crate::counting::{entries_in_range, lemma_distinct_seqs_bound};
use crate::permutation::{
    Permutation, equal_permutations, perm_valid, spec_compose, spec_invert, spec_identity,
    composition, invert, identity, make_permutation, lemma_identity_valid, lemma_invert_identity,
    lemma_compose_identity, lemma_compose_valid, lemma_invert_valid,
    lemma_composition_associative, lemma_inverse_composition, lemma_invert_compose,
    lemma_invert_involution, lemma_left_inverse_unique,
};

verus! {

/// The image sequences of a collection of permutations; the mathematical
/// content of a `Subset` or `Subgroup`.
pub open spec fn views_of(s: Seq<Permutation>) -> Seq<Seq<usize>> {
    s.map_values(|p: Permutation| p@)
}

/// Every mapping in the collection acts on exactly `n` points.
pub open spec fn all_of_degree(s: Seq<Seq<usize>>, n: nat) -> bool {
    forall|i: int| 0 <= i < s.len() ==> (#[trigger] s[i]).len() == n
}

/// Every mapping in the collection is a well-formed permutation.
pub open spec fn all_wellformed(s: Seq<Seq<usize>>) -> bool {
    forall|i: int| 0 <= i < s.len() ==> perm_valid(#[trigger] s[i])
}

/// Closure under the single group operation `g, h -> g * h^-1`.  For a
/// finite nonempty set of permutations this is equivalent to being a
/// subgroup: closed under composition, inversion, and containing the
/// identity.
pub open spec fn closed_under_division(s: Set<Seq<usize>>) -> bool {
    forall|g: Seq<usize>, h: Seq<usize>|
        s.contains(g) && s.contains(h) ==> s.contains(#[trigger] spec_compose(g, spec_invert(h)))
}

/// A set of mappings that forms a permutation group of degree `n`:
/// well-formed permutations of degree `n`, holding the identity and
/// closed under `g, h -> g * h^-1`.
pub open spec fn group_set(t: Set<Seq<usize>>, n: nat) -> bool {
    &&& forall|p: Seq<usize>| t.contains(p) ==> perm_valid(p) && (#[trigger] p.len()) == n
    &&& t.contains(spec_identity(n))
    &&& closed_under_division(t)
}

/// A group of permutations is closed under inversion and composition,
/// not only under `g, h -> g * h^-1`.
pub proof fn lemma_group_set_closed(t: Set<Seq<usize>>, n: nat)
    requires
        group_set(t, n),
    ensures
        forall|h: Seq<usize>| t.contains(h) ==> t.contains(#[trigger] spec_invert(h)),
        forall|a: Seq<usize>, b: Seq<usize>|
            t.contains(a) && t.contains(b) ==> t.contains(#[trigger] spec_compose(a, b)),
{
    assert(spec_identity(n).len() == n);
    assert forall|h: Seq<usize>| t.contains(h) implies t.contains(
        #[trigger] spec_invert(h),
    ) by {
        lemma_invert_valid(h);
        lemma_compose_identity(spec_invert(h));
        assert(t.contains(spec_compose(spec_identity(n), spec_invert(h))));
    }
    assert forall|a: Seq<usize>, b: Seq<usize>| t.contains(a) && t.contains(b) implies t.contains(
        #[trigger] spec_compose(a, b),
    ) by {
        lemma_invert_valid(b);
        lemma_invert_involution(b);
        assert(t.contains(spec_invert(b)));
        assert(t.contains(spec_compose(a, spec_invert(spec_invert(b)))));
    }
}

/// A finite nonempty set of permutations of one degree that contains the
/// identity and is closed under composition is already a group: the
/// inverse of each element appears among its powers, because composing
/// with a fixed element permutes the finite set.
pub proof fn lemma_composition_closed_implies_group(s: Set<Seq<usize>>, n: nat)
    requires
        s.finite(),
        forall|p: Seq<usize>| s.contains(p) ==> perm_valid(p) && (#[trigger] p.len()) == n,
        s.contains(spec_identity(n)),
        forall|a: Seq<usize>, b: Seq<usize>|
            s.contains(a) && s.contains(b) ==> s.contains(#[trigger] spec_compose(a, b)),
    ensures
        group_set(s, n),
{
    assert forall|g: Seq<usize>, h: Seq<usize>| s.contains(g) && s.contains(h) implies s.contains(
        #[trigger] spec_compose(g, spec_invert(h)),
    ) by {
        lemma_invert_valid(h);
        lemma_inverse_composition(h);
        // composing on the right with h maps the set injectively into itself,
        // so it maps it onto itself, and some element must land on the identity
        let f = |x: Seq<usize>| spec_compose(x, h);
        assert(vstd::relations::injective_on(f, s)) by {
            assert forall|x1: Seq<usize>, x2: Seq<usize>|
                s.contains(x1) && s.contains(x2) && #[trigger] f(x1) == #[trigger] f(x2) implies x1
                == x2 by {
                lemma_composition_associative(x1, h, spec_invert(h));
                lemma_composition_associative(x2, h, spec_invert(h));
                lemma_compose_identity(x1);
                lemma_compose_identity(x2);
                assert(spec_compose(spec_compose(x1, h), spec_invert(h)) == x1);
                assert(spec_compose(spec_compose(x2, h), spec_invert(h)) == x2);
            }
        }
        let img = s.map(f);
        vstd::set_lib::lemma_map_size(s, img, f);
        assert forall|e: Seq<usize>| img.contains(e) implies s.contains(e) by {
            let x = choose|x: Seq<usize>| s.contains(x) && e == f(x);
        }
        assert(img.subset_of(s));
        vstd::set_lib::lemma_subset_equality(img, s);
        assert(img.contains(spec_identity(n)));
        let x = choose|x: Seq<usize>| s.contains(x) && spec_identity(n) == f(x);
        assert(spec_compose(x, h) == spec_identity(n));
        lemma_left_inverse_unique(h, x);
        assert(x == spec_invert(h));
        assert(s.contains(spec_invert(h)));
        lemma_group_set_closed_helper(s, n, g, spec_invert(h));
    }
}

/// Composition closure applied to one pair, packaged so the quantified
/// proof above can invoke it.
proof fn lemma_group_set_closed_helper(s: Set<Seq<usize>>, n: nat, a: Seq<usize>, b: Seq<usize>)
    requires
        forall|x: Seq<usize>, y: Seq<usize>|
            s.contains(x) && s.contains(y) ==> s.contains(#[trigger] spec_compose(x, y)),
        s.contains(a),
        s.contains(b),
    ensures
        s.contains(spec_compose(a, b)),
{
}

/// A validated collection of distinct permutations sharing one degree.
pub struct Subset {
    size: usize,
    elements: Vec<Permutation>,
}

impl View for Subset {
    type V = Seq<Seq<usize>>;

    closed spec fn view(&self) -> Seq<Seq<usize>> {
        views_of(self.elements@)
    }
}

impl Subset {
    /// The degree shared by all elements.
    pub closed spec fn spec_size(&self) -> nat {
        self.size as nat
    }

    /// The structural invariant every constructed `Subset` satisfies:
    /// nonempty, no repeated element, and all elements are well-formed
    /// permutations of the common degree.
    pub open spec fn wf(&self) -> bool {
        &&& self@.len() > 0
        &&& self@.no_duplicates()
        &&& all_wellformed(self@)
        &&& all_of_degree(self@, self.spec_size())
    }

    /// The degree of the permutations in the set.
    pub fn degree(&self) -> (n: usize)
        ensures
            n as nat == self.spec_size(),
    {
        self.size
    }

    /// How many distinct permutations the set holds.
    pub fn cardinality(&self) -> (c: usize)
        ensures
            c == self@.len(),
    {
        self.elements.len()
    }

    /// The element at a position; the order is an artifact of
    /// construction and carries no meaning.
    pub fn member(&self, i: usize) -> (p: &Permutation)
        requires
            i < self@.len(),
        ensures
            p@ == self@[i as int],
    {
        &self.elements[i]
    }

    /// Whether some element of the set has the same mapping as `p`.
    pub fn has_element(&self, p: &Permutation) -> (r: bool)
        ensures
            r <==> self@.contains(p@),
    {
        contains_perm(&self.elements, p)
    }
}

/// A `Subset` that has been verified closed under `g, h -> g * h^-1`,
/// and is therefore a genuine group: this type can only be produced by
/// the validating constructors, never by direct assembly.
pub struct Subgroup(Subset);

impl View for Subgroup {
    type V = Seq<Seq<usize>>;

    closed spec fn view(&self) -> Seq<Seq<usize>> {
        self.0@
    }
}

impl Subgroup {
    /// The degree shared by all elements.
    pub closed spec fn spec_size(&self) -> nat {
        self.0.spec_size()
    }

    /// The invariant of every constructed `Subgroup`: a well-formed
    /// subset whose element set is closed under `g, h -> g * h^-1`.
    pub open spec fn wf(&self) -> bool {
        &&& self@.len() > 0
        &&& self@.no_duplicates()
        &&& all_wellformed(self@)
        &&& all_of_degree(self@, self.spec_size())
        &&& closed_under_division(self@.to_set())
    }

    /// The underlying validated subset.
    pub fn as_subset(&self) -> (s: &Subset)
        ensures
            s@ == self@,
            s.spec_size() == self.spec_size(),
            self.wf() ==> s.wf(),
    {
        &self.0
    }

    /// The degree of the permutations in the group.
    pub fn degree(&self) -> (n: usize)
        ensures
            n as nat == self.spec_size(),
    {
        self.0.degree()
    }

    /// How many distinct permutations the group holds.
    pub fn cardinality(&self) -> (c: usize)
        ensures
            c == self@.len(),
    {
        self.0.cardinality()
    }

    /// The element at a position; the order is an artifact of
    /// construction and carries no meaning.
    pub fn member(&self, i: usize) -> (p: &Permutation)
        requires
            i < self@.len(),
        ensures
            p@ == self@[i as int],
    {
        self.0.member(i)
    }

    /// Whether some element of the group has the same mapping as `p`.
    pub fn has_element(&self, p: &Permutation) -> (r: bool)
        ensures
            r <==> self@.contains(p@),
    {
        self.0.has_element(p)
    }
}

/// The image of a subgroup under conjugation by a fixed permutation;
/// structurally a subset, kept as its own type because such an image is
/// semantically distinct from an arbitrary subset.
pub struct ConjugacyClass(Subset);

impl View for ConjugacyClass {
    type V = Seq<Seq<usize>>;

    closed spec fn view(&self) -> Seq<Seq<usize>> {
        self.0@
    }
}

/// Whether the vector holds a permutation with the same mapping as `p`.
fn contains_perm(v: &Vec<Permutation>, p: &Permutation) -> (r: bool)
    ensures
        r <==> views_of(v@).contains(p@),
{
    let n = v.len();
    let mut i: usize = 0;
    while i < n
        invariant
            i <= n,
            n == v@.len(),
            forall|k: int| 0 <= k < i ==> views_of(v@)[k] != p@,
        decreases n - i,
    {
        if equal_permutations(&v[i], p) {
            assert(views_of(v@)[i as int] == p@);
            return true;
        }
        i = i + 1;
    }
    false
}

/// The common degree of the permutations, when there is one: `None` for
/// an empty collection or one of mixed degrees.
fn subset_size(elements: &Vec<Permutation>) -> (r: Option<usize>)
    ensures
        r matches Some(n) ==> elements@.len() > 0 && all_of_degree(
            views_of(elements@),
            n as nat,
        ),
        r is None ==> elements@.len() == 0 || !all_of_degree(
            views_of(elements@),
            views_of(elements@)[0].len(),
        ),
{
    let mut size: Option<usize> = None;
    let mut i: usize = 0;
    let n = elements.len();
    while i < n
        invariant
            i <= n,
            n == elements@.len(),
            i == 0 ==> size is None,
            i > 0 ==> (size matches Some(m) && m == views_of(elements@)[0].len()),
            size matches Some(m) ==> forall|k: int|
                0 <= k < i ==> (#[trigger] views_of(elements@)[k]).len() == m,
        decreases n - i,
    {
        let d = elements[i].degree();
        match size {
            None => {
                size = Some(d);
            },
            Some(expected) => {
                if d != expected {
                    assert(views_of(elements@)[i as int].len() != views_of(elements@)[0].len());
                    return None;
                }
            },
        }
        i = i + 1;
    }
    size
}

/// Validates a caller-supplied collection of permutations as a `Subset`:
/// it must be nonempty and all of one degree.  Repeated mappings
/// collapse to one element, so the result represents a set.
pub fn make_subset(elements: Vec<Permutation>) -> (r: Option<Subset>)
    requires
        all_wellformed(views_of(elements@)),
    ensures
        r matches Some(s) ==> {
            &&& s.wf()
            &&& s@.to_set() == views_of(elements@).to_set()
            &&& elements@.len() > 0
            &&& all_of_degree(views_of(elements@), s.spec_size())
        },
        r is None ==> elements@.len() == 0 || !all_of_degree(
            views_of(elements@),
            views_of(elements@)[0].len(),
        ),
{
    let size = match subset_size(&elements) {
        None => {
            return None;
        },
        Some(s) => s,
    };
    let mut distinct: Vec<Permutation> = Vec::new();
    let n = elements.len();
    let mut i: usize = 0;
    while i < n
        invariant
            i <= n,
            n == elements@.len(),
            all_wellformed(views_of(elements@)),
            all_of_degree(views_of(elements@), size as nat),
            views_of(distinct@).no_duplicates(),
            all_wellformed(views_of(distinct@)),
            all_of_degree(views_of(distinct@), size as nat),
            forall|k: int|
                0 <= k < distinct@.len() ==> views_of(elements@).contains(
                    #[trigger] views_of(distinct@)[k],
                ),
            forall|k: int|
                0 <= k < i ==> views_of(distinct@).contains(#[trigger] views_of(elements@)[k]),
            i > 0 ==> distinct@.len() > 0,
        decreases n - i,
    {
        let p = &elements[i];
        if !contains_perm(&distinct, p) {
            let ghost old_distinct = distinct@;
            distinct.push(elements[i].duplicate());
            proof {
                assert(views_of(distinct@) =~= views_of(old_distinct).push(elements@[i as int]@));
                assert(views_of(elements@)[i as int] == elements@[i as int]@);
                assert forall|k: int| 0 <= k < views_of(distinct@).len() implies perm_valid(
                    #[trigger] views_of(distinct@)[k],
                ) && views_of(distinct@)[k].len() == size as nat by {
                    if k < old_distinct.len() {
                        assert(views_of(distinct@)[k] == views_of(old_distinct)[k]);
                    } else {
                        assert(views_of(distinct@)[k] == elements@[i as int]@);
                    }
                }
                assert forall|k: int|
                    0 <= k < i + 1 implies views_of(distinct@).contains(
                    #[trigger] views_of(elements@)[k],
                ) by {
                    if k < i {
                        let t = choose|t: int|
                            0 <= t < old_distinct.len() && views_of(old_distinct)[t]
                                == views_of(elements@)[k];
                        assert(views_of(distinct@)[t] == views_of(elements@)[k]);
                    } else {
                        assert(views_of(distinct@)[views_of(distinct@).len() - 1]
                            == views_of(elements@)[k]);
                    }
                }
            }
        }
        i = i + 1;
    }
    proof {
        assert forall|x: Seq<usize>| views_of(distinct@).contains(x) implies views_of(
            elements@,
        ).contains(x) by {}
        assert forall|x: Seq<usize>| views_of(elements@).contains(x) implies views_of(
            distinct@,
        ).contains(x) by {}
        assert(views_of(distinct@).to_set() =~= views_of(elements@).to_set());
    }
    Some(Subset { size, elements: distinct })
}

/// A collection of distinct well-formed permutations of degree `n` can
/// hold at most `n^n` elements.
proof fn lemma_result_bound(rv: Seq<Seq<usize>>, n: nat)
    requires
        rv.no_duplicates(),
        all_wellformed(rv),
        all_of_degree(rv, n),
    ensures
        rv.len() <= pow(n as int, n),
{
    broadcast use vstd::seq_lib::seq_to_set_is_finite;

    rv.unique_seq_to_set();
    let s = rv.to_set();
    assert forall|p: Seq<usize>| s.contains(p) implies p.len() == n && entries_in_range(p, n) by {
        let k = choose|k: int| 0 <= k < rv.len() && rv[k] == p;
        assert(perm_valid(rv[k]) && rv[k].len() == n);
    }
    lemma_distinct_seqs_bound(s, n);
}

/// Checks that the subset is closed under `g, h -> g * h^-1`; on success
/// the same elements are wrapped as a `Subgroup`.  This check is the
/// sole gate that upgrades an arbitrary `Subset` to a `Subgroup`.
fn check_closed(subset: Subset) -> (r: Option<Subgroup>)
    requires
        subset.wf(),
    ensures
        r matches Some(g) ==> g@ == subset@ && g.spec_size() == subset.spec_size() && g.wf(),
        r is Some <==> closed_under_division(subset@.to_set()),
{
    let n = subset.elements.len();
    let mut g: usize = 0;
    while g < n
        invariant
            g <= n,
            n == subset@.len(),
            subset.wf(),
            forall|a: int, b: int|
                0 <= a < g && 0 <= b < n ==> subset@.contains(
                    #[trigger] spec_compose(subset@[a], spec_invert(subset@[b])),
                ),
        decreases n - g,
    {
        let mut h: usize = 0;
        while h < n
            invariant
                g < n,
                h <= n,
                n == subset@.len(),
                subset.wf(),
                forall|a: int, b: int|
                    0 <= a < g && 0 <= b < n ==> subset@.contains(
                        #[trigger] spec_compose(subset@[a], spec_invert(subset@[b])),
                    ),
                forall|b: int|
                    0 <= b < h ==> subset@.contains(
                        #[trigger] spec_compose(subset@[g as int], spec_invert(subset@[b])),
                    ),
            decreases n - h,
        {
            proof {
                assert(subset@[g as int] == subset.elements@[g as int]@);
                assert(subset@[h as int] == subset.elements@[h as int]@);
            }
            let hinv = invert(&subset.elements[h]);
            let tempelem = composition(&subset.elements[g], &hinv);
            if !subset.has_element(&tempelem) {
                proof {
                    let s = subset@.to_set();
                    assert(subset@.contains(subset@[g as int]));
                    assert(subset@.contains(subset@[h as int]));
                    assert(s.contains(subset@[g as int]));
                    assert(s.contains(subset@[h as int]));
                    assert(!s.contains(
                        spec_compose(subset@[g as int], spec_invert(subset@[h as int])),
                    ));
                }
                return None;
            }
            h = h + 1;
        }
        g = g + 1;
    }
    proof {
        let s = subset@.to_set();
        assert forall|x: Seq<usize>, y: Seq<usize>| s.contains(x) && s.contains(y) implies
            s.contains(#[trigger] spec_compose(x, spec_invert(y))) by {
            let a = choose|a: int| 0 <= a < subset@.len() && subset@[a] == x;
            let b = choose|b: int| 0 <= b < subset@.len() && subset@[b] == y;
            assert(subset@.contains(spec_compose(subset@[a], spec_invert(subset@[b]))));
        }
    }
    Some(Subgroup(subset))
}

/// Validates an arbitrary candidate collection as a group: the elements
/// must be nonempty, all of one degree, and closed under
/// `g, h -> g * h^-1`.  This is the expected way a caller asks "is this
/// set a group?": a failed check is a normal absent result.
pub fn make_subgroup(elements: Vec<Permutation>) -> (r: Option<Subgroup>)
    requires
        all_wellformed(views_of(elements@)),
    ensures
        r matches Some(g) ==> {
            &&& g.wf()
            &&& g@.to_set() == views_of(elements@).to_set()
            &&& all_of_degree(views_of(elements@), g.spec_size())
        },
        r is Some <==> (elements@.len() > 0 && all_of_degree(
            views_of(elements@),
            views_of(elements@)[0].len(),
        ) && closed_under_division(views_of(elements@).to_set())),
{
    let subset = match make_subset(elements) {
        None => {
            return None;
        },
        Some(s) => s,
    };
    check_closed(subset)
}

/// The conjugate of the element `e` by `g`: apply `g`, then `e`, then
/// the inverse of `g`.
pub open spec fn spec_conjugate(g: Seq<usize>, e: Seq<usize>) -> Seq<usize> {
    spec_compose(g, spec_compose(e, spec_invert(g)))
}

pub proof fn lemma_conjugate_valid(g: Seq<usize>, e: Seq<usize>)
    requires
        perm_valid(g),
        perm_valid(e),
        g.len() == e.len(),
    ensures
        perm_valid(spec_conjugate(g, e)),
        spec_conjugate(g, e).len() == g.len(),
{
    lemma_invert_valid(g);
    lemma_compose_valid(e, spec_invert(g));
    lemma_compose_valid(g, spec_compose(e, spec_invert(g)));
}

/// Conjugation respects the operation `a, b -> a * b^-1`: the conjugate
/// of a quotient is the quotient of the conjugates.
pub proof fn lemma_conjugate_division(g: Seq<usize>, a: Seq<usize>, b: Seq<usize>)
    requires
        perm_valid(g),
        perm_valid(a),
        perm_valid(b),
        g.len() == a.len(),
        g.len() == b.len(),
    ensures
        spec_compose(spec_conjugate(g, a), spec_invert(spec_conjugate(g, b)))
            == spec_conjugate(g, spec_compose(a, spec_invert(b))),
{
    let n = g.len();
    let gi = spec_invert(g);
    let bi = spec_invert(b);
    lemma_invert_valid(g);
    lemma_invert_valid(b);
    lemma_compose_valid(a, gi);
    lemma_compose_valid(b, gi);
    lemma_compose_valid(g, bi);
    lemma_compose_valid(a, bi);
    // the inverse of the conjugate of b is "g then b-inverse then g-inverse"
    lemma_invert_compose(g, spec_compose(b, gi));
    lemma_invert_compose(b, gi);
    lemma_invert_involution(g);
    assert(spec_invert(spec_compose(b, gi)) == spec_compose(g, bi));
    assert(spec_invert(spec_conjugate(g, b)) == spec_compose(spec_compose(g, bi), gi));
    let y = spec_compose(spec_compose(g, bi), gi);
    lemma_compose_valid(spec_compose(g, bi), gi);
    // collapse "g-inverse then g" in the middle of the product
    lemma_composition_associative(g, bi, gi);
    assert(y == spec_compose(g, spec_compose(bi, gi)));
    lemma_compose_valid(bi, gi);
    lemma_composition_associative(gi, g, spec_compose(bi, gi));
    lemma_inverse_composition(g);
    lemma_compose_identity(spec_compose(bi, gi));
    assert(spec_compose(gi, y) == spec_compose(spec_compose(gi, g), spec_compose(bi, gi)));
    assert(spec_compose(gi, y) == spec_compose(bi, gi));
    // rebuild the left-hand side around that collapse
    lemma_composition_associative(a, gi, y);
    assert(spec_compose(spec_compose(a, gi), y) == spec_compose(a, spec_compose(bi, gi)));
    lemma_composition_associative(a, bi, gi);
    assert(spec_compose(spec_compose(a, gi), y) == spec_compose(spec_compose(a, bi), gi));
    lemma_composition_associative(g, spec_compose(a, gi), y);
    assert(spec_compose(spec_conjugate(g, a), spec_invert(spec_conjugate(g, b)))
        == spec_compose(g, spec_compose(spec_compose(a, bi), gi)));
}

/// Conjugation by a fixed permutation is injective.
pub proof fn lemma_conjugate_injective(g: Seq<usize>, a: Seq<usize>, b: Seq<usize>)
    requires
        perm_valid(g),
        perm_valid(a),
        perm_valid(b),
        g.len() == a.len(),
        g.len() == b.len(),
        spec_conjugate(g, a) == spec_conjugate(g, b),
    ensures
        a == b,
{
    let n = g.len();
    let gi = spec_invert(g);
    lemma_invert_valid(g);
    lemma_compose_valid(a, gi);
    lemma_compose_valid(b, gi);
    lemma_inverse_composition(g);
    // cancel the leading g
    lemma_composition_associative(gi, g, spec_compose(a, gi));
    lemma_composition_associative(gi, g, spec_compose(b, gi));
    lemma_compose_identity(spec_compose(a, gi));
    lemma_compose_identity(spec_compose(b, gi));
    assert(spec_compose(gi, spec_conjugate(g, a)) == spec_compose(a, gi));
    assert(spec_compose(gi, spec_conjugate(g, b)) == spec_compose(b, gi));
    assert(spec_compose(a, gi) == spec_compose(b, gi));
    // cancel the trailing g-inverse
    lemma_composition_associative(a, gi, g);
    lemma_composition_associative(b, gi, g);
    lemma_compose_identity(a);
    lemma_compose_identity(b);
    assert(spec_compose(spec_compose(a, gi), g) == a);
    assert(spec_compose(spec_compose(b, gi), g) == b);
}

/// Conjugates every element of a subgroup by `g` and collects the
/// results: the image is again a subgroup, of the same cardinality.
pub fn conjugate(subgroup: &Subgroup, g: &Permutation) -> (r: Subgroup)
    requires
        subgroup.wf(),
        perm_valid(g@),
        g@.len() == subgroup.spec_size(),
    ensures
        r.wf(),
        r.spec_size() == subgroup.spec_size(),
        r@.to_set() == subgroup@.to_set().map(|e: Seq<usize>| spec_conjugate(g@, e)),
        r@.len() == subgroup@.len(),
{
    let ghost n = subgroup.spec_size();
    let ginv = invert(g);
    let mut newelems: Vec<Permutation> = Vec::new();
    let count = subgroup.cardinality();
    let mut i: usize = 0;
    while i < count
        invariant
            i <= count,
            count == subgroup@.len(),
            subgroup.wf(),
            perm_valid(g@),
            g@.len() == subgroup.spec_size(),
            ginv@ == spec_invert(g@),
            perm_valid(ginv@),
            ginv@.len() == g@.len(),
            newelems@.len() == i,
            forall|k: int|
                0 <= k < i ==> #[trigger] views_of(newelems@)[k] == spec_conjugate(
                    g@,
                    subgroup@[k],
                ),
        decreases count - i,
    {
        let e = subgroup.member(i);
        let inner = composition(e, &ginv);
        let conj = composition(g, &inner);
        let ghost old_views = views_of(newelems@);
        newelems.push(conj);
        proof {
            assert(views_of(newelems@) =~= old_views.push(spec_conjugate(g@, subgroup@[i as int])));
        }
        i = i + 1;
    }
    proof {
        let vs = views_of(newelems@);
        let sub = subgroup@;
        let f = |e: Seq<usize>| spec_conjugate(g@, e);
        // all conjugates are well-formed permutations of the same degree
        assert forall|k: int| 0 <= k < vs.len() implies perm_valid(#[trigger] vs[k]) && vs[k].len()
            == n by {
            lemma_conjugate_valid(g@, sub[k]);
        }
        // distinct elements stay distinct under conjugation
        assert forall|k: int, l: int|
            #![trigger vs[k], vs[l]]
            0 <= k < vs.len() && 0 <= l < vs.len() && vs[k] == vs[l] implies k == l by {
            lemma_conjugate_injective(g@, sub[k], sub[l]);
        }
        assert(vs.no_duplicates());
        // the image set is closed under a, b -> a * b^-1
        assert forall|x: Seq<usize>, y: Seq<usize>|
            vs.to_set().contains(x) && vs.to_set().contains(y) implies vs.to_set().contains(
            #[trigger] spec_compose(x, spec_invert(y)),
        ) by {
            let k = choose|k: int| 0 <= k < vs.len() && vs[k] == x;
            let l = choose|l: int| 0 <= l < vs.len() && vs[l] == y;
            let a = sub[k];
            let b = sub[l];
            lemma_conjugate_division(g@, a, b);
            assert(sub.contains(a));
            assert(sub.contains(b));
            assert(sub.to_set().contains(a));
            assert(sub.to_set().contains(b));
            assert(sub.to_set().contains(spec_compose(a, spec_invert(b))));
            let d = spec_compose(a, spec_invert(b));
            let t = choose|t: int| 0 <= t < sub.len() && sub[t] == d;
            assert(vs[t] == spec_conjugate(g@, d));
            assert(vs.contains(spec_conjugate(g@, d)));
        }
        // the image set is exactly the map of the subgroup's set
        assert forall|x: Seq<usize>| vs.to_set().contains(x) implies sub.to_set().map(f).contains(
            x,
        ) by {
            let k = choose|k: int| 0 <= k < vs.len() && vs[k] == x;
            assert(sub.to_set().contains(sub[k]));
            assert(f(sub[k]) == x);
        }
        assert forall|x: Seq<usize>| sub.to_set().map(f).contains(x) implies vs.to_set().contains(
            x,
        ) by {
            let e = choose|e: Seq<usize>| sub.to_set().contains(e) && x == f(e);
            let t = choose|t: int| 0 <= t < sub.len() && sub[t] == e;
            assert(vs[t] == x);
            assert(vs.contains(x));
        }
        assert(vs.to_set() =~= sub.to_set().map(f));
        // equal cardinalities: conjugation is injective on the set
        assert(vstd::relations::injective_on(f, sub.to_set())) by {
            assert forall|x1: Seq<usize>, x2: Seq<usize>|
                sub.to_set().contains(x1) && sub.to_set().contains(x2) && #[trigger] f(x1)
                    == #[trigger] f(x2) implies x1 == x2 by {
                let k = choose|k: int| 0 <= k < sub.len() && sub[k] == x1;
                let l = choose|l: int| 0 <= l < sub.len() && sub[l] == x2;
                lemma_conjugate_injective(g@, x1, x2);
            }
        }
        vstd::set_lib::lemma_map_size(sub.to_set(), sub.to_set().map(f), f);
        sub.unique_seq_to_set();
        vs.unique_seq_to_set();
        assert(vs.len() == sub.len());
    }
    match make_subgroup(newelems) {
        Some(result) => {
            proof {
                result.0@.unique_seq_to_set();
            }
            result
        },
        None => {
            proof {
                assert(false);
            }
            vstd::pervasive::unreached()
        },
    }
}

/// Appending an element keeps the old elements, adds the new one, and
/// preserves distinctness when the new element is fresh.
proof fn lemma_push_keeps(s: Seq<Seq<usize>>, x: Seq<usize>)
    ensures
        forall|y: Seq<usize>| s.contains(y) ==> #[trigger] s.push(x).contains(y),
        s.push(x).contains(x),
        !s.contains(x) && s.no_duplicates() ==> s.push(x).no_duplicates(),
{
    assert forall|y: Seq<usize>| s.contains(y) implies #[trigger] s.push(x).contains(y) by {
        let k = choose|k: int| 0 <= k < s.len() && s[k] == y;
        assert(s.push(x)[k] == y);
    }
    assert(s.push(x)[s.len() as int] == x);
    if !s.contains(x) && s.no_duplicates() {
        assert forall|i: int, j: int|
            0 <= i < s.push(x).len() && 0 <= j < s.push(x).len() && i != j implies s.push(x)[i]
            != s.push(x)[j] by {
            if i < s.len() && j < s.len() {
                assert(s.push(x)[i] == s[i] && s.push(x)[j] == s[j]);
            } else if j == s.len() {
                assert(s.contains(s[i]));
            } else {
                assert(s.contains(s[j]));
            }
        }
    }
}

/// The ordered pair `(x, y)` still waits in the work queue at or after
/// position `head`.
pub open spec fn pair_pending(q: Seq<(usize, usize)>, head: int, x: int, y: int) -> bool {
    exists|t: int| 0 <= t && head <= t < q.len() && (#[trigger] q[t]).0 == x && q[t].1 == y
}

/// A pending pair stays pending when the queue grows at the back.
proof fn lemma_pending_extend(
    q: Seq<(usize, usize)>,
    q2: Seq<(usize, usize)>,
    head: int,
    x: int,
    y: int,
)
    requires
        pair_pending(q, head, x, y),
        q2.len() >= q.len(),
        forall|t: int| 0 <= t < q.len() ==> q2[t] == q[t],
    ensures
        pair_pending(q2, head, x, y),
{
    let t = choose|t: int|
        0 <= t && head <= t < q.len() && (#[trigger] q[t]).0 == x && q[t].1 == y;
    assert(0 <= t && head <= t < q2.len() && q2[t].0 == x && q2[t].1 == y);
}

/// A pending pair other than the one at `head` is still pending after
/// `head` advances past it.
proof fn lemma_pending_advance(q: Seq<(usize, usize)>, head: int, x: int, y: int)
    requires
        pair_pending(q, head, x, y),
        0 <= head < q.len(),
        !(q[head].0 == x && q[head].1 == y),
    ensures
        pair_pending(q, head + 1, x, y),
{
    let t = choose|t: int|
        0 <= t && head <= t < q.len() && (#[trigger] q[t]).0 == x && q[t].1 == y;
    assert(t != head);
    assert(0 <= t && head + 1 <= t < q.len() && q[t].0 == x && q[t].1 == y);
}

/// The singleton holding only the identity is a group of any degree, so
/// the element set of `trivial` is always accepted by `make_subgroup`.
pub proof fn lemma_singleton_identity_is_group(n: nat)
    requires
        n <= usize::MAX,
    ensures
        group_set(Set::<Seq<usize>>::empty().insert(spec_identity(n)), n),
{
    let s = Set::<Seq<usize>>::empty().insert(spec_identity(n));
    lemma_identity_valid(n);
    lemma_invert_identity(n);
    lemma_compose_identity(spec_identity(n));
    assert forall|g: Seq<usize>, h: Seq<usize>| s.contains(g) && s.contains(h) implies s.contains(
        #[trigger] spec_compose(g, spec_invert(h)),
    ) by {
        assert(g == spec_identity(n));
        assert(h == spec_identity(n));
    }
}

/// The trivial group of the given degree: the singleton holding only the
/// identity permutation.
pub fn trivial(size: usize) -> (r: Subgroup)
    ensures
        r.wf(),
        r.spec_size() == size as nat,
        r@.len() == 1,
        r@[0] == spec_identity(size as nat),
{
    let mut v: Vec<Permutation> = Vec::new();
    v.push(identity(size));
    proof {
        let vs = views_of(v@);
        assert(vs.len() == 1);
        assert(vs[0] == spec_identity(size as nat));
        lemma_identity_valid(size as nat);
        lemma_invert_identity(size as nat);
        lemma_compose_identity(spec_identity(size as nat));
        let s = vs.to_set();
        assert forall|x: Seq<usize>, y: Seq<usize>| s.contains(x) && s.contains(y) implies
            s.contains(#[trigger] spec_compose(x, spec_invert(y))) by {
            assert(x == spec_identity(size as nat));
            assert(y == spec_identity(size as nat));
            assert(spec_compose(x, spec_invert(y)) == spec_identity(size as nat));
            assert(vs.contains(spec_identity(size as nat)));
        }
    }
    match make_subgroup(v) {
        Some(g) => {
            proof {
                let vs = views_of(v@);
                assert(vs.no_duplicates());
                vs.unique_seq_to_set();
                g@.unique_seq_to_set();
                assert(g@.to_set().len() == 1);
                assert(g@.len() == 1);
                assert(g@.contains(g@[0]));
                assert(g@.to_set().contains(g@[0]));
                assert(vs.to_set().contains(g@[0]));
                let t = choose|t: int| 0 <= t < vs.len() && vs[t] == g@[0];
                assert(g@[0] == spec_identity(size as nat));
            }
            g
        },
        None => {
            proof {
                assert(false);
            }
            vstd::pervasive::unreached()
        },
    }
}

/// Computes the subgroup generated by the given permutations: the
/// smallest group of the same degree that contains them all.  The work
/// queue holds index pairs into the growing result; every popped pair is
/// replaced by its product, and a newly discovered product enqueues its
/// pairings with every element present at the moment of insertion.
/// Termination holds because the result strictly grows on each
/// productive step and can never exceed the finite ambient group.
pub fn generate(generators: &Subset) -> (r: Subgroup)
    requires
        generators.wf(),
    ensures
        r.wf(),
        r.spec_size() == generators.spec_size(),
        forall|i: int|
            0 <= i < generators@.len() ==> r@.to_set().contains(#[trigger] generators@[i]),
        r@.to_set().contains(spec_identity(generators.spec_size())),
        forall|t: Set<Seq<usize>>|
            #[trigger] group_set(t, generators.spec_size()) && generators@.to_set().subset_of(t)
                ==> r@.to_set().subset_of(t),
{
    let n = generators.degree();
    let ghost nn = generators.spec_size();
    let ghost bound = pow(n as int, n as nat);
    let mut result: Vec<Permutation> = Vec::new();
    result.push(identity(n));
    proof {
        lemma_identity_valid(nn);
        assert(views_of(result@).len() == 1);
        assert(views_of(result@)[0] == spec_identity(nn));
        assert(views_of(result@).contains(spec_identity(nn)));
    }
    let gcount = generators.cardinality();
    let mut i: usize = 0;
    while i < gcount
        invariant
            i <= gcount,
            gcount == generators@.len(),
            generators.wf(),
            n as nat == nn,
            nn == generators.spec_size(),
            views_of(result@).len() > 0,
            views_of(result@).no_duplicates(),
            all_wellformed(views_of(result@)),
            all_of_degree(views_of(result@), nn),
            views_of(result@).contains(spec_identity(nn)),
            forall|k: int|
                0 <= k < i ==> views_of(result@).contains(#[trigger] generators@[k]),
            forall|k: int|
                0 <= k < views_of(result@).len() ==> #[trigger] views_of(result@)[k]
                    == spec_identity(nn) || generators@.contains(views_of(result@)[k]),
        decreases gcount - i,
    {
        let p = generators.member(i);
        if !contains_perm(&result, p) {
            let ghost old_views = views_of(result@);
            result.push(p.duplicate());
            proof {
                assert(views_of(result@) =~= old_views.push(generators@[i as int]));
                lemma_push_keeps(old_views, generators@[i as int]);
                assert(generators@.contains(generators@[i as int]));
            }
        }
        i = i + 1;
    }
    let rlen = result.len();
    let mut queue: Vec<(usize, usize)> = Vec::new();
    let mut a: usize = 0;
    while a < rlen
        invariant
            a <= rlen,
            rlen == result@.len(),
            forall|t: int|
                0 <= t < queue@.len() ==> (#[trigger] queue@[t]).0 < rlen && queue@[t].1 < rlen,
            forall|x: int, y: int|
                0 <= x < a && 0 <= y < rlen ==> #[trigger] pair_pending(queue@, 0, x, y),
        decreases rlen - a,
    {
        let mut b: usize = 0;
        while b < rlen
            invariant
                a < rlen,
                b <= rlen,
                rlen == result@.len(),
                forall|t: int|
                    0 <= t < queue@.len() ==> (#[trigger] queue@[t]).0 < rlen && queue@[t].1
                        < rlen,
                forall|x: int, y: int|
                    0 <= x < a && 0 <= y < rlen ==> #[trigger] pair_pending(queue@, 0, x, y),
                forall|y: int| 0 <= y < b ==> #[trigger] pair_pending(queue@, 0, a as int, y),
            decreases rlen - b,
        {
            let ghost old_queue = queue@;
            queue.push((a, b));
            proof {
                assert(queue@[queue@.len() - 1].0 == a && queue@[queue@.len() - 1].1 == b);
                assert(pair_pending(queue@, 0, a as int, b as int));
                assert forall|x: int, y: int|
                    0 <= x < a && 0 <= y < rlen implies #[trigger] pair_pending(
                    queue@,
                    0,
                    x,
                    y,
                ) by {
                    lemma_pending_extend(old_queue, queue@, 0, x, y);
                }
                assert forall|y: int| 0 <= y < b implies #[trigger] pair_pending(
                    queue@,
                    0,
                    a as int,
                    y,
                ) by {
                    lemma_pending_extend(old_queue, queue@, 0, a as int, y);
                }
            }
            b = b + 1;
        }
        a = a + 1;
    }
    proof {
        lemma_result_bound(views_of(result@), nn);
    }
    let mut head: usize = 0;
    while head < queue.len()
        invariant
            head <= queue@.len(),
            n as nat == nn,
            nn == generators.spec_size(),
            generators.wf(),
            bound == pow(n as int, n as nat),
            views_of(result@).len() > 0,
            views_of(result@).len() <= bound,
            views_of(result@).no_duplicates(),
            all_wellformed(views_of(result@)),
            all_of_degree(views_of(result@), nn),
            views_of(result@).contains(spec_identity(nn)),
            forall|k: int|
                0 <= k < generators@.len() ==> views_of(result@).contains(
                    #[trigger] generators@[k],
                ),
            forall|t: int|
                0 <= t < queue@.len() ==> (#[trigger] queue@[t]).0 < views_of(result@).len()
                    && queue@[t].1 < views_of(result@).len(),
            forall|x: int, y: int|
                0 <= x < views_of(result@).len() && 0 <= y < views_of(result@).len()
                    ==> views_of(result@).contains(
                    #[trigger] spec_compose(views_of(result@)[x], views_of(result@)[y]),
                ) || pair_pending(queue@, head as int, x, y),
            forall|t: Set<Seq<usize>>|
                #[trigger] group_set(t, nn) && generators@.to_set().subset_of(t) ==> views_of(
                    result@,
                ).to_set().subset_of(t),
        decreases bound + 1 - views_of(result@).len(), queue@.len() - head,
    {
        let pair = queue[head];
        let ia = pair.0;
        let ib = pair.1;
        let ghost old_head = head as int;
        head = head + 1;
        proof {
            assert(views_of(result@)[ia as int] == result@[ia as int]@);
            assert(views_of(result@)[ib as int] == result@[ib as int]@);
        }
        let product = composition(&result[ia], &result[ib]);
        let ghost rv = views_of(result@);
        if !contains_perm(&result, &product) {
            let ghost old_queue = queue@;
            let newidx = result.len();
            result.push(product);
            proof {
                assert(views_of(result@) =~= rv.push(spec_compose(rv[ia as int], rv[ib as int])));
                lemma_push_keeps(rv, spec_compose(rv[ia as int], rv[ib as int]));
                lemma_result_bound(views_of(result@), nn);
            }
            let mut k: usize = 0;
            while k < result.len()
                invariant
                    k <= views_of(result@).len(),
                    newidx == views_of(result@).len() - 1,
                    newidx < result@.len(),
                    result@.len() == views_of(result@).len(),
                    head == old_head + 1,
                    head as int <= old_queue.len(),
                    queue@.len() >= old_queue.len(),
                    forall|t: int| 0 <= t < old_queue.len() ==> queue@[t] == old_queue[t],
                    forall|t: int|
                        0 <= t < queue@.len() ==> (#[trigger] queue@[t]).0 < views_of(
                            result@,
                        ).len() && queue@[t].1 < views_of(result@).len(),
                    forall|x: int|
                        0 <= x < k ==> #[trigger] pair_pending(
                            queue@,
                            head as int,
                            x,
                            newidx as int,
                        ),
                    forall|x: int|
                        0 <= x < k ==> #[trigger] pair_pending(
                            queue@,
                            head as int,
                            newidx as int,
                            x,
                        ),
                decreases views_of(result@).len() - k,
            {
                let ghost q0 = queue@;
                queue.push((k, newidx));
                queue.push((newidx, k));
                proof {
                    assert(queue@[queue@.len() - 2].0 == k && queue@[queue@.len() - 2].1
                        == newidx);
                    assert(queue@[queue@.len() - 1].0 == newidx && queue@[queue@.len() - 1].1
                        == k);
                    assert(head as int <= queue@.len() - 2);
                    assert(pair_pending(queue@, head as int, k as int, newidx as int));
                    assert(pair_pending(queue@, head as int, newidx as int, k as int));
                    assert forall|x: int| 0 <= x < k implies #[trigger] pair_pending(
                        queue@,
                        head as int,
                        x,
                        newidx as int,
                    ) by {
                        assert(pair_pending(q0, head as int, x, newidx as int));
                        lemma_pending_extend(q0, queue@, head as int, x, newidx as int);
                    }
                    assert forall|x: int| 0 <= x < k implies #[trigger] pair_pending(
                        queue@,
                        head as int,
                        newidx as int,
                        x,
                    ) by {
                        assert(pair_pending(q0, head as int, newidx as int, x));
                        lemma_pending_extend(q0, queue@, head as int, newidx as int, x);
                    }
                }
                k = k + 1;
            }
            proof {
                let nrv = views_of(result@);
                let prod = spec_compose(rv[ia as int], rv[ib as int]);
                // every pair over the enlarged result is settled or queued
                assert forall|x: int, y: int|
                    0 <= x < nrv.len() && 0 <= y < nrv.len() implies nrv.contains(
                    #[trigger] spec_compose(nrv[x], nrv[y]),
                ) || pair_pending(queue@, head as int, x, y) by {
                    if x < rv.len() && y < rv.len() {
                        assert(nrv[x] == rv[x] && nrv[y] == rv[y]);
                        if rv.contains(spec_compose(rv[x], rv[y])) {
                            lemma_push_keeps(rv, prod);
                        } else {
                            assert(pair_pending(old_queue, old_head, x, y));
                            if x == ia as int && y == ib as int {
                                assert(nrv.contains(prod)) by {
                                    lemma_push_keeps(rv, prod);
                                }
                            } else {
                                lemma_pending_advance(old_queue, old_head, x, y);
                                lemma_pending_extend(old_queue, queue@, head as int, x, y);
                            }
                        }
                    } else {
                        assert(x == newidx || y == newidx);
                        if y == newidx {
                            assert(pair_pending(queue@, head as int, x, newidx as int));
                        } else {
                            assert(pair_pending(queue@, head as int, newidx as int, y));
                        }
                    }
                }
                // minimality: the product lies in every group holding the generators
                assert forall|t: Set<Seq<usize>>|
                    #[trigger] group_set(t, nn) && generators@.to_set().subset_of(t) implies nrv
                    .to_set().subset_of(t) by {
                    lemma_group_set_closed(t, nn);
                    assert(rv.to_set().subset_of(t));
                    assert(rv.contains(rv[ia as int]));
                    assert(rv.to_set().contains(rv[ia as int]));
                    assert(rv.to_set().contains(rv[ib as int]));
                    assert(t.contains(prod));
                    assert forall|z: Seq<usize>| nrv.to_set().contains(z) implies t.contains(
                        z,
                    ) by {
                        let w = choose|w: int| 0 <= w < nrv.len() && nrv[w] == z;
                        if w < rv.len() {
                            assert(rv.contains(z));
                            assert(rv.to_set().contains(z));
                        } else {
                            assert(z == prod);
                        }
                    }
                }
            }
        } else {
            proof {
                let prod = spec_compose(rv[ia as int], rv[ib as int]);
                assert(rv.contains(prod));
                assert forall|x: int, y: int|
                    0 <= x < rv.len() && 0 <= y < rv.len() implies rv.contains(
                    #[trigger] spec_compose(rv[x], rv[y]),
                ) || pair_pending(queue@, head as int, x, y) by {
                    if !rv.contains(spec_compose(rv[x], rv[y])) {
                        assert(pair_pending(queue@, old_head, x, y));
                        if x == ia as int && y == ib as int {
                            assert(rv.contains(prod));
                        } else {
                            lemma_pending_advance(queue@, old_head, x, y);
                        }
                    }
                }
            }
        }
    }
    proof {
        broadcast use vstd::seq_lib::seq_to_set_is_finite;

        let rv = views_of(result@);
        let s = rv.to_set();
        // an empty queue means every product of two elements is present
        assert forall|x: Seq<usize>, y: Seq<usize>| s.contains(x) && s.contains(y) implies
            s.contains(#[trigger] spec_compose(x, y)) by {
            let xi = choose|xi: int| 0 <= xi < rv.len() && rv[xi] == x;
            let yi = choose|yi: int| 0 <= yi < rv.len() && rv[yi] == y;
            assert(rv.contains(spec_compose(rv[xi], rv[yi])) || pair_pending(
                queue@,
                head as int,
                xi,
                yi,
            ));
            assert(rv.contains(spec_compose(rv[xi], rv[yi])));
        }
        assert forall|p: Seq<usize>| s.contains(p) implies perm_valid(p) && (#[trigger] p.len())
            == nn by {
            let k = choose|k: int| 0 <= k < rv.len() && rv[k] == p;
            assert(perm_valid(rv[k]) && rv[k].len() == nn);
        }
        lemma_composition_closed_implies_group(s, nn);
    }
    match make_subgroup(result) {
        Some(g) => {
            proof {
                assert(all_of_degree(g@, g.spec_size()) && all_of_degree(g@, nn));
            }
            g
        },
        None => {
            proof {
                assert(false);
            }
            vstd::pervasive::unreached()
        },
    }
}

/// Generation is idempotent: a result that contains its generators and
/// is contained in every group holding them — as `generate` guarantees —
/// adds nothing when the generators already form a group.  In particular
/// the two sets have equal cardinality.
pub proof fn lemma_generate_idempotent(gens: Seq<Seq<usize>>, result: Set<Seq<usize>>, n: nat)
    requires
        group_set(gens.to_set(), n),
        forall|i: int| 0 <= i < gens.len() ==> result.contains(#[trigger] gens[i]),
        forall|t: Set<Seq<usize>>|
            #[trigger] group_set(t, n) && gens.to_set().subset_of(t) ==> result.subset_of(t),
    ensures
        result == gens.to_set(),
{
    assert forall|z: Seq<usize>| gens.to_set().contains(z) implies result.contains(z) by {
        let i = choose|i: int| 0 <= i < gens.len() && gens[i] == z;
        assert(result.contains(gens[i]));
    }
    assert(gens.to_set().subset_of(gens.to_set()));
    assert(result.subset_of(gens.to_set()));
    assert(result =~= gens.to_set());
}

/// The full cycle `(2, 3, ..., n, 1)`: each point moves up by one and
/// the last wraps to the first.
pub open spec fn spec_cycle(n: nat) -> Seq<usize> {
    Seq::new(n, |i: int| if i == n - 1 { 1usize } else { (i + 2) as usize })
}

/// The transposition `(2, 1, 3, ..., n)`: the first two points swap and
/// the rest stay fixed.
pub open spec fn spec_transposition(n: nat) -> Seq<usize> {
    Seq::new(
        n,
        |i: int|
            if i == 0 {
                2usize
            } else if i == 1 {
                1usize
            } else {
                (i + 1) as usize
            },
    )
}

pub proof fn lemma_cycle_valid(n: nat)
    requires
        2 <= n <= usize::MAX,
    ensures
        perm_valid(spec_cycle(n)),
        spec_cycle(n).len() == n,
{
    let s = spec_cycle(n);
    assert forall|i: int| 0 <= i < s.len() implies 1 <= #[trigger] s[i] <= s.len() by {
        if i == n - 1 {
            assert(s[i] == 1usize);
        } else {
            assert(s[i] == (i + 2) as usize);
        }
    }
    assert forall|i: int, j: int|
        #![trigger s[i], s[j]]
        0 <= i < s.len() && 0 <= j < s.len() && s[i] == s[j] implies i == j by {
        if i != j {
            if i == n - 1 {
                assert(s[i] == 1usize && s[j] == (j + 2) as usize);
            } else if j == n - 1 {
                assert(s[j] == 1usize && s[i] == (i + 2) as usize);
            } else {
                assert(s[i] == (i + 2) as usize && s[j] == (j + 2) as usize);
            }
        }
    }
}

pub proof fn lemma_transposition_valid(n: nat)
    requires
        2 <= n <= usize::MAX,
    ensures
        perm_valid(spec_transposition(n)),
        spec_transposition(n).len() == n,
{
    let s = spec_transposition(n);
    assert forall|i: int| 0 <= i < s.len() implies 1 <= #[trigger] s[i] <= s.len() by {
        if i == 0 {
            assert(s[i] == 2usize);
        } else if i == 1 {
            assert(s[i] == 1usize);
        } else {
            assert(s[i] == (i + 1) as usize);
        }
    }
    assert forall|i: int, j: int|
        #![trigger s[i], s[j]]
        0 <= i < s.len() && 0 <= j < s.len() && s[i] == s[j] implies i == j by {
        if i != j {
            assert(s[i] == (if i == 0 { 2usize } else if i == 1 { 1usize } else { (i + 1) as usize }));
            assert(s[j] == (if j == 0 { 2usize } else if j == 1 { 1usize } else { (j + 1) as usize }));
        }
    }
}

/// The full symmetric group on `size` points, generated from the full
/// cycle and the transposition of the first two points, a canonical
/// generating pair.  Degrees below two leave the pair with mismatched
/// lengths, so they are excluded.
pub fn elements(size: usize) -> (r: Subgroup)
    requires
        size >= 2,
    ensures
        r.wf(),
        r.spec_size() == size as nat,
        r@.to_set().contains(spec_cycle(size as nat)),
        r@.to_set().contains(spec_transposition(size as nat)),
        r@.to_set().contains(spec_identity(size as nat)),
        forall|t: Set<Seq<usize>>|
            #[trigger] group_set(t, size as nat) && t.contains(spec_cycle(size as nat))
                && t.contains(spec_transposition(size as nat)) ==> r@.to_set().subset_of(t),
{
    proof {
        lemma_cycle_valid(size as nat);
        lemma_transposition_valid(size as nat);
    }
    let mut cycle: Vec<usize> = Vec::new();
    let mut i: usize = 0;
    while i < size - 1
        invariant
            size >= 2,
            i <= size - 1,
            cycle@.len() == i,
            forall|k: int| 0 <= k < i ==> #[trigger] cycle@[k] == k + 2,
        decreases size - 1 - i,
    {
        cycle.push(i + 2);
        i = i + 1;
    }
    cycle.push(1);
    proof {
        assert(cycle@ =~= spec_cycle(size as nat));
    }
    let mut transposition: Vec<usize> = Vec::new();
    transposition.push(2);
    transposition.push(1);
    let mut j: usize = 2;
    while j < size
        invariant
            size >= 2,
            2 <= j <= size,
            transposition@.len() == j,
            transposition@[0] == 2usize,
            transposition@[1] == 1usize,
            forall|k: int| 2 <= k < j ==> #[trigger] transposition@[k] == k + 1,
        decreases size - j,
    {
        transposition.push(j + 1);
        j = j + 1;
    }
    proof {
        assert(transposition@ =~= spec_transposition(size as nat));
    }
    let gen1 = match make_permutation(cycle) {
        Some(p) => p,
        None => {
            proof {
                assert(false);
            }
            vstd::pervasive::unreached()
        },
    };
    let gen2 = match make_permutation(transposition) {
        Some(p) => p,
        None => {
            proof {
                assert(false);
            }
            vstd::pervasive::unreached()
        },
    };
    let mut gens: Vec<Permutation> = Vec::new();
    gens.push(gen1);
    gens.push(gen2);
    proof {
        assert(views_of(gens@).len() == 2);
        assert(views_of(gens@)[0] == spec_cycle(size as nat));
        assert(views_of(gens@)[1] == spec_transposition(size as nat));
    }
    let generators = match make_subset(gens) {
        Some(s) => s,
        None => {
            proof {
                assert(false);
            }
            vstd::pervasive::unreached()
        },
    };
    proof {
        assert(generators@.to_set().contains(spec_cycle(size as nat)));
        assert(generators@.to_set().contains(spec_transposition(size as nat)));
        assert(generators.spec_size() == size as nat);
    }
    let r = generate(&generators);
    proof {
        let nn = size as nat;
        let c = spec_cycle(nn);
        let tr = spec_transposition(nn);
        let ci = choose|ci: int| 0 <= ci < generators@.len() && generators@[ci] == c;
        assert(r@.to_set().contains(generators@[ci]));
        let ti = choose|ti: int| 0 <= ti < generators@.len() && generators@[ti] == tr;
        assert(r@.to_set().contains(generators@[ti]));
        assert forall|t: Set<Seq<usize>>|
            #[trigger] group_set(t, nn) && t.contains(c) && t.contains(tr) implies r@
            .to_set().subset_of(t) by {
            assert forall|z: Seq<usize>| generators@.to_set().contains(z) implies t.contains(
                z,
            ) by {
                let zi = choose|zi: int| 0 <= zi < generators@.len() && generators@[zi] == z;
                assert(views_of(gens@).to_set().contains(z));
                let wi = choose|wi: int|
                    0 <= wi < views_of(gens@).len() && views_of(gens@)[wi] == z;
                assert(wi == 0 || wi == 1);
            }
            assert(generators@.to_set().subset_of(t));
        }
    }
    r
}

} // verus!
