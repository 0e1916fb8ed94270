use vstd::prelude::*;

verus! {

/// A mapping `s` of length `n` describes a permutation of the points
/// `{1, ..., n}`: `s[i]` is the image of the point `i + 1`.  It is a
/// well-formed permutation when every entry lies in `{1, ..., n}` and no
/// entry repeats, which for a finite domain makes it a bijection.
pub open spec fn perm_valid(s: Seq<usize>) -> bool {
    &&& forall|i: int| 0 <= i < s.len() ==> 1 <= #[trigger] s[i] <= s.len()
    &&& forall|i: int, j: int|
        #![trigger s[i], s[j]]
        0 <= i < s.len() && 0 <= j < s.len() && s[i] == s[j] ==> i == j
}

/// An immutable bijection on `{1, ..., n}`, built only through the
/// validating constructor `make_permutation` (or through operations that
/// provably preserve well-formedness), so every reachable value satisfies
/// `perm_valid`.
pub struct Permutation {
    mapping: Vec<usize>,
}

impl View for Permutation {
    type V = Seq<usize>;

    closed spec fn view(&self) -> Seq<usize> {
        self.mapping@
    }
}

impl Permutation {
    /// Degree of the permutation: the number of points it acts on.
    pub fn degree(&self) -> (n: usize)
        ensures
            n == self@.len(),
    {
        self.mapping.len()
    }

    /// Read-only access to the underlying image sequence, for rendering.
    pub fn images(&self) -> (v: &Vec<usize>)
        ensures
            v@ == self@,
    {
        &self.mapping
    }

    /// An independent copy with the same mapping.
    pub fn duplicate(&self) -> (r: Permutation)
        ensures
            r@ == self@,
    {
        let n = self.mapping.len();
        let mut mapping: Vec<usize> = Vec::new();
        let mut i: usize = 0;
        while i < n
            invariant
                i <= n,
                n == self@.len(),
                mapping@.len() == i,
                forall|k: int| 0 <= k < i ==> #[trigger] mapping@[k] == self@[k],
            decreases n - i,
        {
            mapping.push(self.mapping[i]);
            i = i + 1;
        }
        proof {
            assert(mapping@ =~= self@);
        }
        Permutation { mapping }
    }
}

/// Constructs a permutation from a candidate mapping, accepting exactly
/// the well-formed ones: every point of `{1, ..., n}` must occur exactly
/// once among the images.
pub fn make_permutation(mapping: Vec<usize>) -> (r: Option<Permutation>)
    ensures
        r matches Some(p) ==> perm_valid(mapping@) && p@ == mapping@,
        r is None ==> !perm_valid(mapping@),
{
    let n = mapping.len();
    let mut seen: Vec<bool> = Vec::new();
    let mut i: usize = 0;
    while i < n
        invariant
            i <= n,
            seen@.len() == i,
            forall|k: int| 0 <= k < i ==> !seen@[k],
        decreases n - i,
    {
        seen.push(false);
        i = i + 1;
    }
    let mut k: usize = 0;
    while k < n
        invariant
            k <= n,
            n == mapping@.len(),
            seen@.len() == n,
            forall|v: int|
                0 <= v < n
                    ==> (seen@[v] <==> exists|t: int| 0 <= t < k && #[trigger] mapping@[t] == v + 1),
            forall|t: int| 0 <= t < k ==> 1 <= #[trigger] mapping@[t] <= n,
            forall|t: int, u: int|
                #![trigger mapping@[t], mapping@[u]]
                0 <= t < k && 0 <= u < k && mapping@[t] == mapping@[u] ==> t == u,
        decreases n - k,
    {
        let x = mapping[k];
        if x < 1 || x > n {
            assert(!perm_valid(mapping@));
            return None;
        }
        if seen[x - 1] {
            proof {
                let t = choose|t: int| 0 <= t < k && #[trigger] mapping@[t] == x - 1 + 1;
                assert(mapping@[t] == mapping@[k as int]);
                assert(!perm_valid(mapping@));
            }
            return None;
        }
        seen[x - 1] = true;
        k = k + 1;
    }
    Some(Permutation { mapping })
}

/// The identity mapping of degree `n`: point `i + 1` maps to itself.
pub open spec fn spec_identity(n: nat) -> Seq<usize> {
    Seq::new(n, |i: int| (i + 1) as usize)
}

pub proof fn lemma_identity_valid(n: nat)
    requires
        n <= usize::MAX,
    ensures
        perm_valid(spec_identity(n)),
        spec_identity(n).len() == n,
{
    let s = spec_identity(n);
    assert forall|i: int| 0 <= i < s.len() implies 1 <= #[trigger] s[i] <= s.len() by {
        assert(s[i] == (i + 1) as usize);
    }
    assert forall|i: int, j: int|
        #![trigger s[i], s[j]]
        0 <= i < s.len() && 0 <= j < s.len() && s[i] == s[j] implies i == j by {
        assert(s[i] == (i + 1) as usize);
        assert(s[j] == (j + 1) as usize);
    }
}

/// Returns the identity element of the permutation group of the given
/// order.
pub fn identity(order: usize) -> (r: Permutation)
    ensures
        r@ == spec_identity(order as nat),
        perm_valid(r@),
        r@.len() == order,
{
    let mut mapping: Vec<usize> = Vec::new();
    let mut i: usize = 0;
    while i < order
        invariant
            i <= order,
            mapping@.len() == i,
            forall|k: int| 0 <= k < i ==> #[trigger] mapping@[k] == k + 1,
        decreases order - i,
    {
        mapping.push(i + 1);
        i = i + 1;
    }
    proof {
        assert(mapping@ =~= spec_identity(order as nat));
        lemma_identity_valid(order as nat);
    }
    Permutation { mapping }
}

/// The mapping of the permutation "apply `p1` first, then `p2`":
/// point `i + 1` goes to `p2[p1[i] - 1]`.
pub open spec fn spec_compose(p1: Seq<usize>, p2: Seq<usize>) -> Seq<usize> {
    Seq::new(p1.len(), |i: int| p2[p1[i] - 1])
}

pub proof fn lemma_compose_valid(p1: Seq<usize>, p2: Seq<usize>)
    requires
        perm_valid(p1),
        perm_valid(p2),
        p1.len() == p2.len(),
    ensures
        perm_valid(spec_compose(p1, p2)),
        spec_compose(p1, p2).len() == p1.len(),
{
    let c = spec_compose(p1, p2);
    assert forall|i: int| 0 <= i < c.len() implies 1 <= #[trigger] c[i] <= c.len() by {
        assert(1 <= p1[i] <= p1.len());
        assert(c[i] == p2[p1[i] - 1]);
    }
    assert forall|i: int, j: int|
        #![trigger c[i], c[j]]
        0 <= i < c.len() && 0 <= j < c.len() && c[i] == c[j] implies i == j by {
        assert(c[i] == p2[p1[i] - 1]);
        assert(c[j] == p2[p1[j] - 1]);
        assert(p1[i] - 1 == p1[j] - 1);
    }
}

/// Associativity of composition, the heart of the group laws: composing
/// `p` with `q` and then with `r` equals composing `p` with the
/// composition of `q` and `r`.
pub proof fn lemma_composition_associative(p: Seq<usize>, q: Seq<usize>, r: Seq<usize>)
    requires
        perm_valid(p),
        perm_valid(q),
        perm_valid(r),
        p.len() == q.len(),
        q.len() == r.len(),
    ensures
        spec_compose(spec_compose(p, q), r) == spec_compose(p, spec_compose(q, r)),
{
    let lhs = spec_compose(spec_compose(p, q), r);
    let rhs = spec_compose(p, spec_compose(q, r));
    assert forall|i: int| 0 <= i < lhs.len() implies lhs[i] == rhs[i] by {
        assert(1 <= p[i] <= p.len());
        assert(spec_compose(p, q)[i] == q[p[i] - 1]);
        assert(1 <= q[p[i] - 1] <= q.len());
        assert(spec_compose(q, r)[p[i] - 1] == r[q[p[i] - 1] - 1]);
    }
    assert(lhs =~= rhs);
}

/// Composing with the identity on either side changes nothing.
pub proof fn lemma_compose_identity(p: Seq<usize>)
    requires
        perm_valid(p),
    ensures
        spec_compose(spec_identity(p.len()), p) == p,
        spec_compose(p, spec_identity(p.len())) == p,
{
    let n = p.len();
    lemma_perm_len_bound(p);
    lemma_identity_valid(n);
    let e = spec_identity(n);
    assert forall|i: int| 0 <= i < n implies spec_compose(e, p)[i] == p[i] by {
        assert(e[i] == (i + 1) as usize);
    }
    assert(spec_compose(e, p) =~= p);
    assert forall|i: int| 0 <= i < n implies spec_compose(p, e)[i] == p[i] by {
        assert(1 <= p[i] <= n);
        assert(e[p[i] - 1] == ((p[i] - 1) + 1) as usize);
    }
    assert(spec_compose(p, e) =~= p);
}

/// A well-formed permutation has at most `usize::MAX` entries: its
/// entries are distinct nonzero machine integers.
pub proof fn lemma_perm_len_bound(p: Seq<usize>)
    requires
        perm_valid(p),
    ensures
        p.len() <= usize::MAX,
{
    broadcast use vstd::seq_lib::seq_to_set_is_finite;

    assert(p.no_duplicates());
    p.unique_seq_to_set();
    let pts = p.to_set();
    let f = |x: usize| x as int;
    let ipts = pts.map(f);
    assert(vstd::relations::injective_on(f, pts));
    vstd::set_lib::lemma_map_size(pts, ipts, f);
    let range = vstd::set_lib::set_int_range(1, usize::MAX as int + 1);
    assert forall|e: int| ipts.contains(e) implies range.contains(e) by {
        let x = choose|x: usize| pts.contains(x) && e == f(x);
        assert(p.contains(x));
        let j = choose|j: int| 0 <= j < p.len() && p[j] == x;
        assert(1 <= x);
    }
    vstd::set_lib::lemma_int_range(1, usize::MAX as int + 1);
    vstd::set_lib::lemma_len_subset(ipts, range);
}

/// Every point of `{1, ..., n}` is hit by a well-formed permutation: an
/// injective mapping of `n` in-range entries must cover the whole range.
pub proof fn lemma_perm_surjective(p: Seq<usize>, v: int)
    requires
        perm_valid(p),
        1 <= v <= p.len(),
    ensures
        exists|j: int| 0 <= j < p.len() && p[j] == v,
{
    broadcast use vstd::seq_lib::seq_to_set_is_finite;

    let n = p.len() as int;
    assert(p.no_duplicates());
    p.unique_seq_to_set();
    let pts = p.to_set();
    let f = |x: usize| x as int;
    let ipts = pts.map(f);
    assert(vstd::relations::injective_on(f, pts));
    vstd::set_lib::lemma_map_size(pts, ipts, f);
    let range = vstd::set_lib::set_int_range(1, n + 1);
    assert forall|e: int| ipts.contains(e) implies range.contains(e) by {
        let x = choose|x: usize| pts.contains(x) && e == f(x);
        assert(p.contains(x));
        let j = choose|j: int| 0 <= j < p.len() && p[j] == x;
        assert(1 <= x <= n);
    }
    vstd::set_lib::lemma_int_range(1, n + 1);
    vstd::set_lib::lemma_len_subset(ipts, range);
    vstd::set_lib::lemma_subset_equality(ipts, range);
    assert(range.contains(v));
    assert(ipts.contains(v));
    let x = choose|x: usize| pts.contains(x) && v == f(x);
    assert(p.contains(x));
    let j = choose|j: int| 0 <= j < p.len() && p[j] == x;
    assert(0 <= j < p.len() && p[j] == v);
}

/// The position, zero-based, of the preimage of the point `i + 1` under
/// `p`: the `j` with `p[j] == i + 1`.
pub open spec fn invert_index(p: Seq<usize>, i: int) -> int {
    choose|j: int| 0 <= j < p.len() && p[j] == i + 1
}

/// The inverse mapping of `p`: position `object - 1` receives `index + 1`
/// for every `(index, object)` pair of `p`.
pub open spec fn spec_invert(p: Seq<usize>) -> Seq<usize> {
    Seq::new(p.len(), |i: int| (invert_index(p, i) + 1) as usize)
}

pub proof fn lemma_invert_valid(p: Seq<usize>)
    requires
        perm_valid(p),
    ensures
        perm_valid(spec_invert(p)),
        spec_invert(p).len() == p.len(),
        forall|i: int| 0 <= i < p.len() ==> #[trigger] spec_invert(p)[p[i] - 1] == i + 1,
        forall|i: int| 0 <= i < p.len() ==> p[#[trigger] spec_invert(p)[i] - 1] == i + 1,
{
    let n = p.len();
    let q = spec_invert(p);
    lemma_perm_len_bound(p);
    assert forall|i: int| 0 <= i < n implies
        (0 <= invert_index(p, i) < n && p[invert_index(p, i)] == i + 1) by {
        lemma_perm_surjective(p, i + 1);
        let j = choose|j: int| 0 <= j < p.len() && p[j] == i + 1;
        assert(0 <= invert_index(p, i) < n && p[invert_index(p, i)] == i + 1);
    }
    assert forall|i: int| 0 <= i < n implies 1 <= #[trigger] q[i] <= n by {
        assert(q[i] == (invert_index(p, i) + 1) as usize);
    }
    assert forall|i: int, j: int|
        #![trigger q[i], q[j]]
        0 <= i < n && 0 <= j < n && q[i] == q[j] implies i == j by {
        assert(q[i] == (invert_index(p, i) + 1) as usize);
        assert(q[j] == (invert_index(p, j) + 1) as usize);
        assert(invert_index(p, i) == invert_index(p, j));
        assert(p[invert_index(p, i)] == i + 1);
        assert(p[invert_index(p, j)] == j + 1);
    }
    assert forall|i: int| 0 <= i < n implies #[trigger] q[p[i] - 1] == i + 1 by {
        let t = p[i] - 1;
        assert(0 <= t < n);
        assert(p[invert_index(p, t)] == t + 1);
        assert(p[invert_index(p, t)] == p[i]);
        assert(invert_index(p, t) == i);
        assert(q[t] == (i + 1) as usize);
    }
    assert forall|i: int| 0 <= i < n implies p[#[trigger] q[i] - 1] == i + 1 by {
        assert(q[i] == (invert_index(p, i) + 1) as usize);
        assert(p[invert_index(p, i)] == i + 1);
    }
}

/// The inverse law: a permutation composed with its inverse, in either
/// order, is the identity of the same degree.
pub proof fn lemma_inverse_composition(p: Seq<usize>)
    requires
        perm_valid(p),
    ensures
        spec_compose(p, spec_invert(p)) == spec_identity(p.len()),
        spec_compose(spec_invert(p), p) == spec_identity(p.len()),
{
    let n = p.len();
    let q = spec_invert(p);
    lemma_perm_len_bound(p);
    lemma_invert_valid(p);
    lemma_identity_valid(n);
    assert forall|i: int| 0 <= i < n implies spec_compose(p, q)[i] == spec_identity(n)[i] by {
        assert(1 <= p[i] <= n);
        assert(spec_compose(p, q)[i] == q[p[i] - 1]);
        assert(q[p[i] - 1] == i + 1);
        assert(spec_identity(n)[i] == (i + 1) as usize);
    }
    assert(spec_compose(p, q) =~= spec_identity(n));
    assert forall|i: int| 0 <= i < n implies spec_compose(q, p)[i] == spec_identity(n)[i] by {
        assert(1 <= q[i] <= n);
        assert(spec_compose(q, p)[i] == p[q[i] - 1]);
        assert(p[q[i] - 1] == i + 1);
        assert(spec_identity(n)[i] == (i + 1) as usize);
    }
    assert(spec_compose(q, p) =~= spec_identity(n));
}

/// A left inverse of a well-formed permutation is the inverse: if
/// `q` then `p` is the identity, `q` must be `spec_invert(p)`.
pub proof fn lemma_left_inverse_unique(p: Seq<usize>, q: Seq<usize>)
    requires
        perm_valid(p),
        perm_valid(q),
        p.len() == q.len(),
        spec_compose(q, p) == spec_identity(p.len()),
    ensures
        q == spec_invert(p),
{
    let n = p.len();
    lemma_perm_len_bound(p);
    lemma_invert_valid(p);
    lemma_identity_valid(n);
    assert forall|i: int| 0 <= i < n implies q[i] == spec_invert(p)[i] by {
        assert(spec_compose(q, p)[i] == p[q[i] - 1]);
        assert(spec_identity(n)[i] == (i + 1) as usize);
        assert(p[q[i] - 1] == i + 1);
        assert(p[spec_invert(p)[i] - 1] == i + 1);
        assert(1 <= q[i] <= n);
        assert(1 <= spec_invert(p)[i] <= n);
        assert(q[i] - 1 == spec_invert(p)[i] - 1);
    }
    assert(q =~= spec_invert(p));
}

/// A right inverse of a well-formed permutation is the inverse: if
/// `p` then `q` is the identity, `q` must be `spec_invert(p)`.
pub proof fn lemma_right_inverse_unique(p: Seq<usize>, q: Seq<usize>)
    requires
        perm_valid(p),
        perm_valid(q),
        p.len() == q.len(),
        spec_compose(p, q) == spec_identity(p.len()),
    ensures
        q == spec_invert(p),
{
    let n = p.len();
    lemma_perm_len_bound(p);
    lemma_invert_valid(p);
    lemma_identity_valid(n);
    assert forall|t: int| 0 <= t < n implies q[t] == spec_invert(p)[t] by {
        lemma_perm_surjective(p, t + 1);
        let i = choose|i: int| 0 <= i < p.len() && p[i] == t + 1;
        assert(spec_compose(p, q)[i] == q[p[i] - 1]);
        assert(spec_identity(n)[i] == (i + 1) as usize);
        assert(q[t] == i + 1);
        assert(p[spec_invert(p)[t] - 1] == t + 1);
        assert(p[spec_invert(p)[t] - 1] == p[i]);
        assert(1 <= spec_invert(p)[t] <= n);
        assert(spec_invert(p)[t] - 1 == i);
    }
    assert(q =~= spec_invert(p));
}

/// Inverting twice gives back the original permutation.
pub proof fn lemma_invert_involution(p: Seq<usize>)
    requires
        perm_valid(p),
    ensures
        spec_invert(spec_invert(p)) == p,
{
    lemma_invert_valid(p);
    lemma_inverse_composition(p);
    lemma_left_inverse_unique(spec_invert(p), p);
}

/// The identity is its own inverse.
pub proof fn lemma_invert_identity(n: nat)
    requires
        n <= usize::MAX,
    ensures
        spec_invert(spec_identity(n)) == spec_identity(n),
{
    lemma_identity_valid(n);
    lemma_compose_identity(spec_identity(n));
    lemma_left_inverse_unique(spec_identity(n), spec_identity(n));
}

/// The inverse of `a` then `b` is the inverse of `b` followed by the
/// inverse of `a`.
pub proof fn lemma_invert_compose(a: Seq<usize>, b: Seq<usize>)
    requires
        perm_valid(a),
        perm_valid(b),
        a.len() == b.len(),
    ensures
        spec_invert(spec_compose(a, b)) == spec_compose(spec_invert(b), spec_invert(a)),
{
    let n = a.len();
    lemma_compose_valid(a, b);
    lemma_invert_valid(a);
    lemma_invert_valid(b);
    lemma_compose_valid(spec_invert(b), spec_invert(a));
    let u = spec_compose(spec_invert(b), spec_invert(a));
    // ((a then b) then (b' then a')) collapses to the identity
    lemma_composition_associative(a, b, u);
    lemma_composition_associative(b, spec_invert(b), spec_invert(a));
    lemma_inverse_composition(b);
    lemma_compose_identity(spec_invert(a));
    assert(spec_compose(b, u) == spec_invert(a));
    assert(spec_compose(spec_compose(a, b), u) == spec_compose(a, spec_invert(a)));
    lemma_inverse_composition(a);
    lemma_right_inverse_unique(spec_compose(a, b), u);
}

/// The image of `object` under the permutation.  The caller must stay
/// inside the domain `{1, ..., n}`: outside of it the group action is
/// undefined and no value may be returned.
pub fn action(perm: &Permutation, object: usize) -> (r: usize)
    requires
        perm_valid(perm@),
        1 <= object <= perm@.len(),
    ensures
        r == perm@[object - 1],
        1 <= r <= perm@.len(),
{
    perm.mapping[object - 1]
}

/// Equality of permutations is equality of their image sequences.
pub fn equal_permutations(a: &Permutation, b: &Permutation) -> (r: bool)
    ensures
        r <==> a@ == b@,
{
    let n = a.mapping.len();
    if n != b.mapping.len() {
        return false;
    }
    let mut i: usize = 0;
    while i < n
        invariant
            i <= n,
            n == a@.len(),
            n == b@.len(),
            forall|k: int| 0 <= k < i ==> a@[k] == b@[k],
        decreases n - i,
    {
        if a.mapping[i] != b.mapping[i] {
            assert(a@[i as int] != b@[i as int]);
            return false;
        }
        i = i + 1;
    }
    proof {
        assert(a@ =~= b@);
    }
    true
}

/// Composes two permutations of the same degree: the result applies
/// `perm1` first and `perm2` second.
pub fn composition(perm1: &Permutation, perm2: &Permutation) -> (r: Permutation)
    requires
        perm_valid(perm1@),
        perm_valid(perm2@),
        perm1@.len() == perm2@.len(),
    ensures
        r@ == spec_compose(perm1@, perm2@),
        perm_valid(r@),
        r@.len() == perm1@.len(),
{
    let n = perm1.mapping.len();
    let mut mapping: Vec<usize> = Vec::new();
    let mut i: usize = 0;
    while i < n
        invariant
            i <= n,
            n == perm1@.len(),
            n == perm2@.len(),
            perm_valid(perm1@),
            perm_valid(perm2@),
            mapping@.len() == i,
            forall|k: int| 0 <= k < i ==> #[trigger] mapping@[k] == perm2@[perm1@[k] - 1],
        decreases n - i,
    {
        let x = perm1.mapping[i];
        mapping.push(action(perm2, x));
        i = i + 1;
    }
    proof {
        assert(mapping@ =~= spec_compose(perm1@, perm2@));
        lemma_compose_valid(perm1@, perm2@);
    }
    Permutation { mapping }
}

/// The zero-based position at which `perm` maps some point to `object`;
/// well-formedness guarantees such a position exists.
fn find_preimage(perm: &Permutation, object: usize) -> (j: usize)
    requires
        perm_valid(perm@),
        1 <= object <= perm@.len(),
    ensures
        j < perm@.len(),
        perm@[j as int] == object,
{
    let n = perm.mapping.len();
    let mut j: usize = 0;
    while j < n
        invariant
            j <= n,
            n == perm@.len(),
            perm_valid(perm@),
            1 <= object <= n,
            forall|k: int| 0 <= k < j ==> #[trigger] perm@[k] != object,
        decreases n - j,
    {
        if perm.mapping[j] == object {
            return j;
        }
        j = j + 1;
    }
    proof {
        lemma_perm_surjective(perm@, object as int);
        assert(false);
    }
    vstd::pervasive::unreached()
}

/// Builds the inverse of a permutation: position `object - 1` of the
/// result holds `index + 1` for every `(index, object)` pair of the
/// source mapping.
pub fn invert(perm: &Permutation) -> (r: Permutation)
    requires
        perm_valid(perm@),
    ensures
        r@ == spec_invert(perm@),
        perm_valid(r@),
        r@.len() == perm@.len(),
{
    let n = perm.mapping.len();
    let mut mapping: Vec<usize> = Vec::new();
    let mut i: usize = 0;
    proof {
        lemma_invert_valid(perm@);
    }
    while i < n
        invariant
            i <= n,
            n == perm@.len(),
            perm_valid(perm@),
            mapping@.len() == i,
            forall|k: int| 0 <= k < i ==> #[trigger] mapping@[k] == spec_invert(perm@)[k],
        decreases n - i,
    {
        let j = find_preimage(perm, i + 1);
        proof {
            lemma_invert_valid(perm@);
            assert(perm@[spec_invert(perm@)[i as int] - 1] == i + 1);
            assert(perm@[j as int] == perm@[spec_invert(perm@)[i as int] - 1]);
            assert(j + 1 == spec_invert(perm@)[i as int]);
        }
        mapping.push(j + 1);
        i = i + 1;
    }
    proof {
        assert(mapping@ =~= spec_invert(perm@));
        lemma_invert_valid(perm@);
    }
    Permutation { mapping }
}

} // verus!
