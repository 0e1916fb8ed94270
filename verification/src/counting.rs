use vstd::prelude::*;

use vstd::arithmetic::power::pow;

verus! {

/// All entries of the sequence lie in `{1, ..., n}`.
pub open spec fn entries_in_range(s: Seq<usize>, n: nat) -> bool {
    forall|i: int| 0 <= i < s.len() ==> 1 <= #[trigger] s[i] <= n
}

/// Reads a sequence over `{1, ..., n}` as a number written in base `n`
/// with digits `s[i] - 1`; distinct sequences of one length get distinct
/// numbers, which bounds how many such sequences there are.
pub open spec fn encode(s: Seq<usize>, n: nat) -> int
    decreases s.len(),
{
    if s.len() == 0 {
        0
    } else {
        (s[0] - 1) + n * encode(s.drop_first(), n)
    }
}

pub proof fn lemma_encode_bounds(s: Seq<usize>, n: nat)
    requires
        entries_in_range(s, n),
    ensures
        0 <= encode(s, n) < pow(n as int, s.len()),
    decreases s.len(),
{
    reveal(pow);
    if s.len() == 0 {
    } else {
        let rest = s.drop_first();
        assert(entries_in_range(rest, n)) by {
            assert forall|i: int| 0 <= i < rest.len() implies 1 <= #[trigger] rest[i] <= n by {
                assert(rest[i] == s[i + 1]);
            }
        }
        lemma_encode_bounds(rest, n);
        let a = s[0] - 1;
        let e1 = encode(rest, n);
        let p1 = pow(n as int, rest.len());
        assert(1 <= s[0] <= n);
        assert(pow(n as int, s.len()) == n * p1);
        assert(0 <= a + n * e1 && a + n * e1 < n * p1) by (nonlinear_arith)
            requires
                0 <= a,
                a < n,
                0 <= e1,
                e1 < p1,
        ;
    }
}

pub proof fn lemma_encode_injective(s: Seq<usize>, t: Seq<usize>, n: nat)
    requires
        s.len() == t.len(),
        entries_in_range(s, n),
        entries_in_range(t, n),
        encode(s, n) == encode(t, n),
    ensures
        s == t,
    decreases s.len(),
{
    if s.len() == 0 {
        assert(s =~= t);
    } else {
        let srest = s.drop_first();
        let trest = t.drop_first();
        assert(entries_in_range(srest, n) && entries_in_range(trest, n)) by {
            assert forall|i: int| 0 <= i < srest.len() implies 1 <= #[trigger] srest[i] <= n by {
                assert(srest[i] == s[i + 1]);
            }
            assert forall|i: int| 0 <= i < trest.len() implies 1 <= #[trigger] trest[i] <= n by {
                assert(trest[i] == t[i + 1]);
            }
        }
        lemma_encode_bounds(srest, n);
        lemma_encode_bounds(trest, n);
        let a = s[0] - 1;
        let c = t[0] - 1;
        let b = encode(srest, n);
        let d = encode(trest, n);
        assert(a + n * b == c + n * d);
        assert(a == c && b == d) by (nonlinear_arith)
            requires
                a + n * b == c + n * d,
                0 <= a,
                a < n,
                0 <= c,
                c < n,
                0 <= b,
                0 <= d,
        ;
        lemma_encode_injective(srest, trest, n);
        assert forall|i: int| 0 <= i < s.len() implies s[i] == t[i] by {
            if i > 0 {
                assert(srest[i - 1] == s[i]);
                assert(trest[i - 1] == t[i]);
            }
        }
        assert(s =~= t);
    }
}

/// There are at most `n^n` distinct sequences of length `n` over the
/// alphabet `{1, ..., n}`; in particular at most `n^n` permutations of
/// degree `n`.
pub proof fn lemma_distinct_seqs_bound(s: Set<Seq<usize>>, n: nat)
    requires
        s.finite(),
        forall|p: Seq<usize>| s.contains(p) ==> p.len() == n && entries_in_range(p, n),
    ensures
        s.len() <= pow(n as int, n),
{
    let f = |p: Seq<usize>| encode(p, n);
    assert(vstd::relations::injective_on(f, s)) by {
        assert forall|x1: Seq<usize>, x2: Seq<usize>|
            s.contains(x1) && s.contains(x2) && #[trigger] f(x1) == #[trigger] f(x2) implies x1
            == x2 by {
            lemma_encode_injective(x1, x2, n);
        }
    }
    let img = s.map(f);
    vstd::set_lib::lemma_map_size(s, img, f);
    let range = vstd::set_lib::set_int_range(0, pow(n as int, n));
    assert forall|e: int| img.contains(e) implies range.contains(e) by {
        let p = choose|p: Seq<usize>| s.contains(p) && e == f(p);
        lemma_encode_bounds(p, n);
    }
    if n == 0 {
        reveal(pow);
    } else {
        vstd::arithmetic::power::lemma_pow_positive(n as int, n);
    }
    vstd::set_lib::lemma_int_range(0, pow(n as int, n));
    vstd::set_lib::lemma_len_subset(img, range);
}

} // verus!
