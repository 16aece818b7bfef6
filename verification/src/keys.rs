//! Sorting of integer keys, counting in sequences, and the packing of a pair
//! of indices into one `u128` key whose numeric order is the lexicographic
//! order of the pair.
use vstd::multiset::Multiset;
use vstd::prelude::*;

verus! {

broadcast use vstd::seq_lib::group_to_multiset_ensures;

/// 2^64: every `usize` is below it.
pub open spec fn pair_base() -> int {
    0x1_0000_0000_0000_0000
}

/// The key of the pair `(a, b)`.
pub open spec fn pack(a: usize, b: usize) -> int {
    a * pair_base() + b
}

/// Lexicographic order on pairs of indices.
pub open spec fn pair_lt(x: (usize, usize), y: (usize, usize)) -> bool {
    x.0 < y.0 || (x.0 == y.0 && x.1 < y.1)
}

pub proof fn lemma_pack_order(x: (usize, usize), y: (usize, usize))
    ensures
        pack(x.0, x.1) < pack(y.0, y.1) <==> pair_lt(x, y),
        pack(x.0, x.1) == pack(y.0, y.1) <==> x == y,
        0 <= pack(x.0, x.1) < pair_base() * pair_base(),
{
    assert(x.1 < pair_base() && y.1 < pair_base());
    assert(x.0 < pair_base());
    if x.0 < y.0 {
        assert(x.0 * pair_base() + pair_base() <= y.0 * pair_base()) by (nonlinear_arith)
            requires
                x.0 < y.0,
        ;
    } else if x.0 > y.0 {
        assert(y.0 * pair_base() + pair_base() <= x.0 * pair_base()) by (nonlinear_arith)
            requires
                y.0 < x.0,
        ;
    }
    assert(x.0 * pair_base() <= (pair_base() - 1) * pair_base()) by (nonlinear_arith)
        requires
            x.0 < pair_base(),
    ;
}

pub proof fn lemma_unpack(a: usize, b: usize)
    ensures
        pack(a, b) / pair_base() == a,
        pack(a, b) % pair_base() == b,
{
    assert(b < pair_base());
    vstd::arithmetic::div_mod::lemma_fundamental_div_mod_converse(
        pack(a, b),
        pair_base(),
        a as int,
        b as int,
    );
}

/// The key of the pair `(a, b)`.
pub fn pack_pair(a: usize, b: usize) -> (k: u128)
    ensures
        k == pack(a, b),
{
    proof {
        lemma_pack_order((a, b), (a, b));
    }
    (a as u128) * 0x1_0000_0000_0000_0000u128 + (b as u128)
}

/// The pair whose key is `k`.
pub fn unpack_pair(k: u128) -> (p: (usize, usize))
    requires
        exists|a: usize, b: usize| pack(a, b) == k,
    ensures
        pack(p.0, p.1) == k,
{
    let ghost (a, b) = choose|a: usize, b: usize| pack(a, b) == k;
    proof {
        lemma_unpack(a, b);
    }
    let hi = k / 0x1_0000_0000_0000_0000u128;
    let lo = k % 0x1_0000_0000_0000_0000u128;
    (hi as usize, lo as usize)
}

/// Non-decreasing order.
pub open spec fn is_sorted(s: Seq<u128>) -> bool {
    forall|i: int, j: int| 0 <= i <= j < s.len() ==> s[i] <= s[j]
}

/// Strictly increasing order.
pub open spec fn is_increasing(s: Seq<u128>) -> bool {
    forall|i: int, j: int| 0 <= i < j < s.len() ==> s[i] < s[j]
}

/// Sorts `v` in place with `slice::sort_unstable`: the result is in
/// non-decreasing order and holds the same keys, each as often as before.
#[verifier::external_body]
pub(crate) fn sort_keys(v: &mut Vec<u128>)
    ensures
        final(v)@.len() == old(v)@.len(),
        final(v)@.to_multiset() == old(v)@.to_multiset(),
        is_sorted(final(v)@),
{
    v.sort_unstable();
}

/// How often `x` occurs in `s`.
pub open spec fn count_in<A>(s: Seq<A>, x: A) -> nat
    decreases s.len(),
{
    if s.len() == 0 {
        0
    } else {
        count_in(s.drop_last(), x) + if s.last() == x {
            1nat
        } else {
            0nat
        }
    }
}

pub proof fn lemma_count_in_multiset<A>(s: Seq<A>, x: A)
    ensures
        count_in(s, x) == s.to_multiset().count(x),
    decreases s.len(),
{
    broadcast use vstd::multiset::group_multiset_axioms;

    if s.len() > 0 {
        lemma_count_in_multiset(s.drop_last(), x);
        assert(s.drop_last().push(s.last()) =~= s);
        vstd::seq_lib::to_multiset_build(s.drop_last(), s.last());
    } else {
        assert(s.to_multiset() =~= Multiset::<A>::empty());
    }
}

pub proof fn lemma_count_concat<A>(a: Seq<A>, b: Seq<A>, x: A)
    ensures
        count_in(a + b, x) == count_in(a, x) + count_in(b, x),
    decreases b.len(),
{
    if b.len() == 0 {
        assert(a + b =~= a);
    } else {
        lemma_count_concat(a, b.drop_last(), x);
        assert((a + b).drop_last() =~= a + b.drop_last());
    }
}

pub proof fn lemma_count_absent<A>(s: Seq<A>, x: A)
    requires
        forall|i: int| 0 <= i < s.len() ==> s[i] != x,
    ensures
        count_in(s, x) == 0,
    decreases s.len(),
{
    if s.len() > 0 {
        lemma_count_absent(s.drop_last(), x);
    }
}

pub proof fn lemma_count_constant<A>(s: Seq<A>, x: A)
    requires
        forall|i: int| 0 <= i < s.len() ==> s[i] == x,
    ensures
        count_in(s, x) == s.len(),
    decreases s.len(),
{
    if s.len() > 0 {
        lemma_count_constant(s.drop_last(), x);
    }
}

pub proof fn lemma_count_contains<A>(s: Seq<A>, x: A)
    ensures
        count_in(s, x) > 0 <==> s.contains(x),
    decreases s.len(),
{
    if s.len() > 0 {
        lemma_count_contains(s.drop_last(), x);
        if s.drop_last().contains(x) {
            let i = choose|i: int| 0 <= i < s.drop_last().len() && s.drop_last()[i] == x;
            assert(s[i] == x);
        }
        if s.contains(x) && s.last() != x {
            let i = choose|i: int| 0 <= i < s.len() && s[i] == x;
            assert(s.drop_last()[i] == x);
        }
    }
}

/// Counting through an injective map.
pub proof fn lemma_count_map_injective<A, B>(s: Seq<A>, f: spec_fn(A) -> B, x: A)
    requires
        forall|p: A, q: A| #[trigger] f(p) == #[trigger] f(q) ==> p == q,
    ensures
        count_in(s.map_values(f), f(x)) == count_in(s, x),
    decreases s.len(),
{
    if s.len() > 0 {
        lemma_count_map_injective(s.drop_last(), f, x);
        assert(s.map_values(f).drop_last() =~= s.drop_last().map_values(f));
    }
}

/// In a sorted sequence, a maximal run of equal keys holds every occurrence
/// of its key.
pub proof fn lemma_sorted_run_count(s: Seq<u128>, p: int, q: int)
    requires
        is_sorted(s),
        0 <= p < q <= s.len(),
        forall|k: int| p <= k < q ==> s[k] == s[p],
        p == 0 || s[p - 1] != s[p],
        q == s.len() || s[q] != s[p],
    ensures
        count_in(s, s[p]) == q - p,
{
    let v = s[p];
    let a = s.take(p);
    let m = s.subrange(p, q);
    let b = s.skip(q);
    assert(s =~= a + m + b);
    lemma_count_concat(a + m, b, v);
    lemma_count_concat(a, m, v);
    assert forall|i: int| 0 <= i < a.len() implies a[i] != v by {
        assert(s[i] <= s[p - 1]);
    }
    lemma_count_absent(a, v);
    assert forall|i: int| 0 <= i < b.len() implies b[i] != v by {
        assert(s[q] <= s[q + i]);
    }
    lemma_count_absent(b, v);
    lemma_count_constant(m, v);
}

/// The distinct keys of a sorted sequence, in increasing order.
pub fn distinct_sorted(s: &Vec<u128>) -> (r: Vec<u128>)
    requires
        is_sorted(s@),
    ensures
        is_increasing(r@),
        forall|x: u128| r@.contains(x) <==> s@.contains(x),
{
    let mut out: Vec<u128> = Vec::new();
    let mut p: usize = 0;
    while p < s.len()
        invariant
            p <= s.len(),
            is_sorted(s@),
            is_increasing(out@),
            p > 0 ==> out@.len() > 0 && out@.last() == s@[p - 1],
            p == 0 ==> out@.len() == 0,
            forall|x: u128| out@.contains(x) <==> s@.take(p as int).contains(x),
        decreases s.len() - p,
    {
        let ghost old_out = out@;
        let ghost tq = s@.take(p + 1);
        if p == 0 || s[p] != s[p - 1] {
            out.push(s[p]);
            assert forall|x: u128| out@.contains(x) <==> tq.contains(x) by {
                if tq.contains(x) {
                    let i = choose|i: int| 0 <= i < p + 1 && tq[i] == x;
                    if i < p {
                        assert(s@.take(p as int)[i] == x);
                        assert(old_out.contains(x));
                        let j = choose|j: int| 0 <= j < old_out.len() && old_out[j] == x;
                        assert(out@[j] == x);
                    } else {
                        assert(out@[out@.len() - 1] == x);
                    }
                }
                if out@.contains(x) {
                    let j = choose|j: int| 0 <= j < out@.len() && out@[j] == x;
                    if j < old_out.len() {
                        assert(old_out[j] == x);
                        assert(old_out.contains(x));
                        assert(s@.take(p as int).contains(x));
                        let i = choose|i: int| 0 <= i < p && s@.take(p as int)[i] == x;
                        assert(tq[i] == x);
                    } else {
                        assert(tq[p as int] == x);
                    }
                }
            }
        } else {
            assert forall|x: u128| out@.contains(x) <==> tq.contains(x) by {
                if tq.contains(x) {
                    let i = choose|i: int| 0 <= i < p + 1 && tq[i] == x;
                    if i < p {
                        assert(s@.take(p as int)[i] == x);
                    } else {
                        assert(out@[out@.len() - 1] == x);
                    }
                }
                if out@.contains(x) {
                    let i = choose|i: int| 0 <= i < p && s@.take(p as int)[i] == x;
                    assert(tq[i] == x);
                }
            }
        }
        assert(tq == s@.take(p + 1));
        p += 1;
    }
    assert(s@.take(p as int) =~= s@);
    out
}

/// The keys that occur exactly once in a sorted sequence, in increasing order.
pub fn single_sorted(s: &Vec<u128>) -> (r: Vec<u128>)
    requires
        is_sorted(s@),
    ensures
        is_increasing(r@),
        forall|x: u128| r@.contains(x) <==> count_in(s@, x) == 1,
{
    let mut out: Vec<u128> = Vec::new();
    let mut p: usize = 0;
    while p < s.len()
        invariant
            p <= s.len(),
            is_sorted(s@),
            is_increasing(out@),
            p == 0 || p == s.len() || s@[p - 1] != s@[p as int],
            forall|i: int| 0 <= i < out@.len() ==> s@.take(p as int).contains(#[trigger] out@[i]),
            forall|x: u128|
                out@.contains(x) <==> (count_in(s@, x) == 1 && s@.take(p as int).contains(x)),
        decreases s.len() - p,
    {
        let mut q = p + 1;
        while q < s.len() && s[q] == s[p]
            invariant
                p < q <= s.len(),
                forall|k: int| p <= k < q ==> s@[k] == s@[p as int],
            decreases s.len() - q,
        {
            q += 1;
        }
        proof {
            lemma_sorted_run_count(s@, p as int, q as int);
        }
        let ghost old_out = out@;
        let v = s[p];
        assert forall|y: u128| s@.take(q as int).contains(y) <==> (s@.take(p as int).contains(y)
            || y == v) by {
            if s@.take(q as int).contains(y) {
                let i = choose|i: int| 0 <= i < q && s@.take(q as int)[i] == y;
                if i < p {
                    assert(s@.take(p as int)[i] == y);
                }
            }
            if s@.take(p as int).contains(y) {
                let i = choose|i: int| 0 <= i < p && s@.take(p as int)[i] == y;
                assert(s@.take(q as int)[i] == y);
            }
            if y == v {
                assert(s@.take(q as int)[p as int] == y);
            }
        }
        assert forall|y: u128| #[trigger] s@.take(p as int).contains(y) implies y < v by {
            let i = choose|i: int| 0 <= i < p && s@.take(p as int)[i] == y;
            assert(s@[i] <= s@[p - 1]);
        }
        if q - p == 1 {
            out.push(v);
            assert forall|i: int, j: int| 0 <= i < j < out@.len() implies out@[i] < out@[j] by {
                if j == out@.len() - 1 {
                    assert(s@.take(p as int).contains(old_out[i]));
                }
            }
            assert forall|x: u128|
                out@.contains(x) <==> (count_in(s@, x) == 1 && s@.take(q as int).contains(x)) by {
                if out@.contains(x) {
                    let j = choose|j: int| 0 <= j < out@.len() && out@[j] == x;
                    if j < old_out.len() {
                        assert(old_out[j] == x);
                    }
                }
                if count_in(s@, x) == 1 && s@.take(q as int).contains(x) {
                    if x == v {
                        assert(out@[out@.len() - 1] == x);
                    } else {
                        let j = choose|j: int| 0 <= j < old_out.len() && old_out[j] == x;
                        assert(out@[j] == x);
                    }
                }
            }
        } else {
            assert forall|x: u128|
                out@.contains(x) <==> (count_in(s@, x) == 1 && s@.take(q as int).contains(x)) by {
                if out@.contains(x) {
                    assert(x < v);
                }
            }
        }
        assert forall|i: int| 0 <= i < out@.len() implies s@.take(q as int).contains(
            #[trigger] out@[i],
        ) by {
            if i < old_out.len() {
                assert(s@.take(p as int).contains(old_out[i]));
            }
        }
        p = q;
    }
    assert(s@.take(p as int) =~= s@);
    assert forall|x: u128| count_in(s@, x) == 1 implies s@.contains(x) by {
        lemma_count_contains(s@, x);
    }
    out
}

} // verus!
