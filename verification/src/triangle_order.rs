//! The boundary of a triangle list does not depend on the order of the
//! triangles or of their corners.
use vstd::prelude::*;
use crate::keys::{count_in, lemma_count_concat};
use crate::mesh_2d::{all_edges, edge_count, is_boundary_edge, is_boundary_node, triangle_edges};

verus! {

broadcast use vstd::seq_lib::group_to_multiset_ensures;

/// `b` holds the corners of `a` in another order: a rotation of `a`,
/// possibly reversed.
pub open spec fn same_corners(a: [usize; 3], b: [usize; 3]) -> bool {
    ||| (b[0] == a[0] && b[1] == a[1] && b[2] == a[2])
    ||| (b[0] == a[1] && b[1] == a[2] && b[2] == a[0])
    ||| (b[0] == a[2] && b[1] == a[0] && b[2] == a[1])
    ||| (b[0] == a[0] && b[1] == a[2] && b[2] == a[1])
    ||| (b[0] == a[2] && b[1] == a[1] && b[2] == a[0])
    ||| (b[0] == a[1] && b[1] == a[0] && b[2] == a[2])
}

/// `tris2` lists the triangles of `tris` in some order, each with its
/// corners in some order.
pub open spec fn same_triangles(tris: Seq<[usize; 3]>, tris2: Seq<[usize; 3]>) -> bool {
    exists|mid: Seq<[usize; 3]>|
        #![trigger mid.to_multiset()]
        mid.to_multiset() == tris.to_multiset() && mid.len() == tris2.len() && forall|k: int|
            0 <= k < mid.len() ==> same_corners(#[trigger] mid[k], tris2[k])
}

proof fn lemma_count_three<A>(s: Seq<A>, x: A)
    requires
        s.len() == 3,
    ensures
        count_in(s, x) == (if s[0] == x { 1int } else { 0 }) + (if s[1] == x { 1int } else { 0 })
            + (if s[2] == x { 1int } else { 0 }),
{
    let s2 = s.drop_last();
    let s1 = s2.drop_last();
    let s0 = s1.drop_last();
    assert(s0.len() == 0);
    assert(count_in(s0, x) == 0);
    assert(count_in(s1, x) == count_in(s0, x) + if s1.last() == x { 1nat } else { 0nat });
    assert(count_in(s2, x) == count_in(s1, x) + if s2.last() == x { 1nat } else { 0nat });
    assert(count_in(s, x) == count_in(s2, x) + if s.last() == x { 1nat } else { 0nat });
}

proof fn lemma_corner_order_edges(a: [usize; 3], b: [usize; 3], e: (usize, usize))
    requires
        same_corners(a, b),
    ensures
        count_in(triangle_edges(a), e) == count_in(triangle_edges(b), e),
{
    lemma_count_three(triangle_edges(a), e);
    lemma_count_three(triangle_edges(b), e);
}

proof fn lemma_all_edges_concat(a: Seq<[usize; 3]>, b: Seq<[usize; 3]>)
    ensures
        all_edges(a + b) == all_edges(a) + all_edges(b),
    decreases b.len(),
{
    if b.len() == 0 {
        assert(a + b =~= a);
        assert(all_edges(a) + all_edges(b) =~= all_edges(a));
    } else {
        lemma_all_edges_concat(a, b.drop_last());
        assert((a + b).drop_last() =~= a + b.drop_last());
        assert((a + b).last() == b.last());
        assert(all_edges(a + b) =~= all_edges(a) + all_edges(b));
    }
}

proof fn lemma_edge_count_corners(tris: Seq<[usize; 3]>, tris2: Seq<[usize; 3]>, e: (usize, usize))
    requires
        tris.len() == tris2.len(),
        forall|k: int| 0 <= k < tris.len() ==> same_corners(#[trigger] tris[k], tris2[k]),
    ensures
        edge_count(tris2, e) == edge_count(tris, e),
    decreases tris.len(),
{
    if tris.len() > 0 {
        lemma_edge_count_corners(tris.drop_last(), tris2.drop_last(), e);
        assert(same_corners(tris[tris.len() - 1], tris2[tris.len() - 1]));
        lemma_corner_order_edges(tris.last(), tris2.last(), e);
        lemma_count_concat(all_edges(tris.drop_last()), triangle_edges(tris.last()), e);
        lemma_count_concat(all_edges(tris2.drop_last()), triangle_edges(tris2.last()), e);
    }
}

proof fn lemma_edge_count_reorder(tris: Seq<[usize; 3]>, tris2: Seq<[usize; 3]>, e: (usize, usize))
    requires
        tris2.to_multiset() == tris.to_multiset(),
    ensures
        edge_count(tris2, e) == edge_count(tris, e),
    decreases tris.len(),
{
    broadcast use vstd::multiset::group_multiset_axioms;

    if tris.len() == 0 {
        vstd::seq_lib::to_multiset_len(tris);
        vstd::seq_lib::to_multiset_len(tris2);
        assert(tris2.len() == 0);
        assert(all_edges(tris2) =~= Seq::<(usize, usize)>::empty());
    } else {
        let x = tris.last();
        let d = tris.drop_last();
        assert(tris =~= d.push(x));
        assert(tris.contains(x)) by {
            assert(tris[tris.len() - 1] == x);
        }
        assert(tris2.to_multiset().count(x) > 0);
        assert(tris2.contains(x));
        let k = choose|k: int| 0 <= k < tris2.len() && tris2[k] == x;
        let r = tris2.remove(k);
        assert(r.to_multiset() =~= d.to_multiset()) by {
            assert(r.to_multiset() == tris2.to_multiset().remove(x));
            assert(tris.to_multiset() == d.to_multiset().insert(x));
        }
        lemma_edge_count_reorder(d, r, e);
        let p = tris2.take(k);
        let q = tris2.skip(k + 1);
        assert(r =~= p + q);
        assert(tris2 =~= p.push(x) + q);
        lemma_all_edges_concat(p.push(x), q);
        lemma_all_edges_concat(p, q);
        assert(p.push(x).drop_last() =~= p);
        lemma_count_concat(all_edges(p.push(x)), all_edges(q), e);
        lemma_count_concat(all_edges(p), triangle_edges(x), e);
        lemma_count_concat(all_edges(p), all_edges(q), e);
        lemma_count_concat(all_edges(d), triangle_edges(x), e);
    }
}

/// The boundary does not depend on how the triangles are listed: listing
/// them in another order, each with its corners rotated or reversed, gives
/// the same boundary edges and the same boundary nodes.
pub proof fn lemma_boundary_independent_of_order(tris: Seq<[usize; 3]>, tris2: Seq<[usize; 3]>)
    requires
        same_triangles(tris, tris2),
    ensures
        forall|e: (usize, usize)| is_boundary_edge(tris2, e) <==> is_boundary_edge(tris, e),
        forall|n: usize| is_boundary_node(tris2, n) <==> is_boundary_node(tris, n),
{
    let mid = choose|mid: Seq<[usize; 3]>|
        #![trigger mid.to_multiset()]
        mid.to_multiset() == tris.to_multiset() && mid.len() == tris2.len() && forall|k: int|
            0 <= k < mid.len() ==> same_corners(#[trigger] mid[k], tris2[k]);
    assert forall|e: (usize, usize)| edge_count(tris2, e) == edge_count(tris, e) by {
        lemma_edge_count_reorder(tris, mid, e);
        lemma_edge_count_corners(mid, tris2, e);
    }
    assert forall|n: usize| is_boundary_node(tris2, n) <==> is_boundary_node(tris, n) by {
        if is_boundary_node(tris2, n) {
            let e = choose|e: (usize, usize)| #[trigger] is_boundary_edge(tris2, e) && (e.0 == n || e.1 == n);
            assert(is_boundary_edge(tris, e));
        }
        if is_boundary_node(tris, n) {
            let e = choose|e: (usize, usize)| #[trigger] is_boundary_edge(tris, e) && (e.0 == n || e.1 == n);
            assert(is_boundary_edge(tris2, e));
        }
    }
}

} // verus!
