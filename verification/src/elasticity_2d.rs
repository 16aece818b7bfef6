//! Degree-of-freedom layout of 2D plane-stress elasticity on P1 triangles.
//!
//! `2 * k` is the x-displacement of node `k` and `2 * k + 1` its
//! y-displacement; a mesh of `N` nodes has `2 * N` degrees of freedom.
use vstd::prelude::*;

verus! {

/// The degrees of freedom of `node`: `[u_x, u_y]`.
pub open spec fn node_dof_pair(node: usize) -> [int; 2] {
    [2 * node, 2 * node + 1]
}

/// The per-node pairs of a flat displacement vector; a trailing odd entry
/// is dropped.
pub open spec fn pairs_of<T>(u: Seq<T>) -> Seq<[T; 2]> {
    Seq::new(u.len() / 2, |k: int| [u[2 * k], u[2 * k + 1]])
}

/// The degrees of freedom of `node`, x then y.
pub fn node_dofs(node: usize) -> (r: [usize; 2])
    requires
        2 * node + 1 <= usize::MAX,
    ensures
        r[0] == node_dof_pair(node)[0],
        r[1] == node_dof_pair(node)[1],
{
    [2 * node, 2 * node + 1]
}

/// The six degrees of freedom of a triangle, in the order
/// `[u_x0, u_y0, u_x1, u_y1, u_x2, u_y2]`.
pub fn element_dofs(tri: [usize; 3]) -> (r: [usize; 6])
    requires
        forall|a: int| 0 <= a < 3 ==> 2 * tri[a] + 1 <= usize::MAX,
    ensures
        forall|a: int|
            0 <= a < 3 ==> r[2 * a] == node_dof_pair(tri[a])[0] && r[2 * a + 1] == node_dof_pair(
                tri[a],
            )[1],
{
    assert(2 * tri[0] + 1 <= usize::MAX);
    assert(2 * tri[1] + 1 <= usize::MAX);
    assert(2 * tri[2] + 1 <= usize::MAX);
    let d0 = node_dofs(tri[0]);
    let d1 = node_dofs(tri[1]);
    let d2 = node_dofs(tri[2]);
    [d0[0], d0[1], d1[0], d1[1], d2[0], d2[1]]
}

/// Reshapes a flat displacement vector into per-node `[u_x, u_y]` pairs.
pub fn displacement_to_pairs<T: Copy>(u: &[T]) -> (r: Vec<[T; 2]>)
    ensures
        r@ == pairs_of(u@),
{
    let mut out: Vec<[T; 2]> = Vec::new();
    let n = u.len();
    let half = n / 2;
    let mut k: usize = 0;
    while k < half
        invariant
            n == u@.len(),
            half == n / 2,
            k <= half,
            out@ == pairs_of(u@).take(k as int),
        decreases half - k,
    {
        out.push([u[2 * k], u[2 * k + 1]]);
        k += 1;
        assert(out@ =~= pairs_of(u@).take(k as int));
    }
    assert(pairs_of(u@).take(k as int) =~= pairs_of(u@));
    out
}

/// Gathering a triangle's degrees of freedom from a flat displacement
/// vector reads the displacement pairs of its nodes.
pub proof fn lemma_element_dofs_read_node_pairs<T>(u: Seq<T>, tri: [usize; 3], a: int)
    requires
        0 <= a < 3,
        tri[a] < u.len() / 2,
    ensures
        u[node_dof_pair(tri[a])[0]] == pairs_of(u)[tri[a] as int][0],
        u[node_dof_pair(tri[a])[1]] == pairs_of(u)[tri[a] as int][1],
{
}

} // verus!
