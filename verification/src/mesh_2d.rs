//! Triangular meshes: node list, triangle connectivity and boundary nodes.
//!
//! The node type `P` is a parameter: the topology below never reads a
//! coordinate. A mesh read from a file holds the coordinate fields as text,
//! a mesh that will be solved on holds points of the plane.
use vstd::prelude::*;
use crate::grid::{grid_triangles, lemma_grid_boundary};
use crate::keys::{
    count_in, is_increasing, lemma_count_contains, lemma_count_in_multiset, lemma_count_map_injective,
    lemma_pack_order, pack, pack_pair, pair_lt, single_sorted, sort_keys, unpack_pair,
};

verus! {

broadcast use vstd::seq_lib::group_to_multiset_ensures;

/// 2D triangular mesh.
///
/// `nodes[i]` is node `i`; `triangles[t]` holds the node indices of triangle
/// `t` (counter-clockwise orientation expected); `boundary_nodes` lists the
/// node indices on the domain boundary, where Dirichlet conditions go.
#[derive(Clone, Debug)]
pub struct Mesh2D<P> {
    pub nodes: Vec<P>,
    pub triangles: Vec<[usize; 3]>,
    pub boundary_nodes: Vec<usize>,
}

/// Every triangle refers to nodes `0 .. n`.
pub open spec fn triangles_within(tris: Seq<[usize; 3]>, n: int) -> bool {
    forall|t: int, k: int| 0 <= t < tris.len() && 0 <= k < 3 ==> #[trigger] tris[t][k] < n
}

/// An edge as `(smaller, larger)` node index.
pub open spec fn edge_key(a: usize, b: usize) -> (usize, usize) {
    if a < b {
        (a, b)
    } else {
        (b, a)
    }
}

/// The three edges of a triangle, in the order of its sides.
pub open spec fn triangle_edges(t: [usize; 3]) -> Seq<(usize, usize)> {
    seq![edge_key(t[0], t[1]), edge_key(t[1], t[2]), edge_key(t[2], t[0])]
}

/// The edges of all triangles, three per triangle, with repetitions.
pub open spec fn all_edges(tris: Seq<[usize; 3]>) -> Seq<(usize, usize)>
    decreases tris.len(),
{
    if tris.len() == 0 {
        Seq::empty()
    } else {
        all_edges(tris.drop_last()) + triangle_edges(tris.last())
    }
}

/// In how many triangles the edge `e` occurs.
pub open spec fn edge_count(tris: Seq<[usize; 3]>, e: (usize, usize)) -> nat {
    count_in(all_edges(tris), e)
}

/// A boundary edge belongs to exactly one triangle.
pub open spec fn is_boundary_edge(tris: Seq<[usize; 3]>, e: (usize, usize)) -> bool {
    edge_count(tris, e) == 1
}

/// A boundary node is an end of a boundary edge.
pub open spec fn is_boundary_node(tris: Seq<[usize; 3]>, n: usize) -> bool {
    exists|e: (usize, usize)| #[trigger] is_boundary_edge(tris, e) && (e.0 == n || e.1 == n)
}

/// No triangle repeats a node.
pub open spec fn nondegenerate(tris: Seq<[usize; 3]>) -> bool {
    forall|t: int|
        0 <= t < tris.len() ==> #[trigger] tris[t][0] != tris[t][1] && tris[t][1] != tris[t][2]
            && tris[t][2] != tris[t][0]
}

/// Strictly increasing in lexicographic order.
pub open spec fn pairs_increasing(s: Seq<(usize, usize)>) -> bool {
    forall|i: int, j: int| 0 <= i < j < s.len() ==> pair_lt(s[i], s[j])
}

/// Strictly increasing.
pub open spec fn indices_increasing(s: Seq<usize>) -> bool {
    forall|i: int, j: int| 0 <= i < j < s.len() ==> s[i] < s[j]
}

pub open spec fn pack_edge() -> spec_fn((usize, usize)) -> u128 {
    |e: (usize, usize)| pack(e.0, e.1) as u128
}

pub proof fn lemma_all_edges_take(tris: Seq<[usize; 3]>, i: int)
    requires
        0 <= i < tris.len(),
    ensures
        all_edges(tris.take(i + 1)) == all_edges(tris.take(i)) + triangle_edges(tris[i]),
{
    assert(tris.take(i + 1).drop_last() =~= tris.take(i));
}

pub proof fn lemma_all_edges_ordered(tris: Seq<[usize; 3]>)
    ensures
        forall|k: int| 0 <= k < all_edges(tris).len() ==> #[trigger] all_edges(tris)[k].0
            <= all_edges(tris)[k].1,
        nondegenerate(tris) ==> forall|k: int|
            0 <= k < all_edges(tris).len() ==> #[trigger] all_edges(tris)[k].0 < all_edges(
                tris,
            )[k].1,
        all_edges(tris).len() == 3 * tris.len(),
    decreases tris.len(),
{
    if tris.len() > 0 {
        lemma_all_edges_ordered(tris.drop_last());
        let a = all_edges(tris.drop_last());
        let b = triangle_edges(tris.last());
        assert forall|k: int| 0 <= k < all_edges(tris).len() implies #[trigger] all_edges(
            tris,
        )[k].0 <= all_edges(tris)[k].1 by {
            if k < a.len() {
                assert(all_edges(tris)[k] == a[k]);
            } else {
                assert(all_edges(tris)[k] == b[k - a.len()]);
            }
        }
        if nondegenerate(tris) {
            assert(nondegenerate(tris.drop_last())) by {
                assert forall|t: int| 0 <= t < tris.drop_last().len() implies #[trigger] tris.drop_last()[t][0]
                    != tris.drop_last()[t][1] && tris.drop_last()[t][1] != tris.drop_last()[t][2]
                    && tris.drop_last()[t][2] != tris.drop_last()[t][0] by {
                    assert(tris.drop_last()[t] == tris[t]);
                }
            }
            let l = tris.len() - 1;
            assert(tris[l][0] != tris[l][1]);
            assert forall|k: int| 0 <= k < all_edges(tris).len() implies #[trigger] all_edges(
                tris,
            )[k].0 < all_edges(tris)[k].1 by {
                if k < a.len() {
                    assert(all_edges(tris)[k] == a[k]);
                } else {
                    assert(all_edges(tris)[k] == b[k - a.len()]);
                }
            }
        }
    }
}

/// The keys of the boundary edges, in increasing order.
fn boundary_edge_keys(tris: &[[usize; 3]]) -> (r: Vec<u128>)
    ensures
        is_increasing(r@),
        forall|x: u128|
            r@.contains(x) <==> exists|e: (usize, usize)|
                #![trigger is_boundary_edge(tris@, e)]
                x == pack(e.0, e.1) && is_boundary_edge(tris@, e),
{
    let ghost pk = pack_edge();
    let mut keys: Vec<u128> = Vec::new();
    let mut i: usize = 0;
    while i < tris.len()
        invariant
            i <= tris.len(),
            pk == pack_edge(),
            keys@ == all_edges(tris@.take(i as int)).map_values(pk),
        decreases tris.len() - i,
    {
        let t = tris[i];
        proof {
            lemma_all_edges_take(tris@, i as int);
        }
        let ghost before = keys@;
        let k0 = if t[0] < t[1] {
            pack_pair(t[0], t[1])
        } else {
            pack_pair(t[1], t[0])
        };
        let k1 = if t[1] < t[2] {
            pack_pair(t[1], t[2])
        } else {
            pack_pair(t[2], t[1])
        };
        let k2 = if t[2] < t[0] {
            pack_pair(t[2], t[0])
        } else {
            pack_pair(t[0], t[2])
        };
        keys.push(k0);
        keys.push(k1);
        keys.push(k2);
        assert(keys@ =~= all_edges(tris@.take(i + 1)).map_values(pk));
        i += 1;
    }
    assert(tris@.take(i as int) =~= tris@);
    let ghost packed = keys@;
    sort_keys(&mut keys);
    let r = single_sorted(&keys);
    proof {
        assert forall|p: (usize, usize), q: (usize, usize)| #[trigger] pk(p) == #[trigger] pk(
            q,
        ) implies p == q by {
            lemma_pack_order(p, q);
        }
        assert forall|x: u128|
            r@.contains(x) <==> exists|e: (usize, usize)|
                #![trigger is_boundary_edge(tris@, e)]
                x == pack(e.0, e.1) && is_boundary_edge(tris@, e) by {
            if r@.contains(x) {
                lemma_count_contains(keys@, x);
                assert(keys@.to_multiset().count(x) > 0);
                assert(packed.contains(x));
                let k = choose|k: int| 0 <= k < packed.len() && packed[k] == x;
                let e = all_edges(tris@)[k];
                assert(x == pk(e));
                lemma_pack_order(e, e);
                lemma_count_in_multiset(keys@, x);
                lemma_count_in_multiset(packed, x);
                lemma_count_map_injective(all_edges(tris@), pk, e);
                assert(is_boundary_edge(tris@, e));
            }
            if exists|e: (usize, usize)|
                #![trigger is_boundary_edge(tris@, e)]
                x == pack(e.0, e.1) && is_boundary_edge(tris@, e) {
                let e = choose|e: (usize, usize)|
                    #![trigger is_boundary_edge(tris@, e)]
                    x == pack(e.0, e.1) && is_boundary_edge(tris@, e);
                lemma_pack_order(e, e);
                assert(x == pk(e));
                lemma_count_in_multiset(keys@, x);
                lemma_count_in_multiset(packed, x);
                lemma_count_map_injective(all_edges(tris@), pk, e);
            }
        }
    }
    r
}

/// The boundary edges of `tris` (each in exactly one triangle), as
/// `(smaller, larger)` node pairs in increasing lexicographic order.
pub fn boundary_edge_list(tris: &[[usize; 3]]) -> (r: Vec<(usize, usize)>)
    ensures
        pairs_increasing(r@),
        forall|e: (usize, usize)| r@.contains(e) <==> is_boundary_edge(tris@, e),
        forall|i: int| 0 <= i < r@.len() ==> (#[trigger] r@[i]).0 <= r@[i].1,
        nondegenerate(tris@) ==> forall|i: int| 0 <= i < r@.len() ==> (#[trigger] r@[i]).0 < r@[i].1,
{
    let keys = boundary_edge_keys(tris);
    let mut out: Vec<(usize, usize)> = Vec::new();
    let mut i: usize = 0;
    while i < keys.len()
        invariant
            i <= keys.len(),
            is_increasing(keys@),
            forall|x: u128|
                keys@.contains(x) <==> exists|e: (usize, usize)|
                    #![trigger is_boundary_edge(tris@, e)]
                    x == pack(e.0, e.1) && is_boundary_edge(tris@, e),
            out@.len() == i,
            forall|j: int| 0 <= j < i ==> pack((#[trigger] out@[j]).0, out@[j].1) == keys@[j],
            forall|j: int| 0 <= j < i ==> is_boundary_edge(tris@, #[trigger] out@[j]),
        decreases keys.len() - i,
    {
        let k = keys[i];
        assert(keys@.contains(k));
        let e = unpack_pair(k);
        proof {
            let e2 = choose|e2: (usize, usize)|
                #![trigger is_boundary_edge(tris@, e2)]
                k == pack(e2.0, e2.1) && is_boundary_edge(tris@, e2);
            lemma_pack_order(e, e2);
        }
        out.push(e);
        i += 1;
    }
    proof {
        lemma_all_edges_ordered(tris@);
        assert forall|a: int, b: int| 0 <= a < b < out@.len() implies pair_lt(out@[a], out@[b]) by {
            lemma_pack_order(out@[a], out@[b]);
        }
        assert forall|e: (usize, usize)| out@.contains(e) <==> is_boundary_edge(tris@, e) by {
            if is_boundary_edge(tris@, e) {
                lemma_pack_order(e, e);
                assert(keys@.contains(pack(e.0, e.1) as u128));
                let j = choose|j: int| 0 <= j < keys@.len() && keys@[j] == pack(e.0, e.1) as u128;
                lemma_pack_order(out@[j], e);
                assert(out@[j] == e);
            }
        }
        assert forall|j: int| 0 <= j < out@.len() implies all_edges(tris@).contains(
            #[trigger] out@[j],
        ) by {
            assert(count_in(all_edges(tris@), out@[j]) == 1);
            lemma_count_contains(all_edges(tris@), out@[j]);
        }
    }
    out
}

pub proof fn lemma_all_edges_within(tris: Seq<[usize; 3]>, n: int)
    requires
        triangles_within(tris, n),
    ensures
        forall|k: int|
            0 <= k < all_edges(tris).len() ==> #[trigger] all_edges(tris)[k].0 < n
                && all_edges(tris)[k].1 < n,
    decreases tris.len(),
{
    if tris.len() > 0 {
        let l = tris.len() - 1;
        assert(triangles_within(tris.drop_last(), n)) by {
            assert forall|t: int, k: int| 0 <= t < tris.drop_last().len() && 0 <= k < 3 implies #[trigger] tris.drop_last()[t][k] < n by {
                assert(tris.drop_last()[t] == tris[t]);
                assert(tris[t][k] < n);
            }
        }
        lemma_all_edges_within(tris.drop_last(), n);
        assert(tris[l][0] < n && tris[l][1] < n && tris[l][2] < n);
        let a = all_edges(tris.drop_last());
        let b = triangle_edges(tris.last());
        assert forall|k: int| 0 <= k < all_edges(tris).len() implies #[trigger] all_edges(
            tris,
        )[k].0 < n && all_edges(tris)[k].1 < n by {
            if k < a.len() {
                assert(all_edges(tris)[k] == a[k]);
            } else {
                assert(all_edges(tris)[k] == b[k - a.len()]);
            }
        }
    }
}

/// Boundary nodes are nodes of the triangles.
pub proof fn lemma_boundary_node_within(tris: Seq<[usize; 3]>, n: int, v: usize)
    requires
        triangles_within(tris, n),
        is_boundary_node(tris, v),
    ensures
        v < n,
{
    let e = choose|e: (usize, usize)| #[trigger] is_boundary_edge(tris, e) && (e.0 == v || e.1 == v);
    lemma_count_contains(all_edges(tris), e);
    let k = choose|k: int| 0 <= k < all_edges(tris).len() && all_edges(tris)[k] == e;
    lemma_all_edges_within(tris, n);
}

impl<P> Mesh2D<P> {
    /// Triangles and boundary nodes refer to nodes of the mesh.
    pub open spec fn well_formed(&self) -> bool {
        &&& triangles_within(self.triangles@, self.nodes@.len() as int)
        &&& forall|k: int|
            0 <= k < self.boundary_nodes@.len() ==> #[trigger] self.boundary_nodes@[k]
                < self.nodes@.len()
    }

    pub fn num_nodes(&self) -> (n: usize)
        ensures
            n == self.nodes@.len(),
    {
        self.nodes.len()
    }

    pub fn num_triangles(&self) -> (n: usize)
        ensures
            n == self.triangles@.len(),
    {
        self.triangles.len()
    }

    /// The nodes of triangle `t`, in the order stored.
    pub fn triangle_coords(&self, t: usize) -> (r: [P; 3]) where P: Copy
        requires
            t < self.triangles@.len(),
            triangles_within(self.triangles@, self.nodes@.len() as int),
        ensures
            r[0] == self.nodes@[self.triangles@[t as int][0] as int],
            r[1] == self.nodes@[self.triangles@[t as int][1] as int],
            r[2] == self.nodes@[self.triangles@[t as int][2] as int],
    {
        let tri = self.triangles[t];
        assert(tri[0] < self.nodes@.len() && tri[1] < self.nodes@.len() && tri[2]
            < self.nodes@.len()) by {
            assert(self.triangles@[t as int][0] < self.nodes@.len());
            assert(self.triangles@[t as int][1] < self.nodes@.len());
            assert(self.triangles@[t as int][2] < self.nodes@.len());
        }
        [self.nodes[tri[0]], self.nodes[tri[1]], self.nodes[tri[2]]]
    }

    /// All edges that appear in exactly one triangle: the boundary edges,
    /// each as `(a, b)` with `a <= b` (`a < b` when no triangle repeats a
    /// node), in increasing lexicographic order.
    pub fn boundary_edges(&self) -> (r: Vec<(usize, usize)>)
        ensures
            pairs_increasing(r@),
            forall|e: (usize, usize)| r@.contains(e) <==> is_boundary_edge(self.triangles@, e),
            forall|i: int| 0 <= i < r@.len() ==> (#[trigger] r@[i]).0 <= r@[i].1,
            nondegenerate(self.triangles@) ==> forall|i: int|
                0 <= i < r@.len() ==> (#[trigger] r@[i]).0 < r@[i].1,
    {
        boundary_edge_list(self.triangles.as_slice())
    }
}

/// Node `n` is a corner of triangle `t`.
pub open spec fn has_node(t: [usize; 3], n: int) -> bool {
    t[0] == n || t[1] == n || t[2] == n
}

/// Node `n` is a corner of one of the triangles `tris[0 .. upto]`.
pub open spec fn used_before(tris: Seq<[usize; 3]>, upto: int, n: int) -> bool {
    exists|t: int| 0 <= t < upto && #[trigger] has_node(tris[t], n)
}

/// For each node `0 .. num_nodes`, whether it is a corner of some triangle
/// (a node that no triangle uses carries no unknown of its own).
pub fn nodes_in_triangles(num_nodes: usize, tris: &[[usize; 3]]) -> (r: Vec<bool>)
    requires
        triangles_within(tris@, num_nodes as int),
    ensures
        r@.len() == num_nodes,
        forall|i: int| 0 <= i < num_nodes ==> (#[trigger] r@[i] <==> used_before(tris@, tris@.len() as int, i)),
{
    let mut r: Vec<bool> = Vec::new();
    let mut i: usize = 0;
    while i < num_nodes
        invariant
            i <= num_nodes,
            r@.len() == i,
            forall|j: int| 0 <= j < i ==> !(#[trigger] r@[j]),
        decreases num_nodes - i,
    {
        r.push(false);
        i = i + 1;
    }
    let mut t: usize = 0;
    while t < tris.len()
        invariant
            t <= tris@.len(),
            r@.len() == num_nodes,
            triangles_within(tris@, num_nodes as int),
            forall|i: int| 0 <= i < num_nodes ==> (#[trigger] r@[i] <==> used_before(tris@, t as int, i)),
        decreases tris@.len() - t,
    {
        let tri = tris[t];
        assert(tri[0] < num_nodes && tri[1] < num_nodes && tri[2] < num_nodes) by {
            assert(tris@[t as int][0] < num_nodes);
            assert(tris@[t as int][1] < num_nodes);
            assert(tris@[t as int][2] < num_nodes);
        }
        let ghost before = r@;
        r.set(tri[0], true);
        r.set(tri[1], true);
        r.set(tri[2], true);
        assert forall|i: int| 0 <= i < num_nodes implies (#[trigger] r@[i] <==> used_before(tris@, t + 1, i)) by {
            assert(r@[i] == (before[i] || has_node(tris@[t as int], i)));
            if used_before(tris@, t as int, i) {
                let s = choose|s: int| 0 <= s < t && #[trigger] has_node(tris@[s], i);
                assert(has_node(tris@[s], i));
            }
            if has_node(tris@[t as int], i) {
                assert(used_before(tris@, t + 1, i));
            }
            if used_before(tris@, t + 1, i) && !has_node(tris@[t as int], i) {
                let s = choose|s: int| 0 <= s < t + 1 && #[trigger] has_node(tris@[s], i);
                assert(s < t);
                assert(used_before(tris@, t as int, i));
            }
        }
        t = t + 1;
    }
    r
}

/// The indices of the triangles that have `node` as a corner, in
/// increasing order.
pub fn triangles_with_node(tris: &[[usize; 3]], node: usize) -> (r: Vec<usize>)
    ensures
        indices_increasing(r@),
        forall|j: int| 0 <= j < r@.len() ==> #[trigger] r@[j] < tris@.len() && has_node(tris@[r@[j] as int], node as int),
        forall|t: int| 0 <= t < tris@.len() && #[trigger] has_node(tris@[t], node as int) ==> r@.contains(t as usize),
{
    let mut r: Vec<usize> = Vec::new();
    let mut t: usize = 0;
    while t < tris.len()
        invariant
            t <= tris@.len(),
            indices_increasing(r@),
            forall|j: int| 0 <= j < r@.len() ==> #[trigger] r@[j] < t && has_node(tris@[r@[j] as int], node as int),
            forall|s: int| 0 <= s < t && #[trigger] has_node(tris@[s], node as int) ==> r@.contains(s as usize),
        decreases tris@.len() - t,
    {
        let tri = tris[t];
        if tri[0] == node || tri[1] == node || tri[2] == node {
            let ghost before = r@;
            r.push(t);
            assert forall|s: int| 0 <= s < t + 1 && #[trigger] has_node(tris@[s], node as int) implies r@.contains(s as usize) by {
                if s < t {
                    let j = choose|j: int| 0 <= j < before.len() && before[j] == s as usize;
                    assert(r@[j] == s as usize);
                } else {
                    assert(r@[r@.len() - 1] == s as usize);
                }
            }
        }
        t = t + 1;
    }
    r
}

} // verus!

verus! {

/// Index of grid point `(i, j)` in a grid `nx` cells wide (row by row).
pub open spec fn grid_node(nx: int, i: int, j: int) -> int {
    j * (nx + 1) + i
}

/// Lower-right triangle of cell `c` (cells row by row, `nx` per row):
/// corners (i, j), (i+1, j), (i+1, j+1).
pub open spec fn cell_lower(nx: usize, c: int) -> [usize; 3] {
    let i = c % (nx as int);
    let j = c / (nx as int);
    [
        grid_node(nx as int, i, j) as usize,
        grid_node(nx as int, i + 1, j) as usize,
        grid_node(nx as int, i + 1, j + 1) as usize,
    ]
}

/// Upper-left triangle of cell `c`: corners (i, j), (i+1, j+1), (i, j+1).
pub open spec fn cell_upper(nx: usize, c: int) -> [usize; 3] {
    let i = c % (nx as int);
    let j = c / (nx as int);
    [
        grid_node(nx as int, i, j) as usize,
        grid_node(nx as int, i + 1, j + 1) as usize,
        grid_node(nx as int, i, j + 1) as usize,
    ]
}

/// Node `k` of an `nx` by `ny` grid lies on the outer edge of the square.
pub open spec fn on_grid_boundary(nx: usize, ny: usize, k: int) -> bool {
    let i = k % (nx + 1);
    let j = k / (nx + 1);
    i == 0 || i == nx || j == 0 || j == ny
}

/// Twice the signed area of the triangle `p0 p1 p2` (positive when
/// counter-clockwise).
pub open spec fn twice_signed_area(p0: [usize; 2], p1: [usize; 2], p2: [usize; 2]) -> int {
    (p1[0] - p0[0]) * (p2[1] - p0[1]) - (p2[0] - p0[0]) * (p1[1] - p0[1])
}

pub proof fn lemma_row_major(w: int, i: int, j: int)
    requires
        w > 0,
        0 <= i < w,
        0 <= j,
    ensures
        (j * w + i) % w == i,
        (j * w + i) / w == j,
{
    vstd::arithmetic::div_mod::lemma_fundamental_div_mod_converse(j * w + i, w, j, i);
}

pub proof fn lemma_grid_bound(nx: int, ny: int, i: int, j: int)
    requires
        0 <= i <= nx,
        0 <= j <= ny,
    ensures
        j * (nx + 1) + i < (nx + 1) * (ny + 1),
        0 <= j * (nx + 1) + i,
{
    assert(j * (nx + 1) <= ny * (nx + 1)) by (nonlinear_arith)
        requires
            0 <= j <= ny,
            0 <= nx,
    ;
    assert((nx + 1) * (ny + 1) == ny * (nx + 1) + nx + 1) by (nonlinear_arith);
    assert(0 <= j * (nx + 1)) by (nonlinear_arith)
        requires
            0 <= j,
            0 <= nx,
    ;
}

/// Structured triangular mesh of the unit square `[0, 1] x [0, 1]` with `nx`
/// by `ny` cells, each split into two counter-clockwise triangles (lower
/// right, then upper left). Node `k` is the grid point `(i, j) = (k mod
/// (nx+1), k div (nx+1))`, at `(i / nx, j / ny)` in the square; the
/// boundary nodes are the grid points on its outer edge.
pub fn unit_square(nx: usize, ny: usize) -> (m: Mesh2D<[usize; 2]>)
    requires
        nx >= 1,
        ny >= 1,
        (nx + 1) * (ny + 1) <= usize::MAX,
        2 * nx * ny <= usize::MAX,
    ensures
        m.nodes@.len() == (nx + 1) * (ny + 1),
        forall|k: int|
            0 <= k < m.nodes@.len() ==> #[trigger] m.nodes@[k] == [
                (k % (nx + 1)) as usize,
                (k / (nx + 1)) as usize,
            ],
        m.triangles@.len() == 2 * nx * ny,
        forall|c: int|
            0 <= c < nx * ny ==> #[trigger] m.triangles@[2 * c] == cell_lower(nx, c)
                && m.triangles@[2 * c + 1] == cell_upper(nx, c),
        indices_increasing(m.boundary_nodes@),
        forall|k: usize|
            m.boundary_nodes@.contains(k) <==> k < m.nodes@.len() && on_grid_boundary(
                nx,
                ny,
                k as int,
            ),
        m.well_formed(),
        m.triangles@ == grid_triangles(nx, ny),
        forall|k: usize| m.boundary_nodes@.contains(k) <==> is_boundary_node(m.triangles@, k),
        forall|t: int|
            0 <= t < m.triangles@.len() ==> twice_signed_area(
                m.nodes@[(#[trigger] m.triangles@[t])[0] as int],
                m.nodes@[m.triangles@[t][1] as int],
                m.nodes@[m.triangles@[t][2] as int],
            ) == 1,
{
    proof {
        assert(nx + 1 <= (nx + 1) * (ny + 1) && ny + 1 <= (nx + 1) * (ny + 1)) by (nonlinear_arith)
            requires
                nx >= 1,
                ny >= 1,
        ;
    }
    let w = nx + 1;
    let ghost n_nodes = (nx + 1) * (ny + 1);
    let mut nodes: Vec<[usize; 2]> = Vec::new();
    let mut j: usize = 0;
    while j <= ny
        invariant
            w == nx + 1,
            n_nodes == (nx + 1) * (ny + 1),
            (nx + 1) * (ny + 1) <= usize::MAX,
            ny < usize::MAX,
            j <= ny + 1,
            nodes@.len() == j * w,
            forall|k: int|
                0 <= k < nodes@.len() ==> #[trigger] nodes@[k] == [(k % (w as int)) as usize, (k / (w as int)) as usize],
        decreases ny + 1 - j,
    {
        let mut i: usize = 0;
        while i <= nx
            invariant
                w == nx + 1,
                j <= ny,
                i <= nx + 1,
                nodes@.len() == j * w + i,
                forall|k: int|
                    0 <= k < nodes@.len() ==> #[trigger] nodes@[k] == [
                        (k % (w as int)) as usize,
                        (k / (w as int)) as usize,
                    ],
            decreases nx + 1 - i,
        {
            proof {
                lemma_row_major(w as int, i as int, j as int);
            }
            nodes.push([i, j]);
            i += 1;
        }
        assert(j * w + w == (j + 1) * w) by (nonlinear_arith);
        j += 1;
    }
    assert((ny + 1) * w == (nx + 1) * (ny + 1)) by (nonlinear_arith)
        requires
            w == nx + 1,
    ;
    let mut triangles: Vec<[usize; 3]> = Vec::new();
    let mut j: usize = 0;
    while j < ny
        invariant
            w == nx + 1,
            nx >= 1,
            (nx + 1) * (ny + 1) <= usize::MAX,
            2 * nx * ny <= usize::MAX,
            j <= ny,
            triangles@.len() == 2 * (j * nx),
            forall|c: int|
                0 <= c < j * nx ==> #[trigger] triangles@[2 * c] == cell_lower(nx, c)
                    && triangles@[2 * c + 1] == cell_upper(nx, c),
        decreases ny - j,
    {
        let mut i: usize = 0;
        while i < nx
            invariant
                w == nx + 1,
                nx >= 1,
                (nx + 1) * (ny + 1) <= usize::MAX,
                2 * nx * ny <= usize::MAX,
                j < ny,
                i <= nx,
                triangles@.len() == 2 * (j * nx + i),
                forall|c: int|
                    0 <= c < j * nx + i ==> #[trigger] triangles@[2 * c] == cell_lower(nx, c)
                        && triangles@[2 * c + 1] == cell_upper(nx, c),
            decreases nx - i,
        {
            proof {
                lemma_grid_bound(nx as int, ny as int, i as int, j as int);
                lemma_grid_bound(nx as int, ny as int, (i + 1) as int, (j + 1) as int);
                lemma_row_major(nx as int, i as int, j as int);
                assert((j + 1) * (nx + 1) == j * (nx + 1) + nx + 1) by (nonlinear_arith);
                assert(j * nx + i < nx * ny) by (nonlinear_arith)
                    requires
                        i < nx,
                        j < ny,
                ;
                assert(2 * (j * nx + i) + 2 <= 2 * nx * ny) by (nonlinear_arith)
                    requires
                        j * nx + i < nx * ny,
                ;
            }
            let n00 = j * w + i;
            let n10 = n00 + 1;
            let n01 = n00 + w;
            let n11 = n01 + 1;
            let ghost c: int = j * nx + i;
            let ghost before = triangles@;
            assert(n11 == grid_node(nx as int, i + 1, j + 1));
            assert(n01 == grid_node(nx as int, i as int, j + 1));
            triangles.push([n00, n10, n11]);
            triangles.push([n00, n11, n01]);
            proof {
                assert(cell_lower(nx, c as int) == [n00, n10, n11]);
                assert(cell_upper(nx, c as int) == [n00, n11, n01]);
                assert forall|c2: int|
                    0 <= c2 < j * nx + i + 1 implies #[trigger] triangles@[2 * c2] == cell_lower(
                    nx,
                    c2,
                ) && triangles@[2 * c2 + 1] == cell_upper(nx, c2) by {
                    if c2 < c {
                        assert(triangles@[2 * c2] == before[2 * c2]);
                        assert(triangles@[2 * c2 + 1] == before[2 * c2 + 1]);
                    }
                }
            }
            i += 1;
        }
        assert(j * nx + nx == (j + 1) * nx) by (nonlinear_arith);
        j += 1;
    }
    assert(2 * (ny * nx) == 2 * nx * ny) by (nonlinear_arith);
    let num_nodes = nodes.len();
    let mut boundary_nodes: Vec<usize> = Vec::new();
    let mut k: usize = 0;
    while k < num_nodes
        invariant
            num_nodes == nodes@.len(),
            w == nx + 1,
            k <= num_nodes,
            indices_increasing(boundary_nodes@),
            forall|q: int| 0 <= q < boundary_nodes@.len() ==> #[trigger] boundary_nodes@[q] < k,
            forall|x: usize|
                boundary_nodes@.contains(x) <==> x < k && on_grid_boundary(nx, ny, x as int),
        decreases num_nodes - k,
    {
        let i = k % w;
        let jj = k / w;
        if i == 0 || i == nx || jj == 0 || jj == ny {
            let ghost before = boundary_nodes@;
            boundary_nodes.push(k);
            assert forall|x: usize|
                boundary_nodes@.contains(x) <==> x < k + 1 && on_grid_boundary(nx, ny, x as int) by {
                if boundary_nodes@.contains(x) && x != k {
                    let q = choose|q: int| 0 <= q < boundary_nodes@.len() && boundary_nodes@[q] == x;
                    assert(before[q] == x);
                    assert(before.contains(x));
                }
                if x < k + 1 && on_grid_boundary(nx, ny, x as int) {
                    if x == k {
                        assert(boundary_nodes@[boundary_nodes@.len() - 1] == x);
                    } else {
                        assert(before.contains(x));
                        let q = choose|q: int| 0 <= q < before.len() && before[q] == x;
                        assert(boundary_nodes@[q] == x);
                    }
                }
            }
        }
        k += 1;
    }
    let m = Mesh2D { nodes, triangles, boundary_nodes };
    proof {
        assert forall|t: int, v: int|
            0 <= t < m.triangles@.len() && 0 <= v < 3 implies #[trigger] m.triangles@[t][v]
            < m.nodes@.len() && twice_signed_area(
                m.nodes@[m.triangles@[t][0] as int],
                m.nodes@[m.triangles@[t][1] as int],
                m.nodes@[m.triangles@[t][2] as int],
            ) == 1 by {
            let c = t / 2;
            vstd::arithmetic::div_mod::lemma_fundamental_div_mod(t, 2);
            assert(t == 2 * c + t % 2);
            assert(2 * nx * ny == 2 * (nx * ny)) by (nonlinear_arith);
            assert(0 <= c < nx * ny);
            let i = c % (nx as int);
            let jj = c / (nx as int);
            vstd::arithmetic::div_mod::lemma_fundamental_div_mod(c, nx as int);
            assert(c == nx * jj + i);
            assert(0 <= i < nx);
            assert(0 <= jj < ny) by {
                assert(jj >= 0) by (nonlinear_arith)
                    requires
                        c >= 0,
                        nx > 0,
                        jj == c / (nx as int),
                ;
                if jj >= ny {
                    assert(nx * jj >= nx * ny) by (nonlinear_arith)
                        requires
                            jj >= ny,
                            nx >= 0,
                    ;
                }
            }
            lemma_grid_bound(nx as int, ny as int, i, jj);
            lemma_grid_bound(nx as int, ny as int, i + 1, jj);
            lemma_grid_bound(nx as int, ny as int, i, jj + 1);
            lemma_grid_bound(nx as int, ny as int, i + 1, jj + 1);
            lemma_row_major(w as int, i, jj);
            lemma_row_major(w as int, i + 1, jj);
            lemma_row_major(w as int, i, jj + 1);
            lemma_row_major(w as int, i + 1, jj + 1);
            let p00 = grid_node(nx as int, i, jj);
            let p10 = grid_node(nx as int, i + 1, jj);
            let p01 = grid_node(nx as int, i, jj + 1);
            let p11 = grid_node(nx as int, i + 1, jj + 1);
            assert(m.nodes@[p00] == [i as usize, jj as usize]);
            assert(m.nodes@[p10] == [(i + 1) as usize, jj as usize]);
            assert(m.nodes@[p01] == [i as usize, (jj + 1) as usize]);
            assert(m.nodes@[p11] == [(i + 1) as usize, (jj + 1) as usize]);
            assert(m.triangles@[2 * c] == cell_lower(nx, c));
            let a00 = [i as usize, jj as usize];
            let a10 = [(i + 1) as usize, jj as usize];
            let a01 = [i as usize, (jj + 1) as usize];
            let a11 = [(i + 1) as usize, (jj + 1) as usize];
            assert(twice_signed_area(a00, a10, a11) == 1) by {
                assert(a10[0] - a00[0] == 1 && a11[1] - a00[1] == 1 && a10[1] - a00[1] == 0);
                assert((a11[0] - a00[0]) * (a10[1] - a00[1]) == 0) by (nonlinear_arith)
                    requires
                        a10[1] - a00[1] == 0,
                ;
            }
            assert(twice_signed_area(a00, a11, a01) == 1) by {
                assert(a11[0] - a00[0] == 1 && a01[1] - a00[1] == 1 && a01[0] - a00[0] == 0);
                assert((a01[0] - a00[0]) * (a11[1] - a00[1]) == 0) by (nonlinear_arith)
                    requires
                        a01[0] - a00[0] == 0,
                ;
            }
            if t % 2 == 0 {
                assert(m.triangles@[t] == [p00 as usize, p10 as usize, p11 as usize]);
            } else {
                assert(m.triangles@[t] == m.triangles@[2 * c + 1]);
                assert(m.triangles@[t] == [p00 as usize, p11 as usize, p01 as usize]);
            }
            assert(m.triangles@[t][0] < m.nodes@.len());
            assert(m.triangles@[t][1] < m.nodes@.len());
            assert(m.triangles@[t][2] < m.nodes@.len());
        }
        assert forall|q: int| 0 <= q < m.boundary_nodes@.len() implies #[trigger] m.boundary_nodes@[q]
            < m.nodes@.len() by {
            assert(m.boundary_nodes@[q] < num_nodes);
        }
        assert(m.triangles@ =~= grid_triangles(nx, ny)) by {
            assert forall|t: int| 0 <= t < m.triangles@.len() implies m.triangles@[t]
                == grid_triangles(nx, ny)[t] by {
                let c = t / 2;
                vstd::arithmetic::div_mod::lemma_fundamental_div_mod(t, 2);
                assert(2 * nx * ny == 2 * (nx * ny)) by (nonlinear_arith);
                assert(m.triangles@[2 * c] == cell_lower(nx, c));
            }
        }
        assert forall|k: usize| m.boundary_nodes@.contains(k) <==> is_boundary_node(
            m.triangles@,
            k,
        ) by {
            lemma_grid_boundary(nx, ny, k);
        }
    }
    m
}

/// A strictly increasing list is determined by its members: two boundary
/// node lists of the same triangles are the same list.
pub proof fn lemma_increasing_lists_equal(a: Seq<usize>, b: Seq<usize>)
    requires
        indices_increasing(a),
        indices_increasing(b),
        forall|x: usize| a.contains(x) <==> b.contains(x),
    ensures
        a == b,
    decreases a.len() + b.len(),
{
    if a.len() > 0 && b.len() > 0 {
        assert(a.contains(a.last()));
        assert(b.contains(b.last()));
        let ja = choose|j: int| 0 <= j < a.len() && a[j] == b.last();
        let jb = choose|j: int| 0 <= j < b.len() && b[j] == a.last();
        assert(a.last() == b.last()) by {
            if ja < a.len() - 1 {
                assert(a[ja] < a.last());
            }
            if jb < b.len() - 1 {
                assert(b[jb] < b.last());
            }
        }
        assert forall|x: usize| a.drop_last().contains(x) <==> b.drop_last().contains(x) by {
            if a.drop_last().contains(x) {
                let i = choose|i: int| 0 <= i < a.drop_last().len() && a.drop_last()[i] == x;
                assert(a[i] < a.last());
                assert(a.contains(x));
                let j = choose|j: int| 0 <= j < b.len() && b[j] == x;
                assert(j != b.len() - 1);
                assert(b.drop_last()[j] == x);
            }
            if b.drop_last().contains(x) {
                let i = choose|i: int| 0 <= i < b.drop_last().len() && b.drop_last()[i] == x;
                assert(b[i] < b.last());
                assert(b.contains(x));
                let j = choose|j: int| 0 <= j < a.len() && a[j] == x;
                assert(j != a.len() - 1);
                assert(a.drop_last()[j] == x);
            }
        }
        lemma_increasing_lists_equal(a.drop_last(), b.drop_last());
        assert(a =~= a.drop_last().push(a.last()));
        assert(b =~= b.drop_last().push(b.last()));
    } else if a.len() > 0 {
        assert(a.contains(a[0]));
    } else if b.len() > 0 {
        assert(b.contains(b[0]));
    } else {
        assert(a =~= b);
    }
}

} // verus!
