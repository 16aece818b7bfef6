//! The structured mesh of the unit square: its triangles as a spec sequence,
//! and the proof that its topological boundary (the ends of the edges in
//! exactly one triangle) is the outer edge of the square.
use vstd::prelude::*;
use crate::keys::{count_in, lemma_count_absent, lemma_count_concat, lemma_count_contains};
use crate::mesh_2d::{
    all_edges, cell_lower, cell_upper, edge_key, grid_node, is_boundary_edge, is_boundary_node,
    lemma_row_major, on_grid_boundary, triangle_edges,
};

verus! {

/// Triangle `t` of the grid: cell `t / 2`, lower-right when `t` is even.
pub open spec fn grid_triangle(nx: usize, t: int) -> [usize; 3] {
    if t % 2 == 0 {
        cell_lower(nx, t / 2)
    } else {
        cell_upper(nx, t / 2)
    }
}

/// The triangles of the `nx` by `ny` grid, two per cell, cells row by row.
pub open spec fn grid_triangles(nx: usize, ny: usize) -> Seq<[usize; 3]> {
    Seq::new((2 * nx * ny) as nat, |t: int| grid_triangle(nx, t))
}

/// A grid edge by direction and anchor point `(x, y)`: horizontal (0) to
/// `(x+1, y)`, vertical (1) to `(x, y+1)`, diagonal (2) to `(x+1, y+1)`.
pub open spec fn grid_edge(nx: usize, d: (int, int, int)) -> (usize, usize) {
    let a = grid_node(nx as int, d.1, d.2) as usize;
    if d.0 == 0 {
        (a, grid_node(nx as int, d.1 + 1, d.2) as usize)
    } else if d.0 == 1 {
        (a, grid_node(nx as int, d.1, d.2 + 1) as usize)
    } else {
        (a, grid_node(nx as int, d.1 + 1, d.2 + 1) as usize)
    }
}

/// The edge lies inside the grid.
pub open spec fn edge_in_grid(nx: usize, ny: usize, d: (int, int, int)) -> bool {
    &&& 0 <= d.0 <= 2
    &&& 0 <= d.1
    &&& 0 <= d.2
    &&& d.0 == 0 ==> d.1 < nx && d.2 <= ny
    &&& d.0 == 1 ==> d.1 <= nx && d.2 < ny
    &&& d.0 == 2 ==> d.1 < nx && d.2 < ny
}

/// Side `s` of grid triangle `t`, as a grid edge.
pub open spec fn side_edge(nx: usize, t: int, s: int) -> (int, int, int) {
    let c = t / 2;
    let i = c % (nx as int);
    let j = c / (nx as int);
    if t % 2 == 0 {
        if s == 0 {
            (0, i, j)
        } else if s == 1 {
            (1, i + 1, j)
        } else {
            (2, i, j)
        }
    } else {
        if s == 0 {
            (2, i, j)
        } else if s == 1 {
            (0, i, j + 1)
        } else {
            (1, i, j)
        }
    }
}

proof fn lemma_grid_node_range(nx: usize, ny: usize, x: int, y: int)
    requires
        0 <= x <= nx,
        0 <= y <= ny,
        (nx + 1) * (ny + 1) <= usize::MAX,
    ensures
        0 <= grid_node(nx as int, x, y) < (nx + 1) * (ny + 1),
        grid_node(nx as int, x, y) % (nx + 1) == x,
        grid_node(nx as int, x, y) / (nx + 1) == y,
{
    crate::mesh_2d::lemma_grid_bound(nx as int, ny as int, x, y);
    lemma_row_major(nx + 1, x, y);
}

proof fn lemma_grid_node_step(nx: usize, x: int, y: int)
    ensures
        grid_node(nx as int, x + 1, y) == grid_node(nx as int, x, y) + 1,
        grid_node(nx as int, x, y + 1) == grid_node(nx as int, x, y) + nx + 1,
        grid_node(nx as int, x + 1, y + 1) == grid_node(nx as int, x, y) + nx + 2,
{
    assert((y + 1) * (nx + 1) == y * (nx + 1) + nx + 1) by (nonlinear_arith);
}

/// Cell decoding of a triangle index.
proof fn lemma_triangle_cell(nx: usize, ny: usize, t: int)
    requires
        nx >= 1,
        0 <= t < 2 * nx * ny,
    ensures
        t == 2 * ((t / 2) / (nx as int) * nx + (t / 2) % (nx as int)) + t % 2,
        0 <= (t / 2) % (nx as int) < nx,
        0 <= (t / 2) / (nx as int) < ny,
        0 <= t % 2 < 2,
{
    let c = t / 2;
    vstd::arithmetic::div_mod::lemma_fundamental_div_mod(t, 2);
    assert(2 * nx * ny == 2 * (nx * ny)) by (nonlinear_arith);
    assert(c < nx * ny);
    vstd::arithmetic::div_mod::lemma_fundamental_div_mod(c, nx as int);
    let j = c / (nx as int);
    assert(j >= 0) by (nonlinear_arith)
        requires
            c >= 0,
            nx > 0,
            j == c / (nx as int),
    ;
    if j >= ny {
        assert(nx * j >= nx * ny) by (nonlinear_arith)
            requires
                j >= ny,
                nx >= 0,
        ;
    }
    assert(nx * j == j * nx) by (nonlinear_arith);
}

/// The sides of grid triangles are grid edges.
proof fn lemma_side_edge(nx: usize, ny: usize, t: int, s: int)
    requires
        nx >= 1,
        ny >= 1,
        (nx + 1) * (ny + 1) <= usize::MAX,
        0 <= t < 2 * nx * ny,
        0 <= s < 3,
    ensures
        edge_in_grid(nx, ny, side_edge(nx, t, s)),
        triangle_edges(grid_triangle(nx, t))[s] == grid_edge(nx, side_edge(nx, t, s)),
{
    lemma_triangle_cell(nx, ny, t);
    let c = t / 2;
    let i = c % (nx as int);
    let j = c / (nx as int);
    lemma_grid_node_range(nx, ny, i, j);
    lemma_grid_node_range(nx, ny, i + 1, j);
    lemma_grid_node_range(nx, ny, i, j + 1);
    lemma_grid_node_range(nx, ny, i + 1, j + 1);
    lemma_grid_node_step(nx, i, j);
    lemma_grid_node_step(nx, i + 1, j);
    lemma_grid_node_step(nx, i, j + 1);
}

/// Two grid edges inside the grid are equal only when they are the same.
proof fn lemma_grid_edge_injective(nx: usize, ny: usize, d1: (int, int, int), d2: (int, int, int))
    requires
        nx >= 1,
        (nx + 1) * (ny + 1) <= usize::MAX,
        edge_in_grid(nx, ny, d1),
        edge_in_grid(nx, ny, d2),
        grid_edge(nx, d1) == grid_edge(nx, d2),
    ensures
        d1 == d2,
{
    lemma_grid_node_range(nx, ny, d1.1, d1.2);
    lemma_grid_node_range(nx, ny, d2.1, d2.2);
    lemma_grid_node_step(nx, d1.1, d1.2);
    lemma_grid_node_step(nx, d2.1, d2.2);
    if d1.0 == 0 {
        lemma_grid_node_range(nx, ny, d1.1 + 1, d1.2);
    } else if d1.0 == 1 {
        lemma_grid_node_range(nx, ny, d1.1, d1.2 + 1);
    } else {
        lemma_grid_node_range(nx, ny, d1.1 + 1, d1.2 + 1);
    }
    if d2.0 == 0 {
        lemma_grid_node_range(nx, ny, d2.1 + 1, d2.2);
    } else if d2.0 == 1 {
        lemma_grid_node_range(nx, ny, d2.1, d2.2 + 1);
    } else {
        lemma_grid_node_range(nx, ny, d2.1 + 1, d2.2 + 1);
    }
}

/// The triangle sides that are a given grid edge.
proof fn lemma_side_preimage(nx: usize, ny: usize, t: int, s: int, d: (int, int, int))
    requires
        nx >= 1,
        0 <= t < 2 * nx * ny,
        0 <= s < 3,
        side_edge(nx, t, s) == d,
    ensures
        d.0 == 0 ==> (t == 2 * (d.2 * nx + d.1) && s == 0 && d.2 < ny) || (t == 2 * ((d.2 - 1)
            * nx + d.1) + 1 && s == 1 && d.2 >= 1),
        d.0 == 1 ==> (t == 2 * (d.2 * nx + d.1 - 1) && s == 1 && d.1 >= 1) || (t == 2 * (d.2 * nx
            + d.1) + 1 && s == 2 && d.1 < nx),
        d.0 == 2 ==> (t == 2 * (d.2 * nx + d.1) && s == 2) || (t == 2 * (d.2 * nx + d.1) + 1
            && s == 0),
{
    lemma_triangle_cell(nx, ny, t);
    let c = t / 2;
    let i = c % (nx as int);
    let j = c / (nx as int);
    assert((j + 1 - 1) * nx == j * nx);
}

/// The sides of the triangles of cell `(x, y)`.
proof fn lemma_cell_sides(nx: usize, ny: usize, x: int, y: int)
    requires
        nx >= 1,
        0 <= x < nx,
        0 <= y < ny,
    ensures
        0 <= 2 * (y * nx + x),
        2 * (y * nx + x) + 1 < 2 * nx * ny,
        side_edge(nx, 2 * (y * nx + x), 0) == (0int, x, y),
        side_edge(nx, 2 * (y * nx + x), 1) == (1int, x + 1, y),
        side_edge(nx, 2 * (y * nx + x), 2) == (2int, x, y),
        side_edge(nx, 2 * (y * nx + x) + 1, 0) == (2int, x, y),
        side_edge(nx, 2 * (y * nx + x) + 1, 1) == (0int, x, y + 1),
        side_edge(nx, 2 * (y * nx + x) + 1, 2) == (1int, x, y),
{
    lemma_row_major(nx as int, x, y);
    assert(y * nx + x < nx * ny) by (nonlinear_arith)
        requires
            x < nx,
            y < ny,
    ;
    assert(2 * nx * ny == 2 * (nx * ny)) by (nonlinear_arith);
    assert(0 <= y * nx) by (nonlinear_arith)
        requires
            y >= 0,
    ;
}

/// Index `m` of the edge list is side `m % 3` of triangle `m / 3`.
pub proof fn lemma_all_edges_index(tris: Seq<[usize; 3]>, m: int)
    requires
        0 <= m < 3 * tris.len(),
    ensures
        all_edges(tris).len() == 3 * tris.len(),
        all_edges(tris)[m] == triangle_edges(tris[m / 3])[m % 3],
    decreases tris.len(),
{
    crate::mesh_2d::lemma_all_edges_ordered(tris);
    let l = tris.len() - 1;
    if m < 3 * l {
        lemma_all_edges_index(tris.drop_last(), m);
        assert(tris.drop_last()[m / 3] == tris[m / 3]);
    } else {
        crate::mesh_2d::lemma_all_edges_ordered(tris.drop_last());
        assert(m / 3 == l);
    }
}

/// Two occurrences make a count of at least two.
pub proof fn lemma_count_two<A>(s: Seq<A>, x: A, p: int, q: int)
    requires
        0 <= p < q < s.len(),
        s[p] == x,
        s[q] == x,
    ensures
        count_in(s, x) >= 2,
    decreases s.len(),
{
    if q == s.len() - 1 {
        assert(s.drop_last()[p] == x);
        lemma_count_contains(s.drop_last(), x);
    } else {
        assert(s.drop_last()[p] == x && s.drop_last()[q] == x);
        lemma_count_two(s.drop_last(), x, p, q);
    }
}

/// A single occurrence makes a count of one.
pub proof fn lemma_count_one<A>(s: Seq<A>, x: A, p: int)
    requires
        0 <= p < s.len(),
        s[p] == x,
        forall|m: int| 0 <= m < s.len() && m != p ==> s[m] != x,
    ensures
        count_in(s, x) == 1,
{
    let a = s.take(p);
    let b = s.subrange(p, p + 1);
    let c = s.skip(p + 1);
    assert(s =~= a + b + c);
    lemma_count_concat(a + b, c, x);
    lemma_count_concat(a, b, x);
    assert forall|m: int| 0 <= m < a.len() implies a[m] != x by {
        assert(a[m] == s[m]);
    }
    lemma_count_absent(a, x);
    assert forall|m: int| 0 <= m < c.len() implies c[m] != x by {
        assert(c[m] == s[p + 1 + m]);
    }
    lemma_count_absent(c, x);
    assert(b.drop_last() =~= Seq::<A>::empty());
    assert(count_in(b.drop_last(), x) == 0);
    assert(b.last() == x);
}

/// Entry `3 t + s` of the grid's edge list is side `s` of triangle `t`.
proof fn lemma_grid_edge_entry(nx: usize, ny: usize, m: int)
    requires
        nx >= 1,
        ny >= 1,
        (nx + 1) * (ny + 1) <= usize::MAX,
        0 <= m < 3 * (2 * nx * ny),
    ensures
        all_edges(grid_triangles(nx, ny)).len() == 3 * (2 * nx * ny),
        all_edges(grid_triangles(nx, ny))[m] == grid_edge(nx, side_edge(nx, m / 3, m % 3)),
        edge_in_grid(nx, ny, side_edge(nx, m / 3, m % 3)),
        0 <= m / 3 < 2 * nx * ny,
        0 <= m % 3 < 3,
        m == 3 * (m / 3) + m % 3,
{
    let tris = grid_triangles(nx, ny);
    lemma_all_edges_index(tris, m);
    lemma_side_edge(nx, ny, m / 3, m % 3);
}

/// An edge that is a side of two different triangle sides occurs at least
/// twice.
proof fn lemma_count_shared(nx: usize, ny: usize, t1: int, s1: int, t2: int, s2: int)
    requires
        nx >= 1,
        ny >= 1,
        (nx + 1) * (ny + 1) <= usize::MAX,
        0 <= t1 < 2 * nx * ny,
        0 <= t2 < 2 * nx * ny,
        0 <= s1 < 3,
        0 <= s2 < 3,
        t1 != t2 || s1 != s2,
        side_edge(nx, t1, s1) == side_edge(nx, t2, s2),
    ensures
        count_in(all_edges(grid_triangles(nx, ny)), grid_edge(nx, side_edge(nx, t1, s1))) >= 2,
{
    let m1 = 3 * t1 + s1;
    let m2 = 3 * t2 + s2;
    lemma_grid_edge_entry(nx, ny, m1);
    lemma_grid_edge_entry(nx, ny, m2);
    assert(m1 / 3 == t1 && m1 % 3 == s1);
    assert(m2 / 3 == t2 && m2 % 3 == s2);
    let all = all_edges(grid_triangles(nx, ny));
    let e = grid_edge(nx, side_edge(nx, t1, s1));
    if m1 < m2 {
        lemma_count_two(all, e, m1, m2);
    } else {
        lemma_count_two(all, e, m2, m1);
    }
}

/// An edge that is exactly one triangle side occurs once.
proof fn lemma_count_unique(nx: usize, ny: usize, t0: int, s0: int)
    requires
        nx >= 1,
        ny >= 1,
        (nx + 1) * (ny + 1) <= usize::MAX,
        0 <= t0 < 2 * nx * ny,
        0 <= s0 < 3,
        forall|t: int, s: int|
            0 <= t < 2 * nx * ny && 0 <= s < 3 && #[trigger] side_edge(nx, t, s) == side_edge(
                nx,
                t0,
                s0,
            ) ==> t == t0 && s == s0,
    ensures
        count_in(all_edges(grid_triangles(nx, ny)), grid_edge(nx, side_edge(nx, t0, s0))) == 1,
{
    let all = all_edges(grid_triangles(nx, ny));
    let m0 = 3 * t0 + s0;
    let e = grid_edge(nx, side_edge(nx, t0, s0));
    lemma_grid_edge_entry(nx, ny, m0);
    assert(m0 / 3 == t0 && m0 % 3 == s0);
    assert forall|m: int| 0 <= m < all.len() && m != m0 implies all[m] != e by {
        lemma_grid_edge_entry(nx, ny, m);
        if all[m] == e {
            lemma_grid_edge_injective(nx, ny, side_edge(nx, m / 3, m % 3), side_edge(nx, t0, s0));
        }
    }
    lemma_count_one(all, e, m0);
}

/// The ends of a grid edge, as grid points.
proof fn lemma_grid_edge_ends(nx: usize, ny: usize, d: (int, int, int))
    requires
        nx >= 1,
        (nx + 1) * (ny + 1) <= usize::MAX,
        edge_in_grid(nx, ny, d),
    ensures
        (grid_edge(nx, d).0 as int) % (nx + 1) == d.1,
        (grid_edge(nx, d).0 as int) / (nx + 1) == d.2,
        grid_edge(nx, d).0 < (nx + 1) * (ny + 1),
        grid_edge(nx, d).1 < (nx + 1) * (ny + 1),
        d.0 == 0 ==> (grid_edge(nx, d).1 as int) % (nx + 1) == d.1 + 1 && (grid_edge(nx, d).1 as int) / (nx + 1)
            == d.2,
        d.0 == 1 ==> (grid_edge(nx, d).1 as int) % (nx + 1) == d.1 && (grid_edge(nx, d).1 as int) / (nx + 1) == d.2
            + 1,
        d.0 == 2 ==> (grid_edge(nx, d).1 as int) % (nx + 1) == d.1 + 1 && (grid_edge(nx, d).1 as int) / (nx + 1)
            == d.2 + 1,
{
    lemma_grid_node_range(nx, ny, d.1, d.2);
    if d.0 == 0 {
        lemma_grid_node_range(nx, ny, d.1 + 1, d.2);
    } else if d.0 == 1 {
        lemma_grid_node_range(nx, ny, d.1, d.2 + 1);
    } else {
        lemma_grid_node_range(nx, ny, d.1 + 1, d.2 + 1);
    }
}

/// A topological boundary node of the grid is on the outer edge.
proof fn lemma_boundary_node_on_edge(nx: usize, ny: usize, k: usize)
    requires
        nx >= 1,
        ny >= 1,
        (nx + 1) * (ny + 1) <= usize::MAX,
        is_boundary_node(grid_triangles(nx, ny), k),
    ensures
        k < (nx + 1) * (ny + 1),
        on_grid_boundary(nx, ny, k as int),
{
    let tris = grid_triangles(nx, ny);
    let all = all_edges(tris);
    let e = choose|e: (usize, usize)| #[trigger] is_boundary_edge(tris, e) && (e.0 == k || e.1 == k);
    lemma_count_contains(all, e);
    let m0 = choose|m0: int| 0 <= m0 < all.len() && all[m0] == e;
    crate::mesh_2d::lemma_all_edges_ordered(tris);
    lemma_grid_edge_entry(nx, ny, m0);
    let d = side_edge(nx, m0 / 3, m0 % 3);
    lemma_grid_edge_ends(nx, ny, d);
    let x = d.1;
    let y = d.2;
    if !on_grid_boundary(nx, ny, k as int) {
        if d.0 == 0 {
            assert(0 < y < ny);
            lemma_cell_sides(nx, ny, x, y);
            lemma_cell_sides(nx, ny, x, y - 1);
            assert((y - 1) * nx + x < y * nx + x) by (nonlinear_arith)
                requires
                    nx >= 1,
            ;
            lemma_count_shared(nx, ny, 2 * (y * nx + x), 0, 2 * ((y - 1) * nx + x) + 1, 1);
        } else if d.0 == 1 {
            assert(0 < x < nx);
            lemma_cell_sides(nx, ny, x - 1, y);
            lemma_cell_sides(nx, ny, x, y);
            lemma_count_shared(nx, ny, 2 * (y * nx + x - 1), 1, 2 * (y * nx + x) + 1, 2);
        } else {
            lemma_cell_sides(nx, ny, x, y);
            lemma_count_shared(nx, ny, 2 * (y * nx + x), 2, 2 * (y * nx + x) + 1, 0);
        }
    }
}

/// A node on the outer edge of the grid is a topological boundary node.
proof fn lemma_edge_node_is_boundary(nx: usize, ny: usize, k: usize)
    requires
        nx >= 1,
        ny >= 1,
        (nx + 1) * (ny + 1) <= usize::MAX,
        k < (nx + 1) * (ny + 1),
        on_grid_boundary(nx, ny, k as int),
    ensures
        is_boundary_node(grid_triangles(nx, ny), k),
{
    let tris = grid_triangles(nx, ny);
    let w: int = nx + 1;
    let i: int = (k as int) % w;
    let j: int = (k as int) / w;
    vstd::arithmetic::div_mod::lemma_fundamental_div_mod(k as int, w);
    assert(0 <= j <= ny) by {
        assert(j >= 0) by (nonlinear_arith)
            requires
                k >= 0,
                w > 0,
                j == (k as int) / w,
        ;
        if j > ny {
            assert(w * j >= w * (ny + 1)) by (nonlinear_arith)
                requires
                    j >= ny + 1,
                    w >= 0,
            ;
        }
    }
    let x: int = if i < nx { i } else { i - 1 };
    let y: int = if j < ny { j } else { j - 1 };
    let (t0, s0, d): (int, int, (int, int, int)) = if j == 0 {
        (2 * (0 * nx + x), 0int, (0int, x, 0int))
    } else if j == ny {
        (2 * ((ny - 1) * nx + x) + 1, 1int, (0int, x, ny as int))
    } else if i == 0 {
        (2 * (j * nx + 0) + 1, 2int, (1int, 0int, j))
    } else {
        (2 * (j * nx + (nx - 1)), 1int, (1int, nx as int, j))
    };
    if j == 0 {
        lemma_cell_sides(nx, ny, x, 0);
    } else if j == ny {
        lemma_cell_sides(nx, ny, x, ny - 1);
        assert((ny - 1 + 1) as int == ny);
    } else if i == 0 {
        lemma_cell_sides(nx, ny, 0, j);
    } else {
        lemma_cell_sides(nx, ny, nx - 1, j);
        assert(nx - 1 + 1 == nx);
    }
    assert(side_edge(nx, t0, s0) == d);
    assert forall|t: int, s: int|
        0 <= t < 2 * nx * ny && 0 <= s < 3 && #[trigger] side_edge(nx, t, s) == side_edge(
            nx,
            t0,
            s0,
        ) implies t == t0 && s == s0 by {
        lemma_side_preimage(nx, ny, t, s, d);
        assert(ny * nx == nx * ny) by (nonlinear_arith);
        assert((ny as int - 1) * nx == ny * nx - nx) by (nonlinear_arith);
        if j == ny && s == 0 {
            assert(t == 2 * (ny * nx + x));
            assert(2 * nx * ny == 2 * (nx * ny)) by (nonlinear_arith);
        }
    }
    lemma_count_unique(nx, ny, t0, s0);
    let e = grid_edge(nx, d);
    assert(is_boundary_edge(tris, e));
    lemma_side_edge(nx, ny, t0, s0);
    lemma_grid_edge_ends(nx, ny, d);
    assert(k == grid_node(nx as int, i, j)) by {
        assert(w * j == j * (nx + 1)) by (nonlinear_arith)
            requires
                w == nx + 1,
        ;
    }
    lemma_grid_node_step(nx, d.1, d.2);
    assert(e.0 == k || e.1 == k);
}

/// In the grid, the ends of the edges that belong to exactly one triangle
/// are exactly the nodes on the outer edge of the square.
pub proof fn lemma_grid_boundary(nx: usize, ny: usize, k: usize)
    requires
        nx >= 1,
        ny >= 1,
        (nx + 1) * (ny + 1) <= usize::MAX,
        2 * nx * ny <= usize::MAX,
    ensures
        is_boundary_node(grid_triangles(nx, ny), k) <==> k < (nx + 1) * (ny + 1) && on_grid_boundary(
            nx,
            ny,
            k as int,
        ),
{
    if is_boundary_node(grid_triangles(nx, ny), k) {
        lemma_boundary_node_on_edge(nx, ny, k);
    }
    if k < (nx + 1) * (ny + 1) && on_grid_boundary(nx, ny, k as int) {
        lemma_edge_node_is_boundary(nx, ny, k);
    }
}

} // verus!
