use fem_rs::gmsh::compute_boundary_nodes;
use fem_rs::mesh::Mesh1D;
use fem_rs::mesh_2d::{nodes_in_triangles, triangles_with_node, unit_square, Mesh2D};

#[test]
fn unit_square_counts_and_numbering() {
    let m = unit_square(2, 1);
    assert_eq!(m.num_nodes(), 6);
    assert_eq!(m.nodes, vec![[0, 0], [1, 0], [2, 0], [0, 1], [1, 1], [2, 1]]);
    assert_eq!(m.num_triangles(), 4);
    assert_eq!(m.triangles, vec![[0, 1, 4], [0, 4, 3], [1, 2, 5], [1, 5, 4]]);
    assert_eq!(m.boundary_nodes, vec![0, 1, 2, 3, 4, 5]);
}

#[test]
fn unit_square_interior_node_is_not_boundary() {
    let m = unit_square(2, 2);
    assert_eq!(m.num_nodes(), 9);
    assert_eq!(m.boundary_nodes, vec![0, 1, 2, 3, 5, 6, 7, 8]);
}

#[test]
fn topological_boundary_matches_grid_boundary() {
    for (nx, ny) in [(1, 1), (2, 2), (3, 2), (4, 5)] {
        let m = unit_square(nx, ny);
        assert_eq!(compute_boundary_nodes(&m.triangles), m.boundary_nodes);
    }
}

#[test]
fn boundary_edges_of_unit_square() {
    let m = unit_square(1, 1);
    assert_eq!(m.boundary_edges(), vec![(0, 1), (0, 2), (1, 3), (2, 3)]);
    let m = unit_square(2, 1);
    let edges = m.boundary_edges();
    assert_eq!(edges.len(), 6);
    assert!(!edges.contains(&(1, 4)));
    assert!(!edges.contains(&(0, 4)));
}

#[test]
fn degenerate_triangle_gives_self_edge() {
    let m: Mesh2D<[f64; 2]> = Mesh2D {
        nodes: vec![[0.0, 0.0], [1.0, 0.0]],
        triangles: vec![[0, 0, 1]],
        boundary_nodes: vec![],
    };
    assert_eq!(m.boundary_edges(), vec![(0, 0)]);
}

#[test]
fn triangle_coords_reads_nodes_in_order() {
    let m: Mesh2D<[f64; 2]> = Mesh2D {
        nodes: vec![[0.0, 0.0], [1.0, 0.0], [0.0, 1.0]],
        triangles: vec![[2, 0, 1]],
        boundary_nodes: vec![0, 1, 2],
    };
    assert_eq!(m.triangle_coords(0), [[0.0, 1.0], [0.0, 0.0], [1.0, 0.0]]);
}

#[test]
fn compute_boundary_nodes_of_two_triangles() {
    // Two triangles sharing edge (1, 2): every node is on the boundary.
    assert_eq!(compute_boundary_nodes(&[[0, 1, 2], [1, 3, 2]]), vec![0, 1, 2, 3]);
    // A fan of four triangles around node 4 closes it in.
    let fan = [[0, 1, 4], [1, 2, 4], [2, 3, 4], [3, 0, 4]];
    assert_eq!(compute_boundary_nodes(&fan), vec![0, 1, 2, 3]);
    assert_eq!(compute_boundary_nodes(&[]), Vec::<usize>::new());
}

#[test]
fn mesh1d_elements() {
    let m = Mesh1D { nodes: vec![0.0, 0.5, 1.0] };
    assert_eq!(m.num_nodes(), 3);
    assert_eq!(m.num_elements(), 2);
    assert_eq!(m.element_nodes(1), (1, 2));
}

#[test]
fn unit_square_triangles_are_counter_clockwise() {
    for (nx, ny) in [(1, 1), (3, 2), (4, 4)] {
        let m = unit_square(nx, ny);
        for t in 0..m.num_triangles() {
            let [a, b, c] = m.triangle_coords(t);
            let p = |q: [usize; 2]| [q[0] as i64, q[1] as i64];
            let (a, b, c) = (p(a), p(b), p(c));
            let twice_area = (b[0] - a[0]) * (c[1] - a[1]) - (c[0] - a[0]) * (b[1] - a[1]);
            assert_eq!(twice_area, 1);
        }
    }
}

#[test]
fn nodes_used_by_triangles() {
    // Node 3 is a stray point that no triangle uses.
    let tris = [[0, 1, 2], [1, 4, 2]];
    assert_eq!(nodes_in_triangles(5, &tris), vec![true, true, true, false, true]);
    assert_eq!(nodes_in_triangles(2, &[]), vec![false, false]);
}

#[test]
fn triangles_incident_to_a_node() {
    let m = unit_square(2, 2);
    // The centre node 4 is a corner of six of the eight triangles.
    assert_eq!(triangles_with_node(&m.triangles, 4), vec![0, 1, 3, 4, 6, 7]);
    assert_eq!(triangles_with_node(&m.triangles, 2), vec![2]);
    assert_eq!(triangles_with_node(&m.triangles, 9), Vec::<usize>::new());
}
