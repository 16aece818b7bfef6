use fem_rs::elasticity_2d::{displacement_to_pairs, element_dofs, node_dofs};

#[test]
fn dof_layout() {
    assert_eq!(node_dofs(3), [6, 7]);
    assert_eq!(element_dofs([0, 4, 2]), [0, 1, 8, 9, 4, 5]);
}

#[test]
fn pairs_of_flat_vector() {
    let u = [1.0, 2.0, 3.0, 4.0, 5.0];
    assert_eq!(displacement_to_pairs(&u), vec![[1.0, 2.0], [3.0, 4.0]]);
    let empty: [f64; 0] = [];
    assert!(displacement_to_pairs(&empty).is_empty());
}

#[test]
fn element_dofs_read_node_pairs() {
    let u: Vec<f64> = (0..10).map(|k| k as f64 * 0.5).collect();
    let pairs = displacement_to_pairs(&u);
    let tri = [4, 1, 3];
    let dofs = element_dofs(tri);
    for a in 0..3 {
        assert_eq!(u[dofs[2 * a]], pairs[tri[a]][0]);
        assert_eq!(u[dofs[2 * a + 1]], pairs[tri[a]][1]);
    }
}
