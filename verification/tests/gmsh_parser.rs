use fem_rs::gmsh::{parse_msh_str, MshError, NodeText};
use fem_rs::mesh_2d::{unit_square, Mesh2D};

/// Minimal gmsh v4.1 ASCII mesh: unit square with 4 nodes and 2 triangles.
const UNIT_SQUARE_MSH: &str = "\
$MeshFormat
4.1 0 8
$EndMeshFormat
$Entities
0 0 1 0
1 0 0 0 1 1 0 0
$EndEntities
$Nodes
1 4 1 4
2 1 0 4
1
2
3
4
0 0 0
1 0 0
1 1 0
0 1 0
$EndNodes
$Elements
1 2 1 2
2 1 2 2
1 1 2 3
2 1 3 4
$EndElements
";

/// The node coordinates of a parsed mesh, as numbers.
fn coordinates(mesh: &Mesh2D<NodeText>) -> Vec<[f64; 2]> {
    mesh.nodes
        .iter()
        .map(|n| [n.x.parse::<f64>().unwrap(), n.y.parse::<f64>().unwrap()])
        .collect()
}

/// Signed area of triangle `t` (positive if its vertices are CCW).
fn signed_area(nodes: &[[f64; 2]], mesh: &Mesh2D<NodeText>, t: usize) -> f64 {
    let [a, b, c] = mesh.triangles[t];
    let (p0, p1, p2) = (nodes[a], nodes[b], nodes[c]);
    0.5 * ((p1[0] - p0[0]) * (p2[1] - p0[1]) - (p2[0] - p0[0]) * (p1[1] - p0[1]))
}

#[test]
fn parse_unit_square() {
    let mesh = parse_msh_str(UNIT_SQUARE_MSH).expect("parse");

    assert_eq!(mesh.num_nodes(), 4, "expected 4 nodes");
    assert_eq!(mesh.num_triangles(), 2, "expected 2 triangles");

    let nodes = coordinates(&mesh);
    assert_eq!(nodes[0], [0.0, 0.0]);
    assert_eq!(nodes[1], [1.0, 0.0]);
    assert_eq!(nodes[2], [1.0, 1.0]);
    assert_eq!(nodes[3], [0.0, 1.0]);

    // All 4 corners are on the boundary.
    assert_eq!(mesh.boundary_nodes, vec![0, 1, 2, 3]);

    // Triangles should have positive (CCW) area.
    for t in 0..mesh.num_triangles() {
        let area = signed_area(&nodes, &mesh, t);
        assert!(area > 0.0, "triangle {t} has non-positive area {area}");
    }
}

/// The parsed unit square and the generated `unit_square(1, 1)` have the
/// same topology, and every node of a 1×1 mesh is on the boundary (so the
/// Dirichlet problem on it has the zero solution).
/// The solve itself is floating-point work that the library does not hold;
/// this checks the topology that makes its solution zero.
#[test]
fn parsed_mesh_solves_poisson() {
    let parsed = parse_msh_str(UNIT_SQUARE_MSH).unwrap();
    let generated = unit_square(1, 1);

    assert_eq!(parsed.num_nodes(), generated.num_nodes());
    assert_eq!(parsed.num_triangles(), generated.num_triangles());
    assert_eq!(parsed.boundary_nodes, vec![0, 1, 2, 3]);
    assert_eq!(generated.boundary_nodes, vec![0, 1, 2, 3]);
}

fn msh(nodes: &str, elements: &str) -> String {
    format!("$MeshFormat\n4.1 0 8\n$EndMeshFormat\n{nodes}{elements}")
}

const SQUARE_NODES: &str = "$Nodes\n1 4 1 4\n2 1 0 4\n1\n2\n3\n4\n0 0 0\n1 0 0\n1 1 0\n0 1 0\n$EndNodes\n";
const SQUARE_ELEMENTS: &str = "$Elements\n1 2 1 2\n2 1 2 2\n1 1 2 3\n2 1 3 4\n$EndElements\n";

#[test]
fn crlf_line_endings_are_accepted() {
    let text = UNIT_SQUARE_MSH.replace('\n', "\r\n");
    let mesh = parse_msh_str(&text).expect("parse");
    assert_eq!(mesh.num_nodes(), 4);
    assert_eq!(mesh.triangles, vec![[0, 1, 2], [0, 2, 3]]);
    assert_eq!(mesh.nodes[1].x, "1");
    assert_eq!(mesh.nodes[1].y, "0");
}

#[test]
fn nodes_are_numbered_by_increasing_tag() {
    let nodes = "$Nodes\n1 3 1 3\n2 1 0 3\n30\n10\n20\n3.5 0 0\n1.5 0 0\n2.5 1 0\n$EndNodes\n";
    let elements = "$Elements\n1 1 1 1\n2 1 2 1\n7 30 10 20\n$EndElements\n";
    let mesh = parse_msh_str(&msh(nodes, elements)).expect("parse");
    let xs: Vec<&str> = mesh.nodes.iter().map(|n| n.x.as_str()).collect();
    assert_eq!(xs, vec!["1.5", "2.5", "3.5"]);
    assert_eq!(mesh.triangles, vec![[2, 0, 1]]);
}

#[test]
fn later_node_with_same_tag_replaces_earlier() {
    let nodes = "$Nodes\n2 4 1 4\n2 1 0 3\n1\n2\n3\n0 0 0\n1 0 0\n1 1 0\n2 1 0 1\n2\n9 9 0\n$EndNodes\n";
    let elements = "$Elements\n1 1 1 1\n2 1 2 1\n1 1 2 3\n$EndElements\n";
    let mesh = parse_msh_str(&msh(nodes, elements)).expect("parse");
    assert_eq!(mesh.num_nodes(), 3);
    assert_eq!(mesh.nodes[1].x, "9");
    assert_eq!(mesh.nodes[1].y, "9");
}

#[test]
fn non_triangle_elements_are_skipped() {
    let elements = "$Elements\n2 6 1 6\n1 15 1 2\n1 1\n2 2\n1 2 2 2\n5 1 2 3\n6 1 3 4\n$EndElements\n";
    let mesh = parse_msh_str(&msh(SQUARE_NODES, elements)).expect("parse");
    assert_eq!(mesh.triangles, vec![[0, 1, 2], [0, 2, 3]]);
}

#[test]
fn missing_mesh_format_is_refused() {
    let text = format!("{SQUARE_NODES}{SQUARE_ELEMENTS}");
    assert_eq!(parse_msh_str(&text).unwrap_err(), MshError::NoMeshFormat);
}

#[test]
fn version_two_is_refused() {
    let text = UNIT_SQUARE_MSH.replace("4.1 0 8", "2.2 0 8");
    assert_eq!(parse_msh_str(&text).unwrap_err(), MshError::UnsupportedVersion { line: 1 });
}

#[test]
fn binary_file_type_is_refused() {
    let text = UNIT_SQUARE_MSH.replace("4.1 0 8", "4.1 1 8");
    assert_eq!(parse_msh_str(&text).unwrap_err(), MshError::UnsupportedFileType { file_type: 1 });
}

#[test]
fn short_mesh_format_header_is_refused() {
    let text = UNIT_SQUARE_MSH.replace("4.1 0 8", "4.1 0");
    assert_eq!(
        parse_msh_str(&text).unwrap_err(),
        MshError::MalformedMeshFormatHeader { line: 1 }
    );
}

#[test]
fn bad_file_type_field_is_refused() {
    let text = UNIT_SQUARE_MSH.replace("4.1 0 8", "4.1 x 8");
    assert_eq!(parse_msh_str(&text).unwrap_err(), MshError::BadFileType { line: 1 });
}

#[test]
fn missing_end_marker_is_refused() {
    let text = UNIT_SQUARE_MSH.replace("$EndNodes", "$EndNode");
    assert_eq!(
        parse_msh_str(&text).unwrap_err(),
        MshError::MissingClosingMarker { from_line: 18 }
    );
}

#[test]
fn unknown_node_tag_is_refused() {
    let text = UNIT_SQUARE_MSH.replace("2 1 3 4", "2 1 3 7");
    assert_eq!(parse_msh_str(&text).unwrap_err(), MshError::UnknownNodeTag { tag: 7 });
}

#[test]
fn no_triangles_is_refused() {
    let elements = "$Elements\n1 1 1 1\n1 15 1 1\n1 1\n$EndElements\n";
    assert_eq!(parse_msh_str(&msh(SQUARE_NODES, elements)).unwrap_err(), MshError::NoTriangles);
}

#[test]
fn no_nodes_is_refused() {
    let nodes = "$Nodes\n0 0 0 0\n$EndNodes\n";
    assert_eq!(parse_msh_str(&msh(nodes, SQUARE_ELEMENTS)).unwrap_err(), MshError::NoNodes);
}

#[test]
fn truncated_text_is_refused() {
    let text = "$MeshFormat\n4.1 0 8\n$EndMeshFormat\n$Nodes\n1 4 1 4\n2 1 0 4\n1\n2\n";
    assert_eq!(parse_msh_str(text).unwrap_err(), MshError::UnexpectedEof);
}

#[test]
fn malformed_headers_are_refused() {
    let cases: Vec<(String, MshError)> = vec![
        (UNIT_SQUARE_MSH.replace("1 4 1 4\n2 1", "1 4 1\n2 1"), MshError::MalformedNodesHeader { line: 8 }),
        (UNIT_SQUARE_MSH.replace("1 4 1 4\n2 1", "x 4 1 4\n2 1"), MshError::BadNodeBlockCount { line: 8 }),
        (UNIT_SQUARE_MSH.replace("2 1 0 4", "2 1 0"), MshError::MalformedNodeBlockHeader { line: 9 }),
        (UNIT_SQUARE_MSH.replace("2 1 0 4", "2 1 0 -4"), MshError::BadNodeCount { line: 9 }),
        (UNIT_SQUARE_MSH.replace("\n3\n4\n", "\n3 3\n4\n"), MshError::BadNodeTag { line: 12 }),
        (UNIT_SQUARE_MSH.replace("1 1 0\n", "1 1\n"), MshError::MalformedNodeCoordinates { line: 16 }),
        (UNIT_SQUARE_MSH.replace("1 2 1 2", "1 2 1"), MshError::MalformedElementsHeader { line: 20 }),
        (UNIT_SQUARE_MSH.replace("1 2 1 2", "- 2 1 2"), MshError::BadElementBlockCount { line: 20 }),
        (UNIT_SQUARE_MSH.replace("2 1 2 2", "2 1 2"), MshError::MalformedElementBlockHeader { line: 21 }),
        (UNIT_SQUARE_MSH.replace("2 1 2 2", "2 1 t 2"), MshError::BadElementType { line: 21 }),
        (UNIT_SQUARE_MSH.replace("2 1 2 2", "2 1 2 z"), MshError::BadElementCount { line: 21 }),
        (UNIT_SQUARE_MSH.replace("1 1 2 3", "1 1 2"), MshError::MalformedTriangle { line: 22 }),
        (UNIT_SQUARE_MSH.replace("1 1 2 3", "1 1 2 q"), MshError::BadTriangleNode { line: 22 }),
    ];
    for (text, expected) in cases {
        assert_eq!(parse_msh_str(&text).unwrap_err(), expected);
    }
}

#[test]
fn plus_signed_counts_and_unicode_spaces_are_accepted() {
    let text = UNIT_SQUARE_MSH
        .replace("1 4 1 4\n2 1", "+1\u{3000}4 1 4\n2 1")
        .replace("$EndNodes", "  $EndNodes\u{a0}");
    let mesh = parse_msh_str(&text).expect("parse");
    assert_eq!(mesh.num_nodes(), 4);
}
