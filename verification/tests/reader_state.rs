use fem_rs::gmsh::{
    compute_boundary_nodes, mesh_from_sections, parse_elements, parse_msh_str, parse_nodes,
    read_sections, Cursor, MshError,
    NodeEntry,
};

fn text(chars: &[char]) -> String {
    chars.iter().collect()
}

#[test]
fn nodes_read_before_an_error_stay() {
    let mut cur = Cursor::new("1 2 1 2\n2 1 0 2\n1\n2\n0 0 0\n5 5\n$EndNodes");
    let mut out: Vec<NodeEntry> = Vec::new();
    let r = parse_nodes(&mut cur, &mut out);
    assert_eq!(r, Err(MshError::MalformedNodeCoordinates { line: 5 }));
    assert_eq!(out.len(), 1);
    assert_eq!(out[0].tag, 1);
    assert_eq!(text(&out[0].x), "0");
    assert_eq!(text(&out[0].y), "0");
    // The cursor stands after the malformed line.
    assert_eq!(cur.i, 6);
}

#[test]
fn nodes_stop_at_end_of_text() {
    let mut cur = Cursor::new("1 1 1 1\n2 1 0 1\n7");
    let mut out: Vec<NodeEntry> = Vec::new();
    assert_eq!(parse_nodes(&mut cur, &mut out), Err(MshError::UnexpectedEof));
    assert!(out.is_empty());
    assert_eq!(cur.i, 3);
}

#[test]
fn triangles_read_before_an_error_stay() {
    let mut cur = Cursor::new("1 2 1 2\n2 1 2 2\n1 1 2 3\n2 1 x 4\n$EndElements");
    let mut out: Vec<[usize; 3]> = vec![[9, 9, 9]];
    let r = parse_elements(&mut cur, &mut out);
    assert_eq!(r, Err(MshError::BadTriangleNode { line: 3 }));
    assert_eq!(out, vec![[9, 9, 9], [1, 2, 3]]);
    assert_eq!(cur.i, 4);
}

#[test]
fn missing_end_marker_leaves_cursor_at_end() {
    let mut cur = Cursor::new("0 0 0 0\na\nb");
    let mut out: Vec<[usize; 3]> = Vec::new();
    assert_eq!(
        parse_elements(&mut cur, &mut out),
        Err(MshError::MissingClosingMarker { from_line: 1 })
    );
    assert_eq!(cur.i, 3);
}

#[test]
fn skip_to_finds_trimmed_marker_or_reaches_end() {
    let end = vec!['$', 'E', 'n', 'd'];
    let mut cur = Cursor::new("a\n  $End  \nb");
    assert_eq!(cur.skip_to(&end), Ok(()));
    assert_eq!(cur.i, 2);
    let mut cur = Cursor::new("a\nb\nc");
    assert_eq!(cur.skip_to(&end), Err(MshError::MissingClosingMarker { from_line: 0 }));
    assert_eq!(cur.i, 3);
}

const BASE: &str = "$MeshFormat\n4.1 0 8\n$EndMeshFormat\n$Nodes\n1 3 1 3\n2 1 0 3\n1\n2\n3\n0 0 0\n1 0 0\n0 1 0\n$EndNodes\n$Elements\n1 1 1 1\n2 1 2 1\n1 1 2 3\n$EndElements\n";

#[test]
fn unknown_section_between_sections_is_skipped() {
    let with_section = BASE.replace(
        "$Nodes\n",
        "$PhysicalNames\n1\n2 1 \"$Nodes\"\n$EndPhysicalNames\n$Nodes\n",
    );
    let a = parse_msh_str(BASE).unwrap();
    let b = parse_msh_str(&with_section).unwrap();
    assert_eq!(a.nodes.len(), b.nodes.len());
    for (p, q) in a.nodes.iter().zip(b.nodes.iter()) {
        assert_eq!(p.x, q.x);
        assert_eq!(p.y, q.y);
    }
    assert_eq!(a.triangles, b.triangles);
    assert_eq!(a.boundary_nodes, b.boundary_nodes);
}

#[test]
fn boundary_does_not_depend_on_triangle_order() {
    let tris = [[0, 1, 4], [1, 2, 4], [2, 3, 4], [3, 0, 4], [3, 5, 0]];
    let moved = [[4, 3, 2], [0, 5, 3], [1, 4, 0], [4, 0, 3], [2, 1, 4]];
    assert_eq!(compute_boundary_nodes(&tris), compute_boundary_nodes(&moved));
    assert_eq!(compute_boundary_nodes(&tris), vec![0, 1, 2, 3, 5]);
}

#[test]
fn sections_keep_nodes_read_before_an_error() {
    let content = "$MeshFormat\n4.1 0 8\n$EndMeshFormat\n$Nodes\n1 2 1 2\n2 1 0 2\n5\n6\n1 2 0\n3 4 0\n$EndNodes\n$Elements\nbad\n";
    let (r, sec) = read_sections(content);
    assert_eq!(r, Err(MshError::MalformedElementsHeader { line: 12 }));
    assert!(sec.format_seen);
    assert_eq!(sec.nodes.len(), 2);
    assert_eq!(sec.nodes[1].tag, 6);
    assert_eq!(text(&sec.nodes[1].x), "3");
    assert!(sec.triangles.is_empty());
}

#[test]
fn mesh_from_sections_checks_in_order() {
    let (r, sec) = read_sections(BASE);
    assert_eq!(r, Ok(()));
    let mesh = mesh_from_sections(sec).unwrap();
    assert_eq!(mesh.triangles, vec![[0, 1, 2]]);
    let (_, sec) = read_sections("$Nodes\n0 0 0 0\n$EndNodes\n");
    assert_eq!(mesh_from_sections(sec).unwrap_err(), MshError::NoMeshFormat);
}
