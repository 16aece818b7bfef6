//! What the reader of `.msh` texts makes of where things stand: reading
//! from a line depends only on the lines from there on, and an unknown
//! section (`$Name` ... `$EndName`) placed between sections is skipped whole.
use vstd::prelude::*;
use crate::gmsh::{
    element_blocks_spec, element_lines_spec, elements_spec, end_elements_marker,
    end_marker_of, end_mesh_format_marker, end_nodes_marker, end_prefix, lemma_element_blocks_bounds,
    lemma_element_lines_bounds, lemma_elements_bounds, lemma_mesh_format_bounds,
    lemma_node_blocks_bounds, lemma_node_coords_bounds, lemma_node_tags_bounds, lemma_nodes_bounds,
    lemma_seek_bounds, mesh_format_marker, mesh_format_spec, msh_sections, node_blocks_spec,
    node_coords_spec, node_tags_spec, nodes_marker, nodes_spec, elements_marker, scan_spec,
    seek_spec, starts_with, NodeRecord, ELEM_TRIANGLE, mesh_of_sections, tag_set, tag_rank,
    is_tag_rank, NodeText,
};
use crate::mesh_2d::{lemma_increasing_lists_equal, Mesh2D};
use crate::text::{fields_of, parse_unsigned_spec, text_lines, trimmed};

verus! {

/// From line `j` on, the lines of `t` are those of `t2` from line `j + s`
/// on (and `t2` may go on after them).
pub open spec fn lines_agree(t: Seq<Seq<char>>, t2: Seq<Seq<char>>, j: int, s: int) -> bool {
    &&& 0 <= j
    &&& 0 <= s
    &&& t2.len() >= t.len() + s
    &&& forall|x: int| j <= x < t.len() ==> t2[x + s] == #[trigger] t[x]
}

/// An error that says the text ended inside a section or a block.
pub open spec fn ends_inside_section(e: crate::gmsh::MshError) -> bool {
    e is UnexpectedEof || e is MissingClosingMarker
}

/// `t2` ends where `t` ends.
pub open spec fn same_end(t: Seq<Seq<char>>, t2: Seq<Seq<char>>, s: int) -> bool {
    t2.len() == t.len() + s
}

proof fn lemma_seek_shift(
    t: Seq<Seq<char>>,
    t2: Seq<Seq<char>>,
    i: int,
    s: int,
    marker: Seq<char>,
    from: int,
    from2: int,
)
    requires
        lines_agree(t, t2, i, s),
    ensures
        seek_spec(t, i, marker, from) matches Ok(k) ==> seek_spec(t2, i + s, marker, from2) == Ok::<
            int,
            (crate::gmsh::MshError, int),
        >(k + s),
        seek_spec(t, i, marker, from) matches Err((e, _)) ==> e is MissingClosingMarker,
        same_end(t, t2, s) && seek_spec(t, i, marker, from) is Err ==> seek_spec(
            t2,
            i + s,
            marker,
            from2,
        ) is Err,
    decreases t.len() - i,
{
    if i < t.len() {
        assert(t2[i + s] == t[i]);
        if trimmed(t[i]) != marker {
            lemma_seek_shift(t, t2, i + 1, s, marker, from, from2);
        }
    }
}

proof fn lemma_mesh_format_shift(t: Seq<Seq<char>>, t2: Seq<Seq<char>>, i: int, s: int)
    requires
        lines_agree(t, t2, i, s),
    ensures
        mesh_format_spec(t, i) matches Ok(k) ==> mesh_format_spec(t2, i + s) == Ok::<
            int,
            (crate::gmsh::MshError, int),
        >(k + s),
        same_end(t, t2, s) && mesh_format_spec(t, i) is Err ==> mesh_format_spec(t2, i + s) is Err,
        s == 0 && (mesh_format_spec(t, i) matches Err((e, _)) && !ends_inside_section(e)) ==> mesh_format_spec(t2, i + s) == mesh_format_spec(t, i),
{
    if i < t.len() {
        assert(t2[i + s] == t[i]);
        lemma_seek_shift(t, t2, i + 1, s, end_mesh_format_marker(), i + 1, i + 1 + s);
    }
}

proof fn lemma_node_tags_shift(
    t: Seq<Seq<char>>,
    t2: Seq<Seq<char>>,
    j: int,
    s: int,
    remaining: nat,
    acc: Seq<usize>,
)
    requires
        lines_agree(t, t2, j, s),
    ensures
        node_tags_spec(t, j, remaining, acc) matches Ok((k, tags)) ==> node_tags_spec(
            t2,
            j + s,
            remaining,
            acc,
        ) == Ok::<(int, Seq<usize>), (crate::gmsh::MshError, int)>((k + s, tags)),
        same_end(t, t2, s) && node_tags_spec(t, j, remaining, acc) is Err ==> node_tags_spec(
            t2,
            j + s,
            remaining,
            acc,
        ) is Err,
        s == 0 && (node_tags_spec(t, j, remaining, acc) matches Err((e, _)) && !ends_inside_section(e)) ==> node_tags_spec(t2, j + s, remaining, acc) == node_tags_spec(t, j, remaining, acc),
    decreases remaining,
{
    if remaining > 0 && j < t.len() {
        assert(t2[j + s] == t[j]);
        if let Some(v) = parse_unsigned_spec(trimmed(t[j]), usize::MAX as int) {
            lemma_node_tags_shift(t, t2, j + 1, s, (remaining - 1) as nat, acc.push(v as usize));
        }
    }
}

proof fn lemma_node_coords_shift(
    t: Seq<Seq<char>>,
    t2: Seq<Seq<char>>,
    j: int,
    s: int,
    tags: Seq<usize>,
    k: int,
    acc: Seq<NodeRecord>,
)
    requires
        lines_agree(t, t2, j, s),
    ensures
        node_coords_spec(t, j, tags, k, acc) matches Ok((m, a2)) ==> node_coords_spec(
            t2,
            j + s,
            tags,
            k,
            acc,
        ) == Ok::<(int, Seq<NodeRecord>), (crate::gmsh::MshError, int, Seq<NodeRecord>)>(
            (m + s, a2),
        ),
        same_end(t, t2, s) && node_coords_spec(t, j, tags, k, acc) is Err ==> node_coords_spec(
            t2,
            j + s,
            tags,
            k,
            acc,
        ) is Err,
        s == 0 && (node_coords_spec(t, j, tags, k, acc) matches Err((e, _, _)) && !ends_inside_section(e)) ==> node_coords_spec(t2, j + s, tags, k, acc) == node_coords_spec(t, j, tags, k, acc),
    decreases tags.len() - k,
{
    if 0 <= k < tags.len() && j < t.len() {
        assert(t2[j + s] == t[j]);
        let c = fields_of(t[j]);
        if c.len() >= 3 {
            lemma_node_coords_shift(t, t2, j + 1, s, tags, k + 1, acc.push((tags[k], c[0], c[1])));
        }
    }
}

proof fn lemma_node_blocks_shift(
    t: Seq<Seq<char>>,
    t2: Seq<Seq<char>>,
    j: int,
    s: int,
    blocks: nat,
    acc: Seq<NodeRecord>,
)
    requires
        lines_agree(t, t2, j, s),
        j <= t.len(),
    ensures
        node_blocks_spec(t, j, blocks, acc) matches Ok((m, a2)) ==> node_blocks_spec(
            t2,
            j + s,
            blocks,
            acc,
        ) == Ok::<(int, Seq<NodeRecord>), (crate::gmsh::MshError, int, Seq<NodeRecord>)>(
            (m + s, a2),
        ),
        same_end(t, t2, s) && node_blocks_spec(t, j, blocks, acc) is Err ==> node_blocks_spec(
            t2,
            j + s,
            blocks,
            acc,
        ) is Err,
        s == 0 && (node_blocks_spec(t, j, blocks, acc) matches Err((e, _, _)) && !ends_inside_section(e)) ==> node_blocks_spec(t2, j + s, blocks, acc) == node_blocks_spec(t, j, blocks, acc),
    decreases blocks,
{
    if blocks > 0 && j < t.len() {
        assert(t2[j + s] == t[j]);
        let b = fields_of(t[j]);
        if b.len() >= 4 {
            if let Some(n) = parse_unsigned_spec(b[3], usize::MAX as int) {
                lemma_node_tags_shift(t, t2, j + 1, s, n as nat, Seq::empty());
                lemma_node_tags_bounds(t, j + 1, n as nat, Seq::empty());
                if let Ok((k, tags)) = node_tags_spec(t, j + 1, n as nat, Seq::empty()) {
                    lemma_node_coords_shift(t, t2, k, s, tags, 0, acc);
                    lemma_node_coords_bounds(t, k, tags, 0, acc);
                    if let Ok((m, acc2)) = node_coords_spec(t, k, tags, 0, acc) {
                        lemma_node_blocks_shift(t, t2, m, s, (blocks - 1) as nat, acc2);
                    }
                }
            }
        }
    }
}

proof fn lemma_nodes_shift(t: Seq<Seq<char>>, t2: Seq<Seq<char>>, i: int, s: int, acc: Seq<NodeRecord>)
    requires
        lines_agree(t, t2, i, s),
    ensures
        nodes_spec(t, i, acc) matches Ok((m, a2)) ==> nodes_spec(t2, i + s, acc) == Ok::<
            (int, Seq<NodeRecord>),
            (crate::gmsh::MshError, int, Seq<NodeRecord>),
        >((m + s, a2)),
        same_end(t, t2, s) && nodes_spec(t, i, acc) is Err ==> nodes_spec(t2, i + s, acc) is Err,
        s == 0 && (nodes_spec(t, i, acc) matches Err((e, _, _)) && !ends_inside_section(e)) ==> nodes_spec(t2, i + s, acc) == nodes_spec(t, i, acc),
{
    if i < t.len() {
        assert(t2[i + s] == t[i]);
        let h = fields_of(t[i]);
        if h.len() >= 4 {
            if let Some(nb) = parse_unsigned_spec(h[0], usize::MAX as int) {
                lemma_node_blocks_shift(t, t2, i + 1, s, nb as nat, acc);
                lemma_node_blocks_bounds(t, i + 1, nb as nat, acc);
                if let Ok((j, a)) = node_blocks_spec(t, i + 1, nb as nat, acc) {
                    lemma_seek_shift(t, t2, j, s, end_nodes_marker(), j, j + s);
                }
            }
        }
    }
}

proof fn lemma_element_lines_shift(
    t: Seq<Seq<char>>,
    t2: Seq<Seq<char>>,
    j: int,
    s: int,
    remaining: nat,
    triangles: bool,
    acc: Seq<[usize; 3]>,
)
    requires
        lines_agree(t, t2, j, s),
    ensures
        element_lines_spec(t, j, remaining, triangles, acc) matches Ok((m, a2))
            ==> element_lines_spec(t2, j + s, remaining, triangles, acc) == Ok::<
            (int, Seq<[usize; 3]>),
            (crate::gmsh::MshError, int, Seq<[usize; 3]>),
        >((m + s, a2)),
        same_end(t, t2, s) && element_lines_spec(t, j, remaining, triangles, acc) is Err
            ==> element_lines_spec(t2, j + s, remaining, triangles, acc) is Err,
        s == 0 && (element_lines_spec(t, j, remaining, triangles, acc) matches Err((e, _, _)) && !ends_inside_section(e)) ==> element_lines_spec(t2, j + s, remaining, triangles, acc) == element_lines_spec(t, j, remaining, triangles, acc),
    decreases remaining,
{
    if remaining > 0 && j < t.len() {
        assert(t2[j + s] == t[j]);
        if !triangles {
            lemma_element_lines_shift(t, t2, j + 1, s, (remaining - 1) as nat, triangles, acc);
        } else {
            let p = fields_of(t[j]);
            if p.len() >= 4 {
                match (
                    parse_unsigned_spec(p[1], usize::MAX as int),
                    parse_unsigned_spec(p[2], usize::MAX as int),
                    parse_unsigned_spec(p[3], usize::MAX as int),
                ) {
                    (Some(n0), Some(n1), Some(n2)) => {
                        lemma_element_lines_shift(
                            t,
                            t2,
                            j + 1,
                            s,
                            (remaining - 1) as nat,
                            triangles,
                            acc.push([n0 as usize, n1 as usize, n2 as usize]),
                        );
                    },
                    _ => {},
                }
            }
        }
    }
}

proof fn lemma_element_blocks_shift(
    t: Seq<Seq<char>>,
    t2: Seq<Seq<char>>,
    j: int,
    s: int,
    blocks: nat,
    acc: Seq<[usize; 3]>,
)
    requires
        lines_agree(t, t2, j, s),
        j <= t.len(),
    ensures
        element_blocks_spec(t, j, blocks, acc) matches Ok((m, a2)) ==> element_blocks_spec(
            t2,
            j + s,
            blocks,
            acc,
        ) == Ok::<(int, Seq<[usize; 3]>), (crate::gmsh::MshError, int, Seq<[usize; 3]>)>(
            (m + s, a2),
        ),
        same_end(t, t2, s) && element_blocks_spec(t, j, blocks, acc) is Err ==> element_blocks_spec(
            t2,
            j + s,
            blocks,
            acc,
        ) is Err,
        s == 0 && (element_blocks_spec(t, j, blocks, acc) matches Err((e, _, _)) && !ends_inside_section(e)) ==> element_blocks_spec(t2, j + s, blocks, acc) == element_blocks_spec(t, j, blocks, acc),
    decreases blocks,
{
    if blocks > 0 && j < t.len() {
        assert(t2[j + s] == t[j]);
        let b = fields_of(t[j]);
        if b.len() >= 4 {
            if let Some(ty) = parse_unsigned_spec(b[2], u32::MAX as int) {
                if let Some(n) = parse_unsigned_spec(b[3], usize::MAX as int) {
                    let tri = ty == ELEM_TRIANGLE as int;
                    lemma_element_lines_shift(t, t2, j + 1, s, n as nat, tri, acc);
                    lemma_element_lines_bounds(t, j + 1, n as nat, tri, acc);
                    if let Ok((k, acc2)) = element_lines_spec(t, j + 1, n as nat, tri, acc) {
                        lemma_element_blocks_shift(t, t2, k, s, (blocks - 1) as nat, acc2);
                    }
                }
            }
        }
    }
}

proof fn lemma_elements_shift(
    t: Seq<Seq<char>>,
    t2: Seq<Seq<char>>,
    i: int,
    s: int,
    acc: Seq<[usize; 3]>,
)
    requires
        lines_agree(t, t2, i, s),
    ensures
        elements_spec(t, i, acc) matches Ok((m, a2)) ==> elements_spec(t2, i + s, acc) == Ok::<
            (int, Seq<[usize; 3]>),
            (crate::gmsh::MshError, int, Seq<[usize; 3]>),
        >((m + s, a2)),
        same_end(t, t2, s) && elements_spec(t, i, acc) is Err ==> elements_spec(t2, i + s, acc) is Err,
        s == 0 && (elements_spec(t, i, acc) matches Err((e, _, _)) && !ends_inside_section(e)) ==> elements_spec(t2, i + s, acc) == elements_spec(t, i, acc),
{
    if i < t.len() {
        assert(t2[i + s] == t[i]);
        let h = fields_of(t[i]);
        if h.len() >= 4 {
            if let Some(nb) = parse_unsigned_spec(h[0], usize::MAX as int) {
                lemma_element_blocks_shift(t, t2, i + 1, s, nb as nat, acc);
                lemma_element_blocks_bounds(t, i + 1, nb as nat, acc);
                if let Ok((j, a)) = element_blocks_spec(t, i + 1, nb as nat, acc) {
                    lemma_seek_shift(t, t2, j, s, end_elements_marker(), j, j + s);
                }
            }
        }
    }
}

proof fn lemma_scan_shift_format(
    t: Seq<Seq<char>>,
    t2: Seq<Seq<char>>,
    i: int,
    s: int,
    seen: bool,
    nodes: Seq<NodeRecord>,
    tris: Seq<[usize; 3]>,
)
    requires
        lines_agree(t, t2, i, s),
        i < t.len(),
        trimmed(t[i]) == mesh_format_marker(),
    ensures
        scan_spec(t, i, seen, nodes, tris) matches Ok((seen2, nodes2, tris2)) ==> scan_spec(
            t2,
            i + s,
            seen,
            nodes,
            tris,
        ) == scan_spec(t2, t.len() + s, seen2, nodes2, tris2),
        same_end(t, t2, s) ==> (scan_spec(t, i, seen, nodes, tris) is Err <==> scan_spec(
            t2,
            i + s,
            seen,
            nodes,
            tris,
        ) is Err),
        same_end(t, t2, s) && scan_spec(t, i, seen, nodes, tris) is Ok ==> scan_spec(
            t2,
            i + s,
            seen,
            nodes,
            tris,
        ) == scan_spec(t, i, seen, nodes, tris),
        s == 0 && (scan_spec(t, i, seen, nodes, tris) matches Err(e) && !ends_inside_section(e))
            ==> scan_spec(t2, i + s, seen, nodes, tris) == scan_spec(t, i, seen, nodes, tris),
    decreases t.len() - i, 0nat,
{
    assert(t2[i + s] == t[i]);
    lemma_mesh_format_shift(t, t2, i + 1, s);
    lemma_mesh_format_bounds(t, i + 1);
    if let Ok(j) = mesh_format_spec(t, i + 1) {
        lemma_scan_shift(t, t2, j, s, true, nodes, tris);
    }
}

proof fn lemma_scan_shift_nodes(
    t: Seq<Seq<char>>,
    t2: Seq<Seq<char>>,
    i: int,
    s: int,
    seen: bool,
    nodes: Seq<NodeRecord>,
    tris: Seq<[usize; 3]>,
)
    requires
        lines_agree(t, t2, i, s),
        i < t.len(),
        trimmed(t[i]) == nodes_marker(),
    ensures
        scan_spec(t, i, seen, nodes, tris) matches Ok((seen2, nodes2, tris2)) ==> scan_spec(
            t2,
            i + s,
            seen,
            nodes,
            tris,
        ) == scan_spec(t2, t.len() + s, seen2, nodes2, tris2),
        same_end(t, t2, s) ==> (scan_spec(t, i, seen, nodes, tris) is Err <==> scan_spec(
            t2,
            i + s,
            seen,
            nodes,
            tris,
        ) is Err),
        same_end(t, t2, s) && scan_spec(t, i, seen, nodes, tris) is Ok ==> scan_spec(
            t2,
            i + s,
            seen,
            nodes,
            tris,
        ) == scan_spec(t, i, seen, nodes, tris),
        s == 0 && (scan_spec(t, i, seen, nodes, tris) matches Err(e) && !ends_inside_section(e))
            ==> scan_spec(t2, i + s, seen, nodes, tris) == scan_spec(t, i, seen, nodes, tris),
    decreases t.len() - i, 0nat,
{
    assert(t2[i + s] == t[i]);
    assert(nodes_marker() != mesh_format_marker()) by {
        assert(nodes_marker().len() != mesh_format_marker().len());
    }
    lemma_nodes_shift(t, t2, i + 1, s, nodes);
    lemma_nodes_bounds(t, i + 1, nodes);
    if let Ok((j, n2)) = nodes_spec(t, i + 1, nodes) {
        lemma_scan_shift(t, t2, j, s, seen, n2, tris);
    }
}

proof fn lemma_scan_shift_elements(
    t: Seq<Seq<char>>,
    t2: Seq<Seq<char>>,
    i: int,
    s: int,
    seen: bool,
    nodes: Seq<NodeRecord>,
    tris: Seq<[usize; 3]>,
)
    requires
        lines_agree(t, t2, i, s),
        i < t.len(),
        trimmed(t[i]) == elements_marker(),
    ensures
        scan_spec(t, i, seen, nodes, tris) matches Ok((seen2, nodes2, tris2)) ==> scan_spec(
            t2,
            i + s,
            seen,
            nodes,
            tris,
        ) == scan_spec(t2, t.len() + s, seen2, nodes2, tris2),
        same_end(t, t2, s) ==> (scan_spec(t, i, seen, nodes, tris) is Err <==> scan_spec(
            t2,
            i + s,
            seen,
            nodes,
            tris,
        ) is Err),
        same_end(t, t2, s) && scan_spec(t, i, seen, nodes, tris) is Ok ==> scan_spec(
            t2,
            i + s,
            seen,
            nodes,
            tris,
        ) == scan_spec(t, i, seen, nodes, tris),
        s == 0 && (scan_spec(t, i, seen, nodes, tris) matches Err(e) && !ends_inside_section(e))
            ==> scan_spec(t2, i + s, seen, nodes, tris) == scan_spec(t, i, seen, nodes, tris),
    decreases t.len() - i, 0nat,
{
    assert(t2[i + s] == t[i]);
    assert(elements_marker() != mesh_format_marker()) by {
        assert(elements_marker().len() != mesh_format_marker().len());
    }
    assert(elements_marker() != nodes_marker()) by {
        assert(elements_marker().len() != nodes_marker().len());
    }
    lemma_elements_shift(t, t2, i + 1, s, tris);
    lemma_elements_bounds(t, i + 1, tris);
    if let Ok((j, t3)) = elements_spec(t, i + 1, tris) {
        lemma_scan_shift(t, t2, j, s, seen, nodes, t3);
    }
}

proof fn lemma_scan_shift_other(
    t: Seq<Seq<char>>,
    t2: Seq<Seq<char>>,
    i: int,
    s: int,
    seen: bool,
    nodes: Seq<NodeRecord>,
    tris: Seq<[usize; 3]>,
)
    requires
        lines_agree(t, t2, i, s),
        i < t.len(),
        trimmed(t[i]) != mesh_format_marker() && trimmed(t[i]) != nodes_marker() && trimmed(t[i]) != elements_marker(),
    ensures
        scan_spec(t, i, seen, nodes, tris) matches Ok((seen2, nodes2, tris2)) ==> scan_spec(
            t2,
            i + s,
            seen,
            nodes,
            tris,
        ) == scan_spec(t2, t.len() + s, seen2, nodes2, tris2),
        same_end(t, t2, s) ==> (scan_spec(t, i, seen, nodes, tris) is Err <==> scan_spec(
            t2,
            i + s,
            seen,
            nodes,
            tris,
        ) is Err),
        same_end(t, t2, s) && scan_spec(t, i, seen, nodes, tris) is Ok ==> scan_spec(
            t2,
            i + s,
            seen,
            nodes,
            tris,
        ) == scan_spec(t, i, seen, nodes, tris),
        s == 0 && (scan_spec(t, i, seen, nodes, tris) matches Err(e) && !ends_inside_section(e))
            ==> scan_spec(t2, i + s, seen, nodes, tris) == scan_spec(t, i, seen, nodes, tris),
    decreases t.len() - i, 0nat,
{
    assert(t2[i + s] == t[i]);
    let l = trimmed(t[i]);
    if l.len() > 0 && l[0] == '$' && !starts_with(l, end_prefix()) {
        lemma_seek_shift(t, t2, i + 1, s, end_marker_of(l), i + 1, i + 1 + s);
        lemma_seek_bounds(t, i + 1, end_marker_of(l), i + 1);
        if let Ok(j) = seek_spec(t, i + 1, end_marker_of(l), i + 1) {
            lemma_scan_shift(t, t2, j, s, seen, nodes, tris);
        }
    } else {
        lemma_scan_shift(t, t2, i + 1, s, seen, nodes, tris);
    }
}

/// Reading the text from line `i` on: what `t` gives there, `t2` gives
/// from line `i + s` on, up to the end of `t`; when `t2` ends with `t`,
/// the two readings fail or succeed together.
pub proof fn lemma_scan_shift(
    t: Seq<Seq<char>>,
    t2: Seq<Seq<char>>,
    i: int,
    s: int,
    seen: bool,
    nodes: Seq<NodeRecord>,
    tris: Seq<[usize; 3]>,
)
    requires
        lines_agree(t, t2, i, s),
        i <= t.len(),
    ensures
        scan_spec(t, i, seen, nodes, tris) matches Ok((seen2, nodes2, tris2)) ==> scan_spec(
            t2,
            i + s,
            seen,
            nodes,
            tris,
        ) == scan_spec(t2, t.len() + s, seen2, nodes2, tris2),
        same_end(t, t2, s) ==> (scan_spec(t, i, seen, nodes, tris) is Err <==> scan_spec(
            t2,
            i + s,
            seen,
            nodes,
            tris,
        ) is Err),
        same_end(t, t2, s) && scan_spec(t, i, seen, nodes, tris) is Ok ==> scan_spec(
            t2,
            i + s,
            seen,
            nodes,
            tris,
        ) == scan_spec(t, i, seen, nodes, tris),
        s == 0 && (scan_spec(t, i, seen, nodes, tris) matches Err(e) && !ends_inside_section(e))
            ==> scan_spec(t2, i + s, seen, nodes, tris) == scan_spec(t, i, seen, nodes, tris),
    decreases t.len() - i, 1nat,
{
    if i >= t.len() {
        if same_end(t, t2, s) {
            assert(i + s >= t2.len());
        }
    } else {
        let l = trimmed(t[i]);
        if l == mesh_format_marker() {
            lemma_scan_shift_format(t, t2, i, s, seen, nodes, tris);
        } else if l == nodes_marker() {
            lemma_scan_shift_nodes(t, t2, i, s, seen, nodes, tris);
        } else if l == elements_marker() {
            lemma_scan_shift_elements(t, t2, i, s, seen, nodes, tris);
        } else {
            lemma_scan_shift_other(t, t2, i, s, seen, nodes, tris);
        }
    }
}

/// `ins` is a whole section that the reader does not know: a line
/// `$Name` (not `$MeshFormat`, `$Nodes` or `$Elements`, and not starting
/// with `$End`), lines of any content other than `$EndName`, and a closing
/// line `$EndName` (each line read without surrounding whitespace).
pub open spec fn unknown_section(ins: Seq<Seq<char>>) -> bool {
    let h = trimmed(ins[0]);
    &&& ins.len() >= 2
    &&& h.len() > 0
    &&& h[0] == '$'
    &&& !starts_with(h, end_prefix())
    &&& h != mesh_format_marker()
    &&& h != nodes_marker()
    &&& h != elements_marker()
    &&& trimmed(ins.last()) == end_marker_of(h)
    &&& forall|k: int| 1 <= k < ins.len() - 1 ==> trimmed(#[trigger] ins[k]) != end_marker_of(h)
}

proof fn lemma_seek_through_section(
    a: Seq<Seq<char>>,
    ins: Seq<Seq<char>>,
    b: Seq<Seq<char>>,
    k: int,
    from: int,
)
    requires
        unknown_section(ins),
        1 <= k < ins.len(),
    ensures
        seek_spec(a + ins + b, a.len() + k, end_marker_of(trimmed(ins[0])), from) == Ok::<
            int,
            (crate::gmsh::MshError, int),
        >((a.len() + ins.len()) as int),
    decreases ins.len() - k,
{
    let t2 = a + ins + b;
    assert(t2[a.len() + k] == ins[k]);
    if k < ins.len() - 1 {
        assert(trimmed(ins[k]) != end_marker_of(trimmed(ins[0])));
        lemma_seek_through_section(a, ins, b, k + 1, from);
    } else {
        assert(ins[k] == ins.last());
    }
}

/// An unknown section placed between whole sections is skipped whole. Let
/// `ins` be an unknown section and `a` the lines before it, read on their
/// own: either they read without error (they are whole sections, so `ins`
/// stands between sections), or they fail on their own lines (not by
/// ending inside a section). Then the text with lines `a + ins + b` reads
/// as the text with lines `a + b` does: both fail, or both give the same
/// sections, and the reader's result is a function of those sections.
pub proof fn lemma_unknown_section_skipped(
    content: Seq<char>,
    content2: Seq<char>,
    a: Seq<Seq<char>>,
    ins: Seq<Seq<char>>,
    b: Seq<Seq<char>>,
)
    requires
        text_lines(content) == a + b,
        text_lines(content2) == a + ins + b,
        !(scan_spec(a, 0, false, Seq::empty(), Seq::empty()) matches Err(e)
            && ends_inside_section(e)),
        unknown_section(ins),
    ensures
        msh_sections(content2) is Ok <==> msh_sections(content) is Ok,
        msh_sections(content) is Ok ==> msh_sections(content2) == msh_sections(content),
{
    let t = a + b;
    let t2 = a + ins + b;
    let p = a.len() as int;
    let m = ins.len() as int;
    let e: Seq<NodeRecord> = Seq::empty();
    let f: Seq<[usize; 3]> = Seq::empty();
    assert(lines_agree(a, t, 0, 0)) by {
        assert forall|x: int| 0 <= x < a.len() implies t[x + 0] == #[trigger] a[x] by {}
    }
    lemma_scan_shift(a, t, 0, 0, false, e, f);
    assert(lines_agree(a, t2, 0, 0)) by {
        assert forall|x: int| 0 <= x < a.len() implies t2[x + 0] == #[trigger] a[x] by {}
    }
    lemma_scan_shift(a, t2, 0, 0, false, e, f);
    // When the lines before `ins` fail on their own, both texts fail the
    // same way (by the two calls above); otherwise `ins` is skipped.
    if scan_spec(a, 0, false, e, f) is Ok {
        let st = scan_spec(a, 0, false, e, f)->Ok_0;
        // At line `p`, `t2` opens the unknown section and skips to its end.
        assert(t2[p] == ins[0]);
        let h = trimmed(ins[0]);
        lemma_seek_through_section(a, ins, b, 1, p + 1);
        lemma_seek_bounds(t2, p + 1, end_marker_of(h), p + 1);
        assert(scan_spec(t2, p, st.0, st.1, st.2) == scan_spec(t2, p + m, st.0, st.1, st.2));
        // After it, `t2` holds the lines of `t` from line `p` on.
        assert(lines_agree(t, t2, p, m)) by {
            assert forall|x: int| p <= x < t.len() implies t2[x + m] == #[trigger] t[x] by {
                assert(t[x] == b[x - p]);
                assert(t2[x + m] == b[x - p]);
            }
        }
        lemma_scan_shift(t, t2, p, m, st.0, st.1, st.2);
    }
}

/// The sections read fix the mesh: two meshes of the same nodes and
/// triangles hold the same node text, the same triangles and the same
/// boundary nodes.
pub proof fn lemma_mesh_of_sections_unique(
    m1: Mesh2D<NodeText>,
    m2: Mesh2D<NodeText>,
    nodes: Seq<NodeRecord>,
    tris: Seq<[usize; 3]>,
)
    requires
        mesh_of_sections(m1, nodes, tris),
        mesh_of_sections(m2, nodes, tris),
    ensures
        m1.nodes@.len() == m2.nodes@.len(),
        forall|q: int|
            0 <= q < m1.nodes@.len() ==> (#[trigger] m1.nodes@[q]).x@ == m2.nodes@[q].x@
                && m1.nodes@[q].y@ == m2.nodes@[q].y@,
        m1.triangles@ == m2.triangles@,
        m1.boundary_nodes@ == m2.boundary_nodes@,
{
    let tags = tag_set(nodes);
    assert forall|q: int| 0 <= q < m1.nodes@.len() implies (#[trigger] m1.nodes@[q]).x@
        == m2.nodes@[q].x@ && m1.nodes@[q].y@ == m2.nodes@[q].y@ by {
        assert(is_tag_rank(tags, q));
        let tg = choose|tg: usize| #[trigger] tag_rank(tags, tg) == q && tags.contains(tg);
        assert(tag_rank(tags, tg) == q);
    }
    assert forall|k: int| 0 <= k < m1.triangles@.len() implies #[trigger] m1.triangles@[k]
        == m2.triangles@[k] by {
        let t1 = m1.triangles@[k];
        let t2 = m2.triangles@[k];
        assert(t1[0] == t2[0] && t1[1] == t2[1] && t1[2] == t2[2]);
        assert(t1@ =~= t2@);
    }
    assert(m1.triangles@ =~= m2.triangles@);
    lemma_increasing_lists_equal(m1.boundary_nodes@, m2.boundary_nodes@);
}

} // verus!
