//! Reader for gmsh `.msh` v4.x ASCII meshes.
//!
//! Only triangle elements (type 2) are loaded; lines, points and
//! higher-order elements are skipped. Node coordinates are kept as the text
//! of their x and y fields (the z field is dropped): turning them into
//! numbers is left to the caller. Boundary nodes are computed
//! topologically: any edge appearing in exactly one triangle is a boundary
//! edge.
use vstd::prelude::*;
use crate::keys::{
    count_in, distinct_sorted, is_increasing, is_sorted, lemma_count_contains,
    lemma_count_in_multiset, sort_keys,
};
use crate::mesh_2d::{
    boundary_edge_list, indices_increasing, is_boundary_edge, is_boundary_node,
    lemma_boundary_node_within, triangles_within, Mesh2D,
};
use crate::text::{
    chars_of, copy_range, fields, fields_of, parse_unsigned, parse_unsigned_spec, rows_view,
    split_lines, text_lines, trim, trimmed, lemma_rows_view_push,
};

verus! {

broadcast use vstd::seq_lib::group_to_multiset_ensures;

/// gmsh element type 2 = 3-node triangle.
pub const ELEM_TRIANGLE: u32 = 2;

/// Why a `.msh` text was refused. `line` is a 0-based line index.
#[derive(Clone, Copy, Debug, PartialEq, Eq, Structural)]
pub enum MshError {
    /// A line was needed after the last one.
    UnexpectedEof,
    /// No closing marker follows; the search started at `from_line`.
    MissingClosingMarker { from_line: usize },
    /// The `$MeshFormat` header has fewer than three fields.
    MalformedMeshFormatHeader { line: usize },
    /// The format version does not start with `4.`.
    UnsupportedVersion { line: usize },
    /// The file-type field is not an unsigned 32-bit integer.
    BadFileType { line: usize },
    /// The file type is not 0 (ASCII).
    UnsupportedFileType { file_type: u32 },
    MalformedNodesHeader { line: usize },
    BadNodeBlockCount { line: usize },
    MalformedNodeBlockHeader { line: usize },
    BadNodeCount { line: usize },
    BadNodeTag { line: usize },
    /// A node line has fewer than three coordinate fields.
    MalformedNodeCoordinates { line: usize },
    MalformedElementsHeader { line: usize },
    BadElementBlockCount { line: usize },
    MalformedElementBlockHeader { line: usize },
    BadElementType { line: usize },
    BadElementCount { line: usize },
    /// A triangle line has fewer than four fields.
    MalformedTriangle { line: usize },
    BadTriangleNode { line: usize },
    /// No `$MeshFormat` section was found.
    NoMeshFormat,
    /// No node was read.
    NoNodes,
    /// No triangle element (type 2) was read.
    NoTriangles,
    /// A triangle refers to a node tag that no node carries.
    UnknownNodeTag { tag: usize },
}

// ---------------------------------------------------------------------------
// Section markers
// ---------------------------------------------------------------------------

pub open spec fn mesh_format_marker() -> Seq<char> {
    seq!['$', 'M', 'e', 's', 'h', 'F', 'o', 'r', 'm', 'a', 't']
}

pub open spec fn end_mesh_format_marker() -> Seq<char> {
    seq!['$', 'E', 'n', 'd', 'M', 'e', 's', 'h', 'F', 'o', 'r', 'm', 'a', 't']
}

pub open spec fn nodes_marker() -> Seq<char> {
    seq!['$', 'N', 'o', 'd', 'e', 's']
}

pub open spec fn end_nodes_marker() -> Seq<char> {
    seq!['$', 'E', 'n', 'd', 'N', 'o', 'd', 'e', 's']
}

pub open spec fn elements_marker() -> Seq<char> {
    seq!['$', 'E', 'l', 'e', 'm', 'e', 'n', 't', 's']
}

pub open spec fn end_elements_marker() -> Seq<char> {
    seq!['$', 'E', 'n', 'd', 'E', 'l', 'e', 'm', 'e', 'n', 't', 's']
}

pub open spec fn end_prefix() -> Seq<char> {
    seq!['$', 'E', 'n', 'd']
}

pub open spec fn starts_with(s: Seq<char>, p: Seq<char>) -> bool {
    s.len() >= p.len() && s.take(p.len() as int) == p
}

/// A version field of the 4.x family.
pub open spec fn is_v4_version(v: Seq<char>) -> bool {
    starts_with(v, seq!['4', '.'])
}

// ---------------------------------------------------------------------------
// Specification of the reader, over the lines of the text
// ---------------------------------------------------------------------------

/// Searches from line `i` for a line whose trimmed text is `marker`; gives
/// the index of the line after it. On an error, the line where reading
/// stopped comes with it: here, the end of the text.
pub open spec fn seek_spec(t: Seq<Seq<char>>, i: int, marker: Seq<char>, from: int) -> Result<
    int,
    (MshError, int),
>
    decreases t.len() - i,
{
    if i < 0 || i >= t.len() {
        Err((MshError::MissingClosingMarker { from_line: from as usize }, i))
    } else if trimmed(t[i]) == marker {
        Ok(i + 1)
    } else {
        seek_spec(t, i + 1, marker, from)
    }
}

pub open spec fn skip_to_spec(t: Seq<Seq<char>>, i: int, marker: Seq<char>) -> Result<
    int,
    (MshError, int),
> {
    seek_spec(t, i, marker, i)
}

pub proof fn lemma_seek_bounds(t: Seq<Seq<char>>, i: int, marker: Seq<char>, from: int)
    requires
        0 <= i,
    ensures
        seek_spec(t, i, marker, from) matches Ok(j) ==> i < j <= t.len(),
    decreases t.len() - i,
{
    if 0 <= i < t.len() && trimmed(t[i]) != marker {
        lemma_seek_bounds(t, i + 1, marker, from);
    }
}

/// A failed search stops at the end of the text (or where it started, when
/// that is past the end).
pub proof fn lemma_seek_stops_at_end(t: Seq<Seq<char>>, i: int, marker: Seq<char>, from: int)
    requires
        0 <= i,
    ensures
        seek_spec(t, i, marker, from) matches Err((_, k)) ==> k == if i <= t.len() {
            t.len() as int
        } else {
            i
        },
    decreases t.len() - i,
{
    if 0 <= i < t.len() && trimmed(t[i]) != marker {
        lemma_seek_stops_at_end(t, i + 1, marker, from);
    }
}

/// The `$MeshFormat` body starting at line `i`: `version file-type size`,
/// version 4.x, file type 0 (ASCII); then up to `$EndMeshFormat`. An
/// error comes with the line where reading stopped.
pub open spec fn mesh_format_spec(t: Seq<Seq<char>>, i: int) -> Result<int, (MshError, int)> {
    if i < 0 || i >= t.len() {
        Err((MshError::UnexpectedEof, i))
    } else {
        let h = fields_of(t[i]);
        if h.len() < 3 {
            Err((MshError::MalformedMeshFormatHeader { line: i as usize }, i + 1))
        } else if !is_v4_version(h[0]) {
            Err((MshError::UnsupportedVersion { line: i as usize }, i + 1))
        } else {
            match parse_unsigned_spec(h[1], u32::MAX as int) {
                None => Err((MshError::BadFileType { line: i as usize }, i + 1)),
                Some(ft) => if ft != 0 {
                    Err((MshError::UnsupportedFileType { file_type: ft as u32 }, i + 1))
                } else {
                    skip_to_spec(t, i + 1, end_mesh_format_marker())
                },
            }
        }
    }
}

pub proof fn lemma_mesh_format_bounds(t: Seq<Seq<char>>, i: int)
    requires
        0 <= i,
    ensures
        mesh_format_spec(t, i) matches Ok(j) ==> i < j <= t.len(),
{
    if 0 <= i < t.len() {
        lemma_seek_bounds(t, i + 1, end_mesh_format_marker(), i + 1);
    }
}

/// A node as read: its tag and the text of its x and y fields.
pub type NodeRecord = (usize, Seq<char>, Seq<char>);

/// Reading nodes: on success the line after the part read and the nodes
/// read so far; on an error the error, the line where reading stopped and
/// the nodes read before it.
pub type NodesRead = Result<(int, Seq<NodeRecord>), (MshError, int, Seq<NodeRecord>)>;

/// Reading triangles, in the same way as `NodesRead`.
pub type TrianglesRead = Result<(int, Seq<[usize; 3]>), (MshError, int, Seq<[usize; 3]>)>;

/// `remaining` node-tag lines from line `j` on, one tag per line.
pub open spec fn node_tags_spec(t: Seq<Seq<char>>, j: int, remaining: nat, acc: Seq<usize>) -> Result<
    (int, Seq<usize>),
    (MshError, int),
>
    decreases remaining,
{
    if remaining == 0 {
        Ok((j, acc))
    } else if j < 0 || j >= t.len() {
        Err((MshError::UnexpectedEof, j))
    } else {
        match parse_unsigned_spec(trimmed(t[j]), usize::MAX as int) {
            None => Err((MshError::BadNodeTag { line: j as usize }, j + 1)),
            Some(v) => node_tags_spec(t, j + 1, (remaining - 1) as nat, acc.push(v as usize)),
        }
    }
}

/// One coordinate line per tag of `tags[k..]`, from line `j` on.
pub open spec fn node_coords_spec(
    t: Seq<Seq<char>>,
    j: int,
    tags: Seq<usize>,
    k: int,
    acc: Seq<NodeRecord>,
) -> NodesRead
    decreases tags.len() - k,
{
    if k < 0 || k >= tags.len() {
        Ok((j, acc))
    } else if j < 0 || j >= t.len() {
        Err((MshError::UnexpectedEof, j, acc))
    } else {
        let c = fields_of(t[j]);
        if c.len() < 3 {
            Err((MshError::MalformedNodeCoordinates { line: j as usize }, j + 1, acc))
        } else {
            node_coords_spec(t, j + 1, tags, k + 1, acc.push((tags[k], c[0], c[1])))
        }
    }
}

/// Continues with the remaining `blocks` node blocks once a block's
/// coordinates are read.
pub open spec fn node_block_rest(
    t: Seq<Seq<char>>,
    r: NodesRead,
    blocks: nat,
) -> NodesRead
    decreases blocks, 1nat,
{
    match r {
        Err(e) => Err(e),
        Ok((m, acc2)) => node_blocks_spec(t, m, blocks, acc2),
    }
}

/// Continues once a block's tags are read: its coordinates, then the
/// remaining `blocks` blocks.
pub open spec fn node_tags_rest(
    t: Seq<Seq<char>>,
    r: Result<(int, Seq<usize>), (MshError, int)>,
    acc: Seq<NodeRecord>,
    blocks: nat,
) -> NodesRead
    decreases blocks, 2nat,
{
    match r {
        Err((e, k)) => Err((e, k, acc)),
        Ok((k, tags)) => node_block_rest(t, node_coords_spec(t, k, tags, 0, acc), blocks),
    }
}

/// `blocks` node blocks from line `j` on: a header whose fourth field is
/// the number of nodes, then their tags, then their coordinates.
pub open spec fn node_blocks_spec(t: Seq<Seq<char>>, j: int, blocks: nat, acc: Seq<NodeRecord>) -> NodesRead
    decreases blocks, 0nat,
{
    if blocks == 0 {
        Ok((j, acc))
    } else if j < 0 || j >= t.len() {
        Err((MshError::UnexpectedEof, j, acc))
    } else {
        let b = fields_of(t[j]);
        if b.len() < 4 {
            Err((MshError::MalformedNodeBlockHeader { line: j as usize }, j + 1, acc))
        } else {
            match parse_unsigned_spec(b[3], usize::MAX as int) {
                None => Err((MshError::BadNodeCount { line: j as usize }, j + 1, acc)),
                Some(n) => node_tags_rest(
                    t,
                    node_tags_spec(t, j + 1, n as nat, Seq::empty()),
                    acc,
                    (blocks - 1) as nat,
                ),
            }
        }
    }
}

/// After the last node block: up to `$EndNodes`.
pub open spec fn nodes_tail_spec(t: Seq<Seq<char>>, r: NodesRead) -> NodesRead {
    match r {
        Err(e) => Err(e),
        Ok((j, acc)) => match skip_to_spec(t, j, end_nodes_marker()) {
            Err((e, k)) => Err((e, k, acc)),
            Ok(k) => Ok((k, acc)),
        },
    }
}

/// The `$Nodes` body starting at line `i`; read nodes are appended to `acc`.
pub open spec fn nodes_spec(t: Seq<Seq<char>>, i: int, acc: Seq<NodeRecord>) -> NodesRead {
    if i < 0 || i >= t.len() {
        Err((MshError::UnexpectedEof, i, acc))
    } else {
        let h = fields_of(t[i]);
        if h.len() < 4 {
            Err((MshError::MalformedNodesHeader { line: i as usize }, i + 1, acc))
        } else {
            match parse_unsigned_spec(h[0], usize::MAX as int) {
                None => Err((MshError::BadNodeBlockCount { line: i as usize }, i + 1, acc)),
                Some(nb) => nodes_tail_spec(t, node_blocks_spec(t, i + 1, nb as nat, acc)),
            }
        }
    }
}

/// `remaining` element lines from line `j` on; when they are triangles, each
/// gives the node tags in its fields 2 to 4.
pub open spec fn element_lines_spec(
    t: Seq<Seq<char>>,
    j: int,
    remaining: nat,
    triangles: bool,
    acc: Seq<[usize; 3]>,
) -> TrianglesRead
    decreases remaining,
{
    if remaining == 0 {
        Ok((j, acc))
    } else if j < 0 || j >= t.len() {
        Err((MshError::UnexpectedEof, j, acc))
    } else if !triangles {
        element_lines_spec(t, j + 1, (remaining - 1) as nat, triangles, acc)
    } else {
        let p = fields_of(t[j]);
        if p.len() < 4 {
            Err((MshError::MalformedTriangle { line: j as usize }, j + 1, acc))
        } else {
            match (
                parse_unsigned_spec(p[1], usize::MAX as int),
                parse_unsigned_spec(p[2], usize::MAX as int),
                parse_unsigned_spec(p[3], usize::MAX as int),
            ) {
                (Some(n0), Some(n1), Some(n2)) => element_lines_spec(
                    t,
                    j + 1,
                    (remaining - 1) as nat,
                    triangles,
                    acc.push([n0 as usize, n1 as usize, n2 as usize]),
                ),
                _ => Err((MshError::BadTriangleNode { line: j as usize }, j + 1, acc)),
            }
        }
    }
}

/// Continues with the remaining `blocks` element blocks.
pub open spec fn element_block_rest(
    t: Seq<Seq<char>>,
    r: TrianglesRead,
    blocks: nat,
) -> TrianglesRead
    decreases blocks, 1nat,
{
    match r {
        Err(e) => Err(e),
        Ok((k, acc2)) => element_blocks_spec(t, k, blocks, acc2),
    }
}

/// `blocks` element blocks from line `j` on: a header whose third field is
/// the element type and fourth the number of elements, then one line each.
pub open spec fn element_blocks_spec(
    t: Seq<Seq<char>>,
    j: int,
    blocks: nat,
    acc: Seq<[usize; 3]>,
) -> TrianglesRead
    decreases blocks, 0nat,
{
    if blocks == 0 {
        Ok((j, acc))
    } else if j < 0 || j >= t.len() {
        Err((MshError::UnexpectedEof, j, acc))
    } else {
        let b = fields_of(t[j]);
        if b.len() < 4 {
            Err((MshError::MalformedElementBlockHeader { line: j as usize }, j + 1, acc))
        } else {
            match parse_unsigned_spec(b[2], u32::MAX as int) {
                None => Err((MshError::BadElementType { line: j as usize }, j + 1, acc)),
                Some(ty) => match parse_unsigned_spec(b[3], usize::MAX as int) {
                    None => Err((MshError::BadElementCount { line: j as usize }, j + 1, acc)),
                    Some(n) => element_block_rest(
                        t,
                        element_lines_spec(t, j + 1, n as nat, ty == ELEM_TRIANGLE as int, acc),
                        (blocks - 1) as nat,
                    ),
                },
            }
        }
    }
}

/// After the last element block: up to `$EndElements`.
pub open spec fn elements_tail_spec(
    t: Seq<Seq<char>>,
    r: TrianglesRead,
) -> TrianglesRead {
    match r {
        Err(e) => Err(e),
        Ok((j, acc)) => match skip_to_spec(t, j, end_elements_marker()) {
            Err((e, k)) => Err((e, k, acc)),
            Ok(k) => Ok((k, acc)),
        },
    }
}

/// The `$Elements` body starting at line `i`; triangles are appended to `acc`.
pub open spec fn elements_spec(t: Seq<Seq<char>>, i: int, acc: Seq<[usize; 3]>) -> TrianglesRead {
    if i < 0 || i >= t.len() {
        Err((MshError::UnexpectedEof, i, acc))
    } else {
        let h = fields_of(t[i]);
        if h.len() < 4 {
            Err((MshError::MalformedElementsHeader { line: i as usize }, i + 1, acc))
        } else {
            match parse_unsigned_spec(h[0], usize::MAX as int) {
                None => Err((MshError::BadElementBlockCount { line: i as usize }, i + 1, acc)),
                Some(nb) => elements_tail_spec(t, element_blocks_spec(t, i + 1, nb as nat, acc)),
            }
        }
    }
}

pub proof fn lemma_node_tags_bounds(t: Seq<Seq<char>>, j: int, remaining: nat, acc: Seq<usize>)
    requires
        0 <= j <= t.len(),
    ensures
        node_tags_spec(t, j, remaining, acc) matches Ok((k, _)) ==> j <= k <= t.len(),
    decreases remaining,
{
    if remaining > 0 && j < t.len() {
        if let Some(v) = parse_unsigned_spec(trimmed(t[j]), usize::MAX as int) {
            lemma_node_tags_bounds(t, j + 1, (remaining - 1) as nat, acc.push(v as usize));
        }
    }
}

pub proof fn lemma_node_coords_bounds(
    t: Seq<Seq<char>>,
    j: int,
    tags: Seq<usize>,
    k: int,
    acc: Seq<NodeRecord>,
)
    requires
        0 <= j <= t.len(),
    ensures
        node_coords_spec(t, j, tags, k, acc) matches Ok((m, _)) ==> j <= m <= t.len(),
    decreases tags.len() - k,
{
    if 0 <= k < tags.len() && j < t.len() {
        let c = fields_of(t[j]);
        if c.len() >= 3 {
            lemma_node_coords_bounds(t, j + 1, tags, k + 1, acc.push((tags[k], c[0], c[1])));
        }
    }
}

pub proof fn lemma_node_blocks_bounds(t: Seq<Seq<char>>, j: int, blocks: nat, acc: Seq<NodeRecord>)
    requires
        0 <= j <= t.len(),
    ensures
        node_blocks_spec(t, j, blocks, acc) matches Ok((k, _)) ==> j <= k <= t.len(),
    decreases blocks,
{
    if blocks > 0 && j < t.len() {
        let b = fields_of(t[j]);
        if b.len() >= 4 {
            if let Some(n) = parse_unsigned_spec(b[3], usize::MAX as int) {
                lemma_node_tags_bounds(t, j + 1, n as nat, Seq::empty());
                if let Ok((k, tags)) = node_tags_spec(t, j + 1, n as nat, Seq::empty()) {
                    lemma_node_coords_bounds(t, k, tags, 0, acc);
                    if let Ok((m, acc2)) = node_coords_spec(t, k, tags, 0, acc) {
                        lemma_node_blocks_bounds(t, m, (blocks - 1) as nat, acc2);
                    }
                }
            }
        }
    }
}

pub proof fn lemma_nodes_bounds(t: Seq<Seq<char>>, i: int, acc: Seq<NodeRecord>)
    requires
        0 <= i,
    ensures
        nodes_spec(t, i, acc) matches Ok((k, _)) ==> i < k <= t.len(),
{
    if i < t.len() {
        let h = fields_of(t[i]);
        if h.len() >= 4 {
            if let Some(nb) = parse_unsigned_spec(h[0], usize::MAX as int) {
                lemma_node_blocks_bounds(t, i + 1, nb as nat, acc);
                if let Ok((j, a)) = node_blocks_spec(t, i + 1, nb as nat, acc) {
                    lemma_seek_bounds(t, j, end_nodes_marker(), j);
                }
            }
        }
    }
}

pub proof fn lemma_element_lines_bounds(
    t: Seq<Seq<char>>,
    j: int,
    remaining: nat,
    triangles: bool,
    acc: Seq<[usize; 3]>,
)
    requires
        0 <= j <= t.len(),
    ensures
        element_lines_spec(t, j, remaining, triangles, acc) matches Ok((k, _)) ==> j <= k
            <= t.len(),
    decreases remaining,
{
    if remaining > 0 && j < t.len() {
        if !triangles {
            lemma_element_lines_bounds(t, j + 1, (remaining - 1) as nat, triangles, acc);
        } else {
            let p = fields_of(t[j]);
            if p.len() >= 4 {
                match (
                    parse_unsigned_spec(p[1], usize::MAX as int),
                    parse_unsigned_spec(p[2], usize::MAX as int),
                    parse_unsigned_spec(p[3], usize::MAX as int),
                ) {
                    (Some(n0), Some(n1), Some(n2)) => {
                        lemma_element_lines_bounds(
                            t,
                            j + 1,
                            (remaining - 1) as nat,
                            triangles,
                            acc.push([n0 as usize, n1 as usize, n2 as usize]),
                        );
                    },
                    _ => {},
                }
            }
        }
    }
}

pub proof fn lemma_element_blocks_bounds(
    t: Seq<Seq<char>>,
    j: int,
    blocks: nat,
    acc: Seq<[usize; 3]>,
)
    requires
        0 <= j <= t.len(),
    ensures
        element_blocks_spec(t, j, blocks, acc) matches Ok((k, _)) ==> j <= k <= t.len(),
    decreases blocks,
{
    if blocks > 0 && j < t.len() {
        let b = fields_of(t[j]);
        if b.len() >= 4 {
            if let Some(ty) = parse_unsigned_spec(b[2], u32::MAX as int) {
                if let Some(n) = parse_unsigned_spec(b[3], usize::MAX as int) {
                    let tri = ty == ELEM_TRIANGLE as int;
                    lemma_element_lines_bounds(t, j + 1, n as nat, tri, acc);
                    if let Ok((k, acc2)) = element_lines_spec(t, j + 1, n as nat, tri, acc) {
                        lemma_element_blocks_bounds(t, k, (blocks - 1) as nat, acc2);
                    }
                }
            }
        }
    }
}

pub proof fn lemma_elements_bounds(t: Seq<Seq<char>>, i: int, acc: Seq<[usize; 3]>)
    requires
        0 <= i,
    ensures
        elements_spec(t, i, acc) matches Ok((k, _)) ==> i < k <= t.len(),
{
    if i < t.len() {
        let h = fields_of(t[i]);
        if h.len() >= 4 {
            if let Some(nb) = parse_unsigned_spec(h[0], usize::MAX as int) {
                lemma_element_blocks_bounds(t, i + 1, nb as nat, acc);
                if let Ok((j, a)) = element_blocks_spec(t, i + 1, nb as nat, acc) {
                    lemma_seek_bounds(t, j, end_elements_marker(), j);
                }
            }
        }
    }
}

// ---------------------------------------------------------------------------
// Cursor over lines
// ---------------------------------------------------------------------------

/// Line-by-line reader over a text.
pub struct Cursor {
    pub lines: Vec<Vec<char>>,
    pub i: usize,
}

impl Cursor {
    /// The lines, as character sequences.
    pub open spec fn text(&self) -> Seq<Seq<char>> {
        rows_view(self.lines@)
    }

    /// A cursor at the first line of `s`.
    pub fn new(s: &str) -> (c: Cursor)
        ensures
            c.text() == text_lines(s@),
            c.i == 0,
    {
        let chars = chars_of(s);
        let lines = split_lines(&chars);
        Cursor { lines, i: 0 }
    }

    /// The current line, if any.
    pub fn peek(&self) -> (r: Option<&Vec<char>>)
        ensures
            self.i < self.text().len() ==> (r matches Some(l) && l@ == self.text()[self.i as int]),
            self.i >= self.text().len() ==> r is None,
    {
        if self.i < self.lines.len() {
            Some(&self.lines[self.i])
        } else {
            None
        }
    }

    /// Moves to the next line.
    pub fn advance(&mut self)
        requires
            old(self).i < usize::MAX,
        ensures
            final(self).lines@ == old(self).lines@,
            final(self).i == old(self).i + 1,
    {
        self.i += 1;
    }

    /// The current line, moving past it; an error at the end of the text.
    pub fn next(&mut self) -> (r: Result<Vec<char>, MshError>)
        ensures
            final(self).lines@ == old(self).lines@,
            old(self).i < old(self).text().len() ==> (r matches Ok(l) && l@ == old(self).text()[old(
                self,
            ).i as int] && final(self).i == old(self).i + 1),
            old(self).i >= old(self).text().len() ==> r == Err::<Vec<char>, MshError>(
                MshError::UnexpectedEof,
            ) && final(self).i == old(self).i,
    {
        if self.i < self.lines.len() {
            let line = &self.lines[self.i];
            let l = copy_range(line, 0, line.len());
            assert(l@ =~= self.text()[self.i as int]);
            self.i += 1;
            Ok(l)
        } else {
            Err(MshError::UnexpectedEof)
        }
    }

    /// Moves past the next line whose trimmed text is `marker`; an error
    /// when no such line follows.
    pub fn skip_to(&mut self, marker: &Vec<char>) -> (r: Result<(), MshError>)
        ensures
            final(self).lines@ == old(self).lines@,
            match skip_to_spec(old(self).text(), old(self).i as int, marker@) {
                Ok(j) => r is Ok && final(self).i == j,
                Err((e, j)) => r == Err::<(), MshError>(e) && final(self).i == j,
            },
            skip_to_spec(old(self).text(), old(self).i as int, marker@) is Err ==> final(self).i
                == if old(self).i <= old(self).text().len() {
                old(self).text().len() as int
            } else {
                old(self).i as int
            },
    {
        let from = self.i;
        loop
            invariant
                self.lines@ == old(self).lines@,
                from == old(self).i,
                from <= self.i,
                skip_to_spec(old(self).text(), from as int, marker@) == seek_spec(
                    self.text(),
                    self.i as int,
                    marker@,
                    from as int,
                ),
            decreases self.lines@.len() - self.i,
        {
            if self.i >= self.lines.len() {
                proof {
                    lemma_seek_stops_at_end(old(self).text(), from as int, marker@, from as int);
                }
                return Err(MshError::MissingClosingMarker { from_line: from });
            }
            let l = self.next();
            match l {
                Ok(line) => {
                    let t = trim(&line);
                    if chars_equal(&t, marker) {
                        return Ok(());
                    }
                },
                Err(e) => {
                    return Err(e);
                },
            }
        }
    }
}

/// Whether `a` and `b` hold the same characters.
pub fn chars_equal(a: &Vec<char>, b: &Vec<char>) -> (r: bool)
    ensures
        r == (a@ == b@),
{
    if a.len() != b.len() {
        return false;
    }
    let mut k: usize = 0;
    while k < a.len()
        invariant
            a@.len() == b@.len(),
            k <= a.len(),
            forall|j: int| 0 <= j < k ==> a@[j] == b@[j],
        decreases a.len() - k,
    {
        if a[k] != b[k] {
            return false;
        }
        k += 1;
    }
    assert(a@ =~= b@);
    true
}

/// Whether `s` starts with `p`.
pub fn chars_start_with(s: &Vec<char>, p: &Vec<char>) -> (r: bool)
    ensures
        r == starts_with(s@, p@),
{
    if s.len() < p.len() {
        return false;
    }
    let mut k: usize = 0;
    while k < p.len()
        invariant
            s@.len() >= p@.len(),
            k <= p.len(),
            forall|j: int| 0 <= j < k ==> s@[j] == p@[j],
        decreases p.len() - k,
    {
        if s[k] != p[k] {
            assert(s@.take(p@.len() as int)[k as int] != p@[k as int]);
            return false;
        }
        k += 1;
    }
    assert(s@.take(p@.len() as int) =~= p@);
    true
}

/// Parses the `$MeshFormat` body at the cursor: header `version file-type
/// data-size` with a 4.x version and file type 0, then up to
/// `$EndMeshFormat`.
pub fn parse_mesh_format(cur: &mut Cursor) -> (r: Result<(), MshError>)
    ensures
        final(cur).lines@ == old(cur).lines@,
        match mesh_format_spec(old(cur).text(), old(cur).i as int) {
            Ok(j) => r is Ok && final(cur).i == j,
            Err((e, j)) => r == Err::<(), MshError>(e) && final(cur).i == j,
        },
{
    let line_no = cur.i;
    let header = cur.next()?;
    let parts = fields(&header);
    if parts.len() < 3 {
        return Err(MshError::MalformedMeshFormatHeader { line: line_no });
    }
    let version_prefix = vec!['4', '.'];
    assert(version_prefix@ =~= seq!['4', '.']);
    assert(parts@[0]@ == fields_of(header@)[0]);
    if !chars_start_with(&parts[0], &version_prefix) {
        return Err(MshError::UnsupportedVersion { line: line_no });
    }
    assert(parts@[1]@ == fields_of(header@)[1]);
    let file_type = match parse_unsigned(&parts[1], u32::MAX as usize) {
        Some(v) => v,
        None => {
            return Err(MshError::BadFileType { line: line_no });
        },
    };
    if file_type != 0 {
        return Err(MshError::UnsupportedFileType { file_type: file_type as u32 });
    }
    let marker = vec!['$', 'E', 'n', 'd', 'M', 'e', 's', 'h', 'F', 'o', 'r', 'm', 'a', 't'];
    assert(marker@ =~= end_mesh_format_marker());
    cur.skip_to(&marker)
}

/// A node as read, before node tags are turned into indices.
pub struct NodeEntry {
    pub tag: usize,
    pub x: Vec<char>,
    pub y: Vec<char>,
}

pub open spec fn entry_view(e: NodeEntry) -> NodeRecord {
    (e.tag, e.x@, e.y@)
}

pub open spec fn entries_view(v: Seq<NodeEntry>) -> Seq<NodeRecord> {
    v.map_values(|e: NodeEntry| entry_view(e))
}

/// Parses the `$Nodes` body at the cursor, appending the nodes read to
/// `out`: a header whose first field is the number of blocks; per block a
/// header whose fourth field is the number of nodes, their tags (one per
/// line), then their coordinates (one line each, at least three fields);
/// then up to `$EndNodes`.
pub fn parse_nodes(cur: &mut Cursor, out: &mut Vec<NodeEntry>) -> (r: Result<(), MshError>)
    ensures
        final(cur).lines@ == old(cur).lines@,
        match nodes_spec(old(cur).text(), old(cur).i as int, entries_view(old(out)@)) {
            Ok((j, acc)) => r is Ok && final(cur).i == j && entries_view(final(out)@) == acc,
            Err((e, j, acc)) => r == Err::<(), MshError>(e) && final(cur).i == j && entries_view(
                final(out)@,
            ) == acc,
        },
{
    let ghost t = cur.text();
    let ghost i0 = cur.i as int;
    let ghost acc0 = entries_view(out@);
    let line_no = cur.i;
    let header = cur.next()?;
    let h = fields(&header);
    if h.len() < 4 {
        return Err(MshError::MalformedNodesHeader { line: line_no });
    }
    assert(h@[0]@ == fields_of(header@)[0]);
    let num_blocks = match parse_unsigned(&h[0], usize::MAX) {
        Some(v) => v,
        None => {
            return Err(MshError::BadNodeBlockCount { line: line_no });
        },
    };
    let mut b: usize = 0;
    while b < num_blocks
        invariant
            cur.lines@ == old(cur).lines@,
            t == cur.text(),
            t == old(cur).text(),
            i0 == old(cur).i,
            acc0 == entries_view(old(out)@),
            b <= num_blocks,
            cur.i <= t.len(),
            nodes_spec(t, i0, acc0) == nodes_tail_spec(
                t,
                node_blocks_spec(t, cur.i as int, (num_blocks - b) as nat, entries_view(out@)),
            ),
        decreases num_blocks - b,
    {
        let block_line = cur.i;
        let block_hdr = cur.next()?;
        let bf = fields(&block_hdr);
        if bf.len() < 4 {
            return Err(MshError::MalformedNodeBlockHeader { line: block_line });
        }
        assert(bf@[3]@ == fields_of(block_hdr@)[3]);
        let n = match parse_unsigned(&bf[3], usize::MAX) {
            Some(v) => v,
            None => {
                return Err(MshError::BadNodeCount { line: block_line });
            },
        };
        let ghost tags_start = cur.i as int;
        let mut tags: Vec<usize> = Vec::new();
        let mut c: usize = 0;
        while c < n
            invariant
                cur.lines@ == old(cur).lines@,
                t == cur.text(),
                c <= n,
                tags_start <= cur.i <= t.len(),
                t == old(cur).text(),
                i0 == old(cur).i,
                acc0 == entries_view(old(out)@),
                b < num_blocks,
                nodes_spec(t, i0, acc0) == nodes_tail_spec(
                    t,
                    node_tags_rest(
                        t,
                        node_tags_spec(t, cur.i as int, (n - c) as nat, tags@),
                        entries_view(out@),
                        (num_blocks - b - 1) as nat,
                    ),
                ),
            decreases n - c,
        {
            let tag_line = cur.i;
            let l = cur.next()?;
            let tt = trim(&l);
            match parse_unsigned(&tt, usize::MAX) {
                Some(v) => {
                    tags.push(v);
                },
                None => {
                    return Err(MshError::BadNodeTag { line: tag_line });
                },
            }
            c += 1;
        }
        let ghost coords_start = cur.i as int;
        let ghost acc_block = entries_view(out@);
        let mut k: usize = 0;
        while k < tags.len()
            invariant
                cur.lines@ == old(cur).lines@,
                t == cur.text(),
                k <= tags@.len(),
                coords_start <= cur.i <= t.len(),
                t == old(cur).text(),
                i0 == old(cur).i,
                acc0 == entries_view(old(out)@),
                b < num_blocks,
                nodes_spec(t, i0, acc0) == nodes_tail_spec(
                    t,
                    node_block_rest(
                        t,
                        node_coords_spec(t, cur.i as int, tags@, k as int, entries_view(out@)),
                        (num_blocks - b - 1) as nat,
                    ),
                ),
            decreases tags@.len() - k,
        {
            let coord_line = cur.i;
            let l = cur.next()?;
            let cf = fields(&l);
            if cf.len() < 3 {
                return Err(MshError::MalformedNodeCoordinates { line: coord_line });
            }
            assert(cf@[0]@ == fields_of(l@)[0]);
            assert(cf@[1]@ == fields_of(l@)[1]);
            let x = copy_range(&cf[0], 0, cf[0].len());
            let y = copy_range(&cf[1], 0, cf[1].len());
            assert(x@ =~= cf@[0]@);
            assert(y@ =~= cf@[1]@);
            let ghost before = out@;
            out.push(NodeEntry { tag: tags[k], x, y });
            assert(entries_view(out@) =~= entries_view(before).push(
                (tags@[k as int], fields_of(l@)[0], fields_of(l@)[1]),
            ));
            k += 1;
        }
        b += 1;
    }
    let marker = vec!['$', 'E', 'n', 'd', 'N', 'o', 'd', 'e', 's'];
    assert(marker@ =~= end_nodes_marker());
    cur.skip_to(&marker)
}

/// Parses the `$Elements` body at the cursor, appending the node tags of
/// each triangle (type 2) to `out`: a header whose first field is the
/// number of blocks; per block a header whose third field is the element
/// type and fourth the number of elements, then one line per element (for
/// triangles: element tag and three node tags); then up to `$EndElements`.
pub fn parse_elements(cur: &mut Cursor, out: &mut Vec<[usize; 3]>) -> (r: Result<(), MshError>)
    ensures
        final(cur).lines@ == old(cur).lines@,
        match elements_spec(old(cur).text(), old(cur).i as int, old(out)@) {
            Ok((j, acc)) => r is Ok && final(cur).i == j && final(out)@ == acc,
            Err((e, j, acc)) => r == Err::<(), MshError>(e) && final(cur).i == j && final(out)@
                == acc,
        },
{
    let ghost t = cur.text();
    let ghost i0 = cur.i as int;
    let ghost acc0 = out@;
    let line_no = cur.i;
    let header = cur.next()?;
    let h = fields(&header);
    if h.len() < 4 {
        return Err(MshError::MalformedElementsHeader { line: line_no });
    }
    assert(h@[0]@ == fields_of(header@)[0]);
    let num_blocks = match parse_unsigned(&h[0], usize::MAX) {
        Some(v) => v,
        None => {
            return Err(MshError::BadElementBlockCount { line: line_no });
        },
    };
    let mut b: usize = 0;
    while b < num_blocks
        invariant
            cur.lines@ == old(cur).lines@,
            t == cur.text(),
            t == old(cur).text(),
            i0 == old(cur).i,
            acc0 == old(out)@,
            b <= num_blocks,
            cur.i <= t.len(),
            elements_spec(t, i0, acc0) == elements_tail_spec(
                t,
                element_blocks_spec(t, cur.i as int, (num_blocks - b) as nat, out@),
            ),
        decreases num_blocks - b,
    {
        let block_line = cur.i;
        let block_hdr = cur.next()?;
        let bf = fields(&block_hdr);
        if bf.len() < 4 {
            return Err(MshError::MalformedElementBlockHeader { line: block_line });
        }
        assert(bf@[2]@ == fields_of(block_hdr@)[2]);
        assert(bf@[3]@ == fields_of(block_hdr@)[3]);
        let elem_type = match parse_unsigned(&bf[2], u32::MAX as usize) {
            Some(v) => v,
            None => {
                return Err(MshError::BadElementType { line: block_line });
            },
        };
        let n = match parse_unsigned(&bf[3], usize::MAX) {
            Some(v) => v,
            None => {
                return Err(MshError::BadElementCount { line: block_line });
            },
        };
        let is_triangle = elem_type == ELEM_TRIANGLE as usize;
        let ghost lines_start = cur.i as int;
        let ghost acc_block = out@;
        let mut c: usize = 0;
        while c < n
            invariant
                cur.lines@ == old(cur).lines@,
                t == cur.text(),
                c <= n,
                lines_start <= cur.i <= t.len(),
                t == old(cur).text(),
                i0 == old(cur).i,
                acc0 == old(out)@,
                b < num_blocks,
                is_triangle == (elem_type == ELEM_TRIANGLE as int),
                elements_spec(t, i0, acc0) == elements_tail_spec(
                    t,
                    element_block_rest(
                        t,
                        element_lines_spec(t, cur.i as int, (n - c) as nat, is_triangle, out@),
                        (num_blocks - b - 1) as nat,
                    ),
                ),
            decreases n - c,
        {
            let elem_line = cur.i;
            let l = cur.next()?;
            if is_triangle {
                let parts = fields(&l);
                if parts.len() < 4 {
                    return Err(MshError::MalformedTriangle { line: elem_line });
                }
                assert(parts@[1]@ == fields_of(l@)[1]);
                assert(parts@[2]@ == fields_of(l@)[2]);
                assert(parts@[3]@ == fields_of(l@)[3]);
                let n0 = parse_unsigned(&parts[1], usize::MAX);
                let n1 = parse_unsigned(&parts[2], usize::MAX);
                let n2 = parse_unsigned(&parts[3], usize::MAX);
                match (n0, n1, n2) {
                    (Some(a), Some(b2), Some(c2)) => {
                        out.push([a, b2, c2]);
                    },
                    _ => {
                        return Err(MshError::BadTriangleNode { line: elem_line });
                    },
                }
            }
            c += 1;
        }
        b += 1;
    }
    let marker = vec!['$', 'E', 'n', 'd', 'E', 'l', 'e', 'm', 'e', 'n', 't', 's'];
    assert(marker@ =~= end_elements_marker());
    cur.skip_to(&marker)
}

// ---------------------------------------------------------------------------
// The whole text
// ---------------------------------------------------------------------------

/// What the sections read so far hold: whether `$MeshFormat` was seen, the
/// nodes in reading order, and the node tags of the triangles.
pub type ScanState = (bool, Seq<NodeRecord>, Seq<[usize; 3]>);

/// The marker that closes an unknown section `$Name`: `$EndName`.
pub open spec fn end_marker_of(l: Seq<char>) -> Seq<char> {
    end_prefix() + l.drop_first()
}

/// Reads the text from line `i` on: known sections are parsed, other
/// sections (`$Name` ... `$EndName`) are skipped, other lines are ignored.
pub open spec fn scan_spec(
    t: Seq<Seq<char>>,
    i: int,
    seen: bool,
    nodes: Seq<NodeRecord>,
    tris: Seq<[usize; 3]>,
) -> Result<ScanState, MshError>
    decreases t.len() - i,
{
    if i < 0 || i >= t.len() {
        Ok((seen, nodes, tris))
    } else {
        let l = trimmed(t[i]);
        if l == mesh_format_marker() {
            proof {
                lemma_mesh_format_bounds(t, i + 1);
            }
            match mesh_format_spec(t, i + 1) {
                Err((e, _)) => Err(e),
                Ok(j) => scan_spec(t, j, true, nodes, tris),
            }
        } else if l == nodes_marker() {
            proof {
                lemma_nodes_bounds(t, i + 1, nodes);
            }
            match nodes_spec(t, i + 1, nodes) {
                Err((e, _, _)) => Err(e),
                Ok((j, n2)) => scan_spec(t, j, seen, n2, tris),
            }
        } else if l == elements_marker() {
            proof {
                lemma_elements_bounds(t, i + 1, tris);
            }
            match elements_spec(t, i + 1, tris) {
                Err((e, _, _)) => Err(e),
                Ok((j, t2)) => scan_spec(t, j, seen, nodes, t2),
            }
        } else if l.len() > 0 && l[0] == '$' && !starts_with(l, end_prefix()) {
            proof {
                lemma_seek_bounds(t, i + 1, end_marker_of(l), i + 1);
            }
            match skip_to_spec(t, i + 1, end_marker_of(l)) {
                Err((e, _)) => Err(e),
                Ok(j) => scan_spec(t, j, seen, nodes, tris),
            }
        } else {
            scan_spec(t, i + 1, seen, nodes, tris)
        }
    }
}

/// The sections of a `.msh` text.
pub open spec fn msh_sections(content: Seq<char>) -> Result<ScanState, MshError> {
    scan_spec(text_lines(content), 0, false, Seq::empty(), Seq::empty())
}

/// The nodes read when reading the text from line `i` on stops, at its end
/// or at an error: the nodes read before an error stay.
pub open spec fn scan_nodes_read(
    t: Seq<Seq<char>>,
    i: int,
    seen: bool,
    nodes: Seq<NodeRecord>,
    tris: Seq<[usize; 3]>,
) -> Seq<NodeRecord>
    decreases t.len() - i,
{
    if i < 0 || i >= t.len() {
        nodes
    } else {
        let l = trimmed(t[i]);
        if l == mesh_format_marker() {
            proof {
                lemma_mesh_format_bounds(t, i + 1);
            }
            match mesh_format_spec(t, i + 1) {
                Err(_) => nodes,
                Ok(j) => scan_nodes_read(t, j, true, nodes, tris),
            }
        } else if l == nodes_marker() {
            proof {
                lemma_nodes_bounds(t, i + 1, nodes);
            }
            match nodes_spec(t, i + 1, nodes) {
                Err((_, _, acc)) => acc,
                Ok((j, n2)) => scan_nodes_read(t, j, seen, n2, tris),
            }
        } else if l == elements_marker() {
            proof {
                lemma_elements_bounds(t, i + 1, tris);
            }
            match elements_spec(t, i + 1, tris) {
                Err(_) => nodes,
                Ok((j, t2)) => scan_nodes_read(t, j, seen, nodes, t2),
            }
        } else if l.len() > 0 && l[0] == '$' && !starts_with(l, end_prefix()) {
            proof {
                lemma_seek_bounds(t, i + 1, end_marker_of(l), i + 1);
            }
            match skip_to_spec(t, i + 1, end_marker_of(l)) {
                Err(_) => nodes,
                Ok(j) => scan_nodes_read(t, j, seen, nodes, tris),
            }
        } else {
            scan_nodes_read(t, i + 1, seen, nodes, tris)
        }
    }
}

/// The nodes of a `.msh` text read before reading stops.
pub open spec fn msh_nodes_read(content: Seq<char>) -> Seq<NodeRecord> {
    scan_nodes_read(text_lines(content), 0, false, Seq::empty(), Seq::empty())
}

/// The tags of the nodes read.
pub open spec fn node_tags(nodes: Seq<NodeRecord>) -> Seq<usize> {
    nodes.map_values(|r: NodeRecord| r.0)
}

/// The distinct node tags.
pub open spec fn tag_set(nodes: Seq<NodeRecord>) -> Set<usize> {
    node_tags(nodes).to_set()
}

/// The index of the node tagged `t`: how many tags are smaller. Nodes are
/// numbered in increasing tag order.
pub open spec fn tag_rank(tags: Set<usize>, t: usize) -> nat {
    tags.filter(below(t)).len()
}

/// `q` is the index of a node: the rank of one of the tags.
pub open spec fn is_tag_rank(tags: Set<usize>, q: int) -> bool {
    exists|tg: usize| #[trigger] tag_rank(tags, tg) == q && tags.contains(tg)
}

/// The predicate `k < t`.
pub open spec fn below(t: usize) -> spec_fn(usize) -> bool {
    |k: usize| k < t
}

/// The last node read with tag `t` (-1 if none): a later node with the same
/// tag replaces an earlier one.
pub open spec fn last_with_tag(nodes: Seq<NodeRecord>, t: usize) -> int
    decreases nodes.len(),
{
    if nodes.len() == 0 {
        -1
    } else if nodes.last().0 == t {
        nodes.len() - 1
    } else {
        last_with_tag(nodes.drop_last(), t)
    }
}

/// The first node tag, in triangle order and then corner order, that no
/// node carries.
pub open spec fn first_unknown_tag(tris: Seq<[usize; 3]>, tags: Set<usize>, k: int) -> Option<
    usize,
>
    decreases tris.len() - k,
{
    if k < 0 || k >= tris.len() {
        None
    } else if !tags.contains(tris[k][0]) {
        Some(tris[k][0])
    } else if !tags.contains(tris[k][1]) {
        Some(tris[k][1])
    } else if !tags.contains(tris[k][2]) {
        Some(tris[k][2])
    } else {
        first_unknown_tag(tris, tags, k + 1)
    }
}

/// The text of a node's x and y coordinate fields.
#[derive(Clone, Debug)]
pub struct NodeText {
    pub x: String,
    pub y: String,
}

/// `m` is the mesh of the nodes and triangles read: nodes in increasing tag
/// order, each with the coordinates of the last node read with its tag;
/// triangle corners as node indices; boundary nodes computed topologically.
pub open spec fn mesh_of_sections(
    m: Mesh2D<NodeText>,
    nodes: Seq<NodeRecord>,
    tris: Seq<[usize; 3]>,
) -> bool {
    let tags = tag_set(nodes);
    &&& m.nodes@.len() == tags.len()
    &&& forall|tg: usize|
        #![trigger tag_rank(tags, tg)]
        tags.contains(tg) ==> {
            &&& tag_rank(tags, tg) < m.nodes@.len()
            &&& m.nodes@[tag_rank(tags, tg) as int].x@ == nodes[last_with_tag(nodes, tg)].1
            &&& m.nodes@[tag_rank(tags, tg) as int].y@ == nodes[last_with_tag(nodes, tg)].2
        }
    &&& forall|a: usize, b: usize|
        #![trigger tag_rank(tags, a), tag_rank(tags, b)]
        tags.contains(a) && tags.contains(b) && a < b ==> tag_rank(tags, a) < tag_rank(tags, b)
    &&& forall|q: int| 0 <= q < m.nodes@.len() ==> #[trigger] is_tag_rank(tags, q)
    &&& m.triangles@.len() == tris.len()
    &&& forall|k: int, v: int|
        0 <= k < tris.len() && 0 <= v < 3 ==> #[trigger] m.triangles@[k][v] == tag_rank(
            tags,
            tris[k][v],
        )
    &&& indices_increasing(m.boundary_nodes@)
    &&& forall|n: usize| m.boundary_nodes@.contains(n) <==> is_boundary_node(m.triangles@, n)
    &&& m.well_formed()
}

pub proof fn lemma_last_with_tag(nodes: Seq<NodeRecord>, t: usize)
    ensures
        -1 <= last_with_tag(nodes, t) < nodes.len(),
        last_with_tag(nodes, t) >= 0 ==> nodes[last_with_tag(nodes, t)].0 == t,
        node_tags(nodes).contains(t) ==> last_with_tag(nodes, t) >= 0,
    decreases nodes.len(),
{
    if nodes.len() > 0 {
        lemma_last_with_tag(nodes.drop_last(), t);
        if node_tags(nodes).contains(t) && nodes.last().0 != t {
            let k = choose|k: int| 0 <= k < node_tags(nodes).len() && node_tags(nodes)[k] == t;
            assert(node_tags(nodes.drop_last())[k] == t);
        }
    }
}

/// Ranks in a set, read off its increasing enumeration.
pub proof fn lemma_rank_of_sorted(st: Seq<usize>, tags: Set<usize>, i: int)
    requires
        indices_increasing(st),
        forall|x: usize| #[trigger] st.contains(x) <==> tags.contains(x),
        0 <= i <= st.len(),
    ensures
        tags.finite(),
        tags.len() == st.len(),
        i < st.len() ==> tag_rank(tags, st[i]) == i,
{
    assert(st.no_duplicates()) by {
        assert forall|a: int, b: int| 0 <= a < st.len() && 0 <= b < st.len() && a != b implies st[a]
            != st[b] by {
            if a < b {
                assert(st[a] < st[b]);
            } else {
                assert(st[b] < st[a]);
            }
        }
    }
    assert(st.to_set() =~= tags);
    st.unique_seq_to_set();
    if i < st.len() {
        let pre = st.take(i);
        assert(pre.no_duplicates());
        pre.unique_seq_to_set();
        let f = below(st[i]);
        assert(tags.filter(f) =~= pre.to_set()) by {
            assert forall|x: usize| #[trigger] tags.filter(f).contains(x) implies pre.to_set().contains(x) by {
                assert(st.contains(x));
                let j = choose|j: int| 0 <= j < st.len() && st[j] == x;
                if j >= i {
                    assert(st[i] <= st[j]);
                }
                assert(pre[j] == x);
            }
            assert forall|x: usize| #[trigger] pre.to_set().contains(x) implies tags.filter(f).contains(x) by {
                let j = choose|j: int| 0 <= j < pre.len() && pre[j] == x;
                assert(st[j] == x);
                assert(st.contains(x));
            }
        }
    }
}

/// Index of `x` in the increasing sequence `st`.
pub fn find_index(st: &Vec<usize>, x: usize) -> (r: Option<usize>)
    requires
        indices_increasing(st@),
    ensures
        r matches Some(i) ==> i < st@.len() && st@[i as int] == x,
        r is None ==> !st@.contains(x),
{
    let mut lo: usize = 0;
    let mut hi: usize = st.len();
    while lo < hi
        invariant
            lo <= hi <= st@.len(),
            indices_increasing(st@),
            forall|j: int| 0 <= j < lo ==> st@[j] < x,
            forall|j: int| hi <= j < st@.len() ==> st@[j] > x,
        decreases hi - lo,
    {
        let mid = lo + (hi - lo) / 2;
        if st[mid] == x {
            return Some(mid);
        } else if st[mid] < x {
            lo = mid + 1;
        } else {
            hi = mid;
        }
    }
    proof {
        if st@.contains(x) {
            let j = choose|j: int| 0 <= j < st@.len() && st@[j] == x;
            assert(false);
        }
    }
    None
}

/// The text held by `v`, as a `String` (`String::from_iter`).
#[verifier::external_body]
fn string_from_chars(v: Vec<char>) -> (s: String)
    ensures
        s@ == v@,
{
    String::from_iter(v)
}

/// The boundary nodes of `triangles`: the ends of the edges that belong to
/// exactly one triangle, in increasing order.
pub fn compute_boundary_nodes(triangles: &[[usize; 3]]) -> (r: Vec<usize>)
    ensures
        indices_increasing(r@),
        forall|n: usize| r@.contains(n) <==> is_boundary_node(triangles@, n),
{
    let edges = boundary_edge_list(triangles);
    let mut keys: Vec<u128> = Vec::new();
    let mut i: usize = 0;
    while i < edges.len()
        invariant
            i <= edges@.len(),
            forall|e: (usize, usize)| edges@.contains(e) <==> is_boundary_edge(triangles@, e),
            forall|x: u128|
                keys@.contains(x) <==> exists|j: int|
                    0 <= j < i && (x == (#[trigger] edges@[j]).0 as u128 || x == edges@[j].1 as u128),
        decreases edges@.len() - i,
    {
        let e = edges[i];
        let ghost before = keys@;
        keys.push(e.0 as u128);
        keys.push(e.1 as u128);
        assert forall|x: u128|
            keys@.contains(x) <==> exists|j: int|
                0 <= j < i + 1 && (x == (#[trigger] edges@[j]).0 as u128 || x == edges@[j].1 as u128) by {
            if keys@.contains(x) {
                let k = choose|k: int| 0 <= k < keys@.len() && keys@[k] == x;
                if k < before.len() {
                    assert(before.contains(x));
                } else {
                    assert(edges@[i as int] == e);
                }
            }
            if exists|j: int|
                0 <= j < i + 1 && (x == (#[trigger] edges@[j]).0 as u128 || x == edges@[j].1 as u128) {
                let j = choose|j: int|
                    0 <= j < i + 1 && (x == (#[trigger] edges@[j]).0 as u128 || x == edges@[j].1 as u128);
                if j < i {
                    assert(before.contains(x));
                    let k = choose|k: int| 0 <= k < before.len() && before[k] == x;
                    assert(keys@[k] == x);
                } else if x == e.0 as u128 {
                    assert(keys@[keys@.len() - 2] == x);
                } else {
                    assert(keys@[keys@.len() - 1] == x);
                }
            }
        }
        i += 1;
    }
    let ghost unsorted = keys@;
    sort_keys(&mut keys);
    let dk = distinct_sorted(&keys);
    proof {
        assert forall|x: u128| dk@.contains(x) <==> unsorted.contains(x) by {
            lemma_count_in_multiset(keys@, x);
            lemma_count_in_multiset(unsorted, x);
            lemma_count_contains(keys@, x);
            lemma_count_contains(unsorted, x);
        }
        assert forall|x: u128| dk@.contains(x) implies x <= usize::MAX by {
            assert(unsorted.contains(x));
            let j = choose|j: int|
                0 <= j < edges@.len() && (x == (#[trigger] edges@[j]).0 as u128 || x
                    == edges@[j].1 as u128);
        }
    }
    let mut out: Vec<usize> = Vec::new();
    let mut k: usize = 0;
    while k < dk.len()
        invariant
            k <= dk@.len(),
            is_increasing(dk@),
            out@.len() == k,
            forall|j: int| 0 <= j < k ==> out@[j] as u128 == #[trigger] dk@[j],
            forall|x: u128| dk@.contains(x) ==> x <= usize::MAX,
            forall|x: u128| dk@.contains(x) <==> unsorted.contains(x),
        decreases dk@.len() - k,
    {
        assert(dk@.contains(dk@[k as int]));
        out.push(dk[k] as usize);
        k += 1;
    }
    proof {
        assert forall|n: usize| out@.contains(n) <==> is_boundary_node(triangles@, n) by {
            if out@.contains(n) {
                let j = choose|j: int| 0 <= j < out@.len() && out@[j] == n;
                assert(dk@.contains(dk@[j]));
                assert(unsorted.contains(n as u128));
                let j2 = choose|j2: int|
                    0 <= j2 < edges@.len() && (n as u128 == (#[trigger] edges@[j2]).0 as u128
                        || n as u128 == edges@[j2].1 as u128);
                assert(edges@.contains(edges@[j2]));
                assert(is_boundary_edge(triangles@, edges@[j2]));
            }
            if is_boundary_node(triangles@, n) {
                let e = choose|e: (usize, usize)|
                    #[trigger] is_boundary_edge(triangles@, e) && (e.0 == n || e.1 == n);
                assert(edges@.contains(e));
                let j2 = choose|j2: int| 0 <= j2 < edges@.len() && edges@[j2] == e;
                assert(unsorted.contains(n as u128));
                assert(dk@.contains(n as u128));
                let j = choose|j: int| 0 <= j < dk@.len() && dk@[j] == n as u128;
                assert(out@[j] == n);
            }
        }
        assert forall|a: int, b: int| 0 <= a < b < out@.len() implies out@[a] < out@[b] by {
            assert(dk@[a] < dk@[b]);
        }
    }
    out
}

/// The sections of a `.msh` text as read.
pub struct Sections {
    /// Whether a `$MeshFormat` section was read.
    pub format_seen: bool,
    /// The nodes, in reading order.
    pub nodes: Vec<NodeEntry>,
    /// The node tags of the triangles, in reading order.
    pub triangles: Vec<[usize; 3]>,
}

/// Reads the sections of a `.msh` text: known sections are parsed, other
/// sections (`$Name` ... `$EndName`) are skipped, other lines are ignored.
/// On an error, the nodes read before it are kept.
pub fn read_sections(content: &str) -> (r: (Result<(), MshError>, Sections))
    ensures
        match msh_sections(content@) {
            Err(e) => r.0 == Err::<(), MshError>(e),
            Ok((seen, nodes, tris)) => r.0 is Ok && r.1.format_seen == seen && entries_view(
                r.1.nodes@,
            ) == nodes && r.1.triangles@ == tris,
        },
        entries_view(r.1.nodes@) == msh_nodes_read(content@),
{
    let mut cur = Cursor::new(content);
    let ghost t = cur.text();
    let mut format_seen = false;
    let mut entries: Vec<NodeEntry> = Vec::new();
    let mut triangle_tags: Vec<[usize; 3]> = Vec::new();
    let mesh_format = vec!['$', 'M', 'e', 's', 'h', 'F', 'o', 'r', 'm', 'a', 't'];
    let nodes_section = vec!['$', 'N', 'o', 'd', 'e', 's'];
    let elements_section = vec!['$', 'E', 'l', 'e', 'm', 'e', 'n', 't', 's'];
    let end = vec!['$', 'E', 'n', 'd'];
    assert(mesh_format@ =~= mesh_format_marker());
    assert(nodes_section@ =~= nodes_marker());
    assert(elements_section@ =~= elements_marker());
    assert(end@ =~= end_prefix());
    assert(entries_view(entries@) =~= Seq::<NodeRecord>::empty());
    assert(triangle_tags@ =~= Seq::<[usize; 3]>::empty());
    let num_lines = cur.lines.len();
    loop
        invariant
            num_lines == cur.lines@.len(),
            t == cur.text(),
            t == text_lines(content@),
            cur.i <= t.len(),
            mesh_format@ == mesh_format_marker(),
            nodes_section@ == nodes_marker(),
            elements_section@ == elements_marker(),
            end@ == end_prefix(),
            msh_sections(content@) == scan_spec(
                t,
                cur.i as int,
                format_seen,
                entries_view(entries@),
                triangle_tags@,
            ),
            msh_nodes_read(content@) == scan_nodes_read(
                t,
                cur.i as int,
                format_seen,
                entries_view(entries@),
                triangle_tags@,
            ),
        ensures
            cur.i >= t.len(),
        decreases t.len() - cur.i,
    {
        let trimmed_line = match cur.peek() {
            None => {
                break ;
            },
            Some(line) => trim(line),
        };
        let ghost i = cur.i as int;
        if chars_equal(&trimmed_line, &mesh_format) {
            cur.advance();
            proof {
                lemma_mesh_format_bounds(t, i + 1);
            }
            if let Err(e) = parse_mesh_format(&mut cur) {
                return (
                    Err(e),
                    Sections { format_seen, nodes: entries, triangles: triangle_tags },
                );
            }
            format_seen = true;
        } else if chars_equal(&trimmed_line, &nodes_section) {
            cur.advance();
            proof {
                lemma_nodes_bounds(t, i + 1, entries_view(entries@));
            }
            if let Err(e) = parse_nodes(&mut cur, &mut entries) {
                return (
                    Err(e),
                    Sections { format_seen, nodes: entries, triangles: triangle_tags },
                );
            }
        } else if chars_equal(&trimmed_line, &elements_section) {
            cur.advance();
            proof {
                lemma_elements_bounds(t, i + 1, triangle_tags@);
            }
            if let Err(e) = parse_elements(&mut cur, &mut triangle_tags) {
                return (
                    Err(e),
                    Sections { format_seen, nodes: entries, triangles: triangle_tags },
                );
            }
        } else if trimmed_line.len() > 0 && trimmed_line[0] == '$' && !chars_start_with(
            &trimmed_line,
            &end,
        ) {
            cur.advance();
            let mut marker = copy_range(&end, 0, end.len());
            let mut k: usize = 1;
            while k < trimmed_line.len()
                invariant
                    1 <= k <= trimmed_line@.len(),
                    marker@ == end_prefix() + trimmed_line@.subrange(1, k as int),
                decreases trimmed_line@.len() - k,
            {
                marker.push(trimmed_line[k]);
                k += 1;
                assert(marker@ =~= end_prefix() + trimmed_line@.subrange(1, k as int));
            }
            assert(trimmed_line@.subrange(1, k as int) =~= trimmed_line@.drop_first());
            proof {
                lemma_seek_bounds(t, i + 1, marker@, i + 1);
            }
            if let Err(e) = cur.skip_to(&marker) {
                return (
                    Err(e),
                    Sections { format_seen, nodes: entries, triangles: triangle_tags },
                );
            }
        } else {
            cur.advance();
        }
    }
    assert(cur.i >= t.len());
    (Ok(()), Sections { format_seen, nodes: entries, triangles: triangle_tags })
}

/// What the mesh of the sections read is: the first failing check, in the
/// order `$MeshFormat` seen, some node, some triangle, every triangle
/// corner a known node tag; otherwise the mesh of the sections.
pub open spec fn mesh_outcome(
    r: Result<Mesh2D<NodeText>, MshError>,
    seen: bool,
    nodes: Seq<NodeRecord>,
    tris: Seq<[usize; 3]>,
) -> bool {
    if !seen {
        r == Err::<Mesh2D<NodeText>, MshError>(MshError::NoMeshFormat)
    } else if nodes.len() == 0 {
        r == Err::<Mesh2D<NodeText>, MshError>(MshError::NoNodes)
    } else if tris.len() == 0 {
        r == Err::<Mesh2D<NodeText>, MshError>(MshError::NoTriangles)
    } else {
        match first_unknown_tag(tris, tag_set(nodes), 0) {
            Some(tag) => r == Err::<Mesh2D<NodeText>, MshError>(MshError::UnknownNodeTag { tag }),
            None => r matches Ok(m) && mesh_of_sections(m, nodes, tris),
        }
    }
}

/// Builds the mesh of the sections read: nodes numbered in increasing tag
/// order (a later node with the same tag replaces an earlier one) with the
/// text of their x and y fields, triangles by node index, and boundary
/// nodes computed topologically.
pub fn mesh_from_sections(sec: Sections) -> (r: Result<Mesh2D<NodeText>, MshError>)
    ensures
        mesh_outcome(r, sec.format_seen, entries_view(sec.nodes@), sec.triangles@),
{
    let format_seen = sec.format_seen;
    let entries = sec.nodes;
    let triangle_tags = sec.triangles;
    let ghost nodes = entries_view(entries@);
    let ghost tris = triangle_tags@;
    if !format_seen {
        return Err(MshError::NoMeshFormat);
    }
    if entries.len() == 0 {
        return Err(MshError::NoNodes);
    }
    if triangle_tags.len() == 0 {
        return Err(MshError::NoTriangles);
    }
    // Node tags in increasing order.

    let mut keys: Vec<u128> = Vec::new();
    let mut e: usize = 0;
    while e < entries.len()
        invariant
            e <= entries@.len(),
            nodes == entries_view(entries@),
            keys@ == node_tags(nodes.take(e as int)).map_values(|x: usize| x as u128),
        decreases entries@.len() - e,
    {
        keys.push(entries[e].tag as u128);
        e += 1;
        assert(keys@ =~= node_tags(nodes.take(e as int)).map_values(|x: usize| x as u128));
    }
    assert(nodes.take(e as int) =~= nodes);
    let ghost unsorted = keys@;
    sort_keys(&mut keys);
    let dk = distinct_sorted(&keys);
    proof {
        assert forall|x: u128| dk@.contains(x) <==> unsorted.contains(x) by {
            lemma_count_in_multiset(keys@, x);
            lemma_count_in_multiset(unsorted, x);
            lemma_count_contains(keys@, x);
            lemma_count_contains(unsorted, x);
        }
    }
    let mut sorted_tags: Vec<usize> = Vec::new();
    let mut k: usize = 0;
    while k < dk.len()
        invariant
            k <= dk@.len(),
            is_increasing(dk@),
            forall|x: u128| dk@.contains(x) <==> unsorted.contains(x),
            unsorted == node_tags(nodes).map_values(|x: usize| x as u128),
            sorted_tags@.len() == k,
            forall|j: int| 0 <= j < k ==> sorted_tags@[j] as u128 == #[trigger] dk@[j],
        decreases dk@.len() - k,
    {
        assert(dk@.contains(dk@[k as int]));
        assert(unsorted.contains(dk@[k as int]));
        sorted_tags.push(dk[k] as usize);
        k += 1;
    }
    let ghost tags = tag_set(nodes);
    proof {
        assert forall|a: int, b: int| 0 <= a < b < sorted_tags@.len() implies sorted_tags@[a]
            < sorted_tags@[b] by {
            assert(dk@[a] < dk@[b]);
        }
        assert forall|x: usize| #[trigger] sorted_tags@.contains(x) <==> tags.contains(x) by {
            if sorted_tags@.contains(x) {
                let j = choose|j: int| 0 <= j < sorted_tags@.len() && sorted_tags@[j] == x;
                assert(dk@.contains(dk@[j]));
                assert(unsorted.contains(x as u128));
                let q = choose|q: int| 0 <= q < unsorted.len() && unsorted[q] == x as u128;
                assert(node_tags(nodes)[q] == x);
            }
            if tags.contains(x) {
                let q = choose|q: int| 0 <= q < node_tags(nodes).len() && node_tags(nodes)[q] == x;
                assert(unsorted[q] == x as u128);
                assert(unsorted.contains(x as u128));
                assert(dk@.contains(x as u128));
                let j = choose|j: int| 0 <= j < dk@.len() && dk@[j] == x as u128;
                assert(sorted_tags@[j] == x);
            }
        }
        lemma_rank_of_sorted(sorted_tags@, tags, 0);
    }
    let n = sorted_tags.len();
    // For each node, the last entry that carries its tag.

    let mut last: Vec<usize> = Vec::new();
    while last.len() < n
        invariant
            last@.len() <= n,
        decreases n - last@.len(),
    {
        last.push(0);
    }
    let mut e: usize = 0;
    while e < entries.len()
        invariant
            e <= entries@.len(),
            nodes == entries_view(entries@),
            last@.len() == n,
            n == sorted_tags@.len(),
            indices_increasing(sorted_tags@),
            forall|x: usize| #[trigger] sorted_tags@.contains(x) <==> tags.contains(x),
            tags == tag_set(nodes),
            forall|j: int|
                0 <= j < n && last_with_tag(nodes.take(e as int), #[trigger] sorted_tags@[j]) >= 0
                    ==> last@[j] == last_with_tag(nodes.take(e as int), sorted_tags@[j]),
        decreases entries@.len() - e,
    {
        let tag = entries[e].tag;
        proof {
            assert(node_tags(nodes)[e as int] == tag);
            assert(tags.contains(tag));
        }
        let idx = match find_index(&sorted_tags, tag) {
            Some(j) => j,
            None => {
                proof {
                    assert(false);
                }
                0
            },
        };
        last.set(idx, e);
        proof {
            assert(nodes.take(e + 1).drop_last() =~= nodes.take(e as int));
            assert forall|j: int|
                0 <= j < n && last_with_tag(nodes.take(e + 1), #[trigger] sorted_tags@[j]) >= 0
                    implies last@[j] == last_with_tag(nodes.take(e + 1), sorted_tags@[j]) by {
                if j != idx {
                    assert(sorted_tags@[j] != tag) by {
                        if j < idx {
                            assert(sorted_tags@[j] < sorted_tags@[idx as int]);
                        } else {
                            assert(sorted_tags@[idx as int] < sorted_tags@[j]);
                        }
                    }
                }
            }
        }
        e += 1;
    }
    assert(nodes.take(e as int) =~= nodes);
    let mut mesh_nodes: Vec<NodeText> = Vec::new();
    let mut j: usize = 0;
    while j < n
        invariant
            j <= n,
            nodes == entries_view(entries@),
            last@.len() == n,
            n == sorted_tags@.len(),
            forall|x: usize| #[trigger] sorted_tags@.contains(x) <==> tags.contains(x),
            tags == tag_set(nodes),
            forall|q: int|
                0 <= q < n && last_with_tag(nodes, #[trigger] sorted_tags@[q]) >= 0 ==> last@[q]
                    == last_with_tag(nodes, sorted_tags@[q]),
            mesh_nodes@.len() == j,
            forall|q: int|
                0 <= q < j ==> (#[trigger] mesh_nodes@[q]).x@ == nodes[last_with_tag(
                    nodes,
                    sorted_tags@[q],
                )].1 && mesh_nodes@[q].y@ == nodes[last_with_tag(nodes, sorted_tags@[q])].2,
        decreases n - j,
    {
        proof {
            assert(sorted_tags@.contains(sorted_tags@[j as int]));
            lemma_last_with_tag(nodes, sorted_tags@[j as int]);
        }
        let src = &entries[last[j]];
        let x = string_from_chars(copy_range(&src.x, 0, src.x.len()));
        let y = string_from_chars(copy_range(&src.y, 0, src.y.len()));
        proof {
            assert(src.x@.subrange(0, src.x@.len() as int) =~= src.x@);
            assert(src.y@.subrange(0, src.y@.len() as int) =~= src.y@);
        }
        mesh_nodes.push(NodeText { x, y });
        j += 1;
    }
    // Triangle corners as node indices.

    proof {
        assert forall|i: int| 0 <= i < n implies tag_rank(tags, #[trigger] sorted_tags@[i]) == i by {
            lemma_rank_of_sorted(sorted_tags@, tags, i);
        }
    }

    let mut triangles: Vec<[usize; 3]> = Vec::new();
    let mut q: usize = 0;
    while q < triangle_tags.len()
        invariant
            q <= tris.len(),
            tris == triangle_tags@,
            format_seen,
            format_seen == sec.format_seen,
            nodes == entries_view(sec.nodes@),
            tris == sec.triangles@,
            nodes.len() > 0,
            tris.len() > 0,
            tags == tag_set(nodes),
            n == sorted_tags@.len(),
            indices_increasing(sorted_tags@),
            forall|x: usize| #[trigger] sorted_tags@.contains(x) <==> tags.contains(x),
            forall|i: int| 0 <= i < n ==> tag_rank(tags, #[trigger] sorted_tags@[i]) == i,
            first_unknown_tag(tris, tags, 0) == first_unknown_tag(tris, tags, q as int),
            triangles@.len() == q,
            forall|a: int, v: int|
                0 <= a < q && 0 <= v < 3 ==> #[trigger] triangles@[a][v] == tag_rank(
                    tags,
                    tris[a][v],
                ) && tags.contains(tris[a][v]) && triangles@[a][v] < n,
        decreases tris.len() - q,
    {
        let tri = triangle_tags[q];
        let i0 = match find_index(&sorted_tags, tri[0]) {
            Some(i) => i,
            None => {
                return Err(MshError::UnknownNodeTag { tag: tri[0] });
            },
        };
        let i1 = match find_index(&sorted_tags, tri[1]) {
            Some(i) => i,
            None => {
                assert(sorted_tags@.contains(tri[0]));
                return Err(MshError::UnknownNodeTag { tag: tri[1] });
            },
        };
        let i2 = match find_index(&sorted_tags, tri[2]) {
            Some(i) => i,
            None => {
                assert(sorted_tags@.contains(tri[0]));
                assert(sorted_tags@.contains(tri[1]));
                return Err(MshError::UnknownNodeTag { tag: tri[2] });
            },
        };
        proof {
            assert(sorted_tags@.contains(tri[0]));
            assert(sorted_tags@.contains(tri[1]));
            assert(sorted_tags@.contains(tri[2]));
        }
        let ghost before = triangles@;
        triangles.push([i0, i1, i2]);
        proof {
            assert forall|a: int, v: int|
                0 <= a < q + 1 && 0 <= v < 3 implies #[trigger] triangles@[a][v] == tag_rank(
                tags,
                tris[a][v],
            ) && tags.contains(tris[a][v]) && triangles@[a][v] < n by {
                if a < q {
                    assert(triangles@[a] == before[a]);
                } else {
                    assert(triangles@[a] == [i0, i1, i2]);
                    assert(tag_rank(tags, sorted_tags@[i0 as int]) == i0);
                    assert(tag_rank(tags, sorted_tags@[i1 as int]) == i1);
                    assert(tag_rank(tags, sorted_tags@[i2 as int]) == i2);
                }
            }
        }
        q += 1;
    }
    assert(first_unknown_tag(tris, tags, q as int) == None::<usize>);
    let boundary_nodes = compute_boundary_nodes(triangles.as_slice());
    let mesh = Mesh2D { nodes: mesh_nodes, triangles, boundary_nodes };
    proof {
        lemma_rank_of_sorted(sorted_tags@, tags, 0);
        assert(triangles_within(mesh.triangles@, mesh.nodes@.len() as int)) by {
            assert forall|a: int, v: int|
                0 <= a < mesh.triangles@.len() && 0 <= v < 3 implies #[trigger] mesh.triangles@[a][v]
                < mesh.nodes@.len() by {
                assert(triangles@[a][v] < n);
            }
        }
        assert forall|k2: int| 0 <= k2 < mesh.boundary_nodes@.len() implies #[trigger] mesh.boundary_nodes@[k2]
            < mesh.nodes@.len() by {
            assert(mesh.boundary_nodes@.contains(mesh.boundary_nodes@[k2]));
            lemma_boundary_node_within(
                mesh.triangles@,
                mesh.nodes@.len() as int,
                mesh.boundary_nodes@[k2],
            );
        }
        assert forall|tg: usize|
            #![trigger tag_rank(tags, tg)]
            tags.contains(tg) implies {
                &&& tag_rank(tags, tg) < mesh.nodes@.len()
                &&& mesh.nodes@[tag_rank(tags, tg) as int].x@ == nodes[last_with_tag(nodes, tg)].1
                &&& mesh.nodes@[tag_rank(tags, tg) as int].y@ == nodes[last_with_tag(nodes, tg)].2
            } by {
            assert(sorted_tags@.contains(tg));
            let i = choose|i: int| 0 <= i < sorted_tags@.len() && sorted_tags@[i] == tg;
            lemma_rank_of_sorted(sorted_tags@, tags, i);
        }
        assert forall|a: usize, b: usize|
            #![trigger tag_rank(tag_set(nodes), a), tag_rank(tag_set(nodes), b)]
            tag_set(nodes).contains(a) && tag_set(nodes).contains(b) && a < b implies tag_rank(
                tag_set(nodes),
                a,
            ) < tag_rank(tag_set(nodes), b) by {
            assert(sorted_tags@.contains(a));
            assert(sorted_tags@.contains(b));
            let i = choose|i: int| 0 <= i < sorted_tags@.len() && sorted_tags@[i] == a;
            let j = choose|j: int| 0 <= j < sorted_tags@.len() && sorted_tags@[j] == b;
            lemma_rank_of_sorted(sorted_tags@, tags, i);
            lemma_rank_of_sorted(sorted_tags@, tags, j);
            if j <= i {
                if j < i {
                    assert(sorted_tags@[j] < sorted_tags@[i]);
                }
            }
        }
        assert forall|q2: int| 0 <= q2 < mesh.nodes@.len() implies #[trigger] is_tag_rank(tags, q2) by {
            assert(tag_rank(tags, sorted_tags@[q2]) == q2);
            assert(sorted_tags@.contains(sorted_tags@[q2]));
        }
        assert(mesh_of_sections(mesh, nodes, tris));
    }
    Ok(mesh)
}

/// Reads a gmsh `.msh` v4.x ASCII text into a triangular mesh.
///
/// Nodes are numbered in increasing tag order (a later node with the same
/// tag replaces an earlier one) and keep the text of their x and y fields;
/// triangles refer to nodes by index; boundary nodes are the ends of the
/// edges that belong to exactly one triangle.
pub fn parse_msh_str(content: &str) -> (r: Result<Mesh2D<NodeText>, MshError>)
    ensures
        match msh_sections(content@) {
            Err(e) => r == Err::<Mesh2D<NodeText>, MshError>(e),
            Ok((seen, nodes, tris)) => mesh_outcome(r, seen, nodes, tris),
        },
{
    let (res, sec) = read_sections(content);
    match res {
        Err(e) => Err(e),
        Ok(()) => mesh_from_sections(sec),
    }
}

} // verus!
