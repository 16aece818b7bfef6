//! What the node and element blocks of a `.msh` text contribute: each block
//! is read on its own, one after the other, and each adds exactly the
//! records written in it.
use vstd::prelude::*;
use crate::gmsh::{
    element_blocks_spec, element_lines_spec, node_blocks_spec, node_coords_spec, node_tags_spec,
    NodeRecord,
};
use crate::text::{fields_of, parse_unsigned_spec, trimmed};

verus! {

/// The unsigned value of a field (0 when it has none).
pub open spec fn field_value(f: Seq<char>, max: int) -> usize {
    match parse_unsigned_spec(f, max) {
        Some(v) => v as usize,
        None => 0,
    }
}

/// The node tag written on a tag line.
pub open spec fn line_tag(l: Seq<char>) -> usize {
    field_value(trimmed(l), usize::MAX as int)
}

/// The node record of a tag and a coordinate line: the tag, the x and the
/// y fields.
pub open spec fn line_node(tag: usize, l: Seq<char>) -> NodeRecord {
    (tag, fields_of(l)[0], fields_of(l)[1])
}

/// The triangle written on an element line: its fields 2 to 4 (the first
/// field is the element tag).
pub open spec fn line_triangle(l: Seq<char>) -> [usize; 3] {
    [
        field_value(fields_of(l)[1], usize::MAX as int),
        field_value(fields_of(l)[2], usize::MAX as int),
        field_value(fields_of(l)[3], usize::MAX as int),
    ]
}

proof fn lemma_node_tags_read(t: Seq<Seq<char>>, j: int, r: nat, acc: Seq<usize>)
    requires
        0 <= j,
    ensures
        node_tags_spec(t, j, r, acc) matches Ok((k, tags)) ==> {
            &&& k == j + r
            &&& tags.len() == acc.len() + r
            &&& tags.take(acc.len() as int) == acc
            &&& forall|p: int|
                acc.len() <= p < tags.len() ==> #[trigger] tags[p] == line_tag(t[j + (p - acc.len())])
        },
    decreases r,
{
    if r > 0 && j < t.len() {
        if let Some(v) = parse_unsigned_spec(trimmed(t[j]), usize::MAX as int) {
            let acc2 = acc.push(v as usize);
            lemma_node_tags_read(t, j + 1, (r - 1) as nat, acc2);
            if let Ok((k, tags)) = node_tags_spec(t, j + 1, (r - 1) as nat, acc2) {
                assert(tags.take(acc.len() as int) =~= acc) by {
                    assert(tags.take(acc2.len() as int) == acc2);
                    assert forall|q: int| 0 <= q < acc.len() implies tags[q] == acc[q] by {
                        assert(tags.take(acc2.len() as int)[q] == acc2[q]);
                    }
                }
                assert forall|p: int| acc.len() <= p < tags.len() implies #[trigger] tags[p]
                    == line_tag(t[j + (p - acc.len())]) by {
                    if p == acc.len() {
                        assert(tags.take(acc2.len() as int)[p] == acc2[p]);
                    } else {
                        assert(tags[p] == line_tag(t[j + 1 + (p - acc2.len())]));
                    }
                }
            }
        }
    }
}

proof fn lemma_node_coords_read(
    t: Seq<Seq<char>>,
    j: int,
    tags: Seq<usize>,
    k0: int,
    acc: Seq<NodeRecord>,
)
    requires
        0 <= j,
        0 <= k0 <= tags.len(),
    ensures
        node_coords_spec(t, j, tags, k0, acc) matches Ok((m, acc2)) ==> {
            &&& m == j + (tags.len() - k0)
            &&& acc2.len() == acc.len() + (tags.len() - k0)
            &&& acc2.take(acc.len() as int) == acc
            &&& forall|p: int|
                acc.len() <= p < acc2.len() ==> #[trigger] acc2[p] == line_node(
                    tags[k0 + (p - acc.len())],
                    t[j + (p - acc.len())],
                )
        },
    decreases tags.len() - k0,
{
    if k0 < tags.len() && j < t.len() {
        let c = fields_of(t[j]);
        if c.len() >= 3 {
            let acc1 = acc.push((tags[k0], c[0], c[1]));
            lemma_node_coords_read(t, j + 1, tags, k0 + 1, acc1);
            if let Ok((m, acc2)) = node_coords_spec(t, j + 1, tags, k0 + 1, acc1) {
                assert(acc2.take(acc.len() as int) =~= acc) by {
                    assert forall|q: int| 0 <= q < acc.len() implies acc2[q] == acc[q] by {
                        assert(acc2.take(acc1.len() as int)[q] == acc1[q]);
                    }
                }
                assert forall|p: int| acc.len() <= p < acc2.len() implies #[trigger] acc2[p]
                    == line_node(tags[k0 + (p - acc.len())], t[j + (p - acc.len())]) by {
                    if p == acc.len() {
                        assert(acc2.take(acc1.len() as int)[p] == acc1[p]);
                    } else {
                        assert(acc2[p] == line_node(
                            tags[k0 + 1 + (p - acc1.len())],
                            t[j + 1 + (p - acc1.len())],
                        ));
                    }
                }
            }
        }
    }
}

/// The number of nodes a block header announces: its fourth field.
pub open spec fn block_node_count(header: Seq<char>) -> int {
    field_value(fields_of(header)[3], usize::MAX as int) as int
}

/// A node block holds every node written in it, whatever the other fields
/// of its header say: when the block at line `j` is read, with `n` the
/// count in its header, it takes `1 + 2n` lines and appends to the nodes
/// read so far, in order, the `n` nodes whose tags are on the `n` lines
/// after the header and whose coordinates are on the `n` lines after
/// those.
pub proof fn lemma_node_block_contents(t: Seq<Seq<char>>, j: int, acc: Seq<NodeRecord>)
    requires
        0 <= j,
    ensures
        node_blocks_spec(t, j, 1, acc) matches Ok((k, acc1)) ==> {
            let n = block_node_count(t[j]);
            &&& k == j + 1 + 2 * n
            &&& acc1.len() == acc.len() + n
            &&& acc1.take(acc.len() as int) == acc
            &&& forall|p: int|
                acc.len() <= p < acc1.len() ==> #[trigger] acc1[p] == line_node(
                    line_tag(t[j + 1 + (p - acc.len())]),
                    t[j + 1 + n + (p - acc.len())],
                )
        },
{
    if j < t.len() {
        let b = fields_of(t[j]);
        if b.len() >= 4 {
            if let Some(n) = parse_unsigned_spec(b[3], usize::MAX as int) {
                lemma_node_tags_read(t, j + 1, n as nat, Seq::empty());
                if let Ok((k, tags)) = node_tags_spec(t, j + 1, n as nat, Seq::empty()) {
                    lemma_node_coords_read(t, k, tags, 0, acc);
                    if let Ok((m, acc1)) = node_coords_spec(t, k, tags, 0, acc) {
                        assert(node_blocks_spec(t, j, 1, acc) == node_blocks_spec(
                            t,
                            m,
                            0,
                            acc1,
                        ));
                        assert(block_node_count(t[j]) == n);
                        assert forall|p: int| acc.len() <= p < acc1.len() implies #[trigger] acc1[p]
                            == line_node(
                            line_tag(t[j + 1 + (p - acc.len())]),
                            t[j + 1 + n + (p - acc.len())],
                        ) by {
                            let q = p - acc.len();
                            assert(acc1[p] == line_node(tags[q], t[k + q]));
                            assert(tags[0 + q] == line_tag(t[j + 1 + (q - 0)]));
                        }
                    }
                }
            }
        }
    }
}

/// Node blocks are read one after the other: reading `b + 1` blocks is
/// reading the first, then `b` more from where it ended, with the nodes it
/// added.
pub proof fn lemma_node_blocks_one_by_one(t: Seq<Seq<char>>, j: int, b: nat, acc: Seq<NodeRecord>)
    ensures
        node_blocks_spec(t, j, b + 1, acc) == match node_blocks_spec(t, j, 1, acc) {
            Ok((k, acc1)) => node_blocks_spec(t, k, b, acc1),
            Err(e) => Err(e),
        },
{
    if 0 <= j < t.len() {
        let h = fields_of(t[j]);
        if h.len() >= 4 {
            if let Some(n) = parse_unsigned_spec(h[3], usize::MAX as int) {
                if let Ok((k, tags)) = node_tags_spec(t, j + 1, n as nat, Seq::empty()) {
                    if let Ok((m, acc1)) = node_coords_spec(t, k, tags, 0, acc) {
                        assert(node_blocks_spec(t, j, 1, acc) == node_blocks_spec(
                            t,
                            m,
                            0,
                            acc1,
                        ));
                    }
                }
            }
        }
    }
}

proof fn lemma_element_lines_read(
    t: Seq<Seq<char>>,
    j: int,
    r: nat,
    triangles: bool,
    acc: Seq<[usize; 3]>,
)
    requires
        0 <= j,
    ensures
        element_lines_spec(t, j, r, triangles, acc) matches Ok((k, acc1)) ==> {
            &&& k == j + r
            &&& !triangles ==> acc1 == acc
            &&& triangles ==> {
                &&& acc1.len() == acc.len() + r
                &&& acc1.take(acc.len() as int) == acc
                &&& forall|p: int|
                    acc.len() <= p < acc1.len() ==> #[trigger] acc1[p] == line_triangle(
                        t[j + (p - acc.len())],
                    )
            }
        },
    decreases r,
{
    if r > 0 && j < t.len() {
        if !triangles {
            lemma_element_lines_read(t, j + 1, (r - 1) as nat, triangles, acc);
        } else {
            let p3 = fields_of(t[j]);
            if p3.len() >= 4 {
                match (
                    parse_unsigned_spec(p3[1], usize::MAX as int),
                    parse_unsigned_spec(p3[2], usize::MAX as int),
                    parse_unsigned_spec(p3[3], usize::MAX as int),
                ) {
                    (Some(n0), Some(n1), Some(n2)) => {
                        let tri = [n0 as usize, n1 as usize, n2 as usize];
                        let acc2 = acc.push(tri);
                        lemma_element_lines_read(t, j + 1, (r - 1) as nat, triangles, acc2);
                        if let Ok((k, acc1)) = element_lines_spec(
                            t,
                            j + 1,
                            (r - 1) as nat,
                            triangles,
                            acc2,
                        ) {
                            assert(acc1.take(acc.len() as int) =~= acc) by {
                                assert forall|q: int| 0 <= q < acc.len() implies acc1[q]
                                    == acc[q] by {
                                    assert(acc1.take(acc2.len() as int)[q] == acc2[q]);
                                }
                            }
                            assert forall|p: int| acc.len() <= p < acc1.len() implies #[trigger] acc1[p]
                                == line_triangle(t[j + (p - acc.len())]) by {
                                if p == acc.len() {
                                    assert(acc1.take(acc2.len() as int)[p] == acc2[p]);
                                    assert(tri =~= line_triangle(t[j]));
                                } else {
                                    assert(acc1[p] == line_triangle(t[j + 1 + (p - acc2.len())]));
                                }
                            }
                        }
                    },
                    _ => {},
                }
            }
        }
    }
}

/// The element type a block header announces: its third field.
pub open spec fn block_element_type(header: Seq<char>) -> u32 {
    field_value(fields_of(header)[2], u32::MAX as int) as u32
}

/// The number of elements a block header announces: its fourth field.
pub open spec fn block_element_count(header: Seq<char>) -> int {
    field_value(fields_of(header)[3], usize::MAX as int) as int
}

/// An element block holds one element per line after its header: when the
/// block at line `j` is read, with `n` the count in its header, it takes
/// `1 + n` lines; if its type is 2 (triangles) it appends, in order, the
/// triangle written on each of those lines, whatever blocks come before or
/// after it; any other type adds nothing.
pub proof fn lemma_element_block_contents(t: Seq<Seq<char>>, j: int, acc: Seq<[usize; 3]>)
    requires
        0 <= j,
    ensures
        element_blocks_spec(t, j, 1, acc) matches Ok((k, acc1)) ==> {
            let n = block_element_count(t[j]);
            &&& k == j + 1 + n
            &&& block_element_type(t[j]) != 2 ==> acc1 == acc
            &&& block_element_type(t[j]) == 2 ==> {
                &&& acc1.len() == acc.len() + n
                &&& acc1.take(acc.len() as int) == acc
                &&& forall|p: int|
                    acc.len() <= p < acc1.len() ==> #[trigger] acc1[p] == line_triangle(
                        t[j + 1 + (p - acc.len())],
                    )
            }
        },
{
    if j < t.len() {
        let b = fields_of(t[j]);
        if b.len() >= 4 {
            if let Some(ty) = parse_unsigned_spec(b[2], u32::MAX as int) {
                if let Some(n) = parse_unsigned_spec(b[3], usize::MAX as int) {
                    let tri = ty == 2;
                    lemma_element_lines_read(t, j + 1, n as nat, tri, acc);
                    if let Ok((k, acc1)) = element_lines_spec(t, j + 1, n as nat, tri, acc) {
                        assert(element_blocks_spec(t, j, 1, acc) == element_blocks_spec(
                            t,
                            k,
                            0,
                            acc1,
                        ));
                        assert(block_element_count(t[j]) == n);
                        assert(block_element_type(t[j]) == ty);
                    }
                }
            }
        }
    }
}

/// Element blocks are read one after the other: reading `b + 1` blocks is
/// reading the first, then `b` more from where it ended, with the
/// triangles it added.
pub proof fn lemma_element_blocks_one_by_one(
    t: Seq<Seq<char>>,
    j: int,
    b: nat,
    acc: Seq<[usize; 3]>,
)
    ensures
        element_blocks_spec(t, j, b + 1, acc) == match element_blocks_spec(t, j, 1, acc) {
            Ok((k, acc1)) => element_blocks_spec(t, k, b, acc1),
            Err(e) => Err(e),
        },
{
    if 0 <= j < t.len() {
        let h = fields_of(t[j]);
        if h.len() >= 4 {
            if let Some(ty) = parse_unsigned_spec(h[2], u32::MAX as int) {
                if let Some(n) = parse_unsigned_spec(h[3], usize::MAX as int) {
                    let tri = ty == 2;
                    if let Ok((k, acc1)) = element_lines_spec(t, j + 1, n as nat, tri, acc) {
                        assert(element_blocks_spec(t, j, 1, acc) == element_blocks_spec(
                            t,
                            k,
                            0,
                            acc1,
                        ));
                    }
                }
            }
        }
    }
}

} // verus!
