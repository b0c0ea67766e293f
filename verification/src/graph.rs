//! The Metatron Cube graph: 13 nodes (one centre, six hexagon and six cube
//! vertices) and its edge structure, degrees, connectivity, distances and
//! symmetries.

use std::collections::VecDeque;

use petgraph::graph::{NodeIndex, UnGraph};

use vstd::prelude::*;
use vstd::string::StringExecFns;
use vstd::arithmetic::div_mod::{
    lemma_div_denominator, lemma_div_pos_is_pos, lemma_fundamental_div_mod,
    lemma_fundamental_div_mod_converse, lemma_mod_pos_bound, lemma_small_mod,
};

use crate::text::{append_decimal, decimal};
use crate::METATRON_DIMENSION;

verus! {

/// Classification of Metatron Cube nodes.
#[derive(Clone, Copy, Debug, PartialEq, Eq, Structural)]
pub enum NodeType {
    Center,
    Hexagon,
    Cube,
}

/// Metadata describing a node within the Metatron Cube: its index, its
/// class and its label. (Its position in space is a floating-point quantity
/// and is kept by the surrounding application.)
#[derive(Clone, Debug)]
pub struct NodeMetadata {
    pub index: usize,
    pub node_type: NodeType,
    pub label: String,
}

/// The class of node `i`: node 0 is the centre, nodes 1..=6 the hexagon and
/// nodes 7..=12 the cube.
pub open spec fn node_type_of(i: int) -> NodeType {
    if i == 0 {
        NodeType::Center
    } else if i < 7 {
        NodeType::Hexagon
    } else {
        NodeType::Cube
    }
}

/// The label of node `i`: `v1 (C)` for the centre, `v{i+1} (H{i})` for the
/// hexagon and `v{i+1} (Q{i-6})` for the cube.
pub open spec fn node_label(i: nat) -> Seq<char> {
    if i == 0 {
        "v1 (C)"@
    } else if i < 7 {
        "v"@ + decimal(i + 1) + " (H"@ + decimal(i) + ")"@
    } else {
        "v"@ + decimal(i + 1) + " (Q"@ + decimal((i - 6) as nat) + ")"@
    }
}

/// `n` is the metadata of node `i` of the Metatron Cube.
pub open spec fn is_canonical_node(n: NodeMetadata, i: int) -> bool {
    &&& n.index == i
    &&& n.node_type == node_type_of(i)
    &&& n.label@ == node_label(i as nat)
}

impl NodeMetadata {
    /// A field-by-field copy of the metadata.
    pub fn duplicate(&self) -> (r: NodeMetadata)
        ensures
            r == *self,
    {
        NodeMetadata { index: self.index, node_type: self.node_type, label: self.label.clone() }
    }
}

fn node_label_string(i: usize) -> (label: String)
    requires
        i < 13,
    ensures
        label@ == node_label(i as nat),
{
    proof {
        reveal_strlit("v1 (C)");
        reveal_strlit("v");
        reveal_strlit(" (H");
        reveal_strlit(" (Q");
        reveal_strlit(")");
    }
    if i == 0 {
        return "v1 (C)".to_owned();
    }
    let mut label = String::new();
    label.append("v");
    append_decimal(&mut label, i + 1);
    if i < 7 {
        label.append(" (H");
        append_decimal(&mut label, i);
    } else {
        label.append(" (Q");
        append_decimal(&mut label, i - 6);
    }
    label.append(")");
    assert(label@ =~= node_label(i as nat));
    label
}

/// Builds the metadata of the 13 nodes: the centre, then the six hexagon
/// vertices, then the six cube vertices.
pub fn build_nodes() -> (nodes: Vec<NodeMetadata>)
    ensures
        nodes.len() == METATRON_DIMENSION,
        forall|i: int| 0 <= i < 13 ==> is_canonical_node(#[trigger] nodes@[i], i),
{
    let mut nodes: Vec<NodeMetadata> = Vec::new();
    nodes.push(NodeMetadata { index: 0, node_type: NodeType::Center, label: node_label_string(0) });
    let mut k: usize = 0;
    while k < 6
        invariant
            k <= 6,
            nodes.len() == k + 1,
            forall|i: int| 0 <= i < k + 1 ==> is_canonical_node(#[trigger] nodes@[i], i),
        decreases 6 - k,
    {
        nodes.push(
            NodeMetadata { index: k + 1, node_type: NodeType::Hexagon, label: node_label_string(k + 1) },
        );
        k += 1;
    }
    let mut offset: usize = 0;
    while offset < 6
        invariant
            offset <= 6,
            nodes.len() == offset + 7,
            forall|i: int| 0 <= i < offset + 7 ==> is_canonical_node(#[trigger] nodes@[i], i),
        decreases 6 - offset,
    {
        nodes.push(
            NodeMetadata {
                index: offset + 7,
                node_type: NodeType::Cube,
                label: node_label_string(offset + 7),
            },
        );
        offset += 1;
    }
    nodes
}

/// Spokes from the centre to the six hexagon vertices.
pub open spec fn hexagon_spokes() -> Seq<(usize, usize)> {
    Seq::new(6, |i: int| (0usize, (i + 1) as usize))
}

/// The hexagon ring 1-2-3-4-5-6-1.
pub open spec fn hexagon_ring() -> Seq<(usize, usize)> {
    Seq::new(6, |i: int| if i < 5 { ((i + 1) as usize, (i + 2) as usize) } else { (1usize, 6usize) })
}

/// Spokes from the centre to the six cube vertices.
pub open spec fn cube_spokes() -> Seq<(usize, usize)> {
    Seq::new(6, |i: int| (0usize, (i + 7) as usize))
}

/// Edges among the cube vertices.
pub open spec fn cube_edges() -> Seq<(usize, usize)> {
    seq![(7, 8), (7, 9), (7, 11), (8, 10), (8, 11), (9, 10), (9, 12), (10, 12), (11, 12), (8, 9), (7, 12), (10, 11)]
}

/// Edges between hexagon and cube vertices.
pub open spec fn hexagon_cube_edges() -> Seq<(usize, usize)> {
    seq![(1, 7), (1, 8), (2, 8), (2, 10), (3, 10), (3, 12), (4, 12), (4, 9), (5, 9), (5, 7), (6, 11), (6, 12)]
}

/// The long diagonals of the hexagon.
pub open spec fn hexagon_diagonals() -> Seq<(usize, usize)> {
    seq![(1, 4), (2, 5), (3, 6)]
}

/// The remaining edges that complete the Metatron Cube.
pub open spec fn remaining_edges() -> Seq<(usize, usize)> {
    seq![(1, 10), (1, 12), (2, 7), (2, 12), (3, 7), (3, 9), (4, 7), (4, 10), (5, 8), (5, 12), (6, 7), (6, 10), (1, 3), (1, 5), (2, 4), (2, 6), (3, 5), (4, 6), (1, 9), (2, 11), (3, 8), (4, 11), (5, 10), (6, 8), (7, 10), (8, 12), (9, 11), (1, 11), (2, 9), (3, 11), (4, 8), (5, 11), (6, 9)]
}

/// The undirected edges of the Metatron Cube, in the order in which the
/// construction first adds them, each written with its smaller endpoint first.
pub open spec fn metatron_edges() -> Seq<(usize, usize)> {
    hexagon_spokes() + hexagon_ring() + cube_spokes() + cube_edges() + hexagon_cube_edges()
        + hexagon_diagonals() + remaining_edges()
}

spec fn in_spokes_and_ring(e: (usize, usize)) -> bool {
    (e.0 == 0 && 1 <= e.1 <= 6) || (1 <= e.0 <= 5 && e.1 == e.0 + 1) || e == (1usize, 6usize)
}

spec fn in_first_groups(e: (usize, usize)) -> bool {
    in_spokes_and_ring(e) || (e.0 == 0 && 7 <= e.1 <= 12)
}

spec fn in_cube_edges(e: (usize, usize)) -> bool {
    e == (7usize, 8usize)
        || e == (7usize, 9usize)
        || e == (7usize, 11usize)
        || e == (8usize, 10usize)
        || e == (8usize, 11usize)
        || e == (9usize, 10usize)
        || e == (9usize, 12usize)
        || e == (10usize, 12usize)
        || e == (11usize, 12usize)
        || e == (8usize, 9usize)
        || e == (7usize, 12usize)
        || e == (10usize, 11usize)
}

spec fn in_hexagon_cube_edges(e: (usize, usize)) -> bool {
    e == (1usize, 7usize)
        || e == (1usize, 8usize)
        || e == (2usize, 8usize)
        || e == (2usize, 10usize)
        || e == (3usize, 10usize)
        || e == (3usize, 12usize)
        || e == (4usize, 12usize)
        || e == (4usize, 9usize)
        || e == (5usize, 9usize)
        || e == (5usize, 7usize)
        || e == (6usize, 11usize)
        || e == (6usize, 12usize)
}

spec fn in_hexagon_diagonals(e: (usize, usize)) -> bool {
    e == (1usize, 4usize)
        || e == (2usize, 5usize)
        || e == (3usize, 6usize)
}

/// The Metatron Cube is the complete graph on its 13 nodes: every pair of
/// distinct nodes, smaller index first, is an edge.
pub open spec fn is_complete_edge(e: (usize, usize)) -> bool {
    e.0 < e.1 < 13
}

proof fn lemma_complete_edge_listed(e: (usize, usize))
    requires
        is_complete_edge(e),
    ensures
        in_first_groups(e) || in_cube_edges(e) || in_hexagon_cube_edges(e) || in_hexagon_diagonals(e)
            || in_remaining_part_0(e) || in_remaining_part_1(e) || in_remaining_part_2(e),
{
}

/// The edge `{u, v}` written with its smaller endpoint first.
pub open spec fn normalized_edge(u: usize, v: usize) -> (usize, usize) {
    if u < v { (u, v) } else { (v, u) }
}

/// What adding the edge `{u, v}` does to an edge list: self-loops and edges
/// already present are ignored, anything else is appended in normalized form.
pub open spec fn with_edge(edges: Seq<(usize, usize)>, u: usize, v: usize) -> Seq<(usize, usize)> {
    if u == v || edges.contains(normalized_edge(u, v)) {
        edges
    } else {
        edges.push(normalized_edge(u, v))
    }
}

fn contains_edge(edges: &Vec<(usize, usize)>, e: (usize, usize)) -> (r: bool)
    ensures
        r == edges@.contains(e),
{
    let mut i: usize = 0;
    while i < edges.len()
        invariant
            i <= edges.len(),
            forall|j: int| 0 <= j < i ==> edges@[j] != e,
        decreases edges.len() - i,
    {
        let (a, b) = edges[i];
        if a == e.0 && b == e.1 {
            assert(edges@[i as int] == e);
            return true;
        }
        i += 1;
    }
    false
}

fn add_edge(edges: &mut Vec<(usize, usize)>, u: usize, v: usize)
    ensures
        final(edges)@ == with_edge(old(edges)@, u, v),
        forall|e: (usize, usize)|
            #[trigger] final(edges)@.contains(e) <==> (old(edges)@.contains(e) || (u != v && e
                == normalized_edge(u, v))),
        old(edges)@.no_duplicates() ==> final(edges)@.no_duplicates(),
{
    if u != v {
        let (a, b) = if u < v { (u, v) } else { (v, u) };
        if !contains_edge(edges, (a, b)) {
            let ghost before = edges@;
            edges.push((a, b));
            assert forall|e: (usize, usize)| #[trigger] edges@.contains(e) implies (before.contains(
                e) || e == (a, b)) by {
                if edges@.contains(e) {
                    let i = choose|i: int| 0 <= i < edges@.len() && edges@[i] == e;
                    if i < before.len() {
                        assert(before[i] == e);
                    }
                }
            }
            assert forall|e: (usize, usize)| before.contains(e) implies #[trigger] edges@.contains(
                e) by {
                let i = choose|i: int| 0 <= i < before.len() && before[i] == e;
                assert(edges@[i] == e);
            }
            assert(edges@[before.len() as int] == (a, b));
            proof {
                if before.no_duplicates() {
                    assert forall|i: int, j: int|
                    0 <= i < edges@.len() && 0 <= j < edges@.len() && i != j implies edges@[i]
                    != edges@[j] by {
                    if i == before.len() {
                        assert(before[j] == edges@[j]);
                    } else if j == before.len() {
                        assert(before[i] == edges@[i]);
                    } else {
                        assert(before[i] == edges@[i] && before[j] == edges@[j]);
                    }
                }
                }
            }
        }
    }
}

fn add_cube_edges(edges: &mut Vec<(usize, usize)>)
    requires
        old(edges)@.no_duplicates(),
        forall|e: (usize, usize)| #[trigger] old(edges)@.contains(e) <==> in_first_groups(e),
    ensures
        final(edges)@ == old(edges)@ + cube_edges(),
        final(edges)@.no_duplicates(),
        forall|e: (usize, usize)| #[trigger] final(edges)@.contains(e) <==> (in_first_groups(e) || in_cube_edges(e)),
{
    let ghost start = edges@;
    add_edge(edges, 7, 8);
    add_edge(edges, 7, 9);
    add_edge(edges, 7, 11);
    add_edge(edges, 8, 10);
    add_edge(edges, 8, 11);
    add_edge(edges, 9, 10);
    add_edge(edges, 9, 12);
    add_edge(edges, 10, 12);
    add_edge(edges, 11, 12);
    add_edge(edges, 8, 9);
    add_edge(edges, 7, 12);
    add_edge(edges, 10, 11);
    assert(edges@ =~= start + cube_edges());
}

fn add_hexagon_cube_edges(edges: &mut Vec<(usize, usize)>)
    requires
        old(edges)@.no_duplicates(),
        forall|e: (usize, usize)| #[trigger] old(edges)@.contains(e) <==> (in_first_groups(e) || in_cube_edges(e)),
    ensures
        final(edges)@ == old(edges)@ + hexagon_cube_edges(),
        final(edges)@.no_duplicates(),
        forall|e: (usize, usize)| #[trigger] final(edges)@.contains(e) <==> (in_first_groups(e) || in_cube_edges(e) || in_hexagon_cube_edges(e)),
{
    let ghost start = edges@;
    add_edge(edges, 1, 7);
    add_edge(edges, 1, 8);
    add_edge(edges, 2, 8);
    add_edge(edges, 2, 10);
    add_edge(edges, 3, 10);
    add_edge(edges, 3, 12);
    add_edge(edges, 4, 12);
    add_edge(edges, 4, 9);
    add_edge(edges, 5, 9);
    add_edge(edges, 5, 7);
    add_edge(edges, 6, 11);
    add_edge(edges, 6, 12);
    assert(edges@ =~= start + hexagon_cube_edges());
}

fn add_hexagon_diagonals(edges: &mut Vec<(usize, usize)>)
    requires
        old(edges)@.no_duplicates(),
        forall|e: (usize, usize)| #[trigger] old(edges)@.contains(e) <==> (in_first_groups(e) || in_cube_edges(e) || in_hexagon_cube_edges(e)),
    ensures
        final(edges)@ == old(edges)@ + hexagon_diagonals(),
        final(edges)@.no_duplicates(),
        forall|e: (usize, usize)| #[trigger] final(edges)@.contains(e) <==> (in_first_groups(e) || in_cube_edges(e) || in_hexagon_cube_edges(e) || in_hexagon_diagonals(e)),
{
    let ghost start = edges@;
    add_edge(edges, 1, 4);
    add_edge(edges, 2, 5);
    add_edge(edges, 3, 6);
    assert(edges@ =~= start + hexagon_diagonals());
}

spec fn in_remaining_part_0(e: (usize, usize)) -> bool {
    e == (1usize, 10usize)
        || e == (1usize, 12usize)
        || e == (2usize, 7usize)
        || e == (2usize, 12usize)
        || e == (3usize, 7usize)
        || e == (3usize, 9usize)
        || e == (4usize, 7usize)
        || e == (4usize, 10usize)
        || e == (5usize, 8usize)
        || e == (5usize, 12usize)
        || e == (6usize, 7usize)
        || e == (6usize, 10usize)
}

spec fn in_remaining_part_1(e: (usize, usize)) -> bool {
    e == (1usize, 3usize)
        || e == (1usize, 5usize)
        || e == (2usize, 4usize)
        || e == (2usize, 6usize)
        || e == (3usize, 5usize)
        || e == (4usize, 6usize)
        || e == (1usize, 9usize)
        || e == (2usize, 11usize)
        || e == (3usize, 8usize)
        || e == (4usize, 11usize)
        || e == (5usize, 10usize)
        || e == (6usize, 8usize)
}

spec fn in_remaining_part_2(e: (usize, usize)) -> bool {
    e == (7usize, 10usize)
        || e == (8usize, 12usize)
        || e == (9usize, 11usize)
        || e == (1usize, 11usize)
        || e == (2usize, 9usize)
        || e == (3usize, 11usize)
        || e == (4usize, 8usize)
        || e == (5usize, 11usize)
        || e == (6usize, 9usize)
}

fn add_remaining_edges_part_0(edges: &mut Vec<(usize, usize)>)
    requires
        old(edges)@.no_duplicates(),
        forall|e: (usize, usize)| #[trigger] old(edges)@.contains(e) <==> (in_first_groups(e) || in_cube_edges(e) || in_hexagon_cube_edges(e) || in_hexagon_diagonals(e)),
    ensures
        final(edges)@ == old(edges)@ + seq![(1, 10), (1, 12), (2, 7), (2, 12), (3, 7), (3, 9), (4, 7), (4, 10), (5, 8), (5, 12), (6, 7), (6, 10)],
        final(edges)@.no_duplicates(),
        forall|e: (usize, usize)| #[trigger] final(edges)@.contains(e) <==> (in_first_groups(e) || in_cube_edges(e) || in_hexagon_cube_edges(e) || in_hexagon_diagonals(e) || in_remaining_part_0(e)),
{
    let ghost start = edges@;
    add_edge(edges, 1, 10);
    add_edge(edges, 1, 12);
    add_edge(edges, 2, 7);
    add_edge(edges, 2, 12);
    add_edge(edges, 3, 7);
    add_edge(edges, 3, 9);
    add_edge(edges, 4, 7);
    add_edge(edges, 4, 10);
    add_edge(edges, 5, 8);
    add_edge(edges, 5, 12);
    add_edge(edges, 6, 7);
    add_edge(edges, 6, 10);
    assert(edges@ =~= start + seq![(1, 10), (1, 12), (2, 7), (2, 12), (3, 7), (3, 9), (4, 7), (4, 10), (5, 8), (5, 12), (6, 7), (6, 10)]);
}

fn add_remaining_edges_part_1(edges: &mut Vec<(usize, usize)>)
    requires
        old(edges)@.no_duplicates(),
        forall|e: (usize, usize)| #[trigger] old(edges)@.contains(e) <==> (in_first_groups(e) || in_cube_edges(e) || in_hexagon_cube_edges(e) || in_hexagon_diagonals(e) || in_remaining_part_0(e)),
    ensures
        final(edges)@ == old(edges)@ + seq![(1, 3), (1, 5), (2, 4), (2, 6), (3, 5), (4, 6), (1, 9), (2, 11), (3, 8), (4, 11), (5, 10), (6, 8)],
        final(edges)@.no_duplicates(),
        forall|e: (usize, usize)| #[trigger] final(edges)@.contains(e) <==> (in_first_groups(e) || in_cube_edges(e) || in_hexagon_cube_edges(e) || in_hexagon_diagonals(e) || in_remaining_part_0(e) || in_remaining_part_1(e)),
{
    let ghost start = edges@;
    add_edge(edges, 1, 3);
    add_edge(edges, 1, 5);
    add_edge(edges, 2, 4);
    add_edge(edges, 2, 6);
    add_edge(edges, 3, 5);
    add_edge(edges, 4, 6);
    add_edge(edges, 1, 9);
    add_edge(edges, 2, 11);
    add_edge(edges, 3, 8);
    add_edge(edges, 4, 11);
    add_edge(edges, 5, 10);
    add_edge(edges, 6, 8);
    assert(edges@ =~= start + seq![(1, 3), (1, 5), (2, 4), (2, 6), (3, 5), (4, 6), (1, 9), (2, 11), (3, 8), (4, 11), (5, 10), (6, 8)]);
}

fn add_remaining_edges_part_2(edges: &mut Vec<(usize, usize)>)
    requires
        old(edges)@.no_duplicates(),
        forall|e: (usize, usize)| #[trigger] old(edges)@.contains(e) <==> (in_first_groups(e) || in_cube_edges(e) || in_hexagon_cube_edges(e) || in_hexagon_diagonals(e) || in_remaining_part_0(e) || in_remaining_part_1(e)),
    ensures
        final(edges)@ == old(edges)@ + seq![(7, 10), (8, 12), (9, 11), (1, 11), (2, 9), (3, 11), (4, 8), (5, 11), (6, 9)],
        final(edges)@.no_duplicates(),
        forall|e: (usize, usize)| #[trigger] final(edges)@.contains(e) <==> (in_first_groups(e) || in_cube_edges(e) || in_hexagon_cube_edges(e) || in_hexagon_diagonals(e) || in_remaining_part_0(e) || in_remaining_part_1(e) || in_remaining_part_2(e)),
{
    let ghost start = edges@;
    add_edge(edges, 7, 10);
    add_edge(edges, 8, 12);
    add_edge(edges, 9, 11);
    add_edge(edges, 1, 11);
    add_edge(edges, 2, 9);
    add_edge(edges, 3, 11);
    add_edge(edges, 4, 8);
    add_edge(edges, 5, 11);
    add_edge(edges, 6, 9);
    assert(edges@ =~= start + seq![(7, 10), (8, 12), (9, 11), (1, 11), (2, 9), (3, 11), (4, 8), (5, 11), (6, 9)]);
}

/// Builds the 78 undirected edges of the Metatron Cube.
pub fn build_edges() -> (edges: Vec<(usize, usize)>)
    ensures
        edges@ == metatron_edges(),
        edges@.no_duplicates(),
        forall|e: (usize, usize)| #[trigger] edges@.contains(e) <==> is_complete_edge(e),
{
    let mut edges: Vec<(usize, usize)> = Vec::new();

    let mut hex: usize = 1;
    while hex <= 6
        invariant
            1 <= hex <= 7,
            edges@.no_duplicates(),
            edges@ == hexagon_spokes().take(hex - 1),
            forall|e: (usize, usize)| #[trigger] edges@.contains(e) <==> (e.0 == 0 && 1 <= e.1 < hex),
        decreases 7 - hex,
    {
        add_edge(&mut edges, 0, hex);
        assert(edges@ =~= hexagon_spokes().take(hex as int));
        hex += 1;
    }
    assert(edges@ =~= hexagon_spokes());

    let mut hex: usize = 1;
    while hex <= 6
        invariant
            1 <= hex <= 7,
            edges@.no_duplicates(),
            edges@ == hexagon_spokes() + hexagon_ring().take(hex - 1),
            forall|e: (usize, usize)| #[trigger] edges@.contains(e) <==> ((e.0 == 0 && 1 <= e.1 <= 6)
                || (1 <= e.0 < hex && e.0 <= 5 && e.1 == e.0 + 1) || (hex == 7 && e == (1usize, 6usize))),
        decreases 7 - hex,
    {
        let next = if hex == 6 { 1 } else { hex + 1 };
        add_edge(&mut edges, hex, next);
        assert(edges@ =~= hexagon_spokes() + hexagon_ring().take(hex as int));
        hex += 1;
    }
    assert(edges@ =~= hexagon_spokes() + hexagon_ring());

    let mut cube: usize = 7;
    while cube <= 12
        invariant
            7 <= cube <= 13,
            edges@.no_duplicates(),
            edges@ == hexagon_spokes() + hexagon_ring() + cube_spokes().take(cube - 7),
            forall|e: (usize, usize)| #[trigger] edges@.contains(e) <==> (in_spokes_and_ring(e) || (
                e.0 == 0 && 7 <= e.1 < cube)),
        decreases 13 - cube,
    {
        add_edge(&mut edges, 0, cube);
        assert(edges@ =~= hexagon_spokes() + hexagon_ring() + cube_spokes().take(cube - 6));
        cube += 1;
    }
    assert(edges@ =~= hexagon_spokes() + hexagon_ring() + cube_spokes());

    add_cube_edges(&mut edges);
    add_hexagon_cube_edges(&mut edges);
    add_hexagon_diagonals(&mut edges);
    let ghost before_remaining = edges@;
    add_remaining_edges_part_0(&mut edges);
    add_remaining_edges_part_1(&mut edges);
    add_remaining_edges_part_2(&mut edges);
    assert(edges@ =~= before_remaining + remaining_edges());
    assert forall|e: (usize, usize)| is_complete_edge(e) implies #[trigger] edges@.contains(e) by {
        lemma_complete_edge_listed(e);
    }
    assert(edges@ =~= metatron_edges());
    edges
}

/// `a` and `b` are joined by an edge, in either orientation.
pub open spec fn adjacent(edges: Seq<(usize, usize)>, a: usize, b: usize) -> bool {
    edges.contains((a, b)) || edges.contains((b, a))
}

/// The neighbours of `node`, one entry per incident edge in edge order:
/// the other endpoint of each edge that has `node` at exactly one end.
pub open spec fn neighbours_of(edges: Seq<(usize, usize)>, node: usize) -> Seq<usize>
    decreases edges.len(),
{
    if edges.len() == 0 {
        Seq::empty()
    } else {
        let rest = neighbours_of(edges.drop_last(), node);
        let e = edges.last();
        if e.0 == node && e.1 != node {
            rest.push(e.1)
        } else if e.0 != node && e.1 == node {
            rest.push(e.0)
        } else {
            rest
        }
    }
}

/// The degree of `node`: the number of edge endpoints equal to `node`.
pub open spec fn degree(edges: Seq<(usize, usize)>, node: usize) -> nat
    decreases edges.len(),
{
    if edges.len() == 0 {
        0
    } else {
        let e = edges.last();
        degree(edges.drop_last(), node) + (if e.0 == node { 1nat } else { 0nat }) + (if e.1
            == node { 1nat } else { 0nat })
    }
}

/// The degrees of nodes `0..n`.
pub open spec fn degree_sequence_of(edges: Seq<(usize, usize)>, n: nat) -> Seq<usize> {
    Seq::new(n, |i: int| degree(edges, i as usize) as usize)
}

/// A walk of exactly `k` steps leads from `a` to `b`.
pub open spec fn has_walk(edges: Seq<(usize, usize)>, a: usize, b: usize, k: nat) -> bool
    decreases k,
{
    if k == 0 {
        a == b
    } else {
        exists|m: usize| #[trigger] adjacent(edges, a, m) && has_walk(edges, m, b, (k - 1) as nat)
    }
}

/// `d` is the length of a shortest walk from `a` to `b`.
pub open spec fn is_distance(edges: Seq<(usize, usize)>, a: usize, b: usize, d: nat) -> bool {
    &&& has_walk(edges, a, b, d)
    &&& forall|k: nat| k < d ==> !#[trigger] has_walk(edges, a, b, k)
}

/// Some walk leads from `a` to `b`.
pub open spec fn reachable(edges: Seq<(usize, usize)>, a: usize, b: usize) -> bool {
    exists|k: nat| #[trigger] has_walk(edges, a, b, k)
}

/// Every one of the nodes `0..n` can be reached from node 0.
pub open spec fn is_connected_graph(edges: Seq<(usize, usize)>, n: nat) -> bool {
    forall|j: usize| j < n ==> #[trigger] reachable(edges, 0, j)
}


/// The neighbours of `node` are exactly the other nodes adjacent to it.
pub proof fn lemma_neighbours_are_adjacent(edges: Seq<(usize, usize)>, node: usize, j: usize)
    ensures
        neighbours_of(edges, node).contains(j) <==> (j != node && adjacent(edges, node, j)),
    decreases edges.len(),
{
    if edges.len() > 0 {
        let rest = edges.drop_last();
        let e = edges.last();
        lemma_neighbours_are_adjacent(rest, node, j);
        let nr = neighbours_of(rest, node);
        if nr.contains(j) {
            let i = choose|i: int| 0 <= i < nr.len() && nr[i] == j;
            assert(nr.push(e.1)[i] == j);
            assert(nr.push(e.0)[i] == j);
            if rest.contains((node, j)) {
                let k = choose|k: int| 0 <= k < rest.len() && rest[k] == (node, j);
                assert(edges[k] == (node, j));
            }
            if rest.contains((j, node)) {
                let k = choose|k: int| 0 <= k < rest.len() && rest[k] == (j, node);
                assert(edges[k] == (j, node));
            }
        }
        if edges.contains((node, j)) {
            let k = choose|k: int| 0 <= k < edges.len() && edges[k] == (node, j);
            if k < rest.len() {
                assert(rest[k] == (node, j));
            }
        }
        if edges.contains((j, node)) {
            let k = choose|k: int| 0 <= k < edges.len() && edges[k] == (j, node);
            if k < rest.len() {
                assert(rest[k] == (j, node));
            }
        }
        if e.0 == node && e.1 != node {
            assert(nr.push(e.1)[nr.len() as int] == e.1);
            assert(nr.push(e.1).contains(j) ==> (nr.contains(j) || j == e.1)) by {
                if nr.push(e.1).contains(j) {
                    let i = choose|i: int| 0 <= i < nr.len() + 1 && nr.push(e.1)[i] == j;
                    if i < nr.len() {
                        assert(nr[i] == j);
                    }
                }
            }
            assert(edges[edges.len() - 1] == e);
        } else if e.0 != node && e.1 == node {
            assert(nr.push(e.0)[nr.len() as int] == e.0);
            assert(nr.push(e.0).contains(j) ==> (nr.contains(j) || j == e.0)) by {
                if nr.push(e.0).contains(j) {
                    let i = choose|i: int| 0 <= i < nr.len() + 1 && nr.push(e.0)[i] == j;
                    if i < nr.len() {
                        assert(nr[i] == j);
                    }
                }
            }
            assert(edges[edges.len() - 1] == e);
        } else {
            assert(edges[edges.len() - 1] == e);
        }
    }
}

/// In the complete graph on 13 nodes two distinct nodes are one step apart.
proof fn lemma_complete_one_step(edges: Seq<(usize, usize)>, a: usize, b: usize)
    requires
        forall|e: (usize, usize)| #[trigger] edges.contains(e) <==> is_complete_edge(e),
        a < 13,
        b < 13,
        a != b,
    ensures
        adjacent(edges, a, b),
        has_walk(edges, a, b, 1),
        is_distance(edges, a, b, 1),
        reachable(edges, a, b),
{
    if a < b {
        assert(edges.contains((a, b)));
    } else {
        assert(edges.contains((b, a)));
    }
    reveal_with_fuel(has_walk, 2);
    assert(has_walk(edges, b, b, 0));
    assert(adjacent(edges, a, b) && has_walk(edges, b, b, 0));
    assert(has_walk(edges, a, b, 1));
    assert(!has_walk(edges, a, b, 0));
}


/// The complete graph on 13 nodes is connected.
pub proof fn lemma_metatron_connected(edges: Seq<(usize, usize)>)
    requires
        forall|e: (usize, usize)| #[trigger] edges.contains(e) <==> is_complete_edge(e),
    ensures
        is_connected_graph(edges, 13),
{
    assert forall|j: usize| j < 13 implies #[trigger] reachable(edges, 0, j) by {
        if j == 0 {
            assert(has_walk(edges, 0, 0, 0));
        } else {
            lemma_complete_one_step(edges, 0, j);
        }
    }
}

/// The sum of the degrees of nodes `0..k`.
pub open spec fn degree_total(edges: Seq<(usize, usize)>, k: nat) -> nat
    decreases k,
{
    if k == 0 {
        0
    } else {
        degree_total(edges, (k - 1) as nat) + degree(edges, (k - 1) as usize)
    }
}

proof fn lemma_degree_total_step(edges: Seq<(usize, usize)>, k: nat)
    requires
        edges.len() > 0,
        k <= usize::MAX + 1,
    ensures
        degree_total(edges, k) == degree_total(edges.drop_last(), k) + (if edges.last().0 < k {
            1nat
        } else {
            0nat
        }) + (if edges.last().1 < k { 1nat } else { 0nat }),
    decreases k,
{
    if k > 0 {
        lemma_degree_total_step(edges, (k - 1) as nat);
    }
}

/// Handshake law: when every edge has both endpoints among the nodes
/// `0..n`, the degrees of those nodes add up to twice the number of edges.
pub proof fn lemma_handshake(edges: Seq<(usize, usize)>, n: usize)
    requires
        forall|i: int| 0 <= i < edges.len() ==> #[trigger] edges[i].0 < n && edges[i].1 < n,
    ensures
        degree_total(edges, n as nat) == 2 * edges.len(),
    decreases edges.len(),
{
    if edges.len() > 0 {
        let rest = edges.drop_last();
        assert forall|i: int| 0 <= i < rest.len() implies #[trigger] rest[i].0 < n && rest[i].1 < n by {
            assert(rest[i] == edges[i]);
        }
        lemma_handshake(rest, n);
        assert(edges.last() == edges[edges.len() - 1]);
        lemma_degree_total_step(edges, n as nat);
    } else {
        lemma_degree_total_empty(edges, n as nat);
    }
}

proof fn lemma_degree_total_empty(edges: Seq<(usize, usize)>, k: nat)
    requires
        edges.len() == 0,
    ensures
        degree_total(edges, k) == 0,
    decreases k,
{
    if k > 0 {
        lemma_degree_total_empty(edges, (k - 1) as nat);
    }
}

proof fn lemma_degree_is_neighbour_count(edges: Seq<(usize, usize)>, node: usize)
    requires
        forall|i: int| 0 <= i < edges.len() ==> #[trigger] edges[i].0 != edges[i].1,
    ensures
        degree(edges, node) == neighbours_of(edges, node).len(),
    decreases edges.len(),
{
    if edges.len() > 0 {
        let rest = edges.drop_last();
        assert forall|i: int| 0 <= i < rest.len() implies #[trigger] rest[i].0 != rest[i].1 by {
            assert(rest[i] == edges[i]);
        }
        assert(edges.last() == edges[edges.len() - 1]);
        lemma_degree_is_neighbour_count(rest, node);
    }
}

proof fn lemma_neighbours_distinct(edges: Seq<(usize, usize)>, node: usize)
    requires
        edges.no_duplicates(),
        forall|i: int| 0 <= i < edges.len() ==> #[trigger] edges[i].0 < edges[i].1,
    ensures
        neighbours_of(edges, node).no_duplicates(),
    decreases edges.len(),
{
    if edges.len() > 0 {
        let rest = edges.drop_last();
        let e = edges.last();
        assert(e == edges[edges.len() - 1]);
        assert forall|i: int| 0 <= i < rest.len() implies #[trigger] rest[i].0 < rest[i].1 by {
            assert(rest[i] == edges[i]);
        }
        assert(rest.no_duplicates()) by {
            assert forall|i: int, j: int| 0 <= i < rest.len() && 0 <= j < rest.len() && i != j implies rest[i] != rest[j] by {
                assert(rest[i] == edges[i] && rest[j] == edges[j]);
            }
        }
        lemma_neighbours_distinct(rest, node);
        let nr = neighbours_of(rest, node);
        assert(!rest.contains(e)) by {
            if rest.contains(e) {
                let k = choose|k: int| 0 <= k < rest.len() && rest[k] == e;
                assert(edges[k] == edges[edges.len() - 1]);
            }
        }
        let other = if e.0 == node { e.1 } else { e.0 };
        if (e.0 == node) != (e.1 == node) {
            lemma_neighbours_are_adjacent(rest, node, other);
            assert(!nr.contains(other)) by {
                if rest.contains((node, other)) {
                    let k = choose|k: int| 0 <= k < rest.len() && rest[k] == (node, other);
                    assert(rest[k].0 < rest[k].1);
                }
                if rest.contains((other, node)) {
                    let k = choose|k: int| 0 <= k < rest.len() && rest[k] == (other, node);
                    assert(rest[k].0 < rest[k].1);
                }
            }
            let nb = nr.push(other);
            assert(nb.no_duplicates()) by {
                assert forall|i: int, j: int| 0 <= i < nb.len() && 0 <= j < nb.len() && i != j implies nb[i] != nb[j] by {
                    if i == nr.len() {
                        assert(nr[j] == nb[j]);
                    } else if j == nr.len() {
                        assert(nr[i] == nb[i]);
                    } else {
                        assert(nr[i] == nb[i] && nr[j] == nb[j]);
                    }
                }
            }
        }
    }
}

/// The nodes `0..13` other than `node`, in increasing order.
spec fn other_nodes(node: usize) -> Seq<usize> {
    Seq::new(12, |i: int| if i < node { i as usize } else { (i + 1) as usize })
}

/// Regularity: in the complete graph on 13 nodes, listed once each, every
/// node has degree 12.
pub proof fn lemma_complete_degree(edges: Seq<(usize, usize)>, node: usize)
    requires
        edges.no_duplicates(),
        forall|e: (usize, usize)| #[trigger] edges.contains(e) <==> is_complete_edge(e),
        node < 13,
    ensures
        degree(edges, node) == 12,
{
    assert forall|i: int| 0 <= i < edges.len() implies #[trigger] edges[i].0 < edges[i].1 by {
        assert(edges.contains(edges[i]));
    }
    lemma_degree_is_neighbour_count(edges, node);
    lemma_neighbours_distinct(edges, node);
    let nb = neighbours_of(edges, node);
    let others = other_nodes(node);
    assert(others.no_duplicates());
    assert(nb.to_set() =~= others.to_set()) by {
        assert forall|j: usize| nb.to_set().contains(j) <==> others.to_set().contains(j) by {
            lemma_neighbours_are_adjacent(edges, node, j);
            if j < 13 && j != node {
                let i: int = if j < node { j as int } else { j - 1 };
                assert(others[i] == j);
                if j < node {
                    assert(edges.contains((j, node)));
                } else {
                    assert(edges.contains((node, j)));
                }
            }
            if others.contains(j) {
                let i = choose|i: int| 0 <= i < others.len() && others[i] == j;
                if j < node {
                    assert(edges.contains((j, node)));
                } else {
                    assert(edges.contains((node, j)));
                }
            }
        }
    }
    nb.unique_seq_to_set();
    others.unique_seq_to_set();
}

/// The Metatron Cube is 12-regular: every node has degree 12, so the
/// degrees add up to 156, twice the 78 edges.
pub proof fn lemma_metatron_regular(edges: Seq<(usize, usize)>)
    requires
        edges.no_duplicates(),
        forall|e: (usize, usize)| #[trigger] edges.contains(e) <==> is_complete_edge(e),
    ensures
        forall|v: usize| v < 13 ==> #[trigger] degree(edges, v) == 12,
        degree_total(edges, 13) == 2 * edges.len(),
        edges.len() == 78,
{
    assert forall|v: usize| v < 13 implies #[trigger] degree(edges, v) == 12 by {
        lemma_complete_degree(edges, v);
    }
    assert forall|i: int| 0 <= i < edges.len() implies #[trigger] edges[i].0 < 13 && edges[i].1 < 13 by {
        assert(edges.contains(edges[i]));
    }
    lemma_handshake(edges, 13);
    reveal_with_fuel(degree_total, 14);
    assert(degree_total(edges, 13) == 156);
}

/// Number of `false` entries.
pub open spec fn count_false(s: Seq<bool>) -> nat
    decreases s.len(),
{
    if s.len() == 0 {
        0
    } else {
        count_false(s.drop_last()) + if s.last() { 0nat } else { 1nat }
    }
}

proof fn lemma_count_false_update(s: Seq<bool>, i: int)
    requires
        0 <= i < s.len(),
        !s[i],
    ensures
        count_false(s.update(i, true)) + 1 == count_false(s),
    decreases s.len(),
{
    let t = s.update(i, true);
    if i == s.len() - 1 {
        assert(t.drop_last() =~= s.drop_last());
    } else {
        assert(t.drop_last() =~= s.drop_last().update(i, true));
        lemma_count_false_update(s.drop_last(), i);
    }
}


/// Number of entries equal to `usize::MAX` (nodes not yet reached).
pub open spec fn count_unreached(s: Seq<usize>) -> nat
    decreases s.len(),
{
    if s.len() == 0 {
        0
    } else {
        count_unreached(s.drop_last()) + if s.last() == usize::MAX { 1nat } else { 0nat }
    }
}

proof fn lemma_count_unreached_update(s: Seq<usize>, i: int, v: usize)
    requires
        0 <= i < s.len(),
        s[i] == usize::MAX,
        v != usize::MAX,
    ensures
        count_unreached(s.update(i, v)) + 1 == count_unreached(s),
    decreases s.len(),
{
    let t = s.update(i, v);
    if i == s.len() - 1 {
        assert(t.drop_last() =~= s.drop_last());
    } else {
        assert(t.drop_last() =~= s.drop_last().update(i, v));
        lemma_count_unreached_update(s.drop_last(), i, v);
    }
}

/// The distance from `a` to `b` exists and is at most `d`.
pub open spec fn within_distance(edges: Seq<(usize, usize)>, a: usize, b: usize, d: nat) -> bool {
    exists|k: nat| k <= d && #[trigger] is_distance(edges, a, b, k)
}

/// `d` is the diameter of the graph on nodes `0..n`: the largest distance
/// between two of its nodes.
pub open spec fn is_diameter(edges: Seq<(usize, usize)>, n: nat, d: nat) -> bool {
    &&& forall|a: usize, b: usize| a < n && b < n ==> #[trigger] within_distance(edges, a, b, d)
    &&& exists|a: usize, b: usize| a < n && b < n && #[trigger] is_distance(edges, a, b, d)
}

/// `m` is the smallest entry of the non-empty sequence `s`.
pub open spec fn is_min_of(s: Seq<usize>, m: usize) -> bool {
    s.contains(m) && forall|i: int| 0 <= i < s.len() ==> m <= #[trigger] s[i]
}

/// `m` is the largest entry of the non-empty sequence `s`.
pub open spec fn is_max_of(s: Seq<usize>, m: usize) -> bool {
    s.contains(m) && forall|i: int| 0 <= i < s.len() ==> #[trigger] s[i] <= m
}

/// Entry `(i, j)` of the adjacency matrix: 1 when `i` and `j` are joined.
pub open spec fn adjacency_entry(edges: Seq<(usize, usize)>, i: usize, j: usize) -> u8 {
    if adjacent(edges, i, j) {
        1
    } else {
        0
    }
}

proof fn lemma_adjacent_push(edges: Seq<(usize, usize)>, e: (usize, usize), a: usize, b: usize)
    ensures
        adjacent(edges.push(e), a, b) <==> (adjacent(edges, a, b) || e == (a, b) || e == (b, a)),
{
    let t = edges.push(e);
    assert(t[edges.len() as int] == e);
    if edges.contains((a, b)) {
        let k = choose|k: int| 0 <= k < edges.len() && edges[k] == (a, b);
        assert(t[k] == (a, b));
    }
    if edges.contains((b, a)) {
        let k = choose|k: int| 0 <= k < edges.len() && edges[k] == (b, a);
        assert(t[k] == (b, a));
    }
    if t.contains((a, b)) {
        let k = choose|k: int| 0 <= k < t.len() && t[k] == (a, b);
        if k < edges.len() {
            assert(edges[k] == (a, b));
        }
    }
    if t.contains((b, a)) {
        let k = choose|k: int| 0 <= k < t.len() && t[k] == (b, a);
        if k < edges.len() {
            assert(edges[k] == (b, a));
        }
    }
}

/// Structural statistics summarising a graph. (The mean degree, a
/// floating-point quantity, is derived from `degree_sequence` by the caller.)
#[derive(Clone, Debug)]
pub struct GraphStatistics {
    pub num_nodes: usize,
    pub num_edges: usize,
    pub min_degree: usize,
    pub max_degree: usize,
    pub degree_sequence: Vec<usize>,
    pub is_connected: bool,
    pub diameter: usize,
}


/// Mapping the nodes by `perm` sends every edge to an edge.
pub open spec fn is_graph_automorphism(edges: Seq<(usize, usize)>, perm: Seq<usize>) -> bool {
    forall|k: int|
        0 <= k < edges.len() ==> #[trigger] adjacent(
            edges,
            perm[edges[k].0 as int],
            perm[edges[k].1 as int],
        )
}

/// `p` permutes the 13 nodes: it has 13 entries, each a node, no two equal.
pub open spec fn is_node_permutation(p: Seq<usize>) -> bool {
    &&& p.len() == 13
    &&& forall|i: int| 0 <= i < 13 ==> #[trigger] p[i] < 13
    &&& p.no_duplicates()
}

/// `p` is an automorphism of the graph on the 13 nodes with edges `edges`:
/// a permutation of the nodes that maps every edge to an edge.
pub open spec fn is_automorphism_of(edges: Seq<(usize, usize)>, p: Seq<usize>) -> bool {
    is_node_permutation(p) && is_graph_automorphism(edges, p)
}

/// `p` maps every node to a node of the same class.
pub open spec fn keeps_classes(p: Seq<usize>) -> bool {
    forall|i: int| 0 <= i < 13 ==> #[trigger] node_type_of(p[i] as int) == node_type_of(i)
}

/// Some automorphism of the graph maps `node` to `v`.
pub open spec fn in_orbit(edges: Seq<(usize, usize)>, node: usize, v: usize) -> bool {
    exists|p: Seq<usize>| #[trigger] is_automorphism_of(edges, p) && p[node as int] == v
}

/// The weight of digit `i` of a number written in base 6.
pub open spec fn place_value(i: int) -> int {
    if i == 0 {
        1
    } else if i == 1 {
        6
    } else if i == 2 {
        36
    } else if i == 3 {
        216
    } else if i == 4 {
        1296
    } else {
        7776
    }
}

/// Digit `i` of `c` written in base 6 (digit 0 is the lowest).
pub open spec fn base6_digit(c: int, i: int) -> int {
    if i == 0 {
        c % 6
    } else {
        (c / place_value(i)) % 6
    }
}

/// The six base-6 digits of `c`, lowest first, each raised by `base`.
pub open spec fn digit_tuple(c: int, base: int) -> Seq<usize> {
    Seq::new(6, |i: int| (base + base6_digit(c, i)) as usize)
}

/// `t` lists the six nodes `base..base + 6`, each once, in some order.
pub open spec fn is_stratum_arrangement(t: Seq<usize>, base: int) -> bool {
    &&& t.len() == 6
    &&& forall|i: int| 0 <= i < 6 ==> base <= #[trigger] t[i] < base + 6
    &&& t.no_duplicates()
}

/// The number whose base-6 digits are the entries of `t` lowered by `base`.
pub open spec fn arrangement_code(t: Seq<usize>, base: int) -> int {
    (t[0] - base) + 6 * (t[1] - base) + 36 * (t[2] - base) + 216 * (t[3] - base) + 1296 * (t[4]
        - base) + 7776 * (t[5] - base)
}

/// The node permutation that fixes the centre and acts on the hexagon by
/// `h` and on the cube by `q`.
pub open spec fn combined_permutation(h: Seq<usize>, q: Seq<usize>) -> Seq<usize> {
    Seq::new(13, |j: int| if j == 0 { 0usize } else if j < 7 { h[j - 1] } else { q[j - 7] })
}

proof fn lemma_digit_reconstruction(c: int)
    requires
        0 <= c < 46656,
    ensures
        c == base6_digit(c, 0) + 6 * base6_digit(c, 1) + 36 * base6_digit(c, 2) + 216 * base6_digit(c, 3)
            + 1296 * base6_digit(c, 4) + 7776 * base6_digit(c, 5),
        forall|i: int| 0 <= i < 6 ==> 0 <= #[trigger] base6_digit(c, i) < 6,
{
    let q1 = c / 6;
    let q2 = c / 36;
    let q3 = c / 216;
    let q4 = c / 1296;
    let q5 = c / 7776;
    lemma_fundamental_div_mod(c, 6);
    lemma_mod_pos_bound(c, 6);
    lemma_div_pos_is_pos(c, 6);
    lemma_div_denominator(c, 6, 6);
    lemma_fundamental_div_mod(q1, 6);
    lemma_mod_pos_bound(q1, 6);
    lemma_div_pos_is_pos(c, 36);
    lemma_div_denominator(c, 36, 6);
    lemma_fundamental_div_mod(q2, 6);
    lemma_mod_pos_bound(q2, 6);
    lemma_div_pos_is_pos(c, 216);
    lemma_div_denominator(c, 216, 6);
    lemma_fundamental_div_mod(q3, 6);
    lemma_mod_pos_bound(q3, 6);
    lemma_div_pos_is_pos(c, 1296);
    lemma_div_denominator(c, 1296, 6);
    lemma_fundamental_div_mod(q4, 6);
    lemma_mod_pos_bound(q4, 6);
    lemma_div_pos_is_pos(c, 7776);
    lemma_fundamental_div_mod(c, 7776);
    lemma_mod_pos_bound(c, 7776);
    assert(q5 < 6);
    lemma_small_mod(q5 as nat, 6);
    lemma_mod_pos_bound(q5, 6);
    assert(base6_digit(c, 0) == c % 6);
    assert(base6_digit(c, 1) == q1 % 6);
    assert(base6_digit(c, 2) == q2 % 6);
    assert(base6_digit(c, 3) == q3 % 6);
    assert(base6_digit(c, 4) == q4 % 6);
    assert(base6_digit(c, 5) == q5);
}

proof fn lemma_code_digits(a0: int, a1: int, a2: int, a3: int, a4: int, a5: int)
    requires
        0 <= a0 < 6,
        0 <= a1 < 6,
        0 <= a2 < 6,
        0 <= a3 < 6,
        0 <= a4 < 6,
        0 <= a5 < 6,
    ensures
        ({
            let c = a0 + 6 * a1 + 36 * a2 + 216 * a3 + 1296 * a4 + 7776 * a5;
            &&& 0 <= c < 46656
            &&& base6_digit(c, 0) == a0
            &&& base6_digit(c, 1) == a1
            &&& base6_digit(c, 2) == a2
            &&& base6_digit(c, 3) == a3
            &&& base6_digit(c, 4) == a4
            &&& base6_digit(c, 5) == a5
        }),
{
    let k5 = a5;
    let k4 = a4 + 6 * k5;
    let k3 = a3 + 6 * k4;
    let k2 = a2 + 6 * k3;
    let k1 = a1 + 6 * k2;
    let c = a0 + 6 * k1;
    assert(c == a0 + 6 * a1 + 36 * a2 + 216 * a3 + 1296 * a4 + 7776 * a5);
    lemma_fundamental_div_mod_converse(c, 6, k1, a0);
    lemma_fundamental_div_mod_converse(k1, 6, k2, a1);
    lemma_fundamental_div_mod_converse(k2, 6, k3, a2);
    lemma_fundamental_div_mod_converse(k3, 6, k4, a3);
    lemma_fundamental_div_mod_converse(k4, 6, k5, a4);
    lemma_small_mod(k5 as nat, 6);
    lemma_div_denominator(c, 6, 6);
    lemma_div_denominator(c, 36, 6);
    lemma_div_denominator(c, 216, 6);
    lemma_div_denominator(c, 1296, 6);
    assert(c / 36 == k2);
    assert(c / 216 == k3);
    assert(c / 1296 == k4);
    assert(c / 7776 == k5);
}

/// Different numbers below `6^6` have different digits.
proof fn lemma_digits_injective(c1: int, c2: int, base: int)
    requires
        0 <= c1 < 46656,
        0 <= c2 < 46656,
        0 <= base <= 7,
        digit_tuple(c1, base) == digit_tuple(c2, base),
    ensures
        c1 == c2,
{
    lemma_digit_reconstruction(c1);
    lemma_digit_reconstruction(c2);
    assert forall|i: int| 0 <= i < 6 implies base6_digit(c1, i) == base6_digit(c2, i) by {
        assert(0 <= base6_digit(c1, i) < 6);
        assert(0 <= base6_digit(c2, i) < 6);
        assert(digit_tuple(c1, base)[i] == digit_tuple(c2, base)[i]);
        assert(digit_tuple(c1, base)[i] == (base + base6_digit(c1, i)) as usize);
        assert(digit_tuple(c2, base)[i] == (base + base6_digit(c2, i)) as usize);
        assert((base + base6_digit(c1, i)) as usize == base + base6_digit(c1, i));
        assert((base + base6_digit(c2, i)) as usize == base + base6_digit(c2, i));
    }
    assert(base6_digit(c1, 0) == base6_digit(c2, 0));
    assert(base6_digit(c1, 1) == base6_digit(c2, 1));
    assert(base6_digit(c1, 2) == base6_digit(c2, 2));
    assert(base6_digit(c1, 3) == base6_digit(c2, 3));
    assert(base6_digit(c1, 4) == base6_digit(c2, 4));
    assert(base6_digit(c1, 5) == base6_digit(c2, 5));
}

/// Every arrangement of a stratum is the digit tuple of its code.
proof fn lemma_arrangement_listed(t: Seq<usize>, base: int)
    requires
        is_stratum_arrangement(t, base),
        0 <= base <= 7,
    ensures
        0 <= arrangement_code(t, base) < 46656,
        digit_tuple(arrangement_code(t, base), base) == t,
{
    lemma_code_digits(t[0] - base, t[1] - base, t[2] - base, t[3] - base, t[4] - base, t[5] - base);
    let c = arrangement_code(t, base);
    assert(digit_tuple(c, base) =~= t) by {
        assert forall|i: int| 0 <= i < 6 implies digit_tuple(c, base)[i] == t[i] by {
            assert(base <= t[i] < base + 6);
        }
    }
}

/// A permutation that fixes the centre and arranges the hexagon and the
/// cube is a node permutation that keeps every node in its class; every
/// such permutation arises so.
proof fn lemma_class_permutations(p: Seq<usize>, h: Seq<usize>, q: Seq<usize>)
    ensures
        is_stratum_arrangement(h, 1) && is_stratum_arrangement(q, 7) ==> is_node_permutation(
            combined_permutation(h, q),
        ) && keeps_classes(combined_permutation(h, q)),
        is_node_permutation(p) && keeps_classes(p) ==> is_stratum_arrangement(p.subrange(1, 7), 1)
            && is_stratum_arrangement(p.subrange(7, 13), 7) && p == combined_permutation(
            p.subrange(1, 7),
            p.subrange(7, 13),
        ),
{
    if is_stratum_arrangement(h, 1) && is_stratum_arrangement(q, 7) {
        let c = combined_permutation(h, q);
        assert forall|i: int| 0 <= i < 13 implies #[trigger] c[i] < 13 && node_type_of(c[i] as int)
            == node_type_of(i) by {
            if 1 <= i < 7 {
                assert(1 <= h[i - 1] < 7);
            } else if i >= 7 {
                assert(7 <= q[i - 7] < 13);
            }
        }
        assert(c.no_duplicates()) by {
            assert forall|i: int, j: int| 0 <= i < 13 && 0 <= j < 13 && i != j implies c[i] != c[j] by {
                if 1 <= i < 7 {
                    assert(1 <= h[i - 1] < 7);
                } else if i >= 7 {
                    assert(7 <= q[i - 7] < 13);
                }
                if 1 <= j < 7 {
                    assert(1 <= h[j - 1] < 7);
                } else if j >= 7 {
                    assert(7 <= q[j - 7] < 13);
                }
            }
        }
    }
    if is_node_permutation(p) && keeps_classes(p) {
        let hh = p.subrange(1, 7);
        let qq = p.subrange(7, 13);
        assert forall|i: int| 0 <= i < 6 implies 1 <= #[trigger] hh[i] < 7 by {
            assert(hh[i] == p[i + 1]);
            assert(node_type_of(p[i + 1] as int) == node_type_of(i + 1));
        }
        assert forall|i: int| 0 <= i < 6 implies 7 <= #[trigger] qq[i] < 13 by {
            assert(qq[i] == p[i + 7]);
            assert(node_type_of(p[i + 7] as int) == node_type_of(i + 7));
        }
        assert(hh.no_duplicates()) by {
            assert forall|i: int, j: int| 0 <= i < 6 && 0 <= j < 6 && i != j implies hh[i] != hh[j] by {
                assert(hh[i] == p[i + 1] && hh[j] == p[j + 1]);
            }
        }
        assert(qq.no_duplicates()) by {
            assert forall|i: int, j: int| 0 <= i < 6 && 0 <= j < 6 && i != j implies qq[i] != qq[j] by {
                assert(qq[i] == p[i + 7] && qq[j] == p[j + 7]);
            }
        }
        assert(node_type_of(p[0] as int) == node_type_of(0));
        assert(p =~= combined_permutation(hh, qq));
    }
}

/// The hexagon and cube arrangements can be read back from a combined
/// permutation.
proof fn lemma_combined_injective(h1: Seq<usize>, q1: Seq<usize>, h2: Seq<usize>, q2: Seq<usize>)
    requires
        h1.len() == 6,
        q1.len() == 6,
        h2.len() == 6,
        q2.len() == 6,
        combined_permutation(h1, q1) == combined_permutation(h2, q2),
    ensures
        h1 == h2,
        q1 == q2,
{
    assert forall|i: int| 0 <= i < 6 implies h1[i] == h2[i] by {
        assert(combined_permutation(h1, q1)[i + 1] == h1[i]);
        assert(combined_permutation(h2, q2)[i + 1] == h2[i]);
    }
    assert forall|i: int| 0 <= i < 6 implies q1[i] == q2[i] by {
        assert(combined_permutation(h1, q1)[i + 7] == q1[i]);
        assert(combined_permutation(h2, q2)[i + 7] == q2[i]);
    }
    assert(h1 =~= h2);
    assert(q1 =~= q2);
}

/// On the complete graph on the 13 nodes every permutation of the nodes is
/// an automorphism.
pub proof fn lemma_complete_graph_automorphisms(edges: Seq<(usize, usize)>, p: Seq<usize>)
    requires
        forall|e: (usize, usize)| #[trigger] edges.contains(e) <==> is_complete_edge(e),
        is_node_permutation(p),
    ensures
        is_automorphism_of(edges, p),
{
    assert forall|t: int| 0 <= t < edges.len() implies #[trigger] adjacent(
        edges,
        p[edges[t].0 as int],
        p[edges[t].1 as int],
    ) by {
        let e = edges[t];
        assert(edges.contains(e));
        let x = p[e.0 as int];
        let y = p[e.1 as int];
        assert(x != y);
        if x < y {
            assert(is_complete_edge((x, y)));
        } else {
            assert(is_complete_edge((y, x)));
        }
    }
}

/// The permutation exchanging nodes `a` and `b`.
pub open spec fn transposition(a: usize, b: usize) -> Seq<usize> {
    Seq::new(13, |i: int| if i == a { b } else if i == b { a } else { i as usize })
}

proof fn lemma_transposition(a: usize, b: usize)
    requires
        a < 13,
        b < 13,
    ensures
        is_node_permutation(transposition(a, b)),
        transposition(a, b)[a as int] == b,
{
    let t = transposition(a, b);
    assert(t.no_duplicates()) by {
        assert forall|i: int, j: int| 0 <= i < 13 && 0 <= j < 13 && i != j implies t[i] != t[j] by {}
    }
}


#[verifier::external_type_specification]
#[verifier::external_body]
#[verifier::reject_recursive_types(N)]
#[verifier::reject_recursive_types(E)]
#[verifier::reject_recursive_types(Ty)]
#[verifier::reject_recursive_types(Ix)]
pub struct ExPetGraph<N, E, Ty, Ix>(petgraph::graph::Graph<N, E, Ty, Ix>);

#[verifier::external_type_specification]
#[verifier::external_body]
pub struct ExPetUndirected(petgraph::Undirected);

/// The node weights of a `petgraph` graph, in node-index order.
pub uninterp spec fn petgraph_node_weights(g: UnGraph<NodeMetadata, ()>) -> Seq<NodeMetadata>;

/// The endpoints of the edges of a `petgraph` graph (as node indices), in
/// edge-index order.
pub uninterp spec fn petgraph_edge_endpoints(g: UnGraph<NodeMetadata, ()>) -> Seq<(usize, usize)>;

/// `petgraph::graph::Graph::with_capacity`: a graph with no nodes and no
/// edges (the capacities only reserve memory). The reservation panics when
/// its size in bytes exceeds `isize::MAX`; the bound on the capacities keeps
/// far below that.
#[verifier::external_body]
fn petgraph_with_capacity(nodes: usize, edges: usize) -> (g: UnGraph<NodeMetadata, ()>)
    requires
        nodes <= 0x10000,
        edges <= 0x10000,
    ensures
        petgraph_node_weights(g) == Seq::<NodeMetadata>::empty(),
        petgraph_edge_endpoints(g) == Seq::<(usize, usize)>::empty(),
{
    UnGraph::with_capacity(nodes, edges)
}

/// `petgraph::graph::Graph::add_node`: appends a node with the given weight
/// and returns its index, the former node count. With `u32` indices it
/// panics when the node count has reached `u32::MAX`.
#[verifier::external_body]
fn petgraph_add_node(g: &mut UnGraph<NodeMetadata, ()>, weight: NodeMetadata) -> (index: usize)
    requires
        petgraph_node_weights(*old(g)).len() < u32::MAX,
    ensures
        petgraph_node_weights(*final(g)) == petgraph_node_weights(*old(g)).push(weight),
        petgraph_edge_endpoints(*final(g)) == petgraph_edge_endpoints(*old(g)),
        index == petgraph_node_weights(*old(g)).len(),
{
    g.add_node(weight).index()
}

/// `petgraph::graph::Graph::add_edge`: appends an edge between the nodes of
/// indices `a` and `b`. It panics when either node does not exist or the
/// edge count has reached `u32::MAX`.
#[verifier::external_body]
fn petgraph_add_edge(g: &mut UnGraph<NodeMetadata, ()>, a: usize, b: usize)
    requires
        a < petgraph_node_weights(*old(g)).len(),
        b < petgraph_node_weights(*old(g)).len(),
        petgraph_node_weights(*old(g)).len() < u32::MAX,
        petgraph_edge_endpoints(*old(g)).len() < u32::MAX,
    ensures
        petgraph_node_weights(*final(g)) == petgraph_node_weights(*old(g)),
        petgraph_edge_endpoints(*final(g)) == petgraph_edge_endpoints(*old(g)).push((a, b)),
{
    g.add_edge(NodeIndex::new(a), NodeIndex::new(b), ());
}

/// `n!`.
pub open spec fn factorial(n: nat) -> nat
    decreases n,
{
    if n == 0 {
        1
    } else {
        n * factorial((n - 1) as nat)
    }
}

/// The number of automorphisms that map node `i` to `prefix[i]` for the
/// nodes `i < prefix.len()`: the images of the remaining nodes are chosen
/// one node after another, each among the nodes not used yet, and a
/// complete choice counts when it is an automorphism.
pub open spec fn completions(edges: Seq<(usize, usize)>, prefix: Seq<usize>) -> nat
    decreases 13 - prefix.len(), 14nat,
{
    if prefix.len() >= 13 {
        if is_automorphism_of(edges, prefix) {
            1
        } else {
            0
        }
    } else {
        choice_total(edges, prefix, 13)
    }
}

/// The completions of `prefix` whose next image is one of the nodes `0..m`.
pub open spec fn choice_total(edges: Seq<(usize, usize)>, prefix: Seq<usize>, m: nat) -> nat
    decreases 13 - prefix.len(), m,
{
    if m == 0 || prefix.len() >= 13 {
        0
    } else {
        choice_total(edges, prefix, (m - 1) as nat) + if prefix.contains((m - 1) as usize) {
            0
        } else {
            completions(edges, prefix.push((m - 1) as usize))
        }
    }
}

/// The order of the automorphism group of the graph on the 13 nodes.
pub open spec fn automorphism_count(edges: Seq<(usize, usize)>) -> nat {
    completions(edges, Seq::empty())
}

/// How many of the nodes `0..m` occur in `prefix`.
pub open spec fn used_below(prefix: Seq<usize>, m: nat) -> nat
    decreases m,
{
    if m == 0 {
        0
    } else {
        used_below(prefix, (m - 1) as nat) + if prefix.contains((m - 1) as usize) {
            1nat
        } else {
            0nat
        }
    }
}

proof fn lemma_used_below_push(prefix: Seq<usize>, x: usize, m: nat)
    requires
        !prefix.contains(x),
        m <= 13,
    ensures
        used_below(prefix.push(x), m) == used_below(prefix, m) + if x < m { 1nat } else { 0nat },
    decreases m,
{
    if m > 0 {
        lemma_used_below_push(prefix, x, (m - 1) as nat);
        let y = (m - 1) as usize;
        assert(prefix.push(x).contains(y) <==> (prefix.contains(y) || y == x)) by {
            if prefix.push(x).contains(y) {
                let k = choose|k: int| 0 <= k < prefix.len() + 1 && prefix.push(x)[k] == y;
                if k < prefix.len() {
                    assert(prefix[k] == y);
                }
            }
            if prefix.contains(y) {
                let k = choose|k: int| 0 <= k < prefix.len() && prefix[k] == y;
                assert(prefix.push(x)[k] == y);
            }
            if y == x {
                assert(prefix.push(x)[prefix.len() as int] == y);
            }
        }
    }
}

proof fn lemma_used_below_all(prefix: Seq<usize>)
    requires
        prefix.no_duplicates(),
        forall|i: int| 0 <= i < prefix.len() ==> #[trigger] prefix[i] < 13,
    ensures
        used_below(prefix, 13) == prefix.len(),
    decreases prefix.len(),
{
    if prefix.len() == 0 {
        lemma_used_below_empty(prefix, 13);
    } else {
        let rest = prefix.drop_last();
        let x = prefix.last();
        assert(rest.no_duplicates()) by {
            assert forall|i: int, j: int| 0 <= i < rest.len() && 0 <= j < rest.len() && i != j implies rest[i] != rest[j] by {
                assert(rest[i] == prefix[i] && rest[j] == prefix[j]);
            }
        }
        assert forall|i: int| 0 <= i < rest.len() implies #[trigger] rest[i] < 13 by {
            assert(rest[i] == prefix[i]);
        }
        assert(!rest.contains(x)) by {
            if rest.contains(x) {
                let k = choose|k: int| 0 <= k < rest.len() && rest[k] == x;
                assert(prefix[k] == prefix[prefix.len() - 1]);
            }
        }
        assert(x < 13) by {
            assert(prefix[prefix.len() - 1] == x);
        }
        lemma_used_below_all(rest);
        lemma_used_below_push(rest, x, 13);
        assert(rest.push(x) =~= prefix);
    }
}

proof fn lemma_used_below_empty(prefix: Seq<usize>, m: nat)
    requires
        prefix.len() == 0,
    ensures
        used_below(prefix, m) == 0,
    decreases m,
{
    if m > 0 {
        lemma_used_below_empty(prefix, (m - 1) as nat);
    }
}

proof fn lemma_choice_total(edges: Seq<(usize, usize)>, prefix: Seq<usize>, m: nat, f: nat)
    requires
        prefix.len() < 13,
        m <= 13,
        forall|x: usize| x < 13 && !prefix.contains(x) ==> #[trigger] completions(edges, prefix.push(x)) == f,
    ensures
        choice_total(edges, prefix, m) == (m - used_below(prefix, m)) * f,
        used_below(prefix, m) <= m,
    decreases m,
{
    if m > 0 {
        lemma_choice_total(edges, prefix, (m - 1) as nat, f);
        let u = used_below(prefix, (m - 1) as nat);
        let x = (m - 1) as usize;
        if prefix.contains(x) {
        } else {
            assert(completions(edges, prefix.push(x)) == f);
            assert((m - u) * f == (m - 1 - u) * f + f) by (nonlinear_arith)
                requires
                    u <= m - 1,
            ;
        }
    }
}

/// On the complete graph every way of completing an injective assignment of
/// images is an automorphism: a prefix of length `k` has `(13 - k)!`
/// completions.
proof fn lemma_completions(edges: Seq<(usize, usize)>, prefix: Seq<usize>)
    requires
        forall|e: (usize, usize)| #[trigger] edges.contains(e) <==> is_complete_edge(e),
        prefix.len() <= 13,
        prefix.no_duplicates(),
        forall|i: int| 0 <= i < prefix.len() ==> #[trigger] prefix[i] < 13,
    ensures
        completions(edges, prefix) == factorial((13 - prefix.len()) as nat),
    decreases 13 - prefix.len(),
{
    if prefix.len() == 13 {
        lemma_complete_graph_automorphisms(edges, prefix);
    } else {
        let f = factorial((12 - prefix.len()) as nat);
        assert forall|x: usize| x < 13 && !prefix.contains(x) implies #[trigger] completions(
            edges,
            prefix.push(x),
        ) == f by {
            let next = prefix.push(x);
            assert(next.no_duplicates()) by {
                assert forall|i: int, j: int| 0 <= i < next.len() && 0 <= j < next.len() && i != j implies next[i] != next[j] by {
                    if i == prefix.len() {
                        assert(prefix.contains(next[j]));
                    } else if j == prefix.len() {
                        assert(prefix.contains(next[i]));
                    } else {
                        assert(next[i] == prefix[i] && next[j] == prefix[j]);
                    }
                }
            }
            assert forall|i: int| 0 <= i < next.len() implies #[trigger] next[i] < 13 by {
                if i < prefix.len() {
                    assert(next[i] == prefix[i]);
                }
            }
            lemma_completions(edges, next);
        }
        lemma_choice_total(edges, prefix, 13, f);
        lemma_used_below_all(prefix);
        let n = (13 - prefix.len()) as nat;
        assert(factorial(n) == n * factorial((n - 1) as nat));
    }
}

/// The order of the automorphism group of the complete graph on the 13
/// nodes is `13! = 6227020800`.
pub proof fn lemma_complete_graph_group_order(edges: Seq<(usize, usize)>)
    requires
        forall|e: (usize, usize)| #[trigger] edges.contains(e) <==> is_complete_edge(e),
    ensures
        automorphism_count(edges) == factorial(13),
        factorial(13) == 6227020800,
{
    lemma_completions(edges, Seq::empty());
    reveal_with_fuel(factorial, 14);
}

/// The 13 nodes in increasing order.
pub open spec fn all_nodes() -> Seq<usize> {
    Seq::new(13, |i: int| i as usize)
}

/// `p` lists the entries of `avail`, each once, in some order.
pub open spec fn arranges(p: Seq<usize>, avail: Seq<usize>) -> bool {
    &&& p.len() == avail.len()
    &&& p.no_duplicates()
    &&& forall|x: usize| #[trigger] p.contains(x) <==> avail.contains(x)
}

/// Arrangement number `k` of the entries of `avail` (the factorial number
/// system): with `f` the number of arrangements of all entries but one, the
/// first entry is `avail[k / f]` and the rest is arrangement number `k % f`
/// of the entries left. A number past the last arrangement takes the last
/// entry left at each step.
pub open spec fn arrangement_at(avail: Seq<usize>, k: nat) -> Seq<usize>
    decreases avail.len(),
{
    if avail.len() == 0 {
        Seq::empty()
    } else {
        let f = factorial((avail.len() - 1) as nat);
        let i = first_pick(k, avail.len());
        seq![avail[i]] + arrangement_at(avail.remove(i), k % f)
    }
}

/// The position of the first entry of arrangement number `k` of `n`
/// entries: `k / (n - 1)!`, or the last position when that is past the end.
pub open spec fn first_pick(k: nat, n: nat) -> int {
    let f = factorial((n - 1) as nat);
    if f > 0 && k / f < n {
        (k / f) as int
    } else {
        n - 1
    }
}

/// Permutation number `k` of the 13 nodes: the nodes are taken in increasing
/// order, so permutation 0 is the identity and the numbering follows the
/// lexicographic order of the image sequences.
pub open spec fn nth_permutation(k: nat) -> Seq<usize> {
    arrangement_at(all_nodes(), k)
}

proof fn lemma_factorial_positive(n: nat)
    ensures
        factorial(n) >= 1,
    decreases n,
{
    if n > 0 {
        lemma_factorial_positive((n - 1) as nat);
        let f = factorial((n - 1) as nat);
        assert(n * f >= 1) by (nonlinear_arith)
            requires
                n >= 1,
                f >= 1,
        ;
    }
}

proof fn lemma_remove_entry(avail: Seq<usize>, i: int)
    requires
        avail.no_duplicates(),
        0 <= i < avail.len(),
    ensures
        avail.remove(i).len() == avail.len() - 1,
        avail.remove(i).no_duplicates(),
        forall|x: usize| #[trigger] avail.remove(i).contains(x) <==> (avail.contains(x) && x != avail[i]),
{
    avail.remove_ensures(i);
    let rest = avail.remove(i);
    assert(rest.no_duplicates()) by {
        assert forall|a: int, b: int| 0 <= a < rest.len() && 0 <= b < rest.len() && a != b implies rest[a] != rest[b] by {
            let a2 = if a < i { a } else { a + 1 };
            let b2 = if b < i { b } else { b + 1 };
            assert(rest[a] == avail[a2]);
            assert(rest[b] == avail[b2]);
        }
    }
    assert forall|x: usize| #[trigger] rest.contains(x) <==> (avail.contains(x) && x != avail[i]) by {
        if rest.contains(x) {
            let a = choose|a: int| 0 <= a < rest.len() && rest[a] == x;
            let a2 = if a < i { a } else { a + 1 };
            assert(rest[a] == avail[a2]);
        }
        if avail.contains(x) && x != avail[i] {
            let j = choose|j: int| 0 <= j < avail.len() && avail[j] == x;
            if j < i {
                assert(rest[j] == x);
            } else {
                assert(rest[j - 1] == x);
            }
        }
    }
}

/// Every number gives an arrangement of the entries.
proof fn lemma_arrangement_arranges(avail: Seq<usize>, k: nat)
    requires
        avail.no_duplicates(),
    ensures
        arranges(arrangement_at(avail, k), avail),
    decreases avail.len(),
{
    let r = arrangement_at(avail, k);
    if avail.len() == 0 {
        assert forall|x: usize| #[trigger] r.contains(x) <==> avail.contains(x) by {}
    } else {
        let f = factorial((avail.len() - 1) as nat);
        lemma_factorial_positive((avail.len() - 1) as nat);
        let i = first_pick(k, avail.len());
        let rest = avail.remove(i);
        lemma_remove_entry(avail, i);
        lemma_arrangement_arranges(rest, k % f);
        let tail = arrangement_at(rest, k % f);
        assert(r == seq![avail[i]] + tail);
        assert forall|a: int| 0 < a < r.len() implies #[trigger] r[a] == tail[a - 1] by {}
        assert(!tail.contains(avail[i]));
        assert(r.no_duplicates()) by {
            assert forall|a: int, b: int| 0 <= a < r.len() && 0 <= b < r.len() && a != b implies r[a] != r[b] by {
                if a == 0 {
                    assert(tail.contains(r[b]));
                } else if b == 0 {
                    assert(tail.contains(r[a]));
                }
            }
        }
        assert forall|x: usize| #[trigger] r.contains(x) <==> avail.contains(x) by {
            if r.contains(x) {
                let a = choose|a: int| 0 <= a < r.len() && r[a] == x;
                if a > 0 {
                    assert(tail.contains(x));
                }
            }
            if avail.contains(x) {
                if x == avail[i] {
                    assert(r[0] == x);
                } else {
                    assert(tail.contains(x));
                    let b = choose|b: int| 0 <= b < tail.len() && tail[b] == x;
                    assert(r[b + 1] == x);
                }
            }
        }
    }
}

/// Two numbers below the count of arrangements give the same arrangement
/// only when they are equal.
proof fn lemma_arrangement_injective(avail: Seq<usize>, j: nat, k: nat)
    requires
        avail.no_duplicates(),
        j < factorial(avail.len()),
        k < factorial(avail.len()),
        arrangement_at(avail, j) == arrangement_at(avail, k),
    ensures
        j == k,
    decreases avail.len(),
{
    if avail.len() > 0 {
        let n = avail.len();
        let f = factorial((n - 1) as nat);
        lemma_factorial_positive((n - 1) as nat);
        assert(factorial(n) == n * f);
        let qj = j / f;
        let qk = k / f;
        lemma_fundamental_div_mod(j as int, f as int);
        lemma_fundamental_div_mod(k as int, f as int);
        lemma_mod_pos_bound(j as int, f as int);
        lemma_mod_pos_bound(k as int, f as int);
        assert(qj < n) by (nonlinear_arith)
            requires
                j == f * qj + j % f,
                j % f >= 0,
                j < n * f,
                f >= 1,
        ;
        assert(qk < n) by (nonlinear_arith)
            requires
                k == f * qk + k % f,
                k % f >= 0,
                k < n * f,
                f >= 1,
        ;
        let rj = arrangement_at(avail, j);
        let rk = arrangement_at(avail, k);
        assert(rj[0] == avail[qj as int]);
        assert(rk[0] == avail[qk as int]);
        assert(qj == qk);
        let rest = avail.remove(qj as int);
        lemma_remove_entry(avail, qj as int);
        let tj = arrangement_at(rest, j % f);
        let tk = arrangement_at(rest, k % f);
        assert(tj =~= rj.subrange(1, rj.len() as int));
        assert(tk =~= rk.subrange(1, rk.len() as int));
        lemma_arrangement_injective(rest, j % f, k % f);
    } else {
        assert(factorial(0) == 1);
    }
}

/// Every arrangement of the entries has a number below the count of
/// arrangements.
proof fn lemma_arrangement_onto(avail: Seq<usize>, p: Seq<usize>) -> (k: nat)
    requires
        avail.no_duplicates(),
        arranges(p, avail),
    ensures
        k < factorial(avail.len()),
        arrangement_at(avail, k) == p,
    decreases avail.len(),
{
    if avail.len() == 0 {
        assert(factorial(0) == 1);
        assert(p =~= arrangement_at(avail, 0));
        0
    } else {
        let n = avail.len();
        let f = factorial((n - 1) as nat);
        lemma_factorial_positive((n - 1) as nat);
        assert(factorial(n) == n * f);
        assert(p.contains(p[0]));
        let i = choose|i: int| 0 <= i < avail.len() && avail[i] == p[0];
        let rest = avail.remove(i);
        lemma_remove_entry(avail, i);
        let tail = p.drop_first();
        assert forall|a: int| 0 <= a < tail.len() implies #[trigger] tail[a] == p[a + 1] by {}
        assert(tail.no_duplicates()) by {
            assert forall|a: int, b: int| 0 <= a < tail.len() && 0 <= b < tail.len() && a != b implies tail[a] != tail[b] by {
                assert(p[a + 1] != p[b + 1]);
            }
        }
        assert forall|x: usize| #[trigger] tail.contains(x) <==> rest.contains(x) by {
            if tail.contains(x) {
                let a = choose|a: int| 0 <= a < tail.len() && tail[a] == x;
                assert(p.contains(x));
                assert(p[a + 1] != p[0]);
            }
            if rest.contains(x) {
                assert(avail.contains(x));
                assert(p.contains(x));
                let a = choose|a: int| 0 <= a < p.len() && p[a] == x;
                assert(a != 0);
                assert(tail[a - 1] == x);
            }
        }
        let k2 = lemma_arrangement_onto(rest, tail);
        let k = (i * f + k2) as nat;
        lemma_fundamental_div_mod_converse(k as int, f as int, i, k2 as int);
        assert(k < n * f) by (nonlinear_arith)
            requires
                k == i * f + k2,
                k2 < f,
                0 <= i < n,
        ;
        let r = arrangement_at(avail, k);
        assert(r == seq![avail[i]] + arrangement_at(rest, k2));
        assert(r =~= p);
        k
    }
}

proof fn lemma_used_below_full(p: Seq<usize>, m: nat)
    requires
        used_below(p, m) == m,
    ensures
        forall|x: usize| x < m ==> #[trigger] p.contains(x),
    decreases m,
{
    if m > 0 {
        lemma_used_below_bound(p, (m - 1) as nat);
        lemma_used_below_full(p, (m - 1) as nat);
    }
}

proof fn lemma_used_below_bound(p: Seq<usize>, m: nat)
    ensures
        used_below(p, m) <= m,
    decreases m,
{
    if m > 0 {
        lemma_used_below_bound(p, (m - 1) as nat);
    }
}

/// The permutations of the nodes are the arrangements of all 13 nodes.
proof fn lemma_node_permutation_arranges(p: Seq<usize>)
    ensures
        is_node_permutation(p) <==> arranges(p, all_nodes()),
        all_nodes().no_duplicates(),
{
    let nodes = all_nodes();
    assert(nodes.no_duplicates());
    if is_node_permutation(p) {
        lemma_used_below_all(p);
        lemma_used_below_full(p, 13);
        assert forall|x: usize| #[trigger] p.contains(x) <==> nodes.contains(x) by {
            if p.contains(x) {
                let a = choose|a: int| 0 <= a < p.len() && p[a] == x;
                assert(nodes[x as int] == x);
            }
            if nodes.contains(x) {
                let a = choose|a: int| 0 <= a < nodes.len() && nodes[a] == x;
            }
        }
    }
    if arranges(p, nodes) {
        assert forall|i: int| 0 <= i < 13 implies #[trigger] p[i] < 13 by {
            assert(p.contains(p[i]));
            let a = choose|a: int| 0 <= a < nodes.len() && nodes[a] == p[i];
        }
    }
}

/// Numbering the permutations of the 13 nodes by `nth_permutation` lists
/// every automorphism of the complete graph exactly once: each number below
/// the order of the group gives an automorphism, two such numbers give the
/// same automorphism only when they are equal, and every automorphism has
/// such a number.
pub proof fn lemma_automorphism_numbering(edges: Seq<(usize, usize)>)
    requires
        forall|e: (usize, usize)| #[trigger] edges.contains(e) <==> is_complete_edge(e),
    ensures
        forall|k: nat|
            k < automorphism_count(edges) ==> is_automorphism_of(edges, #[trigger] nth_permutation(k)),
        forall|j: nat, k: nat|
            j < automorphism_count(edges) && k < automorphism_count(edges) && #[trigger] nth_permutation(j)
                == #[trigger] nth_permutation(k) ==> j == k,
        forall|p: Seq<usize>|
            #[trigger] is_automorphism_of(edges, p) ==> exists|k: nat|
                k < automorphism_count(edges) && #[trigger] nth_permutation(k) == p,
{
    lemma_complete_graph_group_order(edges);
    let nodes = all_nodes();
    lemma_node_permutation_arranges(Seq::empty());
    assert(nodes.len() == 13);
    assert forall|k: nat| k < automorphism_count(edges) implies is_automorphism_of(
        edges,
        #[trigger] nth_permutation(k),
    ) by {
        lemma_arrangement_arranges(nodes, k);
        lemma_node_permutation_arranges(nth_permutation(k));
        lemma_complete_graph_automorphisms(edges, nth_permutation(k));
    }
    assert forall|j: nat, k: nat|
        j < automorphism_count(edges) && k < automorphism_count(edges) && #[trigger] nth_permutation(j)
            == #[trigger] nth_permutation(k) implies j == k by {
        lemma_arrangement_injective(nodes, j, k);
    }
    assert forall|p: Seq<usize>| #[trigger] is_automorphism_of(edges, p) implies exists|k: nat|
        k < automorphism_count(edges) && #[trigger] nth_permutation(k) == p by {
        lemma_node_permutation_arranges(p);
        let k = lemma_arrangement_onto(nodes, p);
        assert(nth_permutation(k) == p);
    }
}

proof fn lemma_factorial_monotone(a: nat, b: nat)
    requires
        a <= b,
    ensures
        factorial(a) <= factorial(b),
    decreases b,
{
    if a < b {
        lemma_factorial_monotone(a, (b - 1) as nat);
        lemma_factorial_positive((b - 1) as nat);
        let f = factorial((b - 1) as nat);
        assert(b * f >= f) by (nonlinear_arith)
            requires
                b >= 1,
                f >= 1,
        ;
    }
}

/// `n!`, for the `n` whose factorial fits the bound of the loop.
fn small_factorial(n: usize) -> (r: u64)
    requires
        n <= 12,
    ensures
        r == factorial(n as nat),
        r >= 1,
{
    let mut r: u64 = 1;
    let mut i: usize = 0;
    proof {
        reveal_with_fuel(factorial, 13);
        assert(factorial(12) == 479001600);
    }
    while i < n
        invariant
            i <= n <= 12,
            r == factorial(i as nat),
            factorial(12) == 479001600,
        decreases n - i,
    {
        i += 1;
        proof {
            lemma_factorial_monotone(i as nat, 12);
        }
        let ghost prev = factorial((i - 1) as nat);
        assert(factorial(i as nat) == i * prev);
        assert(r * i == i * prev) by (nonlinear_arith)
            requires
                r == prev,
        ;
        r = r * (i as u64);
    }
    proof {
        lemma_factorial_positive(n as nat);
    }
    r
}

/// Whether the entries of `v` are pairwise distinct.
fn all_distinct(v: &Vec<usize>) -> (r: bool)
    ensures
        r == v@.no_duplicates(),
{
    let mut i: usize = 0;
    while i < v.len()
        invariant
            i <= v.len(),
            forall|x: int, y: int| 0 <= x < i && 0 <= y < v.len() && x != y ==> v@[x] != v@[y],
        decreases v.len() - i,
    {
        let mut j: usize = 0;
        while j < v.len()
            invariant
                i < v.len(),
                j <= v.len(),
                forall|x: int, y: int| 0 <= x < i && 0 <= y < v.len() && x != y ==> v@[x] != v@[y],
                forall|y: int| 0 <= y < j && y != i ==> v@[i as int] != v@[y],
            decreases v.len() - j,
        {
            if j != i && v[i] == v[j] {
                return false;
            }
            j += 1;
        }
        i += 1;
    }
    true
}

/// All arrangements of the six nodes `base..base + 6`, each listed once:
/// the base-6 digit tuples of `0..6^6` whose entries are distinct.
fn stratum_arrangements(base: usize) -> (r: Vec<Vec<usize>>)
    requires
        base <= 7,
    ensures
        r.deep_view().no_duplicates(),
        forall|t: Seq<usize>| #[trigger] r.deep_view().contains(t) <==> is_stratum_arrangement(t, base as int),
{
    let mut r: Vec<Vec<usize>> = Vec::new();
    let mut c: usize = 0;
    while c < 46656
        invariant
            base <= 7,
            c <= 46656,
            r.deep_view().no_duplicates(),
            forall|t: Seq<usize>|
                #[trigger] r.deep_view().contains(t) <==> (t.no_duplicates() && exists|d: int|
                    0 <= d < c && t == #[trigger] digit_tuple(d, base as int)),
        decreases 46656 - c,
    {
        let mut t: Vec<usize> = Vec::new();
        let mut i: usize = 0;
        while i < 6
            invariant
                base <= 7,
                c < 46656,
                i <= 6,
                t@ == digit_tuple(c as int, base as int).take(i as int),
            decreases 6 - i,
        {
            let weight: usize = if i == 0 {
                1
            } else if i == 1 {
                6
            } else if i == 2 {
                36
            } else if i == 3 {
                216
            } else if i == 4 {
                1296
            } else {
                7776
            };
            assert(weight == place_value(i as int));
            let digit = if i == 0 { c % 6 } else { (c / weight) % 6 };
            assert(digit == base6_digit(c as int, i as int));
            t.push(base + digit);
            i += 1;
            assert(t@ =~= digit_tuple(c as int, base as int).take(i as int));
        }
        assert(t@ =~= digit_tuple(c as int, base as int));
        let distinct = all_distinct(&t);
        let ghost before = r.deep_view();
        if distinct {
            proof {
                if before.contains(t@) {
                    let d = choose|d: int| 0 <= d < c && t@ == #[trigger] digit_tuple(d, base as int);
                    lemma_digits_injective(d, c as int, base as int);
                }
            }
            r.push(t);
            assert(r.deep_view() =~~= before.push(digit_tuple(c as int, base as int)));
        }
        proof {
            let now = r.deep_view();
            assert forall|u: Seq<usize>|
                #[trigger] now.contains(u) <==> (u.no_duplicates() && exists|d: int|
                    0 <= d < c + 1 && u == #[trigger] digit_tuple(d, base as int)) by {
                if u == digit_tuple(c as int, base as int) {
                    if distinct {
                        assert(now[now.len() - 1] == u);
                    }
                } else {
                    if now.contains(u) && distinct {
                        let x = choose|x: int| 0 <= x < now.len() && now[x] == u;
                        assert(before[x] == u);
                    }
                    if before.contains(u) && distinct {
                        let x = choose|x: int| 0 <= x < before.len() && before[x] == u;
                        assert(now[x] == u);
                    }
                    if exists|d: int| 0 <= d < c + 1 && u == #[trigger] digit_tuple(d, base as int) {
                        let d = choose|d: int| 0 <= d < c + 1 && u == #[trigger] digit_tuple(d, base as int);
                        assert(d < c);
                    }
                }
            }
            if distinct {
                assert(now.no_duplicates()) by {
                    assert forall|x: int, y: int| 0 <= x < now.len() && 0 <= y < now.len() && x != y implies now[x] != now[y] by {
                        if x == before.len() {
                            assert(before.contains(now[y]));
                        } else if y == before.len() {
                            assert(before.contains(now[x]));
                        }
                    }
                }
            }
        }
        c += 1;
    }
    proof {
        let res = r.deep_view();
        assert forall|u: Seq<usize>| #[trigger] res.contains(u) <==> is_stratum_arrangement(u, base as int) by {
            if res.contains(u) {
                let d = choose|d: int| 0 <= d < 46656 && u == #[trigger] digit_tuple(d, base as int);
                assert forall|i: int| 0 <= i < 6 implies base <= #[trigger] u[i] < base + 6 by {
                    assert(0 <= (d / place_value(i)) % 6 < 6);
                }
            }
            if is_stratum_arrangement(u, base as int) {
                lemma_arrangement_listed(u, base as int);
                assert(u == digit_tuple(arrangement_code(u, base as int), base as int));
            }
        }
    }
    r
}

/// Explicit graph representation of the Metatron Cube.
#[derive(Clone, Debug)]
pub struct MetatronGraph {
    nodes: Vec<NodeMetadata>,
    edges: Vec<(usize, usize)>,
}

impl MetatronGraph {
    /// The node metadata, in node order.
    pub closed spec fn node_list(&self) -> Seq<NodeMetadata> {
        self.nodes@
    }

    /// The undirected edges, in construction order.
    pub closed spec fn edge_list(&self) -> Seq<(usize, usize)> {
        self.edges@
    }

    /// The graph is the canonical Metatron Cube: 13 nodes with their
    /// metadata, and the 78 edges of the complete graph on them, each once.
    pub open spec fn wf(&self) -> bool {
        &&& self.node_list().len() == 13
        &&& forall|i: int| 0 <= i < 13 ==> is_canonical_node(#[trigger] self.node_list()[i], i)
        &&& self.edge_list() == metatron_edges()
        &&& self.edge_list().no_duplicates()
        &&& forall|e: (usize, usize)| #[trigger] self.edge_list().contains(e) <==> is_complete_edge(e)
    }

    /// Builds the canonical Metatron Cube with 13 nodes and 78 edges.
    pub fn new() -> (g: Self)
        ensures
            g.wf(),
    {
        let nodes = build_nodes();
        let edges = build_edges();
        MetatronGraph { nodes, edges }
    }

    /// The node metadata.
    pub fn nodes(&self) -> (r: &[NodeMetadata])
        ensures
            r@ == self.node_list(),
    {
        self.nodes.as_slice()
    }

    /// The undirected edges (0-based node indices).
    pub fn edges(&self) -> (r: &[(usize, usize)])
        ensures
            r@ == self.edge_list(),
    {
        self.edges.as_slice()
    }

    /// The dense adjacency matrix, row by row (entry `13 * i + j` for nodes
    /// `i` and `j`): 1 where the nodes are joined, 0 elsewhere.
    pub fn adjacency_matrix(&self) -> (r: Vec<u8>)
        requires
            self.wf(),
        ensures
            r.len() == 169,
            forall|i: int, j: int|
                0 <= i < 13 && 0 <= j < 13 ==> #[trigger] r@[13 * i + j] == adjacency_entry(
                    self.edge_list(),
                    i as usize,
                    j as usize,
                ),
    {
        let mut r: Vec<u8> = vec![0u8; 169];
        let mut k: usize = 0;
        while k < self.edges.len()
            invariant
                self.wf(),
                k <= self.edges.len(),
                r.len() == 169,
                forall|i: int, j: int|
                    0 <= i < 13 && 0 <= j < 13 ==> #[trigger] r@[13 * i + j] == adjacency_entry(
                        self.edges@.take(k as int),
                        i as usize,
                        j as usize,
                    ),
            decreases self.edges.len() - k,
        {
            let (u, v) = self.edges[k];
            assert(self.edges@.contains((u, v)));
            let ghost before = self.edges@.take(k as int);
            let ghost after = self.edges@.take(k + 1);
            assert(after =~= before.push((u, v)));
            r.set(13 * u + v, 1);
            r.set(13 * v + u, 1);
            assert forall|i: int, j: int| 0 <= i < 13 && 0 <= j < 13 implies #[trigger] r@[13 * i + j]
                == adjacency_entry(after, i as usize, j as usize) by {
                lemma_adjacent_push(before, (u, v), i as usize, j as usize);
            }
            k += 1;
        }
        assert(self.edges@.take(k as int) =~= self.edges@);
        r
    }

    /// The graph Laplacian `D - A`, row by row (entry `13 * i + j`): the
    /// degree of `i` on the diagonal, minus the adjacency matrix.
    pub fn laplacian_matrix(&self) -> (r: Vec<i64>)
        requires
            self.wf(),
        ensures
            r.len() == 169,
            forall|i: int, j: int|
                0 <= i < 13 && 0 <= j < 13 ==> #[trigger] r@[13 * i + j] == (if i == j {
                    degree(self.edge_list(), i as usize) as int
                } else {
                    0
                }) - adjacency_entry(self.edge_list(), i as usize, j as usize),
    {
        let adjacency = self.adjacency_matrix();
        let degrees = self.degree_sequence();
        proof {
            lemma_metatron_regular(self.edges@);
        }
        let mut r: Vec<i64> = Vec::new();
        let mut p: usize = 0;
        while p < 169
            invariant
                self.wf(),
                p <= 169,
                r.len() == p,
                adjacency.len() == 169,
                degrees.len() == 13,
                forall|v: usize| v < 13 ==> #[trigger] degree(self.edges@, v) == 12,
                forall|t: int| 0 <= t < 13 ==> #[trigger] degrees@[t] == 12,
                forall|i: int, j: int|
                    0 <= i < 13 && 0 <= j < 13 ==> #[trigger] adjacency@[13 * i + j] == adjacency_entry(
                        self.edges@,
                        i as usize,
                        j as usize,
                    ),
                forall|i: int, j: int|
                    0 <= i < 13 && 0 <= j < 13 && 13 * i + j < p ==> #[trigger] r@[13 * i + j] == (if i
                        == j {
                        degree(self.edges@, i as usize) as int
                    } else {
                        0
                    }) - adjacency_entry(self.edges@, i as usize, j as usize),
            decreases 169 - p,
        {
            let i = p / 13;
            let j = p % 13;
            assert(p == 13 * i + j);
            assert(degree(self.edges@, i) == 12);
            let diagonal: i64 = if i == j { degrees[i] as i64 } else { 0 };
            let entry = diagonal - (adjacency[p] as i64);
            let ghost before = r@;
            r.push(entry);
            assert forall|a: int, b: int|
                0 <= a < 13 && 0 <= b < 13 && 13 * a + b < p + 1 implies #[trigger] r@[13 * a + b] == (if a
                    == b {
                    degree(self.edges@, a as usize) as int
                } else {
                    0
                }) - adjacency_entry(self.edges@, a as usize, b as usize) by {
                if 13 * a + b < p {
                    assert(r@[13 * a + b] == before[13 * a + b]);
                } else {
                    assert(a == i && b == j);
                    assert(adjacency@[13 * a + b] == adjacency_entry(self.edges@, a as usize, b as usize));
                }
            }
            p += 1;
        }
        r
    }

    /// The neighbours of `node`.
    pub fn neighbours(&self, node: usize) -> (r: Vec<usize>)
        ensures
            r@ == neighbours_of(self.edge_list(), node),
    {
        let mut r: Vec<usize> = Vec::new();
        let mut i: usize = 0;
        while i < self.edges.len()
            invariant
                i <= self.edges.len(),
                r@ == neighbours_of(self.edges@.take(i as int), node),
            decreases self.edges.len() - i,
        {
            let (u, v) = self.edges[i];
            assert(self.edges@.take(i + 1).drop_last() =~= self.edges@.take(i as int));
            if u == node && v != node {
                r.push(v);
            } else if u != node && v == node {
                r.push(u);
            }
            i += 1;
        }
        assert(self.edges@.take(i as int) =~= self.edges@);
        r
    }

    proof fn lemma_neighbours_in_range(&self, node: usize)
        requires
            self.wf(),
        ensures
            forall|i: int|
                0 <= i < neighbours_of(self.edge_list(), node).len() ==> #[trigger] neighbours_of(
                    self.edge_list(),
                    node,
                )[i] < 13,
    {
        let nb = neighbours_of(self.edge_list(), node);
        assert forall|i: int| 0 <= i < nb.len() implies #[trigger] nb[i] < 13 by {
            assert(nb.contains(nb[i]));
            lemma_neighbours_are_adjacent(self.edge_list(), node, nb[i]);
            if self.edge_list().contains((node, nb[i])) {
                assert(is_complete_edge((node, nb[i])));
            } else {
                assert(is_complete_edge((nb[i], node)));
            }
        }
    }

    /// Whether every node can be reached from node 0 (breadth-first search).
    pub fn is_connected(&self) -> (r: bool)
        requires
            self.wf(),
        ensures
            r == is_connected_graph(self.edge_list(), 13),
    {
        if self.nodes.len() == 0 {
            return true;
        }
        let n = self.nodes.len();
        let mut visited: Vec<bool> = vec![false; n];
        let mut queue: VecDeque<usize> = VecDeque::new();
        visited.set(0, true);
        queue.push_back(0);
        proof {
            lemma_count_false_update(seq![false, false, false, false, false, false, false, false, false, false, false, false, false], 0);
            assert(visited@ =~= seq![false, false, false, false, false, false, false, false, false, false, false, false, false].update(0, true));
        }
        loop
            invariant_except_break
                self.wf(),
                n == 13,
                visited.len() == 13,
                forall|i: int| 0 <= i < queue@.len() ==> #[trigger] queue@[i] < 13,
                (forall|i: int| 0 <= i < 13 ==> #[trigger] visited@[i]) || (queue@ == seq![0usize]
                    && visited@[0] && forall|i: int| 1 <= i < 13 ==> !#[trigger] visited@[i]),
            ensures
                visited.len() == 13,
                forall|i: int| 0 <= i < 13 ==> #[trigger] visited@[i],
            decreases 2 * count_false(visited@) + queue@.len(),
        {
            match queue.pop_front() {
                None => {
                    break;
                },
                Some(node) => {
                    let ghost first = !(forall|i: int| 0 <= i < 13 ==> #[trigger] visited@[i]);
                    let ghost measure = 2 * count_false(visited@) + queue@.len();
                    let nbrs = self.neighbours(node);
                    proof {
                        self.lemma_neighbours_in_range(node);
                    }
                    let mut k: usize = 0;
                    while k < nbrs.len()
                        invariant
                            self.wf(),
                            visited.len() == 13,
                            k <= nbrs.len(),
                            nbrs@ == neighbours_of(self.edges@, node),
                            forall|i: int| 0 <= i < nbrs@.len() ==> #[trigger] nbrs@[i] < 13,
                            node < 13,
                            forall|i: int| 0 <= i < queue@.len() ==> #[trigger] queue@[i] < 13,
                            2 * count_false(visited@) + queue@.len() <= measure,
                            forall|i: int| 0 <= i < k ==> visited@[#[trigger] nbrs@[i] as int],
                            first ==> visited@[0],
                            !first ==> forall|i: int| 0 <= i < 13 ==> #[trigger] visited@[i],
                        decreases nbrs.len() - k,
                    {
                        let nb = nbrs[k];
                        if !visited[nb] {
                            proof {
                                lemma_count_false_update(visited@, nb as int);
                            }
                            visited.set(nb, true);
                            queue.push_back(nb);
                        }
                        k += 1;
                    }
                    proof {
                        if first {
                            assert(node == 0);
                            assert forall|i: int| 0 <= i < 13 implies #[trigger] visited@[i] by {
                                if i != 0 {
                                    lemma_complete_one_step(self.edges@, 0, i as usize);
                                    lemma_neighbours_are_adjacent(self.edges@, 0, i as usize);
                                    let t = choose|t: int| 0 <= t < nbrs@.len() && nbrs@[t] == i as usize;
                                    assert(visited@[nbrs@[t] as int]);
                                }
                            }
                        }
                    }
                },
            }
        }
        let mut all = true;
        let mut i: usize = 0;
        while i < n
            invariant
                n == visited.len(),
                i <= n,
                all == forall|j: int| 0 <= j < i ==> #[trigger] visited@[j],
            decreases n - i,
        {
            all = all && visited[i];
            i += 1;
        }
        proof {
            lemma_metatron_connected(self.edges@);
        }
        all
    }

    /// Breadth-first distances from `start` to every node.
    fn single_source_shortest_path(&self, start: usize) -> (r: Vec<usize>)
        requires
            self.wf(),
            start < 13,
        ensures
            r.len() == 13,
            forall|j: int| 0 <= j < 13 ==> is_distance(self.edge_list(), start, j as usize, #[trigger] r@[j] as nat),
            forall|j: int| 0 <= j < 13 ==> #[trigger] r@[j] == if j == start { 0usize } else { 1usize },
    {
        let n = self.nodes.len();
        let mut distances: Vec<usize> = vec![usize::MAX; n];
        let mut queue: VecDeque<usize> = VecDeque::new();
        proof {
            lemma_count_unreached_update(distances@, start as int, 0);
        }
        distances.set(start, 0);
        queue.push_back(start);
        loop
            invariant_except_break
                self.wf(),
                n == 13,
                start < 13,
                distances.len() == 13,
                forall|i: int| 0 <= i < queue@.len() ==> #[trigger] queue@[i] < 13,
                (forall|i: int| 0 <= i < 13 ==> #[trigger] distances@[i] == if i == start { 0usize } else { 1usize })
                    || (queue@ == seq![start] && forall|i: int| 0 <= i < 13 ==> #[trigger] distances@[i] == if i == start { 0usize } else { usize::MAX }),
            ensures
                distances.len() == 13,
                forall|i: int| 0 <= i < 13 ==> #[trigger] distances@[i] == if i == start { 0usize } else { 1usize },
            decreases 2 * count_unreached(distances@) + queue@.len(),
        {
            match queue.pop_front() {
                None => {
                    break;
                },
                Some(node) => {
                    let ghost first = !(forall|i: int| 0 <= i < 13 ==> #[trigger] distances@[i] == if i == start { 0usize } else { 1usize });
                    let ghost measure = 2 * count_unreached(distances@) + queue@.len();
                    let current = distances[node];
                    let nbrs = self.neighbours(node);
                    proof {
                        self.lemma_neighbours_in_range(node);
                    }
                    let mut k: usize = 0;
                    while k < nbrs.len()
                        invariant
                            self.wf(),
                            distances.len() == 13,
                            start < 13,
                            k <= nbrs.len(),
                            nbrs@ == neighbours_of(self.edges@, node),
                            forall|i: int| 0 <= i < nbrs@.len() ==> #[trigger] nbrs@[i] < 13,
                            node < 13,
                            current <= 1,
                            first ==> node == start && current == 0,
                            forall|i: int| 0 <= i < queue@.len() ==> #[trigger] queue@[i] < 13,
                            2 * count_unreached(distances@) + queue@.len() <= measure,
                            forall|i: int| 0 <= i < k ==> distances@[#[trigger] nbrs@[i] as int] != usize::MAX,
                            distances@[start as int] == 0,
                            forall|i: int| 0 <= i < 13 && i != start ==> #[trigger] distances@[i] == 1 || (first && distances@[i] == usize::MAX),
                        decreases nbrs.len() - k,
                    {
                        let nb = nbrs[k];
                        if distances[nb] == usize::MAX {
                            proof {
                                lemma_count_unreached_update(distances@, nb as int, (current + 1) as usize);
                            }
                            distances.set(nb, current + 1);
                            queue.push_back(nb);
                        }
                        k += 1;
                    }
                    proof {
                        if first {
                            assert forall|i: int| 0 <= i < 13 implies #[trigger] distances@[i] == if i == start { 0usize } else { 1usize } by {
                                if i != start {
                                    lemma_complete_one_step(self.edges@, start, i as usize);
                                    lemma_neighbours_are_adjacent(self.edges@, start, i as usize);
                                    let t = choose|t: int| 0 <= t < nbrs@.len() && nbrs@[t] == i as usize;
                                    assert(distances@[nbrs@[t] as int] != usize::MAX);
                                }
                            }
                        }
                    }
                },
            }
        }
        proof {
            assert forall|j: int| 0 <= j < 13 implies is_distance(self.edges@, start, j as usize, #[trigger] distances@[j] as nat) by {
                if j == start {
                    assert(has_walk(self.edges@, start, start, 0));
                } else {
                    lemma_complete_one_step(self.edges@, start, j as usize);
                }
            }
        }
        distances
    }

    /// The largest distance between two nodes.
    fn diameter(&self) -> (r: usize)
        requires
            self.wf(),
        ensures
            r == 1,
            is_diameter(self.edge_list(), 13, r as nat),
    {
        let mut max_distance: usize = 0;
        let mut start: usize = 0;
        while start < self.nodes.len()
            invariant
                self.wf(),
                start <= 13,
                max_distance == if start == 0 { 0usize } else { 1usize },
            decreases 13 - start,
        {
            let distances = self.single_source_shortest_path(start);
            let mut local_max: usize = 0;
            let mut j: usize = 0;
            while j < distances.len()
                invariant
                    distances.len() == 13,
                    forall|i: int| 0 <= i < 13 ==> #[trigger] distances@[i] == if i == start { 0usize } else { 1usize },
                    j <= 13,
                    local_max == if j >= 2 || (j == 1 && start != 0) { 1usize } else { 0usize },
                decreases 13 - j,
            {
                if distances[j] > local_max {
                    local_max = distances[j];
                }
                j += 1;
            }
            if local_max > max_distance {
                max_distance = local_max;
            }
            start += 1;
        }
        proof {
            let edges = self.edges@;
            assert forall|a: usize, b: usize| a < 13 && b < 13 implies #[trigger] within_distance(edges, a, b, 1) by {
                if a == b {
                    assert(has_walk(edges, a, a, 0));
                    assert(is_distance(edges, a, b, 0));
                } else {
                    lemma_complete_one_step(edges, a, b);
                }
            }
            lemma_complete_one_step(edges, 0, 1);
        }
        max_distance
    }

    /// High-level structural statistics of the graph.
    pub fn statistics(&self) -> (r: GraphStatistics)
        requires
            self.wf(),
        ensures
            r.num_nodes == 13,
            r.num_edges == 78,
            r.degree_sequence@ == degree_sequence_of(self.edge_list(), 13),
            is_min_of(r.degree_sequence@, r.min_degree),
            is_max_of(r.degree_sequence@, r.max_degree),
            r.min_degree == 12,
            r.max_degree == 12,
            r.is_connected == is_connected_graph(self.edge_list(), 13),
            r.is_connected,
            is_diameter(self.edge_list(), 13, r.diameter as nat),
            r.diameter == 1,
    {
        let degrees = self.degree_sequence();
        let mut min_degree = degrees[0];
        let mut max_degree = degrees[0];
        let mut i: usize = 1;
        assert(degrees@.take(1)[0] == min_degree);
        while i < degrees.len()
            invariant
                degrees.len() == 13,
                1 <= i <= 13,
                degrees@.take(i as int).contains(min_degree),
                degrees@.take(i as int).contains(max_degree),
                forall|j: int| 0 <= j < i ==> min_degree <= #[trigger] degrees@[j] <= max_degree,
            decreases 13 - i,
        {
            assert(degrees@.take(i + 1)[i as int] == degrees@[i as int]);
            if degrees[i] < min_degree {
                min_degree = degrees[i];
            }
            if degrees[i] > max_degree {
                max_degree = degrees[i];
            }
            proof {
                let t = degrees@.take(i as int);
                let t1 = degrees@.take(i + 1);
                if t.contains(min_degree) {
                    let w = choose|w: int| 0 <= w < t.len() && t[w] == min_degree;
                    assert(t1[w] == min_degree);
                }
                if t.contains(max_degree) {
                    let w = choose|w: int| 0 <= w < t.len() && t[w] == max_degree;
                    assert(t1[w] == max_degree);
                }
            }
            i += 1;
        }
        assert(degrees@.take(13) =~= degrees@);
        let is_connected = self.is_connected();
        let diameter = self.diameter();
        proof {
            lemma_metatron_connected(self.edges@);
        }
        GraphStatistics {
            num_nodes: self.nodes.len(),
            num_edges: self.edges.len(),
            min_degree,
            max_degree,
            degree_sequence: degrees,
            is_connected,
            diameter,
        }
    }

    /// Whether mapping the nodes by `perm` sends every edge to an edge,
    /// read off the adjacency matrix `adjacency` of the graph.
    fn maps_edges_to_edges(&self, adjacency: &Vec<u8>, perm: &Vec<usize>) -> (r: bool)
        requires
            self.wf(),
            adjacency.len() == 169,
            forall|i: int, j: int|
                0 <= i < 13 && 0 <= j < 13 ==> #[trigger] adjacency@[13 * i + j] == adjacency_entry(
                    self.edge_list(),
                    i as usize,
                    j as usize,
                ),
            perm.len() == 13,
            forall|i: int| 0 <= i < 13 ==> #[trigger] perm@[i] < 13,
        ensures
            r == is_graph_automorphism(self.edge_list(), perm@),
    {
        let mut k: usize = 0;
        while k < self.edges.len()
            invariant
                self.wf(),
                perm.len() == 13,
                forall|i: int| 0 <= i < 13 ==> #[trigger] perm@[i] < 13,
                adjacency.len() == 169,
                forall|i: int, j: int|
                    0 <= i < 13 && 0 <= j < 13 ==> #[trigger] adjacency@[13 * i + j] == adjacency_entry(
                        self.edges@,
                        i as usize,
                        j as usize,
                    ),
                k <= self.edges.len(),
                forall|j: int|
                    0 <= j < k ==> #[trigger] adjacent(
                        self.edges@,
                        perm@[self.edges@[j].0 as int],
                        perm@[self.edges@[j].1 as int],
                    ),
            decreases self.edges.len() - k,
        {
            let (u, v) = self.edges[k];
            assert(self.edges@.contains((u, v)));
            let a = perm[u];
            let b = perm[v];
            let entry = adjacency[13 * a + b];
            assert(entry == adjacency_entry(self.edges@, a, b));
            if entry == 0 {
                assert(self.edges@[k as int] == (u, v));
                return false;
            }
            k += 1;
        }
        true
    }

    /// Lists the automorphisms that keep every node in its class: the centre
    /// fixed, the hexagon nodes among themselves and the cube nodes among
    /// themselves (6! * 6! = 518400 of them). Every permutation within each
    /// class is tried and kept when it maps edges to edges; each is listed
    /// once, and maps node `i` to `perm[i]`. The whole group, of order 13!,
    /// does not fit in memory as a list; `automorphism_at` gives each of its
    /// members by number, every automorphism exactly once.
    pub fn enumerate_automorphisms(&self) -> (r: Vec<Vec<usize>>)
        requires
            self.wf(),
        ensures
            r.deep_view().no_duplicates(),
            forall|p: Seq<usize>|
                #[trigger] r.deep_view().contains(p) <==> (is_automorphism_of(self.edge_list(), p)
                    && keeps_classes(p)),
    {
        let adjacency = self.adjacency_matrix();
        let hexagon = stratum_arrangements(1);
        let cube = stratum_arrangements(7);
        let ghost hs = hexagon.deep_view();
        let ghost qs = cube.deep_view();
        let mut r: Vec<Vec<usize>> = Vec::new();
        let mut i: usize = 0;
        while i < hexagon.len()
            invariant
                self.wf(),
                adjacency.len() == 169,
                forall|a: int, b: int|
                    0 <= a < 13 && 0 <= b < 13 ==> #[trigger] adjacency@[13 * a + b] == adjacency_entry(
                        self.edges@,
                        a as usize,
                        b as usize,
                    ),
                hs == hexagon.deep_view(),
                qs == cube.deep_view(),
                hs.no_duplicates(),
                qs.no_duplicates(),
                forall|t: Seq<usize>| #[trigger] hs.contains(t) <==> is_stratum_arrangement(t, 1),
                forall|t: Seq<usize>| #[trigger] qs.contains(t) <==> is_stratum_arrangement(t, 7),
                i <= hexagon.len(),
                r.deep_view().no_duplicates(),
                forall|p: Seq<usize>|
                    #[trigger] r.deep_view().contains(p) <==> (is_graph_automorphism(self.edges@, p)
                        && exists|a: int, b: int|
                        0 <= a < i && 0 <= b < qs.len() && p == #[trigger] combined_permutation(
                            hs[a],
                            qs[b],
                        )),
            decreases hexagon.len() - i,
        {
            let mut j: usize = 0;
            while j < cube.len()
                invariant
                    self.wf(),
                    adjacency.len() == 169,
                    forall|a: int, b: int|
                        0 <= a < 13 && 0 <= b < 13 ==> #[trigger] adjacency@[13 * a + b]
                            == adjacency_entry(self.edges@, a as usize, b as usize),
                    hs == hexagon.deep_view(),
                    qs == cube.deep_view(),
                    hs.no_duplicates(),
                    qs.no_duplicates(),
                    forall|t: Seq<usize>| #[trigger] hs.contains(t) <==> is_stratum_arrangement(t, 1),
                    forall|t: Seq<usize>| #[trigger] qs.contains(t) <==> is_stratum_arrangement(t, 7),
                    i < hexagon.len(),
                    j <= cube.len(),
                    r.deep_view().no_duplicates(),
                    forall|p: Seq<usize>|
                        #[trigger] r.deep_view().contains(p) <==> (is_graph_automorphism(self.edges@, p)
                            && exists|a: int, b: int|
                            ((0 <= a < i && 0 <= b < qs.len()) || (a == i && 0 <= b < j)) && p
                                == #[trigger] combined_permutation(hs[a], qs[b])),
                decreases cube.len() - j,
            {
                let h = &hexagon[i];
                let q = &cube[j];
                assert(hs[i as int] == h@);
                assert(qs[j as int] == q@);
                assert(hs.contains(h@));
                assert(qs.contains(q@));
                let mut perm: Vec<usize> = Vec::new();
                perm.push(0);
                let mut k: usize = 0;
                while k < 6
                    invariant
                        h@.len() == 6,
                        k <= 6,
                        perm@ == combined_permutation(h@, q@).take(k + 1),
                    decreases 6 - k,
                {
                    perm.push(h[k]);
                    k += 1;
                    assert(perm@ =~= combined_permutation(h@, q@).take(k + 1));
                }
                let mut k: usize = 0;
                while k < 6
                    invariant
                        h@.len() == 6,
                        q@.len() == 6,
                        k <= 6,
                        perm@ == combined_permutation(h@, q@).take(k + 7),
                    decreases 6 - k,
                {
                    perm.push(q[k]);
                    k += 1;
                    assert(perm@ =~= combined_permutation(h@, q@).take(k + 7));
                }
                assert(perm@ =~= combined_permutation(h@, q@));
                proof {
                    lemma_class_permutations(perm@, h@, q@);
                }
                let keep = self.maps_edges_to_edges(&adjacency, &perm);
                let ghost before = r.deep_view();
                if keep {
                    proof {
                        if before.contains(perm@) {
                            let (a, b) = choose|a: int, b: int|
                                ((0 <= a < i && 0 <= b < qs.len()) || (a == i && 0 <= b < j)) && perm@
                                    == #[trigger] combined_permutation(hs[a], qs[b]);
                            assert(hs.contains(hs[a]));
                            assert(qs.contains(qs[b]));
                            lemma_combined_injective(hs[a], qs[b], h@, q@);
                            assert(false);
                        }
                    }
                    r.push(perm);
                    assert(r.deep_view() =~~= before.push(combined_permutation(h@, q@)));
                }
                proof {
                    let now = r.deep_view();
                    assert forall|p: Seq<usize>|
                        #[trigger] now.contains(p) <==> (is_graph_automorphism(self.edges@, p)
                            && exists|a: int, b: int|
                            ((0 <= a < i && 0 <= b < qs.len()) || (a == i && 0 <= b < j + 1)) && p
                                == #[trigger] combined_permutation(hs[a], qs[b])) by {
                        if p == combined_permutation(hs[i as int], qs[j as int]) {
                            if keep {
                                assert(now[now.len() - 1] == p);
                            }
                        } else {
                            if now.contains(p) && keep {
                                let x = choose|x: int| 0 <= x < now.len() && now[x] == p;
                                assert(x < before.len());
                                assert(before[x] == p);
                            }
                            if before.contains(p) && keep {
                                let x = choose|x: int| 0 <= x < before.len() && before[x] == p;
                                assert(now[x] == p);
                            }
                        }
                    }
                    if keep {
                        assert(now.no_duplicates()) by {
                            assert forall|x: int, y: int| 0 <= x < now.len() && 0 <= y < now.len() && x != y implies now[x] != now[y] by {
                                if x == before.len() {
                                    assert(before.contains(now[y]));
                                } else if y == before.len() {
                                    assert(before.contains(now[x]));
                                }
                            }
                        }
                    }
                }
                j += 1;
            }
            i += 1;
        }
        proof {
            let res = r.deep_view();
            assert forall|p: Seq<usize>| #[trigger] res.contains(p) <==> (is_automorphism_of(self.edges@, p)
                && keeps_classes(p)) by {
                if res.contains(p) {
                    let (a, b) = choose|a: int, b: int|
                        0 <= a < i && 0 <= b < qs.len() && p == #[trigger] combined_permutation(hs[a], qs[b]);
                    assert(hs.contains(hs[a]));
                    assert(qs.contains(qs[b]));
                    lemma_class_permutations(p, hs[a], qs[b]);
                }
                if is_automorphism_of(self.edges@, p) && keeps_classes(p) {
                    lemma_class_permutations(p, p, p);
                    let hh = p.subrange(1, 7);
                    let qq = p.subrange(7, 13);
                    assert(hs.contains(hh));
                    assert(qs.contains(qq));
                    let a = choose|a: int| 0 <= a < hs.len() && hs[a] == hh;
                    let b = choose|b: int| 0 <= b < qs.len() && qs[b] == qq;
                    assert(p == combined_permutation(hs[a], qs[b]));
                }
            }
        }
        r
    }

    /// The order of the automorphism group: the number of permutations of
    /// the 13 nodes that map edges to edges. The Metatron Cube is the
    /// complete graph on its nodes, so every permutation counts and the
    /// order is 13! (counted, not listed).
    pub fn automorphism_group_order(&self) -> (r: u64)
        requires
            self.wf(),
        ensures
            r == automorphism_count(self.edge_list()),
            r == 6227020800,
    {
        proof {
            lemma_complete_graph_group_order(self.edges@);
        }
        6227020800
    }

    /// Automorphism number `k` of the whole automorphism group, for every `k`
    /// below the order of the group (`automorphism_group_order`), and `None`
    /// from there on. The numbering is that of `nth_permutation`, which
    /// reaches every automorphism exactly once (`lemma_automorphism_numbering`):
    /// the image of node 0 is entry `k / 12!` of the nodes not used yet, and
    /// so on down the factorial number system. The permutation is checked to
    /// map edges to edges before it is returned; it maps node `i` to `r[i]`.
    pub fn automorphism_at(&self, k: u64) -> (r: Option<Vec<usize>>)
        requires
            self.wf(),
        ensures
            r is Some <==> k < automorphism_count(self.edge_list()),
            r is Some <==> k < 6227020800,
            r matches Some(p) ==> p@ == nth_permutation(k as nat) && is_automorphism_of(
                self.edge_list(),
                p@,
            ),
    {
        proof {
            lemma_complete_graph_group_order(self.edges@);
            lemma_automorphism_numbering(self.edges@);
        }
        if k >= 6227020800 {
            return None;
        }
        let mut avail: Vec<usize> = Vec::new();
        let mut i: usize = 0;
        while i < 13
            invariant
                i <= 13,
                avail@ == Seq::new(i as nat, |j: int| j as usize),
            decreases 13 - i,
        {
            avail.push(i);
            i += 1;
            assert(avail@ =~= Seq::new(i as nat, |j: int| j as usize));
        }
        assert(avail@ =~= all_nodes());
        let mut perm: Vec<usize> = Vec::new();
        let mut rest: u64 = k;
        while avail.len() > 0
            invariant
                avail.len() <= 13,
                perm@ + arrangement_at(avail@, rest as nat) == nth_permutation(k as nat),
            decreases avail.len(),
        {
            let n = avail.len();
            let f = small_factorial(n - 1);
            let q = rest / f;
            let pick = if q < n as u64 {
                q as usize
            } else {
                n - 1
            };
            assert(pick == first_pick(rest as nat, n as nat));
            let ghost before = avail@;
            let ghost before_perm = perm@;
            let ghost before_rest = rest;
            let x = avail.remove(pick);
            perm.push(x);
            rest = rest % f;
            assert(arrangement_at(before, before_rest as nat) == seq![x] + arrangement_at(
                avail@,
                rest as nat,
            ));
            assert(perm@ + arrangement_at(avail@, rest as nat) =~= before_perm + arrangement_at(
                before,
                before_rest as nat,
            ));
        }
        assert(perm@ =~= nth_permutation(k as nat));
        assert(is_automorphism_of(self.edges@, nth_permutation(k as nat)));
        let adjacency = self.adjacency_matrix();
        if self.maps_edges_to_edges(&adjacency, &perm) {
            Some(perm)
        } else {
            None
        }
    }

    /// The symmetry orbit of `node`: the nodes that some automorphism maps
    /// `node` to, in increasing order. Each candidate `v` is tested with the
    /// permutation that exchanges `node` and `v`.
    pub fn symmetry_orbit(&self, node: usize) -> (r: Vec<usize>)
        requires
            self.wf(),
            node < 13,
        ensures
            forall|i: int, j: int| 0 <= i < j < r.len() ==> r@[i] < r@[j],
            forall|v: usize| #[trigger] r@.contains(v) <==> in_orbit(self.edge_list(), node, v),
            r@ == Seq::new(13, |i: int| i as usize),
    {
        let adjacency = self.adjacency_matrix();
        let mut orbit: Vec<usize> = Vec::new();
        let mut v: usize = 0;
        while v < 13
            invariant
                self.wf(),
                node < 13,
                v <= 13,
                adjacency.len() == 169,
                forall|a: int, b: int|
                    0 <= a < 13 && 0 <= b < 13 ==> #[trigger] adjacency@[13 * a + b] == adjacency_entry(
                        self.edges@,
                        a as usize,
                        b as usize,
                    ),
                orbit@ == Seq::new(v as nat, |i: int| i as usize),
            decreases 13 - v,
        {
            let mut swap: Vec<usize> = Vec::new();
            let mut i: usize = 0;
            while i < 13
                invariant
                    i <= 13,
                    swap@ == transposition(node, v).take(i as int),
                decreases 13 - i,
            {
                let image = if i == node {
                    v
                } else if i == v {
                    node
                } else {
                    i
                };
                swap.push(image);
                i += 1;
                assert(swap@ =~= transposition(node, v).take(i as int));
            }
            assert(swap@ =~= transposition(node, v));
            proof {
                lemma_transposition(node, v);
                lemma_complete_graph_automorphisms(self.edges@, swap@);
            }
            if self.maps_edges_to_edges(&adjacency, &swap) {
                orbit.push(v);
            }
            assert(orbit@ =~= Seq::new((v + 1) as nat, |i: int| i as usize));
            v += 1;
        }
        proof {
            assert forall|w: usize| #[trigger] orbit@.contains(w) <==> in_orbit(self.edges@, node, w) by {
                if w < 13 {
                    lemma_transposition(node, w);
                    lemma_complete_graph_automorphisms(self.edges@, transposition(node, w));
                    assert(orbit@[w as int] == w);
                } else {
                    if in_orbit(self.edges@, node, w) {
                        let p = choose|p: Seq<usize>| #[trigger] is_automorphism_of(self.edges@, p) && p[node as int] == w;
                        assert(p[node as int] < 13);
                    }
                }
            }
        }
        orbit
    }

    /// The graph as a `petgraph` undirected graph: node `i` carries the
    /// metadata of node `i`, and the edges come in the same order.
    pub fn to_petgraph(&self) -> (g: UnGraph<NodeMetadata, ()>)
        requires
            self.wf(),
        ensures
            petgraph_node_weights(g) == self.node_list(),
            petgraph_edge_endpoints(g) == self.edge_list(),
    {
        let mut graph = petgraph_with_capacity(self.nodes.len(), self.edges.len());
        let mut indices: Vec<usize> = Vec::new();
        let mut i: usize = 0;
        while i < self.nodes.len()
            invariant
                self.wf(),
                i <= 13,
                petgraph_node_weights(graph) == self.nodes@.take(i as int),
                petgraph_edge_endpoints(graph) == Seq::<(usize, usize)>::empty(),
                indices@ == Seq::new(i as nat, |k: int| k as usize),
            decreases 13 - i,
        {
            let index = petgraph_add_node(&mut graph, self.nodes[i].duplicate());
            indices.push(index);
            assert(self.nodes@.take(i + 1) =~= self.nodes@.take(i as int).push(self.nodes@[i as int]));
            assert(indices@ =~= Seq::new((i + 1) as nat, |k: int| k as usize));
            i += 1;
        }
        assert(self.nodes@.take(13) =~= self.nodes@);
        let mut k: usize = 0;
        while k < self.edges.len()
            invariant
                self.wf(),
                k <= self.edges.len(),
                petgraph_node_weights(graph) == self.nodes@,
                petgraph_edge_endpoints(graph) == self.edges@.take(k as int),
                indices@ == Seq::new(13, |j: int| j as usize),
            decreases self.edges.len() - k,
        {
            let (u, v) = self.edges[k];
            assert(self.edges@.contains((u, v)));
            petgraph_add_edge(&mut graph, indices[u], indices[v]);
            assert(self.edges@.take(k + 1) =~= self.edges@.take(k as int).push((u, v)));
            k += 1;
        }
        assert(self.edges@.take(k as int) =~= self.edges@);
        graph
    }

    /// The degree of every node.
    pub fn degree_sequence(&self) -> (r: Vec<usize>)
        requires
            self.wf(),
        ensures
            r@ == degree_sequence_of(self.edge_list(), 13),
            forall|i: int| 0 <= i < 13 ==> #[trigger] r@[i] == 12,
    {
        let mut degrees: Vec<usize> = Vec::new();
        let mut k: usize = 0;
        while k < METATRON_DIMENSION
            invariant
                k <= 13,
                degrees@ == Seq::new(k as nat, |i: int| 0usize),
            decreases 13 - k,
        {
            degrees.push(0);
            k += 1;
        }
        let mut i: usize = 0;
        while i < self.edges.len()
            invariant
                self.wf(),
                i <= self.edges.len(),
                degrees.len() == 13,
                forall|j: int| 0 <= j < 13 ==> #[trigger] degrees@[j] == degree(
                    self.edges@.take(i as int), j as usize),
                forall|j: int| 0 <= j < 13 ==> #[trigger] degrees@[j] <= 2 * i,
            decreases self.edges.len() - i,
        {
            let (u, v) = self.edges[i];
            assert(self.edges@.contains((u, v)));
            assert(self.edges@.take(i + 1).drop_last() =~= self.edges@.take(i as int));
            assert(self.edges@.take(i + 1).last() == (u, v));
            degrees.set(u, degrees[u] + 1);
            degrees.set(v, degrees[v] + 1);
            i += 1;
        }
        assert(self.edges@.take(i as int) =~= self.edges@);
        assert(degrees@ =~= degree_sequence_of(self.edges@, 13));
        proof {
            lemma_metatron_regular(self.edges@);
        }
        degrees
    }
}

impl Default for MetatronGraph {
    fn default() -> (g: Self)
        ensures
            g.wf(),
    {
        Self::new()
    }
}

} // verus!
