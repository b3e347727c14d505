//! Syntax trees, as flat lists of plain nodes in document order.
use vstd::prelude::*;

use crate::text::{indexes_bytes, lemma_at_byte_unique, on_boundary, same_text};

verus! {

/// A language whose grammar is at hand.
#[derive(Clone, Copy, Debug, PartialEq, Eq)]
pub enum Language {
    Rust,
    CSharp,
    Cpp,
}

/// One node of a syntax tree. A tree is the list of its nodes in pre-order: a node is followed
/// by its descendants, which are the nodes after it that lie deeper than it does, up to the
/// first that does not.
#[derive(Debug)]
pub struct SyntaxNode {
    /// The name of the grammar rule or token.
    pub kind: String,
    /// The name of the field of its parent that this node stands in, if it stands in one.
    pub field: Option<String>,
    /// How many ancestors the node has.
    pub depth: usize,
    /// Whether the node is, or contains, a syntax error.
    pub has_error: bool,
    pub start_byte: usize,
    pub end_byte: usize,
    pub start_row: usize,
    pub start_column: usize,
    pub end_row: usize,
    pub end_column: usize,
}

// ---------------------------------------------------------------------------------------------
// Parsing
// ---------------------------------------------------------------------------------------------
/// The syntax tree type of the parser library.
#[verifier::external_type_specification]
#[verifier::external_body]
pub struct ExTree(tree_sitter::Tree);

/// The nodes of a syntax tree, in pre-order.
pub uninterp spec fn tree_nodes(tree: tree_sitter::Tree) -> Seq<SyntaxNode>;

/// The nodes of the tree that the parser library makes of `source`, if it makes one.
pub uninterp spec fn parsed(language: Language, source: Seq<char>) -> Option<Seq<SyntaxNode>>;

/// `tree_sitter::Parser::parse`, with a new parser that was given the language by
/// `Parser::set_language`. Claimed: whether there is a tree, and what its nodes are, is a
/// function of the language and the text.
#[verifier::external_body]
fn parse_text(language: Language, source: &str) -> (res: Option<tree_sitter::Tree>)
    ensures
        match res {
            Some(tree) => parsed(language, source@) == Some(tree_nodes(tree)),
            None => parsed(language, source@) is None,
        },
{
    let grammar: tree_sitter::Language = match language {
        Language::Rust => tree_sitter_rust::LANGUAGE.into(),
        Language::CSharp => tree_sitter_c_sharp::LANGUAGE.into(),
        Language::Cpp => tree_sitter_cpp::LANGUAGE.into(),
    };
    let mut parser = tree_sitter::Parser::new();
    parser.set_language(&grammar).ok()?;
    parser.parse(source, None)
}

/// `tree_sitter::Node::descendant_count` of the root. Claimed: it is the number of nodes of the
/// tree, the root among them.
#[verifier::external_body]
fn node_count(tree: &tree_sitter::Tree) -> (res: usize)
    ensures
        res == tree_nodes(*tree).len(),
{
    tree.root_node().descendant_count()
}

/// `tree_sitter::TreeCursor::goto_descendant` from the root, and what the cursor then tells of
/// its node. Claimed: it is the node of that number in pre-order.
#[verifier::external_body]
fn node_at(tree: &tree_sitter::Tree, index: usize) -> (res: SyntaxNode)
    requires
        index < tree_nodes(*tree).len(),
    ensures
        res == tree_nodes(*tree)[index as int],
{
    let mut cursor = tree.walk();
    cursor.goto_descendant(index);
    let node = cursor.node();
    let (start, end) = (node.start_position(), node.end_position());
    SyntaxNode {
        kind: node.kind().to_string(),
        field: cursor.field_name().map(str::to_string),
        depth: cursor.depth() as usize,
        has_error: node.has_error(),
        start_byte: node.start_byte(), end_byte: node.end_byte(),
        start_row: start.row, start_column: start.column,
        end_row: end.row, end_column: end.column,
    }
}

/// Parses `source` and returns the nodes of its syntax tree, in pre-order.
pub fn parse_source(language: Language, source: &str) -> (res: Option<Vec<SyntaxNode>>)
    ensures
        match res {
            Some(nodes) => parsed(language, source@) == Some(nodes@),
            None => parsed(language, source@) is None,
        },
{
    let tree = match parse_text(language, source) {
        Some(tree) => tree,
        None => {
            return None;
        },
    };
    let count = node_count(&tree);
    let mut nodes: Vec<SyntaxNode> = Vec::new();
    for i in 0..count
        invariant
            count == tree_nodes(tree).len(),
            nodes@ == tree_nodes(tree).take(i as int),
    {
        nodes.push(node_at(&tree, i));
        assert(tree_nodes(tree).take(i + 1) =~= tree_nodes(tree).take(i as int).push(
            tree_nodes(tree)[i as int],
        ));
    }
    assert(tree_nodes(tree).take(count as int) =~= tree_nodes(tree));
    Some(nodes)
}

// ---------------------------------------------------------------------------------------------
// Families
// ---------------------------------------------------------------------------------------------
/// The first position from `j` on whose node is no deeper than `depth`, or the end.
pub open spec fn first_not_deeper(nodes: Seq<SyntaxNode>, j: int, depth: int) -> int
    decreases nodes.len() - j,
{
    if j >= nodes.len() || nodes[j].depth <= depth {
        j
    } else {
        first_not_deeper(nodes, j + 1, depth)
    }
}

/// The position behind the last descendant of node `i`.
pub open spec fn subtree_end(nodes: Seq<SyntaxNode>, i: int) -> int {
    first_not_deeper(nodes, i + 1, nodes[i].depth as int)
}

/// The positions from `i + 1` up to `end` of the nodes one deeper than node `i`.
pub open spec fn children_up_to(nodes: Seq<SyntaxNode>, i: int, end: int) -> Seq<int>
    decreases end - i,
{
    if end <= i + 1 {
        Seq::<int>::empty()
    } else {
        let before = children_up_to(nodes, i, end - 1);
        if nodes[end - 1].depth == nodes[i].depth + 1 {
            before.push(end - 1)
        } else {
            before
        }
    }
}

/// The positions of the children of node `i`, in order.
pub open spec fn children(nodes: Seq<SyntaxNode>, i: int) -> Seq<int> {
    children_up_to(nodes, i, subtree_end(nodes, i))
}

/// Positions as integers.
pub open spec fn positions(v: Seq<usize>) -> Seq<int> {
    v.map_values(|k: usize| k as int)
}

/// The positions of the children of node `i` lie behind it and in order.
pub proof fn lemma_children_ordered(nodes: Seq<SyntaxNode>, i: int, end: int)
    requires
        0 <= i < nodes.len(),
        end <= nodes.len(),
    ensures
        forall|a: int|
            0 <= a < children_up_to(nodes, i, end).len() ==> i < #[trigger] children_up_to(
                nodes,
                i,
                end,
            )[a] < end,
        forall|a: int, b: int|
            0 <= a < b < children_up_to(nodes, i, end).len() ==> (#[trigger] children_up_to(
                nodes,
                i,
                end,
            )[a]) < (#[trigger] children_up_to(nodes, i, end)[b]),
    decreases end - i,
{
    if end > i + 1 {
        lemma_children_ordered(nodes, i, end - 1);
        let before = children_up_to(nodes, i, end - 1);
        let list = children_up_to(nodes, i, end);
        assert forall|a: int| 0 <= a < list.len() implies i < #[trigger] list[a] < end by {
            if a < before.len() {
                assert(list[a] == before[a]);
            }
        }
        assert forall|a: int, b: int| 0 <= a < b < list.len() implies (#[trigger] list[a]) < (
        #[trigger] list[b]) by {
            assert(list[a] == before[a]);
            if b < before.len() {
                assert(list[b] == before[b]);
            }
        }
    }
}

/// A subtree ends inside the list.
pub proof fn lemma_subtree_bound(nodes: Seq<SyntaxNode>, j: int, depth: int)
    requires
        0 <= j <= nodes.len(),
    ensures
        j <= first_not_deeper(nodes, j, depth) <= nodes.len(),
    decreases nodes.len() - j,
{
    if j < nodes.len() && nodes[j].depth > depth {
        lemma_subtree_bound(nodes, j + 1, depth);
    }
}

/// The positions of the children of node `i`.
pub fn child_positions(nodes: &Vec<SyntaxNode>, i: usize) -> (res: Vec<usize>)
    requires
        i < nodes@.len(),
    ensures
        positions(res@) == children(nodes@, i as int),
        forall|a: int| 0 <= a < res@.len() ==> i < #[trigger] res@[a] < nodes@.len(),
        forall|a: int, b: int| 0 <= a < b < res@.len() ==> res@[a] < res@[b],
{
    let depth = nodes[i].depth;
    let count = nodes.len();
    let mut out: Vec<usize> = Vec::new();
    let mut j: usize = i + 1;
    while j < count && nodes[j].depth > depth
        invariant
            i < j <= nodes@.len(),
            count == nodes@.len(),
            depth == nodes@[i as int].depth,
            subtree_end(nodes@, i as int) == first_not_deeper(nodes@, j as int, depth as int),
            positions(out@) == children_up_to(nodes@, i as int, j as int),
        decreases nodes@.len() - j,
    {
        if nodes[j].depth - depth == 1 {
            let ghost before = positions(out@);
            out.push(j);
            assert(positions(out@) =~= before.push(j as int));
        }
        j = j + 1;
    }
    proof {
        lemma_children_ordered(nodes@, i as int, j as int);
        let list = children_up_to(nodes@, i as int, j as int);
        assert forall|a: int| 0 <= a < out@.len() implies i < #[trigger] out@[a] < nodes@.len() by {
            assert(list[a] == out@[a]);
        }
        assert forall|a: int, b: int| 0 <= a < b < out@.len() implies out@[a] < out@[b] by {
            assert(list[a] == out@[a] && list[b] == out@[b]);
        }
    }
    out
}

/// Whether node `j` stands in the field `name` of its parent.
pub open spec fn in_field(node: SyntaxNode, name: Seq<char>) -> bool {
    match node.field {
        Some(field) => field@ == name,
        None => false,
    }
}

/// Whether a node stands in the field `name` of its parent.
pub fn stands_in_field(node: &SyntaxNode, name: &str) -> (res: bool)
    ensures
        res == in_field(*node, name@),
{
    match &node.field {
        Some(field) => same_text(field.as_str(), name),
        None => false,
    }
}

/// The first of the listed nodes that stands in the field `name`.
pub open spec fn first_in_field(
    nodes: Seq<SyntaxNode>,
    list: Seq<int>,
    name: Seq<char>,
) -> Option<int>
    decreases list.len(),
{
    if list.len() == 0 {
        None
    } else if in_field(nodes[list[0]], name) {
        Some(list[0])
    } else {
        first_in_field(nodes, list.drop_first(), name)
    }
}

/// The child of node `i` in the field `name`: the first, if there are several.
pub open spec fn child_in_field(nodes: Seq<SyntaxNode>, i: int, name: Seq<char>) -> Option<int> {
    first_in_field(nodes, children(nodes, i), name)
}

/// The child of node `i` in the field `name`.
pub fn find_in_field(nodes: &Vec<SyntaxNode>, i: usize, name: &str) -> (res: Option<usize>)
    requires
        i < nodes@.len(),
    ensures
        match res {
            Some(j) => child_in_field(nodes@, i as int, name@) == Some(j as int) && i < j
                < nodes@.len(),
            None => child_in_field(nodes@, i as int, name@) is None,
        },
{
    let list = child_positions(nodes, i);
    let ghost all = positions(list@);
    assert(all.skip(0) =~= all);
    for k in 0..list.len()
        invariant
            all == positions(list@),
            all == children(nodes@, i as int),
            forall|a: int| 0 <= a < list@.len() ==> i < #[trigger] list@[a] < nodes@.len(),
            child_in_field(nodes@, i as int, name@) == first_in_field(
                nodes@,
                all.skip(k as int),
                name@,
            ),
    {
        let j = list[k];
        assert(all.skip(k as int)[0] == j as int);
        if stands_in_field(&nodes[j], name) {
            return Some(j);
        }
        assert(all.skip(k as int).drop_first() =~= all.skip(k + 1));
    }
    None
}

// ---------------------------------------------------------------------------------------------
// Trees and their text
// ---------------------------------------------------------------------------------------------
/// Whether the spans of the nodes are spans of `source`: each starts before it ends, both lie
/// between two characters, and no node starts before the one in front of it.
pub open spec fn fits(source: Seq<char>, nodes: Seq<SyntaxNode>) -> bool {
    &&& nodes.len() > 0
    &&& forall|i: int|
        0 <= i < nodes.len() ==> {
            let n = #[trigger] nodes[i];
            n.start_byte <= n.end_byte && on_boundary(source, n.start_byte as int) && on_boundary(
                source,
                n.end_byte as int,
            )
        }
    &&& forall|i: int, j: int|
        0 <= i <= j < nodes.len() ==> (#[trigger] nodes[i]).start_byte <= (
        #[trigger] nodes[j]).start_byte
}

/// Whether the table has a character position at `byte`.
fn listed(table: &Vec<Option<usize>>, byte: usize, Ghost(source): Ghost<Seq<char>>) -> (res: bool)
    requires
        indexes_bytes(table@, source),
    ensures
        res == on_boundary(source, byte as int),
{
    if byte < table.len() {
        proof {
            if let Some(k) = table@[byte as int] {
                lemma_at_byte_unique(source, byte as int, k as int);
            }
        }
        table[byte].is_some()
    } else {
        proof {
            assert forall|k: int| !crate::text::at_byte(source, byte as int, k) by {
                if crate::text::at_byte(source, byte as int, k) {
                    crate::text::lemma_byte_len_subrange(source, k, k);
                }
            }
        }
        false
    }
}

/// Whether the spans of the nodes are spans of the text that `table` indexes.
pub(crate) fn spans_fit(
    nodes: &Vec<SyntaxNode>,
    table: &Vec<Option<usize>>,
    Ghost(source): Ghost<Seq<char>>,
) -> (res: bool)
    requires
        indexes_bytes(table@, source),
    ensures
        res == fits(source, nodes@),
{
    if nodes.len() == 0 {
        return false;
    }
    for i in 0..nodes.len()
        invariant
            indexes_bytes(table@, source),
            forall|k: int|
                0 <= k < i ==> {
                    let n = #[trigger] nodes@[k];
                    n.start_byte <= n.end_byte && on_boundary(source, n.start_byte as int)
                        && on_boundary(source, n.end_byte as int)
                },
            forall|k: int, j: int|
                0 <= k <= j < i ==> (#[trigger] nodes@[k]).start_byte <= (
                #[trigger] nodes@[j]).start_byte,
    {
        let start = nodes[i].start_byte;
        let end = nodes[i].end_byte;
        if start > end || !listed(table, start, Ghost(source)) || !listed(
            table,
            end,
            Ghost(source),
        ) {
            return false;
        }
        if i > 0 && nodes[i - 1].start_byte > start {
            return false;
        }
    }
    true
}

// ---------------------------------------------------------------------------------------------
// What holds of families
// ---------------------------------------------------------------------------------------------
/// Whether node `j` lies below node `i`: all nodes from the one behind `i` up to `j` are deeper.
pub open spec fn lies_below(nodes: Seq<SyntaxNode>, i: int, j: int) -> bool {
    i < j < nodes.len() && forall|k: int|
        i < k <= j ==> (#[trigger] nodes[k]).depth > nodes[i].depth
}

proof fn lemma_first_not_deeper(nodes: Seq<SyntaxNode>, j: int, depth: int)
    requires
        0 <= j <= nodes.len(),
    ensures
        j <= first_not_deeper(nodes, j, depth) <= nodes.len(),
        forall|k: int|
            j <= k < first_not_deeper(nodes, j, depth) ==> (#[trigger] nodes[k]).depth > depth,
        first_not_deeper(nodes, j, depth) < nodes.len() ==> nodes[first_not_deeper(
            nodes,
            j,
            depth,
        )].depth <= depth,
    decreases nodes.len() - j,
{
    if j < nodes.len() && nodes[j].depth > depth {
        lemma_first_not_deeper(nodes, j + 1, depth);
    }
}

proof fn lemma_children_listed(nodes: Seq<SyntaxNode>, i: int, end: int, j: int)
    requires
        0 <= i < nodes.len(),
        end <= nodes.len(),
    ensures
        children_up_to(nodes, i, end).contains(j) <==> i < j < end && nodes[j].depth
            == nodes[i].depth + 1,
        forall|a: int, b: int|
            0 <= a < b < children_up_to(nodes, i, end).len() ==> #[trigger] children_up_to(
                nodes,
                i,
                end,
            )[a] < #[trigger] children_up_to(nodes, i, end)[b],
        forall|a: int|
            0 <= a < children_up_to(nodes, i, end).len() ==> i < #[trigger] children_up_to(
                nodes,
                i,
                end,
            )[a] < end,
    decreases end - i,
{
    if end > i + 1 {
        lemma_children_listed(nodes, i, end - 1, j);
        let before = children_up_to(nodes, i, end - 1);
        let now = children_up_to(nodes, i, end);
        if before.contains(j) {
            let a = choose|a: int| 0 <= a < before.len() && before[a] == j;
            assert(now[a] == j);
        }
        if j == end - 1 && nodes[j].depth == nodes[i].depth + 1 {
            assert(now[now.len() - 1] == j);
        }
        if now.contains(j) {
            let a = choose|a: int| 0 <= a < now.len() && now[a] == j;
            if a < before.len() {
                assert(before[a] == j);
            }
        }
        assert forall|a: int, b: int| 0 <= a < b < now.len() implies #[trigger] now[a]
            < #[trigger] now[b] by {
            assert(now[a] == before[a]);
            if b < before.len() {
                assert(now[b] == before[b]);
            }
        }
        assert forall|a: int| 0 <= a < now.len() implies i < #[trigger] now[a] < end by {
            if a < before.len() {
                assert(now[a] == before[a]);
            }
        }
    }
}

/// The children of a node are the nodes below it that are one deeper, all of them, in the order of
/// the tree.
pub proof fn law_children_are_the_nodes_below(nodes: Seq<SyntaxNode>, i: int, j: int)
    requires
        0 <= i < nodes.len(),
    ensures
        children(nodes, i).contains(j) <==> lies_below(nodes, i, j) && nodes[j].depth
            == nodes[i].depth + 1,
        forall|a: int, b: int|
            0 <= a < b < children(nodes, i).len() ==> #[trigger] children(nodes, i)[a]
                < #[trigger] children(nodes, i)[b],
{
    let end = subtree_end(nodes, i);
    lemma_first_not_deeper(nodes, i + 1, nodes[i].depth as int);
    lemma_children_listed(nodes, i, end, j);
    if i < j < nodes.len() && lies_below(nodes, i, j) && j >= end {
        assert(nodes[end].depth > nodes[i].depth);
    }
}

proof fn lemma_first_in_field(nodes: Seq<SyntaxNode>, list: Seq<int>, name: Seq<char>)
    ensures
        match first_in_field(nodes, list, name) {
            Some(j) => exists|a: int|
                #![trigger list[a]]
                0 <= a < list.len() && list[a] == j && nodes[j].field is Some
                    && nodes[j].field->Some_0@ == name && forall|b: int|
                    0 <= b < a ==> !((#[trigger] nodes[list[b]]).field matches Some(f) && f@
                        == name),
            None => forall|b: int|
                0 <= b < list.len() ==> !((#[trigger] nodes[list[b]]).field matches Some(f) && f@
                    == name),
        },
    decreases list.len(),
{
    if list.len() > 0 {
        if in_field(nodes[list[0]], name) {
            assert(list[0] == list[0]);
        } else {
            let rest = list.drop_first();
            lemma_first_in_field(nodes, rest, name);
            match first_in_field(nodes, rest, name) {
                Some(j) => {
                    let a = choose|a: int|
                        #![trigger rest[a]]
                        0 <= a < rest.len() && rest[a] == j && nodes[j].field is Some
                            && nodes[j].field->Some_0@ == name && forall|b: int|
                            0 <= b < a ==> !((#[trigger] nodes[rest[b]]).field matches Some(f) && f@
                                == name);
                    assert(list[a + 1] == j);
                    assert forall|b: int| 0 <= b < a + 1 implies !((
                    #[trigger] nodes[list[b]]).field matches Some(f) && f@ == name) by {
                        if b > 0 {
                            assert(list[b] == rest[b - 1]);
                            assert(!(nodes[rest[b - 1]].field matches Some(f) && f@ == name));
                        }
                    }
                },
                None => {
                    assert forall|b: int| 0 <= b < list.len() implies !((
                    #[trigger] nodes[list[b]]).field matches Some(f) && f@ == name) by {
                        if b > 0 {
                            assert(list[b] == rest[b - 1]);
                            assert(!(nodes[rest[b - 1]].field matches Some(f) && f@ == name));
                        }
                    }
                },
            }
        }
    }
}

/// The child of a node in a field is a child that stands in that field, and no child in front of it
/// does; where no child stands in the field, there is none.
pub proof fn law_child_in_field_is_the_first(
    nodes: Seq<SyntaxNode>,
    i: int,
    name: Seq<char>,
    other: int,
)
    requires
        0 <= i < nodes.len(),
    ensures
        child_in_field(nodes, i, name) matches Some(j) ==> {
            &&& lies_below(nodes, i, j)
            &&& nodes[j].depth == nodes[i].depth + 1
            &&& nodes[j].field is Some
            &&& nodes[j].field->Some_0@ == name
            &&& lies_below(nodes, i, other) && nodes[other].depth == nodes[i].depth + 1 && (
            nodes[other].field matches Some(f) && f@ == name) ==> j <= other
        },
        child_in_field(nodes, i, name) is None && lies_below(nodes, i, other) && nodes[other].depth
            == nodes[i].depth + 1 ==> !(nodes[other].field matches Some(f) && f@ == name),
{
    let list = children(nodes, i);
    lemma_first_in_field(nodes, list, name);
    law_children_are_the_nodes_below(nodes, i, other);
    let found = child_in_field(nodes, i, name);
    if let Some(j) = found {
        let a = choose|a: int|
            #![trigger list[a]]
            0 <= a < list.len() && list[a] == j && nodes[j].field is Some
                && nodes[j].field->Some_0@ == name && forall|b: int|
                0 <= b < a ==> !((#[trigger] nodes[list[b]]).field matches Some(f) && f@ == name);
        assert(list.contains(j));
        law_children_are_the_nodes_below(nodes, i, j);
        if list.contains(other) && other < j {
            let b = choose|b: int| 0 <= b < list.len() && list[b] == other;
            if b >= a {
                if b > a {
                    assert(list[a] < list[b]);
                }
            } else {
                assert(!(nodes[list[b]].field matches Some(f) && f@ == name));
            }
        }
    } else if list.contains(other) {
        let b = choose|b: int| 0 <= b < list.len() && list[b] == other;
        assert(!(nodes[list[b]].field matches Some(f) && f@ == name));
    }
}

} // verus!
