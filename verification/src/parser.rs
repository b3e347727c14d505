//! The symbols of a Rust file, and an outline of its syntax tree.
use vstd::prelude::*;

use crate::numbers::{append_number, decimal, spaces};
use crate::source::SourceText;
use crate::strings::{
    contains_text, lines, occurs, occurs_at, split_lines, trim, trimmed, views,
};
use crate::syntax::{
    child_in_field, child_positions, children, find_in_field, fits,
    law_children_are_the_nodes_below, lies_below, parse_source, parsed, Language, SyntaxNode,
};
use crate::text::{
    append_text, at_byte, byte_len, byte_slice, bytes_of, from_chars, lemma_at_byte_unique,
    same_text,
};

verus! {

/// A named item of a Rust file.
#[derive(Debug, Clone)]
pub struct RustSymbol {
    pub kind: String,
    pub name: String,
    /// The number of its first line, counted from one.
    pub line: usize,
    /// Its first line, trimmed.
    pub signature: String,
}

/// What a symbol says.
#[verifier::ext_equal]
pub struct SymbolText {
    pub kind: Seq<char>,
    pub name: Seq<char>,
    pub line: int,
    pub signature: Seq<char>,
}

impl View for RustSymbol {
    type V = SymbolText;

    open spec fn view(&self) -> SymbolText {
        SymbolText {
            kind: self.kind@,
            name: self.name@,
            line: self.line as int,
            signature: self.signature@,
        }
    }
}

/// What a list of symbols says.
pub open spec fn symbol_texts(v: Seq<RustSymbol>) -> Seq<SymbolText> {
    v.map_values(|x: RustSymbol| x@)
}

/// Whether the rows of all nodes can be counted from one.
pub open spec fn rows_countable(nodes: Seq<SyntaxNode>) -> bool {
    forall|i: int|
        0 <= i < nodes.len() ==> (#[trigger] nodes[i]).start_row < usize::MAX && nodes[i].end_row
            < usize::MAX
}

/// Whether the rows of all nodes can be counted from one.
pub fn can_count_rows(nodes: &Vec<SyntaxNode>) -> (res: bool)
    ensures
        res == rows_countable(nodes@),
{
    for i in 0..nodes.len()
        invariant
            forall|k: int|
                0 <= k < i ==> (#[trigger] nodes@[k]).start_row < usize::MAX && nodes@[k].end_row
                    < usize::MAX,
    {
        if nodes[i].start_row == usize::MAX || nodes[i].end_row == usize::MAX {
            return false;
        }
    }
    true
}

// ---------------------------------------------------------------------------------------------
// Symbols
// ---------------------------------------------------------------------------------------------
/// The nodes that are symbols.
pub open spec fn symbol_kind(kind: Seq<char>) -> bool {
    ||| kind == "function_item"@
    ||| kind == "struct_item"@
    ||| kind == "enum_item"@
    ||| kind == "trait_item"@
    ||| kind == "impl_item"@
    ||| kind == "mod_item"@
    ||| kind == "macro_definition"@
}

/// Whether a node is a symbol.
pub fn is_symbol(kind: &str) -> (res: bool)
    ensures
        res == symbol_kind(kind@),
{
    same_text(kind, "function_item") || same_text(kind, "struct_item") || same_text(
        kind,
        "enum_item",
    ) || same_text(kind, "trait_item") || same_text(kind, "impl_item") || same_text(
        kind,
        "mod_item",
    ) || same_text(kind, "macro_definition")
}

/// The text of a node.
pub open spec fn node_text(s: Seq<char>, node: SyntaxNode) -> Seq<char> {
    byte_slice(s, node.start_byte as int, node.end_byte as int)
}

/// The name of symbol `i`: that of the item; of an implementation, `impl` and its type.
pub open spec fn symbol_name(s: Seq<char>, nodes: Seq<SyntaxNode>, i: int) -> Seq<char> {
    match child_in_field(nodes, i, "name"@) {
        Some(j) => node_text(s, nodes[j]),
        None => if nodes[i].kind@ == "impl_item"@ {
            match child_in_field(nodes, i, "type"@) {
                Some(j) => "impl "@ + node_text(s, nodes[j]),
                None => "impl"@,
            }
        } else {
            "anonymous"@
        },
    }
}

/// The first line of a text, trimmed.
pub open spec fn first_line(text: Seq<char>) -> Seq<char> {
    if lines(text).len() > 0 {
        trim(lines(text)[0])
    } else {
        trim(text)
    }
}

/// What symbol `i` says.
pub open spec fn symbol_at(s: Seq<char>, nodes: Seq<SyntaxNode>, i: int) -> SymbolText {
    SymbolText {
        kind: nodes[i].kind@,
        name: symbol_name(s, nodes, i),
        line: nodes[i].start_row + 1,
        signature: first_line(node_text(s, nodes[i])),
    }
}

/// The symbols among the first `n` nodes, in order.
pub open spec fn symbols_up_to(s: Seq<char>, nodes: Seq<SyntaxNode>, n: int) -> Seq<SymbolText>
    decreases n,
{
    if n <= 0 {
        Seq::<SymbolText>::empty()
    } else {
        let before = symbols_up_to(s, nodes, n - 1);
        if symbol_kind(nodes[n - 1].kind@) {
            before.push(symbol_at(s, nodes, n - 1))
        } else {
            before
        }
    }
}

/// The text of a node, as a string.
fn text_of(source: &SourceText, nodes: &Vec<SyntaxNode>, i: usize) -> (res: String)
    requires
        source.wf(),
        fits(source@, nodes@),
        i < nodes@.len(),
    ensures
        res@ == node_text(source@, nodes@[i as int]),
{
    assert(nodes@[i as int].start_byte <= nodes@[i as int].end_byte);
    from_chars(source.slice(nodes[i].start_byte, nodes[i].end_byte))
}

/// What node `i` says as a symbol.
fn extract_symbol(source: &SourceText, nodes: &Vec<SyntaxNode>, i: usize) -> (res: RustSymbol)
    requires
        source.wf(),
        fits(source@, nodes@),
        i < nodes@.len(),
        nodes@[i as int].start_row < usize::MAX,
    ensures
        res@ == symbol_at(source@, nodes@, i as int),
{
    let kind = nodes[i].kind.as_str().to_owned();
    let name = match find_in_field(nodes, i, "name") {
        Some(j) => text_of(source, nodes, j),
        None => {
            if same_text(nodes[i].kind.as_str(), "impl_item") {
                match find_in_field(nodes, i, "type") {
                    Some(j) => {
                        let mut name = "impl ".to_owned();
                        append_text(&mut name, text_of(source, nodes, j).as_str());
                        name
                    },
                    None => "impl".to_owned(),
                }
            } else {
                "anonymous".to_owned()
            }
        },
    };
    assert(nodes@[i as int].start_byte <= nodes@[i as int].end_byte);
    let text = source.slice(nodes[i].start_byte, nodes[i].end_byte);
    let ls = split_lines(text);
    let signature = if ls.len() > 0 {
        assert(views(ls@)[0] == ls@[0]@);
        from_chars(trimmed(ls[0]))
    } else {
        from_chars(trimmed(text))
    };
    RustSymbol { kind, name, line: nodes[i].start_row + 1, signature }
}

/// The symbols of a syntax tree of `source_code`, in the order in which they start.
pub fn tree_symbols(source_code: &str, nodes: &Vec<SyntaxNode>) -> (res: Vec<RustSymbol>)
    requires
        fits(source_code@, nodes@),
        rows_countable(nodes@),
    ensures
        symbol_texts(res@) == symbols_up_to(source_code@, nodes@, nodes@.len() as int),
{
    let source = SourceText::new(source_code);
    let mut symbols: Vec<RustSymbol> = Vec::new();
    assert(symbol_texts(symbols@) =~= Seq::<SymbolText>::empty());
    for i in 0..nodes.len()
        invariant
            source.wf(),
            source@ == source_code@,
            fits(source_code@, nodes@),
            rows_countable(nodes@),
            symbol_texts(symbols@) == symbols_up_to(source_code@, nodes@, i as int),
    {
        if is_symbol(nodes[i].kind.as_str()) {
            let ghost before = symbol_texts(symbols@);
            let symbol = extract_symbol(&source, nodes, i);
            let ghost text = symbol@;
            symbols.push(symbol);
            assert(symbol_texts(symbols@) =~= before.push(text));
        }
    }
    symbols
}

/// The symbols that a parse of `s` gives: none where there is no tree, or one whose spans are
/// not spans of the text.
pub open spec fn parse_symbols(s: Seq<char>, tree: Option<Seq<SyntaxNode>>) -> Seq<SymbolText> {
    match tree {
        Some(nodes) => if fits(s, nodes) && rows_countable(nodes) {
            symbols_up_to(s, nodes, nodes.len() as int)
        } else {
            Seq::<SymbolText>::empty()
        },
        None => Seq::<SymbolText>::empty(),
    }
}

/// The symbols of a Rust file, in the order in which they start.
pub fn parse_rust_symbols(source_code: &str) -> (res: Vec<RustSymbol>)
    ensures
        symbol_texts(res@) == parse_symbols(source_code@, parsed(Language::Rust, source_code@)),
{
    let none: Vec<RustSymbol> = Vec::new();
    assert(symbol_texts(none@) =~= Seq::<SymbolText>::empty());
    let nodes = match parse_source(Language::Rust, source_code) {
        Some(nodes) => nodes,
        None => {
            return none;
        },
    };
    let source = SourceText::new(source_code);
    if source.holds(&nodes) && can_count_rows(&nodes) {
        tree_symbols(source_code, &nodes)
    } else {
        none
    }
}

// ---------------------------------------------------------------------------------------------
// Outline
// ---------------------------------------------------------------------------------------------
/// One line of the outline of a syntax tree.
#[derive(Debug)]
pub struct AstLine {
    /// Two spaces for every ancestor.
    pub indent: String,
    pub kind: String,
    /// Where the node starts and ends, as rows counted from one and columns.
    pub range: String,
    /// The text of a short leaf, in quotes.
    pub snippet: String,
}

/// What a line of an outline says.
#[verifier::ext_equal]
pub struct AstText {
    pub indent: Seq<char>,
    pub kind: Seq<char>,
    pub range: Seq<char>,
    pub snippet: Seq<char>,
}

impl View for AstLine {
    type V = AstText;

    open spec fn view(&self) -> AstText {
        AstText {
            indent: self.indent@,
            kind: self.kind@,
            range: self.range@,
            snippet: self.snippet@,
        }
    }
}

/// What an outline says.
pub open spec fn ast_texts(v: Seq<AstLine>) -> Seq<AstText> {
    v.map_values(|x: AstLine| x@)
}

/// Leaves of this many bytes or more are not shown.
pub const SNIPPET_LIMIT: usize = 30;

/// Where a node starts and ends.
pub open spec fn range_text(node: SyntaxNode) -> Seq<char> {
    "["@ + decimal(node.start_row as nat + 1) + ":"@ + decimal(node.start_column as nat) + " - "@
        + decimal(node.end_row as nat + 1) + ":"@ + decimal(node.end_column as nat) + "]"@
}

/// The text of node `i`, in quotes, if it is a short leaf on one line.
pub open spec fn snippet_text(s: Seq<char>, nodes: Seq<SyntaxNode>, i: int) -> Seq<char> {
    let text = node_text(s, nodes[i]);
    if children(nodes, i).len() == 0 && byte_len(text) < SNIPPET_LIMIT && !occurs(text, "\n"@) {
        "  \""@ + text + "\""@
    } else {
        ""@
    }
}

/// What the outline says of node `i`.
pub open spec fn ast_at(s: Seq<char>, nodes: Seq<SyntaxNode>, i: int) -> AstText {
    AstText {
        indent: spaces((2 * nodes[i].depth) as nat),
        kind: nodes[i].kind@,
        range: range_text(nodes[i]),
        snippet: snippet_text(s, nodes, i),
    }
}

/// The outline of a tree.
pub open spec fn outline(s: Seq<char>, nodes: Seq<SyntaxNode>) -> Seq<AstText> {
    Seq::new(nodes.len(), |i: int| ast_at(s, nodes, i))
}

/// Two spaces for every ancestor.
fn indentation(depth: usize) -> (res: String)
    ensures
        res@ == spaces((2 * depth) as nat),
{
    let mut out = String::new();
    assert(out@ =~= spaces(0));
    for i in 0..depth
        invariant
            out@ == spaces((2 * i) as nat),
    {
        out.push(' ');
        out.push(' ');
        assert(out@ =~= spaces((2 * (i + 1)) as nat));
    }
    out
}

/// Where a node starts and ends.
fn node_range(node: &SyntaxNode) -> (res: String)
    requires
        node.start_row < usize::MAX,
        node.end_row < usize::MAX,
    ensures
        res@ == range_text(*node),
{
    let mut out = "[".to_owned();
    append_number(&mut out, (node.start_row + 1) as u64);
    append_text(&mut out, ":");
    append_number(&mut out, node.start_column as u64);
    append_text(&mut out, " - ");
    append_number(&mut out, (node.end_row + 1) as u64);
    append_text(&mut out, ":");
    append_number(&mut out, node.end_column as u64);
    append_text(&mut out, "]");
    out
}

/// What the outline says of node `i`.
fn ast_line(source: &SourceText, nodes: &Vec<SyntaxNode>, i: usize) -> (res: AstLine)
    requires
        source.wf(),
        fits(source@, nodes@),
        rows_countable(nodes@),
        i < nodes@.len(),
    ensures
        res@ == ast_at(source@, nodes@, i as int),
{
    assert(nodes@[i as int].start_row < usize::MAX);
    assert(nodes@[i as int].start_byte <= nodes@[i as int].end_byte);
    let leaf = child_positions(nodes, i).len() == 0;
    assert(leaf == (children(nodes@, i as int).len() == 0));
    let text = source.slice(nodes[i].start_byte, nodes[i].end_byte);
    let snippet = if leaf && bytes_of(text) < SNIPPET_LIMIT && !contains_text(text, "\n") {
        let mut snippet = "  \"".to_owned();
        append_text(&mut snippet, from_chars(text).as_str());
        append_text(&mut snippet, "\"");
        snippet
    } else {
        "".to_owned()
    };
    AstLine {
        indent: indentation(nodes[i].depth),
        kind: nodes[i].kind.as_str().to_owned(),
        range: node_range(&nodes[i]),
        snippet,
    }
}

/// The outline of a syntax tree of `source_code`: a line for every node, in document order.
pub fn tree_outline(source_code: &str, nodes: &Vec<SyntaxNode>) -> (res: Vec<AstLine>)
    requires
        fits(source_code@, nodes@),
        rows_countable(nodes@),
    ensures
        ast_texts(res@) == outline(source_code@, nodes@),
{
    let source = SourceText::new(source_code);
    let mut out: Vec<AstLine> = Vec::new();
    for i in 0..nodes.len()
        invariant
            source.wf(),
            source@ == source_code@,
            fits(source_code@, nodes@),
            rows_countable(nodes@),
            ast_texts(out@) == outline(source_code@, nodes@).take(i as int),
    {
        let ghost before = ast_texts(out@);
        let line = ast_line(&source, nodes, i);
        let ghost text = line@;
        out.push(line);
        assert(ast_texts(out@) =~= before.push(text));
        assert(outline(source_code@, nodes@).take(i + 1) =~= before.push(text));
    }
    assert(ast_texts(out@) =~= outline(source_code@, nodes@));
    out
}

/// The outline that a parse of `s` gives.
pub open spec fn parse_outline(s: Seq<char>, tree: Option<Seq<SyntaxNode>>) -> Seq<AstText> {
    match tree {
        Some(nodes) => if fits(s, nodes) && rows_countable(nodes) {
            outline(s, nodes)
        } else {
            Seq::<AstText>::empty()
        },
        None => Seq::<AstText>::empty(),
    }
}

/// The outline of the syntax tree of a Rust file, line by line.
pub fn print_ast(source_code: &str) -> (res: Vec<AstLine>)
    ensures
        ast_texts(res@) == parse_outline(source_code@, parsed(Language::Rust, source_code@)),
{
    let none: Vec<AstLine> = Vec::new();
    assert(ast_texts(none@) =~= Seq::<AstText>::empty());
    let nodes = match parse_source(Language::Rust, source_code) {
        Some(nodes) => nodes,
        None => {
            return none;
        },
    };
    let source = SourceText::new(source_code);
    if source.holds(&nodes) && can_count_rows(&nodes) {
        tree_outline(source_code, &nodes)
    } else {
        none
    }
}

/// The symbols of a tree are as many as its nodes of a symbol's kind, and they come in the
/// order of their nodes.
pub proof fn law_symbols_in_order(s: Seq<char>, nodes: Seq<SyntaxNode>, n: int, m: int)
    requires
        0 <= m < n <= nodes.len(),
        symbol_kind(nodes[m].kind@),
    ensures
        symbols_up_to(s, nodes, m).len() < symbols_up_to(s, nodes, n).len(),
        symbols_up_to(s, nodes, n)[symbols_up_to(s, nodes, m).len() as int] == symbol_at(
            s,
            nodes,
            m,
        ),
    decreases n,
{
    if m < n - 1 {
        law_symbols_in_order(s, nodes, n - 1, m);
    }
}

/// A symbol says what its node says: the kind, the number of its first line, and as its signature the
/// first line of its text, without blanks round it. Its name is the text of its child `name`.
pub proof fn law_symbol_says_what_its_node_says(
    s: Seq<char>,
    nodes: Seq<SyntaxNode>,
    m: int,
    p: int,
    q: int,
    j: int,
    x: int,
    y: int,
) -> (at: int)
    requires
        0 <= m < nodes.len(),
        symbol_kind(nodes[m].kind@),
        0 <= p <= q <= s.len(),
        byte_len(s.take(p)) == nodes[m].start_byte,
        byte_len(s.take(q)) == nodes[m].end_byte,
        lines(s.subrange(p, q)).len() > 0,
        child_in_field(nodes, m, "name"@) == Some(j),
        0 <= x <= y <= s.len(),
        byte_len(s.take(x)) == nodes[j].start_byte,
        byte_len(s.take(y)) == nodes[j].end_byte,
    ensures
        0 <= at < symbols_up_to(s, nodes, nodes.len() as int).len(),
        ({
            let symbol = symbols_up_to(s, nodes, nodes.len() as int)[at];
            &&& symbol.kind == nodes[m].kind@
            &&& symbol.line == nodes[m].start_row + 1
            &&& symbol.signature == trim(lines(s.subrange(p, q))[0])
            &&& symbol.name == s.subrange(x, y)
        }),
{
    assert(at_byte(s, nodes[m].start_byte as int, p));
    assert(at_byte(s, nodes[m].end_byte as int, q));
    assert(at_byte(s, nodes[j].start_byte as int, x));
    assert(at_byte(s, nodes[j].end_byte as int, y));
    lemma_at_byte_unique(s, nodes[m].start_byte as int, p);
    lemma_at_byte_unique(s, nodes[m].end_byte as int, q);
    lemma_at_byte_unique(s, nodes[j].start_byte as int, x);
    lemma_at_byte_unique(s, nodes[j].end_byte as int, y);
    law_symbols_in_order(s, nodes, nodes.len() as int, m);
    symbols_up_to(s, nodes, m).len() as int
}

/// An implementation is named by its type, and what has neither name nor type is told so.
pub proof fn law_unnamed_symbols_are_named(
    s: Seq<char>,
    nodes: Seq<SyntaxNode>,
    m: int,
    j: int,
    x: int,
    y: int,
)
    requires
        0 <= m < nodes.len(),
        child_in_field(nodes, m, "name"@) is None,
        0 <= x <= y <= s.len(),
        byte_len(s.take(x)) == nodes[j].start_byte,
        byte_len(s.take(y)) == nodes[j].end_byte,
    ensures
        nodes[m].kind@ == "impl_item"@ && child_in_field(nodes, m, "type"@) == Some(j) ==> symbol_at(
            s,
            nodes,
            m,
        ).name == "impl "@ + s.subrange(x, y),
        nodes[m].kind@ == "impl_item"@ && child_in_field(nodes, m, "type"@) is None ==> symbol_at(
            s,
            nodes,
            m,
        ).name == "impl"@,
        nodes[m].kind@ != "impl_item"@ ==> symbol_at(s, nodes, m).name == "anonymous"@,
{
    assert(at_byte(s, nodes[j].start_byte as int, x));
    assert(at_byte(s, nodes[j].end_byte as int, y));
    lemma_at_byte_unique(s, nodes[j].start_byte as int, x);
    lemma_at_byte_unique(s, nodes[j].end_byte as int, y);
}

/// The symbols of a file are its functions, types, traits, implementations, modules and macros, and
/// nothing else is one: there are as many symbols as nodes of these kinds.
pub proof fn law_symbols_are_the_named_items(s: Seq<char>, nodes: Seq<SyntaxNode>)
    ensures
        symbols_up_to(s, nodes, nodes.len() as int).len() == nodes.filter(
            |n: SyntaxNode|
                seq![
                    "function_item"@,
                    "struct_item"@,
                    "enum_item"@,
                    "trait_item"@,
                    "impl_item"@,
                    "mod_item"@,
                    "macro_definition"@,
                ].contains(n.kind@),
        ).len(),
{
    lemma_symbols_counted(s, nodes, nodes.len() as int);
    assert(nodes.take(nodes.len() as int) =~= nodes);
}

proof fn lemma_symbol_kinds(kind: Seq<char>)
    ensures
        symbol_kind(kind) <==> seq![
            "function_item"@,
            "struct_item"@,
            "enum_item"@,
            "trait_item"@,
            "impl_item"@,
            "mod_item"@,
            "macro_definition"@,
        ].contains(kind),
{
    let all = seq![
        "function_item"@,
        "struct_item"@,
        "enum_item"@,
        "trait_item"@,
        "impl_item"@,
        "mod_item"@,
        "macro_definition"@,
    ];
    assert(all[0] == "function_item"@);
    assert(all[1] == "struct_item"@);
    assert(all[2] == "enum_item"@);
    assert(all[3] == "trait_item"@);
    assert(all[4] == "impl_item"@);
    assert(all[5] == "mod_item"@);
    assert(all[6] == "macro_definition"@);
}

proof fn lemma_symbols_counted(s: Seq<char>, nodes: Seq<SyntaxNode>, n: int)
    requires
        0 <= n <= nodes.len(),
    ensures
        symbols_up_to(s, nodes, n).len() == nodes.take(n).filter(
            |n: SyntaxNode|
                seq![
                    "function_item"@,
                    "struct_item"@,
                    "enum_item"@,
                    "trait_item"@,
                    "impl_item"@,
                    "mod_item"@,
                    "macro_definition"@,
                ].contains(n.kind@),
        ).len(),
    decreases n,
{
    reveal(Seq::filter);
    if n > 0 {
        lemma_symbols_counted(s, nodes, n - 1);
        lemma_symbol_kinds(nodes[n - 1].kind@);
        assert(nodes.take(n).drop_last() =~= nodes.take(n - 1));
        assert(nodes.take(n).last() == nodes[n - 1]);
    }
}

/// An outline has a line for every node, in order, with its kind, two spaces for every ancestor, and
/// where it starts and ends, rows counted from one. A leaf of less than thirty bytes on one line is
/// shown; nothing else is.
pub proof fn law_outline_shows_every_node(
    s: Seq<char>,
    nodes: Seq<SyntaxNode>,
    i: int,
    p: int,
    q: int,
)
    requires
        0 <= i < nodes.len(),
        0 <= p <= q <= s.len(),
        byte_len(s.take(p)) == nodes[i].start_byte,
        byte_len(s.take(q)) == nodes[i].end_byte,
    ensures
        outline(s, nodes).len() == nodes.len(),
        outline(s, nodes)[i].kind == nodes[i].kind@,
        outline(s, nodes)[i].indent.len() == 2 * nodes[i].depth,
        forall|k: int|
            0 <= k < outline(s, nodes)[i].indent.len() ==> #[trigger] outline(s, nodes)[i].indent[k]
                == ' ',
        outline(s, nodes)[i].range == "["@ + decimal((nodes[i].start_row + 1) as nat) + ":"@
            + decimal(nodes[i].start_column as nat) + " - "@ + decimal(
            (nodes[i].end_row + 1) as nat,
        ) + ":"@ + decimal(nodes[i].end_column as nat) + "]"@,
        !lies_below(nodes, i, i + 1) && byte_len(s.subrange(p, q)) < 30 && !s.subrange(
            p,
            q,
        ).contains('\n') ==> outline(s, nodes)[i].snippet == "  \""@ + s.subrange(p, q) + "\""@,
        (exists|j: int| lies_below(nodes, i, j) && nodes[j].depth == nodes[i].depth + 1) || byte_len(
            s.subrange(p, q),
        ) >= 30 || s.subrange(p, q).contains('\n') ==> outline(s, nodes)[i].snippet.len() == 0,
{
    let text = s.subrange(p, q);
    reveal_strlit("");
    reveal_strlit("\n");
    assert(at_byte(s, nodes[i].start_byte as int, p));
    assert(at_byte(s, nodes[i].end_byte as int, q));
    lemma_at_byte_unique(s, nodes[i].start_byte as int, p);
    lemma_at_byte_unique(s, nodes[i].end_byte as int, q);
    if occurs(text, "\n"@) {
        let k = choose|k: int| occurs_at(text, "\n"@, k);
        assert(text.subrange(k, k + 1)[0] == '\n');
        assert(text[k] == '\n');
    }
    if text.contains('\n') {
        let k = choose|k: int| 0 <= k < text.len() && text[k] == '\n';
        assert(text.subrange(k, k + 1) =~= "\n"@);
        assert(occurs_at(text, "\n"@, k));
    }
    let list = children(nodes, i);
    if list.len() > 0 {
        law_children_are_the_nodes_below(nodes, i, list[0]);
        assert(list.contains(list[0]));
        assert(lies_below(nodes, i, list[0]));
        assert(lies_below(nodes, i, i + 1));
    }
    if exists|j: int| lies_below(nodes, i, j) && nodes[j].depth == nodes[i].depth + 1 {
        let j = choose|j: int| lies_below(nodes, i, j) && nodes[j].depth == nodes[i].depth + 1;
        law_children_are_the_nodes_below(nodes, i, j);
        assert(list.len() > 0);
    }
}

/// The symbols and the outline of a file are those of its whole tree, where the spans of the tree are
/// spans of the file; without a tree there are none.
pub proof fn law_whole_tree_is_read(s: Seq<char>, nodes: Seq<SyntaxNode>)
    requires
        fits(s, nodes),
        forall|i: int|
            0 <= i < nodes.len() ==> (#[trigger] nodes[i]).start_row < usize::MAX
                && nodes[i].end_row < usize::MAX,
    ensures
        parse_symbols(s, Some(nodes)) == symbols_up_to(s, nodes, nodes.len() as int),
        parse_outline(s, Some(nodes)) == outline(s, nodes),
        parse_symbols(s, None).len() == 0,
        parse_outline(s, None).len() == 0,
{
}

} // verus!
