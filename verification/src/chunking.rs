//! Cutting source files into chunks, along their syntax where a grammar is at hand.
use vstd::prelude::*;

use crate::line_chunks::{
    chunk_generic_fallback, chunk_texts, fallback, law_fallback_keeps_lines,
    law_soft_split_keeps_lines, lemma_chunk_texts_push, soft_split, soft_split_by_braces,
    some_chunk_has_line, spans_its_lines, ChunkText, CodeChunk, MAX_CHUNK_CHARS,
};
use crate::source::{line_at, SourceText};
use crate::strings::{
    blank, count_char, has_prefix, is_blank, join, lemma_count_is_filter, lemma_line_count,
    lemma_lines_total, lemma_lines_within, lines, split_lines, trim_end, trim_end_char, trimmed_end,
    trimmed_end_char,
};
use crate::syntax::{
    child_positions, children, fits, in_field, parse_source, parsed, positions, stands_in_field,
    Language, SyntaxNode,
};
use crate::text::{
    append_text, ascii_lower_all, at_byte, byte_count, byte_len, byte_slice, from_chars,
    is_ascii_text, is_ws, lemma_at_byte_unique, lemma_byte_len_monotonic, lemma_len_le_byte_len,
    lemma_lowercase_twice, lowercase, on_boundary, same_text, to_chars,
};

verus! {

// ---------------------------------------------------------------------------------------------
// Kinds of nodes
// ---------------------------------------------------------------------------------------------
/// The Rust nodes that make a chunk of their own.
pub open spec fn rust_item(kind: Seq<char>) -> bool {
    ||| kind == "function_item"@
    ||| kind == "struct_item"@
    ||| kind == "enum_item"@
    ||| kind == "impl_item"@
    ||| kind == "trait_item"@
    ||| kind == "mod_item"@
    ||| kind == "macro_definition"@
    ||| kind == "const_item"@
    ||| kind == "static_item"@
    ||| kind == "type_item"@
    ||| kind == "union_item"@
}

/// Whether a Rust node makes a chunk of its own.
pub fn is_item_node(kind: &str) -> (res: bool)
    ensures
        res == rust_item(kind@),
{
    same_text(kind, "function_item") || same_text(kind, "struct_item") || same_text(
        kind,
        "enum_item",
    ) || same_text(kind, "impl_item") || same_text(kind, "trait_item") || same_text(
        kind,
        "mod_item",
    ) || same_text(kind, "macro_definition") || same_text(kind, "const_item") || same_text(
        kind,
        "static_item",
    ) || same_text(kind, "type_item") || same_text(kind, "union_item")
}

/// The Rust comments and attributes that belong to the item behind them.
pub open spec fn rust_trivia(kind: Seq<char>) -> bool {
    kind == "line_comment"@ || kind == "block_comment"@ || kind == "attribute_item"@
}

/// Whether a Rust node belongs to the item behind it.
pub fn is_leading_trivia(kind: &str) -> (res: bool)
    ensures
        res == rust_trivia(kind@),
{
    same_text(kind, "line_comment") || same_text(kind, "block_comment") || same_text(
        kind,
        "attribute_item",
    )
}

/// The C# nodes that make a chunk of their own.
pub open spec fn cs_item(kind: Seq<char>) -> bool {
    ||| kind == "class_declaration"@
    ||| kind == "struct_declaration"@
    ||| kind == "interface_declaration"@
    ||| kind == "enum_declaration"@
    ||| kind == "namespace_declaration"@
    ||| kind == "file_scoped_namespace_declaration"@
    ||| kind == "method_declaration"@
    ||| kind == "property_declaration"@
    ||| kind == "field_declaration"@
    ||| kind == "constructor_declaration"@
    ||| kind == "destructor_declaration"@
    ||| kind == "delegate_declaration"@
    ||| kind == "event_declaration"@
    ||| kind == "event_field_declaration"@
    ||| kind == "record_declaration"@
    ||| kind == "using_directive"@
}

/// Whether a C# node makes a chunk of its own.
pub fn is_cs_item_node(kind: &str) -> (res: bool)
    ensures
        res == cs_item(kind@),
{
    same_text(kind, "class_declaration") || same_text(kind, "struct_declaration") || same_text(
        kind,
        "interface_declaration",
    ) || same_text(kind, "enum_declaration") || same_text(kind, "namespace_declaration")
        || same_text(kind, "file_scoped_namespace_declaration") || same_text(
        kind,
        "method_declaration",
    ) || same_text(kind, "property_declaration") || same_text(kind, "field_declaration")
        || same_text(kind, "constructor_declaration") || same_text(kind, "destructor_declaration")
        || same_text(kind, "delegate_declaration") || same_text(kind, "event_declaration")
        || same_text(kind, "event_field_declaration") || same_text(kind, "record_declaration")
        || same_text(kind, "using_directive")
}

/// The C# comments and attributes that belong to the item behind them.
pub open spec fn cs_trivia(kind: Seq<char>) -> bool {
    ||| kind == "comment"@
    ||| kind == "line_comment"@
    ||| kind == "block_comment"@
    ||| kind == "attribute_list"@
}

/// Whether a C# node belongs to the item behind it.
pub fn is_cs_leading_trivia(kind: &str) -> (res: bool)
    ensures
        res == cs_trivia(kind@),
{
    same_text(kind, "comment") || same_text(kind, "line_comment") || same_text(
        kind,
        "block_comment",
    ) || same_text(kind, "attribute_list")
}

/// The C and C++ nodes that make a chunk of their own.
pub open spec fn cpp_item(kind: Seq<char>) -> bool {
    ||| kind == "function_definition"@
    ||| kind == "class_specifier"@
    ||| kind == "struct_specifier"@
    ||| kind == "enum_specifier"@
    ||| kind == "union_specifier"@
    ||| kind == "namespace_definition"@
    ||| kind == "template_declaration"@
    ||| kind == "declaration"@
    ||| kind == "type_definition"@
    ||| kind == "using_declaration"@
    ||| kind == "alias_declaration"@
    ||| kind == "linkage_specification"@
    ||| kind == "concept_definition"@
    ||| kind == "preproc_include"@
    ||| kind == "preproc_def"@
    ||| kind == "preproc_function_def"@
    ||| kind == "preproc_ifdef"@
    ||| kind == "preproc_if"@
}

/// Whether a C or C++ node makes a chunk of its own.
pub fn is_cpp_item_node(kind: &str) -> (res: bool)
    ensures
        res == cpp_item(kind@),
{
    same_text(kind, "function_definition") || same_text(kind, "class_specifier") || same_text(
        kind,
        "struct_specifier",
    ) || same_text(kind, "enum_specifier") || same_text(kind, "union_specifier") || same_text(
        kind,
        "namespace_definition",
    ) || same_text(kind, "template_declaration") || same_text(kind, "declaration") || same_text(
        kind,
        "type_definition",
    ) || same_text(kind, "using_declaration") || same_text(kind, "alias_declaration") || same_text(
        kind,
        "linkage_specification",
    ) || same_text(kind, "concept_definition") || same_text(kind, "preproc_include") || same_text(
        kind,
        "preproc_def",
    ) || same_text(kind, "preproc_function_def") || same_text(kind, "preproc_ifdef") || same_text(
        kind,
        "preproc_if",
    )
}

/// The C and C++ comments and attributes that belong to the declaration behind them.
pub open spec fn cpp_trivia(kind: Seq<char>) -> bool {
    kind == "comment"@ || kind == "attribute_declaration"@ || kind == "attribute_specifier"@
}

/// Whether a C or C++ node belongs to the declaration behind it.
pub fn is_cpp_leading_trivia(kind: &str) -> (res: bool)
    ensures
        res == cpp_trivia(kind@),
{
    same_text(kind, "comment") || same_text(kind, "attribute_declaration") || same_text(
        kind,
        "attribute_specifier",
    )
}

/// The nodes that make a chunk of their own.
pub open spec fn item_kind(language: Language, kind: Seq<char>) -> bool {
    match language {
        Language::Rust => rust_item(kind),
        Language::CSharp => cs_item(kind),
        Language::Cpp => cpp_item(kind),
    }
}

fn is_item(language: Language, kind: &str) -> (res: bool)
    ensures
        res == item_kind(language, kind@),
{
    match language {
        Language::Rust => is_item_node(kind),
        Language::CSharp => is_cs_item_node(kind),
        Language::Cpp => is_cpp_item_node(kind),
    }
}

/// The nodes that belong to the item behind them.
pub open spec fn trivia_kind(language: Language, kind: Seq<char>) -> bool {
    match language {
        Language::Rust => rust_trivia(kind),
        Language::CSharp => cs_trivia(kind),
        Language::Cpp => cpp_trivia(kind),
    }
}

fn is_trivia(language: Language, kind: &str) -> (res: bool)
    ensures
        res == trivia_kind(language, kind@),
{
    match language {
        Language::Rust => is_leading_trivia(kind),
        Language::CSharp => is_cs_leading_trivia(kind),
        Language::Cpp => is_cpp_leading_trivia(kind),
    }
}

/// The items that stay with the item behind them as long as one chunk can hold both.
pub open spec fn import_kind(language: Language, kind: Seq<char>) -> bool {
    language == Language::CSharp && kind == "using_directive"@
}

fn is_import(language: Language, kind: &str) -> (res: bool)
    ensures
        res == import_kind(language, kind@),
{
    match language {
        Language::CSharp => same_text(kind, "using_directive"),
        _ => false,
    }
}

/// The items that are split by their members where they are too large for one chunk.
pub open spec fn container_kind(language: Language, kind: Seq<char>) -> bool {
    match language {
        Language::Rust => kind == "impl_item"@ || kind == "trait_item"@ || kind == "mod_item"@,
        Language::CSharp => kind == "class_declaration"@ || kind == "struct_declaration"@ || kind
            == "interface_declaration"@ || kind == "namespace_declaration"@ || kind
            == "record_declaration"@,
        Language::Cpp => kind == "class_specifier"@ || kind == "struct_specifier"@ || kind
            == "namespace_definition"@ || kind == "linkage_specification"@ || kind
            == "template_declaration"@,
    }
}

fn is_container(language: Language, kind: &str) -> (res: bool)
    ensures
        res == container_kind(language, kind@),
{
    match language {
        Language::Rust => same_text(kind, "impl_item") || same_text(kind, "trait_item")
            || same_text(kind, "mod_item"),
        Language::CSharp => same_text(kind, "class_declaration") || same_text(
            kind,
            "struct_declaration",
        ) || same_text(kind, "interface_declaration") || same_text(kind, "namespace_declaration")
            || same_text(kind, "record_declaration"),
        Language::Cpp => same_text(kind, "class_specifier") || same_text(kind, "struct_specifier")
            || same_text(kind, "namespace_definition") || same_text(kind, "linkage_specification")
            || same_text(kind, "template_declaration"),
    }
}

/// Whether a child of a container is the list of its members.
pub open spec fn is_body(language: Language, node: SyntaxNode) -> bool {
    match language {
        Language::Rust => in_field(node, "body"@),
        Language::CSharp => node.kind@ == "declaration_list"@,
        Language::Cpp => node.kind@ == "field_declaration_list"@ || node.kind@
            == "declaration_list"@ || node.kind@ == "compound_statement"@,
    }
}

fn holds_members(language: Language, node: &SyntaxNode) -> (res: bool)
    ensures
        res == is_body(language, *node),
{
    match language {
        Language::Rust => stands_in_field(node, "body"),
        Language::CSharp => same_text(node.kind.as_str(), "declaration_list"),
        Language::Cpp => same_text(node.kind.as_str(), "field_declaration_list") || same_text(
            node.kind.as_str(),
            "declaration_list",
        ) || same_text(node.kind.as_str(), "compound_statement"),
    }
}

/// The nodes among the members of a container that are none.
pub open spec fn punctuation_kind(language: Language, kind: Seq<char>) -> bool {
    ||| kind == "{"@
    ||| kind == "}"@
    ||| (language == Language::Cpp && (kind == ";"@ || kind == "access_specifier"@))
}

fn is_punctuation(language: Language, kind: &str) -> (res: bool)
    ensures
        res == punctuation_kind(language, kind@),
{
    if same_text(kind, "{") || same_text(kind, "}") {
        return true;
    }
    match language {
        Language::Cpp => same_text(kind, ";") || same_text(kind, "access_specifier"),
        _ => false,
    }
}

// ---------------------------------------------------------------------------------------------
// Whole spans
// ---------------------------------------------------------------------------------------------
/// The chunk of the text between two byte offsets, without the line feeds at its end; none if
/// that is blank.
pub open spec fn span_chunk(s: Seq<char>, from: int, to: int) -> Seq<ChunkText> {
    let text = trim_end_char(byte_slice(s, from, to), '\n');
    if from >= to || is_blank(text) {
        Seq::<ChunkText>::empty()
    } else {
        seq![
            ChunkText {
                content: text,
                start_line: line_at(s, from),
                end_line: line_at(s, from) + lines(text).len() - 1,
            },
        ]
    }
}

proof fn lemma_trim_end_char_len(s: Seq<char>, c: char)
    ensures
        trim_end_char(s, c).len() <= s.len(),
    decreases s.len(),
{
    if s.len() > 0 && s.last() == c {
        lemma_trim_end_char_len(s.drop_last(), c);
    }
}

/// Adds the chunk of the text between two byte offsets, unless it is blank.
pub fn emit_chunk_from_bytes(
    source: &SourceText,
    start_byte: usize,
    end_byte: usize,
    chunks: &mut Vec<CodeChunk>,
)
    requires
        source.wf(),
        start_byte < end_byte ==> on_boundary(source@, start_byte as int) && on_boundary(
            source@,
            end_byte as int,
        ),
    ensures
        chunk_texts(final(chunks)@) == chunk_texts(old(chunks)@) + span_chunk(
            source@,
            start_byte as int,
            end_byte as int,
        ),
{
    let ghost before = chunk_texts(chunks@);
    if start_byte >= end_byte {
        assert(before + Seq::<ChunkText>::empty() =~= before);
        return;
    }
    let span = source.slice(start_byte, end_byte);
    let text = trimmed_end_char(span, '\n');
    if blank(text) {
        assert(before + Seq::<ChunkText>::empty() =~= before);
        return;
    }
    let start_line = source.line_of(start_byte);
    let count = split_lines(text).len();
    proof {
        lemma_trim_end_char_len(span@, '\n');
        lemma_lines_total(text@);
        lemma_line_count(text@);
    }
    let chunk = CodeChunk {
        content: from_chars(text),
        start_line,
        end_line: start_line + (count - 1),
    };
    proof {
        lemma_chunk_texts_push(chunks@, chunk);
        assert(before.push(chunk@) =~= before + seq![chunk@]);
    }
    chunks.push(chunk);
}

// ---------------------------------------------------------------------------------------------
// Members of a container
// ---------------------------------------------------------------------------------------------
/// The first of the listed nodes that is the list of the members of a container.
pub open spec fn first_body(
    nodes: Seq<SyntaxNode>,
    list: Seq<int>,
    language: Language,
) -> Option<int>
    decreases list.len(),
{
    if list.len() == 0 {
        None
    } else if is_body(language, nodes[list[0]]) {
        Some(list[0])
    } else {
        first_body(nodes, list.drop_first(), language)
    }
}

fn find_body(nodes: &Vec<SyntaxNode>, i: usize, language: Language) -> (res: Option<usize>)
    requires
        i < nodes@.len(),
    ensures
        match res {
            Some(j) => first_body(nodes@, children(nodes@, i as int), language) == Some(j as int)
                && i < j < nodes@.len(),
            None => first_body(nodes@, children(nodes@, i as int), language) is None,
        },
{
    let list = child_positions(nodes, i);
    let ghost all = positions(list@);
    assert(all.skip(0) =~= all);
    for k in 0..list.len()
        invariant
            all == positions(list@),
            all == children(nodes@, i as int),
            forall|a: int| 0 <= a < list@.len() ==> i < #[trigger] list@[a] < nodes@.len(),
            first_body(nodes@, all, language) == first_body(
                nodes@,
                all.skip(k as int),
                language,
            ),
    {
        let j = list[k];
        assert(all.skip(k as int)[0] == j as int);
        if holds_members(language, &nodes[j]) {
            return Some(j);
        }
        assert(all.skip(k as int).drop_first() =~= all.skip(k + 1));
    }
    None
}

/// What stands between the header of a container and a member of it.
pub open spec fn elision() -> Seq<char> {
    "\n    // ...\n"@
}

/// The chunks of one member: the header of its container, and the member with the comments in
/// front of it.
pub open spec fn member_chunks(
    s: Seq<char>,
    header: Seq<char>,
    from: int,
    to: int,
) -> Seq<ChunkText> {
    let text = byte_slice(s, from, to);
    let combined = header + elision() + text;
    let base = line_at(s, from);
    if byte_len(combined) > MAX_CHUNK_CHARS {
        soft_split(combined, base)
    } else {
        seq![
            ChunkText {
                content: combined,
                start_line: base,
                end_line: base + if lines(text).len() > 0 {
                    lines(text).len() - 1
                } else {
                    0
                },
            },
        ]
    }
}

/// How far the members of a container, or the items of a file, were gone through.
#[verifier::ext_equal]
pub struct MemberScan {
    /// Where the comments in front of the next member start, if there are any.
    pub trivia: Option<int>,
    /// The chunks so far.
    pub out: Seq<ChunkText>,
}

/// The offset where a node starts, or where the comments in front of it start.
pub open spec fn start_with_trivia(trivia: Option<int>, node: SyntaxNode) -> int {
    match trivia {
        Some(start) => start,
        None => node.start_byte as int,
    }
}

/// Member `m` gone through.
pub open spec fn member_step(
    s: Seq<char>,
    nodes: Seq<SyntaxNode>,
    language: Language,
    header: Seq<char>,
    st: MemberScan,
    m: int,
) -> MemberScan {
    let node = nodes[m];
    if trivia_kind(language, node.kind@) {
        MemberScan { trivia: Some(start_with_trivia(st.trivia, node)), out: st.out }
    } else if punctuation_kind(language, node.kind@) {
        st
    } else {
        MemberScan {
            trivia: None,
            out: st.out + member_chunks(
                s,
                header,
                start_with_trivia(st.trivia, node),
                node.end_byte as int,
            ),
        }
    }
}

/// The first `n` of the listed members gone through.
pub open spec fn member_run(
    s: Seq<char>,
    nodes: Seq<SyntaxNode>,
    language: Language,
    header: Seq<char>,
    list: Seq<int>,
    n: int,
) -> MemberScan
    decreases n,
{
    if n <= 0 {
        MemberScan { trivia: None, out: Seq::<ChunkText>::empty() }
    } else {
        member_step(
            s,
            nodes,
            language,
            header,
            member_run(s, nodes, language, header, list, n - 1),
            list[n - 1],
        )
    }
}

/// The chunks of a container that is too large for one: one for each member, or more where a
/// member is too large itself. A container without a list of members is one chunk.
pub open spec fn container_chunks(
    s: Seq<char>,
    nodes: Seq<SyntaxNode>,
    language: Language,
    i: int,
) -> Seq<ChunkText> {
    match first_body(nodes, children(nodes, i), language) {
        None => span_chunk(s, nodes[i].start_byte as int, nodes[i].end_byte as int),
        Some(body) => {
            let header = trim_end(
                byte_slice(s, nodes[i].start_byte as int, nodes[body].start_byte as int),
            );
            let list = children(nodes, body);
            member_run(s, nodes, language, header, list, list.len() as int).out
        },
    }
}

/// Adds the chunks of a text that starts on the given line of a file, cut by size.
fn push_split(text: &str, base_line: usize, chunks: &mut Vec<CodeChunk>)
    requires
        base_line <= isize::MAX + 1,
    ensures
        chunk_texts(final(chunks)@) == chunk_texts(old(chunks)@) + soft_split(
            text@,
            base_line as int,
        ),
{
    let ghost before = chunk_texts(chunks@);
    let _size = byte_count(text);
    proof {
        lemma_lines_total(text@);
        lemma_len_le_byte_len(text@);
    }
    let mut more = soft_split_by_braces(text, base_line);
    let ghost pieces = chunk_texts(more@);
    let ghost joined = chunks@ + more@;
    chunks.append(&mut more);
    assert(chunk_texts(joined) =~= before + pieces);
}

/// Adds the chunks of one member.
fn push_member_chunks(
    source: &SourceText,
    header: &[char],
    from: usize,
    to: usize,
    chunks: &mut Vec<CodeChunk>,
)
    requires
        source.wf(),
        on_boundary(source@, from as int),
        on_boundary(source@, to as int),
        from <= to,
    ensures
        chunk_texts(final(chunks)@) == chunk_texts(old(chunks)@) + member_chunks(
            source@,
            header@,
            from as int,
            to as int,
        ),
{
    let ghost before = chunk_texts(chunks@);
    let text = source.slice(from, to);
    let mut combined = from_chars(header);
    append_text(&mut combined, "\n    // ...\n");
    append_text(&mut combined, from_chars(text).as_str());
    assert(combined@ == header@ + elision() + text@);
    let base_line = source.line_of(from);
    if byte_count(combined.as_str()) > MAX_CHUNK_CHARS {
        push_split(combined.as_str(), base_line, chunks);
    } else {
        let count = split_lines(text).len();
        proof {
            lemma_lines_total(text@);
        }
        let chunk = CodeChunk {
            content: combined,
            start_line: base_line,
            end_line: base_line + count.saturating_sub(1),
        };
        proof {
            lemma_chunk_texts_push(chunks@, chunk);
            assert(before.push(chunk@) =~= before + seq![chunk@]);
        }
        chunks.push(chunk);
    }
}

/// Adds the chunks of a container that is too large for one.
fn split_container_by_inner_items(
    source: &SourceText,
    nodes: &Vec<SyntaxNode>,
    language: Language,
    i: usize,
    chunks: &mut Vec<CodeChunk>,
)
    requires
        source.wf(),
        fits(source@, nodes@),
        i < nodes@.len(),
    ensures
        chunk_texts(final(chunks)@) == chunk_texts(old(chunks)@) + container_chunks(
            source@,
            nodes@,
            language,
            i as int,
        ),
{
    let ghost before = chunk_texts(chunks@);
    let start = nodes[i].start_byte;
    let body = match find_body(nodes, i, language) {
        Some(body) => body,
        None => {
            emit_chunk_from_bytes(source, start, nodes[i].end_byte, chunks);
            return;
        },
    };
    assert(nodes@[i as int].start_byte <= nodes@[body as int].start_byte);
    let header = trimmed_end(source.slice(start, nodes[body].start_byte));
    let members = child_positions(nodes, body);
    let ghost list = positions(members@);
    let mut trivia: Option<usize> = None;
    assert(before + Seq::<ChunkText>::empty() =~= before);
    for k in 0..members.len()
        invariant
            source.wf(),
            fits(source@, nodes@),
            body < nodes@.len(),
            list == positions(members@),
            forall|a: int| 0 <= a < members@.len() ==> body < #[trigger] members@[a] < nodes@.len(),
            forall|a: int, b: int| 0 <= a < b < members@.len() ==> members@[a] < members@[b],
            chunk_texts(chunks@) == before + member_run(
                source@,
                nodes@,
                language,
                header@,
                list,
                k as int,
            ).out,
            match trivia {
                Some(t) => {
                    &&& member_run(source@, nodes@, language, header@, list, k as int).trivia
                        == Some(t as int)
                    &&& on_boundary(source@, t as int)
                    &&& exists|a: int|
                        0 <= a < k && t == nodes@[(#[trigger] members@[a]) as int].start_byte
                },
                None => member_run(source@, nodes@, language, header@, list, k as int).trivia is None,
            },
    {
        let m = members[k];
        assert(list[k as int] == m as int);
        let ghost st = member_run(source@, nodes@, language, header@, list, k as int);
        let node = &nodes[m];
        assert(nodes@[m as int] == *node);
        if is_trivia(language, node.kind.as_str()) {
            if trivia.is_none() {
                trivia = Some(node.start_byte);
                assert(nodes@[members@[k as int] as int].start_byte == node.start_byte);
            }
        } else if !is_punctuation(language, node.kind.as_str()) {
            let from: usize = match trivia {
                Some(t) => t,
                None => node.start_byte,
            };
            proof {
                if let Some(t) = trivia {
                    let a = choose|a: int|
                        0 <= a < k && t == nodes@[(#[trigger] members@[a]) as int].start_byte;
                    assert(members@[a] < members@[k as int]);
                    assert(nodes@[members@[a] as int].start_byte <= nodes@[m as int].start_byte);
                }
            }
            push_member_chunks(source, header, from, node.end_byte, chunks);
            proof {
                let more = member_chunks(source@, header@, from as int, node.end_byte as int);
                assert((before + st.out) + more =~= before + (st.out + more));
            }
            trivia = None;
        }
    }
}

// ---------------------------------------------------------------------------------------------
// Items of a file
// ---------------------------------------------------------------------------------------------
/// The chunks of item `i`, with what stands in front of it from byte offset `from` on.
pub open spec fn item_chunks(
    s: Seq<char>,
    nodes: Seq<SyntaxNode>,
    language: Language,
    i: int,
    from: int,
) -> Seq<ChunkText> {
    let to = nodes[i].end_byte as int;
    if to - from <= MAX_CHUNK_CHARS {
        span_chunk(s, from, to)
    } else if container_kind(language, nodes[i].kind@) {
        container_chunks(s, nodes, language, i)
    } else {
        soft_split(byte_slice(s, from, to), line_at(s, from))
    }
}

/// How far the items of a file were gone through.
#[verifier::ext_equal]
pub struct ItemScan {
    /// The imports that wait for the next item: where each starts, with the comments in front of
    /// it, and its node.
    pub imports: Seq<(int, int)>,
    /// Where the comments in front of the next item start, if there are any.
    pub trivia: Option<int>,
    /// The chunks so far.
    pub out: Seq<ChunkText>,
}

/// The chunks of imports that stand alone, one by one.
pub open spec fn import_chunks(
    s: Seq<char>,
    nodes: Seq<SyntaxNode>,
    language: Language,
    imports: Seq<(int, int)>,
) -> Seq<ChunkText>
    decreases imports.len(),
{
    if imports.len() == 0 {
        Seq::<ChunkText>::empty()
    } else {
        import_chunks(s, nodes, language, imports.drop_last()) + item_chunks(
            s,
            nodes,
            language,
            imports.last().1,
            imports.last().0,
        )
    }
}

/// The chunks of item `j`, which starts at byte offset `from`, and of the imports in front of it.
pub open spec fn joined_chunks(
    s: Seq<char>,
    nodes: Seq<SyntaxNode>,
    language: Language,
    imports: Seq<(int, int)>,
    j: int,
    from: int,
) -> Seq<ChunkText> {
    let to = nodes[j].end_byte as int;
    if imports.len() > 0 && to - imports[0].0 <= MAX_CHUNK_CHARS {
        span_chunk(s, imports[0].0, to)
    } else {
        import_chunks(s, nodes, language, imports) + item_chunks(s, nodes, language, j, from)
    }
}

/// Node `j` of a file gone through. Comments stay with what follows them. Imports stay with
/// the item that follows them where one chunk can hold all of them, and else are items themselves.
pub open spec fn item_step(
    s: Seq<char>,
    nodes: Seq<SyntaxNode>,
    language: Language,
    st: ItemScan,
    j: int,
) -> ItemScan {
    let node = nodes[j];
    let kind = node.kind@;
    let from = start_with_trivia(st.trivia, node);
    let to = node.end_byte as int;
    if trivia_kind(language, kind) {
        ItemScan { trivia: Some(from), ..st }
    } else if import_kind(language, kind) {
        ItemScan { imports: st.imports.push((from, j)), trivia: None, out: st.out }
    } else if item_kind(language, kind) {
        let more = joined_chunks(s, nodes, language, st.imports, j, from);
        ItemScan { imports: Seq::<(int, int)>::empty(), trivia: None, out: st.out + more }
    } else {
        ItemScan {
            imports: Seq::<(int, int)>::empty(),
            trivia: None,
            out: st.out + import_chunks(s, nodes, language, st.imports) + span_chunk(
                s,
                node.start_byte as int,
                to,
            ),
        }
    }
}

/// The first `n` of the listed nodes gone through.
pub open spec fn item_run(
    s: Seq<char>,
    nodes: Seq<SyntaxNode>,
    language: Language,
    list: Seq<int>,
    n: int,
) -> ItemScan
    decreases n,
{
    if n <= 0 {
        ItemScan {
            imports: Seq::<(int, int)>::empty(),
            trivia: None,
            out: Seq::<ChunkText>::empty(),
        }
    } else {
        item_step(s, nodes, language, item_run(s, nodes, language, list, n - 1), list[n - 1])
    }
}

/// The chunks of a file, in order: those of its items, and one for a comment at its end.
pub open spec fn file_chunks(
    s: Seq<char>,
    nodes: Seq<SyntaxNode>,
    language: Language,
) -> Seq<ChunkText> {
    let list = children(nodes, 0);
    let st = item_run(s, nodes, language, list, list.len() as int);
    st.out + import_chunks(s, nodes, language, st.imports) + match st.trivia {
        Some(from) => span_chunk(s, from, byte_len(s) as int),
        None => Seq::<ChunkText>::empty(),
    }
}

/// The chunks that a syntax tree of `s` gives. There are none where the tree has an error, or
/// where nothing would be in them.
pub open spec fn tree_chunks(
    s: Seq<char>,
    nodes: Seq<SyntaxNode>,
    language: Language,
) -> Option<Seq<ChunkText>> {
    if nodes[0].has_error || file_chunks(s, nodes, language).len() == 0 {
        None
    } else {
        Some(file_chunks(s, nodes, language))
    }
}

/// Adds the chunks of item `i`, with what stands in front of it.
fn push_item_chunk(
    source: &SourceText,
    nodes: &Vec<SyntaxNode>,
    language: Language,
    i: usize,
    from: usize,
    chunks: &mut Vec<CodeChunk>,
)
    requires
        source.wf(),
        fits(source@, nodes@),
        i < nodes@.len(),
        from <= nodes@[i as int].start_byte,
        on_boundary(source@, from as int),
    ensures
        chunk_texts(final(chunks)@) == chunk_texts(old(chunks)@) + item_chunks(
            source@,
            nodes@,
            language,
            i as int,
            from as int,
        ),
{
    let to = nodes[i].end_byte;
    assert(nodes@[i as int].start_byte <= nodes@[i as int].end_byte);
    if to - from <= MAX_CHUNK_CHARS {
        emit_chunk_from_bytes(source, from, to, chunks);
    } else if is_container(language, nodes[i].kind.as_str()) {
        split_container_by_inner_items(source, nodes, language, i, chunks);
    } else {
        let text = from_chars(source.slice(from, to));
        let base_line = source.line_of(from);
        push_split(text.as_str(), base_line, chunks);
    }
}

/// Imports as pairs of mathematical numbers.
spec fn import_pairs(imports: Seq<(usize, usize)>) -> Seq<(int, int)> {
    imports.map_values(|p: (usize, usize)| (p.0 as int, p.1 as int))
}

/// Whether every import starts on a boundary, no later than its node.
spec fn imports_fit(s: Seq<char>, nodes: Seq<SyntaxNode>, imports: Seq<(usize, usize)>) -> bool {
    forall|a: int|
        0 <= a < imports.len() ==> (#[trigger] imports[a]).1 < nodes.len() && imports[a].0
            <= nodes[imports[a].1 as int].start_byte && on_boundary(s, imports[a].0 as int)
}

/// Adds the chunks of imports that stand alone.
fn push_imports(
    source: &SourceText,
    nodes: &Vec<SyntaxNode>,
    language: Language,
    imports: &Vec<(usize, usize)>,
    chunks: &mut Vec<CodeChunk>,
)
    requires
        source.wf(),
        fits(source@, nodes@),
        imports_fit(source@, nodes@, imports@),
    ensures
        chunk_texts(final(chunks)@) == chunk_texts(old(chunks)@) + import_chunks(
            source@,
            nodes@,
            language,
            import_pairs(imports@),
        ),
{
    let ghost before = chunk_texts(chunks@);
    let ghost list = import_pairs(imports@);
    assert(list.take(0) =~= Seq::<(int, int)>::empty());
    assert(before + Seq::<ChunkText>::empty() =~= before);
    for k in 0..imports.len()
        invariant
            source.wf(),
            fits(source@, nodes@),
            imports_fit(source@, nodes@, imports@),
            list == import_pairs(imports@),
            chunk_texts(chunks@) == before + import_chunks(
                source@,
                nodes@,
                language,
                list.take(k as int),
            ),
    {
        let (from, node) = imports[k];
        assert(imports@[k as int] == (from, node));
        push_item_chunk(source, nodes, language, node, from, chunks);
        proof {
            let now = list.take(k + 1);
            assert(now.drop_last() =~= list.take(k as int));
            assert(now.last() == (from as int, node as int));
            let a = import_chunks(source@, nodes@, language, list.take(k as int));
            let b = item_chunks(source@, nodes@, language, node as int, from as int);
            assert((before + a) + b =~= before + (a + b));
        }
    }
    assert(list.take(list.len() as int) =~= list);
}

proof fn lemma_import_pushed(
    s: Seq<char>,
    nodes: Seq<SyntaxNode>,
    imports: Seq<(usize, usize)>,
    from: usize,
    j: usize,
)
    requires
        imports_fit(s, nodes, imports),
        j < nodes.len(),
        from <= nodes[j as int].start_byte,
        on_boundary(s, from as int),
    ensures
        imports_fit(s, nodes, imports.push((from, j))),
        import_pairs(imports.push((from, j))) == import_pairs(imports).push(
            (from as int, j as int),
        ),
{
    let more = imports.push((from, j));
    assert(import_pairs(more) =~= import_pairs(imports).push((from as int, j as int)));
    assert forall|a: int| 0 <= a < more.len() implies (#[trigger] more[a]).1 < nodes.len()
        && more[a].0 <= nodes[more[a].1 as int].start_byte && on_boundary(
        s,
        more[a].0 as int,
    ) by {
        if a < imports.len() {
            assert(more[a] == imports[a]);
        }
    }
}

/// Adds the chunks of item `j`, which starts at byte offset `from`, and of the imports in front.
fn push_joined(
    source: &SourceText,
    nodes: &Vec<SyntaxNode>,
    language: Language,
    imports: &Vec<(usize, usize)>,
    j: usize,
    from: usize,
    chunks: &mut Vec<CodeChunk>,
)
    requires
        source.wf(),
        fits(source@, nodes@),
        imports_fit(source@, nodes@, imports@),
        j < nodes@.len(),
        from <= nodes@[j as int].start_byte,
        on_boundary(source@, from as int),
        imports@.len() > 0 ==> imports@[0].0 <= nodes@[j as int].start_byte,
    ensures
        chunk_texts(final(chunks)@) == chunk_texts(old(chunks)@) + joined_chunks(
            source@,
            nodes@,
            language,
            import_pairs(imports@),
            j as int,
            from as int,
        ),
{
    let ghost before = chunk_texts(chunks@);
    let to = nodes[j].end_byte;
    assert(nodes@[j as int].start_byte <= nodes@[j as int].end_byte);
    if imports.len() > 0 && to - imports[0].0 <= MAX_CHUNK_CHARS {
        assert(on_boundary(source@, imports@[0].0 as int));
        emit_chunk_from_bytes(source, imports[0].0, to, chunks);
    } else {
        push_imports(source, nodes, language, imports, chunks);
        push_item_chunk(source, nodes, language, j, from, chunks);
        proof {
            let a = import_chunks(source@, nodes@, language, import_pairs(imports@));
            let b = item_chunks(source@, nodes@, language, j as int, from as int);
            assert((before + a) + b =~= before + (a + b));
        }
    }
}

/// The chunks that a syntax tree of `content` gives.
pub fn chunk_tree(content: &str, nodes: &Vec<SyntaxNode>, language: Language) -> (res: Option<
    Vec<CodeChunk>,
>)
    requires
        fits(content@, nodes@),
    ensures
        match res {
            Some(chunks) => tree_chunks(content@, nodes@, language) == Some(chunk_texts(chunks@)),
            None => tree_chunks(content@, nodes@, language) is None,
        },
{
    let source = SourceText::new(content);
    chunk_source(&source, nodes, language)
}

/// Where a byte offset kept while going through a file comes from.
spec fn offset_before(nodes: Seq<SyntaxNode>, members: Seq<usize>, k: int, offset: int) -> bool {
    exists|a: int| 0 <= a < k && offset == nodes[(#[trigger] members[a]) as int].start_byte
}

proof fn lemma_offset_before(nodes: Seq<SyntaxNode>, members: Seq<usize>, k: int, offset: int)
    requires
        forall|i: int, j: int|
            0 <= i <= j < nodes.len() ==> (#[trigger] nodes[i]).start_byte <= (
            #[trigger] nodes[j]).start_byte,
        forall|a: int| 0 <= a < members.len() ==> #[trigger] members[a] < nodes.len(),
        forall|a: int, b: int| 0 <= a < b < members.len() ==> members[a] < members[b],
        0 <= k < members.len(),
        offset_before(nodes, members, k, offset),
    ensures
        offset <= nodes[members[k] as int].start_byte,
        offset_before(nodes, members, k + 1, offset),
{
    let a = choose|a: int|
        0 <= a < k && offset == nodes[(#[trigger] members[a]) as int].start_byte;
    assert(members[a] < members[k]);
    assert(nodes[members[a] as int].start_byte <= nodes[members[k] as int].start_byte);
}

/// The chunks that a syntax tree of `source` gives.
fn chunk_source(source: &SourceText, nodes: &Vec<SyntaxNode>, language: Language) -> (res: Option<
    Vec<CodeChunk>,
>)
    requires
        source.wf(),
        fits(source@, nodes@),
    ensures
        match res {
            Some(chunks) => tree_chunks(source@, nodes@, language) == Some(chunk_texts(chunks@)),
            None => tree_chunks(source@, nodes@, language) is None,
        },
{
    if nodes[0].has_error {
        return None;
    }
    let mut chunks: Vec<CodeChunk> = Vec::new();
    let members = child_positions(nodes, 0);
    let ghost list = positions(members@);
    let mut imports: Vec<(usize, usize)> = Vec::new();
    let mut trivia: Option<usize> = None;
    assert(chunk_texts(chunks@) =~= Seq::<ChunkText>::empty());
    assert(import_pairs(imports@) =~= Seq::<(int, int)>::empty());
    for k in 0..members.len()
        invariant
            source.wf(),
            fits(source@, nodes@),
            list == positions(members@),
            forall|a: int| 0 <= a < members@.len() ==> 0 < #[trigger] members@[a] < nodes@.len(),
            forall|a: int, b: int| 0 <= a < b < members@.len() ==> members@[a] < members@[b],
            chunk_texts(chunks@) == item_run(source@, nodes@, language, list, k as int).out,
            match trivia {
                Some(t) => {
                    &&& item_run(source@, nodes@, language, list, k as int).trivia == Some(t as int)
                    &&& on_boundary(source@, t as int)
                    &&& offset_before(nodes@, members@, k as int, t as int)
                },
                None => item_run(source@, nodes@, language, list, k as int).trivia is None,
            },
            item_run(source@, nodes@, language, list, k as int).imports == import_pairs(imports@),
            imports_fit(source@, nodes@, imports@),
            imports@.len() > 0 ==> offset_before(
                nodes@,
                members@,
                k as int,
                imports@[0].0 as int,
            ),
    {
        let j = members[k];
        assert(list[k as int] == j as int);
        let ghost st = item_run(source@, nodes@, language, list, k as int);
        let node = &nodes[j];
        assert(nodes@[j as int] == *node);
        let to = node.end_byte;
        proof {
            assert(nodes@[members@[k as int] as int].start_byte == node.start_byte);
            assert(offset_before(nodes@, members@, k + 1, node.start_byte as int));
            if let Some(t) = trivia {
                lemma_offset_before(nodes@, members@, k as int, t as int);
            }
            if imports@.len() > 0 {
                lemma_offset_before(nodes@, members@, k as int, imports@[0].0 as int);
            }
        }
        let from: usize = match trivia {
            Some(t) => t,
            None => node.start_byte,
        };
        if is_trivia(language, node.kind.as_str()) {
            trivia = Some(from);
        } else if is_import(language, node.kind.as_str()) {
            proof {
                lemma_import_pushed(source@, nodes@, imports@, from, j);
            }
            imports.push((from, j));
            trivia = None;
        } else if is_item(language, node.kind.as_str()) {
            push_joined(source, nodes, language, &imports, j, from, &mut chunks);
            imports = Vec::new();
            trivia = None;
            assert(import_pairs(imports@) =~= Seq::<(int, int)>::empty());
        } else {
            push_imports(source, nodes, language, &imports, &mut chunks);
            emit_chunk_from_bytes(source, node.start_byte, to, &mut chunks);
            imports = Vec::new();
            trivia = None;
            assert(import_pairs(imports@) =~= Seq::<(int, int)>::empty());
        }
    }
    push_imports(source, nodes, language, &imports, &mut chunks);
    match trivia {
        Some(from) => {
            let size = source.size();
            emit_chunk_from_bytes(source, from, size, &mut chunks);
        },
        None => {
            assert(chunk_texts(chunks@) + Seq::<ChunkText>::empty() =~= chunk_texts(chunks@));
        },
    }
    if chunks.len() == 0 {
        None
    } else {
        Some(chunks)
    }
}

// ---------------------------------------------------------------------------------------------
// Files
// ---------------------------------------------------------------------------------------------
/// The chunks that a parse gives: none where there is no tree, or one whose spans are not
/// spans of the text.
pub open spec fn parse_chunks(
    s: Seq<char>,
    tree: Option<Seq<SyntaxNode>>,
    language: Language,
) -> Option<Seq<ChunkText>> {
    match tree {
        Some(nodes) => if fits(s, nodes) {
            tree_chunks(s, nodes, language)
        } else {
            None
        },
        None => None,
    }
}

/// Cuts a file along its syntax.
pub fn chunk_language(content: &str, language: Language) -> (res: Option<Vec<CodeChunk>>)
    ensures
        match res {
            Some(chunks) => parse_chunks(content@, parsed(language, content@), language) == Some(
                chunk_texts(chunks@),
            ),
            None => parse_chunks(content@, parsed(language, content@), language) is None,
        },
{
    let nodes = match parse_source(language, content) {
        Some(nodes) => nodes,
        None => {
            return None;
        },
    };
    let source = SourceText::new(content);
    if source.holds(&nodes) {
        chunk_source(&source, &nodes, language)
    } else {
        None
    }
}

/// Cuts a Rust file along its syntax.
pub fn chunk_rust(content: &str) -> (res: Option<Vec<CodeChunk>>)
    ensures
        match res {
            Some(chunks) => parse_chunks(
                content@,
                parsed(Language::Rust, content@),
                Language::Rust,
            ) == Some(chunk_texts(chunks@)),
            None => parse_chunks(
                content@,
                parsed(Language::Rust, content@),
                Language::Rust,
            ) is None,
        },
{
    chunk_language(content, Language::Rust)
}

/// Cuts a C# file along its syntax.
pub fn chunk_c_sharp(content: &str) -> (res: Option<Vec<CodeChunk>>)
    ensures
        match res {
            Some(chunks) => parse_chunks(
                content@,
                parsed(Language::CSharp, content@),
                Language::CSharp,
            ) == Some(chunk_texts(chunks@)),
            None => parse_chunks(
                content@,
                parsed(Language::CSharp, content@),
                Language::CSharp,
            ) is None,
        },
{
    chunk_language(content, Language::CSharp)
}

/// Cuts a C or C++ file along its syntax.
pub fn chunk_cpp(content: &str) -> (res: Option<Vec<CodeChunk>>)
    ensures
        match res {
            Some(chunks) => parse_chunks(
                content@,
                parsed(Language::Cpp, content@),
                Language::Cpp,
            ) == Some(chunk_texts(chunks@)),
            None => parse_chunks(content@, parsed(Language::Cpp, content@), Language::Cpp) is None,
        },
{
    chunk_language(content, Language::Cpp)
}

/// The language of the files with a file extension, written in lower case.
pub open spec fn extension_language(ext: Seq<char>) -> Option<Language> {
    if ext == "rs"@ {
        Some(Language::Rust)
    } else if ext == "cs"@ {
        Some(Language::CSharp)
    } else if ext == "c"@ || ext == "cpp"@ || ext == "cc"@ || ext == "cxx"@ || ext == "c++"@ || ext
        == "h"@ || ext == "hpp"@ || ext == "hh"@ || ext == "h++"@ || ext == "hxx"@ {
        Some(Language::Cpp)
    } else {
        None
    }
}

/// The language of the files with a file extension, written in lower case.
pub fn language_of_extension(ext: &str) -> (res: Option<Language>)
    ensures
        res == extension_language(ext@),
{
    if same_text(ext, "rs") {
        Some(Language::Rust)
    } else if same_text(ext, "cs") {
        Some(Language::CSharp)
    } else if same_text(ext, "c") || same_text(ext, "cpp") || same_text(ext, "cc") || same_text(
        ext,
        "cxx",
    ) || same_text(ext, "c++") || same_text(ext, "h") || same_text(ext, "hpp") || same_text(
        ext,
        "hh",
    ) || same_text(ext, "h++") || same_text(ext, "hxx") {
        Some(Language::Cpp)
    } else {
        None
    }
}

/// The chunks of a file in a language, where a grammar for it is at hand; those of a text of
/// no known grammar where there is none, or where the syntax gives no chunks. A blank file is
/// one empty chunk.
pub open spec fn code_chunks(content: Seq<char>, language: Option<Language>) -> Seq<ChunkText> {
    if is_blank(content) {
        seq![ChunkText { content: Seq::<char>::empty(), start_line: 1, end_line: 1 }]
    } else {
        match language {
            Some(l) => match parse_chunks(content, parsed(l, content), l) {
                Some(chunks) => chunks,
                None => fallback(content),
            },
            None => fallback(content),
        }
    }
}

/// Cuts a file in a language into chunks.
pub fn chunk_with(content: &str, language: Option<Language>) -> (res: Vec<CodeChunk>)
    ensures
        chunk_texts(res@) == code_chunks(content@, language),
        res@.len() >= 1,
{
    if blank(to_chars(content).as_slice()) {
        let mut out: Vec<CodeChunk> = Vec::new();
        out.push(CodeChunk { content: String::new(), start_line: 1, end_line: 1 });
        assert(chunk_texts(out@) =~= seq![
            ChunkText { content: Seq::<char>::empty(), start_line: 1, end_line: 1 },
        ]);
        return out;
    }
    let chunks = match language {
        Some(l) => chunk_language(content, l),
        None => None,
    };
    match chunks {
        Some(chunks) => chunks,
        None => chunk_generic_fallback(content),
    }
}

/// Cuts a file into chunks, by the language that its file extension says it is in.
pub fn chunk_code(content: &str, file_ext: &str) -> (res: Vec<CodeChunk>)
    ensures
        chunk_texts(res@) == code_chunks(content@, extension_language(lowercase(file_ext@))),
        res@.len() >= 1,
{
    let ext = file_ext.to_lowercase();
    let language = language_of_extension(ext.as_str());
    chunk_with(content, language)
}

// ---------------------------------------------------------------------------------------------
// What holds of every file
// ---------------------------------------------------------------------------------------------
proof fn lemma_trim_end_char_last(s: Seq<char>, c: char)
    ensures
        trim_end_char(s, c).len() > 0 ==> trim_end_char(s, c).last() != c,
    decreases s.len(),
{
    if s.len() > 0 && s.last() == c {
        lemma_trim_end_char_last(s.drop_last(), c);
    }
}

/// A chunk that is one span of the file ends as many lines behind its start as it has line
/// feeds.
pub proof fn law_span_chunk_lines(s: Seq<char>, from: int, to: int)
    ensures
        forall|c: int|
            0 <= c < span_chunk(s, from, to).len() ==> (#[trigger] span_chunk(
                s,
                from,
                to,
            )[c]).end_line - span_chunk(s, from, to)[c].start_line == count_char(
                span_chunk(s, from, to)[c].content,
                '\n',
            ),
{
    let text = trim_end_char(byte_slice(s, from, to), '\n');
    lemma_trim_end_char_last(byte_slice(s, from, to), '\n');
    lemma_line_count(text);
}

proof fn lemma_trivia_run(
    s: Seq<char>,
    nodes: Seq<SyntaxNode>,
    language: Language,
    list: Seq<int>,
    k: int,
    i: int,
)
    requires
        0 <= k <= i <= list.len(),
        k > 0 ==> !trivia_kind(language, nodes[list[k - 1]].kind@),
        forall|j: int|
            k <= j < i ==> trivia_kind(language, (#[trigger] nodes[list[j]]).kind@),
    ensures
        ({
            let before = item_run(s, nodes, language, list, k);
            let st = item_run(s, nodes, language, list, i);
            &&& st.out == before.out
            &&& st.imports == before.imports
            &&& before.trivia is None
            &&& st.trivia == if k == i {
                None
            } else {
                Some(nodes[list[k]].start_byte as int)
            }
        }),
    decreases i - k,
{
    if k < i {
        lemma_trivia_run(s, nodes, language, list, k, i - 1);
        assert(trivia_kind(language, nodes[list[i - 1]].kind@));
    }
}

/// The comments and attributes in front of an item stand in its chunk: where items `k` up to
/// `i` of a file are such, and no import waits, one chunk holds them and item `i`, as long as
/// it is not too large.
pub proof fn law_comments_stay_attached(
    s: Seq<char>,
    nodes: Seq<SyntaxNode>,
    language: Language,
    list: Seq<int>,
    k: int,
    i: int,
)
    requires
        0 <= k <= i < list.len(),
        k > 0 ==> !trivia_kind(language, nodes[list[k - 1]].kind@),
        forall|j: int|
            k <= j < i ==> trivia_kind(language, (#[trigger] nodes[list[j]]).kind@),
        !trivia_kind(language, nodes[list[i]].kind@),
        !import_kind(language, nodes[list[i]].kind@),
        item_kind(language, nodes[list[i]].kind@),
        item_run(s, nodes, language, list, k).imports.len() == 0,
        nodes[list[i]].end_byte - nodes[list[k]].start_byte <= MAX_CHUNK_CHARS,
    ensures
        item_run(s, nodes, language, list, i + 1).out == item_run(s, nodes, language, list, k).out
            + span_chunk(
            s,
            nodes[list[k]].start_byte as int,
            nodes[list[i]].end_byte as int,
        ),
{
    lemma_trivia_run(s, nodes, language, list, k, i);
    let none = Seq::<ChunkText>::empty();
    let chunk = span_chunk(s, nodes[list[k]].start_byte as int, nodes[list[i]].end_byte as int);
    assert(none + chunk =~= chunk);
}

/// A member of a container that is split carries the header of the container: its chunk is
/// the header, a mark of what was left out, and the member, unless that is too large.
pub proof fn law_member_keeps_header(s: Seq<char>, header: Seq<char>, from: int, to: int)
    requires
        byte_len(header + elision() + byte_slice(s, from, to)) <= MAX_CHUNK_CHARS,
    ensures
        member_chunks(s, header, from, to).len() == 1,
        has_prefix(member_chunks(s, header, from, to)[0].content, header),
        member_chunks(s, header, from, to)[0].content == header + elision() + byte_slice(
            s,
            from,
            to,
        ),
{
    let content = header + elision() + byte_slice(s, from, to);
    assert(content.take(header.len() as int) =~= header);
}

/// A file with a syntax error is cut like a text of no known grammar.
pub proof fn law_syntax_error_falls_back(
    content: Seq<char>,
    language: Language,
    nodes: Seq<SyntaxNode>,
)
    requires
        parsed(language, content) == Some(nodes),
        nodes[0].has_error,
        !is_blank(content),
    ensures
        code_chunks(content, Some(language)) == fallback(content),
{
}

/// Every file gives a chunk.
pub proof fn law_some_chunk(content: Seq<char>, language: Option<Language>)
    ensures
        code_chunks(content, language).len() >= 1,
{
    law_fallback_keeps_lines(content);
}

/// An extension may be lower-cased first: that gives the same chunks, wherever a text in lower case
/// is its own lower case.
pub proof fn law_extension_may_be_lowered(content: Seq<char>, ext: Seq<char>)
    requires
        lowercase(lowercase(ext)) == lowercase(ext),
    ensures
        code_chunks(content, extension_language(lowercase(lowercase(ext)))) == code_chunks(
            content,
            extension_language(lowercase(ext)),
        ),
{
}

/// How an ASCII extension is written does not matter: in capitals, in small letters or mixed, it
/// gives the same chunks.
pub proof fn law_extension_in_any_case(content: Seq<char>, ext: Seq<char>, other: Seq<char>)
    requires
        is_ascii_text(ext),
        is_ascii_text(other),
        ascii_lower_all(ext) == ascii_lower_all(other),
    ensures
        code_chunks(content, extension_language(lowercase(ext))) == code_chunks(
            content,
            extension_language(lowercase(other)),
        ),
        code_chunks(content, extension_language(lowercase(lowercase(ext)))) == code_chunks(
            content,
            extension_language(lowercase(ext)),
        ),
{
    lemma_lowercase_twice(ext);
    law_extension_may_be_lowered(content, ext);
}

/// How many line feeds a text has.
pub open spec fn line_feeds(s: Seq<char>) -> nat {
    s.filter(|c: char| c == '\n').len()
}

/// Whether the characters from `p` up to `q` of a text are whole lines of it, up to the line end of
/// the last.
pub open spec fn whole_lines_between(s: Seq<char>, p: int, q: int) -> bool {
    &&& p == 0 || s[p - 1] == '\n'
    &&& q == s.len() || s[q - 1] == '\n' || (s[q] == '\n' && s[q - 1] != '\r')
}

proof fn lemma_slice_at(s: Seq<char>, p: int, q: int)
    requires
        0 <= p <= q <= s.len(),
    ensures
        byte_slice(s, byte_len(s.take(p)) as int, byte_len(s.take(q)) as int) == s.subrange(p, q),
        line_at(s, byte_len(s.take(p)) as int) == 1 + line_feeds(s.take(p)),
        p < q ==> byte_len(s.take(p)) < byte_len(s.take(q)),
{
    assert(at_byte(s, byte_len(s.take(p)) as int, p));
    assert(at_byte(s, byte_len(s.take(q)) as int, q));
    lemma_at_byte_unique(s, byte_len(s.take(p)) as int, p);
    lemma_at_byte_unique(s, byte_len(s.take(q)) as int, q);
    lemma_count_is_filter(s.take(p), '\n');
    if p < q {
        lemma_byte_len_monotonic(s, p, q);
    }
}

/// A run of lines of a part of a file is a run of lines of the file, where the part is made of whole
/// lines.
proof fn lemma_run_of_file_lines(s: Seq<char>, p: int, q: int, from: int, to: int)
    requires
        0 <= p <= q <= s.len(),
        whole_lines_between(s, p, q),
        0 <= from <= to <= lines(s.subrange(p, q)).len(),
    ensures
        ({
            let n = line_feeds(s.take(p)) as int;
            &&& n + to <= lines(s).len() || from == to
            &&& from < to ==> lines(s).subrange(n + from, n + to) == lines(
                s.subrange(p, q),
            ).subrange(from, to)
        }),
{
    let a = s.take(p);
    let t = s.subrange(p, q);
    let b = s.skip(q);
    let n = line_feeds(a) as int;
    assert(a + t + b =~= s);
    lemma_count_is_filter(a, '\n');
    if from < to {
        assert(t.len() > 0) by {
            if t.len() == 0 {
                lemma_line_count(t);
            }
        }
        assert forall|k: int| 0 <= k < to implies n + k < lines(s).len() && #[trigger] lines(s)[n
            + k] == lines(t)[k] by {
            lemma_lines_within(a, t, b, k);
        }
        assert(lines(s)[n + (to - 1)] == lines(t)[to - 1]);
        assert forall|k: int| 0 <= k < to - from implies #[trigger] lines(s).subrange(
            n + from,
            n + to,
        )[k] == lines(t).subrange(from, to)[k] by {
            assert(lines(s)[n + (from + k)] == lines(t)[from + k]);
        }
        assert(lines(s).subrange(n + from, n + to) =~= lines(t).subrange(from, to));
    }
}

/// An item that is too large for one chunk, and that has no members to split it by, keeps the line
/// numbers of the file: its first line is numbered one more than there are line feeds in front of it,
/// and each chunk holds just the lines that its numbers say. Where the item is made of whole lines,
/// these are the lines of the file with these numbers.
pub proof fn law_large_item_keeps_line_numbers(
    s: Seq<char>,
    nodes: Seq<SyntaxNode>,
    language: Language,
    i: int,
    p: int,
    q: int,
    c: int,
)
    requires
        0 <= p <= q <= s.len(),
        nodes[i].end_byte == byte_len(s.take(q)),
        byte_len(s.take(q)) - byte_len(s.take(p)) > 3500,
        !container_kind(language, nodes[i].kind@),
        0 <= c < item_chunks(s, nodes, language, i, byte_len(s.take(p)) as int).len(),
    ensures
        ({
            let chunk = item_chunks(s, nodes, language, i, byte_len(s.take(p)) as int)[c];
            let first = 1 + line_feeds(s.take(p));
            let ls = lines(s.subrange(p, q));
            &&& first <= chunk.start_line <= chunk.end_line < first + ls.len()
            &&& chunk.content == join(
                ls.subrange(chunk.start_line - first, chunk.end_line - first + 1),
                "\n"@,
            )
            &&& whole_lines_between(s, p, q) ==> chunk.content == join(
                lines(s).subrange(chunk.start_line - 1, chunk.end_line),
                "\n"@,
            )
        }),
{
    let text = s.subrange(p, q);
    let first = 1 + line_feeds(s.take(p));
    lemma_slice_at(s, p, q);
    law_soft_split_keeps_lines(text, first as int);
    let chunk = soft_split(text, first as int)[c];
    assert(spans_its_lines(lines(text), first as int, chunk));
    if whole_lines_between(s, p, q) {
        lemma_run_of_file_lines(s, p, q, chunk.start_line - first, chunk.end_line - first + 1);
    }
}

/// An item that is too large for one chunk, and that has no members to split it by, loses no line:
/// each line of it that is not blank stands in a chunk that says so, the first line among them.
pub proof fn law_large_item_loses_no_line(
    s: Seq<char>,
    nodes: Seq<SyntaxNode>,
    language: Language,
    i: int,
    p: int,
    q: int,
    k: int,
) -> (c: int)
    requires
        0 <= p <= q <= s.len(),
        nodes[i].end_byte == byte_len(s.take(q)),
        byte_len(s.take(q)) - byte_len(s.take(p)) > 3500,
        !container_kind(language, nodes[i].kind@),
        0 <= k < lines(s.subrange(p, q)).len(),
        exists|x: int|
            0 <= x < lines(s.subrange(p, q))[k].len() && !is_ws(
                #[trigger] lines(s.subrange(p, q))[k][x],
            ),
    ensures
        0 <= c < item_chunks(s, nodes, language, i, byte_len(s.take(p)) as int).len(),
        item_chunks(s, nodes, language, i, byte_len(s.take(p)) as int)[c].start_line <= 1
            + line_feeds(s.take(p)) + k <= item_chunks(
            s,
            nodes,
            language,
            i,
            byte_len(s.take(p)) as int,
        )[c].end_line,
        k == 0 ==> item_chunks(s, nodes, language, i, byte_len(s.take(p)) as int)[c].start_line == 1
            + line_feeds(s.take(p)),
{
    let text = s.subrange(p, q);
    let first = (1 + line_feeds(s.take(p))) as int;
    lemma_slice_at(s, p, q);
    law_soft_split_keeps_lines(text, first);
    assert(!is_blank(lines(text)[k]));
    let chunks = soft_split(text, first);
    assert(some_chunk_has_line(chunks, first + k));
    let c = choose|c: int|
        0 <= c < chunks.len() && (#[trigger] chunks[c]).start_line <= first + k
            <= chunks[c].end_line;
    assert(spans_its_lines(lines(text), first, chunks[c]));
    c
}

proof fn lemma_trimmed_feeds(s: Seq<char>)
    ensures
        trim_end_char(s, '\n').len() <= s.len(),
        s.take(trim_end_char(s, '\n').len() as int) == trim_end_char(s, '\n'),
        forall|k: int| trim_end_char(s, '\n').len() <= k < s.len() ==> #[trigger] s[k] == '\n',
        trim_end_char(s, '\n').len() > 0 ==> trim_end_char(s, '\n').last() != '\n',
    decreases s.len(),
{
    if s.len() > 0 && s.last() == '\n' {
        let head = s.drop_last();
        lemma_trimmed_feeds(head);
        let n = trim_end_char(s, '\n').len() as int;
        assert(s.take(n) =~= head.take(n));
        assert forall|k: int| n <= k < s.len() implies #[trigger] s[k] == '\n' by {
            if k < s.len() - 1 {
                assert(head[k] == '\n');
            }
        }
    } else {
        assert(s.take(s.len() as int) =~= s);
    }
}

/// A chunk that is one span of the file holds just the text of that span, but for the line feeds at
/// its end, and carries the numbers of the lines of the file that it stands on. A blank span gives
/// none.
pub proof fn law_span_chunk_is_its_text(s: Seq<char>, p: int, q: int)
    requires
        0 <= p <= q <= s.len(),
    ensures
        ({
            let chunks = span_chunk(
                s,
                byte_len(s.take(p)) as int,
                byte_len(s.take(q)) as int,
            );
            &&& (exists|k: int| p <= k < q && !is_ws(#[trigger] s[k])) <==> chunks.len() == 1
            &&& chunks.len() <= 1
            &&& chunks.len() == 1 ==> {
                let chunk = chunks[0];
                let end = p + chunk.content.len();
                &&& end <= q
                &&& chunk.content == s.subrange(p, end)
                &&& chunk.content.last() != '\n'
                &&& forall|k: int| end <= k < q ==> #[trigger] s[k] == '\n'
                &&& chunk.start_line == 1 + line_feeds(s.take(p))
                &&& chunk.end_line == chunk.start_line + line_feeds(chunk.content)
            }
        }),
{
    let from = byte_len(s.take(p)) as int;
    let to = byte_len(s.take(q)) as int;
    let span = s.subrange(p, q);
    lemma_slice_at(s, p, q);
    lemma_trimmed_feeds(span);
    let text = trim_end_char(span, '\n');
    let n = text.len() as int;
    assert(s.subrange(p, p + n) =~= span.take(n));
    assert forall|k: int| p + n <= k < q implies #[trigger] s[k] == '\n' by {
        assert(span[k - p] == '\n');
    }
    lemma_line_count(text);
    lemma_count_is_filter(text, '\n');
    if exists|k: int| p <= k < q && !is_ws(#[trigger] s[k]) {
        let k = choose|k: int| p <= k < q && !is_ws(#[trigger] s[k]);
        assert(k < p + n);
        assert(text[k - p] == s[k]);
        assert(!is_blank(text));
    }
    if !is_blank(text) {
        let k = choose|k: int| 0 <= k < text.len() && !is_ws(#[trigger] text[k]);
        assert(s[p + k] == text[k]);
    }
}

/// An item that one chunk can hold is one chunk: that of the span from where it starts, with what
/// stands in front of it, to its end.
pub proof fn law_small_item_is_one_span(
    s: Seq<char>,
    nodes: Seq<SyntaxNode>,
    language: Language,
    i: int,
    from: int,
)
    requires
        nodes[i].end_byte - from <= 3500,
    ensures
        item_chunks(s, nodes, language, i, from) == span_chunk(
            s,
            from,
            nodes[i].end_byte as int,
        ),
{
}

proof fn lemma_out_grows(
    s: Seq<char>,
    nodes: Seq<SyntaxNode>,
    language: Language,
    list: Seq<int>,
    m: int,
    n: int,
)
    requires
        0 <= m <= n <= list.len(),
    ensures
        ({
            let before = item_run(s, nodes, language, list, m).out;
            let after = item_run(s, nodes, language, list, n).out;
            &&& before.len() <= after.len()
            &&& after.take(before.len() as int) == before
        }),
    decreases n - m,
{
    let before = item_run(s, nodes, language, list, m).out;
    if m < n {
        lemma_out_grows(s, nodes, language, list, m, n - 1);
        let mid = item_run(s, nodes, language, list, n - 1).out;
        let after = item_run(s, nodes, language, list, n).out;
        assert(after.take(before.len() as int) =~= mid.take(before.len() as int));
    } else {
        assert(before.take(before.len() as int) =~= before);
    }
}

/// Whether the nodes of a file from number `k` of a list up to number `i` are comments and the like,
/// in front of number `i`, which is none, and nothing of the kind is in front of them.
pub open spec fn leads_up_to(
    nodes: Seq<SyntaxNode>,
    language: Language,
    list: Seq<int>,
    k: int,
    i: int,
) -> bool {
    &&& 0 <= k <= i < list.len()
    &&& k > 0 ==> !trivia_kind(language, nodes[list[k - 1]].kind@)
    &&& forall|j: int| k <= j < i ==> trivia_kind(language, (#[trigger] nodes[list[j]]).kind@)
    &&& !trivia_kind(language, nodes[list[i]].kind@)
}

/// An item adds its chunks, with what leads up to it.
proof fn lemma_item_pushed(
    s: Seq<char>,
    nodes: Seq<SyntaxNode>,
    language: Language,
    list: Seq<int>,
    k: int,
    i: int,
)
    requires
        leads_up_to(nodes, language, list, k, i),
        item_kind(language, nodes[list[i]].kind@),
        !import_kind(language, nodes[list[i]].kind@),
        item_run(s, nodes, language, list, k).imports.len() == 0,
    ensures
        item_run(s, nodes, language, list, i + 1).out == item_run(s, nodes, language, list, i).out
            + item_chunks(s, nodes, language, list[i], nodes[list[k]].start_byte as int),
{
    lemma_trivia_run(s, nodes, language, list, k, i);
    let chunks = item_chunks(s, nodes, language, list[i], nodes[list[k]].start_byte as int);
    assert(Seq::<ChunkText>::empty() + chunks =~= chunks);
}

/// The chunks of the first items of a file are the first chunks of the file.
proof fn lemma_out_is_in_the_file_chunks(
    s: Seq<char>,
    nodes: Seq<SyntaxNode>,
    language: Language,
    m: int,
    at: int,
)
    requires
        0 <= m <= children(nodes, 0).len(),
        !nodes[0].has_error,
        0 <= at < item_run(s, nodes, language, children(nodes, 0), m).out.len(),
    ensures
        tree_chunks(s, nodes, language) is Some,
        at < tree_chunks(s, nodes, language)->Some_0.len(),
        tree_chunks(s, nodes, language)->Some_0[at] == item_run(
            s,
            nodes,
            language,
            children(nodes, 0),
            m,
        ).out[at],
{
    let list = children(nodes, 0);
    let n = list.len() as int;
    lemma_out_grows(s, nodes, language, list, m, n);
    let now = item_run(s, nodes, language, list, m).out;
    let all = item_run(s, nodes, language, list, n).out;
    assert(all.take(now.len() as int)[at] == now[at]);
    assert(file_chunks(s, nodes, language)[at] == all[at]);
}

/// Every item of a file is in the chunks of the file, with the comments in front of it: each chunk of
/// an item stands among them, whatever comes before and behind it.
pub proof fn law_items_are_in_the_file_chunks(
    s: Seq<char>,
    nodes: Seq<SyntaxNode>,
    language: Language,
    k: int,
    i: int,
    c: int,
) -> (at: int)
    requires
        leads_up_to(nodes, language, children(nodes, 0), k, i),
        item_kind(language, nodes[children(nodes, 0)[i]].kind@),
        !import_kind(language, nodes[children(nodes, 0)[i]].kind@),
        item_run(s, nodes, language, children(nodes, 0), k).imports.len() == 0,
        !nodes[0].has_error,
        0 <= c < item_chunks(
            s,
            nodes,
            language,
            children(nodes, 0)[i],
            nodes[children(nodes, 0)[k]].start_byte as int,
        ).len(),
    ensures
        tree_chunks(s, nodes, language) is Some,
        0 <= at < tree_chunks(s, nodes, language)->Some_0.len(),
        tree_chunks(s, nodes, language)->Some_0[at] == item_chunks(
            s,
            nodes,
            language,
            children(nodes, 0)[i],
            nodes[children(nodes, 0)[k]].start_byte as int,
        )[c],
{
    let list = children(nodes, 0);
    let chunks = item_chunks(s, nodes, language, list[i], nodes[list[k]].start_byte as int);
    let before = item_run(s, nodes, language, list, i).out;
    lemma_item_pushed(s, nodes, language, list, k, i);
    let at = before.len() + c;
    assert((before + chunks)[at] == chunks[c]);
    lemma_out_is_in_the_file_chunks(s, nodes, language, i + 1, at);
    at
}

/// What stands in a file outside of its items is a chunk of its own, with its own text and its own
/// line numbers.
pub proof fn law_other_nodes_are_in_the_file_chunks(
    s: Seq<char>,
    nodes: Seq<SyntaxNode>,
    language: Language,
    i: int,
) -> (at: int)
    requires
        0 <= i < children(nodes, 0).len(),
        !trivia_kind(language, nodes[children(nodes, 0)[i]].kind@),
        !item_kind(language, nodes[children(nodes, 0)[i]].kind@),
        !import_kind(language, nodes[children(nodes, 0)[i]].kind@),
        !nodes[0].has_error,
        span_chunk(
            s,
            nodes[children(nodes, 0)[i]].start_byte as int,
            nodes[children(nodes, 0)[i]].end_byte as int,
        ).len() == 1,
    ensures
        tree_chunks(s, nodes, language) is Some,
        0 <= at < tree_chunks(s, nodes, language)->Some_0.len(),
        tree_chunks(s, nodes, language)->Some_0[at] == span_chunk(
            s,
            nodes[children(nodes, 0)[i]].start_byte as int,
            nodes[children(nodes, 0)[i]].end_byte as int,
        )[0],
{
    let now = item_run(s, nodes, language, children(nodes, 0), i + 1);
    let at = now.out.len() - 1;
    lemma_out_is_in_the_file_chunks(s, nodes, language, i + 1, at);
    at
}

/// A comment behind everything else is the last chunk of its file, down to the end of the file.
pub proof fn law_last_comment_is_the_last_chunk(
    s: Seq<char>,
    nodes: Seq<SyntaxNode>,
    language: Language,
    k: int,
)
    requires
        0 <= k < children(nodes, 0).len(),
        k > 0 ==> !trivia_kind(language, nodes[children(nodes, 0)[k - 1]].kind@),
        forall|j: int|
            k <= j < children(nodes, 0).len() ==> trivia_kind(
                language,
                nodes[#[trigger] children(nodes, 0)[j]].kind@,
            ),
        !nodes[0].has_error,
        span_chunk(
            s,
            nodes[children(nodes, 0)[k]].start_byte as int,
            byte_len(s) as int,
        ).len() == 1,
    ensures
        tree_chunks(s, nodes, language) is Some,
        tree_chunks(s, nodes, language)->Some_0.last() == span_chunk(
            s,
            nodes[children(nodes, 0)[k]].start_byte as int,
            byte_len(s) as int,
        )[0],
{
    let list = children(nodes, 0);
    assert forall|j: int| k <= j < list.len() implies trivia_kind(
        language,
        (#[trigger] nodes[list[j]]).kind@,
    ) by {
        assert(trivia_kind(language, nodes[children(nodes, 0)[j]].kind@));
    }
    lemma_trivia_run(s, nodes, language, list, k, list.len() as int);
}

/// Imports stay with the item behind them: where one chunk can hold the imports a file begins with
/// and the item that follows, that chunk is the span from the first import to the end of the item.
pub proof fn law_imports_stay_with_their_item(
    s: Seq<char>,
    nodes: Seq<SyntaxNode>,
    language: Language,
    list: Seq<int>,
    m: int,
)
    requires
        0 < m < list.len(),
        forall|j: int|
            0 <= j < m ==> import_kind(language, (#[trigger] nodes[list[j]]).kind@) && !trivia_kind(
                language,
                nodes[list[j]].kind@,
            ),
        item_kind(language, nodes[list[m]].kind@),
        !import_kind(language, nodes[list[m]].kind@),
        !trivia_kind(language, nodes[list[m]].kind@),
        nodes[list[m]].end_byte - nodes[list[0]].start_byte <= 3500,
    ensures
        item_run(s, nodes, language, list, m + 1).out == span_chunk(
            s,
            nodes[list[0]].start_byte as int,
            nodes[list[m]].end_byte as int,
        ),
{
    lemma_imports_wait(s, nodes, language, list, m);
    let chunk = span_chunk(s, nodes[list[0]].start_byte as int, nodes[list[m]].end_byte as int);
    assert(Seq::<ChunkText>::empty() + chunk =~= chunk);
}

proof fn lemma_imports_wait(
    s: Seq<char>,
    nodes: Seq<SyntaxNode>,
    language: Language,
    list: Seq<int>,
    n: int,
)
    requires
        0 <= n <= list.len(),
        forall|j: int|
            0 <= j < n ==> import_kind(language, (#[trigger] nodes[list[j]]).kind@) && !trivia_kind(
                language,
                nodes[list[j]].kind@,
            ),
    ensures
        ({
            let st = item_run(s, nodes, language, list, n);
            &&& st.out.len() == 0
            &&& st.trivia is None
            &&& st.imports.len() == n
            &&& n > 0 ==> st.imports[0] == (nodes[list[0]].start_byte as int, list[0])
        }),
    decreases n,
{
    if n > 0 {
        lemma_imports_wait(s, nodes, language, list, n - 1);
        assert(import_kind(language, nodes[list[n - 1]].kind@));
    }
}

/// A member of a container that is split makes a chunk of the container's header, a mark of what is
/// left out, and the member, on the lines of the file that the member stands on.
pub proof fn law_member_keeps_its_lines(s: Seq<char>, header: Seq<char>, p: int, q: int)
    requires
        0 <= p <= q <= s.len(),
        byte_len(header + "\n    // ...\n"@ + s.subrange(p, q)) <= 3500,
    ensures
        member_chunks(
            s,
            header,
            byte_len(s.take(p)) as int,
            byte_len(s.take(q)) as int,
        ) == seq![
            ChunkText {
                content: header + "\n    // ...\n"@ + s.subrange(p, q),
                start_line: (1 + line_feeds(s.take(p))) as int,
                end_line: 1 + line_feeds(s.take(p)) + if lines(s.subrange(p, q)).len() > 0 {
                    lines(s.subrange(p, q)).len() - 1
                } else {
                    0
                },
            },
        ],
{
    lemma_slice_at(s, p, q);
}

/// A member that is too large even so is split by size, header and all, and its chunks are numbered
/// from the line of the file that the member starts on.
pub proof fn law_large_member_is_numbered_from_its_start(
    s: Seq<char>,
    header: Seq<char>,
    p: int,
    q: int,
    c: int,
)
    requires
        0 <= p <= q <= s.len(),
        byte_len(header + "\n    // ...\n"@ + s.subrange(p, q)) > 3500,
        0 <= c < member_chunks(
            s,
            header,
            byte_len(s.take(p)) as int,
            byte_len(s.take(q)) as int,
        ).len(),
    ensures
        ({
            let chunk = member_chunks(
                s,
                header,
                byte_len(s.take(p)) as int,
                byte_len(s.take(q)) as int,
            )[c];
            let first = 1 + line_feeds(s.take(p));
            let ls = lines(header + "\n    // ...\n"@ + s.subrange(p, q));
            &&& first <= chunk.start_line <= chunk.end_line < first + ls.len()
            &&& chunk.content == join(
                ls.subrange(chunk.start_line - first, chunk.end_line - first + 1),
                "\n"@,
            )
        }),
{
    lemma_slice_at(s, p, q);
    let text = header + "\n    // ...\n"@ + s.subrange(p, q);
    let first = (1 + line_feeds(s.take(p))) as int;
    law_soft_split_keeps_lines(text, first);
    assert(spans_its_lines(lines(text), first, soft_split(text, first)[c]));
}

proof fn lemma_member_trivia(
    s: Seq<char>,
    nodes: Seq<SyntaxNode>,
    language: Language,
    header: Seq<char>,
    list: Seq<int>,
    k: int,
    i: int,
)
    requires
        0 <= k <= i <= list.len(),
        member_run(s, nodes, language, header, list, k).trivia is None,
        forall|j: int| k <= j < i ==> trivia_kind(language, (#[trigger] nodes[list[j]]).kind@),
    ensures
        member_run(s, nodes, language, header, list, i).out == member_run(
            s,
            nodes,
            language,
            header,
            list,
            k,
        ).out,
        member_run(s, nodes, language, header, list, i).trivia == if k == i {
            None
        } else {
            Some(nodes[list[k]].start_byte as int)
        },
    decreases i - k,
{
    if k < i {
        lemma_member_trivia(s, nodes, language, header, list, k, i - 1);
        assert(trivia_kind(language, nodes[list[i - 1]].kind@));
    }
}

proof fn lemma_member_out_grows(
    s: Seq<char>,
    nodes: Seq<SyntaxNode>,
    language: Language,
    header: Seq<char>,
    list: Seq<int>,
    m: int,
    n: int,
)
    requires
        0 <= m <= n <= list.len(),
    ensures
        ({
            let before = member_run(s, nodes, language, header, list, m).out;
            let after = member_run(s, nodes, language, header, list, n).out;
            &&& before.len() <= after.len()
            &&& after.take(before.len() as int) == before
        }),
    decreases n - m,
{
    let before = member_run(s, nodes, language, header, list, m).out;
    if m < n {
        lemma_member_out_grows(s, nodes, language, header, list, m, n - 1);
        let mid = member_run(s, nodes, language, header, list, n - 1).out;
        let after = member_run(s, nodes, language, header, list, n).out;
        assert(after.take(before.len() as int) =~= mid.take(before.len() as int));
    } else {
        assert(before.take(before.len() as int) =~= before);
    }
}

/// Every member of a container that is too large for one chunk is in its chunks, with the comments
/// in front of it and behind the header of the container: what stands from the start of the
/// container up to its first body, without the blanks at its end.
pub proof fn law_members_are_in_the_container_chunks(
    s: Seq<char>,
    nodes: Seq<SyntaxNode>,
    language: Language,
    node: int,
    body: int,
    k: int,
    i: int,
    c: int,
) -> (at: int)
    requires
        first_body(nodes, children(nodes, node), language) == Some(body),
        leads_up_to(nodes, language, children(nodes, body), k, i),
        k > 0 ==> !punctuation_kind(language, nodes[children(nodes, body)[k - 1]].kind@),
        !punctuation_kind(language, nodes[children(nodes, body)[i]].kind@),
        nodes[node].end_byte - nodes[node].start_byte > 3500,
        container_kind(language, nodes[node].kind@),
        0 <= c < member_chunks(
            s,
            trim_end(
                byte_slice(s, nodes[node].start_byte as int, nodes[body].start_byte as int),
            ),
            nodes[children(nodes, body)[k]].start_byte as int,
            nodes[children(nodes, body)[i]].end_byte as int,
        ).len(),
    ensures
        0 <= at < item_chunks(
            s,
            nodes,
            language,
            node,
            nodes[node].start_byte as int,
        ).len(),
        item_chunks(s, nodes, language, node, nodes[node].start_byte as int)[at] == member_chunks(
            s,
            trim_end(
                byte_slice(s, nodes[node].start_byte as int, nodes[body].start_byte as int),
            ),
            nodes[children(nodes, body)[k]].start_byte as int,
            nodes[children(nodes, body)[i]].end_byte as int,
        )[c],
{
    let header = trim_end(
        byte_slice(s, nodes[node].start_byte as int, nodes[body].start_byte as int),
    );
    let list = children(nodes, body);
    let n = list.len() as int;
    assert(member_run(s, nodes, language, header, list, k).trivia is None);
    lemma_member_trivia(s, nodes, language, header, list, k, i);
    let before = member_run(s, nodes, language, header, list, i);
    let now = member_run(s, nodes, language, header, list, i + 1);
    lemma_member_out_grows(s, nodes, language, header, list, i + 1, n);
    let at = before.out.len() + c;
    assert(member_run(s, nodes, language, header, list, n).out.take(now.out.len() as int)[at]
        == now.out[at]);
    at
}

proof fn lemma_import_stands_alone(
    s: Seq<char>,
    nodes: Seq<SyntaxNode>,
    language: Language,
    imports: Seq<(int, int)>,
    j: int,
    c: int,
) -> (at: int)
    requires
        0 <= j < imports.len(),
        0 <= c < item_chunks(s, nodes, language, imports[j].1, imports[j].0).len(),
    ensures
        0 <= at < import_chunks(s, nodes, language, imports).len(),
        import_chunks(s, nodes, language, imports)[at] == item_chunks(
            s,
            nodes,
            language,
            imports[j].1,
            imports[j].0,
        )[c],
    decreases imports.len(),
{
    let head = imports.drop_last();
    let before = import_chunks(s, nodes, language, head);
    if j == imports.len() - 1 {
        before.len() + c
    } else {
        assert(head[j] == imports[j]);
        lemma_import_stands_alone(s, nodes, language, head, j, c)
    }
}

proof fn lemma_imports_listed(
    s: Seq<char>,
    nodes: Seq<SyntaxNode>,
    language: Language,
    list: Seq<int>,
    n: int,
    j: int,
)
    requires
        0 <= j < n <= list.len(),
        forall|j: int|
            0 <= j < n ==> import_kind(language, (#[trigger] nodes[list[j]]).kind@) && !trivia_kind(
                language,
                nodes[list[j]].kind@,
            ),
    ensures
        item_run(s, nodes, language, list, n).imports.len() == n,
        item_run(s, nodes, language, list, n).imports[j] == (
            nodes[list[j]].start_byte as int,
            list[j],
        ),
    decreases n,
{
    lemma_imports_wait(s, nodes, language, list, n - 1);
    assert(import_kind(language, nodes[list[n - 1]].kind@));
    if j < n - 1 {
        lemma_imports_listed(s, nodes, language, list, n - 1, j);
    }
}

/// Imports that one chunk cannot hold together with the item behind them are items themselves: each has
/// its own chunk, and so has the item.
pub proof fn law_imports_that_do_not_fit_stand_alone(
    s: Seq<char>,
    nodes: Seq<SyntaxNode>,
    language: Language,
    list: Seq<int>,
    m: int,
    j: int,
    c: int,
) -> (at: int)
    requires
        0 < m < list.len(),
        forall|j: int|
            0 <= j < m ==> import_kind(language, (#[trigger] nodes[list[j]]).kind@) && !trivia_kind(
                language,
                nodes[list[j]].kind@,
            ),
        item_kind(language, nodes[list[m]].kind@),
        !import_kind(language, nodes[list[m]].kind@),
        !trivia_kind(language, nodes[list[m]].kind@),
        nodes[list[m]].end_byte - nodes[list[0]].start_byte > 3500,
        0 <= j <= m,
        0 <= c < item_chunks(
            s,
            nodes,
            language,
            list[j],
            nodes[list[j]].start_byte as int,
        ).len(),
    ensures
        0 <= at < item_run(s, nodes, language, list, m + 1).out.len(),
        item_run(s, nodes, language, list, m + 1).out[at] == item_chunks(
            s,
            nodes,
            language,
            list[j],
            nodes[list[j]].start_byte as int,
        )[c],
{
    lemma_imports_wait(s, nodes, language, list, m);
    let st = item_run(s, nodes, language, list, m);
    let alone = import_chunks(s, nodes, language, st.imports);
    if j < m {
        lemma_imports_listed(s, nodes, language, list, m, j);
        lemma_import_stands_alone(s, nodes, language, st.imports, j, c)
    } else {
        alone.len() + c
    }
}

/// Imports with nothing behind them are items themselves.
pub proof fn law_imports_alone_are_items(
    s: Seq<char>,
    nodes: Seq<SyntaxNode>,
    language: Language,
    j: int,
    c: int,
) -> (at: int)
    requires
        forall|j: int|
            0 <= j < children(nodes, 0).len() ==> import_kind(
                language,
                (#[trigger] nodes[children(nodes, 0)[j]]).kind@,
            ) && !trivia_kind(language, nodes[children(nodes, 0)[j]].kind@),
        !nodes[0].has_error,
        0 <= j < children(nodes, 0).len(),
        0 <= c < item_chunks(
            s,
            nodes,
            language,
            children(nodes, 0)[j],
            nodes[children(nodes, 0)[j]].start_byte as int,
        ).len(),
    ensures
        tree_chunks(s, nodes, language) is Some,
        0 <= at < tree_chunks(s, nodes, language)->Some_0.len(),
        tree_chunks(s, nodes, language)->Some_0[at] == item_chunks(
            s,
            nodes,
            language,
            children(nodes, 0)[j],
            nodes[children(nodes, 0)[j]].start_byte as int,
        )[c],
{
    let list = children(nodes, 0);
    let n = list.len() as int;
    lemma_imports_wait(s, nodes, language, list, n);
    lemma_imports_listed(s, nodes, language, list, n, j);
    let st = item_run(s, nodes, language, list, n);
    let at = lemma_import_stands_alone(s, nodes, language, st.imports, j, c);
    let alone = import_chunks(s, nodes, language, st.imports);
    assert(file_chunks(s, nodes, language) =~= alone);
    at
}

/// A container that is too large, and that has no list of members, is one chunk all the same: the whole
/// of it.
pub proof fn law_container_without_members_is_one_span(
    s: Seq<char>,
    nodes: Seq<SyntaxNode>,
    language: Language,
    i: int,
    from: int,
)
    requires
        container_kind(language, nodes[i].kind@),
        nodes[i].end_byte - from > 3500,
        first_body(nodes, children(nodes, i), language) is None,
    ensures
        item_chunks(s, nodes, language, i, from) == span_chunk(
            s,
            nodes[i].start_byte as int,
            nodes[i].end_byte as int,
        ),
{
}

/// The body of a container is the first of its children that is one.
pub proof fn law_body_is_the_first(
    nodes: Seq<SyntaxNode>,
    list: Seq<int>,
    language: Language,
    k: int,
)
    requires
        0 <= k < list.len(),
        is_body(language, nodes[list[k]]),
        forall|j: int| 0 <= j < k ==> !is_body(language, #[trigger] nodes[list[j]]),
    ensures
        first_body(nodes, list, language) == Some(list[k]),
    decreases k,
{
    if k > 0 {
        assert(!is_body(language, nodes[list[0]]));
        let rest = list.drop_first();
        assert forall|j: int| 0 <= j < k - 1 implies !is_body(
            language,
            #[trigger] nodes[rest[j]],
        ) by {
            assert(rest[j] == list[j + 1]);
            assert(!is_body(language, nodes[list[j + 1]]));
        }
        law_body_is_the_first(nodes, rest, language, k - 1);
    }
}

/// A file whose syntax tree has no error is cut along it; a file of no known language, and one whose
/// tree gives nothing, is cut by its lines; a blank file is one empty chunk.
pub proof fn law_files_are_cut_along_their_syntax(
    content: Seq<char>,
    language: Language,
    nodes: Seq<SyntaxNode>,
)
    requires
        !is_blank(content),
    ensures
        parsed(language, content) == Some(nodes) && fits(content, nodes) && !nodes[0].has_error
            && file_chunks(content, nodes, language).len() > 0 ==> code_chunks(
            content,
            Some(language),
        ) == file_chunks(content, nodes, language),
        parsed(language, content) is None ==> code_chunks(content, Some(language)) == fallback(
            content,
        ),
        code_chunks(content, None) == fallback(content),
{
}

/// A blank file is one empty chunk on line one.
pub proof fn law_blank_file_is_one_empty_chunk(content: Seq<char>, language: Option<Language>)
    requires
        forall|i: int| 0 <= i < content.len() ==> is_ws(#[trigger] content[i]),
    ensures
        code_chunks(content, language).len() == 1,
        code_chunks(content, language)[0].content.len() == 0,
        code_chunks(content, language)[0].start_line == 1,
        code_chunks(content, language)[0].end_line == 1,
{
}

} // verus!
