//! The lists of kinds, words and extensions that the library goes by, each as a whole.
use vstd::prelude::*;

use crate::chunking::{
    container_kind, extension_language, import_kind, is_body, item_kind, punctuation_kind, trivia_kind,
};
use crate::index::indexed_extension;
use crate::keywords::is_stop_word;
use crate::line_chunks::{comment_like, declaration_like};
use crate::strings::has_prefix;
use crate::syntax::{Language, SyntaxNode};

verus! {

/// The items of a Rust file are its functions, types, traits, implementations, modules, macros,
/// constants, statics and aliases; no other node makes a chunk of its own.
pub proof fn law_rust_items(kind: Seq<char>)
    ensures
        item_kind(Language::Rust, kind) <==> seq![
            "function_item"@,
            "struct_item"@,
            "enum_item"@,
            "impl_item"@,
            "trait_item"@,
            "mod_item"@,
            "macro_definition"@,
            "const_item"@,
            "static_item"@,
            "type_item"@,
            "union_item"@,
        ].contains(kind),
{
    let all = seq![
        "function_item"@,
        "struct_item"@,
        "enum_item"@,
        "impl_item"@,
        "trait_item"@,
        "mod_item"@,
        "macro_definition"@,
        "const_item"@,
        "static_item"@,
        "type_item"@,
        "union_item"@,
    ];
    assert(all[0] == "function_item"@);
    assert(all[1] == "struct_item"@);
    assert(all[2] == "enum_item"@);
    assert(all[3] == "impl_item"@);
    assert(all[4] == "trait_item"@);
    assert(all[5] == "mod_item"@);
    assert(all[6] == "macro_definition"@);
    assert(all[7] == "const_item"@);
    assert(all[8] == "static_item"@);
    assert(all[9] == "type_item"@);
    assert(all[10] == "union_item"@);
}

/// The items of a C# file are its types, namespaces, members, delegates, events and imports; no other
/// node makes a chunk of its own.
pub proof fn law_c_sharp_items(kind: Seq<char>)
    ensures
        item_kind(Language::CSharp, kind) <==> seq![
            "class_declaration"@,
            "struct_declaration"@,
            "interface_declaration"@,
            "enum_declaration"@,
            "namespace_declaration"@,
            "file_scoped_namespace_declaration"@,
            "method_declaration"@,
            "property_declaration"@,
            "field_declaration"@,
            "constructor_declaration"@,
            "destructor_declaration"@,
            "delegate_declaration"@,
            "event_declaration"@,
            "event_field_declaration"@,
            "record_declaration"@,
            "using_directive"@,
        ].contains(kind),
{
    let all = seq![
        "class_declaration"@,
        "struct_declaration"@,
        "interface_declaration"@,
        "enum_declaration"@,
        "namespace_declaration"@,
        "file_scoped_namespace_declaration"@,
        "method_declaration"@,
        "property_declaration"@,
        "field_declaration"@,
        "constructor_declaration"@,
        "destructor_declaration"@,
        "delegate_declaration"@,
        "event_declaration"@,
        "event_field_declaration"@,
        "record_declaration"@,
        "using_directive"@,
    ];
    assert(all[0] == "class_declaration"@);
    assert(all[1] == "struct_declaration"@);
    assert(all[2] == "interface_declaration"@);
    assert(all[3] == "enum_declaration"@);
    assert(all[4] == "namespace_declaration"@);
    assert(all[5] == "file_scoped_namespace_declaration"@);
    assert(all[6] == "method_declaration"@);
    assert(all[7] == "property_declaration"@);
    assert(all[8] == "field_declaration"@);
    assert(all[9] == "constructor_declaration"@);
    assert(all[10] == "destructor_declaration"@);
    assert(all[11] == "delegate_declaration"@);
    assert(all[12] == "event_declaration"@);
    assert(all[13] == "event_field_declaration"@);
    assert(all[14] == "record_declaration"@);
    assert(all[15] == "using_directive"@);
}

/// The items of a C or C++ file are its functions, types, namespaces, templates, declarations and
/// directives; no other node makes a chunk of its own.
pub proof fn law_cpp_items(kind: Seq<char>)
    ensures
        item_kind(Language::Cpp, kind) <==> seq![
            "function_definition"@,
            "class_specifier"@,
            "struct_specifier"@,
            "enum_specifier"@,
            "union_specifier"@,
            "namespace_definition"@,
            "template_declaration"@,
            "declaration"@,
            "type_definition"@,
            "using_declaration"@,
            "alias_declaration"@,
            "linkage_specification"@,
            "concept_definition"@,
            "preproc_include"@,
            "preproc_def"@,
            "preproc_function_def"@,
            "preproc_ifdef"@,
            "preproc_if"@,
        ].contains(kind),
{
    let all = seq![
        "function_definition"@,
        "class_specifier"@,
        "struct_specifier"@,
        "enum_specifier"@,
        "union_specifier"@,
        "namespace_definition"@,
        "template_declaration"@,
        "declaration"@,
        "type_definition"@,
        "using_declaration"@,
        "alias_declaration"@,
        "linkage_specification"@,
        "concept_definition"@,
        "preproc_include"@,
        "preproc_def"@,
        "preproc_function_def"@,
        "preproc_ifdef"@,
        "preproc_if"@,
    ];
    assert(all[0] == "function_definition"@);
    assert(all[1] == "class_specifier"@);
    assert(all[2] == "struct_specifier"@);
    assert(all[3] == "enum_specifier"@);
    assert(all[4] == "union_specifier"@);
    assert(all[5] == "namespace_definition"@);
    assert(all[6] == "template_declaration"@);
    assert(all[7] == "declaration"@);
    assert(all[8] == "type_definition"@);
    assert(all[9] == "using_declaration"@);
    assert(all[10] == "alias_declaration"@);
    assert(all[11] == "linkage_specification"@);
    assert(all[12] == "concept_definition"@);
    assert(all[13] == "preproc_include"@);
    assert(all[14] == "preproc_def"@);
    assert(all[15] == "preproc_function_def"@);
    assert(all[16] == "preproc_ifdef"@);
    assert(all[17] == "preproc_if"@);
}

/// In a Rust file, comments and attributes belong to what follows them, and nothing else does.
pub proof fn law_rust_trivia(kind: Seq<char>)
    ensures
        trivia_kind(Language::Rust, kind) <==> seq![
            "line_comment"@,
            "block_comment"@,
            "attribute_item"@,
        ].contains(kind),
{
    let all = seq![
        "line_comment"@,
        "block_comment"@,
        "attribute_item"@,
    ];
    assert(all[0] == "line_comment"@);
    assert(all[1] == "block_comment"@);
    assert(all[2] == "attribute_item"@);
}

/// In a C# file, comments and attributes belong to what follows them, and nothing else does.
pub proof fn law_c_sharp_trivia(kind: Seq<char>)
    ensures
        trivia_kind(Language::CSharp, kind) <==> seq![
            "comment"@,
            "line_comment"@,
            "block_comment"@,
            "attribute_list"@,
        ].contains(kind),
{
    let all = seq![
        "comment"@,
        "line_comment"@,
        "block_comment"@,
        "attribute_list"@,
    ];
    assert(all[0] == "comment"@);
    assert(all[1] == "line_comment"@);
    assert(all[2] == "block_comment"@);
    assert(all[3] == "attribute_list"@);
}

/// In a C or C++ file, comments and attributes belong to what follows them, and nothing else does.
pub proof fn law_cpp_trivia(kind: Seq<char>)
    ensures
        trivia_kind(Language::Cpp, kind) <==> seq![
            "comment"@,
            "attribute_declaration"@,
            "attribute_specifier"@,
        ].contains(kind),
{
    let all = seq![
        "comment"@,
        "attribute_declaration"@,
        "attribute_specifier"@,
    ];
    assert(all[0] == "comment"@);
    assert(all[1] == "attribute_declaration"@);
    assert(all[2] == "attribute_specifier"@);
}

/// In a Rust file, implementations, traits and modules are split by their members where they are too
/// large, and nothing else is.
pub proof fn law_rust_containers(kind: Seq<char>)
    ensures
        container_kind(Language::Rust, kind) <==> seq![
            "impl_item"@,
            "trait_item"@,
            "mod_item"@,
        ].contains(kind),
{
    let all = seq![
        "impl_item"@,
        "trait_item"@,
        "mod_item"@,
    ];
    assert(all[0] == "impl_item"@);
    assert(all[1] == "trait_item"@);
    assert(all[2] == "mod_item"@);
}

/// In a C# file, types with members and namespaces are split by these where they are too large, and
/// nothing else is.
pub proof fn law_c_sharp_containers(kind: Seq<char>)
    ensures
        container_kind(Language::CSharp, kind) <==> seq![
            "class_declaration"@,
            "struct_declaration"@,
            "interface_declaration"@,
            "namespace_declaration"@,
            "record_declaration"@,
        ].contains(kind),
{
    let all = seq![
        "class_declaration"@,
        "struct_declaration"@,
        "interface_declaration"@,
        "namespace_declaration"@,
        "record_declaration"@,
    ];
    assert(all[0] == "class_declaration"@);
    assert(all[1] == "struct_declaration"@);
    assert(all[2] == "interface_declaration"@);
    assert(all[3] == "namespace_declaration"@);
    assert(all[4] == "record_declaration"@);
}

/// In a C or C++ file, types with members, namespaces, linkage blocks and templates are split by their
/// members where they are too large, and nothing else is.
pub proof fn law_cpp_containers(kind: Seq<char>)
    ensures
        container_kind(Language::Cpp, kind) <==> seq![
            "class_specifier"@,
            "struct_specifier"@,
            "namespace_definition"@,
            "linkage_specification"@,
            "template_declaration"@,
        ].contains(kind),
{
    let all = seq![
        "class_specifier"@,
        "struct_specifier"@,
        "namespace_definition"@,
        "linkage_specification"@,
        "template_declaration"@,
    ];
    assert(all[0] == "class_specifier"@);
    assert(all[1] == "struct_specifier"@);
    assert(all[2] == "namespace_definition"@);
    assert(all[3] == "linkage_specification"@);
    assert(all[4] == "template_declaration"@);
}

/// The files that are cut as C or C++ are those with one of the extensions of either, and those that
/// are cut as Rust or C# have its one extension.
pub proof fn law_languages_have_their_extensions(ext: Seq<char>)
    ensures
        extension_language(ext) == Some(Language::Rust) <==> ext == "rs"@,
        extension_language(ext) == Some(Language::CSharp) <==> ext == "cs"@,
        extension_language(ext) == Some(Language::Cpp) <==> seq![
            "c"@,
            "cpp"@,
            "cc"@,
            "cxx"@,
            "c++"@,
            "h"@,
            "hpp"@,
            "hh"@,
            "h++"@,
            "hxx"@,
        ].contains(ext),
{
    reveal_strlit("rs");
    reveal_strlit("cs");
    reveal_strlit("c");
    reveal_strlit("cpp");
    reveal_strlit("cc");
    reveal_strlit("cxx");
    reveal_strlit("c++");
    reveal_strlit("h");
    reveal_strlit("hpp");
    reveal_strlit("hh");
    reveal_strlit("h++");
    reveal_strlit("hxx");
    assert("rs"@[0] == 'r' && "cs"@[0] == 'c');
    assert("rs"@[1] == 's' && "cs"@[1] == 's' && "cc"@[1] == 'c');
    let all = seq![
        "c"@,
        "cpp"@,
        "cc"@,
        "cxx"@,
        "c++"@,
        "h"@,
        "hpp"@,
        "hh"@,
        "h++"@,
        "hxx"@,
    ];
    assert(all[0] == "c"@);
    assert(all[1] == "cpp"@);
    assert(all[2] == "cc"@);
    assert(all[3] == "cxx"@);
    assert(all[4] == "c++"@);
    assert(all[5] == "h"@);
    assert(all[6] == "hpp"@);
    assert(all[7] == "hh"@);
    assert(all[8] == "h++"@);
    assert(all[9] == "hxx"@);
    if all.contains(ext) {
        let k = choose|k: int| 0 <= k < all.len() && all[k] == ext;
        assert(ext.len() != 2 || ext[1] != 's') by {
            assert("hh"@[1] == 'h');
        }
        assert(ext != "rs"@ && ext != "cs"@);
    }
}

/// A line is taken for a declaration exactly if it begins with a word that begins one.
pub proof fn law_declarations_begin_with_their_keyword(trimmed: Seq<char>)
    ensures
        declaration_like(trimmed) <==> exists|p: Seq<char>|
            seq![
                "pub "@,
                "fn "@,
                "async fn "@,
                "struct "@,
                "enum "@,
                "impl "@,
                "class "@,
                "def "@,
                "function "@,
                "interface "@,
                "trait "@,
                "type "@,
                "namespace "@,
                "mod "@,
                "match "@,
                "public "@,
                "private "@,
                "protected "@,
                "static "@,
            ].contains(p) && #[trigger] has_prefix(trimmed, p),
{
    let all = seq![
        "pub "@,
        "fn "@,
        "async fn "@,
        "struct "@,
        "enum "@,
        "impl "@,
        "class "@,
        "def "@,
        "function "@,
        "interface "@,
        "trait "@,
        "type "@,
        "namespace "@,
        "mod "@,
        "match "@,
        "public "@,
        "private "@,
        "protected "@,
        "static "@,
    ];
    assert(all[0] == "pub "@);
    assert(all[1] == "fn "@);
    assert(all[2] == "async fn "@);
    assert(all[3] == "struct "@);
    assert(all[4] == "enum "@);
    assert(all[5] == "impl "@);
    assert(all[6] == "class "@);
    assert(all[7] == "def "@);
    assert(all[8] == "function "@);
    assert(all[9] == "interface "@);
    assert(all[10] == "trait "@);
    assert(all[11] == "type "@);
    assert(all[12] == "namespace "@);
    assert(all[13] == "mod "@);
    assert(all[14] == "match "@);
    assert(all[15] == "public "@);
    assert(all[16] == "private "@);
    assert(all[17] == "protected "@);
    assert(all[18] == "static "@);
    if declaration_like(trimmed) {
        if has_prefix(trimmed, "pub "@) {
            assert(all.contains(all[0]));
        }
        if has_prefix(trimmed, "fn "@) {
            assert(all.contains(all[1]));
        }
        if has_prefix(trimmed, "async fn "@) {
            assert(all.contains(all[2]));
        }
        if has_prefix(trimmed, "struct "@) {
            assert(all.contains(all[3]));
        }
        if has_prefix(trimmed, "enum "@) {
            assert(all.contains(all[4]));
        }
        if has_prefix(trimmed, "impl "@) {
            assert(all.contains(all[5]));
        }
        if has_prefix(trimmed, "class "@) {
            assert(all.contains(all[6]));
        }
        if has_prefix(trimmed, "def "@) {
            assert(all.contains(all[7]));
        }
        if has_prefix(trimmed, "function "@) {
            assert(all.contains(all[8]));
        }
        if has_prefix(trimmed, "interface "@) {
            assert(all.contains(all[9]));
        }
        if has_prefix(trimmed, "trait "@) {
            assert(all.contains(all[10]));
        }
        if has_prefix(trimmed, "type "@) {
            assert(all.contains(all[11]));
        }
        if has_prefix(trimmed, "namespace "@) {
            assert(all.contains(all[12]));
        }
        if has_prefix(trimmed, "mod "@) {
            assert(all.contains(all[13]));
        }
        if has_prefix(trimmed, "match "@) {
            assert(all.contains(all[14]));
        }
        if has_prefix(trimmed, "public "@) {
            assert(all.contains(all[15]));
        }
        if has_prefix(trimmed, "private "@) {
            assert(all.contains(all[16]));
        }
        if has_prefix(trimmed, "protected "@) {
            assert(all.contains(all[17]));
        }
        if has_prefix(trimmed, "static "@) {
            assert(all.contains(all[18]));
        }
    }
}

/// A line is taken for a comment exactly if it begins with a sign that begins one.
pub proof fn law_comments_begin_with_their_sign(trimmed: Seq<char>)
    ensures
        comment_like(trimmed) <==> exists|p: Seq<char>|
            seq![
                "//"@,
                "#"@,
                "/*"@,
                "*"@,
                "'''"@,
                "\"\"\""@,
            ].contains(p) && #[trigger] has_prefix(trimmed, p),
{
    let all = seq![
        "//"@,
        "#"@,
        "/*"@,
        "*"@,
        "'''"@,
        "\"\"\""@,
    ];
    assert(all[0] == "//"@);
    assert(all[1] == "#"@);
    assert(all[2] == "/*"@);
    assert(all[3] == "*"@);
    assert(all[4] == "'''"@);
    assert(all[5] == "\"\"\""@);
    if comment_like(trimmed) {
        if has_prefix(trimmed, "//"@) {
            assert(all.contains(all[0]));
        }
        if has_prefix(trimmed, "#"@) {
            assert(all.contains(all[1]));
        }
        if has_prefix(trimmed, "/*"@) {
            assert(all.contains(all[2]));
        }
        if has_prefix(trimmed, "*"@) {
            assert(all.contains(all[3]));
        }
        if has_prefix(trimmed, "'''"@) {
            assert(all.contains(all[4]));
        }
        if has_prefix(trimmed, "\"\"\""@) {
            assert(all.contains(all[5]));
        }
    }
}

/// The words that are worth no search are these, and no others.
pub proof fn law_stop_words(word: Seq<char>)
    ensures
        is_stop_word(word) <==> seq![
            "what"@,
            "does"@,
            "how"@,
            "is"@,
            "are"@,
            "the"@,
            "a"@,
            "an"@,
            "do"@,
            "can"@,
            "you"@,
            "tell"@,
            "me"@,
            "about"@,
            "file"@,
            "script"@,
            "code"@,
            "in"@,
            "of"@,
            "for"@,
            "to"@,
            "with"@,
            "work"@,
            "where"@,
            "which"@,
            "show"@,
            "explain"@,
            "meaning"@,
        ].contains(word),
{
    let all = seq![
        "what"@,
        "does"@,
        "how"@,
        "is"@,
        "are"@,
        "the"@,
        "a"@,
        "an"@,
        "do"@,
        "can"@,
        "you"@,
        "tell"@,
        "me"@,
        "about"@,
        "file"@,
        "script"@,
        "code"@,
        "in"@,
        "of"@,
        "for"@,
        "to"@,
        "with"@,
        "work"@,
        "where"@,
        "which"@,
        "show"@,
        "explain"@,
        "meaning"@,
    ];
    assert(all[0] == "what"@);
    assert(all[1] == "does"@);
    assert(all[2] == "how"@);
    assert(all[3] == "is"@);
    assert(all[4] == "are"@);
    assert(all[5] == "the"@);
    assert(all[6] == "a"@);
    assert(all[7] == "an"@);
    assert(all[8] == "do"@);
    assert(all[9] == "can"@);
    assert(all[10] == "you"@);
    assert(all[11] == "tell"@);
    assert(all[12] == "me"@);
    assert(all[13] == "about"@);
    assert(all[14] == "file"@);
    assert(all[15] == "script"@);
    assert(all[16] == "code"@);
    assert(all[17] == "in"@);
    assert(all[18] == "of"@);
    assert(all[19] == "for"@);
    assert(all[20] == "to"@);
    assert(all[21] == "with"@);
    assert(all[22] == "work"@);
    assert(all[23] == "where"@);
    assert(all[24] == "which"@);
    assert(all[25] == "show"@);
    assert(all[26] == "explain"@);
    assert(all[27] == "meaning"@);
}

/// The files that are indexed are sources, scripts, settings and notes: those with one of these
/// extensions, in lower case.
pub proof fn law_indexed_extensions(lower: Seq<char>)
    ensures
        indexed_extension(lower) <==> seq![
            "rs"@,
            "c"@,
            "cpp"@,
            "h"@,
            "hpp"@,
            "py"@,
            "js"@,
            "ts"@,
            "toml"@,
            "json"@,
            "yaml"@,
            "yml"@,
            "md"@,
            "sh"@,
            "cs"@,
            "shader"@,
            "hlsl"@,
        ].contains(lower),
{
    let all = seq![
        "rs"@,
        "c"@,
        "cpp"@,
        "h"@,
        "hpp"@,
        "py"@,
        "js"@,
        "ts"@,
        "toml"@,
        "json"@,
        "yaml"@,
        "yml"@,
        "md"@,
        "sh"@,
        "cs"@,
        "shader"@,
        "hlsl"@,
    ];
    assert(all[0] == "rs"@);
    assert(all[1] == "c"@);
    assert(all[2] == "cpp"@);
    assert(all[3] == "h"@);
    assert(all[4] == "hpp"@);
    assert(all[5] == "py"@);
    assert(all[6] == "js"@);
    assert(all[7] == "ts"@);
    assert(all[8] == "toml"@);
    assert(all[9] == "json"@);
    assert(all[10] == "yaml"@);
    assert(all[11] == "yml"@);
    assert(all[12] == "md"@);
    assert(all[13] == "sh"@);
    assert(all[14] == "cs"@);
    assert(all[15] == "shader"@);
    assert(all[16] == "hlsl"@);
}

/// The members of a container are in its body: the child in the field for it in Rust, and the list of
/// members in C#, C and C++.
pub proof fn law_bodies(node: SyntaxNode)
    ensures
        is_body(Language::Rust, node) <==> (node.field matches Some(field) && field@ == "body"@),
        is_body(Language::CSharp, node) <==> seq!["declaration_list"@].contains(node.kind@),
        is_body(Language::Cpp, node) <==> seq![
            "field_declaration_list"@,
            "declaration_list"@,
            "compound_statement"@,
        ].contains(node.kind@),
{
    let one = seq!["declaration_list"@];
    assert(one[0] == "declaration_list"@);
    let all = seq!["field_declaration_list"@, "declaration_list"@, "compound_statement"@];
    assert(all[0] == "field_declaration_list"@);
    assert(all[1] == "declaration_list"@);
    assert(all[2] == "compound_statement"@);
}

/// What stands in a body and is no member are its braces; in C and C++ also semicolons and the words
/// that say who may use what follows.
pub proof fn law_punctuation(kind: Seq<char>)
    ensures
        punctuation_kind(Language::Rust, kind) <==> seq!["{"@, "}"@].contains(kind),
        punctuation_kind(Language::CSharp, kind) <==> seq!["{"@, "}"@].contains(kind),
        punctuation_kind(Language::Cpp, kind) <==> seq![
            "{"@,
            "}"@,
            ";"@,
            "access_specifier"@,
        ].contains(kind),
        import_kind(Language::CSharp, kind) <==> seq!["using_directive"@].contains(kind),
        !import_kind(Language::Rust, kind),
        !import_kind(Language::Cpp, kind),
{
    let two = seq!["{"@, "}"@];
    assert(two[0] == "{"@);
    assert(two[1] == "}"@);
    let all = seq!["{"@, "}"@, ";"@, "access_specifier"@];
    assert(all[0] == "{"@);
    assert(all[1] == "}"@);
    assert(all[2] == ";"@);
    assert(all[3] == "access_specifier"@);
    let one = seq!["using_directive"@];
    assert(one[0] == "using_directive"@);
}

} // verus!
