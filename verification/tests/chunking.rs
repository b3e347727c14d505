use cix::chunking::{
    chunk_c_sharp, chunk_code, chunk_cpp, chunk_rust, chunk_tree, emit_chunk_from_bytes,
    language_of_extension,
};
use cix::source::SourceText;
use cix::syntax::{parse_source, Language};

#[test]
fn doc_comment_stays_attached_to_its_fn() {
    let src = r#"
/// Adds two numbers together.
/// Returns the sum.
pub fn add(a: i32, b: i32) -> i32 {
    a + b
}
"#;
    let chunks = chunk_rust(src).expect("should parse");
    assert_eq!(chunks.len(), 1);
    assert!(chunks[0].content.contains("Adds two numbers"));
    assert!(chunks[0].content.contains("pub fn add"));
}

#[test]
fn nested_impl_methods_not_confused_with_top_level_items() {
    let src = r#"
struct Foo;

impl Foo {
    fn bar(&self) -> i32 {
        1
    }

    fn baz(&self) -> i32 {
        2
    }
}
"#;
    let chunks = chunk_rust(src).expect("should parse");
    // struct + impl = 2 top-level chunks, not 4 fragmented ones.
    assert_eq!(chunks.len(), 2);
    assert!(chunks[1].content.contains("impl Foo"));
    assert!(chunks[1].content.contains("fn bar"));
    assert!(chunks[1].content.contains("fn baz"));
}

#[test]
fn falls_back_on_syntax_error() {
    let src = "fn broken( {{{ this is not valid rust";
    let chunks = chunk_code(src, "rs");
    assert!(!chunks.is_empty());
}

#[test]
fn generic_fallback_used_for_unsupported_language() {
    let src = (0..80)
        .map(|i| format!("line number {}", i))
        .collect::<Vec<_>>()
        .join("\n");
    let chunks = chunk_code(&src, "shader");
    assert!(!chunks.is_empty());
}

#[test]
fn oversized_impl_splits_per_method_with_header_context() {
    let mut body = String::from("impl Widget {\n");
    for i in 0..40 {
        body.push_str(&format!(
            "    fn method_{i}(&self) -> i32 {{\n        // padding line to grow this method body substantially so the whole impl block exceeds the chunk size budget\n        {i}\n    }}\n\n"
        ));
    }
    body.push_str("}\n");

    let chunks = chunk_rust(&body).expect("should parse");
    assert!(
        chunks.len() > 1,
        "oversized impl should split into multiple chunks"
    );
    assert!(chunks.iter().all(|c| c.content.contains("impl Widget")));
}

#[test]
fn csharp_attributes_and_comments_stay_attached() {
    let src = r#"
            using UnityEngine;

            public class Player : MonoBehaviour {
                [SerializeField]
                [Header("Movement")]
                private float speed = 10f;

                /// 
                /// Unity Start lifecycle method.
                /// 
                void Start() {
                    Debug.Log("Initialized");
                }
            }
            "#;
    let chunks = chunk_c_sharp(src).expect("should parse");
    assert_eq!(chunks.len(), 1);
    assert!(chunks[0].content.contains("[SerializeField]"));
    assert!(chunks[0].content.contains("void Start()"));
}

#[test]
fn oversized_monobehaviour_splits_per_method_with_class_header() {
    let mut body = String::from("public class EnemyAI : MonoBehaviour {\n");
    for i in 0..30 {
        body.push_str(&format!(
            "    [ClientRpc]\n    void RpcPerformAction_{i}() {{\n        // large padding line to force chunk overflow beyond MAX_CHUNK_CHARS budget\n        Debug.Log(\"Action {i}\");\n    }}\n\n"
        ));
    }
    body.push_str("}\n");

    let chunks = chunk_c_sharp(&body).expect("should parse");
    assert!(chunks.len() > 1, "oversized class should split");
    assert!(chunks
        .iter()
        .all(|c| c.content.contains("public class EnemyAI : MonoBehaviour")));
    assert!(chunks[0].content.contains("[ClientRpc]"));
}

#[test]
fn cpp_comments_stay_attached() {
    let src = "#include <cstdio>\n// Adds.\nint add(int a, int b) {\n  return a + b;\n}\n\nclass C {\n  int x;\n};\n";
    let chunks = chunk_cpp(src).expect("should parse");
    let found: Vec<(&str, usize, usize)> =
        chunks.iter().map(|c| (c.content.as_str(), c.start_line, c.end_line)).collect();
    assert_eq!(
        found,
        vec![
            ("#include <cstdio>", 1, 1),
            ("// Adds.\nint add(int a, int b) {\n  return a + b;\n}", 2, 5),
            ("class C {\n  int x;\n}", 7, 9),
            (";", 9, 9),
        ]
    );
}

#[test]
fn oversized_cpp_class_splits_per_method_with_class_header() {
    let mut body = String::from("class Widget : public Base {\n");
    for i in 0..40 {
        body.push_str(&format!(
            "  // method {}\n  int method_{}(int argument) {{\n    int value = argument * {};\n    return value + 1;\n  }}\n",
            i, i, i
        ));
    }
    body.push_str("};\n");
    let chunks = chunk_cpp(&body).expect("should parse");
    assert!(chunks.len() >= 40);
    for (i, chunk) in chunks.iter().take(40).enumerate() {
        assert!(chunk.content.starts_with("class Widget : public Base\n    // ...\n// method"));
        assert!(chunk.content.contains(&format!("method_{}(", i)));
        assert_eq!(chunk.start_line, 2 + 5 * i);
        assert_eq!(chunk.end_line, 6 + 5 * i);
    }
}

#[test]
fn a_tree_is_cut_as_its_file_is() {
    let src = "use std::fmt;\n\n/// Doc.\nfn f() {}\n// tail\n";
    let nodes = parse_source(Language::Rust, src).unwrap();
    assert!(SourceText::new(src).holds(&nodes));
    let chunks = chunk_tree(src, &nodes, Language::Rust).unwrap();
    let found: Vec<(&str, usize, usize)> =
        chunks.iter().map(|c| (c.content.as_str(), c.start_line, c.end_line)).collect();
    assert_eq!(
        found,
        vec![
            ("use std::fmt;", 1, 1),
            ("/// Doc.\nfn f() {}", 3, 4),
            ("// tail", 5, 5),
        ]
    );
    assert_eq!(chunk_rust(src), Some(chunks));
}

#[test]
fn a_tree_is_a_list_of_its_nodes() {
    let nodes = parse_source(Language::Rust, "fn f() {}").unwrap();
    let kinds: Vec<(usize, &str)> = nodes.iter().map(|n| (n.depth, n.kind.as_str())).collect();
    assert_eq!(
        kinds,
        vec![
            (0, "source_file"),
            (1, "function_item"),
            (2, "fn"),
            (2, "identifier"),
            (2, "parameters"),
            (3, "("),
            (3, ")"),
            (2, "block"),
            (3, "{"),
            (3, "}"),
        ]
    );
    assert_eq!(nodes[3].field.as_deref(), Some("name"));
    assert_eq!((nodes[3].start_byte, nodes[3].end_byte), (3, 4));
    assert!(!nodes[0].has_error);
    assert!(parse_source(Language::Rust, "fn f( {{{").unwrap()[0].has_error);
}

#[test]
fn large_items_without_members_are_cut_by_size() {
    let mut src = String::from("fn big() {\n");
    for i in 0..200 {
        src.push_str(&format!("    let variable_number_{} = {};\n", i, i));
    }
    src.push_str("}\n");
    let chunks = chunk_rust(&src).expect("should parse");
    assert!(chunks.len() > 1);
    assert_eq!(chunks[0].start_line, 1);
    assert_eq!(chunks[chunks.len() - 1].end_line, 202);
}

#[test]
fn blank_files_have_one_empty_chunk() {
    for ext in ["rs", "txt"] {
        let chunks = chunk_code(" \n\n", ext);
        assert_eq!(chunks.len(), 1);
        assert_eq!(chunks[0].content, "");
        assert_eq!((chunks[0].start_line, chunks[0].end_line), (1, 1));
    }
}

#[test]
fn languages_are_told_by_extension() {
    for (ext, language) in [
        ("rs", Some(Language::Rust)),
        ("cs", Some(Language::CSharp)),
        ("c", Some(Language::Cpp)),
        ("hxx", Some(Language::Cpp)),
        ("py", None),
        ("", None),
    ] {
        assert_eq!(language_of_extension(ext), language, "{}", ext);
    }
}

#[test]
fn extensions_can_be_written_in_capitals() {
    let src = "/// Doc.\nfn f() {}\n\nfn g() {}\n";
    assert_eq!(chunk_code(src, "RS"), chunk_code(src, "rs"));
    assert_eq!(chunk_code(src, "rs").len(), 2);
    assert_eq!(chunk_code(src, ".rs").len(), 1);
}

#[test]
fn csharp_imports_stand_alone_before_a_large_class() {
    let mut src = String::from("using System;\nusing UnityEngine;\n\npublic class Big {\n");
    for i in 0..60 {
        src.push_str(&format!(
            "    void Method_{}() {{\n        Debug.Log(\"a line that takes some room\");\n    }}\n",
            i
        ));
    }
    src.push_str("}\n");
    let chunks = chunk_c_sharp(&src).expect("should parse");
    assert_eq!(chunks[0].content, "using System;");
    assert_eq!((chunks[0].start_line, chunks[0].end_line), (1, 1));
    assert_eq!(chunks[1].content, "using UnityEngine;");
    assert_eq!((chunks[1].start_line, chunks[1].end_line), (2, 2));
    assert_eq!(chunks.len(), 62);
    assert!(chunks[2..].iter().all(|c| c.content.starts_with("public class Big\n    // ...\n")));
}

#[test]
fn csharp_imports_alone_are_chunks_one_by_one() {
    let chunks = chunk_c_sharp("using System;\n// Engine.\nusing UnityEngine;\n").expect("should parse");
    let found: Vec<(&str, usize, usize)> =
        chunks.iter().map(|c| (c.content.as_str(), c.start_line, c.end_line)).collect();
    assert_eq!(
        found,
        vec![("using System;", 1, 1), ("// Engine.\nusing UnityEngine;", 2, 3)]
    );
}

#[test]
fn an_empty_span_is_no_chunk() {
    let source = SourceText::new("é\n");
    let mut chunks = Vec::new();
    emit_chunk_from_bytes(&source, 1, 1, &mut chunks);
    emit_chunk_from_bytes(&source, 9, 1, &mut chunks);
    assert!(chunks.is_empty());
    emit_chunk_from_bytes(&source, 0, 3, &mut chunks);
    assert_eq!(chunks[0].content, "é");
    assert_eq!((chunks[0].start_line, chunks[0].end_line), (1, 1));
}
