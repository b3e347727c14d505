use cix::parser::{parse_rust_symbols, print_ast};

const SAMPLE_CODE: &str = r#"
        pub fn hello_world(name: &str) -> String {
            format!("Hello, {}!", name)
        }

        pub struct Greeter {
            prefix: String,
        }

        impl Greeter {
            pub fn greet(&self, name: &str) {
                println!("{} {}", self.prefix, name);
            }
        }
    "#;

#[test]
fn test_parse_rust_symbols() {
    let symbols = parse_rust_symbols(SAMPLE_CODE);
    assert!(!symbols.is_empty(), "Symbols should not be empty");

    let names: Vec<&str> = symbols.iter().map(|s| s.name.as_str()).collect();
    assert!(names.contains(&"hello_world"), "Should find hello_world function");
    assert!(names.contains(&"Greeter"), "Should find Greeter struct");
    assert!(names.contains(&"impl Greeter"), "Should find impl Greeter block");
    assert!(names.contains(&"greet"), "Should find greet method");

    println!("Parsed symbols: {:#?}", symbols);
}

#[test]
fn test_print_ast() {
    // Just verify print_ast runs without panicking
    print_ast(SAMPLE_CODE);
}

#[test]
fn symbols_have_kind_line_and_signature() {
    let symbols = parse_rust_symbols(SAMPLE_CODE);
    let found: Vec<(&str, &str, usize, &str)> = symbols
        .iter()
        .map(|s| (s.kind.as_str(), s.name.as_str(), s.line, s.signature.as_str()))
        .collect();
    assert_eq!(
        found,
        vec![
            ("function_item", "hello_world", 2, "pub fn hello_world(name: &str) -> String {"),
            ("struct_item", "Greeter", 6, "pub struct Greeter {"),
            ("impl_item", "impl Greeter", 10, "impl Greeter {"),
            ("function_item", "greet", 11, "pub fn greet(&self, name: &str) {"),
        ]
    );
}

#[test]
fn symbols_of_every_kind_are_found() {
    let source = "enum E { A }\ntrait T {}\nmod m {}\nmacro_rules! mac { () => {} }\nimpl T for E {}\n";
    let names: Vec<String> = parse_rust_symbols(source).into_iter().map(|s| s.name).collect();
    assert_eq!(names, vec!["E", "T", "m", "mac", "impl E"]);
}

#[test]
fn no_symbols_in_an_empty_file() {
    assert!(parse_rust_symbols("").is_empty());
}

#[test]
fn outline_shows_ranges_and_short_leaves() {
    let outline = print_ast("fn f() {}\n");
    let first = &outline[0];
    assert_eq!(
        (first.indent.as_str(), first.kind.as_str(), first.range.as_str(), first.snippet.as_str()),
        ("", "source_file", "[1:0 - 2:0]", "")
    );
    let name = outline.iter().find(|l| l.kind == "identifier").unwrap();
    assert_eq!(name.indent, "    ");
    assert_eq!(name.range, "[1:3 - 1:4]");
    assert_eq!(name.snippet, "  \"f\"");
}

#[test]
fn outline_hides_long_leaves() {
    let outline = print_ast("// this comment has more than thirty bytes in it\nfn f() {}\n");
    let comment = outline.iter().find(|l| l.kind == "line_comment").unwrap();
    assert_eq!(comment.snippet, "");
}
