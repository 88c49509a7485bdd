use flashfind::extractor::{collect_nodes, target_node_kinds, OutlineNode};
use flashfind::treesitter::{
    chunks_from_outline, get_language, is_supported_ext, parse_chunks, parse_outline, Lang,
    ParseError,
};

fn node(kind: &str, start: usize, end: usize, depth: usize) -> OutlineNode {
    OutlineNode { kind: kind.to_string(), start_byte: start, end_byte: end, depth }
}

#[test]
fn supported_extensions() {
    for ext in ["rs", "py", "cpp", "cc", "c", "h", "hpp", "cs"] {
        assert!(is_supported_ext(ext), "{}", ext);
    }
    for ext in ["xlsx", "RS", "txt", "", "js", "rs "] {
        assert!(!is_supported_ext(ext), "{}", ext);
    }
}

#[test]
fn language_of_extension() {
    assert_eq!(get_language("rs"), Some(Lang::Rust));
    assert_eq!(get_language("py"), Some(Lang::Python));
    assert_eq!(get_language("hpp"), Some(Lang::Cpp));
    assert_eq!(get_language("c"), Some(Lang::Cpp));
    assert_eq!(get_language("cs"), Some(Lang::CSharp));
    assert_eq!(get_language("java"), None);
}

#[test]
fn node_kinds_per_extension() {
    assert_eq!(
        target_node_kinds("rs"),
        &["function_item", "impl_item", "struct_item", "enum_item", "trait_item"]
    );
    assert_eq!(target_node_kinds("py"), &["function_definition", "class_definition"]);
    assert_eq!(
        target_node_kinds("cc"),
        &["function_definition", "class_specifier", "struct_specifier"]
    );
    assert_eq!(
        target_node_kinds("cs"),
        &["method_declaration", "class_declaration", "property_declaration"]
    );
    assert!(target_node_kinds("md").is_empty());
}

#[test]
fn rust_definitions_become_chunks() {
    let src = "use std::fmt;\n\nfn alpha() -> u32 { 1 }\n\nstruct Point { x: i32 }\n\nimpl Point {\n    fn get(&self) -> i32 { self.x }\n}\n";
    let chunks = parse_chunks(src, "rs").unwrap();
    assert_eq!(
        chunks,
        vec![
            "fn alpha() -> u32 { 1 }".to_string(),
            "struct Point { x: i32 }".to_string(),
            "impl Point {\n    fn get(&self) -> i32 { self.x }\n}".to_string(),
        ]
    );
}

#[test]
fn python_definitions_become_chunks() {
    let src = "import os\n\ndef f(x):\n    return x\n\nclass A:\n    def m(self):\n        pass\n";
    let chunks = parse_chunks(src, "py").unwrap();
    assert_eq!(
        chunks,
        vec![
            "def f(x):\n    return x".to_string(),
            "class A:\n    def m(self):\n        pass".to_string(),
        ]
    );
}

#[test]
fn cpp_and_csharp_definitions_become_chunks() {
    let cpp = "int add(int a, int b) { return a + b; }\nstruct S { int v; };\n";
    assert_eq!(
        parse_chunks(cpp, "cpp").unwrap(),
        vec!["int add(int a, int b) { return a + b; }".to_string(), "struct S { int v; }".to_string()]
    );
    let cs = "class C { int P { get; set; } void M() {} }\n";
    assert_eq!(
        parse_chunks(cs, "cs").unwrap(),
        vec!["class C { int P { get; set; } void M() {} }".to_string()]
    );
}

#[test]
fn file_without_definitions_is_one_chunk() {
    let src = "let x = 1;\n";
    assert_eq!(parse_chunks(src, "py").unwrap().len(), 1);
    assert_eq!(parse_chunks("x = 1\n", "py"), Ok(vec!["x = 1\n".to_string()]));
    let src = "// only a comment\nuse a::b;\n";
    assert_eq!(parse_chunks(src, "rs").unwrap(), vec![src.to_string()]);
    assert_eq!(parse_chunks("", "rs").unwrap(), vec!["".to_string()]);
}

#[test]
fn non_ascii_source_is_cut_at_characters() {
    let src = "// 日本語のコメント\nfn 名前() -> &'static str { \"値\" }\n";
    let chunks = parse_chunks(src, "rs").unwrap();
    assert_eq!(chunks, vec!["fn 名前() -> &'static str { \"値\" }".to_string()]);
}

#[test]
fn unsupported_extension_is_an_error() {
    assert_eq!(parse_chunks("fn a() {}", "txt"), Err(ParseError::UnsupportedExtension));
    assert_eq!(parse_chunks("fn a() {}", "RS"), Err(ParseError::UnsupportedExtension));
}

#[test]
fn outline_is_preorder_with_depths() {
    let src = "fn a() {}\n";
    let outline = parse_outline(src, Lang::Rust);
    assert_eq!(outline[0].kind, "source_file");
    assert_eq!(outline[0].depth, 0);
    assert_eq!(outline[1].kind, "function_item");
    assert_eq!(outline[1].depth, 1);
    assert_eq!((outline[1].start_byte, outline[1].end_byte), (0, 9));
    for w in outline.windows(2) {
        assert!(w[1].depth <= w[0].depth + 1);
    }
}

#[test]
fn picked_nodes_do_not_nest() {
    // source_file > function_item(0..20) > block > function_item(8..18); struct_item(21..30)
    let src = "fn a() { fn b() {} }\nstruct S;";
    let outline = vec![
        node("source_file", 0, 30, 0),
        node("function_item", 0, 20, 1),
        node("block", 7, 20, 2),
        node("function_item", 9, 18, 3),
        node("struct_item", 21, 30, 1),
    ];
    let mut out = vec!["earlier".to_string()];
    let kinds: &[&str] = &["function_item", "struct_item"];
    assert_eq!(collect_nodes(&outline, src, kinds, &mut out), Ok(()));
    assert_eq!(
        out,
        vec!["earlier".to_string(), "fn a() { fn b() {} }".to_string(), "struct S;".to_string()]
    );
}

#[test]
fn sibling_after_picked_subtree_is_searched() {
    let src = "abcdefgh";
    let outline = vec![
        node("root", 0, 8, 0),
        node("x", 0, 2, 1),
        node("t", 1, 2, 2),
        node("y", 2, 8, 1),
        node("t", 3, 5, 2),
        node("t", 5, 8, 2),
    ];
    let mut out = Vec::new();
    assert_eq!(collect_nodes(&outline, src, &["t"], &mut out), Ok(()));
    assert_eq!(out, vec!["b".to_string(), "de".to_string(), "fgh".to_string()]);
}

#[test]
fn bad_byte_range_of_a_picked_node_is_an_error() {
    let src = "héllo";
    // byte 2 is inside the two-byte 'é'
    let outline = vec![node("root", 0, 6, 0), node("t", 0, 2, 1)];
    let mut out = vec!["kept".to_string()];
    assert_eq!(collect_nodes(&outline, src, &["t"], &mut out), Err(ParseError::InvalidNodeRange));
    assert_eq!(out, vec!["kept".to_string()]);
    let outline = vec![node("t", 3, 99, 0)];
    assert_eq!(chunks_from_outline(&outline, src, "rs"), Ok(vec![src.to_string()]));
    let outline = vec![node("function_item", 3, 99, 0)];
    assert_eq!(chunks_from_outline(&outline, src, "rs"), Err(ParseError::InvalidNodeRange));
}

#[test]
fn bad_range_below_a_picked_node_is_not_looked_at() {
    let src = "héllo";
    let outline = vec![node("function_item", 0, 6, 0), node("function_item", 0, 2, 1)];
    assert_eq!(chunks_from_outline(&outline, src, "rs"), Ok(vec!["héllo".to_string()]));
}

#[test]
fn outline_without_picked_node_gives_whole_source() {
    let src = "x = 1";
    let outline = vec![node("module", 0, 5, 0), node("expression_statement", 0, 5, 1)];
    assert_eq!(chunks_from_outline(&outline, src, "py"), Ok(vec!["x = 1".to_string()]));
    assert_eq!(chunks_from_outline(&Vec::new(), src, "py"), Ok(vec!["x = 1".to_string()]));
}

#[test]
fn every_chunk_is_a_piece_of_the_source() {
    let src = "class A:\n    x = 1\n\ndef f():\n    return 'é'\n";
    for c in parse_chunks(src, "py").unwrap() {
        assert!(src.contains(c.as_str()), "{:?}", c);
        assert!(!c.is_empty());
    }
}

#[test]
fn nested_definition_stays_in_its_parent() {
    assert_eq!(
        parse_chunks("fn a() {}\nimpl S { fn f() {} }\n", "rs"),
        Ok(vec!["fn a() {}".to_string(), "impl S { fn f() {} }".to_string()])
    );
}

#[test]
fn every_supported_extension_parses() {
    for ext in ["rs", "py", "cpp", "cc", "c", "h", "hpp", "cs"] {
        let r = parse_chunks("x", ext);
        assert!(r.is_ok(), "{}", ext);
        assert!(!r.unwrap().is_empty(), "{}", ext);
    }
}

#[test]
fn outline_of_each_language_starts_at_its_root() {
    let cases = [
        (Lang::Rust, "fn a() {}", "source_file"),
        (Lang::Python, "def f(): pass", "module"),
        (Lang::Cpp, "int f() { return 0; }", "translation_unit"),
        (Lang::CSharp, "class C {}", "compilation_unit"),
    ];
    for (lang, src, root) in cases {
        let outline = parse_outline(src, lang);
        assert_eq!(outline[0].kind, root);
        assert_eq!(outline[0].depth, 0);
        assert_eq!(outline[0].end_byte, src.len());
    }
}
