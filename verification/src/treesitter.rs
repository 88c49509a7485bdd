//! Parsing of source files with tree-sitter into definition-sized chunks.
//!
//! A file is parsed with the grammar of its extension; the definitions that
//! `extractor` picks out of the syntax tree become the file's chunks, one
//! chunk per definition. A file in which no definition is found is one chunk
//! as a whole.

use vstd::prelude::*;
use vstd::string::StringSliceAdditionalSpecFns;
use vstd::utf8::encode_utf8;

use crate::extractor::{
    collect_nodes, has_bad_span, outline_chunks, outline_view, span_ok, span_text,
    target_kinds_for, target_node_kinds, NodeView, OutlineNode,
};
use crate::text::{same_text, string_views};

verus! {

/// Why a source file could not be cut into chunks.
#[derive(Debug, PartialEq, Eq, Structural)]
pub enum ParseError {
    /// No grammar is known for the file's extension.
    UnsupportedExtension,
    /// A definition's byte range lies outside the source or cuts a
    /// character apart.
    InvalidNodeRange,
}

/// The languages whose grammars the indexer knows.
#[derive(Clone, Copy, Debug, PartialEq, Eq, Structural)]
pub enum Lang {
    Rust,
    Python,
    Cpp,
    CSharp,
}

/// The language of a file extension: `rs` is Rust, `py` Python, `cpp`, `cc`,
/// `c`, `h` and `hpp` are C++ and `cs` is C#; no other extension has one.
pub open spec fn language_of(ext: Seq<char>) -> Option<Lang> {
    if ext == "rs"@ {
        Some(Lang::Rust)
    } else if ext == "py"@ {
        Some(Lang::Python)
    } else if ext == "cpp"@ || ext == "cc"@ || ext == "c"@ || ext == "h"@ || ext == "hpp"@ {
        Some(Lang::Cpp)
    } else if ext == "cs"@ {
        Some(Lang::CSharp)
    } else {
        None
    }
}

/// The chunks of a file: the texts of the picked definitions, or the whole
/// source when no definition was picked.
pub open spec fn file_chunks(
    o: Seq<NodeView>,
    kinds: Seq<Seq<char>>,
    bytes: Seq<u8>,
    source: Seq<char>,
) -> Seq<Seq<char>> {
    let c = outline_chunks(o, kinds, bytes, o.len() as int);
    if c.len() == 0 {
        seq![source]
    } else {
        c
    }
}

/// Every extension with a grammar has definitions to look for, and the
/// extensions of one language look for the same ones: in particular every
/// extension parsed with the C++ grammar (`cpp`, `cc`, `c`, `h`, `hpp`) looks
/// for `function_definition`, `class_specifier` and `struct_specifier`.
pub proof fn lemma_kinds_follow_language(ext1: Seq<char>, ext2: Seq<char>)
    ensures
        language_of(ext1) is Some ==> target_kinds_for(ext1).len() > 0,
        language_of(ext1) is Some && language_of(ext1) == language_of(ext2) ==> target_kinds_for(
            ext1,
        ) == target_kinds_for(ext2),
        language_of(ext1) == Some(Lang::Cpp) ==> target_kinds_for(ext1) == seq![
            "function_definition"@,
            "class_specifier"@,
            "struct_specifier"@,
        ],
{
}

/// The five C and C++ extensions are parsed with the C++ grammar.
pub proof fn lemma_cpp_extensions()
    ensures
        language_of("cpp"@) == Some(Lang::Cpp),
        language_of("cc"@) == Some(Lang::Cpp),
        language_of("c"@) == Some(Lang::Cpp),
        language_of("h"@) == Some(Lang::Cpp),
        language_of("hpp"@) == Some(Lang::Cpp),
{
    reveal_strlit("cpp");
    reveal_strlit("cc");
    reveal_strlit("c");
    reveal_strlit("h");
    reveal_strlit("hpp");
    reveal_strlit("rs");
    reveal_strlit("py");
    assert("cpp"@ != "rs"@ && "cpp"@ != "py"@) by {
        assert("cpp"@.len() != "rs"@.len());
    }
    assert("cc"@ != "rs"@ && "cc"@ != "py"@) by {
        assert("cc"@[0] != "rs"@[0] && "cc"@[0] != "py"@[0]);
    }
    assert("c"@ != "rs"@ && "c"@ != "py"@ && "h"@ != "rs"@ && "h"@ != "py"@) by {
        assert("c"@.len() != "rs"@.len() && "h"@.len() != "rs"@.len());
    }
    assert("hpp"@ != "rs"@ && "hpp"@ != "py"@) by {
        assert("hpp"@.len() != "rs"@.len());
    }
}

/// The outline of the syntax tree that tree-sitter builds for `source` with
/// the grammar of `lang`: its nodes in pre-order, each as its kind, the start
/// and end of its byte range and its depth below the root.
pub uninterp spec fn syntax_outline(lang: Lang, source: Seq<char>) -> Seq<(Seq<char>, nat, nat, nat)>;

/// Parses `source` with tree-sitter (`Parser::new`, `Parser::set_language`
/// with the `LANGUAGE` grammar of tree-sitter-rust, tree-sitter-python,
/// tree-sitter-cpp or tree-sitter-c-sharp, then `Parser::parse` with no old
/// tree) and lists the nodes of the tree in pre-order (`descendant_count` of
/// the root, `TreeCursor::goto_descendant`) with their `kind`, `start_byte`,
/// `end_byte` and cursor `depth`. Claimed: the outline is a function of
/// `lang` and `source` alone, named `syntax_outline`. Neither `expect` fails:
/// `set_language` accepts grammar ABI versions 13 to 15 and the four grammars
/// are of versions 14 and 15, and `parse` gives no tree only when no language
/// is set, no progress callback cancels it, or on a wasm store, none of which
/// happens here.
#[verifier::external_body]
fn read_outline(lang: Lang, source: &str) -> (outline: Vec<OutlineNode>)
    ensures
        outline_view(outline@) == syntax_outline(lang, source@),
{
    let grammar = match lang {
        Lang::Rust => tree_sitter_rust::LANGUAGE,
        Lang::Python => tree_sitter_python::LANGUAGE,
        Lang::Cpp => tree_sitter_cpp::LANGUAGE,
        Lang::CSharp => tree_sitter_c_sharp::LANGUAGE,
    };
    let mut parser = tree_sitter::Parser::new();
    parser.set_language(&grammar.into()).expect("grammar version");
    let tree = parser.parse(source, None).expect("language set");
    let mut c = tree.walk();
    (0..tree.root_node().descendant_count()).map(|i| { c.goto_descendant(i); let n = c.node();
        OutlineNode { kind: n.kind().to_string(), start_byte: n.start_byte(), end_byte: n.end_byte(), depth: c.depth() as usize }
    }).collect()
}

/// The language of a file extension (see `language_of`).
pub fn get_language(ext: &str) -> (lang: Option<Lang>)
    ensures
        lang == language_of(ext@),
{
    if same_text(ext, "rs") {
        Some(Lang::Rust)
    } else if same_text(ext, "py") {
        Some(Lang::Python)
    } else if same_text(ext, "cpp") || same_text(ext, "cc") || same_text(ext, "c") || same_text(
        ext,
        "h",
    ) || same_text(ext, "hpp") {
        Some(Lang::Cpp)
    } else if same_text(ext, "cs") {
        Some(Lang::CSharp)
    } else {
        None
    }
}

/// Whether files with this extension are parsed with tree-sitter.
pub fn is_supported_ext(ext: &str) -> (r: bool)
    ensures
        r == language_of(ext@).is_some(),
{
    get_language(ext).is_some()
}

/// Parses `source` with the grammar of `lang` and lists the nodes of the
/// syntax tree in pre-order, each with its kind, byte range and depth.
pub fn parse_outline(source: &str, lang: Lang) -> (outline: Vec<OutlineNode>)
    ensures
        outline_view(outline@) == syntax_outline(lang, source@),
{
    read_outline(lang, source)
}

/// What cutting `source` into chunks gives for the extension `ext`:
/// `UnsupportedExtension` when no grammar is known for `ext`, else, over the
/// outline of the syntax tree that the grammar gives, `InvalidNodeRange` when
/// a picked definition cannot be cut out of the source and the file's chunks
/// (`file_chunks`) otherwise.
pub open spec fn code_chunks(source: Seq<char>, ext: Seq<char>) -> Result<Seq<Seq<char>>, ParseError> {
    match language_of(ext) {
        None => Err(ParseError::UnsupportedExtension),
        Some(lang) => {
            let o = syntax_outline(lang, source);
            let kinds = target_kinds_for(ext);
            let bytes = encode_utf8(source);
            if has_bad_span(o, kinds, bytes) {
                Err(ParseError::InvalidNodeRange)
            } else {
                Ok(file_chunks(o, kinds, bytes, source))
            }
        },
    }
}

/// The chunks of `source` given the outline of its syntax tree: the texts of
/// the definitions that `extractor::collect_nodes` picks for the target kinds
/// of `ext`, or the whole source as one chunk when none is picked. Fails with
/// `InvalidNodeRange` exactly when a picked definition's byte range cannot be
/// cut out of `source`.
pub fn chunks_from_outline(outline: &Vec<OutlineNode>, source: &str, ext: &str) -> (r: Result<
    Vec<String>,
    ParseError,
>)
    ensures
        r is Err <==> has_bad_span(
            outline_view(outline@),
            target_kinds_for(ext@),
            source.spec_bytes(),
        ),
        r is Err ==> r == Err::<Vec<String>, ParseError>(ParseError::InvalidNodeRange),
        r matches Ok(chunks) ==> string_views(chunks@) == file_chunks(
            outline_view(outline@),
            target_kinds_for(ext@),
            source.spec_bytes(),
            source@,
        ),
{
    let kinds = target_node_kinds(ext);
    let mut chunks: Vec<String> = Vec::new();
    match collect_nodes(outline, source, kinds, &mut chunks) {
        Ok(()) => {},
        Err(e) => {
            return Err(e);
        },
    }
    if chunks.len() == 0 {
        let whole = source.to_owned();
        let v = vec![whole];
        proof {
            assert(string_views(v@) =~= seq![source@]);
        }
        Ok(v)
    } else {
        proof {
            assert(string_views(chunks@) =~= string_views(Seq::<String>::empty()) + outline_chunks(
                outline_view(outline@),
                target_kinds_for(ext@),
                source.spec_bytes(),
                outline@.len() as int,
            ));
        }
        Ok(chunks)
    }
}

/// Parses `source` and cuts it into one chunk per definition (functions,
/// classes, ... as `target_node_kinds` lists them for `ext`); a file with no
/// definition is one chunk as a whole. Fails with `UnsupportedExtension`
/// exactly when no grammar is known for `ext`, and with `InvalidNodeRange`
/// exactly when a picked definition's byte range cannot be cut out of the
/// source (see `code_chunks`).
pub fn parse_chunks(source: &str, ext: &str) -> (r: Result<Vec<String>, ParseError>)
    ensures
        r matches Ok(chunks) ==> code_chunks(source@, ext@) == Ok::<Seq<Seq<char>>, ParseError>(
            string_views(chunks@),
        ),
        r matches Err(e) ==> code_chunks(source@, ext@) == Err::<Seq<Seq<char>>, ParseError>(e),
        r matches Ok(chunks) ==> chunks@.len() >= 1,
{
    let lang = match get_language(ext) {
        Some(l) => l,
        None => {
            return Err(ParseError::UnsupportedExtension);
        },
    };
    let outline = parse_outline(source, lang);
    let r = chunks_from_outline(&outline, source, ext);
    proof {
        if r is Ok {
            assert(string_views(r->Ok_0@).len() == r->Ok_0@.len());
        }
    }
    r
}

/// Every chunk of a file is the whole source or the text of a byte range of
/// it that is in bounds and cuts no character apart.
pub proof fn lemma_chunks_are_pieces(
    o: Seq<NodeView>,
    kinds: Seq<Seq<char>>,
    bytes: Seq<u8>,
    source: Seq<char>,
)
    requires
        !has_bad_span(o, kinds, bytes),
    ensures
        forall|c: Seq<char>|
            file_chunks(o, kinds, bytes, source).contains(c) ==> c == source || exists|s: int, e: int|
                span_ok(bytes, s, e) && c == span_text(bytes, s, e),
{
    lemma_outline_chunks_are_spans(o, kinds, bytes, o.len() as int);
}

/// Every text that the outline walk collects is a well-cut byte range of the
/// source.
pub proof fn lemma_outline_chunks_are_spans(
    o: Seq<NodeView>,
    kinds: Seq<Seq<char>>,
    bytes: Seq<u8>,
    n: int,
)
    requires
        !has_bad_span(o, kinds, bytes),
        n <= o.len(),
    ensures
        forall|c: Seq<char>|
            outline_chunks(o, kinds, bytes, n).contains(c) ==> exists|s: int, e: int|
                span_ok(bytes, s, e) && c == span_text(bytes, s, e),
    decreases n,
{
    if n > 0 {
        lemma_outline_chunks_are_spans(o, kinds, bytes, n - 1);
        let prev = outline_chunks(o, kinds, bytes, n - 1);
        assert forall|c: Seq<char>|
            outline_chunks(o, kinds, bytes, n).contains(c) implies exists|s: int, e: int|
                span_ok(bytes, s, e) && c == span_text(bytes, s, e) by {
            if crate::extractor::is_selected(o, kinds, n - 1) {
                let cur = outline_chunks(o, kinds, bytes, n);
                let k = choose|k: int| 0 <= k < cur.len() && cur[k] == c;
                if k < prev.len() {
                    assert(prev[k] == c);
                    assert(prev.contains(c));
                } else {
                    let s = o[n - 1].1 as int;
                    let e = o[n - 1].2 as int;
                    assert(span_ok(bytes, s, e));
                    assert(c == span_text(bytes, s, e));
                }
            } else {
                assert(prev.contains(c));
            }
        }
    }
}

} // verus!
