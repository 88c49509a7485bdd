//! Selection of the definitions (functions, classes, ...) of a parsed source
//! file, and the cutting of their text out of the source.
//!
//! A syntax tree is handed over as its outline: its nodes in pre-order, each
//! with its kind, its byte range in the source and its depth below the root.
//! A node is picked when its kind is one of the target kinds and no node
//! above it was picked; the subtree of a picked node is not searched further.

use vstd::prelude::*;
use vstd::string::StringSliceAdditionalSpecFns;
use vstd::utf8::*;

use crate::text::{same_text, str_views, string_views};
use crate::treesitter::ParseError;

verus! {

broadcast use vstd::utf8::group_utf8_lib;

/// One node of a syntax tree outline: the nodes of a tree in pre-order, each
/// with its kind, its byte range and its depth below the root (the root has
/// depth 0).
pub struct OutlineNode {
    pub kind: String,
    pub start_byte: usize,
    pub end_byte: usize,
    pub depth: usize,
}

/// A node of an outline as the proofs see it: its kind, the start and the
/// end of its byte range, and its depth.
pub type NodeView = (Seq<char>, nat, nat, nat);

impl View for OutlineNode {
    type V = NodeView;

    open spec fn view(&self) -> NodeView {
        (self.kind@, self.start_byte as nat, self.end_byte as nat, self.depth as nat)
    }
}

/// The nodes of an outline as the proofs see them.
pub open spec fn outline_view(o: Seq<OutlineNode>) -> Seq<NodeView> {
    o.map_values(|n: OutlineNode| n@)
}

/// The node kinds worth extracting for a file extension.
pub open spec fn target_kinds_for(ext: Seq<char>) -> Seq<Seq<char>> {
    if ext == "rs"@ {
        seq!["function_item"@, "impl_item"@, "struct_item"@, "enum_item"@, "trait_item"@]
    } else if ext == "py"@ {
        seq!["function_definition"@, "class_definition"@]
    } else if ext == "cpp"@ || ext == "cc"@ || ext == "c"@ || ext == "h"@ || ext == "hpp"@ {
        seq!["function_definition"@, "class_specifier"@, "struct_specifier"@]
    } else if ext == "cs"@ {
        seq!["method_declaration"@, "class_declaration"@, "property_declaration"@]
    } else {
        seq![]
    }
}

/// Every node strictly between `j` and `i` lies deeper than `j`: walking the
/// outline from `j` up to `i` has not yet left the subtree of `j`.
pub open spec fn stays_below(o: Seq<NodeView>, j: int, i: int) -> bool {
    forall|k: int| j < k < i ==> #[trigger] o[k].3 > o[j].3
}

/// A node of depth `d` standing at position `i` of the outline would lie
/// inside the subtree of a node of a target kind that comes before it.
pub open spec fn covered_at(o: Seq<NodeView>, kinds: Seq<Seq<char>>, i: int, d: int) -> bool {
    exists|j: int|
        0 <= j < i && #[trigger] kinds.contains(o[j].0) && stays_below(o, j, i) && d
            > o[j].3
}

/// The node at `i` has an ancestor of a target kind.
pub open spec fn has_target_ancestor(o: Seq<NodeView>, kinds: Seq<Seq<char>>, i: int) -> bool {
    covered_at(o, kinds, i, o[i].3 as int)
}

/// The node at `i` is extracted: its kind is a target kind and no ancestor
/// of it has one.
pub open spec fn is_selected(o: Seq<NodeView>, kinds: Seq<Seq<char>>, i: int) -> bool {
    kinds.contains(o[i].0) && !has_target_ancestor(o, kinds, i)
}

/// The byte range `[start, end)` of `bytes` is in bounds and cuts no
/// character apart.
pub open spec fn span_ok(bytes: Seq<u8>, start: int, end: int) -> bool {
    &&& 0 <= start <= end <= bytes.len()
    &&& is_char_boundary(bytes, start)
    &&& is_char_boundary(bytes, end)
}

/// The text whose UTF-8 encoding is the byte range `[start, end)` of `bytes`.
pub open spec fn span_text(bytes: Seq<u8>, start: int, end: int) -> Seq<char> {
    decode_utf8(bytes.subrange(start, end))
}

/// The texts of the selected nodes among the first `n` of the outline, in
/// outline order.
pub open spec fn outline_chunks(
    o: Seq<NodeView>,
    kinds: Seq<Seq<char>>,
    bytes: Seq<u8>,
    n: int,
) -> Seq<Seq<char>>
    decreases n,
{
    if n <= 0 {
        seq![]
    } else {
        let prev = outline_chunks(o, kinds, bytes, n - 1);
        if is_selected(o, kinds, n - 1) {
            prev.push(span_text(bytes, o[n - 1].1 as int, o[n - 1].2 as int))
        } else {
            prev
        }
    }
}

/// Some selected node has a byte range that cannot be cut out of the source.
pub open spec fn has_bad_span(o: Seq<NodeView>, kinds: Seq<Seq<char>>, bytes: Seq<u8>) -> bool {
    exists|i: int|
        0 <= i < o.len() && #[trigger] is_selected(o, kinds, i) && !span_ok(
            bytes,
            o[i].1 as int,
            o[i].2 as int,
        )
}

/// One step of the outline walk: what covers position `i + 1` is what covered
/// position `i` and still encloses node `i`, or node `i` itself when it has a
/// target kind.
pub proof fn lemma_covered_step(o: Seq<NodeView>, kinds: Seq<Seq<char>>, i: int, d: int)
    requires
        0 <= i < o.len(),
    ensures
        covered_at(o, kinds, i + 1, d) <==> (covered_at(
            o,
            kinds,
            i,
            if d < o[i].3 {
                d
            } else {
                o[i].3 as int
            },
        ) || (kinds.contains(o[i].0) && d > o[i].3)),
{
    let m = if d < o[i].3 {
        d
    } else {
        o[i].3 as int
    };
    if covered_at(o, kinds, i + 1, d) {
        let j = choose|j: int|
            0 <= j < i + 1 && #[trigger] kinds.contains(o[j].0) && stays_below(o, j, i + 1)
                && d > o[j].3;
        if j < i {
            assert(o[i].3 > o[j].3);
            assert(stays_below(o, j, i));
            assert(covered_at(o, kinds, i, m));
        }
    }
    if covered_at(o, kinds, i, m) {
        let j = choose|j: int|
            0 <= j < i && #[trigger] kinds.contains(o[j].0) && stays_below(o, j, i) && m
                > o[j].3;
        assert(stays_below(o, j, i + 1));
        assert(covered_at(o, kinds, i + 1, d));
    }
    if kinds.contains(o[i].0) && d > o[i].3 {
        assert(stays_below(o, i, i + 1));
        assert(covered_at(o, kinds, i + 1, d));
    }
}

/// A node is picked exactly when it has a target kind and no earlier node of
/// a target kind encloses it (lies above it, with every node in between
/// deeper than that one), whatever its depth; in particular the first node of
/// a target kind in the outline is always picked.
pub proof fn lemma_picked_nodes(o: Seq<NodeView>, kinds: Seq<Seq<char>>, i: int)
    requires
        0 <= i < o.len(),
    ensures
        is_selected(o, kinds, i) <==> kinds.contains(o[i].0) && !(exists|j: int|
            0 <= j < i && kinds.contains(#[trigger] o[j].0) && o[i].3 > o[j].3 && (forall|k: int|
                j < k < i ==> o[k].3 > o[j].3)),
        kinds.contains(o[i].0) && (forall|j: int| 0 <= j < i ==> !kinds.contains(#[trigger] o[j].0))
            ==> is_selected(o, kinds, i),
{
}

/// The walk collects the text of every picked node and nothing when no node
/// is picked: the texts gathered over the first `n` nodes include the text of
/// each picked node among them, and are empty when none of them is picked.
pub proof fn lemma_outline_chunks_hold_picked(
    o: Seq<NodeView>,
    kinds: Seq<Seq<char>>,
    bytes: Seq<u8>,
    n: int,
    i: int,
)
    requires
        n <= o.len(),
    ensures
        0 <= i < n && is_selected(o, kinds, i) ==> outline_chunks(o, kinds, bytes, n).contains(
            span_text(bytes, o[i].1 as int, o[i].2 as int),
        ),
        (forall|j: int| 0 <= j < n ==> !#[trigger] is_selected(o, kinds, j)) ==> outline_chunks(
            o,
            kinds,
            bytes,
            n,
        ).len() == 0,
    decreases n,
{
    if n > 0 {
        lemma_outline_chunks_hold_picked(o, kinds, bytes, n - 1, i);
        let prev = outline_chunks(o, kinds, bytes, n - 1);
        let cur = outline_chunks(o, kinds, bytes, n);
        if 0 <= i < n && is_selected(o, kinds, i) {
            let t = span_text(bytes, o[i].1 as int, o[i].2 as int);
            if i < n - 1 {
                let m = choose|m: int| 0 <= m < prev.len() && prev[m] == t;
                if is_selected(o, kinds, n - 1) {
                    assert(cur[m] == t);
                }
            } else {
                assert(cur[cur.len() - 1] == t);
            }
        }
        if forall|j: int| 0 <= j < n ==> !#[trigger] is_selected(o, kinds, j) {
            assert(!is_selected(o, kinds, n - 1));
        }
    }
}

/// Picked nodes do not nest: of two picked nodes, the later one never lies in
/// the subtree of the earlier one.
pub proof fn lemma_selected_do_not_nest(o: Seq<NodeView>, kinds: Seq<Seq<char>>, j: int, i: int)
    requires
        0 <= j < i < o.len(),
        is_selected(o, kinds, j),
        is_selected(o, kinds, i),
    ensures
        !(stays_below(o, j, i) && o[i].3 > o[j].3),
{
    if stays_below(o, j, i) && o[i].3 > o[j].3 {
        assert(kinds.contains(o[j].0));
        assert(covered_at(o, kinds, i, o[i].3 as int));
    }
}

/// The node kinds worth extracting for a file extension: functions, impl
/// blocks, structs, enums and traits for Rust; functions and classes for
/// Python; functions, classes and structs for C and C++; methods, classes and
/// properties for C#; none for any other extension.
pub fn target_node_kinds(ext: &str) -> (kinds: &'static [&'static str])
    ensures
        str_views(kinds@) == target_kinds_for(ext@),
{
    if same_text(ext, "rs") {
        let k: &'static [&'static str] = &[
            "function_item",
            "impl_item",
            "struct_item",
            "enum_item",
            "trait_item",
        ];
        assert(str_views(k@) =~= target_kinds_for(ext@));
        k
    } else if same_text(ext, "py") {
        let k: &'static [&'static str] = &["function_definition", "class_definition"];
        assert(str_views(k@) =~= target_kinds_for(ext@));
        k
    } else if same_text(ext, "cpp") || same_text(ext, "cc") || same_text(ext, "c") || same_text(
        ext,
        "h",
    ) || same_text(ext, "hpp") {
        let k: &'static [&'static str] = &[
            "function_definition",
            "class_specifier",
            "struct_specifier",
        ];
        assert(str_views(k@) =~= target_kinds_for(ext@));
        k
    } else if same_text(ext, "cs") {
        let k: &'static [&'static str] = &[
            "method_declaration",
            "class_declaration",
            "property_declaration",
        ];
        assert(str_views(k@) =~= target_kinds_for(ext@));
        k
    } else {
        let k: &'static [&'static str] = &[];
        assert(str_views(k@) =~= target_kinds_for(ext@));
        k
    }
}

/// Whether `kind` is one of `kinds`.
pub fn kinds_contain(kinds: &[&str], kind: &str) -> (r: bool)
    ensures
        r == str_views(kinds@).contains(kind@),
{
    let mut i: usize = 0;
    while i < kinds.len()
        invariant
            i <= kinds@.len(),
            forall|k: int| 0 <= k < i ==> kinds@[k]@ != kind@,
        decreases kinds.len() - i,
    {
        if same_text(kinds[i], kind) {
            assert(str_views(kinds@)[i as int] == kind@);
            return true;
        }
        i = i + 1;
    }
    proof {
        if str_views(kinds@).contains(kind@) {
            let k = choose|k: int| 0 <= k < str_views(kinds@).len() && str_views(kinds@)[k] == kind@;
            assert(kinds@[k]@ == kind@);
        }
    }
    false
}

/// Whether the byte range `[start, end)` of `source` is in bounds and cuts no
/// character apart.
pub fn span_in_source(source: &str, start: usize, end: usize) -> (r: bool)
    ensures
        r == span_ok(source.spec_bytes(), start as int, end as int),
{
    proof {
        assert(valid_utf8(encode_utf8(source@)));
    }
    let len = source.as_bytes().len();
    start <= end && end <= len && source.is_char_boundary(start) && source.is_char_boundary(end)
}

/// The text of the byte range `[start, end)` of `source`.
pub fn span_of(source: &str, start: usize, end: usize) -> (text: String)
    requires
        span_ok(source.spec_bytes(), start as int, end as int),
    ensures
        text@ == span_text(source.spec_bytes(), start as int, end as int),
{
    let ghost bytes = source.spec_bytes();
    let (head, _) = source.split_at(end);
    proof {
        let hb = head.spec_bytes();
        assert(valid_utf8(bytes));
        assert(hb =~= bytes.subrange(0, end as int));
        valid_utf8_split(bytes, end as int);
        assert(valid_utf8(hb));
        if start < end {
            assert(hb[start as int] == bytes[start as int]);
            is_char_boundary_iff_not_is_continuation_byte(bytes, start as int);
            is_char_boundary_iff_not_is_continuation_byte(hb, start as int);
        } else {
            is_char_boundary_start_end_of_seq(hb);
        }
        assert(is_char_boundary(hb, start as int));
    }
    let (_, mid) = head.split_at(start);
    proof {
        assert(mid.spec_bytes() =~= bytes.subrange(start as int, end as int));
    }
    mid.to_owned()
}

/// Appends to `result` the texts of the nodes of `outline` that have one of
/// `target_kinds` and no ancestor that has one, in outline order; the
/// subtree of a picked node is not searched further. Fails, leaving `result`
/// unchanged, when a picked node's byte range is out of bounds or cuts a
/// character of `source` apart.
pub fn collect_nodes(
    outline: &Vec<OutlineNode>,
    source: &str,
    target_kinds: &[&str],
    result: &mut Vec<String>,
) -> (r: Result<(), ParseError>)
    ensures
        r is Err <==> has_bad_span(
            outline_view(outline@),
            str_views(target_kinds@),
            source.spec_bytes(),
        ),
        r is Err ==> r == Err::<(), ParseError>(ParseError::InvalidNodeRange) && final(result)@
            == old(result)@,
        r is Ok ==> string_views(final(result)@) == string_views(old(result)@) + outline_chunks(
            outline_view(outline@),
            str_views(target_kinds@),
            source.spec_bytes(),
            outline@.len() as int,
        ),
{
    let ghost o = outline_view(outline@);
    let ghost kinds = str_views(target_kinds@);
    let ghost bytes = source.spec_bytes();
    let mut found: Vec<String> = Vec::new();
    let mut skip: Option<usize> = None;
    let mut i: usize = 0;
    while i < outline.len()
        invariant
            o == outline_view(outline@),
            o.len() == outline@.len(),
            kinds == str_views(target_kinds@),
            bytes == source.spec_bytes(),
            i <= o.len(),
            forall|d: int|
                #[trigger] covered_at(o, kinds, i as int, d) <==> (skip.is_some() && d
                    > skip.unwrap()),
            string_views(found@) == outline_chunks(o, kinds, bytes, i as int),
            forall|k: int|
                0 <= k < i && #[trigger] is_selected(o, kinds, k) ==> span_ok(
                    bytes,
                    o[k].1 as int,
                    o[k].2 as int,
                ),
        decreases o.len() - i,
    {
        let node = &outline[i];
        let ghost gi = i as int;
        proof {
            assert(o[gi] == node@);
            assert(covered_at(o, kinds, gi, node.depth as int) == has_target_ancestor(o, kinds, gi));
        }
        let inside = match skip {
            Some(s) => node.depth > s,
            None => false,
        };
        let ghost before = found@;
        if inside {
            proof {
                assert(!is_selected(o, kinds, gi));
                assert forall|d: int|
                    #[trigger] covered_at(o, kinds, gi + 1, d) <==> (skip.is_some() && d
                        > skip.unwrap()) by {
                    lemma_covered_step(o, kinds, gi, d);
                    let m = if d < o[gi].3 {
                        d
                    } else {
                        o[gi].3 as int
                    };
                    assert(covered_at(o, kinds, gi, m) <==> (skip.is_some() && m > skip.unwrap()));
                }
            }
        } else if kinds_contain(target_kinds, node.kind.as_str()) {
            proof {
                assert(is_selected(o, kinds, gi));
            }
            if !span_in_source(source, node.start_byte, node.end_byte) {
                assert(has_bad_span(o, kinds, bytes));
                return Err(ParseError::InvalidNodeRange);
            }
            let text = span_of(source, node.start_byte, node.end_byte);
            found.push(text);
            proof {
                assert(string_views(found@) =~= string_views(before).push(text@));
            }
            skip = Some(node.depth);
            proof {
                assert forall|d: int|
                    #[trigger] covered_at(o, kinds, gi + 1, d) <==> (skip.is_some() && d
                        > skip.unwrap()) by {
                    lemma_covered_step(o, kinds, gi, d);
                    let m = if d < o[gi].3 {
                        d
                    } else {
                        o[gi].3 as int
                    };
                    assert(!covered_at(o, kinds, gi, m));
                }
            }
        } else {
            proof {
                assert(!is_selected(o, kinds, gi));
            }
            skip = None;
            proof {
                assert forall|d: int|
                    #[trigger] covered_at(o, kinds, gi + 1, d) <==> (skip.is_some() && d
                        > skip.unwrap()) by {
                    lemma_covered_step(o, kinds, gi, d);
                    let m = if d < o[gi].3 {
                        d
                    } else {
                        o[gi].3 as int
                    };
                    assert(!covered_at(o, kinds, gi, m));
                }
            }
        }
        i = i + 1;
    }
    proof {
        if has_bad_span(o, kinds, bytes) {
            let k = choose|k: int|
                0 <= k < o.len() && #[trigger] is_selected(o, kinds, k) && !span_ok(
                    bytes,
                    o[k].1 as int,
                    o[k].2 as int,
                );
            assert(false);
        }
    }
    let ghost old_result = result@;
    result.append(&mut found);
    proof {
        assert(string_views(result@) =~= string_views(old_result) + outline_chunks(
            o,
            kinds,
            bytes,
            o.len() as int,
        ));
    }
    Ok(())
}

} // verus!
