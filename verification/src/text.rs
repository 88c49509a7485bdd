//! Text helpers shared by the indexer: exact string comparison, the
//! extension of a path (the part of its file name after the last `.`) and
//! lower-casing.

use vstd::prelude::*;
use vstd::string::StringSliceAdditionalSpecFns;
use vstd::utf8::*;

verus! {

broadcast use vstd::utf8::encode_utf8_decode_utf8;

/// The characters of a list of string slices.
pub open spec fn str_views(v: Seq<&str>) -> Seq<Seq<char>> {
    v.map_values(|s: &str| s@)
}

/// The characters of a list of strings.
pub open spec fn string_views(v: Seq<String>) -> Seq<Seq<char>> {
    v.map_values(|s: String| s@)
}

/// A character that separates the components of a path: `/`, or `\` as
/// Windows writes it.
pub open spec fn is_path_separator(c: char) -> bool {
    c == '/' || c == '\\'
}

/// A character that ends the search for an extension from the end of a path:
/// a `.` or a path separator.
pub open spec fn is_extension_mark(c: char) -> bool {
    c == '.' || is_path_separator(c)
}

/// Index of the last `.` or path separator in `s`, or `-1` when `s` holds
/// neither.
pub open spec fn last_mark_index(s: Seq<char>) -> int
    decreases s.len(),
{
    if s.len() == 0 {
        -1
    } else if is_extension_mark(s.last()) {
        s.len() - 1
    } else {
        last_mark_index(s.drop_last())
    }
}

/// The extension of a path: what follows the last `.` of its last component
/// (the part after the last path separator), or nothing when that component
/// holds no `.`.
pub open spec fn path_extension(path: Seq<char>) -> Seq<char> {
    let i = last_mark_index(path);
    if i >= 0 && path[i] == '.' {
        path.subrange(i + 1, path.len() as int)
    } else {
        Seq::empty()
    }
}

/// When no mark stands at or after `i`, and `i` is `0` or follows a mark,
/// the last mark of `s` is the one just before `i`.
pub proof fn lemma_last_mark_at(s: Seq<char>, i: int)
    requires
        0 <= i <= s.len(),
        forall|k: int| i <= k < s.len() ==> !is_extension_mark(#[trigger] s[k]),
        i == 0 || is_extension_mark(s[i - 1]),
    ensures
        last_mark_index(s) == i - 1,
    decreases s.len(),
{
    if s.len() > 0 && s.len() != i {
        lemma_last_mark_at(s.drop_last(), i);
    }
}

/// The extension is what follows the last `.`: for any path written as a
/// prefix, a `.` and a last part holding no `.`, `/` or `\`, the extension is
/// that last part.
pub proof fn lemma_extension_after_last_dot(prefix: Seq<char>, ext: Seq<char>)
    requires
        forall|k: int|
            0 <= k < ext.len() ==> #[trigger] ext[k] != '.' && ext[k] != '/' && ext[k] != '\\',
    ensures
        path_extension(prefix + seq!['.'] + ext) == ext,
{
    let path = prefix + seq!['.'] + ext;
    let i = prefix.len() + 1int;
    assert forall|k: int| i <= k < path.len() implies !is_extension_mark(#[trigger] path[k]) by {
        assert(path[k] == ext[k - i]);
    }
    assert(path[i - 1] == '.');
    lemma_last_mark_at(path, i);
    assert(path.subrange(i, path.len() as int) =~= ext);
}

/// A file name without a `.` has no extension: for a directory that is empty
/// or ends with `/` or `\`, followed by a name holding no `.`, `/` or `\`,
/// the extension is empty.
pub proof fn lemma_name_without_dot(dir: Seq<char>, name: Seq<char>)
    requires
        dir.len() == 0 || dir.last() == '/' || dir.last() == '\\',
        forall|k: int|
            0 <= k < name.len() ==> #[trigger] name[k] != '.' && name[k] != '/' && name[k] != '\\',
    ensures
        path_extension(dir + name).len() == 0,
{
    let path = dir + name;
    let i = dir.len() as int;
    assert forall|k: int| i <= k < path.len() implies !is_extension_mark(#[trigger] path[k]) by {
        assert(path[k] == name[k - i]);
    }
    if i > 0 {
        assert(path[i - 1] == dir.last());
    }
    lemma_last_mark_at(path, i);
}

/// Whether two strings hold the same characters.
pub fn same_text(a: &str, b: &str) -> (r: bool)
    ensures
        r == (a@ == b@),
{
    let x = a.as_bytes();
    let y = b.as_bytes();
    if x.len() != y.len() {
        return false;
    }
    let mut i: usize = 0;
    while i < x.len()
        invariant
            x@ == a.spec_bytes(),
            y@ == b.spec_bytes(),
            x.len() == y.len(),
            i <= x.len(),
            forall|k: int| 0 <= k < i ==> x@[k] == y@[k],
        decreases x.len() - i,
    {
        if x[i] != y[i] {
            return false;
        }
        i = i + 1;
    }
    proof {
        assert(x@ =~= y@);
        assert(decode_utf8(encode_utf8(a@)) == a@);
        assert(decode_utf8(encode_utf8(b@)) == b@);
    }
    true
}

/// The extension of `path`: what follows the last `.` of its last
/// component, or the empty string when that component holds no `.`.
pub fn extension_of(path: &str) -> (ext: String)
    ensures
        ext@ == path_extension(path@),
{
    let n = path.unicode_len();
    let mut i = n;
    while i > 0 && path.get_char(i - 1) != '.' && path.get_char(i - 1) != '/' && path.get_char(
        i - 1,
    ) != '\\'
        invariant
            n == path@.len(),
            i <= n,
            forall|k: int| i <= k < n ==> !is_extension_mark(#[trigger] path@[k]),
        decreases i,
    {
        i = i - 1;
    }
    proof {
        lemma_last_mark_at(path@, i as int);
    }
    if i > 0 && path.get_char(i - 1) == '.' {
        path.substring_char(i, n).to_owned()
    } else {
        let e = String::new();
        proof {
            assert(e@ =~= path_extension(path@));
        }
        e
    }
}

/// What `str::to_lowercase` gives for a text (the Unicode lowercase mapping).
pub uninterp spec fn lowercase(s: Seq<char>) -> Seq<char>;

/// `str::to_lowercase`: claims that its result is a function of the text,
/// named `lowercase`, and that the empty text gives the empty text.
#[verifier::external_body]
pub(crate) fn to_lowercase(s: &str) -> (r: String)
    ensures
        r@ == lowercase(s@),
        s@.len() == 0 ==> r@.len() == 0,
{
    s.to_lowercase()
}

} // verus!
