//! The records that the metadata database keeps of indexed files, and where
//! that database lives.

use vstd::prelude::*;

verus! {

/// An indexed file: its path and the time it was last modified, as the text
/// `YYYY-MM-DD HH:MM:SS`.
pub struct FileResult {
    pub path: String,
    pub updated_at: String,
}

/// `std::path::MAIN_SEPARATOR`, the separator that this platform writes
/// between path components, as a string. Claimed, as the `std::path`
/// documentation gives it: `/` (Unix) or `\` (Windows).
#[verifier::external_body]
fn main_separator() -> (sep: String)
    ensures
        sep@ == seq!['/'] || sep@ == seq!['\\'],
{
    std::path::MAIN_SEPARATOR.to_string()
}

/// `std::path::is_separator`: whether `c` separates path components on this
/// platform. Claimed, as the `std::path` documentation gives it: `/` does on
/// every platform, and no character but `/` and `\` does.
#[verifier::external_body]
fn is_separator(c: char) -> (r: bool)
    ensures
        c == '/' ==> r,
        r ==> c == '/' || c == '\\',
{
    std::path::is_separator(c)
}

/// `std::path::Path::has_root` of `dir`. Nothing is claimed of the result.
#[verifier::external_body]
fn path_has_root(dir: &str) -> bool {
    std::path::Path::new(dir).has_root()
}

/// Whether `std::path::Path::parent` of `dir` is `Some`. Nothing is claimed of
/// the result.
#[verifier::external_body]
fn path_has_parent(dir: &str) -> bool {
    std::path::Path::new(dir).parent().is_some()
}

/// A path separator of some platform: `/` or `\`.
pub open spec fn is_any_separator(c: char) -> bool {
    c == '/' || c == '\\'
}

/// The path of the database file `app.db` inside `save_dir`, joined as
/// `Path::join` joins a relative name: `app.db` alone when `save_dir` is
/// empty; appended directly when `save_dir` ends with a separator of this
/// platform (`/` is one everywhere) or is a bare Windows drive such as `C:`
/// (no parent and no root, as `Path` reads it); after the platform's
/// separator (`/` or `\`) otherwise.
pub fn get_db_path_from_save_dir(save_dir: &str) -> (path: String)
    ensures
        save_dir@.len() == 0 ==> path@ == "app.db"@,
        save_dir@.len() > 0 && save_dir@.last() == '/' ==> path@ == save_dir@ + "app.db"@,
        save_dir@.len() > 0 && !is_any_separator(save_dir@.last()) && save_dir@.last() != ':'
            ==> exists|c: char| is_any_separator(c) && path@ == save_dir@.push(c) + "app.db"@,
        path@ == save_dir@ + "app.db"@ || exists|c: char|
            is_any_separator(c) && path@ == save_dir@.push(c) + "app.db"@,
{
    let n = save_dir.unicode_len();
    if n == 0 {
        return "app.db".to_owned();
    }
    let last = save_dir.get_char(n - 1);
    let bare_drive = last == ':' && !path_has_parent(save_dir) && !path_has_root(save_dir);
    let mut path = save_dir.to_owned();
    if !is_separator(last) && !bare_drive {
        let sep = main_separator();
        path.append(sep.as_str());
        proof {
            assert(path@ =~= save_dir@.push(sep@[0]));
            assert(is_any_separator(sep@[0]));
        }
    }
    path.append("app.db");
    path
}

} // verus!
