//! The decisions of the indexing pipeline: which files of a directory are
//! new, changed or gone since the last run, which of them are parsed and how,
//! and how chunks are grouped by file.

use vstd::prelude::*;

use crate::qdrant::ParsedFile;
use crate::occurrence::{
    is_last_occurrence, latest_index, lemma_last_occurrence_exists, lemma_last_occurrence_is_latest,
    lemma_latest_index,
};
use crate::sqlite::FileResult;
use crate::text::{
    extension_of, lemma_extension_after_last_dot, path_extension, same_text, string_views,
};
use crate::treesitter::{code_chunks, is_supported_ext, language_of, parse_chunks};
use vstd::string::StringSliceAdditionalSpecFns;
use vstd::utf8::encode_utf8;

verus! {

/// The path names an Excel workbook: its extension is `xlsx`, `xls`, `xlsm`
/// or `xlsb`.
pub open spec fn is_excel_path(path: Seq<char>) -> bool {
    let e = path_extension(path);
    e == "xlsx"@ || e == "xls"@ || e == "xlsm"@ || e == "xlsb"@
}

/// The path names a source file whose language has a grammar.
pub open spec fn is_code_path(path: Seq<char>) -> bool {
    language_of(path_extension(path)) is Some
}

/// The path names a file that the indexer parses.
pub open spec fn is_parsable_path(path: Seq<char>) -> bool {
    is_excel_path(path) || is_code_path(path)
}

/// Exactly four extensions mark a workbook: a path ending in a `.` and a last
/// part holding no `.`, `/` or `\` names a workbook if and only if that part
/// is `xlsx`, `xls`, `xlsm` or `xlsb`.
pub proof fn lemma_workbook_extensions(prefix: Seq<char>, ext: Seq<char>)
    requires
        forall|k: int|
            0 <= k < ext.len() ==> #[trigger] ext[k] != '.' && ext[k] != '/' && ext[k] != '\\',
    ensures
        is_excel_path(prefix + seq!['.'] + ext) <==> (ext == "xlsx"@ || ext == "xls"@ || ext
            == "xlsm"@ || ext == "xlsb"@),
{
    lemma_extension_after_last_dot(prefix, ext);
}

/// Exactly the eight extensions with a grammar mark a source file: a path
/// ending in a `.` and a last part holding no `.`, `/` or `\` names a source
/// file if and only if that part is `rs`, `py`, `cpp`, `cc`, `c`, `h`, `hpp`
/// or `cs`.
pub proof fn lemma_code_extensions(prefix: Seq<char>, ext: Seq<char>)
    requires
        forall|k: int|
            0 <= k < ext.len() ==> #[trigger] ext[k] != '.' && ext[k] != '/' && ext[k] != '\\',
    ensures
        is_code_path(prefix + seq!['.'] + ext) <==> (ext == "rs"@ || ext == "py"@ || ext == "cpp"@
            || ext == "cc"@ || ext == "c"@ || ext == "h"@ || ext == "hpp"@ || ext == "cs"@),
{
    lemma_extension_after_last_dot(prefix, ext);
}

/// Whether the path names an Excel workbook.
pub fn is_excel_ext(path: &str) -> (r: bool)
    ensures
        r == is_excel_path(path@),
{
    let e = extension_of(path);
    same_text(e.as_str(), "xlsx") || same_text(e.as_str(), "xls") || same_text(e.as_str(), "xlsm")
        || same_text(e.as_str(), "xlsb")
}

/// Whether the path names a source file whose language has a grammar.
pub fn is_code_ext(path: &str) -> (r: bool)
    ensures
        r == is_code_path(path@),
{
    let e = extension_of(path);
    is_supported_ext(e.as_str())
}

/// The paths of a list of file records.
pub open spec fn paths_of(files: Seq<FileResult>) -> Seq<Seq<char>> {
    files.map_values(|f: FileResult| f.path@)
}

/// The modification time recorded for `path`: that of the last record with
/// this path, as the last one wins when the records are read into a map.
pub open spec fn time_of(files: Seq<FileResult>, path: Seq<char>) -> Seq<char> {
    files[latest_index(paths_of(files), path)].updated_at@
}

/// The paths of a list of file records, in order.
pub fn file_paths(files: &Vec<FileResult>) -> (paths: Vec<String>)
    ensures
        string_views(paths@) == paths_of(files@),
{
    let mut paths: Vec<String> = Vec::new();
    let mut i: usize = 0;
    while i < files.len()
        invariant
            i <= files@.len(),
            paths@.len() == i,
            string_views(paths@) == paths_of(files@).subrange(0, i as int),
        decreases files.len() - i,
    {
        let ghost before = paths@;
        let c = files[i].path.clone();
        paths.push(c);
        proof {
            assert(paths@ == before.push(c));
            assert(c@ == paths_of(files@)[i as int]);
            assert forall|k: int| 0 <= k < i + 1 implies string_views(paths@)[k] == paths_of(
                files@,
            ).subrange(0, i + 1)[k] by {
                if k < i {
                    assert(paths@[k] == before[k]);
                    assert(string_views(before)[k] == paths_of(files@).subrange(0, i as int)[k]);
                }
            }
            assert(string_views(paths@) =~= paths_of(files@).subrange(0, i + 1));
        }
        i = i + 1;
    }
    proof {
        assert(paths_of(files@).subrange(0, i as int) =~= paths_of(files@));
    }
    paths
}

/// The index of the last record of `files` with this path, if any.
pub fn find_latest(files: &Vec<FileResult>, path: &str) -> (r: Option<usize>)
    ensures
        r is None <==> latest_index(paths_of(files@), path@) == -1,
        r matches Some(i) ==> i as int == latest_index(paths_of(files@), path@),
{
    let ghost ps = paths_of(files@);
    let mut i = files.len();
    while i > 0
        invariant
            ps == paths_of(files@),
            i <= files@.len(),
            forall|k: int| i <= k < files@.len() ==> ps[k] != path@,
        decreases i,
    {
        if same_text(files[i - 1].path.as_str(), path) {
            proof {
                assert(ps[i - 1] == path@);
                assert(is_last_occurrence(ps, i - 1));
                lemma_last_occurrence_is_latest(ps, i - 1);
            }
            return Some(i - 1);
        }
        i = i - 1;
    }
    proof {
        lemma_latest_index(ps, path@);
        if ps.contains(path@) {
            let k = choose|k: int| 0 <= k < ps.len() && ps[k] == path@;
            assert(ps[k] != path@);
        }
    }
    None
}

/// Which paths of a list are taken by `select_paths`.
pub enum Selection {
    /// Paths that the other list does not hold.
    Missing,
    /// Paths that the other list holds with another modification time.
    Changed,
}

/// Whether `path`, recorded in `files`, is taken by the selection against
/// `other`.
pub open spec fn selects(
    files: Seq<FileResult>,
    other: Seq<FileResult>,
    sel: Selection,
    path: Seq<char>,
) -> bool {
    match sel {
        Selection::Missing => !paths_of(other).contains(path),
        Selection::Changed => paths_of(other).contains(path) && time_of(other, path) != time_of(
            files,
            path,
        ),
    }
}

/// The paths of `files` that the selection takes against `other`, each once.
pub fn select_paths(files: &Vec<FileResult>, other: &Vec<FileResult>, sel: Selection) -> (r: Vec<
    String,
>)
    ensures
        string_views(r@).no_duplicates(),
        forall|p: Seq<char>|
            string_views(r@).contains(p) <==> paths_of(files@).contains(p) && selects(
                files@,
                other@,
                sel,
                p,
            ),
{
    let ghost ps = paths_of(files@);
    let mut out: Vec<String> = Vec::new();
    let mut i: usize = 0;
    while i < files.len()
        invariant
            ps == paths_of(files@),
            i <= files@.len(),
            string_views(out@).no_duplicates(),
            forall|p: Seq<char>|
                string_views(out@).contains(p) <==> exists|j: int|
                    0 <= j < i && is_last_occurrence(ps, j) && #[trigger] ps[j] == p && selects(
                        files@,
                        other@,
                        sel,
                        p,
                    ),
        decreases files.len() - i,
    {
        let path = files[i].path.as_str();
        let ghost before = string_views(out@);
        let ghost p = ps[i as int];
        let last = match find_latest(files, path) {
            Some(j) => j == i,
            None => false,
        };
        proof {
            lemma_latest_index(ps, p);
            if is_last_occurrence(ps, i as int) {
                lemma_last_occurrence_is_latest(ps, i as int);
            }
        }
        let take = last && match sel {
            Selection::Missing => find_latest(other, path).is_none(),
            Selection::Changed => match find_latest(other, path) {
                Some(k) => {
                    proof {
                        lemma_latest_index(paths_of(other@), p);
                        lemma_last_occurrence_is_latest(ps, i as int);
                    }
                    !same_text(other[k].updated_at.as_str(), files[i].updated_at.as_str())
                },
                None => false,
            },
        };
        proof {
            lemma_latest_index(paths_of(other@), p);
            assert(take <==> is_last_occurrence(ps, i as int) && selects(files@, other@, sel, p));
        }
        if take {
            proof {
                if before.contains(p) {
                    let j = choose|j: int|
                        0 <= j < i && is_last_occurrence(ps, j) && #[trigger] ps[j] == p && selects(
                            files@,
                            other@,
                            sel,
                            p,
                        );
                    assert(ps[i as int] == ps[j]);
                }
            }
            out.push(files[i].path.clone());
            proof {
                assert(string_views(out@) =~= before.push(p));
            }
        }
        proof {
            assert forall|q: Seq<char>|
                string_views(out@).contains(q) <==> exists|j: int|
                    0 <= j < i + 1 && is_last_occurrence(ps, j) && #[trigger] ps[j] == q && selects(
                        files@,
                        other@,
                        sel,
                        q,
                    ) by {
                if string_views(out@).contains(q) {
                    let m = choose|m: int|
                        0 <= m < string_views(out@).len() && string_views(out@)[m] == q;
                    if m < before.len() {
                        assert(before[m] == q);
                        assert(before.contains(q));
                    } else {
                        assert(q == p);
                    }
                }
                if exists|j: int|
                    0 <= j < i + 1 && is_last_occurrence(ps, j) && #[trigger] ps[j] == q && selects(
                        files@,
                        other@,
                        sel,
                        q,
                    ) {
                    let j = choose|j: int|
                        0 <= j < i + 1 && is_last_occurrence(ps, j) && #[trigger] ps[j] == q
                            && selects(files@, other@, sel, q);
                    if j < i {
                        assert(before.contains(q));
                        let m = choose|m: int| 0 <= m < before.len() && before[m] == q;
                        assert(string_views(out@)[m] == q);
                    } else {
                        assert(string_views(out@)[string_views(out@).len() - 1] == q);
                    }
                }
            }
        }
        i = i + 1;
    }
    proof {
        assert forall|q: Seq<char>|
            ps.contains(q) && selects(files@, other@, sel, q) implies string_views(
                out@,
            ).contains(q) by {
            lemma_last_occurrence_exists(ps, q);
        }
    }
    out
}

/// The paths among `paths` that the indexer parses, in order.
pub open spec fn parsable_paths(paths: Seq<Seq<char>>) -> Seq<Seq<char>> {
    paths.filter(|p: Seq<char>| is_parsable_path(p))
}

/// How many of `paths` the indexer parses.
pub fn count_parsable(paths: &Vec<String>) -> (n: usize)
    ensures
        n == parsable_paths(string_views(paths@)).len(),
        n <= paths@.len(),
{
    let ghost v = string_views(paths@);
    let mut n: usize = 0;
    let mut i: usize = 0;
    while i < paths.len()
        invariant
            v == string_views(paths@),
            i <= paths@.len(),
            n <= i,
            n == parsable_paths(v.subrange(0, i as int)).len(),
        decreases paths.len() - i,
    {
        let p = paths[i].as_str();
        if is_excel_ext(p) || is_code_ext(p) {
            n = n + 1;
        }
        proof {
            assert(v.subrange(0, i + 1).drop_last() =~= v.subrange(0, i as int));
            assert(v.subrange(0, i + 1).last() == v[i as int]);
            reveal(Seq::filter);
        }
        i = i + 1;
    }
    proof {
        assert(v.subrange(0, i as int) =~= v);
    }
    n
}

/// A file that is recorded from the last run and is no longer on disk.
pub open spec fn is_deleted(current: Seq<FileResult>, recorded: Seq<FileResult>, p: Seq<char>) -> bool {
    paths_of(recorded).contains(p) && !paths_of(current).contains(p)
}

/// A file that is on disk and was not recorded by the last run.
pub open spec fn is_new(current: Seq<FileResult>, recorded: Seq<FileResult>, p: Seq<char>) -> bool {
    paths_of(current).contains(p) && !paths_of(recorded).contains(p)
}

/// A file that is on disk and recorded, with another modification time.
pub open spec fn is_modified(current: Seq<FileResult>, recorded: Seq<FileResult>, p: Seq<char>) -> bool {
    &&& paths_of(current).contains(p)
    &&& paths_of(recorded).contains(p)
    &&& time_of(recorded, p) != time_of(current, p)
}

/// What an indexing run does to a directory: the recorded files that are
/// gone, the files that are new, the files that changed, and how many of the
/// new and changed files are parsed (for the progress count).
pub struct IndexPlan {
    pub deleted: Vec<String>,
    pub new_files: Vec<String>,
    pub modified_files: Vec<String>,
    pub total: usize,
    /// The records to store once the run is done: each new and then each
    /// modified file with its modification time on disk.
    pub to_mark: Vec<FileResult>,
}

/// File records as the database keeps them: a map from each path to its
/// modification time (a later record of a path wins over an earlier one).
pub open spec fn record_map(files: Seq<FileResult>) -> Map<Seq<char>, Seq<char>> {
    Map::new(|p: Seq<char>| paths_of(files).contains(p), |p: Seq<char>| time_of(files, p))
}

/// `to_mark` holds a record for each of `new_files` and then each of
/// `modified_files`, in that order, with the file's modification time in
/// `current`.
pub open spec fn is_mark_list(
    current: Seq<FileResult>,
    new_files: Seq<Seq<char>>,
    modified_files: Seq<Seq<char>>,
    to_mark: Seq<FileResult>,
) -> bool {
    &&& paths_of(to_mark) == new_files + modified_files
    &&& forall|k: int|
        0 <= k < to_mark.len() ==> (#[trigger] to_mark[k]).updated_at@ == time_of(
            current,
            to_mark[k].path@,
        )
}

/// Appends to `out`, for each of `paths` in order, the path with its
/// modification time in `current` (that of its last record there).
fn push_records(current: &Vec<FileResult>, paths: &Vec<String>, out: &mut Vec<FileResult>)
    requires
        forall|p: Seq<char>| string_views(paths@).contains(p) ==> paths_of(current@).contains(p),
    ensures
        paths_of(final(out)@) == paths_of(old(out)@) + string_views(paths@),
        forall|k: int| 0 <= k < old(out)@.len() ==> final(out)@[k] == old(out)@[k],
        forall|k: int|
            old(out)@.len() <= k < final(out)@.len() ==> (#[trigger] final(out)@[k]).updated_at@
                == time_of(current@, final(out)@[k].path@),
{
    let ghost start = out@;
    let ghost v = string_views(paths@);
    let mut i: usize = 0;
    while i < paths.len()
        invariant
            v == string_views(paths@),
            forall|p: Seq<char>| v.contains(p) ==> paths_of(current@).contains(p),
            i <= paths@.len(),
            out@.len() == start.len() + i,
            paths_of(out@) == paths_of(start) + v.subrange(0, i as int),
            forall|k: int| 0 <= k < start.len() ==> out@[k] == start[k],
            forall|k: int|
                start.len() <= k < out@.len() ==> (#[trigger] out@[k]).updated_at@ == time_of(
                    current@,
                    out@[k].path@,
                ),
        decreases paths.len() - i,
    {
        let path = paths[i].as_str();
        proof {
            assert(v[i as int] == path@);
            assert(v.contains(path@));
            lemma_latest_index(paths_of(current@), path@);
        }
        match find_latest(current, path) {
            Some(j) => {
                let ghost before = out@;
                let rec = FileResult {
                    path: paths[i].clone(),
                    updated_at: current[j].updated_at.clone(),
                };
                out.push(rec);
                proof {
                    assert(out@ == before.push(rec));
                    assert(rec.path@ == v[i as int]);
                    assert(paths_of(out@) =~= paths_of(before).push(rec.path@));
                    assert(v.subrange(0, i + 1) =~= v.subrange(0, i as int).push(v[i as int]));
                    assert(paths_of(out@) =~= paths_of(start) + v.subrange(0, i + 1));
                }
            },
            None => {
                proof {
                    assert(false);
                }
            },
        }
        i = i + 1;
    }
    proof {
        assert(v.subrange(0, i as int) =~= v);
    }
}

/// `deleted`, `new_files` and `modified_files` list, each path once, exactly
/// the deleted, new and modified files of a run that finds the files
/// `current` on disk where the last run recorded `recorded`.
pub open spec fn is_index_plan(
    current: Seq<FileResult>,
    recorded: Seq<FileResult>,
    deleted: Seq<Seq<char>>,
    new_files: Seq<Seq<char>>,
    modified_files: Seq<Seq<char>>,
) -> bool {
    &&& deleted.no_duplicates()
    &&& new_files.no_duplicates()
    &&& modified_files.no_duplicates()
    &&& forall|p: Seq<char>| #[trigger] deleted.contains(p) <==> is_deleted(current, recorded, p)
    &&& forall|p: Seq<char>| #[trigger] new_files.contains(p) <==> is_new(current, recorded, p)
    &&& forall|p: Seq<char>|
        #[trigger] modified_files.contains(p) <==> is_modified(current, recorded, p)
}

/// Two lists without repeats, with no entry in common, that both lie within
/// a third list are together no longer than it.
proof fn lemma_disjoint_lens(a: Seq<Seq<char>>, b: Seq<Seq<char>>, c: Seq<Seq<char>>)
    requires
        a.no_duplicates(),
        b.no_duplicates(),
        forall|x: Seq<char>| a.contains(x) ==> c.contains(x),
        forall|x: Seq<char>| b.contains(x) ==> c.contains(x),
        forall|x: Seq<char>| !(a.contains(x) && b.contains(x)),
    ensures
        a.len() + b.len() <= c.len(),
{
    a.unique_seq_to_set();
    b.unique_seq_to_set();
    c.lemma_cardinality_of_set();
    let u = a.to_set() + b.to_set();
    assert(a.to_set().disjoint(b.to_set()));
    vstd::set_lib::lemma_set_disjoint_lens(a.to_set(), b.to_set());
    assert(u.subset_of(c.to_set()));
    vstd::set_lib::lemma_len_subset(u, c.to_set());
}

/// Compares the files found on disk with the files recorded by the last run
/// (a later record of a path wins over an earlier one) and lists the
/// deleted, new and modified files, each once, with the number of new and
/// modified files that are parsed.
pub fn plan_index(current: &Vec<FileResult>, recorded: &Vec<FileResult>) -> (plan: IndexPlan)
    ensures
        is_index_plan(
            current@,
            recorded@,
            string_views(plan.deleted@),
            string_views(plan.new_files@),
            string_views(plan.modified_files@),
        ),
        plan.total == parsable_paths(string_views(plan.new_files@)).len() + parsable_paths(
            string_views(plan.modified_files@),
        ).len(),
        is_mark_list(
            current@,
            string_views(plan.new_files@),
            string_views(plan.modified_files@),
            plan.to_mark@,
        ),
{
    let deleted = select_paths(recorded, current, Selection::Missing);
    let new_files = select_paths(current, recorded, Selection::Missing);
    let modified_files = select_paths(current, recorded, Selection::Changed);
    let n_new = count_parsable(&new_files);
    let n_modified = count_parsable(&modified_files);
    proof {
        lemma_disjoint_lens(
            string_views(new_files@),
            string_views(modified_files@),
            paths_of(current@),
        );
        assert(string_views(new_files@).len() == new_files@.len());
        assert(string_views(modified_files@).len() == modified_files@.len());
        assert(paths_of(current@).len() == current@.len());
    }
    let n_current = current.len();
    proof {
        assert(n_new + n_modified <= n_current);
    }
    let mut to_mark: Vec<FileResult> = Vec::new();
    push_records(current, &new_files, &mut to_mark);
    push_records(current, &modified_files, &mut to_mark);
    proof {
        assert(paths_of(Seq::<FileResult>::empty()) =~= Seq::<Seq<char>>::empty());
        assert(paths_of(to_mark@) =~= string_views(new_files@) + string_views(modified_files@));
    }
    IndexPlan { deleted, new_files, modified_files, total: n_new + n_modified, to_mark }
}

/// Every path recorded or on disk is in at most one of the classes deleted,
/// new and modified; a path that is in none of them is recorded and on
/// disk with the same modification time.
pub proof fn lemma_index_classes(current: Seq<FileResult>, recorded: Seq<FileResult>, p: Seq<char>)
    requires
        paths_of(current).contains(p) || paths_of(recorded).contains(p),
    ensures
        !(is_deleted(current, recorded, p) && is_new(current, recorded, p)),
        !(is_deleted(current, recorded, p) && is_modified(current, recorded, p)),
        !(is_new(current, recorded, p) && is_modified(current, recorded, p)),
        !is_deleted(current, recorded, p) && !is_new(current, recorded, p) && !is_modified(
            current,
            recorded,
            p,
        ) ==> paths_of(current).contains(p) && paths_of(recorded).contains(p) && time_of(
            recorded,
            p,
        ) == time_of(current, p),
{
}

/// After a run the records match the disk: the recorded paths that are not
/// deleted, together with the new paths, are exactly the paths on disk; and
/// the paths that are parsed again (new and modified) are all on disk.
pub proof fn lemma_index_plan_syncs_records(
    current: Seq<FileResult>,
    recorded: Seq<FileResult>,
    deleted: Seq<Seq<char>>,
    new_files: Seq<Seq<char>>,
    modified_files: Seq<Seq<char>>,
)
    requires
        is_index_plan(current, recorded, deleted, new_files, modified_files),
    ensures
        forall|p: Seq<char>|
            ((paths_of(recorded).contains(p) && !deleted.contains(p)) || new_files.contains(p))
                <==> paths_of(current).contains(p),
        forall|p: Seq<char>|
            new_files.contains(p) || modified_files.contains(p) ==> paths_of(current).contains(p),
{
    assert forall|p: Seq<char>|
        ((paths_of(recorded).contains(p) && !deleted.contains(p)) || new_files.contains(p))
            <==> paths_of(current).contains(p) by {
        assert(deleted.contains(p) <==> is_deleted(current, recorded, p));
        assert(new_files.contains(p) <==> is_new(current, recorded, p));
    }
    assert forall|p: Seq<char>|
        new_files.contains(p) || modified_files.contains(p) implies paths_of(current).contains(p) by {
        assert(new_files.contains(p) <==> is_new(current, recorded, p));
        assert(modified_files.contains(p) <==> is_modified(current, recorded, p));
    }
}

/// A run brings the records up to date: removing the deleted paths from the
/// records of the last run and storing the records to mark over them gives
/// exactly the files on disk, each with its modification time there.
pub proof fn lemma_run_records_match_disk(
    current: Seq<FileResult>,
    recorded: Seq<FileResult>,
    deleted: Seq<Seq<char>>,
    new_files: Seq<Seq<char>>,
    modified_files: Seq<Seq<char>>,
    to_mark: Seq<FileResult>,
)
    requires
        is_index_plan(current, recorded, deleted, new_files, modified_files),
        is_mark_list(current, new_files, modified_files, to_mark),
    ensures
        record_map(recorded).remove_keys(deleted.to_set()).union_prefer_right(record_map(to_mark))
            == record_map(current),
{
    let lhs = record_map(recorded).remove_keys(deleted.to_set()).union_prefer_right(
        record_map(to_mark),
    );
    let marked = paths_of(to_mark);
    assert forall|p: Seq<char>| marked.contains(p) <==> new_files.contains(p) || modified_files.contains(p) by {
        if marked.contains(p) {
            let k = choose|k: int| 0 <= k < marked.len() && marked[k] == p;
            if k < new_files.len() {
                assert(new_files[k] == p);
            } else {
                assert(modified_files[k - new_files.len()] == p);
            }
        }
        if new_files.contains(p) {
            let k = choose|k: int| 0 <= k < new_files.len() && new_files[k] == p;
            assert(marked[k] == p);
        }
        if modified_files.contains(p) {
            let k = choose|k: int| 0 <= k < modified_files.len() && modified_files[k] == p;
            assert(marked[new_files.len() + k] == p);
        }
    }
    assert forall|p: Seq<char>| #[trigger] lhs.dom().contains(p) <==> record_map(current).dom().contains(p) by {
        assert(deleted.contains(p) <==> is_deleted(current, recorded, p));
        assert(new_files.contains(p) <==> is_new(current, recorded, p));
        assert(modified_files.contains(p) <==> is_modified(current, recorded, p));
        assert(deleted.to_set().contains(p) <==> deleted.contains(p));
    }
    assert forall|p: Seq<char>| lhs.dom().contains(p) implies #[trigger] lhs[p] == record_map(current)[p] by {
        if marked.contains(p) {
            lemma_latest_index(marked, p);
            let k = latest_index(marked, p);
            assert(to_mark[k].path@ == p);
        } else {
            assert(!new_files.contains(p) && !modified_files.contains(p));
            assert(new_files.contains(p) <==> is_new(current, recorded, p));
            assert(modified_files.contains(p) <==> is_modified(current, recorded, p));
            assert(deleted.contains(p) <==> is_deleted(current, recorded, p));
            assert(deleted.to_set().contains(p) <==> deleted.contains(p));
        }
    }
    assert(lhs =~= record_map(current));
}

/// Only changes are indexed again: when the records match the disk (as they
/// do after a run), planning finds no deleted, new or modified file.
pub proof fn lemma_unchanged_directory_plans_nothing(
    current: Seq<FileResult>,
    recorded: Seq<FileResult>,
    deleted: Seq<Seq<char>>,
    new_files: Seq<Seq<char>>,
    modified_files: Seq<Seq<char>>,
)
    requires
        is_index_plan(current, recorded, deleted, new_files, modified_files),
        record_map(recorded) == record_map(current),
    ensures
        deleted.len() == 0,
        new_files.len() == 0,
        modified_files.len() == 0,
{
    if deleted.len() > 0 {
        assert(deleted.contains(deleted[0]));
        assert(record_map(recorded).dom().contains(deleted[0]));
    }
    if new_files.len() > 0 {
        assert(new_files.contains(new_files[0]));
        assert(record_map(current).dom().contains(new_files[0]));
    }
    if modified_files.len() > 0 {
        let p = modified_files[0];
        assert(modified_files.contains(p));
        assert(record_map(recorded)[p] == record_map(current)[p]);
    }
}

/// The workbooks among `paths`, in order.
pub open spec fn excel_paths(paths: Seq<Seq<char>>) -> Seq<Seq<char>> {
    paths.filter(|p: Seq<char>| is_excel_path(p))
}

/// The source files among `paths`, in order.
pub open spec fn code_paths(paths: Seq<Seq<char>>) -> Seq<Seq<char>> {
    paths.filter(|p: Seq<char>| is_code_path(p))
}

/// Splits the paths to parse into workbooks and source files, each in the
/// order given; paths of neither kind are left out.
pub fn split_by_kind(paths: &Vec<String>) -> (r: (Vec<String>, Vec<String>))
    ensures
        string_views(r.0@) == excel_paths(string_views(paths@)),
        string_views(r.1@) == code_paths(string_views(paths@)),
{
    let ghost v = string_views(paths@);
    let mut excel: Vec<String> = Vec::new();
    let mut code: Vec<String> = Vec::new();
    let mut i: usize = 0;
    while i < paths.len()
        invariant
            v == string_views(paths@),
            i <= paths@.len(),
            string_views(excel@) == excel_paths(v.subrange(0, i as int)),
            string_views(code@) == code_paths(v.subrange(0, i as int)),
        decreases paths.len() - i,
    {
        let p = paths[i].as_str();
        let ghost ex = excel@;
        let ghost co = code@;
        if is_excel_ext(p) {
            let c = paths[i].clone();
            excel.push(c);
            proof {
                assert(excel@ == ex.push(c));
                assert(string_views(excel@) =~= string_views(ex).push(c@));
            }
        }
        if is_code_ext(p) {
            let c = paths[i].clone();
            code.push(c);
            proof {
                assert(code@ == co.push(c));
                assert(string_views(code@) =~= string_views(co).push(c@));
            }
        }
        proof {
            assert(v.subrange(0, i + 1).drop_last() =~= v.subrange(0, i as int));
            assert(v.subrange(0, i + 1).last() == v[i as int]);
            reveal(Seq::filter);
        }
        i = i + 1;
    }
    proof {
        assert(v.subrange(0, i as int) =~= v);
    }
    (excel, code)
}

/// No path is both a workbook and a source file.
pub proof fn lemma_kinds_disjoint(p: Seq<char>)
    ensures
        !(is_excel_path(p) && is_code_path(p)),
{
    reveal_strlit("xlsx");
    reveal_strlit("xls");
    reveal_strlit("xlsm");
    reveal_strlit("xlsb");
    reveal_strlit("rs");
    reveal_strlit("py");
    reveal_strlit("cpp");
    reveal_strlit("cc");
    reveal_strlit("c");
    reveal_strlit("h");
    reveal_strlit("hpp");
    reveal_strlit("cs");
    let e = path_extension(p);
    if is_excel_path(p) {
        assert(e.len() >= 3 && e[0] == 'x');
    }
    if is_code_path(p) {
        assert(e.len() > 0 && e[0] != 'x');
    }
}

/// The chunks of a list, seen as (path, content) pairs.
pub open spec fn chunk_views(s: Seq<ParsedFile>) -> Seq<(Seq<char>, Seq<char>)> {
    s.map_values(|c: ParsedFile| c@)
}

/// The paths of a list of chunks.
pub open spec fn chunk_paths(s: Seq<ParsedFile>) -> Seq<Seq<char>> {
    s.map_values(|c: ParsedFile| c.path@)
}

/// The chunks of the file `path`, in order.
pub open spec fn chunks_in_file(s: Seq<ParsedFile>, path: Seq<char>) -> Seq<(Seq<char>, Seq<char>)> {
    chunk_views(s).filter(|v: (Seq<char>, Seq<char>)| v.0 == path)
}

/// The chunks of one file.
pub struct FileChunks {
    pub path: String,
    pub chunks: Vec<ParsedFile>,
}

/// Whether `path` is one of `paths`.
pub fn contains_path(paths: &Vec<String>, path: &str) -> (r: bool)
    ensures
        r == string_views(paths@).contains(path@),
{
    let mut i: usize = 0;
    while i < paths.len()
        invariant
            i <= paths@.len(),
            forall|k: int| 0 <= k < i ==> paths@[k]@ != path@,
        decreases paths.len() - i,
    {
        if same_text(paths[i].as_str(), path) {
            assert(string_views(paths@)[i as int] == path@);
            return true;
        }
        i = i + 1;
    }
    proof {
        if string_views(paths@).contains(path@) {
            let k = choose|k: int|
                0 <= k < string_views(paths@).len() && string_views(paths@)[k] == path@;
            assert(paths@[k]@ == path@);
        }
    }
    false
}

/// The chunks of `chunks` that belong to the file `path`, in order.
pub fn chunks_of_file(chunks: &Vec<ParsedFile>, path: &str) -> (r: Vec<ParsedFile>)
    ensures
        chunk_views(r@) == chunks_in_file(chunks@, path@),
{
    let ghost v = chunk_views(chunks@);
    let ghost pred = |x: (Seq<char>, Seq<char>)| x.0 == path@;
    let mut out: Vec<ParsedFile> = Vec::new();
    let mut i: usize = 0;
    while i < chunks.len()
        invariant
            v == chunk_views(chunks@),
            pred == (|x: (Seq<char>, Seq<char>)| x.0 == path@),
            i <= chunks@.len(),
            chunk_views(out@) == v.subrange(0, i as int).filter(pred),
        decreases chunks.len() - i,
    {
        let ghost before = out@;
        if same_text(chunks[i].path.as_str(), path) {
            let c = chunks[i].copy_chunk();
            out.push(c);
            proof {
                assert(out@ == before.push(c));
                assert(chunk_views(out@) =~= chunk_views(before).push(c@));
            }
        }
        proof {
            assert(v.subrange(0, i + 1).drop_last() =~= v.subrange(0, i as int));
            assert(v.subrange(0, i + 1).last() == v[i as int]);
            reveal(Seq::filter);
        }
        i = i + 1;
    }
    proof {
        assert(v.subrange(0, i as int) =~= v);
    }
    out
}

/// Groups chunks by file: one group per path, each path once; each group
/// holds the chunks of its file in their order.
pub fn group_by_file(chunks: &Vec<ParsedFile>) -> (groups: Vec<FileChunks>)
    ensures
        groups@.map_values(|g: FileChunks| g.path@).no_duplicates(),
        forall|p: Seq<char>|
            groups@.map_values(|g: FileChunks| g.path@).contains(p) <==> chunk_paths(
                chunks@,
            ).contains(p),
        forall|k: int|
            0 <= k < groups@.len() ==> chunk_views(#[trigger] groups@[k].chunks@) == chunks_in_file(
                chunks@,
                groups@[k].path@,
            ),
{
    let ghost cp = chunk_paths(chunks@);
    let mut paths: Vec<String> = Vec::new();
    let mut i: usize = 0;
    while i < chunks.len()
        invariant
            cp == chunk_paths(chunks@),
            i <= chunks@.len(),
            string_views(paths@).no_duplicates(),
            forall|p: Seq<char>|
                string_views(paths@).contains(p) <==> exists|j: int|
                    0 <= j < i && #[trigger] cp[j] == p,
        decreases chunks.len() - i,
    {
        let ghost before = string_views(paths@);
        let ghost p = cp[i as int];
        if !contains_path(&paths, chunks[i].path.as_str()) {
            let c = chunks[i].path.clone();
            let ghost raw = paths@;
            paths.push(c);
            proof {
                assert(paths@ == raw.push(c));
                assert(string_views(paths@) =~= before.push(p));
            }
        }
        proof {
            assert forall|q: Seq<char>|
                string_views(paths@).contains(q) <==> exists|j: int|
                    0 <= j < i + 1 && #[trigger] cp[j] == q by {
                if string_views(paths@).contains(q) {
                    let m = choose|m: int|
                        0 <= m < string_views(paths@).len() && string_views(paths@)[m] == q;
                    if m < before.len() {
                        assert(before[m] == q);
                        assert(before.contains(q));
                    } else {
                        assert(cp[i as int] == q);
                    }
                }
                if exists|j: int| 0 <= j < i + 1 && #[trigger] cp[j] == q {
                    let j = choose|j: int| 0 <= j < i + 1 && #[trigger] cp[j] == q;
                    if j < i {
                        assert(before.contains(q));
                        let m = choose|m: int| 0 <= m < before.len() && before[m] == q;
                        assert(string_views(paths@)[m] == q);
                    } else if before.contains(q) {
                        let m = choose|m: int| 0 <= m < before.len() && before[m] == q;
                        assert(string_views(paths@)[m] == q);
                    } else {
                        assert(string_views(paths@)[string_views(paths@).len() - 1] == q);
                    }
                }
            }
        }
        i = i + 1;
    }
    let mut groups: Vec<FileChunks> = Vec::new();
    let mut k: usize = 0;
    while k < paths.len()
        invariant
            k <= paths@.len(),
            groups@.len() == k,
            forall|m: int| 0 <= m < k ==> #[trigger] groups@[m].path@ == paths@[m]@,
            forall|m: int|
                0 <= m < k ==> chunk_views(#[trigger] groups@[m].chunks@) == chunks_in_file(
                    chunks@,
                    groups@[m].path@,
                ),
        decreases paths.len() - k,
    {
        let file_chunks = chunks_of_file(chunks, paths[k].as_str());
        groups.push(FileChunks { path: paths[k].clone(), chunks: file_chunks });
        k = k + 1;
    }
    proof {
        assert(groups@.map_values(|g: FileChunks| g.path@) =~= string_views(paths@));
    }
    groups
}

/// A sheet of a workbook: its name, and its rows of cell texts (an empty
/// text for an empty cell), or `None` when the sheet's cells could not be
/// read.
pub struct Sheet {
    pub name: String,
    pub rows: Option<Vec<Vec<String>>>,
}

/// The cells of a row joined with tabs.
pub open spec fn join_cells(cells: Seq<Seq<char>>) -> Seq<char>
    decreases cells.len(),
{
    if cells.len() == 0 {
        seq![]
    } else if cells.len() == 1 {
        cells[0]
    } else {
        join_cells(cells.drop_last()) + "\t"@ + cells.last()
    }
}

/// Some cell of the row holds text.
pub open spec fn has_text(cells: Seq<Seq<char>>) -> bool {
    exists|i: int| 0 <= i < cells.len() && #[trigger] cells[i].len() > 0
}

/// The text of a row: its cells joined with tabs and a line break, or nothing
/// when every cell is empty.
pub open spec fn row_text(cells: Seq<Seq<char>>) -> Seq<char> {
    if has_text(cells) {
        join_cells(cells) + "\n"@
    } else {
        seq![]
    }
}

/// The text of a sequence of rows.
pub open spec fn rows_text(rows: Seq<Vec<String>>) -> Seq<char>
    decreases rows.len(),
{
    if rows.len() == 0 {
        seq![]
    } else {
        rows_text(rows.drop_last()) + row_text(string_views(rows.last()@))
    }
}

/// The text of a sheet: a `# name` heading line, its rows and an empty line;
/// nothing for a sheet whose cells could not be read.
pub open spec fn sheet_text(sheet: Sheet) -> Seq<char> {
    match sheet.rows {
        Some(rows) => "# "@ + sheet.name@ + "\n"@ + rows_text(rows@) + "\n"@,
        None => seq![],
    }
}

/// The text of a workbook: the texts of its sheets in order.
pub open spec fn workbook_text(sheets: Seq<Sheet>) -> Seq<char>
    decreases sheets.len(),
{
    if sheets.len() == 0 {
        seq![]
    } else {
        workbook_text(sheets.drop_last()) + sheet_text(sheets.last())
    }
}

/// The cells of a row are joined with one tab between neighbours: a single
/// cell is written as it is, and adding a cell to a row adds a tab and the
/// cell to its text.
pub proof fn lemma_cells_joined_by_tabs(cells: Seq<Seq<char>>, cell: Seq<char>)
    ensures
        join_cells(seq![cell]) == cell,
        cells.len() > 0 ==> join_cells(cells.push(cell)) == join_cells(cells) + seq!['\t'] + cell,
{
    reveal_strlit("\t");
    assert(cells.push(cell).drop_last() =~= cells);
}

/// Every cell of a row stands, whole, in the row's cells joined with tabs.
proof fn lemma_cell_in_join(cells: Seq<Seq<char>>, i: int)
    requires
        0 <= i < cells.len(),
    ensures
        exists|a: Seq<char>, b: Seq<char>| join_cells(cells) == a + cells[i] + b,
    decreases cells.len(),
{
    if cells.len() == 1 {
        assert(join_cells(cells) =~= Seq::<char>::empty() + cells[i] + Seq::<char>::empty());
    } else if i == cells.len() - 1 {
        let a = join_cells(cells.drop_last()) + "\t"@;
        assert(join_cells(cells) =~= a + cells[i] + Seq::<char>::empty());
    } else {
        lemma_cell_in_join(cells.drop_last(), i);
        let (a, b) = choose|a: Seq<char>, b: Seq<char>|
            join_cells(cells.drop_last()) == a + cells.drop_last()[i] + b;
        assert(join_cells(cells) =~= a + cells[i] + (b + "\t"@ + cells.last()));
    }
}

/// The rows' texts stand, whole and in order, in the text of the rows.
proof fn lemma_row_in_rows(rows: Seq<Vec<String>>, r: int)
    requires
        0 <= r < rows.len(),
    ensures
        exists|a: Seq<char>, b: Seq<char>| rows_text(rows) == a + row_text(string_views(rows[r]@)) + b,
    decreases rows.len(),
{
    if r == rows.len() - 1 {
        assert(rows_text(rows) =~= rows_text(rows.drop_last()) + row_text(string_views(rows[r]@))
            + Seq::<char>::empty());
    } else {
        lemma_row_in_rows(rows.drop_last(), r);
        let (a, b) = choose|a: Seq<char>, b: Seq<char>|
            rows_text(rows.drop_last()) == a + row_text(string_views(rows.drop_last()[r]@)) + b;
        assert(rows_text(rows) =~= a + row_text(string_views(rows[r]@)) + (b + row_text(
            string_views(rows.last()@),
        )));
    }
}

/// A row is written exactly when some cell of it, at any position, holds
/// text: then the text of the row is its cells joined with tabs and a line
/// break, and every cell stands in it; a row of empty cells gives no text.
pub proof fn lemma_row_written(cells: Seq<Seq<char>>, i: int)
    ensures
        (exists|k: int| 0 <= k < cells.len() && #[trigger] cells[k].len() > 0) ==> row_text(cells)
            == join_cells(cells) + "\n"@,
        (forall|k: int| 0 <= k < cells.len() ==> #[trigger] cells[k].len() == 0) ==> row_text(
            cells,
        ).len() == 0,
        0 <= i < cells.len() && cells[i].len() > 0 ==> exists|a: Seq<char>, b: Seq<char>|
            row_text(cells) == a + cells[i] + b,
{
    if 0 <= i < cells.len() && cells[i].len() > 0 {
        lemma_cell_in_join(cells, i);
        let (a, b) = choose|a: Seq<char>, b: Seq<char>| join_cells(cells) == a + cells[i] + b;
        assert(row_text(cells) =~= a + cells[i] + (b + "\n"@));
    }
}

/// No text of a readable sheet is lost: every non-empty cell, in any row and
/// at any position, stands whole in the text of the workbook.
pub proof fn lemma_cells_reach_workbook_text(sheets: Seq<Sheet>, s: int, r: int, i: int)
    requires
        0 <= s < sheets.len(),
        sheets[s].rows is Some,
        0 <= r < sheets[s].rows->0@.len(),
        0 <= i < sheets[s].rows->0@[r]@.len(),
        sheets[s].rows->0@[r]@[i]@.len() > 0,
    ensures
        exists|a: Seq<char>, b: Seq<char>|
            workbook_text(sheets) == a + sheets[s].rows->0@[r]@[i]@ + b,
    decreases sheets.len(),
{
    let rows = sheets[s].rows->0@;
    let cells = string_views(rows[r]@);
    let cell = rows[r]@[i]@;
    assert(cells[i] == cell);
    lemma_row_written(cells, i);
    let (a1, b1) = choose|a: Seq<char>, b: Seq<char>| row_text(cells) == a + cells[i] + b;
    lemma_row_in_rows(rows, r);
    let (a2, b2) = choose|a: Seq<char>, b: Seq<char>| rows_text(rows) == a + row_text(cells) + b;
    let head = "# "@ + sheets[s].name@ + "\n"@;
    assert(sheet_text(sheets[s]) =~= (head + a2 + a1) + cell + (b1 + b2 + "\n"@));
    if s == sheets.len() - 1 {
        assert(workbook_text(sheets) =~= (workbook_text(sheets.drop_last()) + head + a2 + a1) + cell
            + (b1 + b2 + "\n"@));
    } else {
        lemma_cells_reach_workbook_text(sheets.drop_last(), s, r, i);
        let (a, b) = choose|a: Seq<char>, b: Seq<char>|
            workbook_text(sheets.drop_last()) == a + sheets.drop_last()[s].rows->0@[r]@[i]@ + b;
        assert(workbook_text(sheets) =~= a + cell + (b + sheet_text(sheets.last())));
    }
}

/// Whether some cell of the row holds text.
pub fn row_has_text(cells: &Vec<String>) -> (r: bool)
    ensures
        r == has_text(string_views(cells@)),
{
    let mut i: usize = 0;
    while i < cells.len()
        invariant
            i <= cells@.len(),
            forall|k: int| 0 <= k < i ==> cells@[k]@.len() == 0,
        decreases cells.len() - i,
    {
        if !cells[i].as_str().is_empty() {
            assert(string_views(cells@)[i as int].len() > 0);
            return true;
        }
        i = i + 1;
    }
    proof {
        if has_text(string_views(cells@)) {
            let k = choose|k: int|
                0 <= k < string_views(cells@).len() && #[trigger] string_views(cells@)[k].len() > 0;
            assert(cells@[k]@.len() == 0);
        }
    }
    false
}

/// Appends the cells of a row to `text`, joined with tabs.
pub fn append_joined(text: &mut String, cells: &Vec<String>)
    ensures
        final(text)@ == old(text)@ + join_cells(string_views(cells@)),
{
    let ghost v = string_views(cells@);
    let ghost start = text@;
    let mut i: usize = 0;
    while i < cells.len()
        invariant
            v == string_views(cells@),
            start == old(text)@,
            i <= cells@.len(),
            text@ == start + join_cells(v.subrange(0, i as int)),
        decreases cells.len() - i,
    {
        let ghost before = text@;
        if i > 0 {
            text.append("\t");
        }
        text.append(cells[i].as_str());
        proof {
            let sub = v.subrange(0, i + 1);
            assert(sub.drop_last() =~= v.subrange(0, i as int));
            assert(sub.last() == v[i as int]);
            if i == 0 {
                assert(join_cells(sub) == v[0]);
                assert(text@ =~= start + join_cells(sub));
            } else {
                assert(text@ =~= start + join_cells(sub));
            }
        }
        i = i + 1;
    }
    proof {
        assert(v.subrange(0, i as int) =~= v);
    }
}

/// The text of a workbook for the index: for each sheet whose cells could be
/// read, a `# name` heading line, one line per row that holds some text with
/// its cells joined by tabs, and an empty line.
pub fn render_workbook(sheets: &Vec<Sheet>) -> (text: String)
    ensures
        text@ == workbook_text(sheets@),
{
    let mut text = String::new();
    let mut s: usize = 0;
    while s < sheets.len()
        invariant
            s <= sheets@.len(),
            text@ == workbook_text(sheets@.subrange(0, s as int)),
        decreases sheets.len() - s,
    {
        let sheet = &sheets[s];
        let ghost before = text@;
        match &sheet.rows {
            Some(rows) => {
                text.append("# ");
                text.append(sheet.name.as_str());
                text.append("\n");
                let ghost head = text@;
                let mut r: usize = 0;
                while r < rows.len()
                    invariant
                        r <= rows@.len(),
                        text@ == head + rows_text(rows@.subrange(0, r as int)),
                    decreases rows.len() - r,
                {
                    let ghost prev = text@;
                    if row_has_text(&rows[r]) {
                        append_joined(&mut text, &rows[r]);
                        text.append("\n");
                    }
                    proof {
                        let sub = rows@.subrange(0, r + 1);
                        assert(sub.drop_last() =~= rows@.subrange(0, r as int));
                        assert(sub.last() == rows@[r as int]);
                        assert(text@ =~= head + rows_text(sub));
                    }
                    r = r + 1;
                }
                proof {
                    assert(rows@.subrange(0, r as int) =~= rows@);
                }
                text.append("\n");
                proof {
                    assert(text@ =~= before + sheet_text(*sheet));
                }
            },
            None => {},
        }
        proof {
            let sub = sheets@.subrange(0, s + 1);
            assert(sub.drop_last() =~= sheets@.subrange(0, s as int));
            assert(sub.last() == sheets@[s as int]);
            assert(text@ =~= workbook_text(sub));
        }
        s = s + 1;
    }
    proof {
        assert(sheets@.subrange(0, s as int) =~= sheets@);
    }
    text
}

/// The contents of a list of chunks.
pub open spec fn chunk_contents(s: Seq<ParsedFile>) -> Seq<Seq<char>> {
    s.map_values(|c: ParsedFile| c.content@)
}

/// The chunks of a source file, given its text (`None` when it could not be
/// read, which gives no chunk): the chunks that `parse_chunks` gives for the
/// file's extension or, when it fails, the whole text as the one chunk; each
/// chunk carries the file's path.
pub fn code_file_chunks(path: &str, source: Option<String>) -> (r: Vec<ParsedFile>)
    ensures
        source is None ==> r@.len() == 0,
        source is Some ==> r@.len() >= 1,
        forall|k: int| 0 <= k < r@.len() ==> (#[trigger] r@[k]).path@ == path@,
        source matches Some(src) ==> chunk_contents(r@) == match code_chunks(
            src@,
            path_extension(path@),
        ) {
            Ok(c) => c,
            Err(_) => seq![src@],
        },
{
    let src = match source {
        Some(s) => s,
        None => {
            return Vec::new();
        },
    };
    let ext = extension_of(path);
    let texts = match parse_chunks(src.as_str(), ext.as_str()) {
        Ok(c) => c,
        Err(_) => vec![src.clone()],
    };
    let ghost tv = string_views(texts@);
    let mut out: Vec<ParsedFile> = Vec::new();
    let mut i: usize = 0;
    while i < texts.len()
        invariant
            tv == string_views(texts@),
            i <= texts@.len(),
            out@.len() == i,
            forall|k: int| 0 <= k < i ==> (#[trigger] out@[k]).path@ == path@,
            chunk_contents(out@) == tv.subrange(0, i as int),
        decreases texts.len() - i,
    {
        let ghost before = out@;
        let c = ParsedFile { path: path.to_owned(), content: texts[i].clone() };
        out.push(c);
        proof {
            assert(out@ == before.push(c));
            assert(chunk_contents(out@) =~= tv.subrange(0, i + 1));
        }
        i = i + 1;
    }
    proof {
        assert(tv.subrange(0, i as int) =~= tv);
        assert(tv.len() == texts@.len());
    }
    out
}

/// The directories being indexed at the moment. Indexing a directory that
/// is already being indexed is refused, so that the start-up re-indexing and
/// a manual one never run on the same directory at once.
pub struct IndexingSet {
    dirs: Vec<String>,
}

impl View for IndexingSet {
    type V = Set<Seq<char>>;

    closed spec fn view(&self) -> Set<Seq<char>> {
        string_views(self.dirs@).to_set()
    }
}

impl IndexingSet {
    /// The set holds each directory once.
    pub closed spec fn wf(&self) -> bool {
        string_views(self.dirs@).no_duplicates()
    }

    /// An empty set.
    pub fn new() -> (s: IndexingSet)
        ensures
            s.wf(),
            s@ == Set::<Seq<char>>::empty(),
    {
        let s = IndexingSet { dirs: Vec::new() };
        proof {
            assert(string_views(s.dirs@) =~= Seq::<Seq<char>>::empty());
            assert(s@ =~= Set::<Seq<char>>::empty());
        }
        s
    }

    /// Marks `dir` as being indexed. Returns `false`, changing nothing, when
    /// it already is.
    pub fn try_begin(&mut self, dir: &str) -> (started: bool)
        requires
            old(self).wf(),
        ensures
            final(self).wf(),
            started == !old(self)@.contains(dir@),
            final(self)@ == old(self)@.insert(dir@),
    {
        if contains_path(&self.dirs, dir) {
            proof {
                assert(self@ =~= old(self)@.insert(dir@));
            }
            return false;
        }
        let ghost before = self.dirs@;
        let d = dir.to_owned();
        self.dirs.push(d);
        proof {
            let w = string_views(before);
            assert(self.dirs@ == before.push(d));
            assert(string_views(self.dirs@) =~= w.push(dir@));
            assert forall|x: Seq<char>| w.push(dir@).contains(x) <==> (w.contains(x) || x == dir@) by {
                if w.push(dir@).contains(x) {
                    let m = choose|m: int| 0 <= m < w.len() + 1 && w.push(dir@)[m] == x;
                    if m < w.len() {
                        assert(w[m] == x);
                    }
                }
                if w.contains(x) {
                    let m = choose|m: int| 0 <= m < w.len() && w[m] == x;
                    assert(w.push(dir@)[m] == x);
                }
                if x == dir@ {
                    assert(w.push(dir@)[w.len() as int] == x);
                }
            }
            assert(self@ =~= old(self)@.insert(dir@));
        }
        true
    }

    /// Marks `dir` as no longer being indexed.
    pub fn finish(&mut self, dir: &str)
        requires
            old(self).wf(),
        ensures
            final(self).wf(),
            final(self)@ == old(self)@.remove(dir@),
    {
        let ghost v = string_views(self.dirs@);
        let mut i: usize = 0;
        while i < self.dirs.len()
            invariant
                v == string_views(self.dirs@),
                self.dirs@ == old(self).dirs@,
                v.no_duplicates(),
                i <= self.dirs@.len(),
                forall|k: int| 0 <= k < i ==> v[k] != dir@,
            decreases self.dirs.len() - i,
        {
            if same_text(self.dirs[i].as_str(), dir) {
                let ghost before = self.dirs@;
                proof {
                    assert(v[i as int] == dir@);
                }
                self.dirs.remove(i);
                proof {
                    let after = string_views(self.dirs@);
                    assert(after =~= v.remove(i as int));
                    assert(after.no_duplicates()) by {
                        assert forall|a: int, b: int|
                            0 <= a < after.len() && 0 <= b < after.len() && a != b implies after[a]
                            != after[b] by {
                            let a2 = if a < i {
                                a
                            } else {
                                a + 1
                            };
                            let b2 = if b < i {
                                b
                            } else {
                                b + 1
                            };
                            assert(after[a] == v[a2]);
                            assert(after[b] == v[b2]);
                        }
                    }
                    assert forall|x: Seq<char>| after.contains(x) <==> v.contains(x) && x != dir@ by {
                        if after.contains(x) {
                            let m = choose|m: int| 0 <= m < after.len() && after[m] == x;
                            let m2 = if m < i {
                                m
                            } else {
                                m + 1
                            };
                            assert(v[m2] == x);
                            assert(m2 != i);
                        }
                        if v.contains(x) && x != dir@ {
                            let m = choose|m: int| 0 <= m < v.len() && v[m] == x;
                            if m < i {
                                assert(after[m] == x);
                            } else {
                                assert(m != i);
                                assert(after[m - 1] == x);
                            }
                        }
                    }
                    assert(self@ =~= old(self)@.remove(dir@));
                }
                return;
            }
            i = i + 1;
        }
        proof {
            assert(!v.contains(dir@));
            assert(self@ =~= old(self)@.remove(dir@));
        }
    }
}

/// While a directory is being indexed a second start on it is refused; once
/// it is finished it can be started again; starting and finishing one
/// directory leaves the others as they were.
pub proof fn lemma_indexing_guard(s: Set<Seq<char>>, dir: Seq<char>, other: Seq<char>)
    ensures
        s.insert(dir).contains(dir),
        !s.insert(dir).remove(dir).contains(dir),
        other != dir ==> (s.insert(dir).contains(other) == s.contains(other)),
        other != dir ==> (s.remove(dir).contains(other) == s.contains(other)),
{
}

} // verus!
