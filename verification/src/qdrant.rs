//! What the indexer decides about the vector store: the content-addressed id
//! of each chunk, the payload stored with it, and which chunks a changed file
//! must delete and insert.

use vstd::prelude::*;
use vstd::std_specs::hash::DefaultHasherAdditionalSpecFns;
use vstd::string::StringSliceAdditionalSpecFns;
use vstd::utf8::*;

use std::collections::hash_map::DefaultHasher;
use std::collections::{HashMap, HashSet};
use std::hash::Hasher;

use crate::occurrence::{
    is_last_occurrence, latest_index, lemma_last_occurrence_exists, lemma_last_occurrence_is_latest,
    lemma_latest_index,
};
use crate::text::{extension_of, lowercase, path_extension, to_lowercase};

verus! {

broadcast use vstd::std_specs::hash::group_hash_axioms;

/// A chunk handed to the vector store: one definition of a code file, or a
/// whole file. One file may give several chunks.
pub struct ParsedFile {
    pub path: String,
    pub content: String,
}

impl View for ParsedFile {
    type V = (Seq<char>, Seq<char>);

    open spec fn view(&self) -> (Seq<char>, Seq<char>) {
        (self.path@, self.content@)
    }
}

impl ParsedFile {
    /// A copy of this chunk.
    pub fn copy_chunk(&self) -> (c: ParsedFile)
        ensures
            c@ == self@,
    {
        ParsedFile { path: self.path.clone(), content: self.content.clone() }
    }
}

/// The id of a chunk: the `DefaultHasher` digest of its path and its content,
/// each hashed as a `str` is (its UTF-8 bytes, then the byte `0xff`).
pub open spec fn chunk_id(path: Seq<char>, content: Seq<char>) -> u64 {
    DefaultHasher::spec_finish(
        seq![encode_utf8(path), seq![0xffu8], encode_utf8(content), seq![0xffu8]],
    )
}

/// A chunk's id hashes both its path and its content, whatever they are: it
/// is the `DefaultHasher` digest of the path's UTF-8 bytes, `0xff`, the
/// content's UTF-8 bytes and `0xff`; and two chunks that differ in path or in
/// content have their ids computed from different byte streams, so the same
/// definition in two files is hashed as two different inputs.
pub proof fn lemma_chunk_id_hashes_path_and_content(
    path1: Seq<char>,
    content1: Seq<char>,
    path2: Seq<char>,
    content2: Seq<char>,
)
    ensures
        chunk_id(path1, content1) == DefaultHasher::spec_finish(
            seq![encode_utf8(path1), seq![0xffu8], encode_utf8(content1), seq![0xffu8]],
        ),
        path1 != path2 || content1 != content2 ==> seq![
            encode_utf8(path1),
            seq![0xffu8],
            encode_utf8(content1),
            seq![0xffu8],
        ] != seq![encode_utf8(path2), seq![0xffu8], encode_utf8(content2), seq![0xffu8]],
{
    let s1 = seq![encode_utf8(path1), seq![0xffu8], encode_utf8(content1), seq![0xffu8]];
    let s2 = seq![encode_utf8(path2), seq![0xffu8], encode_utf8(content2), seq![0xffu8]];
    if s1 == s2 {
        assert(s1[0] == s2[0]);
        assert(s1[2] == s2[2]);
        encode_utf8_decode_utf8(path1);
        encode_utf8_decode_utf8(path2);
        encode_utf8_decode_utf8(content1);
        encode_utf8_decode_utf8(content2);
    }
}

/// The ids of a list of chunks.
pub open spec fn chunk_ids(chunks: Seq<ParsedFile>) -> Seq<u64> {
    chunks.map_values(|c: ParsedFile| chunk_id(c.path@, c.content@))
}

/// The id of a chunk in the vector store, `hash(path, content)`: the same
/// path and content always give the same id, so storing a chunk again
/// overwrites it instead of adding a copy.
pub fn chunk_to_id(path: &str, content: &str) -> (id: u64)
    ensures
        id == chunk_id(path@, content@),
{
    let sep: [u8; 1] = [0xffu8];
    let mut hasher = DefaultHasher::new();
    hasher.write(path.as_bytes());
    hasher.write(&sep);
    hasher.write(content.as_bytes());
    hasher.write(&sep);
    proof {
        assert(sep@ =~= seq![0xffu8]);
        assert(hasher@ =~= seq![encode_utf8(path@), seq![0xffu8], encode_utf8(content@), seq![0xffu8]]);
    }
    hasher.finish()
}

/// The extension of a path in lower case, as stored with each chunk for the
/// extension filter of the search; empty when the file name has no `.`.
pub fn get_ext(path: &str) -> (ext: String)
    ensures
        ext@ == lowercase(path_extension(path@)),
        path_extension(path@).len() == 0 ==> ext@.len() == 0,
{
    let e = extension_of(path);
    to_lowercase(e.as_str())
}

/// What is stored in the vector store for one chunk besides its vector: its
/// id, its file, its content and the file's extension.
pub struct PointRecord {
    pub id: u64,
    pub file: String,
    pub content: String,
    pub ext: String,
}

/// The record stored for a chunk: the chunk's id, path and content, and the
/// lower-case extension of its path.
pub fn point_record(chunk: &ParsedFile) -> (r: PointRecord)
    ensures
        r.id == chunk_id(chunk.path@, chunk.content@),
        r.file@ == chunk.path@,
        r.content@ == chunk.content@,
        r.ext@ == lowercase(path_extension(chunk.path@)),
{
    PointRecord {
        id: chunk_to_id(chunk.path.as_str(), chunk.content.as_str()),
        file: chunk.path.clone(),
        content: chunk.content.clone(),
        ext: get_ext(chunk.path.as_str()),
    }
}

/// The file and content of a search hit, when its stored payload holds both
/// as text; a hit that lacks either is dropped (`None`).
pub fn hit_texts(file: Option<&str>, content: Option<&str>) -> (r: Option<(String, String)>)
    ensures
        r is Some <==> file is Some && content is Some,
        r matches Some(t) ==> t.0@ == file->0@ && t.1@ == content->0@,
{
    match (file, content) {
        (Some(f), Some(c)) => Some((f.to_owned(), c.to_owned())),
        _ => None,
    }
}

/// How many chunks are embedded and upserted in one request.
pub const CHUNK_SIZE: usize = 64;

/// How many chunks a search returns at most.
pub const SEARCH_LIMIT: u64 = 10;

/// The extensions a search is restricted to: none (`None`, every chunk is a
/// candidate) when the list is empty, else the list itself.
pub fn extension_filter(extensions: &Vec<String>) -> (r: Option<&Vec<String>>)
    ensures
        r is None <==> extensions@.len() == 0,
        r matches Some(v) ==> v@ == extensions@,
{
    if extensions.len() == 0 {
        None
    } else {
        Some(extensions)
    }
}

/// The batches in which `len` chunks are embedded and upserted: the
/// consecutive ranges `[CHUNK_SIZE * k, CHUNK_SIZE * (k + 1))` that cover
/// `0..len` in order, the last one cut at `len`.
pub fn batch_bounds(len: usize) -> (r: Vec<(usize, usize)>)
    ensures
        r@.len() == 0 <==> len == 0,
        r@.len() > 0 ==> r@.last().1 == len,
        forall|k: int|
            0 <= k < r@.len() ==> (#[trigger] r@[k]).0 == CHUNK_SIZE * k && r@[k].0 < r@[k].1
                && r@[k].1 == if CHUNK_SIZE * k + CHUNK_SIZE <= len {
                CHUNK_SIZE * k + CHUNK_SIZE
            } else {
                len as int
            },
{
    let mut r: Vec<(usize, usize)> = Vec::new();
    let mut start: usize = 0;
    while start < len
        invariant
            start <= len,
            r@.len() == 0 ==> start == 0,
            start < len ==> start == CHUNK_SIZE * r@.len(),
            r@.len() > 0 ==> r@.last().1 == start,
            forall|k: int|
                0 <= k < r@.len() ==> (#[trigger] r@[k]).0 == CHUNK_SIZE * k && r@[k].0 < r@[k].1
                    && r@[k].1 == if CHUNK_SIZE * k + CHUNK_SIZE <= len {
                    CHUNK_SIZE * k + CHUNK_SIZE
                } else {
                    len as int
                },
        decreases len - start,
    {
        let end = if len - start >= CHUNK_SIZE {
            start + CHUNK_SIZE
        } else {
            len
        };
        r.push((start, end));
        start = end;
    }
    r
}

/// The id of a point in the vector store: a number or a UUID.
pub enum PointKey {
    Num(u64),
    Uuid(String),
}

/// The numeric ids among the ids of some points, each once; points without an
/// id and points with a UUID are left out.
pub fn numeric_point_ids(keys: &Vec<Option<PointKey>>) -> (ids: Vec<u64>)
    ensures
        ids@.no_duplicates(),
        forall|n: u64|
            ids@.contains(n) <==> exists|i: int|
                0 <= i < keys@.len() && #[trigger] keys@[i] == Some(PointKey::Num(n)),
{
    let mut ids: Vec<u64> = Vec::new();
    let mut seen: HashSet<u64> = HashSet::new();
    let mut i: usize = 0;
    while i < keys.len()
        invariant
            i <= keys@.len(),
            ids@.no_duplicates(),
            forall|n: u64| seen@.contains(n) <==> ids@.contains(n),
            forall|n: u64|
                ids@.contains(n) <==> exists|k: int|
                    0 <= k < i && #[trigger] keys@[k] == Some(PointKey::Num(n)),
        decreases keys.len() - i,
    {
        let ghost before = ids@;
        match &keys[i] {
            Some(PointKey::Num(n)) => {
                if !seen.contains(n) {
                    ids.push(*n);
                    seen.insert(*n);
                    proof {
                        assert forall|m: u64| seen@.contains(m) <==> ids@.contains(m) by {
                            if before.contains(m) {
                                let q = choose|q: int| 0 <= q < before.len() && before[q] == m;
                                assert(ids@[q] == m);
                            }
                            if ids@.contains(m) && m != *n {
                                let q = choose|q: int| 0 <= q < ids@.len() && ids@[q] == m;
                                assert(before[q] == m);
                            }
                            assert(ids@[ids@.len() - 1] == *n);
                        }
                    }
                }
            },
            _ => {},
        }
        proof {
            assert forall|n: u64|
                ids@.contains(n) <==> exists|k: int|
                    0 <= k < i + 1 && #[trigger] keys@[k] == Some(PointKey::Num(n)) by {
                if ids@.contains(n) && !before.contains(n) {
                    assert(keys@[i as int] == Some(PointKey::Num(n)));
                }
                if exists|k: int| 0 <= k < i + 1 && #[trigger] keys@[k] == Some(PointKey::Num(n)) {
                    let k = choose|k: int| 0 <= k < i + 1 && #[trigger] keys@[k] == Some(PointKey::Num(n));
                    if k < i {
                        assert(before.contains(n));
                        let q = choose|q: int| 0 <= q < before.len() && before[q] == n;
                        assert(ids@[q] == n);
                    } else {
                        if !before.contains(n) {
                            assert(ids@[ids@.len() - 1] == n);
                        } else {
                            let q = choose|q: int| 0 <= q < before.len() && before[q] == n;
                            assert(ids@[q] == n);
                        }
                    }
                }
            }
        }
        i = i + 1;
    }
    ids
}

/// The set of the ids in `ids`.
fn id_set(ids: &Vec<u64>) -> (set: HashSet<u64>)
    ensures
        forall|id: u64| set@.contains(id) <==> ids@.contains(id),
{
    let mut set: HashSet<u64> = HashSet::new();
    let mut i: usize = 0;
    while i < ids.len()
        invariant
            i <= ids@.len(),
            forall|id: u64| set@.contains(id) <==> ids@.subrange(0, i as int).contains(id),
        decreases ids.len() - i,
    {
        let ghost pre = ids@.subrange(0, i as int);
        let ghost next = ids@.subrange(0, i + 1);
        set.insert(ids[i]);
        proof {
            assert(next =~= pre.push(ids@[i as int]));
            assert forall|id: u64| set@.contains(id) <==> next.contains(id) by {
                if pre.contains(id) {
                    let k = choose|k: int| 0 <= k < pre.len() && pre[k] == id;
                    assert(next[k] == id);
                }
                if next.contains(id) && id != ids@[i as int] {
                    let k = choose|k: int| 0 <= k < next.len() && next[k] == id;
                    assert(pre[k] == id);
                }
                if id == ids@[i as int] {
                    assert(next[i as int] == id);
                }
            }
        }
        i = i + 1;
    }
    proof {
        assert(ids@.subrange(0, i as int) =~= ids@);
    }
    set
}

/// For each id of `ids`, the position of its last entry.
fn last_positions(ids: &Vec<u64>) -> (last: HashMap<u64, usize>)
    ensures
        forall|id: u64| last@.contains_key(id) <==> ids@.contains(id),
        forall|id: u64| #[trigger] last@.contains_key(id) ==> last@[id] as int == latest_index(ids@, id),
{
    let mut last: HashMap<u64, usize> = HashMap::new();
    let mut i: usize = 0;
    while i < ids.len()
        invariant
            i <= ids@.len(),
            forall|id: u64| last@.contains_key(id) <==> ids@.subrange(0, i as int).contains(id),
            forall|id: u64|
                #[trigger] last@.contains_key(id) ==> last@[id] as int == latest_index(
                    ids@.subrange(0, i as int),
                    id,
                ),
        decreases ids.len() - i,
    {
        let ghost pre = ids@.subrange(0, i as int);
        let ghost next = ids@.subrange(0, i + 1);
        last.insert(ids[i], i);
        proof {
            assert(next =~= pre.push(ids@[i as int]));
            assert(next.drop_last() =~= pre);
            assert forall|id: u64| last@.contains_key(id) <==> next.contains(id) by {
                if pre.contains(id) {
                    let k = choose|k: int| 0 <= k < pre.len() && pre[k] == id;
                    assert(next[k] == id);
                }
                if next.contains(id) && id != ids@[i as int] {
                    let k = choose|k: int| 0 <= k < next.len() && next[k] == id;
                    assert(pre[k] == id);
                }
                if id == ids@[i as int] {
                    assert(next[i as int] == id);
                }
            }
            assert forall|id: u64| #[trigger] last@.contains_key(id) implies last@[id] as int
                == latest_index(next, id) by {
                if id != ids@[i as int] {
                    assert(latest_index(next, id) == latest_index(pre, id));
                }
            }
        }
        i = i + 1;
    }
    proof {
        assert(ids@.subrange(0, i as int) =~= ids@);
    }
    last
}

/// Whether the entry at `i` of `ids` is the last one with its value, given
/// the positions of the last entries.
fn is_last_at(ids: &Vec<u64>, last: &HashMap<u64, usize>, i: usize) -> (r: bool)
    requires
        i < ids@.len(),
        forall|id: u64| last@.contains_key(id) <==> ids@.contains(id),
        forall|id: u64| #[trigger] last@.contains_key(id) ==> last@[id] as int == latest_index(ids@, id),
    ensures
        r == is_last_occurrence(ids@, i as int),
{
    proof {
        lemma_latest_index(ids@, ids@[i as int]);
        assert(ids@.contains(ids@[i as int]));
        if is_last_occurrence(ids@, i as int) {
            lemma_last_occurrence_is_latest(ids@, i as int);
        }
    }
    match last.get(&ids[i]) {
        Some(j) => *j == i,
        None => false,
    }
}

/// What a changed file's chunks do to the vector store: the ids to delete
/// and the chunks to embed and insert.
pub struct SyncPlan {
    pub to_delete: Vec<u64>,
    pub to_insert: Vec<ParsedFile>,
}

/// A plan brings a file whose stored chunks have the ids `existing` to the
/// chunks `chunks`: it deletes, each once, the stored ids that no new chunk
/// has; it inserts, once per id, the new chunks whose id is not stored (of
/// several new chunks with one id, the last); nothing else.
pub open spec fn is_sync_plan(
    existing: Seq<u64>,
    chunks: Seq<ParsedFile>,
    to_delete: Seq<u64>,
    to_insert: Seq<ParsedFile>,
) -> bool {
    &&& to_delete.no_duplicates()
    &&& forall|id: u64|
        #![trigger to_delete.contains(id)]
        #![trigger existing.contains(id)]
        to_delete.contains(id) <==> existing.contains(id) && !chunk_ids(chunks).contains(id)
    &&& chunk_ids(to_insert).no_duplicates()
    &&& forall|id: u64|
        #![trigger chunk_ids(to_insert).contains(id)]
        #![trigger chunk_ids(chunks).contains(id)]
        chunk_ids(to_insert).contains(id) <==> chunk_ids(chunks).contains(id)
            && !existing.contains(id)
    &&& forall|k: int|
        0 <= k < to_insert.len() ==> #[trigger] to_insert[k]@ == chunks[latest_index(
            chunk_ids(chunks),
            chunk_ids(to_insert)[k],
        )]@
}

/// The ids of `chunks`, computed.
fn ids_of(chunks: &Vec<ParsedFile>) -> (ids: Vec<u64>)
    ensures
        ids@ == chunk_ids(chunks@),
{
    let mut ids: Vec<u64> = Vec::new();
    let mut i: usize = 0;
    while i < chunks.len()
        invariant
            i <= chunks@.len(),
            ids@ == chunk_ids(chunks@.subrange(0, i as int)),
        decreases chunks.len() - i,
    {
        ids.push(chunk_to_id(chunks[i].path.as_str(), chunks[i].content.as_str()));
        i = i + 1;
        proof {
            assert(chunk_ids(chunks@.subrange(0, i as int)) =~= ids@);
        }
    }
    proof {
        assert(chunks@.subrange(0, i as int) =~= chunks@);
    }
    ids
}

/// Plans the update of a changed file in the vector store from the ids of
/// its stored chunks and its new chunks: delete what disappeared, insert
/// what is new, leave alone what stayed (see `is_sync_plan`).
pub fn plan_sync(existing_ids: &Vec<u64>, new_chunks: &Vec<ParsedFile>) -> (plan: SyncPlan)
    ensures
        is_sync_plan(existing_ids@, new_chunks@, plan.to_delete@, plan.to_insert@),
{
    let ids = ids_of(new_chunks);
    let new_set = id_set(&ids);
    let new_last = last_positions(&ids);
    let existing_set = id_set(existing_ids);
    let existing_last = last_positions(existing_ids);
    let ghost new_ids = chunk_ids(new_chunks@);
    let mut to_delete: Vec<u64> = Vec::new();
    let mut k: usize = 0;
    while k < existing_ids.len()
        invariant
            ids@ == new_ids,
            forall|id: u64| new_set@.contains(id) <==> new_ids.contains(id),
            forall|id: u64| existing_last@.contains_key(id) <==> existing_ids@.contains(id),
            forall|id: u64|
                #[trigger] existing_last@.contains_key(id) ==> existing_last@[id] as int
                    == latest_index(existing_ids@, id),
            k <= existing_ids@.len(),
            to_delete@.no_duplicates(),
            forall|id: u64|
                to_delete@.contains(id) <==> exists|j: int|
                    0 <= j < k && is_last_occurrence(existing_ids@, j) && #[trigger] existing_ids@[j]
                        == id && !new_ids.contains(id),
        decreases existing_ids.len() - k,
    {
        let id = existing_ids[k];
        let ghost before = to_delete@;
        let take = is_last_at(existing_ids, &existing_last, k) && !new_set.contains(&id);
        if take {
            proof {
                if to_delete@.contains(id) {
                    let j = choose|j: int|
                        0 <= j < k && is_last_occurrence(existing_ids@, j) && #[trigger] existing_ids@[j]
                            == id && !new_ids.contains(id);
                    assert(existing_ids@[k as int] == existing_ids@[j]);
                }
            }
            to_delete.push(id);
        }
        proof {
            assert forall|x: u64|
                to_delete@.contains(x) <==> exists|j: int|
                    0 <= j < k + 1 && is_last_occurrence(existing_ids@, j) && #[trigger] existing_ids@[j]
                        == x && !new_ids.contains(x) by {
                if to_delete@.contains(x) {
                    let q = choose|q: int| 0 <= q < to_delete@.len() && to_delete@[q] == x;
                    if q < before.len() {
                        assert(before[q] == x);
                        assert(before.contains(x));
                    } else {
                        assert(existing_ids@[k as int] == x);
                    }
                }
                if exists|j: int|
                    0 <= j < k + 1 && is_last_occurrence(existing_ids@, j) && #[trigger] existing_ids@[j]
                        == x && !new_ids.contains(x) {
                    let j = choose|j: int|
                        0 <= j < k + 1 && is_last_occurrence(existing_ids@, j) && #[trigger] existing_ids@[j]
                            == x && !new_ids.contains(x);
                    if j < k {
                        assert(before.contains(x));
                        let q = choose|q: int| 0 <= q < before.len() && before[q] == x;
                        assert(to_delete@[q] == x);
                    } else {
                        assert(take);
                        assert(to_delete@[to_delete@.len() - 1] == x);
                    }
                }
            }
        }
        k = k + 1;
    }
    proof {
        assert forall|id: u64|
            existing_ids@.contains(id) && !new_ids.contains(id) implies to_delete@.contains(id) by {
            lemma_last_occurrence_exists(existing_ids@, id);
        }
    }
    let mut to_insert: Vec<ParsedFile> = Vec::new();
    let mut i: usize = 0;
    while i < new_chunks.len()
        invariant
            ids@ == new_ids,
            forall|id: u64| existing_set@.contains(id) <==> existing_ids@.contains(id),
            forall|id: u64| new_last@.contains_key(id) <==> new_ids.contains(id),
            forall|id: u64|
                #[trigger] new_last@.contains_key(id) ==> new_last@[id] as int == latest_index(
                    new_ids,
                    id,
                ),
            new_ids == chunk_ids(new_chunks@),
            new_ids.len() == new_chunks@.len(),
            i <= new_chunks@.len(),
            chunk_ids(to_insert@).no_duplicates(),
            forall|id: u64|
                chunk_ids(to_insert@).contains(id) <==> exists|j: int|
                    0 <= j < i && is_last_occurrence(new_ids, j) && #[trigger] new_ids[j] == id
                        && !existing_ids@.contains(id),
            forall|m: int|
                0 <= m < to_insert@.len() ==> #[trigger] to_insert@[m]@ == new_chunks@[latest_index(
                    new_ids,
                    chunk_ids(to_insert@)[m],
                )]@,
        decreases new_chunks.len() - i,
    {
        let ghost before = to_insert@;
        let take = is_last_at(&ids, &new_last, i) && !existing_set.contains(&ids[i]);
        if take {
            let c = new_chunks[i].copy_chunk();
            proof {
                let id = new_ids[i as int];
                if chunk_ids(before).contains(id) {
                    let j = choose|j: int|
                        0 <= j < i && is_last_occurrence(new_ids, j) && #[trigger] new_ids[j] == id
                            && !existing_ids@.contains(id);
                }
                lemma_last_occurrence_is_latest(new_ids, i as int);
            }
            to_insert.push(c);
            proof {
                assert(to_insert@ == before.push(c));
                assert(c.path@ == new_chunks@[i as int].path@);
                assert(c.content@ == new_chunks@[i as int].content@);
                assert(chunk_ids(to_insert@)[before.len() as int] == chunk_id(c.path@, c.content@));
                assert(new_ids[i as int] == chunk_id(new_chunks@[i as int].path@, new_chunks@[i as int].content@));
                assert forall|m: int| 0 <= m < before.len() implies chunk_ids(to_insert@)[m] == chunk_ids(before)[m] by {
                    assert(to_insert@[m] == before[m]);
                }
                assert(chunk_ids(to_insert@) =~= chunk_ids(before).push(new_ids[i as int]));
                assert forall|m: int|
                    0 <= m < to_insert@.len() implies #[trigger] to_insert@[m]@ == new_chunks@[latest_index(
                        new_ids,
                        chunk_ids(to_insert@)[m],
                    )]@ by {
                    if m < before.len() {
                        assert(to_insert@[m] == before[m]);
                        assert(chunk_ids(to_insert@)[m] == chunk_ids(before)[m]);
                    }
                }
            }
        }
        proof {
            if !take {
                assert(to_insert@ == before);
            }
            assert forall|x: u64|
                chunk_ids(to_insert@).contains(x) <==> exists|j: int|
                    0 <= j < i + 1 && is_last_occurrence(new_ids, j) && #[trigger] new_ids[j] == x
                        && !existing_ids@.contains(x) by {
                if chunk_ids(to_insert@).contains(x) {
                    let q = choose|q: int| 0 <= q < chunk_ids(to_insert@).len() && chunk_ids(to_insert@)[q] == x;
                    if q < before.len() {
                        assert(chunk_ids(before)[q] == x);
                        assert(chunk_ids(before).contains(x));
                    } else {
                        assert(new_ids[i as int] == x);
                    }
                }
                if exists|j: int|
                    0 <= j < i + 1 && is_last_occurrence(new_ids, j) && #[trigger] new_ids[j] == x
                        && !existing_ids@.contains(x) {
                    let j = choose|j: int|
                        0 <= j < i + 1 && is_last_occurrence(new_ids, j) && #[trigger] new_ids[j] == x
                            && !existing_ids@.contains(x);
                    if j < i {
                        assert(chunk_ids(before).contains(x));
                        let q = choose|q: int| 0 <= q < chunk_ids(before).len() && chunk_ids(before)[q] == x;
                        assert(chunk_ids(to_insert@)[q] == x);
                    } else {
                        assert(take);
                        assert(chunk_ids(to_insert@)[chunk_ids(to_insert@).len() - 1] == x);
                    }
                }
            }
        }
        i = i + 1;
    }
    proof {
        assert forall|id: u64|
            new_ids.contains(id) && !existing_ids@.contains(id) implies chunk_ids(
                to_insert@,
            ).contains(id) by {
            lemma_last_occurrence_exists(new_ids, id);
        }
    }
    SyncPlan { to_delete, to_insert }
}

/// After a sync, the store holds exactly the ids of the file's new chunks:
/// the stored ids that the plan does not delete, together with the ids it
/// inserts, are the new ids. No chunk already stored is embedded again, and
/// no id that a new chunk has is deleted.
pub proof fn lemma_sync_reaches_new_chunks(
    existing: Seq<u64>,
    chunks: Seq<ParsedFile>,
    to_delete: Seq<u64>,
    to_insert: Seq<ParsedFile>,
)
    requires
        is_sync_plan(existing, chunks, to_delete, to_insert),
    ensures
        forall|id: u64|
            ((existing.contains(id) && !to_delete.contains(id)) || chunk_ids(to_insert).contains(id))
                <==> chunk_ids(chunks).contains(id),
        forall|id: u64| chunk_ids(to_insert).contains(id) ==> !existing.contains(id),
        forall|id: u64| to_delete.contains(id) ==> !chunk_ids(chunks).contains(id),
{
    assert forall|id: u64|
        ((existing.contains(id) && !to_delete.contains(id)) || chunk_ids(to_insert).contains(id))
            <==> chunk_ids(chunks).contains(id) by {
        if chunk_ids(chunks).contains(id) && !existing.contains(id) {
            assert(chunk_ids(to_insert).contains(id));
        }
        if existing.contains(id) && !to_delete.contains(id) {
            assert(chunk_ids(chunks).contains(id));
        }
    }
}

/// Syncing a file whose stored chunk ids are exactly the ids of its new
/// chunks deletes nothing and inserts nothing.
pub proof fn lemma_sync_unchanged_is_empty(
    existing: Seq<u64>,
    chunks: Seq<ParsedFile>,
    to_delete: Seq<u64>,
    to_insert: Seq<ParsedFile>,
)
    requires
        is_sync_plan(existing, chunks, to_delete, to_insert),
        forall|id: u64| existing.contains(id) <==> chunk_ids(chunks).contains(id),
    ensures
        to_delete.len() == 0,
        to_insert.len() == 0,
{
    if to_delete.len() > 0 {
        assert(to_delete.contains(to_delete[0]));
    }
    if to_insert.len() > 0 {
        assert(chunk_ids(to_insert).len() == to_insert.len());
        let x = chunk_ids(to_insert)[0];
        assert(chunk_ids(to_insert).contains(x));
        assert(chunk_ids(chunks).contains(x));
        assert(existing.contains(x));
    }
}

} // verus!
