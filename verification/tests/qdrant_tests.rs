use flashfind::qdrant::{
    batch_bounds, chunk_to_id, extension_filter, get_ext, hit_texts, numeric_point_ids, plan_sync, point_record, ParsedFile,
    PointKey,
};
use std::collections::hash_map::DefaultHasher;
use std::hash::{Hash, Hasher};

fn chunk(path: &str, content: &str) -> ParsedFile {
    ParsedFile { path: path.to_string(), content: content.to_string() }
}

fn std_hash(path: &str, content: &str) -> u64 {
    let mut hasher = DefaultHasher::new();
    path.hash(&mut hasher);
    content.hash(&mut hasher);
    hasher.finish()
}

#[test]
fn chunk_id_is_the_hash_of_path_and_content() {
    for (p, c) in [("a.rs", "fn a() {}"), ("", ""), ("dir/ü.py", "def f(): pass"), ("x", "y")] {
        assert_eq!(chunk_to_id(p, c), std_hash(p, c));
    }
}

#[test]
fn chunk_id_same_input_same_id() {
    assert_eq!(chunk_to_id("a.rs", "fn a() {}"), chunk_to_id("a.rs", "fn a() {}"));
    assert_ne!(chunk_to_id("a.rs", "fn a() {}"), chunk_to_id("b.rs", "fn a() {}"));
    assert_ne!(chunk_to_id("ab", "c"), chunk_to_id("a", "bc"));
}

#[test]
fn extension_is_lower_cased() {
    assert_eq!(get_ext("/home/u/Report.XLSX"), "xlsx");
    assert_eq!(get_ext("main.Rs"), "rs");
    assert_eq!(get_ext("Makefile"), "");
    assert_eq!(get_ext("/home/u.v/Makefile"), "");
    assert_eq!(get_ext("a.tar.GZ"), "gz");
    assert_eq!(get_ext("dir.d/file"), "");
}

#[test]
fn point_record_carries_id_path_content_and_extension() {
    let c = chunk("/p/Main.PY", "def f(): pass");
    let r = point_record(&c);
    assert_eq!(r.id, std_hash("/p/Main.PY", "def f(): pass"));
    assert_eq!(r.file, "/p/Main.PY");
    assert_eq!(r.content, "def f(): pass");
    assert_eq!(r.ext, "py");
}

#[test]
fn numeric_ids_are_collected_once() {
    let keys = vec![
        Some(PointKey::Num(5)),
        None,
        Some(PointKey::Uuid("u".to_string())),
        Some(PointKey::Num(7)),
        Some(PointKey::Num(5)),
    ];
    assert_eq!(numeric_point_ids(&keys), vec![5, 7]);
    assert!(numeric_point_ids(&Vec::new()).is_empty());
}

#[test]
fn sync_deletes_gone_and_inserts_new_chunks() {
    let kept = chunk("f.rs", "fn kept() {}");
    let gone_id = chunk_to_id("f.rs", "fn gone() {}");
    let kept_id = chunk_to_id("f.rs", "fn kept() {}");
    let new_chunks = vec![kept, chunk("f.rs", "fn added() {}")];
    let plan = plan_sync(&vec![gone_id, kept_id, gone_id], &new_chunks);
    assert_eq!(plan.to_delete, vec![gone_id]);
    assert_eq!(plan.to_insert.len(), 1);
    assert_eq!(plan.to_insert[0].content, "fn added() {}");
    assert_eq!(plan.to_insert[0].path, "f.rs");
}

#[test]
fn sync_of_unchanged_file_does_nothing() {
    let chunks = vec![chunk("f.rs", "fn a() {}"), chunk("f.rs", "fn b() {}")];
    let ids = vec![chunk_to_id("f.rs", "fn b() {}"), chunk_to_id("f.rs", "fn a() {}")];
    let plan = plan_sync(&ids, &chunks);
    assert!(plan.to_delete.is_empty());
    assert!(plan.to_insert.is_empty());
}

#[test]
fn sync_inserts_each_id_once() {
    let chunks = vec![chunk("f.rs", "fn a() {}"), chunk("f.rs", "fn a() {}")];
    let plan = plan_sync(&Vec::new(), &chunks);
    assert!(plan.to_delete.is_empty());
    assert_eq!(plan.to_insert.len(), 1);
    let plan = plan_sync(&vec![1, 2], &Vec::new());
    assert_eq!(plan.to_delete, vec![1, 2]);
    assert!(plan.to_insert.is_empty());
}

#[test]
fn sync_then_store_holds_new_ids() {
    let existing = vec![11u64, chunk_to_id("g.py", "x = 1")];
    let chunks = vec![chunk("g.py", "x = 1"), chunk("g.py", "def h(): pass")];
    let plan = plan_sync(&existing, &chunks);
    let mut after: Vec<u64> =
        existing.iter().copied().filter(|id| !plan.to_delete.contains(id)).collect();
    after.extend(plan.to_insert.iter().map(|c| chunk_to_id(&c.path, &c.content)));
    after.sort();
    let mut expected: Vec<u64> = chunks.iter().map(|c| chunk_to_id(&c.path, &c.content)).collect();
    expected.sort();
    assert_eq!(after, expected);
}

#[test]
fn hits_need_file_and_content() {
    assert_eq!(hit_texts(Some("/a.rs"), Some("fn a() {}")), Some(("/a.rs".to_string(), "fn a() {}".to_string())));
    assert_eq!(hit_texts(None, Some("x")), None);
    assert_eq!(hit_texts(Some("/a.rs"), None), None);
    assert_eq!(hit_texts(None, None), None);
}

#[test]
fn batches_of_sixty_four() {
    assert!(batch_bounds(0).is_empty());
    assert_eq!(batch_bounds(1), vec![(0, 1)]);
    assert_eq!(batch_bounds(64), vec![(0, 64)]);
    assert_eq!(batch_bounds(65), vec![(0, 64), (64, 65)]);
    assert_eq!(batch_bounds(130), vec![(0, 64), (64, 128), (128, 130)]);
}

#[test]
fn empty_extension_list_means_no_filter() {
    assert_eq!(extension_filter(&Vec::new()), None);
    let exts = vec!["rs".to_string(), "py".to_string()];
    assert_eq!(extension_filter(&exts), Some(&exts));
}
