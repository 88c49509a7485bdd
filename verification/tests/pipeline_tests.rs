use flashfind::pipeline::{
    code_file_chunks, count_parsable, file_paths, group_by_file, is_code_ext, is_excel_ext,
    plan_index, render_workbook, split_by_kind, IndexingSet, Sheet,
};
use flashfind::qdrant::ParsedFile;
use flashfind::sqlite::FileResult;

fn rec(path: &str, t: &str) -> FileResult {
    FileResult { path: path.to_string(), updated_at: t.to_string() }
}

fn strings(v: &[&str]) -> Vec<String> {
    v.iter().map(|s| s.to_string()).collect()
}

fn sorted(mut v: Vec<String>) -> Vec<String> {
    v.sort();
    v
}

#[test]
fn excel_extensions() {
    for p in ["a.xlsx", "/d/b.xls", "c.xlsm", "d.xlsb", "C:\\d\\e.xlsx"] {
        assert!(is_excel_ext(p), "{}", p);
    }
    for p in ["a.XLSX", "a.csv", "a.xlsx.bak", "a.rs", "xlsx", "/d.xlsx/file"] {
        assert!(!is_excel_ext(p), "{}", p);
    }
}

#[test]
fn code_extensions() {
    for p in ["m.rs", "/x/y.py", "a.cpp", "a.cc", "a.c", "a.h", "a.hpp", "a.cs"] {
        assert!(is_code_ext(p), "{}", p);
    }
    for p in ["a.RS", "a.js", "a.xlsx", "dir.rs/file", "rs", "Makefile"] {
        assert!(!is_code_ext(p), "{}", p);
    }
}

#[test]
fn plan_classifies_files() {
    let recorded = vec![
        rec("/d/a.rs", "2024-01-01 00:00:00"),
        rec("/d/b.py", "2024-01-01 00:00:00"),
        rec("/d/c.txt", "2024-01-01 00:00:00"),
        rec("/d/gone.xlsx", "2024-01-01 00:00:00"),
    ];
    let current = vec![
        rec("/d/a.rs", "2024-01-01 00:00:00"),
        rec("/d/b.py", "2024-02-02 00:00:00"),
        rec("/d/c.txt", "2024-03-03 00:00:00"),
        rec("/d/new.xlsx", "2024-01-05 00:00:00"),
        rec("/d/new.md", "2024-01-05 00:00:00"),
    ];
    let plan = plan_index(&current, &recorded);
    assert_eq!(plan.deleted, strings(&["/d/gone.xlsx"]));
    assert_eq!(sorted(plan.new_files), strings(&["/d/new.md", "/d/new.xlsx"]));
    assert_eq!(sorted(plan.modified_files), strings(&["/d/b.py", "/d/c.txt"]));
    assert_eq!(plan.total, 2);
}

#[test]
fn plan_later_record_wins() {
    let recorded = vec![rec("p.rs", "1"), rec("p.rs", "2")];
    let same = plan_index(&vec![rec("p.rs", "2")], &recorded);
    assert!(same.modified_files.is_empty() && same.new_files.is_empty() && same.deleted.is_empty());
    let changed = plan_index(&vec![rec("p.rs", "1")], &recorded);
    assert_eq!(changed.modified_files, strings(&["p.rs"]));
    assert_eq!(changed.total, 1);
}

#[test]
fn plan_first_run_and_emptied_directory() {
    let current = vec![rec("a.rs", "t"), rec("b.xls", "t"), rec("a.rs", "t")];
    let plan = plan_index(&current, &Vec::new());
    assert_eq!(plan.new_files, strings(&["b.xls", "a.rs"]));
    assert_eq!(plan.total, 2);
    let plan = plan_index(&Vec::new(), &current);
    assert_eq!(plan.deleted, strings(&["b.xls", "a.rs"]));
    assert_eq!(plan.total, 0);
}

#[test]
fn records_match_disk_after_plan() {
    let recorded = vec![rec("a", "1"), rec("b", "1"), rec("c", "1")];
    let current = vec![rec("b", "2"), rec("c", "1"), rec("d", "1")];
    let plan = plan_index(&current, &recorded);
    let mut after: Vec<String> = recorded
        .iter()
        .map(|r| r.path.clone())
        .filter(|p| !plan.deleted.contains(p))
        .chain(plan.new_files.iter().cloned())
        .collect();
    after.sort();
    assert_eq!(after, strings(&["b", "c", "d"]));
}

fn store(records: &mut Vec<FileResult>, deleted: &[String], marked: &[FileResult]) {
    records.retain(|r| !deleted.contains(&r.path));
    for m in marked {
        records.retain(|r| r.path != m.path);
        records.push(rec(&m.path, &m.updated_at));
    }
}

#[test]
fn marks_carry_the_disk_modification_time() {
    let recorded = vec![rec("a.rs", "2024-01-01 00:00:00"), rec("b.py", "2024-01-01 00:00:00")];
    let current = vec![
        rec("b.py", "2024-02-02 10:00:00"),
        rec("c.xlsx", "2024-03-03 11:00:00"),
    ];
    let plan = plan_index(&current, &recorded);
    let marks: Vec<(&str, &str)> =
        plan.to_mark.iter().map(|r| (r.path.as_str(), r.updated_at.as_str())).collect();
    assert_eq!(marks, vec![("c.xlsx", "2024-03-03 11:00:00"), ("b.py", "2024-02-02 10:00:00")]);
}

#[test]
fn second_run_on_unchanged_directory_finds_nothing() {
    let mut records = vec![rec("a.rs", "1"), rec("b.py", "1"), rec("gone.txt", "1")];
    let current = vec![rec("a.rs", "1"), rec("b.py", "2"), rec("new.cs", "3")];
    let first = plan_index(&current, &records);
    assert_eq!(first.deleted, strings(&["gone.txt"]));
    assert_eq!(first.new_files, strings(&["new.cs"]));
    assert_eq!(first.modified_files, strings(&["b.py"]));
    store(&mut records, &first.deleted, &first.to_mark);
    let mut after: Vec<(String, String)> =
        records.iter().map(|r| (r.path.clone(), r.updated_at.clone())).collect();
    after.sort();
    let mut disk: Vec<(String, String)> =
        current.iter().map(|r| (r.path.clone(), r.updated_at.clone())).collect();
    disk.sort();
    assert_eq!(after, disk);
    let second = plan_index(&current, &records);
    assert!(second.deleted.is_empty());
    assert!(second.new_files.is_empty());
    assert!(second.modified_files.is_empty());
    assert!(second.to_mark.is_empty());
    assert_eq!(second.total, 0);
}

#[test]
fn splitting_and_counting_paths() {
    let paths = strings(&["a.rs", "b.xlsx", "c.txt", "d.py", "e.xls"]);
    let (excel, code) = split_by_kind(&paths);
    assert_eq!(excel, strings(&["b.xlsx", "e.xls"]));
    assert_eq!(code, strings(&["a.rs", "d.py"]));
    assert_eq!(count_parsable(&paths), 4);
    assert_eq!(count_parsable(&Vec::new()), 0);
}

#[test]
fn paths_of_records() {
    assert_eq!(file_paths(&vec![rec("x", "1"), rec("y", "2")]), strings(&["x", "y"]));
}

#[test]
fn chunks_are_grouped_by_file() {
    let chunks = vec![
        ParsedFile { path: "a".to_string(), content: "1".to_string() },
        ParsedFile { path: "b".to_string(), content: "2".to_string() },
        ParsedFile { path: "a".to_string(), content: "3".to_string() },
    ];
    let groups = group_by_file(&chunks);
    assert_eq!(groups.len(), 2);
    assert_eq!(groups[0].path, "a");
    let a: Vec<&str> = groups[0].chunks.iter().map(|c| c.content.as_str()).collect();
    assert_eq!(a, vec!["1", "3"]);
    assert_eq!(groups[1].path, "b");
    assert_eq!(groups[1].chunks.len(), 1);
    assert!(group_by_file(&Vec::new()).is_empty());
}

#[test]
fn workbook_text() {
    let sheets = vec![
        Sheet {
            name: "売上".to_string(),
            rows: Some(vec![
                strings(&["月", "額"]),
                strings(&["", ""]),
                strings(&["1", ""]),
            ]),
        },
        Sheet { name: "broken".to_string(), rows: None },
        Sheet { name: "empty".to_string(), rows: Some(vec![]) },
    ];
    assert_eq!(render_workbook(&sheets), "# 売上\n月\t額\n1\t\n\n# empty\n\n");
    assert_eq!(render_workbook(&Vec::new()), "");
}

#[test]
fn code_file_chunk_cases() {
    assert!(code_file_chunks("a.rs", None).is_empty());
    let src = "fn a() {}\nfn b() {}\n".to_string();
    let chunks = code_file_chunks("/d/a.rs", Some(src));
    let contents: Vec<&str> = chunks.iter().map(|c| c.content.as_str()).collect();
    assert_eq!(contents, vec!["fn a() {}", "fn b() {}"]);
    assert!(chunks.iter().all(|c| c.path == "/d/a.rs"));
    let text = "plain text".to_string();
    let chunks = code_file_chunks("/d/notes.txt", Some(text.clone()));
    assert_eq!(chunks.len(), 1);
    assert_eq!(chunks[0].content, text);
    let src = "x = 1\n".to_string();
    let chunks = code_file_chunks("/d.rs/script.py", Some(src.clone()));
    assert_eq!(chunks.len(), 1);
    assert_eq!(chunks[0].content, src);
    let src = "impl S { fn f() {} }\nstruct T;\n".to_string();
    let chunks = code_file_chunks("C:\\src\\lib.rs", Some(src));
    let contents: Vec<&str> = chunks.iter().map(|c| c.content.as_str()).collect();
    assert_eq!(contents, vec!["impl S { fn f() {} }", "struct T;"]);
}

#[test]
fn indexing_set_refuses_a_second_start() {
    let mut s = IndexingSet::new();
    assert!(s.try_begin("/d"));
    assert!(!s.try_begin("/d"));
    assert!(s.try_begin("/e"));
    s.finish("/d");
    assert!(s.try_begin("/d"));
    s.finish("/x");
    assert!(!s.try_begin("/e"));
}

#[test]
fn no_path_is_both_workbook_and_code() {
    for p in ["a.xlsx", "a.xls", "a.xlsm", "a.xlsb", "a.rs", "a.py", "a.c", "a.h", "a.cs", "a.txt"] {
        assert!(!(is_excel_ext(p) && is_code_ext(p)), "{}", p);
    }
}
