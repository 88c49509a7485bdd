use flashfind::sqlite::get_db_path_from_save_dir;
use flashfind::qdrant::get_ext;
use flashfind::text::{extension_of, same_text};

#[test]
fn extension_is_taken_from_the_file_name() {
    assert_eq!(extension_of("a/b/c.rs"), "rs");
    assert_eq!(extension_of("archive.tar.gz"), "gz");
    assert_eq!(extension_of("Makefile"), "");
    assert_eq!(extension_of("/home/u.v/Makefile"), "");
    assert_eq!(extension_of("trailing."), "");
    assert_eq!(extension_of(".hidden"), "hidden");
    assert_eq!(extension_of("dir.v2/file"), "");
    assert_eq!(extension_of("C:\\dir.d\\file"), "");
    assert_eq!(extension_of("C:\\dir\\file.py"), "py");
    assert_eq!(extension_of(""), "");
    assert_eq!(extension_of("ファイル.py"), "py");
    assert_eq!(extension_of("é.ü"), "ü");
}

#[test]
fn text_comparison() {
    assert!(same_text("abc", "abc"));
    assert!(!same_text("abc", "abd"));
    assert!(!same_text("abc", "ab"));
    assert!(same_text("", ""));
    assert!(same_text("日本", "日本"));
}

#[test]
fn lowercase_follows_std() {
    assert_eq!(get_ext("f.ÀB"), "àb");
    assert_eq!(get_ext("f.xlsx"), "xlsx");
}

#[test]
fn database_file_path() {
    assert_eq!(get_db_path_from_save_dir("/data/app/"), "/data/app/app.db");
    assert_eq!(get_db_path_from_save_dir(""), "app.db");
    assert_eq!(get_db_path_from_save_dir("/data/app"), "/data/app/app.db");
    for dir in ["/x/y", "/data/app", "rel", "/x/y/", "C:", "/a/b:"] {
        let p = std::path::PathBuf::from(dir).join("app.db");
        assert_eq!(get_db_path_from_save_dir(dir), p.to_str().unwrap());
    }
}
