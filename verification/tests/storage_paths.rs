use mistake_agent::storage::{Domain, RelPath, StorageError};

#[test]
fn relpath_accepts_whitelist_segments() {
    for ok in ["gaokao_pool.json", "a..md", "a/b/c.md", "dir_1-2/file.txt", "pool.json"] {
        assert!(RelPath::parse(ok).is_ok(), "应接受：{ok}");
    }
}

#[test]
fn relpath_rejects_traversal_vectors() {
    for bad in [
        "..", "../", "../x", "a/../b", "a/..", "....//", ".", "./a", "a/.", "a..", "..a",
        "a//b", "/abs", "a\\b", "a:b", "a b", "a\u{0000}b", "a\tb", "。", "a。b",
    ] {
        assert!(RelPath::parse(bad).is_err(), "应拒绝：{bad:?}");
    }
}

#[test]
fn relpath_rejects_leading_trailing_dots() {
    for bad in ["a.", ".a", "...", "....", ".hidden"] {
        assert!(RelPath::parse(bad).is_err(), "应拒绝：{bad:?}");
    }
}

#[test]
fn relpath_rejects_empty_and_unicode() {
    assert!(RelPath::parse("").is_err());
    assert!(RelPath::parse("数据/文件").is_err(), "非 ASCII 应拒绝（同形字符攻击面）");
}

#[test]
fn relpath_roundtrips_segments_and_text() {
    let p = RelPath::parse("a/b/c.md").unwrap();
    assert_eq!(p.segments().len(), 3);
    assert_eq!(p.segments()[0], "a");
    assert_eq!(p.segments()[2], "c.md");
    assert_eq!(p.as_str(), "a/b/c.md");
}

#[test]
fn relpath_error_names_the_first_bad_segment() {
    match RelPath::parse("ok/../x") {
        Err(StorageError::InvalidPath(m)) => assert!(m.contains("..")),
        _ => panic!("应为路径非法"),
    }
    match RelPath::parse("") {
        Err(StorageError::InvalidPath(m)) => assert_eq!(m, "路径为空"),
        _ => panic!("应为路径非法"),
    }
}

#[test]
fn domain_directories() {
    assert_eq!(Domain::Mistakes.as_dir(), "mistakes");
    assert_eq!(Domain::Sessions.as_dir(), "sessions");
    assert_eq!(Domain::Memory.as_dir(), "memory");
    assert_eq!(Domain::Data.as_dir(), "data");
    assert_eq!(Domain::Uploads.as_dir(), "uploads");
}
