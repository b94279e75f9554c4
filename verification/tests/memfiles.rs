use mistake_agent::memfiles::{str_lt, MemoryFiles};
use mistake_agent::storage::{Domain, RelPath, StorageError};

fn rel(s: &str) -> RelPath {
    RelPath::parse(s).unwrap()
}

#[test]
fn memory_domain_write_read_roundtrip_and_list() {
    let mut f = MemoryFiles::new();
    f.write(Domain::Data, &rel("gaokao_pool.json"), b"[]").unwrap();
    assert_eq!(f.read(Domain::Data, &rel("gaokao_pool.json")).unwrap(), b"[]");
    assert_eq!(f.list(Domain::Data), vec!["gaokao_pool.json".to_string()]);
    f.write(Domain::Data, &rel("gaokao_pool.json"), b"[1]").unwrap();
    assert_eq!(f.read(Domain::Data, &rel("gaokao_pool.json")).unwrap(), b"[1]");
    f.remove(Domain::Data, &rel("gaokao_pool.json")).unwrap();
    assert!(f.list(Domain::Data).is_empty());
    match f.read(Domain::Data, &rel("gaokao_pool.json")) {
        Err(StorageError::Io(m)) => assert_eq!(m, "内存文件不存在：data/gaokao_pool.json"),
        other => panic!("意外：{other:?}"),
    }
    assert!(f.remove(Domain::Data, &rel("gaokao_pool.json")).is_err());
}

#[test]
fn memory_list_is_sorted_and_per_domain() {
    let mut f = MemoryFiles::new();
    for name in ["b.md", "a/z.md", "a.md", "c/d/e.md"] {
        f.write(Domain::Memory, &rel(name), b"x").unwrap();
    }
    f.write(Domain::Data, &rel("zz.json"), b"d").unwrap();
    assert_eq!(f.list(Domain::Memory), vec!["a.md", "a/z.md", "b.md", "c/d/e.md"]);
    assert_eq!(f.list(Domain::Data), vec!["zz.json"]);
    assert!(f.list(Domain::Uploads).is_empty());
}

#[test]
fn memory_remove_tree_takes_only_the_subtree() {
    let mut f = MemoryFiles::new();
    f.write(Domain::Data, &rel("sub/nested/file.md"), b"x").unwrap();
    f.write(Domain::Data, &rel("sub"), b"y").unwrap();
    f.write(Domain::Data, &rel("subway.md"), b"z").unwrap();
    f.write(Domain::Memory, &rel("sub/keep.md"), b"m").unwrap();
    f.remove_tree(Domain::Data, &rel("sub")).unwrap();
    assert_eq!(f.list(Domain::Data), vec!["subway.md"]);
    assert_eq!(f.list(Domain::Memory), vec!["sub/keep.md"]);
    match f.remove_tree(Domain::Data, &rel("sub")) {
        Err(StorageError::Io(m)) => assert_eq!(m, "内存子树不存在"),
        other => panic!("意外：{other:?}"),
    }
}

#[test]
fn memory_domains_are_isolated() {
    let mut f = MemoryFiles::new();
    f.write(Domain::Memory, &rel("math.md"), b"m").unwrap();
    f.write(Domain::Data, &rel("math.md"), b"d").unwrap();
    assert_eq!(f.read(Domain::Memory, &rel("math.md")).unwrap(), b"m");
    assert_eq!(f.read(Domain::Data, &rel("math.md")).unwrap(), b"d");
}

#[test]
fn memory_data_files_are_text() {
    let mut f = MemoryFiles::new();
    f.write_data_file("pool.json", "[\"题\"]").unwrap();
    assert_eq!(f.read_data_file("pool.json").unwrap(), "[\"题\"]");
    assert!(matches!(f.read_data_file("a/../b"), Err(StorageError::InvalidPath(_))));
    assert!(matches!(f.write_data_file("", "x"), Err(StorageError::InvalidPath(_))));
    assert!(matches!(f.read_data_file("missing.json"), Err(StorageError::Io(_))));
    f.write(Domain::Data, &rel("bin.dat"), &[0xff, 0xfe]).unwrap();
    match f.read_data_file("bin.dat") {
        Err(StorageError::Corrupt(m)) => assert!(m.starts_with("数据文件非 UTF-8："), "{m}"),
        other => panic!("意外：{other:?}"),
    }
}

#[test]
fn memory_legacy_and_staged_paths() {
    let mut f = MemoryFiles::new();
    f.write(Domain::Memory, &rel("notes.md"), b"n").unwrap();
    assert_eq!(f.read_legacy(Domain::Memory, "notes.md").unwrap(), b"n");
    match f.read_legacy(Domain::Memory, "旧笔记.md") {
        Err(StorageError::Io(m)) => assert_eq!(m, "内存历史文件不存在：memory/旧笔记.md"),
        other => panic!("意外：{other:?}"),
    }
    f.remove_legacy(Domain::Memory, "notes.md").unwrap();
    assert!(f.read(Domain::Memory, &rel("notes.md")).is_err());
    match f.read_staged("/tmp/mistake-agent-x.png") {
        Err(StorageError::Io(m)) => assert_eq!(m, "内存暂存不存在：/tmp/mistake-agent-x.png"),
        other => panic!("意外：{other:?}"),
    }
    assert!(f.remove_staged("/tmp/mistake-agent-x.png").is_err());
}

#[test]
fn text_order_is_by_code_point() {
    assert!(str_lt("a", "b"));
    assert!(str_lt("a", "ab"));
    assert!(!str_lt("ab", "a"));
    assert!(!str_lt("a", "a"));
    assert!(str_lt("Z", "a"));
    assert!(str_lt("a", "错"));
}
