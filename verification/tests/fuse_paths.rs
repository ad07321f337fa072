//! In-memory file tree checks: path helpers, insertion, lookups, reads.

use embeddenator::fuse_shim::{filename, normalize_path, parent_path};
use embeddenator::{EngramFS, EngramFSBuilder, FileKind};

#[test]
fn test_normalize_path() {
    assert_eq!(normalize_path("foo"), "/foo");
    assert_eq!(normalize_path("/foo"), "/foo");
    assert_eq!(normalize_path("/foo/"), "/foo");
    assert_eq!(normalize_path("/"), "/");
}

#[test]
fn test_parent_path() {
    assert_eq!(parent_path("/foo/bar"), Some("/foo".to_string()));
    assert_eq!(parent_path("/foo"), Some("/".to_string()));
    assert_eq!(parent_path("/"), None);
}

#[test]
fn test_filename() {
    assert_eq!(filename("/foo/bar"), Some("bar".to_string()));
    assert_eq!(filename("/foo"), Some("foo".to_string()));
    assert_eq!(filename("/foo/bar/"), Some("bar".to_string()));
}

#[test]
fn test_add_file() {
    let mut fs = EngramFS::new(true);
    let ino = fs.add_file("/test.txt", b"hello world".to_vec()).unwrap();
    assert!(ino > 1);
    let data = fs.read(ino, 0, 100).unwrap();
    assert_eq!(data, b"hello world");
}

#[test]
fn test_nested_directories() {
    let mut fs = EngramFS::new(true);
    fs.add_file("/a/b/c/file.txt", b"deep".to_vec()).unwrap();
    assert!(fs.lookup_path("/a").is_some());
    assert!(fs.lookup_path("/a/b").is_some());
    assert!(fs.lookup_path("/a/b/c").is_some());
    assert!(fs.lookup_path("/a/b/c/file.txt").is_some());
}

#[test]
fn test_readdir() {
    let mut fs = EngramFS::new(true);
    fs.add_file("/foo.txt", b"foo".to_vec()).unwrap();
    fs.add_file("/bar.txt", b"bar".to_vec()).unwrap();
    fs.add_file("/subdir/baz.txt", b"baz".to_vec()).unwrap();
    let root_entries = fs.readdir(1).unwrap();
    assert_eq!(root_entries.len(), 3);
    let names: Vec<_> = root_entries.iter().map(|e| e.name.as_str().to_string()).collect();
    assert!(names.contains(&"foo.txt".to_string()));
    assert!(names.contains(&"bar.txt".to_string()));
    assert!(names.contains(&"subdir".to_string()));
}

#[test]
fn test_read_partial() {
    let mut fs = EngramFS::new(true);
    let data = b"0123456789";
    let ino = fs.add_file("/test.txt", data.to_vec()).unwrap();
    let partial = fs.read(ino, 3, 4).unwrap();
    assert_eq!(partial, b"3456");
    let past_end = fs.read(ino, 20, 10).unwrap();
    assert!(past_end.is_empty());
}

#[test]
fn test_builder() {
    let fs = EngramFSBuilder::new()
        .add_file("/a.txt", b"a".to_vec())
        .add_file("/b.txt", b"b".to_vec())
        .build();
    assert_eq!(fs.file_count(), 2);
}

#[test]
fn test_lookup_by_name() {
    let mut fs = EngramFS::new(true);
    let ino = fs.add_file("/dir/inner.txt", b"x".to_vec()).unwrap();
    let dir_ino = fs.lookup_path("/dir").unwrap();
    assert_eq!(fs.lookup(dir_ino, "inner.txt"), Some(ino));
    assert_eq!(fs.lookup(dir_ino, "absent.txt"), None);
    let attr = fs.getattr(ino).unwrap();
    assert_eq!(attr.size, 1);
    assert_eq!(fs.total_size(), 1);
}

#[test]
fn fresh_tree_holds_only_the_root() {
    let fs = EngramFS::new(true);
    let attr = fs.getattr(1).expect("root attributes");
    assert_eq!(attr.ino, 1);
    assert_eq!(attr.kind, FileKind::Directory);
    assert_eq!(attr.perm, 0o755);
    assert_eq!(attr.size, 0);
    assert_eq!(fs.readdir(1).expect("root listing").len(), 0);
    assert_eq!(fs.file_count(), 0);
    assert_eq!(fs.total_size(), 0);
}

#[test]
fn add_file_stores_attributes_and_counters() {
    let mut fs = EngramFS::new(false);
    let ino = fs.add_file("/docs/a.txt", vec![1, 2, 3, 4]).unwrap();
    let attr = fs.getattr(ino).expect("file attributes");
    assert_eq!(attr.size, 4);
    assert_eq!(attr.kind, FileKind::RegularFile);
    assert_eq!(attr.perm, 0o644);
    assert_eq!(fs.read(ino, 0, 4).unwrap(), vec![1, 2, 3, 4]);
    assert_eq!(fs.lookup_path("/docs/a.txt"), Some(ino));
    assert_eq!(fs.file_count(), 1);
    assert_eq!(fs.total_size(), 4);
    let err = fs.add_file("/docs/a.txt", vec![9]).unwrap_err();
    assert_eq!(err, "file already exists");
    assert_eq!(fs.file_count(), 1);
}
