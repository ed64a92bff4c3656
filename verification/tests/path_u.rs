use file_ref::dir::DirRef;
use file_ref::path::FsPath;

#[test]
fn path_test_new() {
    let path: &str = "dir\\file.txt";
    let fs_path: FsPath = FsPath::new(path);
    assert_eq!(fs_path.path(), "dir/file.txt");
}

#[test]
fn path_test_new_const() {
    let path: &'static str = "static/dir/file.txt";
    let fs_path: FsPath = FsPath::new_const(path);
    assert_eq!(fs_path.path(), path);
}

#[test]
fn path_test_path() {
    let fs_path: FsPath = FsPath::new("dir/file.txt");
    assert_eq!(fs_path.path(), "dir/file.txt");
}

#[test]
fn path_test_parent_dir() {
    let fs_path: FsPath = FsPath::new("dir/subdir/file.txt");
    let parent: DirRef = fs_path.parent_dir().unwrap();
    assert_eq!(parent.path(), "dir/subdir");
}

#[test]
fn test_parent_dir_root() {
    let fs_path: FsPath = FsPath::new("file.txt");
    assert!(fs_path.parent_dir().is_err());
}

#[test]
fn path_test_path_nodes() {
    let fs_path: FsPath = FsPath::new("dir/subdir/file.txt");
    let nodes: Vec<String> = fs_path.path_nodes();
    assert_eq!(nodes, vec!["dir", "subdir", "file.txt"]);
}

#[test]
fn path_test_last_node() {
    let fs_path: FsPath = FsPath::new("dir/subdir/file.txt");
    assert_eq!(fs_path.last_node(), "file.txt");
}

#[test]
fn path_test_len() {
    let fs_path: FsPath = FsPath::new("dir/file.txt");
    assert_eq!(fs_path.len(), 12);
}

#[test]
fn path_test_is_empty() {
    let fs_path: FsPath = FsPath::new("");
    assert!(fs_path.is_empty());

    let fs_path: FsPath = FsPath::new("not_empty");
    assert!(!fs_path.is_empty());
}

#[test]
fn path_test_contains() {
    let fs_path: FsPath = FsPath::new("dir/file.txt");
    assert!(fs_path.contains("file"));
    assert!(!fs_path.contains("no_file"));
}

#[test]
fn path_test_starts_with() {
    let fs_path: FsPath = FsPath::new("dir/file.txt");
    assert!(fs_path.starts_with("dir"));
    assert!(!fs_path.starts_with("file"));
}

#[test]
fn path_test_ends_with() {
    let fs_path: FsPath = FsPath::new("dir/file.txt");
    assert!(fs_path.ends_with("file.txt"));
    assert!(!fs_path.ends_with("dir"));
}

#[test]
fn path_test_to_lowercase() {
    let fs_path: FsPath = FsPath::new("DIR/FILE.TXT");
    let lower: FsPath = fs_path.to_lowercase();
    assert_eq!(lower.path(), "dir/file.txt");
}

#[test]
fn path_test_to_uppercase() {
    let fs_path: FsPath = FsPath::new("dir/file.txt");
    let upper: FsPath = fs_path.to_uppercase();
    assert_eq!(upper.path(), "DIR/FILE.TXT");
}

#[test]
fn path_test_trim() {
    let fs_path: FsPath = FsPath::new("   dir/file.txt   ");
    let trimmed: FsPath = fs_path.trim();
    assert_eq!(trimmed.path(), "dir/file.txt");
}

#[test]
fn path_test_strip_prefix() {
    let fs_path: FsPath = FsPath::new("dir/file.txt");
    let stripped: Option<FsPath> = fs_path.strip_prefix("dir/");
    assert!(stripped.is_some());
    assert_eq!(stripped.unwrap().path(), "file.txt");
}

#[test]
fn path_test_strip_suffix() {
    let fs_path: FsPath = FsPath::new("dir/file.txt");
    let stripped: Option<FsPath> = fs_path.strip_suffix(".txt");
    assert!(stripped.is_some());
    assert_eq!(stripped.unwrap().path(), "dir/file");
}

#[test]
fn path_test_replace() {
    let fs_path: FsPath = FsPath::new("dir/file.txt");
    let replaced: FsPath = fs_path.replace("file", "document");
    assert_eq!(replaced.path(), "dir/document.txt");
}

#[test]
fn path_test_trim_start_and_end() {
    let fs_path: FsPath = FsPath::new("   dir/file.txt   ");
    assert_eq!(fs_path.trim_start().path(), "dir/file.txt   ");
    assert_eq!(fs_path.trim_end().path(), "   dir/file.txt");
}

#[test]
fn path_test_repeat() {
    let fs_path: FsPath = FsPath::new("file_");
    let repeated: FsPath = fs_path.repeat(3);
    assert_eq!(repeated.path(), "file_file_file_");
}
