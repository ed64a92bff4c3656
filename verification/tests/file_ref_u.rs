use file_ref::FileRef;

#[test]
fn file_ref_u_test_new() {
    let path: &str = "dir\\file.txt";
    let fs_path: FileRef = FileRef::new(path);
    assert_eq!(fs_path.path(), "dir/file.txt");
}

#[test]
fn file_ref_u_test_new_const() {
    let path: &'static str = "static/dir/file.txt";
    let fs_path: FileRef = FileRef::new_const(path);
    assert_eq!(fs_path.path(), path);
}

#[test]
fn file_ref_u_test_path() {
    let fs_path: FileRef = FileRef::new("dir/file.txt");
    assert_eq!(fs_path.path(), "dir/file.txt");
}

#[test]
fn test_messy_path() {
    let path: &str = "./dir1/dir2/..//../file.txt";
    let fs_path: FileRef = FileRef::new(path);
    assert_eq!(fs_path.path(), "file.txt");
}

#[test]
fn test_path_to_absolute() {
    let path: &str = "dir/file.txt";
    let working_dir: FileRef = FileRef::new("C:/users/me/project");
    let fs_path: FileRef = FileRef::new(path).absolute(&working_dir);
    assert!(fs_path.path().contains(":"), "Did not correctly create absolute path");
}

#[test]
fn test_relative_path_to() {
    let working_dir: FileRef = FileRef::new("C:/users/Me");
    let path: FileRef = FileRef::new("C:/users/Me/Desktop/file.txt");
    let fs_path: FileRef = FileRef::new(
        "C:/users/Me/Download/cracked_version_of_free_tool/definitely_not_a_virus.exe",
    );
    assert_eq!(
        path.relative_path_to(&fs_path, &working_dir).path(),
        "../../Download/cracked_version_of_free_tool/definitely_not_a_virus.exe"
    );
}

#[test]
fn file_ref_u_test_parent_dir() {
    let fs_path: FileRef = FileRef::new("dir/subdir/file.txt");
    let parent: FileRef = fs_path.parent_dir().unwrap();
    assert_eq!(parent.path(), "dir/subdir");
}

#[test]
fn test_parent_dir_absolute_root() {
    let fs_path: FileRef = FileRef::new("C:");
    println!("{:?}", fs_path.parent_dir());
    assert!(fs_path.parent_dir().is_err());
}

#[test]
fn test_parent_dir_ends_with_slash() {
    let fs_path: FileRef = FileRef::new("test1/test2/");
    assert_eq!(fs_path.parent_dir().unwrap().path(), "test1");
}

#[test]
fn file_ref_u_test_path_nodes() {
    let fs_path: FileRef = FileRef::new("dir/subdir/file.txt");
    let nodes: Vec<String> = fs_path.path_nodes();
    assert_eq!(nodes, vec!["dir", "subdir", "file.txt"]);
}

#[test]
fn file_ref_u_test_last_node() {
    let fs_path: FileRef = FileRef::new("dir/subdir/file.txt");
    assert_eq!(fs_path.last_node(), "file.txt");
}

#[test]
fn file_ref_u_test_len() {
    let fs_path: FileRef = FileRef::new("dir/file.txt");
    assert_eq!(fs_path.len(), 12);
}

#[test]
fn file_ref_u_test_is_empty() {
    let fs_path: FileRef = FileRef::new("");
    assert!(fs_path.is_empty());

    let fs_path: FileRef = FileRef::new("not_empty");
    assert!(!fs_path.is_empty());
}

#[test]
fn file_ref_u_test_contains() {
    let fs_path: FileRef = FileRef::new("dir/file.txt");
    assert!(fs_path.contains("file"));
    assert!(!fs_path.contains("no_file"));
}

#[test]
fn file_ref_u_test_starts_with() {
    let fs_path: FileRef = FileRef::new("dir/file.txt");
    assert!(fs_path.starts_with("dir"));
    assert!(!fs_path.starts_with("file"));
}

#[test]
fn file_ref_u_test_ends_with() {
    let fs_path: FileRef = FileRef::new("dir/file.txt");
    assert!(fs_path.ends_with("file.txt"));
    assert!(!fs_path.ends_with("dir"));
}

#[test]
fn file_ref_u_test_to_lowercase() {
    let fs_path: FileRef = FileRef::new("DIR/FILE.TXT");
    let lower: FileRef = fs_path.to_lowercase();
    assert_eq!(lower.path(), "dir/file.txt");
}

#[test]
fn file_ref_u_test_to_uppercase() {
    let fs_path: FileRef = FileRef::new("dir/file.txt");
    let upper: FileRef = fs_path.to_uppercase();
    assert_eq!(upper.path(), "DIR/FILE.TXT");
}

#[test]
fn file_ref_u_test_trim() {
    let fs_path: FileRef = FileRef::new("   dir/file.txt   ");
    let trimmed: FileRef = fs_path.trim();
    assert_eq!(trimmed.path(), "dir/file.txt");
}

#[test]
fn file_ref_u_test_strip_prefix() {
    let fs_path: FileRef = FileRef::new("dir/file.txt");
    let stripped: Option<FileRef> = fs_path.strip_prefix("dir/");
    assert!(stripped.is_some());
    assert_eq!(stripped.unwrap().path(), "file.txt");
}

#[test]
fn file_ref_u_test_strip_suffix() {
    let fs_path: FileRef = FileRef::new("dir/file.txt");
    let stripped: Option<FileRef> = fs_path.strip_suffix(".txt");
    assert!(stripped.is_some());
    assert_eq!(stripped.unwrap().path(), "dir/file");
}

#[test]
fn file_ref_u_test_replace() {
    let fs_path: FileRef = FileRef::new("dir/file.txt");
    let replaced: FileRef = fs_path.replace("file", "document");
    assert_eq!(replaced.path(), "dir/document.txt");
}

#[test]
fn file_ref_u_test_repeat() {
    let fs_path: FileRef = FileRef::new("file_");
    let repeated: FileRef = fs_path.repeat(3);
    assert_eq!(repeated.path(), "file_file_file_");
}
