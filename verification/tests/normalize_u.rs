use file_ref::FileRef;

#[test]
fn test_normalization_idempotent_samples() {
    // Re-normalizing a normalized path changes nothing.
    let samples = vec![
        "./dir1/dir2/..//../file.txt",
        "a\\b\\..\\c",
        "/a//b/../c/",
        "././.",
        "../..",
        "a/b/../..",
        "",
        "/",
        "C:/users/me/../you/file.txt",
        "trailing/slash/",
    ];
    for raw in samples {
        let once = FileRef::new(raw);
        let twice = FileRef::new(once.path());
        assert_eq!(once.path(), twice.path());
    }
}

#[test]
fn test_collapse_parent_segments() {
    let fs_path = FileRef::new("./a/b/../../c");
    assert_eq!(fs_path.path(), "c");
}

#[test]
fn test_backslash_unified() {
    let fs_path = FileRef::new("a\\b");
    assert_eq!(fs_path.path(), "a/b");
}

#[test]
fn test_doubled_separators_collapse() {
    assert_eq!(FileRef::new("a//b").path(), "a/b");
    assert_eq!(FileRef::new("a////b").path(), "a/b");
    assert_eq!(FileRef::new("/a//b/").path(), "/a/b/");
}

#[test]
fn test_all_dot_path_kept() {
    assert_eq!(FileRef::new("././.").path(), "././.");
    assert_eq!(FileRef::new(".").path(), ".");
}

#[test]
fn test_dot_segments_removed() {
    assert_eq!(FileRef::new("./a/./b").path(), "a/b");
}

#[test]
fn test_leading_parent_segments_kept() {
    assert_eq!(FileRef::new("../../a").path(), "../../a");
    assert_eq!(FileRef::new("a/b/../..").path(), "");
    assert_eq!(FileRef::new("/../a").path(), "a");
}

#[test]
fn test_parent_dir_of_trailing_updir() {
    let fs_path = FileRef::new_const("a/..");
    assert_eq!(fs_path.parent_dir().unwrap().path(), "..");
}

#[test]
fn test_parent_dir_from_resolves_single_name() {
    let working_dir = FileRef::new("C:/users/me");
    let fs_path = FileRef::new("file.txt");
    let parent = fs_path.parent_dir_from(&working_dir).unwrap();
    assert_eq!(parent.path(), "C:/users/me");
}

#[test]
fn test_parent_dir_from_keeps_absolute_error() {
    let working_dir = FileRef::new("C:/users/me");
    assert!(FileRef::new("C:").parent_dir_from(&working_dir).is_err());
}

#[test]
fn test_absolute_keeps_absolute_input() {
    let working_dir = FileRef::new("C:/users/me");
    let fs_path = FileRef::new("D:/data/file.txt").absolute(&working_dir);
    assert_eq!(fs_path.path(), "D:/data/file.txt");
}

#[test]
fn test_absolute_resolves_relative_input() {
    let working_dir = FileRef::new("C:/users/me");
    let fs_path = FileRef::new("dir/../file.txt").absolute(&working_dir);
    assert_eq!(fs_path.path(), "C:/users/me/file.txt");
}

#[test]
fn test_relative_strips_working_dir() {
    let working_dir = FileRef::new("C:/users/me");
    let fs_path = FileRef::new("C:/users/me/dir/file.txt").relative(&working_dir);
    assert_eq!(fs_path.path(), "dir/file.txt");
}

#[test]
fn test_relative_keeps_foreign_absolute_path() {
    let working_dir = FileRef::new("C:/users/me");
    let fs_path = FileRef::new("D:/elsewhere/file.txt").relative(&working_dir);
    assert_eq!(fs_path.path(), "D:/elsewhere/file.txt");
}

#[test]
fn test_same_location_relative_vs_absolute() {
    let working_dir = FileRef::new("C:/users/me");
    let relative = FileRef::new("dir/file.txt");
    let absolute = FileRef::new("C:/users/me/dir/file.txt");
    assert!(relative.same_location(&absolute, &working_dir));
    assert!(!relative.same_location(&FileRef::new("C:/users/me/other.txt"), &working_dir));
}

#[test]
fn test_extension_cases() {
    assert_eq!(FileRef::new("dir/file.txt").extension(), Some("txt".to_string()));
    assert_eq!(FileRef::new("dir/archive.tar.gz").extension(), Some("gz".to_string()));
    assert_eq!(FileRef::new("dir/name.").extension(), Some("".to_string()));
    assert_eq!(FileRef::new("dir/noext").extension(), None);
    assert_eq!(FileRef::new("dir.d/noext").extension(), None);
}

#[test]
fn test_name_and_stem() {
    let fs_path = FileRef::new("dir/file.txt");
    assert_eq!(fs_path.name(), "file.txt");
    assert_eq!(fs_path.file_name_no_extension(), "file");
    // trim_end_matches removes the suffix as often as it fits.
    assert_eq!(FileRef::new("a/b.txt.txt").file_name_no_extension(), "b");
    assert_eq!(FileRef::new("a/").name(), "");
}

#[test]
fn test_is_file_by_spelling() {
    assert!(FileRef::new("dir/file.txt").is_file());
    assert!(!FileRef::new("dir/subdir").is_file());
    assert!(!FileRef::new("dir/name.").is_file());
}

#[test]
fn test_is_absolute_path() {
    assert!(FileRef::new("C:/dir/file.txt").is_absolute_path());
    assert!(!FileRef::new("dir/file.txt").is_absolute_path());
    assert!(FileRef::new("dir/file.txt").is_relative_path());
}

#[test]
fn test_trim_end_matches() {
    let fs_path = FileRef::new_const("name.txt.txt");
    assert_eq!(fs_path.trim_end_matches(".txt").path(), "name");
}

#[test]
fn test_trim_start_and_end() {
    let fs_path = FileRef::new_const("   dir/file.txt   ");
    assert_eq!(fs_path.trim_start().path(), "dir/file.txt   ");
    assert_eq!(fs_path.trim_end().path(), "   dir/file.txt");
}

#[test]
fn test_trim_start_matches() {
    let fs_path = FileRef::new_const("abab_name");
    assert_eq!(fs_path.trim_start_matches("ab").path(), "_name");
}

#[test]
fn test_absolute_relative_round_trip() {
    // A clean relative path survives the trip through its absolute form.
    let working_dir = FileRef::new("C:/users/me");
    let relative = FileRef::new("dir/file.txt");
    let there = relative.clone().absolute(&working_dir);
    let back = there.relative(&working_dir);
    assert_eq!(back.path(), relative.path());
}

#[test]
fn test_file_ref_equality_is_by_path() {
    assert!(FileRef::new("a\\b") == FileRef::new("a/b"));
    assert!(FileRef::new("a/b") != FileRef::new("a/c"));
}
