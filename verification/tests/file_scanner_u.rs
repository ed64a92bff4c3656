use file_ref::FileRef;
use file_ref::FileScanner;
use file_ref::ScanFilter;
use file_ref::ScanStep;

/// Drives a scanner to exhaustion over an in-memory tree: each entry
/// maps a directory path to its immediate children; any other path
/// (a file, a vanished directory) lists as empty.
fn scan_all(mut scanner: FileScanner, tree: &[(&str, Vec<&str>)]) -> Vec<FileRef> {
    let mut results: Vec<FileRef> = Vec::new();
    loop {
        match scanner.poll() {
            ScanStep::Yield(entry) => results.push(entry),
            ScanStep::NeedListing(dir) => {
                let children: Vec<FileRef> = tree
                    .iter()
                    .find(|(path, _)| *path == dir.path())
                    .map(|(_, names)| names.iter().map(|n| FileRef::new(n)).collect())
                    .unwrap_or_default();
                scanner.supply_listing(children);
            }
            ScanStep::NeedRootCheck(checked) => {
                let exists = tree.iter().any(|(path, _)| *path == checked.path());
                scanner.supply_root_exists(exists);
            }
            ScanStep::Done => return results,
        }
    }
}

/// The fixture tree:
/// root/file1.txt, root/subdir1/file2.txt, root/subdir1/sub_subdir1/file3.txt,
/// root/subdir2/file4.txt.
fn test_tree() -> Vec<(&'static str, Vec<&'static str>)> {
    vec![
        ("root", vec!["root/file1.txt", "root/subdir1", "root/subdir2"]),
        ("root/subdir1", vec!["root/subdir1/file2.txt", "root/subdir1/sub_subdir1"]),
        ("root/subdir1/sub_subdir1", vec!["root/subdir1/sub_subdir1/file3.txt"]),
        ("root/subdir2", vec!["root/subdir2/file4.txt"]),
    ]
}

#[test]
fn test_include_self() {
    let root: FileRef = FileRef::new("root");
    let scanner: FileScanner = FileScanner::new(&root).include_self();
    let results = scan_all(scanner, &test_tree());
    assert!(results.iter().any(|e| e.path() == root.path()));
    assert_eq!(results.len(), 1);
}

#[test]
fn test_include_files() {
    let root: FileRef = FileRef::new("root");
    let scanner: FileScanner = FileScanner::new(&root).include_files();
    let results = scan_all(scanner, &test_tree());
    assert!(results.iter().all(|f| f.is_file()));
    assert_eq!(results.len(), 1);
}

#[test]
fn test_include_dirs() {
    let root: FileRef = FileRef::new("root");
    let scanner: FileScanner = FileScanner::new(&root).include_dirs();
    let results = scan_all(scanner, &test_tree());
    assert!(results.iter().all(|d| !d.is_file()));
    assert_eq!(results.len(), 2); // subdir1, subdir2.
}

#[test]
fn test_include_files_and_dirs() {
    let root: FileRef = FileRef::new("root");
    let scanner: FileScanner = FileScanner::new(&root).include_files().include_dirs();
    let results = scan_all(scanner, &test_tree());
    assert!(results.len() > 0);
    assert!(results.iter().any(|e| !e.is_file()));
    assert!(results.iter().any(|e| e.is_file()));
}

#[test]
fn test_filter() {
    let root: FileRef = FileRef::new("root");
    let scanner: FileScanner = FileScanner::new(&root)
        .include_files()
        .recurse()
        .filter(ScanFilter::NameEndsWith(".txt".to_string()));
    let results = scan_all(scanner, &test_tree());
    assert!(results.iter().all(|f| f.name().ends_with(".txt")));
    assert_eq!(results.len(), 4);
}

#[test]
fn test_recursion() {
    let root: FileRef = FileRef::new("root");
    let scanner: FileScanner = FileScanner::new(&root).include_files().recurse();
    let results = scan_all(scanner, &test_tree());
    assert_eq!(results.len(), 4); // file1, file2, file3, file4.
}

#[test]
fn test_recurse_filter() {
    let root: FileRef = FileRef::new("root");
    let scanner: FileScanner = FileScanner::new(&root)
        .include_files()
        .recurse_filter(ScanFilter::NameIsNot("subdir1".to_string()));
    let results = scan_all(scanner, &test_tree());
    assert!(results.iter().all(|f| !f.path().contains("subdir1")));
}

#[test]
fn test_root_is_file() {
    let root: FileRef = FileRef::new("rootfile1.txt");
    let scanner: FileScanner = FileScanner::new(&root).include_files().include_dirs().recurse();
    let results = scan_all(scanner, &test_tree());
    assert!(results.iter().all(|f| f.name().ends_with("1.txt")));
    assert_eq!(results.len(), 0);
}

#[test]
fn test_filter_excluding_everything() {
    let root: FileRef = FileRef::new("root");
    let scanner: FileScanner =
        FileScanner::new(&root).include_files().recurse().filter(ScanFilter::NoEntry);
    let results = scan_all(scanner, &test_tree());
    assert_eq!(results.len(), 0);
}

#[test]
fn test_recursive_scan_exact_files() {
    let root: FileRef = FileRef::new("root");
    let scanner: FileScanner = FileScanner::new(&root).include_files().recurse();
    let results = scan_all(scanner, &test_tree());
    let mut paths: Vec<String> = results.iter().map(|f| f.path().to_string()).collect();
    paths.sort();
    assert_eq!(
        paths,
        vec![
            "root/file1.txt",
            "root/subdir1/file2.txt",
            "root/subdir1/sub_subdir1/file3.txt",
            "root/subdir2/file4.txt",
        ]
    );
}

#[test]
fn test_vanished_subdir_lists_as_empty() {
    // The tree says subdir1 exists below the root, but by the time the
    // scanner descends into it the directory is gone: its listing comes
    // back empty, the scan goes on elsewhere.
    let tree: Vec<(&str, Vec<&str>)> = vec![
        ("root", vec!["root/file1.txt", "root/subdir1", "root/subdir2"]),
        ("root/subdir2", vec!["root/subdir2/file4.txt"]),
    ];
    let root: FileRef = FileRef::new("root");
    let scanner: FileScanner = FileScanner::new(&root).include_files().recurse();
    let results = scan_all(scanner, &tree);
    let mut paths: Vec<String> = results.iter().map(|f| f.path().to_string()).collect();
    paths.sort();
    assert_eq!(paths, vec!["root/file1.txt", "root/subdir2/file4.txt"]);
}

#[test]
fn test_include_self_yields_root_once() {
    // The root comes out exactly once, however often the exhausted
    // scanner is pulled afterwards.
    let root: FileRef = FileRef::new("root");
    let mut scanner: FileScanner =
        FileScanner::new(&root).include_self().include_files().include_dirs().recurse();
    let tree = test_tree();
    let mut root_count = 0;
    let mut done_polls = 0;
    while done_polls < 5 {
        match scanner.poll() {
            ScanStep::Yield(entry) => {
                if entry.path() == root.path() {
                    root_count += 1;
                }
            }
            ScanStep::NeedListing(dir) => {
                let children: Vec<FileRef> = tree
                    .iter()
                    .find(|(path, _)| *path == dir.path())
                    .map(|(_, names)| names.iter().map(|n| FileRef::new(n)).collect())
                    .unwrap_or_default();
                scanner.supply_listing(children);
            }
            ScanStep::NeedRootCheck(checked) => {
                let exists = tree.iter().any(|(path, _)| *path == checked.path());
                scanner.supply_root_exists(exists);
            }
            ScanStep::Done => done_polls += 1,
        }
    }
    assert_eq!(root_count, 1);
}

#[test]
fn test_include_self_on_missing_root_yields_nothing() {
    // The root is offered through include_self only when it exists.
    let root: FileRef = FileRef::new("nowhere");
    let scanner: FileScanner = FileScanner::new(&root).include_self();
    let results = scan_all(scanner, &test_tree());
    assert_eq!(results.len(), 0);
}

#[test]
fn test_trailing_separator_trimmed_from_root() {
    let root: FileRef = FileRef::new_const("root/");
    let scanner: FileScanner = FileScanner::new(&root).include_self();
    let results = scan_all(scanner, &test_tree());
    assert_eq!(results.len(), 1);
    assert_eq!(results[0].path(), "root");
}

#[test]
fn test_dir_excluded_from_results_still_recursed() {
    // Result filter and recursion filter are independent: subdir1 never
    // shows up as a result, yet its files do.
    let root: FileRef = FileRef::new("root");
    let scanner: FileScanner = FileScanner::new(&root)
        .include_files()
        .include_dirs()
        .recurse()
        .filter(ScanFilter::NameIsNot("subdir1".to_string()));
    let results = scan_all(scanner, &test_tree());
    assert!(results.iter().all(|e| e.name() != "subdir1"));
    assert!(results.iter().any(|e| e.path() == "root/subdir1/file2.txt"));
}
