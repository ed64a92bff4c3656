use file_ref::DirMonitor;
use file_ref::FileEvent;
use file_ref::TempFile;
use file_ref::TempFileRegistry;
use file_ref::dir::DirRef;
use file_ref::file::FileRef as PlainFileRef;

#[test]
fn test_dir_ref_name() {
    let dir = DirRef::new("work\\projects\\demo");
    assert_eq!(dir.path(), "work/projects/demo");
    assert_eq!(dir.dir_name(), "demo");
}

#[test]
fn test_plain_file_ref_classification() {
    // The plain reference judges by spelling alone: an empty extension
    // still counts as a directory.
    assert!(PlainFileRef::new("dir/subdir").is_dir());
    assert!(PlainFileRef::new("dir/name.").is_dir());
    assert!(PlainFileRef::new("dir/file.txt").is_file());
    assert_eq!(PlainFileRef::new("dir/file.txt").name(), "file.txt");
    assert_eq!(PlainFileRef::new("dir/file.txt").file_name_no_extension(), "file");
    assert_eq!(PlainFileRef::new("dir/file.txt").extension(), Some("txt".to_string()));
}

#[test]
fn test_monitor_configuration() {
    let monitor = DirMonitor::new("target\\watched");
    assert_eq!(monitor.dir().path(), "target/watched");
    assert!(!monitor.is_recursive());
    let monitor = monitor.recursive();
    assert!(monitor.is_recursive());
}

#[test]
fn test_monitor_interprets_changes() {
    let monitor = DirMonitor::new("watched");
    let changes: Vec<(u32, String)> = vec![
        (1, "a.txt".to_string()),
        (3, "a.txt".to_string()),
        (4, "old.txt".to_string()),
        (5, "new.txt".to_string()),
        (2, "b.txt".to_string()),
        (9, "ignored.txt".to_string()),
    ];
    let events = monitor.interpret_changes(&changes);
    assert_eq!(events.len(), 4);
    match &events[0] {
        FileEvent::Added(f) => assert_eq!(f.path(), "watched/a.txt"),
        _ => panic!("expected an added event"),
    }
    match &events[1] {
        FileEvent::Modified(f) => assert_eq!(f.path(), "watched/a.txt"),
        _ => panic!("expected a modified event"),
    }
    match &events[2] {
        FileEvent::Renamed(from, to) => {
            assert_eq!(from.path(), "watched/old.txt");
            assert_eq!(to.path(), "watched/new.txt");
        }
        _ => panic!("expected a renamed event"),
    }
    match &events[3] {
        FileEvent::Removed(f) => assert_eq!(f.path(), "watched/b.txt"),
        _ => panic!("expected a removed event"),
    }
}

#[test]
fn test_temp_file_names_are_fresh_and_formatted() {
    let mut registry = TempFileRegistry::new();
    let first = TempFile::new(Some("txt"), &mut registry).unwrap();
    let second = TempFile::new(Some("txt"), &mut registry).unwrap();
    let third = TempFile::new(None, &mut registry).unwrap();
    assert_eq!(first.path(), "target/unit_test_support/00000001.txt");
    assert_eq!(second.path(), "target/unit_test_support/00000002.txt");
    assert_eq!(third.path(), "target/unit_test_support/00000003");
    assert_ne!(first.path(), second.path());
}
