//! A small filesystem path library: string-backed path values with
//! normalization, file/directory references, and a lazy, filtered,
//! resumable directory scanner driven as a state machine.
//!
//! All path manipulation is pure string logic and is verified here.
//! The operating-system calls themselves (reading directories, file I/O)
//! live outside this crate; the scanner asks for directory listings
//! through its `poll`/`supply_listing` protocol and is verified for
//! every answer the environment may give.

pub mod text;
pub mod nodes;
pub mod laws;
pub mod path;
pub mod dir;
pub mod file;
pub mod file_ref;
pub mod file_scanner;
pub mod dir_monitor;
pub mod unit_test_support;

pub use file_ref::FilePath;
pub use file_ref::FileRef;
pub use file_ref::PathError;
pub use file_scanner::FileScanner;
pub use file_scanner::ScanFilter;
pub use file_scanner::ScanStep;
pub use dir_monitor::DirMonitor;
pub use dir_monitor::FileEvent;
pub use unit_test_support::TempFile;
pub use unit_test_support::TempFileRegistry;
