//! A plain file reference, backed by an [`FsPath`].
//!
//! Unlike [`crate::file_ref::FileRef`], this reference never consults the
//! filesystem: a path is taken for a directory exactly when its last node
//! carries no nonempty `.`-delimited extension. Reading and writing the
//! referenced file is operating-system work and lives outside the library.

use vstd::prelude::*;

use crate::nodes::canon_seps;
use crate::nodes::extension_of;
use crate::nodes::last_node_of;
use crate::nodes::stem_of;
use crate::path::FsPath;
use crate::text::from_chars;
use crate::text::find_last_char;
use crate::text::to_chars;
use crate::text::trim_end_matches_chars;

verus! {

/// Whether a path, judged by its spelling alone, names a directory:
/// its last node has no extension, or an empty one.
pub open spec fn spelled_as_dir(s: Seq<char>) -> bool {
    match extension_of(s) {
        Option::None => true,
        Option::Some(ext) => ext.len() == 0,
    }
}

/// A file reference judged by its spelling alone.
#[derive(Debug)]
pub struct FileRef(pub FsPath);

impl View for FileRef {
    type V = Seq<char>;

    open spec fn view(&self) -> Seq<char> {
        self.0@
    }
}

impl Clone for FileRef {
    fn clone(&self) -> (r: Self)
        ensures
            r == *self,
    {
        FileRef(self.0.clone())
    }
}

impl FileRef {
    /// A new file reference with separators unified to `/`.
    pub fn new(path: &str) -> (r: FileRef)
        ensures
            r@ == canon_seps(path@),
    {
        FileRef(FsPath::new(path))
    }

    /// A new statically borrowed file reference, stored as given.
    pub fn new_const(path: &'static str) -> (r: FileRef)
        ensures
            r@ == path@,
    {
        FileRef(FsPath::new_const(path))
    }

    /// The raw path string.
    pub fn path(&self) -> (r: &str)
        ensures
            r@ == self@,
    {
        self.0.path()
    }

    /// Whether the path is spelled like a directory.
    pub fn is_dir(&self) -> (r: bool)
        ensures
            r == spelled_as_dir(self@),
    {
        match self.extension() {
            Option::None => true,
            Option::Some(ext) => ext.as_str().is_empty(),
        }
    }

    /// Whether the path is spelled like a file.
    pub fn is_file(&self) -> (r: bool)
        ensures
            r == !spelled_as_dir(self@),
    {
        !self.is_dir()
    }

    /// The name of the file or directory: the last node of the path.
    pub fn name(&self) -> (r: String)
        ensures
            r@ == last_node_of(self@),
    {
        self.0.last_node()
    }

    /// The name without its `.`-delimited extension.
    pub fn file_name_no_extension(&self) -> (r: String)
        ensures
            r@ == stem_of(self@),
    {
        let cs = to_chars(self.path());
        let name = crate::nodes::last_node_chars(&cs);
        match find_last_char(&name, '.') {
            Option::None => from_chars(&name),
            Option::Some(i) => {
                let n = name.len();
                let mut pat: Vec<char> = Vec::new();
                pat.push('.');
                let mut j: usize = i + 1;
                while j < n
                    invariant
                        n == name@.len(),
                        i + 1 <= j <= name@.len(),
                        pat@ == seq!['.'] + name@.subrange(i + 1, j as int),
                    decreases name@.len() - j,
                {
                    pat.push(name[j]);
                    j = j + 1;
                    proof {
                        assert(pat@ =~= seq!['.'] + name@.subrange(i + 1, j as int));
                    }
                }
                proof {
                    assert(pat@ =~= seq!['.'] + name@.skip(i + 1));
                }
                let trimmed = trim_end_matches_chars(&name, &pat);
                from_chars(&trimmed)
            },
        }
    }

    /// The extension of the file: what follows the last `.` of its name,
    /// or `None` when the name holds no `.`.
    pub fn extension(&self) -> (r: Option<String>)
        ensures
            match r {
                Option::Some(e) => extension_of(self@) == Option::Some(e@),
                Option::None => extension_of(self@) is None,
            },
    {
        let cs = to_chars(self.path());
        let name = crate::nodes::last_node_chars(&cs);
        match find_last_char(&name, '.') {
            Option::None => None,
            Option::Some(i) => {
                let n = name.len();
                let mut ext: Vec<char> = Vec::new();
                let mut j: usize = i + 1;
                proof {
                    assert(ext@ =~= name@.subrange(i + 1, i + 1));
                }
                while j < n
                    invariant
                        n == name@.len(),
                        i + 1 <= j <= name@.len(),
                        ext@ == name@.subrange(i + 1, j as int),
                    decreases name@.len() - j,
                {
                    ext.push(name[j]);
                    j = j + 1;
                    proof {
                        assert(ext@ =~= name@.subrange(i + 1, j as int));
                    }
                }
                proof {
                    assert(ext@ =~= name@.skip(i + 1));
                }
                Some(from_chars(&ext))
            },
        }
    }
}

} // verus!
