//! A reference to a directory, backed by an [`FsPath`].

use vstd::prelude::*;

use crate::nodes::canon_seps;
use crate::nodes::last_node_of;
use crate::path::FsPath;

verus! {

/// A directory reference; creation, deletion and existence checks are
/// operating-system work and live outside the library.
#[derive(Debug)]
pub struct DirRef(pub FsPath);

impl View for DirRef {
    type V = Seq<char>;

    open spec fn view(&self) -> Seq<char> {
        self.0@
    }
}

impl Clone for DirRef {
    fn clone(&self) -> (r: Self)
        ensures
            r == *self,
    {
        DirRef(self.0.clone())
    }
}

impl DirRef {
    /// A new directory reference with separators unified to `/`.
    pub fn new(path: &str) -> (r: DirRef)
        ensures
            r@ == canon_seps(path@),
    {
        DirRef(FsPath::new(path))
    }

    /// A new statically borrowed directory reference, stored as given.
    pub fn new_const(path: &'static str) -> (r: DirRef)
        ensures
            r@ == path@,
    {
        DirRef(FsPath::new_const(path))
    }

    /// The raw path string.
    pub fn path(&self) -> (r: &str)
        ensures
            r@ == self@,
    {
        self.0.path()
    }

    /// The name of the directory: the last node of its path.
    pub fn dir_name(&self) -> (r: String)
        ensures
            r@ == last_node_of(self@),
    {
        self.0.last_node()
    }
}

} // verus!
