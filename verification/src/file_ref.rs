//! The main path value and file reference.
//!
//! `FilePath` normalizes at construction: separators are unified,
//! doubled separators collapsed, `..` nodes resolved against a preceding
//! node where possible, and bare `.` nodes removed. `FileRef` wraps a
//! `FilePath` and adds name, extension, parent and absolute/relative
//! derivation — all of it plain string logic.
//!
//! Whatever needs the live filesystem or the process environment (the
//! current working directory, existence checks, reading and writing)
//! lives outside the library; operations that depend on the working
//! directory take it as an explicit argument.

use vstd::prelude::*;

use crate::nodes::dotdot;
use crate::nodes::join_nodes;
use crate::nodes::last_node_of;
use crate::nodes::extension_of;
use crate::nodes::stem_of;
use crate::nodes::is_absolute;
use crate::nodes::lemma_nodes_view_index;
use crate::nodes::lemma_nodes_view_len;
use crate::nodes::nodes_view;
use crate::nodes::normalize;
use crate::nodes::normalize_path_chars;
use crate::nodes::split_trimmed;
use crate::nodes::subrange_nodes;
use crate::nodes::join_path;
use crate::nodes::trimmed_nodes;
use crate::nodes::is_dotdot_node;
use crate::text::chars_eq;
use crate::text::contains_chars;
use crate::text::contains_char;
use crate::text::contains_seq;
use crate::text::ends_with_chars;
use crate::text::find_last_char;
use crate::text::from_chars;
use crate::text::lower_of;
use crate::text::lowercase;
use crate::text::repeat_chars;
use crate::text::repeat_seq;
use crate::text::replace_chars;
use crate::text::replace_seq;
use crate::text::starts_with_chars;
use crate::text::strings_view;
use crate::text::lemma_strings_view_index;
use crate::text::lemma_strings_view_len;
use crate::text::to_chars;
use crate::text::trim_chars;
use crate::text::trim_end_chars;
use crate::text::trim_end_matches_chars;
use crate::text::trim_end_matches_seq;
use crate::text::trim_end_seq;
use crate::text::trim_seq;
use crate::text::trim_start_chars;
use crate::text::trim_start_matches_chars;
use crate::text::trim_start_matches_seq;
use crate::text::trim_start_seq;
use crate::text::upper_of;
use crate::text::uppercase;
use crate::text::append_chars;
use crate::text::clone_chars;

verus! {

/// The errors that path resolution can report.
#[derive(Debug)]
pub enum PathError {
    /// The path holds nothing above its last name to step up into.
    NoParentDirectory,
}

/// A normalized path string, either borrowed from a static string or
/// owned.
#[derive(Debug)]
pub enum FilePath {
    StaticStr(&'static str),
    Owned(String),
}

impl View for FilePath {
    type V = Seq<char>;

    open spec fn view(&self) -> Seq<char> {
        match self {
            FilePath::StaticStr(s) => s@,
            FilePath::Owned(s) => s@,
        }
    }
}

impl Clone for FilePath {
    fn clone(&self) -> (r: Self)
        ensures
            r == *self,
    {
        match self {
            FilePath::StaticStr(s) => FilePath::StaticStr(s),
            FilePath::Owned(s) => FilePath::Owned(s.clone()),
        }
    }
}

impl PartialEq for FilePath {
    fn eq(&self, other: &FilePath) -> (r: bool) {
        let a = to_chars(self.path());
        let b = to_chars(other.path());
        chars_eq(&a, &b)
    }
}

impl vstd::std_specs::cmp::PartialEqSpecImpl for FilePath {
    open spec fn obeys_eq_spec() -> bool {
        true
    }

    open spec fn eq_spec(&self, other: &FilePath) -> bool {
        self@ == other@
    }
}

impl FilePath {
    /// A new owned path, fully normalized.
    pub fn new(path: &str) -> (r: FilePath)
        ensures
            r@ == normalize(path@),
    {
        let cs = to_chars(path);
        let normalized = normalize_path_chars(&cs);
        FilePath::Owned(from_chars(&normalized))
    }

    /// A new statically borrowed path, stored exactly as given; the
    /// caller supplies an already clean literal.
    pub fn new_const(path: &'static str) -> (r: FilePath)
        ensures
            r@ == path@,
    {
        FilePath::StaticStr(path)
    }

    /// The raw path string.
    pub fn path(&self) -> (r: &str)
        ensures
            r@ == self@,
    {
        match self {
            FilePath::StaticStr(s) => *s,
            FilePath::Owned(s) => s.as_str(),
        }
    }
}

/// The parent of `s`: the path above its last node. A path whose last
/// node is `..` steps up by gaining another `..`; a path of a single
/// node has no parent.
pub open spec fn parent_of(s: Seq<char>) -> Option<Seq<char>> {
    let ns = trimmed_nodes(s);
    if ns.len() > 0 && ns.last() == dotdot() {
        Option::Some(normalize(s + seq!['/', '.', '.']))
    } else if ns.len() <= 1 {
        Option::None
    } else {
        Option::Some(normalize(join_nodes(ns.drop_last())))
    }
}

/// `s` resolved against the working directory `wd`: unchanged when
/// already absolute, else spliced below `wd` and normalized.
pub open spec fn abs_of(s: Seq<char>, wd: Seq<char>) -> Seq<char> {
    if is_absolute(s) {
        s
    } else {
        normalize(wd + seq!['/'] + s)
    }
}

/// The parent of `s`, where a single-node relative path is first
/// resolved against the working directory `wd` and retried.
pub open spec fn parent_in_of(s: Seq<char>, wd: Seq<char>) -> Option<Seq<char>> {
    let ns = trimmed_nodes(s);
    if ns.len() > 0 && ns.last() == dotdot() {
        Option::Some(normalize(s + seq!['/', '.', '.']))
    } else if ns.len() <= 1 {
        if !is_absolute(s) {
            parent_of(abs_of(s, wd))
        } else {
            Option::None
        }
    } else {
        Option::Some(normalize(join_nodes(ns.drop_last())))
    }
}

/// `s` made relative to the working directory `wd`: unchanged when it
/// is relative already or does not mention `wd`; else every occurrence
/// of `wd` followed by a separator is removed and the result normalized.
pub open spec fn rel_of(s: Seq<char>, wd: Seq<char>) -> Seq<char> {
    if !is_absolute(s) || !contains_seq(s, wd) {
        s
    } else {
        normalize(replace_seq(s, normalize(wd + seq!['/']), Seq::<char>::empty()))
    }
}

/// The length of the longest common node prefix of `a` and `b`.
pub open spec fn common_prefix_len(a: Seq<Seq<char>>, b: Seq<Seq<char>>) -> int
    decreases a.len(),
{
    if a.len() > 0 && b.len() > 0 && a[0] == b[0] {
        1 + common_prefix_len(a.drop_first(), b.drop_first())
    } else {
        0
    }
}

/// `n` nodes spelling `..`.
pub open spec fn updir_nodes(n: nat) -> Seq<Seq<char>>
    decreases n,
{
    if n == 0 {
        Seq::<Seq<char>>::empty()
    } else {
        seq![dotdot()] + updir_nodes((n - 1) as nat)
    }
}

/// The relative path from `a` to `b` (both already absolute): one `..`
/// for every node of `a` past the common prefix, then the rest of `b`.
pub open spec fn relative_to_of(a: Seq<char>, b: Seq<char>) -> Seq<char> {
    let an = trimmed_nodes(a);
    let bn = trimmed_nodes(b);
    let k = common_prefix_len(an, bn);
    normalize(join_nodes(updir_nodes((an.len() - k) as nat) + bn.skip(k)))
}

/// A file or directory reference, backed by a [`FilePath`]. Everything
/// here is derived from the path string; existence, metadata and file
/// contents are the operating system's business and live outside the
/// library.
#[derive(Debug)]
pub struct FileRef(FilePath);

impl View for FileRef {
    type V = Seq<char>;

    closed spec fn view(&self) -> Seq<char> {
        self.0@
    }
}

impl Clone for FileRef {
    fn clone(&self) -> (r: Self)
        ensures
            r == *self,
    {
        FileRef(self.0.clone())
    }
}

impl PartialEq for FileRef {
    fn eq(&self, other: &FileRef) -> (r: bool) {
        let a = to_chars(self.path());
        let b = to_chars(other.path());
        chars_eq(&a, &b)
    }
}

impl vstd::std_specs::cmp::PartialEqSpecImpl for FileRef {
    open spec fn obeys_eq_spec() -> bool {
        true
    }

    open spec fn eq_spec(&self, other: &FileRef) -> bool {
        self@ == other@
    }
}

impl FileRef {
    /// A new owned reference, fully normalized.
    pub fn new(path: &str) -> (r: FileRef)
        ensures
            r@ == normalize(path@),
    {
        FileRef(FilePath::new(path))
    }

    /// A new statically borrowed reference, stored exactly as given; the
    /// caller supplies an already clean literal.
    pub fn new_const(path: &'static str) -> (r: FileRef)
        ensures
            r@ == path@,
    {
        FileRef(FilePath::new_const(path))
    }

    /// The raw path string.
    pub fn path(&self) -> (r: &str)
        ensures
            r@ == self@,
    {
        self.0.path()
    }

    /// Whether the path is absolute: it carries a disk separator.
    pub fn is_absolute_path(&self) -> (r: bool)
        ensures
            r == is_absolute(self@),
    {
        let s = to_chars(self.path());
        contains_char(&s, ':')
    }

    /// Whether the path is relative.
    pub fn is_relative_path(&self) -> (r: bool)
        ensures
            r == !is_absolute(self@),
    {
        !self.is_absolute_path()
    }

    /// This reference resolved against the working directory
    /// `working_dir`: unchanged when already absolute.
    pub fn absolute(self, working_dir: &FileRef) -> (r: FileRef)
        ensures
            r@ == abs_of(self@, working_dir@),
            is_absolute(self@) ==> r == self,
    {
        if self.is_absolute_path() {
            self
        } else {
            let mut cs = to_chars(working_dir.path());
            cs.push('/');
            let tail = to_chars(self.path());
            append_chars(&mut cs, &tail);
            proof {
                assert(cs@ =~= working_dir@ + seq!['/'] + self@);
            }
            let joined = from_chars(&cs);
            FileRef::new(joined.as_str())
        }
    }

    /// This reference made relative to the working directory
    /// `working_dir`: unchanged when it is relative already or does not
    /// mention the working directory.
    pub fn relative(self, working_dir: &FileRef) -> (r: FileRef)
        ensures
            r@ == rel_of(self@, working_dir@),
            !is_absolute(self@) || !contains_seq(self@, working_dir@) ==> r == self,
    {
        let s = to_chars(self.path());
        let wd = to_chars(working_dir.path());
        if !contains_char(&s, ':') || !contains_chars(&s, &wd) {
            self
        } else {
            let mut prefix_raw = clone_chars(&wd);
            prefix_raw.push('/');
            proof {
                assert(prefix_raw@ =~= working_dir@ + seq!['/']);
            }
            let prefix = normalize_path_chars(&prefix_raw);
            let nothing: Vec<char> = Vec::new();
            let replaced = replace_chars(&s, &prefix, &nothing);
            proof {
                assert(nothing@ =~= Seq::<char>::empty());
            }
            let owned = from_chars(&replaced);
            FileRef::new(owned.as_str())
        }
    }

    /// The relative path leading from this reference to `target`, both
    /// first resolved against the working directory `working_dir`.
    pub fn relative_path_to(&self, target: &FileRef, working_dir: &FileRef) -> (r: FileRef)
        ensures
            r@ == relative_to_of(abs_of(self@, working_dir@), abs_of(target@, working_dir@)),
    {
        broadcast use {lemma_nodes_view_len, lemma_nodes_view_index};
        let src = self.clone().absolute(working_dir);
        let tgt = target.clone().absolute(working_dir);
        let src_cs = to_chars(src.path());
        let tgt_cs = to_chars(tgt.path());
        let a = split_trimmed(&src_cs);
        let b = split_trimmed(&tgt_cs);
        let ghost an = trimmed_nodes(src@);
        let ghost bn = trimmed_nodes(tgt@);

        // The longest shared node prefix.
        let mut k: usize = 0;
        proof {
            assert(an.skip(0) =~= an);
            assert(bn.skip(0) =~= bn);
        }
        while k < a.len() && k < b.len() && chars_eq(&a[k], &b[k])
            invariant
                k <= an.len(),
                k <= bn.len(),
                nodes_view(a@) == an,
                nodes_view(b@) == bn,
                common_prefix_len(an, bn) == k + common_prefix_len(an.skip(k as int), bn.skip(k as int)),
            decreases an.len() - k,
        {
            proof {
                assert(an.skip(k as int)[0] == an[k as int]);
                assert(bn.skip(k as int)[0] == bn[k as int]);
                assert(an.skip(k as int).drop_first() =~= an.skip(k + 1 as int));
                assert(bn.skip(k as int).drop_first() =~= bn.skip(k + 1 as int));
            }
            k = k + 1;
        }
        proof {
            if k < an.len() && k < bn.len() {
                assert(an.skip(k as int)[0] == an[k as int]);
                assert(bn.skip(k as int)[0] == bn[k as int]);
            }
            assert(common_prefix_len(an.skip(k as int), bn.skip(k as int)) == 0);
        }

        // One `..` per remaining source node, then the remaining target
        // nodes.
        let mut steps: Vec<Vec<char>> = Vec::new();
        let updirs = a.len() - k;
        let mut i: usize = 0;
        proof {
            assert(nodes_view(steps@) =~= updir_nodes(0));
        }
        while i < updirs
            invariant
                i <= updirs,
                updirs == an.len() - k,
                nodes_view(steps@) == updir_nodes(i as nat),
            decreases updirs - i,
        {
            let mut dd: Vec<char> = Vec::new();
            dd.push('.');
            dd.push('.');
            proof {
                assert(dd@ =~= dotdot());
            }
            let ghost old_steps = steps@;
            steps.push(dd);
            i = i + 1;
            proof {
                lemma_updir_snoc((i - 1) as nat);
                assert(nodes_view(steps@) =~= nodes_view(old_steps).push(dotdot()));
            }
        }
        let tail = subrange_nodes(&b, k, b.len());
        let ghost steps_before = steps@;
        let mut j: usize = 0;
        proof {
            assert(nodes_view(steps@) =~= nodes_view(steps_before) + nodes_view(tail@).take(0));
        }
        while j < tail.len()
            invariant
                j <= tail@.len(),
                nodes_view(steps@) == nodes_view(steps_before) + nodes_view(tail@).take(j as int),
            decreases tail@.len() - j,
        {
            let ghost old_steps = steps@;
            steps.push(clone_chars(&tail[j]));
            j = j + 1;
            proof {
                assert(nodes_view(steps@) =~= nodes_view(old_steps).push(tail@[j - 1]@));
                assert(nodes_view(tail@).take(j as int) =~= nodes_view(tail@).take(j - 1).push(
                    tail@[j - 1]@,
                ));
            }
        }
        proof {
            assert(nodes_view(tail@).take(tail@.len() as int) =~= nodes_view(tail@));
            assert(nodes_view(steps@) =~= updir_nodes((an.len() - k) as nat) + bn.skip(k as int));
        }
        let joined = join_path(&steps);
        let owned = from_chars(&joined);
        FileRef::new(owned.as_str())
    }

    /// The directory this reference lies in. A trailing `..` steps up
    /// once more; a single-node path has no parent here (resolve it
    /// first, or use [`FileRef::parent_dir_from`]).
    pub fn parent_dir(&self) -> (r: Result<FileRef, PathError>)
        ensures
            match r {
                Ok(p) => parent_of(self@) == Option::Some(p@),
                Err(e) => parent_of(self@) is None && e == PathError::NoParentDirectory,
            },
    {
        broadcast use {lemma_nodes_view_len, lemma_nodes_view_index};
        let cs = to_chars(self.path());
        let ns = split_trimmed(&cs);
        let n = ns.len();
        if n > 0 && is_dotdot_node(&ns[n - 1]) {
            proof {
                assert(nodes_view(ns@).last() == ns@[n - 1]@);
            }
            let mut extended = clone_chars(&cs);
            extended.push('/');
            extended.push('.');
            extended.push('.');
            proof {
                assert(extended@ =~= self@ + seq!['/', '.', '.']);
            }
            let owned = from_chars(&extended);
            Ok(FileRef::new(owned.as_str()))
        } else {
            proof {
                if n > 0 {
                    assert(nodes_view(ns@).last() == ns@[n - 1]@);
                }
            }
            if n <= 1 {
                Err(PathError::NoParentDirectory)
            } else {
                let head = subrange_nodes(&ns, 0, n - 1);
                proof {
                    assert(nodes_view(head@) =~= trimmed_nodes(self@).drop_last());
                }
                let joined = join_path(&head);
                let owned = from_chars(&joined);
                Ok(FileRef::new(owned.as_str()))
            }
        }
    }

    /// The directory this reference lies in, where a single-node
    /// relative path is first resolved against the working directory
    /// `working_dir` and retried.
    pub fn parent_dir_from(&self, working_dir: &FileRef) -> (r: Result<FileRef, PathError>)
        ensures
            match r {
                Ok(p) => parent_in_of(self@, working_dir@) == Option::Some(p@),
                Err(e) => parent_in_of(self@, working_dir@) is None && e
                    == PathError::NoParentDirectory,
            },
    {
        broadcast use {lemma_nodes_view_len, lemma_nodes_view_index};
        let cs = to_chars(self.path());
        let ns = split_trimmed(&cs);
        let n = ns.len();
        proof {
            if n > 0 {
                assert(nodes_view(ns@).last() == ns@[n - 1]@);
            }
        }
        if n > 0 && is_dotdot_node(&ns[n - 1]) {
            self.parent_dir()
        } else if n <= 1 {
            if self.is_relative_path() {
                let resolved = self.clone().absolute(working_dir);
                resolved.parent_dir()
            } else {
                Err(PathError::NoParentDirectory)
            }
        } else {
            self.parent_dir()
        }
    }

    /// The `/`-delimited nodes of the path, without the empty nodes a
    /// trailing separator leaves behind.
    pub fn path_nodes(&self) -> (r: Vec<String>)
        ensures
            strings_view(r@) == trimmed_nodes(self@),
    {
        broadcast use {lemma_nodes_view_len, lemma_nodes_view_index, lemma_strings_view_len,
            lemma_strings_view_index};

        let cs = to_chars(self.path());
        let ns = split_trimmed(&cs);
        let mut r: Vec<String> = Vec::new();
        let mut i: usize = 0;
        proof {
            assert(strings_view(r@) =~= nodes_view(ns@).take(0));
        }
        while i < ns.len()
            invariant
                i <= ns@.len(),
                strings_view(r@) == nodes_view(ns@).take(i as int),
            decreases ns@.len() - i,
        {
            let ghost old_r = r@;
            r.push(from_chars(&ns[i]));
            i = i + 1;
            proof {
                assert(strings_view(r@) =~= strings_view(old_r).push(ns@[i - 1]@));
                assert(nodes_view(ns@).take(i as int) =~= nodes_view(ns@).take(i - 1).push(
                    ns@[i - 1]@,
                ));
            }
        }
        proof {
            assert(nodes_view(ns@).take(ns@.len() as int) =~= nodes_view(ns@));
        }
        r
    }

    /// The last node of the path.
    pub fn last_node(&self) -> (r: String)
        ensures
            r@ == last_node_of(self@),
    {
        let cs = to_chars(self.path());
        let node = crate::nodes::last_node_chars(&cs);
        from_chars(&node)
    }

    /// The name of the file or directory: the last node of the path.
    pub fn name(&self) -> (r: String)
        ensures
            r@ == last_node_of(self@),
    {
        self.last_node()
    }

    /// The name without its `.`-delimited extension.
    pub fn file_name_no_extension(&self) -> (r: String)
        ensures
            r@ == stem_of(self@),
    {
        let cs = to_chars(self.path());
        let name = crate::nodes::last_node_chars(&cs);
        match find_last_char(&name, '.') {
            Option::None => from_chars(&name),
            Option::Some(i) => {
                let n = name.len();
                let mut pat: Vec<char> = Vec::new();
                pat.push('.');
                let mut j: usize = i + 1;
                while j < n
                    invariant
                        n == name@.len(),
                        i + 1 <= j <= name@.len(),
                        pat@ == seq!['.'] + name@.subrange(i + 1, j as int),
                    decreases name@.len() - j,
                {
                    pat.push(name[j]);
                    j = j + 1;
                    proof {
                        assert(pat@ =~= seq!['.'] + name@.subrange(i + 1, j as int));
                    }
                }
                proof {
                    assert(pat@ =~= seq!['.'] + name@.skip(i + 1));
                }
                let trimmed = trim_end_matches_chars(&name, &pat);
                from_chars(&trimmed)
            },
        }
    }

    /// The extension of the file: what follows the last `.` of its
    /// name, or `None` when the name holds no `.`.
    pub fn extension(&self) -> (r: Option<String>)
        ensures
            match r {
                Option::Some(e) => extension_of(self@) == Option::Some(e@),
                Option::None => extension_of(self@) is None,
            },
    {
        let cs = to_chars(self.path());
        let name = crate::nodes::last_node_chars(&cs);
        match find_last_char(&name, '.') {
            Option::None => None,
            Option::Some(i) => {
                let n = name.len();
                let mut ext: Vec<char> = Vec::new();
                let mut j: usize = i + 1;
                proof {
                    assert(ext@ =~= name@.subrange(i + 1, i + 1));
                }
                while j < n
                    invariant
                        n == name@.len(),
                        i + 1 <= j <= name@.len(),
                        ext@ == name@.subrange(i + 1, j as int),
                    decreases name@.len() - j,
                {
                    ext.push(name[j]);
                    j = j + 1;
                    proof {
                        assert(ext@ =~= name@.subrange(i + 1, j as int));
                    }
                }
                proof {
                    assert(ext@ =~= name@.skip(i + 1));
                }
                Some(from_chars(&ext))
            },
        }
    }

    /// Whether the path is spelled like a file: its last node carries a
    /// nonempty extension.
    pub fn is_file(&self) -> (r: bool)
        ensures
            r == match extension_of(self@) {
                Option::None => false,
                Option::Some(e) => e.len() > 0,
            },
    {
        match self.extension() {
            Option::None => false,
            Option::Some(ext) => !ext.as_str().is_empty(),
        }
    }

    /// Whether this reference and `other` name the same location: their
    /// raw paths are equal, or their forms resolved against the working
    /// directory `working_dir` are.
    pub fn same_location(&self, other: &FileRef, working_dir: &FileRef) -> (r: bool)
        ensures
            r == (self@ == other@ || abs_of(self@, working_dir@) == abs_of(
                other@,
                working_dir@,
            )),
    {
        let a = to_chars(self.path());
        let b = to_chars(other.path());
        if chars_eq(&a, &b) {
            return true;
        }
        let abs_a = self.clone().absolute(working_dir);
        let abs_b = other.clone().absolute(working_dir);
        let ac = to_chars(abs_a.path());
        let bc = to_chars(abs_b.path());
        chars_eq(&ac, &bc)
    }

    /// The byte length of the raw path string.
    pub fn len(&self) -> (r: usize)
        ensures
            r == vstd::utf8::encode_utf8(self@).len() as usize,
    {
        self.path().len()
    }

    /// Whether the raw path string is empty.
    pub fn is_empty(&self) -> (r: bool)
        ensures
            r == (self@.len() == 0),
    {
        self.path().is_empty()
    }

    /// Whether `pattern` occurs in the raw path string.
    pub fn contains(&self, pattern: &str) -> (r: bool)
        ensures
            r == contains_seq(self@, pattern@),
    {
        let s = to_chars(self.path());
        let p = to_chars(pattern);
        contains_chars(&s, &p)
    }

    /// Whether the raw path string starts with `prefix`.
    pub fn starts_with(&self, prefix: &str) -> (r: bool)
        ensures
            r == prefix@.is_prefix_of(self@),
    {
        let s = to_chars(self.path());
        let p = to_chars(prefix);
        starts_with_chars(&s, &p)
    }

    /// Whether the raw path string ends with `suffix`.
    pub fn ends_with(&self, suffix: &str) -> (r: bool)
        ensures
            r == suffix@.is_suffix_of(self@),
    {
        let s = to_chars(self.path());
        let p = to_chars(suffix);
        ends_with_chars(&s, &p)
    }

    /// The path mapped to lowercase, normalized again.
    pub fn to_lowercase(&self) -> (r: FileRef)
        ensures
            r@ == normalize(lower_of(self@)),
    {
        let lowered = lowercase(self.path());
        FileRef::new(lowered.as_str())
    }

    /// The path mapped to uppercase, normalized again.
    pub fn to_uppercase(&self) -> (r: FileRef)
        ensures
            r@ == normalize(upper_of(self@)),
    {
        let raised = uppercase(self.path());
        FileRef::new(raised.as_str())
    }

    /// The path without leading and trailing whitespace, normalized
    /// again.
    pub fn trim(&self) -> (r: FileRef)
        ensures
            r@ == normalize(trim_seq(self@)),
    {
        let s = to_chars(self.path());
        let trimmed = trim_chars(&s);
        let owned = from_chars(&trimmed);
        FileRef::new(owned.as_str())
    }

    /// The path without leading whitespace, normalized again.
    pub fn trim_start(&self) -> (r: FileRef)
        ensures
            r@ == normalize(trim_start_seq(self@)),
    {
        let s = to_chars(self.path());
        let trimmed = trim_start_chars(&s);
        let owned = from_chars(&trimmed);
        FileRef::new(owned.as_str())
    }

    /// The path without trailing whitespace, normalized again.
    pub fn trim_end(&self) -> (r: FileRef)
        ensures
            r@ == normalize(trim_end_seq(self@)),
    {
        let s = to_chars(self.path());
        let trimmed = trim_end_chars(&s);
        let owned = from_chars(&trimmed);
        FileRef::new(owned.as_str())
    }

    /// The path with every leading copy of `pat` removed, normalized
    /// again.
    pub fn trim_start_matches(&self, pat: &str) -> (r: FileRef)
        ensures
            r@ == normalize(trim_start_matches_seq(self@, pat@)),
    {
        let s = to_chars(self.path());
        let p = to_chars(pat);
        let trimmed = trim_start_matches_chars(&s, &p);
        let owned = from_chars(&trimmed);
        FileRef::new(owned.as_str())
    }

    /// The path with every trailing copy of `pat` removed, normalized
    /// again.
    pub fn trim_end_matches(&self, pat: &str) -> (r: FileRef)
        ensures
            r@ == normalize(trim_end_matches_seq(self@, pat@)),
    {
        let s = to_chars(self.path());
        let p = to_chars(pat);
        let trimmed = trim_end_matches_chars(&s, &p);
        let owned = from_chars(&trimmed);
        FileRef::new(owned.as_str())
    }

    /// The path repeated `n` times, normalized again.
    pub fn repeat(&self, n: usize) -> (r: FileRef)
        ensures
            r@ == normalize(repeat_seq(self@, n as nat)),
    {
        let s = to_chars(self.path());
        let repeated = repeat_chars(&s, n);
        let owned = from_chars(&repeated);
        FileRef::new(owned.as_str())
    }

    /// Every occurrence of `from` replaced by `to`, normalized again.
    pub fn replace(&self, from: &str, to: &str) -> (r: FileRef)
        ensures
            r@ == normalize(replace_seq(self@, from@, to@)),
    {
        let s = to_chars(self.path());
        let f = to_chars(from);
        let t = to_chars(to);
        let replaced = replace_chars(&s, &f, &t);
        let owned = from_chars(&replaced);
        FileRef::new(owned.as_str())
    }

    /// The path with `prefix` removed, when it starts with `prefix`;
    /// normalized again.
    pub fn strip_prefix(&self, prefix: &str) -> (r: Option<FileRef>)
        ensures
            match r {
                Option::Some(p) => prefix@.is_prefix_of(self@) && p@ == normalize(
                    self@.skip(prefix@.len() as int),
                ),
                Option::None => !prefix@.is_prefix_of(self@),
            },
    {
        let s = to_chars(self.path());
        let p = to_chars(prefix);
        if !starts_with_chars(&s, &p) {
            return None;
        }
        let mut rest: Vec<char> = Vec::new();
        let mut i: usize = p.len();
        proof {
            assert(rest@ =~= s@.subrange(p@.len() as int, p@.len() as int));
        }
        while i < s.len()
            invariant
                p@.len() <= i <= s@.len(),
                rest@ == s@.subrange(p@.len() as int, i as int),
            decreases s@.len() - i,
        {
            rest.push(s[i]);
            i = i + 1;
            proof {
                assert(rest@ =~= s@.subrange(p@.len() as int, i as int));
            }
        }
        proof {
            assert(rest@ =~= self@.skip(p@.len() as int));
        }
        let owned = from_chars(&rest);
        Some(FileRef::new(owned.as_str()))
    }

    /// The path with `suffix` removed, when it ends with `suffix`;
    /// normalized again.
    pub fn strip_suffix(&self, suffix: &str) -> (r: Option<FileRef>)
        ensures
            match r {
                Option::Some(p) => suffix@.is_suffix_of(self@) && p@ == normalize(
                    self@.take(self@.len() - suffix@.len()),
                ),
                Option::None => !suffix@.is_suffix_of(self@),
            },
    {
        let s = to_chars(self.path());
        let p = to_chars(suffix);
        if !ends_with_chars(&s, &p) {
            return None;
        }
        let keep = s.len() - p.len();
        let mut rest: Vec<char> = Vec::new();
        let mut i: usize = 0;
        while i < keep
            invariant
                i <= keep <= s@.len(),
                rest@ == s@.take(i as int),
            decreases keep - i,
        {
            rest.push(s[i]);
            i = i + 1;
            proof {
                assert(rest@ =~= s@.take(i as int));
            }
        }
        let owned = from_chars(&rest);
        Some(FileRef::new(owned.as_str()))
    }
}

pub proof fn lemma_updir_snoc(n: nat)
    ensures
        updir_nodes(n + 1) == updir_nodes(n).push(dotdot()),
    decreases n,
{
    if n == 0 {
        assert(updir_nodes(1) =~= updir_nodes(0).push(dotdot()));
    } else {
        lemma_updir_snoc((n - 1) as nat);
        assert(updir_nodes(n + 1) =~= updir_nodes(n).push(dotdot()));
    }
}

} // verus!
