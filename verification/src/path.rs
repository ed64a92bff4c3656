//! A plain string-backed path value.
//!
//! `FsPath` unifies separators at construction and otherwise stores the
//! string as given. Its equality and all of its operations are plain
//! string algebra over the stored path.

use vstd::prelude::*;

use crate::dir::DirRef;
use crate::nodes::canon_seps;
use crate::nodes::join_nodes;
use crate::nodes::last_node_of;
use crate::nodes::lemma_nodes_view_index;
use crate::nodes::lemma_nodes_view_len;
use crate::nodes::nodes_view;
use crate::nodes::split_nodes;
use crate::nodes::split_path;
use crate::nodes::subrange_nodes;
use crate::nodes::join_path;
use crate::text::contains_chars;
use crate::text::contains_seq;
use crate::text::chars_eq;
use crate::text::ends_with_chars;
use crate::text::from_chars;
use crate::text::lower_of;
use crate::text::lowercase;
use crate::text::repeat_chars;
use crate::text::repeat_seq;
use crate::text::replace_chars;
use crate::text::replace_seq;
use crate::text::starts_with_chars;
use crate::text::strings_view;
use crate::text::lemma_strings_view_index;
use crate::text::lemma_strings_view_len;
use crate::text::to_chars;
use crate::text::trim_chars;
use crate::text::trim_end_chars;
use crate::text::trim_end_seq;
use crate::text::trim_seq;
use crate::text::trim_start_chars;
use crate::text::trim_start_seq;
use crate::text::upper_of;
use crate::text::uppercase;

verus! {

/// The parent path of `s`: its nodes but the last, or `None` when `s`
/// holds a single node only.
pub open spec fn fs_parent_of(s: Seq<char>) -> Option<Seq<char>> {
    let ns = split_nodes(s);
    if ns.len() <= 1 {
        Option::None
    } else {
        Option::Some(canon_seps(join_nodes(ns.drop_last())))
    }
}

/// A filesystem path, either borrowed from a static string or owned.
#[derive(Debug)]
pub enum FsPath {
    StaticStr(&'static str),
    Owned(String),
}

impl View for FsPath {
    type V = Seq<char>;

    open spec fn view(&self) -> Seq<char> {
        match self {
            FsPath::StaticStr(s) => s@,
            FsPath::Owned(s) => s@,
        }
    }
}

impl Clone for FsPath {
    fn clone(&self) -> (r: Self)
        ensures
            r == *self,
    {
        match self {
            FsPath::StaticStr(s) => FsPath::StaticStr(s),
            FsPath::Owned(s) => FsPath::Owned(s.clone()),
        }
    }
}

impl PartialEq for FsPath {
    fn eq(&self, other: &FsPath) -> (r: bool) {
        let a = to_chars(self.path());
        let b = to_chars(other.path());
        chars_eq(&a, &b)
    }
}

impl vstd::std_specs::cmp::PartialEqSpecImpl for FsPath {
    open spec fn obeys_eq_spec() -> bool {
        true
    }

    open spec fn eq_spec(&self, other: &FsPath) -> bool {
        self@ == other@
    }
}

impl FsPath {
    /// A new owned path with separators unified to `/`.
    pub fn new(path: &str) -> (r: FsPath)
        ensures
            r@ == canon_seps(path@),
    {
        let cs = to_chars(path);
        let unified = crate::nodes::unify_separators(&cs);
        FsPath::Owned(from_chars(&unified))
    }

    /// A new statically borrowed path, stored exactly as given.
    pub fn new_const(path: &'static str) -> (r: FsPath)
        ensures
            r@ == path@,
    {
        FsPath::StaticStr(path)
    }

    /// The raw path string.
    pub fn path(&self) -> (r: &str)
        ensures
            r@ == self@,
    {
        match self {
            FsPath::StaticStr(s) => *s,
            FsPath::Owned(s) => s.as_str(),
        }
    }

    /// The directory this path lies in; an error when the path holds
    /// nothing but a single name.
    pub fn parent_dir(&self) -> (r: Result<DirRef, crate::file_ref::PathError>)
        ensures
            match r {
                Ok(d) => fs_parent_of(self@) == Option::Some(d@),
                Err(e) => fs_parent_of(self@) is None && e
                    == crate::file_ref::PathError::NoParentDirectory,
            },
    {
        broadcast use {lemma_nodes_view_len, lemma_nodes_view_index};
        let cs = to_chars(self.path());
        let ns = split_path(&cs);
        if ns.len() <= 1 {
            Err(crate::file_ref::PathError::NoParentDirectory)
        } else {
            let head = subrange_nodes(&ns, 0, ns.len() - 1);
            proof {
                assert(nodes_view(head@) =~= split_nodes(self@).drop_last());
            }
            let joined = join_path(&head);
            let s = from_chars(&joined);
            Ok(DirRef::new(s.as_str()))
        }
    }

    /// The `/`-delimited nodes of the path.
    pub fn path_nodes(&self) -> (r: Vec<String>)
        ensures
            strings_view(r@) == split_nodes(self@),
    {
        broadcast use {lemma_nodes_view_len, lemma_nodes_view_index, lemma_strings_view_len,
            lemma_strings_view_index};

        let cs = to_chars(self.path());
        let ns = split_path(&cs);
        let mut r: Vec<String> = Vec::new();
        let mut i: usize = 0;
        proof {
            assert(strings_view(r@) =~= nodes_view(ns@).take(0));
        }
        while i < ns.len()
            invariant
                i <= ns@.len(),
                strings_view(r@) == nodes_view(ns@).take(i as int),
            decreases ns@.len() - i,
        {
            let ghost old_r = r@;
            r.push(from_chars(&ns[i]));
            i = i + 1;
            proof {
                assert(strings_view(r@) =~= strings_view(old_r).push(ns@[i - 1]@));
                assert(nodes_view(ns@).take(i as int) =~= nodes_view(ns@).take(i - 1).push(
                    ns@[i - 1]@,
                ));
            }
        }
        proof {
            assert(nodes_view(ns@).take(ns@.len() as int) =~= nodes_view(ns@));
        }
        r
    }

    /// The last node of the path; empty when the path ends in `/`.
    pub fn last_node(&self) -> (r: String)
        ensures
            r@ == last_node_of(self@),
    {
        let cs = to_chars(self.path());
        let node = crate::nodes::last_node_chars(&cs);
        from_chars(&node)
    }

    /// The byte length of the raw path string.
    pub fn len(&self) -> (r: usize)
        ensures
            r == vstd::utf8::encode_utf8(self@).len() as usize,
    {
        self.path().len()
    }

    /// Whether the raw path string is empty.
    pub fn is_empty(&self) -> (r: bool)
        ensures
            r == (self@.len() == 0),
    {
        self.path().is_empty()
    }

    /// Whether `pattern` occurs in the raw path string.
    pub fn contains(&self, pattern: &str) -> (r: bool)
        ensures
            r == contains_seq(self@, pattern@),
    {
        let s = to_chars(self.path());
        let p = to_chars(pattern);
        contains_chars(&s, &p)
    }

    /// Whether the raw path string starts with `prefix`.
    pub fn starts_with(&self, prefix: &str) -> (r: bool)
        ensures
            r == prefix@.is_prefix_of(self@),
    {
        let s = to_chars(self.path());
        let p = to_chars(prefix);
        starts_with_chars(&s, &p)
    }

    /// Whether the raw path string ends with `suffix`.
    pub fn ends_with(&self, suffix: &str) -> (r: bool)
        ensures
            r == suffix@.is_suffix_of(self@),
    {
        let s = to_chars(self.path());
        let p = to_chars(suffix);
        ends_with_chars(&s, &p)
    }

    /// The path mapped to lowercase.
    pub fn to_lowercase(&self) -> (r: FsPath)
        ensures
            r@ == canon_seps(lower_of(self@)),
    {
        let lowered = lowercase(self.path());
        FsPath::new(lowered.as_str())
    }

    /// The path mapped to uppercase.
    pub fn to_uppercase(&self) -> (r: FsPath)
        ensures
            r@ == canon_seps(upper_of(self@)),
    {
        let raised = uppercase(self.path());
        FsPath::new(raised.as_str())
    }

    /// The path without leading and trailing whitespace.
    pub fn trim(&self) -> (r: FsPath)
        ensures
            r@ == canon_seps(trim_seq(self@)),
    {
        let s = to_chars(self.path());
        let trimmed = trim_chars(&s);
        let owned = from_chars(&trimmed);
        FsPath::new(owned.as_str())
    }

    /// The path without leading whitespace.
    pub fn trim_start(&self) -> (r: FsPath)
        ensures
            r@ == canon_seps(trim_start_seq(self@)),
    {
        let s = to_chars(self.path());
        let trimmed = trim_start_chars(&s);
        let owned = from_chars(&trimmed);
        FsPath::new(owned.as_str())
    }

    /// The path without trailing whitespace.
    pub fn trim_end(&self) -> (r: FsPath)
        ensures
            r@ == canon_seps(trim_end_seq(self@)),
    {
        let s = to_chars(self.path());
        let trimmed = trim_end_chars(&s);
        let owned = from_chars(&trimmed);
        FsPath::new(owned.as_str())
    }

    /// The path repeated `n` times.
    pub fn repeat(&self, n: usize) -> (r: FsPath)
        ensures
            r@ == canon_seps(repeat_seq(self@, n as nat)),
    {
        let s = to_chars(self.path());
        let repeated = repeat_chars(&s, n);
        let owned = from_chars(&repeated);
        FsPath::new(owned.as_str())
    }

    /// Every occurrence of `from` replaced by `to`.
    pub fn replace(&self, from: &str, to: &str) -> (r: FsPath)
        ensures
            r@ == canon_seps(replace_seq(self@, from@, to@)),
    {
        let s = to_chars(self.path());
        let f = to_chars(from);
        let t = to_chars(to);
        let replaced = replace_chars(&s, &f, &t);
        let owned = from_chars(&replaced);
        FsPath::new(owned.as_str())
    }

    /// The path with `prefix` removed, when it starts with `prefix`.
    pub fn strip_prefix(&self, prefix: &str) -> (r: Option<FsPath>)
        ensures
            match r {
                Option::Some(p) => prefix@.is_prefix_of(self@) && p@ == canon_seps(
                    self@.skip(prefix@.len() as int),
                ),
                Option::None => !prefix@.is_prefix_of(self@),
            },
    {
        let s = to_chars(self.path());
        let p = to_chars(prefix);
        if !starts_with_chars(&s, &p) {
            return None;
        }
        let mut rest: Vec<char> = Vec::new();
        let mut i: usize = p.len();
        proof {
            assert(rest@ =~= s@.subrange(p@.len() as int, p@.len() as int));
        }
        while i < s.len()
            invariant
                p@.len() <= i <= s@.len(),
                rest@ == s@.subrange(p@.len() as int, i as int),
            decreases s@.len() - i,
        {
            rest.push(s[i]);
            i = i + 1;
            proof {
                assert(rest@ =~= s@.subrange(p@.len() as int, i as int));
            }
        }
        proof {
            assert(rest@ =~= self@.skip(p@.len() as int));
        }
        let owned = from_chars(&rest);
        Some(FsPath::new(owned.as_str()))
    }

    /// The path with `suffix` removed, when it ends with `suffix`.
    pub fn strip_suffix(&self, suffix: &str) -> (r: Option<FsPath>)
        ensures
            match r {
                Option::Some(p) => suffix@.is_suffix_of(self@) && p@ == canon_seps(
                    self@.take(self@.len() - suffix@.len()),
                ),
                Option::None => !suffix@.is_suffix_of(self@),
            },
    {
        let s = to_chars(self.path());
        let p = to_chars(suffix);
        if !ends_with_chars(&s, &p) {
            return None;
        }
        let keep = s.len() - p.len();
        let mut rest: Vec<char> = Vec::new();
        let mut i: usize = 0;
        while i < keep
            invariant
                i <= keep <= s@.len(),
                rest@ == s@.take(i as int),
            decreases keep - i,
        {
            rest.push(s[i]);
            i = i + 1;
            proof {
                assert(rest@ =~= s@.take(i as int));
            }
        }
        let owned = from_chars(&rest);
        Some(FsPath::new(owned.as_str()))
    }
}

} // verus!
