//! The decision core of the directory-change watcher.
//!
//! Watching a directory for changes is platform work and lives outside
//! the library. What is verified here is the part that needs no
//! operating system: the monitor's configuration, and the translation of
//! a batch of raw change records — an action code and a file name each —
//! into file events, including the pairing of a rename's origin with its
//! destination.

use vstd::prelude::*;

use crate::file_ref::FileRef;
use crate::nodes::normalize;
use crate::text::append_chars;
use crate::text::from_chars;
use crate::text::to_chars;

verus! {

/// A change observed below the monitored directory.
pub enum FileEvent {
    /// A file appeared.
    Added(FileRef),
    /// A file vanished.
    Removed(FileRef),
    /// A file's contents changed.
    Modified(FileRef),
    /// A file moved: its old path, then its new path.
    Renamed(FileRef, FileRef),
}

/// The spec-level shape of a [`FileEvent`].
pub ghost enum FileEventView {
    Added(Seq<char>),
    Removed(Seq<char>),
    Modified(Seq<char>),
    Renamed(Seq<char>, Seq<char>),
}

impl View for FileEvent {
    type V = FileEventView;

    open spec fn view(&self) -> FileEventView {
        match self {
            FileEvent::Added(f) => FileEventView::Added(f@),
            FileEvent::Removed(f) => FileEventView::Removed(f@),
            FileEvent::Modified(f) => FileEventView::Modified(f@),
            FileEvent::Renamed(a, b) => FileEventView::Renamed(a@, b@),
        }
    }
}

/// The views of a list of events.
pub open spec fn events_view(es: Seq<FileEvent>) -> Seq<FileEventView> {
    es.map_values(|e: FileEvent| e@)
}

pub broadcast proof fn lemma_events_view_len(es: Seq<FileEvent>)
    ensures
        #[trigger] events_view(es).len() == es.len(),
{
}

pub broadcast proof fn lemma_events_view_index(es: Seq<FileEvent>, i: int)
    requires
        0 <= i < es.len(),
    ensures
        #[trigger] events_view(es)[i] == es[i]@,
{
}

/// The views of a list of raw change records.
pub open spec fn changes_view(cs: Seq<(u32, String)>) -> Seq<(u32, Seq<char>)> {
    cs.map_values(|c: (u32, String)| (c.0, c.1@))
}

pub broadcast proof fn lemma_changes_view_len(cs: Seq<(u32, String)>)
    ensures
        #[trigger] changes_view(cs).len() == cs.len(),
{
}

pub broadcast proof fn lemma_changes_view_index(cs: Seq<(u32, String)>, i: int)
    requires
        0 <= i < cs.len(),
    ensures
        #[trigger] changes_view(cs)[i] == (cs[i].0, cs[i].1@),
{
}

/// The path of an entry named `name` inside the directory at `dir`.
pub open spec fn entry_path(dir: Seq<char>, name: Seq<char>) -> Seq<char> {
    normalize(dir + seq!['/'] + name)
}

/// The events a batch of raw change records means, given the monitored
/// directory and the origin recorded by the latest rename-from record.
/// Action codes follow the change-notification convention: 1 added,
/// 2 removed, 3 modified, 4 renamed-from, 5 renamed-to; anything else is
/// ignored.
pub open spec fn interpret_of(
    dir: Seq<char>,
    changes: Seq<(u32, Seq<char>)>,
    origin: Seq<char>,
) -> Seq<FileEventView>
    decreases changes.len(),
{
    if changes.len() == 0 {
        Seq::<FileEventView>::empty()
    } else {
        let action = changes[0].0;
        let file = entry_path(dir, changes[0].1);
        let rest = changes.drop_first();
        if action == 1 {
            seq![FileEventView::Added(file)] + interpret_of(dir, rest, origin)
        } else if action == 2 {
            seq![FileEventView::Removed(file)] + interpret_of(dir, rest, origin)
        } else if action == 3 {
            seq![FileEventView::Modified(file)] + interpret_of(dir, rest, origin)
        } else if action == 4 {
            interpret_of(dir, rest, file)
        } else if action == 5 {
            seq![FileEventView::Renamed(origin, file)] + interpret_of(dir, rest, origin)
        } else {
            interpret_of(dir, rest, origin)
        }
    }
}

/// A directory monitor's configuration: the directory watched and
/// whether subdirectories are watched too. Running it against the live
/// platform is the caller's business; the translation of raw change
/// records into events is verified here.
pub struct DirMonitor {
    dir: FileRef,
    recursive: bool,
}

impl DirMonitor {
    /// The path of the monitored directory.
    pub closed spec fn dir_spec(&self) -> Seq<char> {
        self.dir@
    }

    /// Whether subdirectories are monitored too.
    pub closed spec fn recursive_spec(&self) -> bool {
        self.recursive
    }

    /// A new monitor over the directory at `path`, not yet recursive.
    pub fn new(path: &str) -> (r: DirMonitor)
        ensures
            r.dir_spec() == normalize(path@),
            !r.recursive_spec(),
    {
        DirMonitor { dir: FileRef::new(path), recursive: false }
    }

    /// This monitor, set to watch subdirectories too.
    pub fn recursive(self) -> (r: Self)
        ensures
            r.dir_spec() == self.dir_spec(),
            r.recursive_spec(),
    {
        let mut r = self;
        r.recursive = true;
        r
    }

    /// The monitored directory.
    pub fn dir(&self) -> (r: &FileRef)
        ensures
            r@ == self.dir_spec(),
    {
        &self.dir
    }

    /// Whether this monitor watches subdirectories.
    pub fn is_recursive(&self) -> (r: bool)
        ensures
            r == self.recursive_spec(),
    {
        self.recursive
    }

    /// The events a batch of raw change records means: each record is an
    /// action code with the changed entry's name; a renamed-from record
    /// sets the origin that the next renamed-to record pairs with.
    pub fn interpret_changes(&self, changes: &Vec<(u32, String)>) -> (r: Vec<FileEvent>)
        ensures
            events_view(r@) == interpret_of(
                self.dir_spec(),
                changes_view(changes@),
                normalize(Seq::<char>::empty()),
            ),
    {
        broadcast use {lemma_events_view_len, lemma_events_view_index, lemma_changes_view_len,
            lemma_changes_view_index};

        let n = changes.len();
        let mut out: Vec<FileEvent> = Vec::new();
        let mut origin: FileRef = FileRef::new("");
        let mut i: usize = 0;
        let ghost full = changes_view(changes@);
        proof {
            assert(full.skip(0) =~= full);
            assert(events_view(out@) + interpret_of(self.dir_spec(), full, origin@) =~= interpret_of(
                self.dir_spec(),
                full,
                origin@,
            ));
            reveal_strlit("");
            assert(""@ =~= Seq::<char>::empty());
            assert(origin@ == normalize(Seq::<char>::empty()));
        }
        while i < n
            invariant
                i <= n,
                n == changes@.len(),
                full == changes_view(changes@),
                interpret_of(self.dir_spec(), full, normalize(Seq::<char>::empty()))
                    == events_view(out@) + interpret_of(
                    self.dir_spec(),
                    full.skip(i as int),
                    origin@,
                ),
            decreases n - i,
        {
            proof {
                assert(full.skip(i as int).drop_first() =~= full.skip(i + 1 as int));
                assert(full.skip(i as int)[0] == full[i as int]);
            }
            let action = changes[i].0;
            let mut cs = to_chars(self.dir.path());
            cs.push('/');
            let name = to_chars(changes[i].1.as_str());
            append_chars(&mut cs, &name);
            proof {
                assert(cs@ =~= self.dir_spec() + seq!['/'] + changes@[i as int].1@);
            }
            let owned = from_chars(&cs);
            let file = FileRef::new(owned.as_str());
            let ghost old_out = out@;
            let ghost old_origin = origin@;
            if action == 1 {
                out.push(FileEvent::Added(file));
            } else if action == 2 {
                out.push(FileEvent::Removed(file));
            } else if action == 3 {
                out.push(FileEvent::Modified(file));
            } else if action == 4 {
                origin = file;
            } else if action == 5 {
                out.push(FileEvent::Renamed(origin.clone(), file));
            }
            i = i + 1;
            proof {
                if action == 1 || action == 2 || action == 3 || action == 5 {
                    assert(events_view(out@) =~= events_view(old_out).push(out@.last()@));
                    assert(events_view(old_out) + (seq![out@.last()@] + interpret_of(
                        self.dir_spec(),
                        full.skip(i as int),
                        origin@,
                    )) =~= events_view(out@) + interpret_of(
                        self.dir_spec(),
                        full.skip(i as int),
                        origin@,
                    ));
                }
            }
        }
        proof {
            assert(full.skip(n as int) =~= Seq::<(u32, Seq<char>)>::empty());
            assert(events_view(out@) + interpret_of(
                self.dir_spec(),
                full.skip(n as int),
                origin@,
            ) =~= events_view(out@));
        }
        out
    }
}

} // verus!
