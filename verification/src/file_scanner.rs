//! The lazy, filtered, resumable directory scanner.
//!
//! A `FileScanner` walks a directory tree depth-first without touching the
//! operating system itself. Pulling on it with [`FileScanner::poll`] either
//! yields the next matching entry, asks for the listing of a directory, or
//! reports exhaustion; the caller answers a listing request with
//! [`FileScanner::supply_listing`] (an unreadable or vanished directory is
//! answered with an empty listing). The scanner is verified for every
//! answer the environment may give, and its behaviour is a function of
//! those answers: each `poll`'s step and resulting state are fixed by the
//! current state, and a supplied listing installs exactly the given
//! children, classified and ordered. Whatever is yielded passed the
//! result filter and an enabled classification, the root is offered
//! through `include_self` at most once, only the root and directories
//! that passed the recursion filter are ever listed, and a finished scan
//! stays finished.
//!
//! Entries are classified by spelling: an entry whose name carries a
//! `.`-delimited extension counts as a file, any other as a directory.
//! Within a directory the scanner offers matching files first, then
//! matching directories, then descends into the subdirectories that passed
//! the recursion filter, in listing order.

use vstd::prelude::*;

use crate::file_ref::FileRef;
use crate::nodes::extension_of;
use crate::nodes::last_node_of;
use crate::nodes::normalize;
use crate::text::chars_eq;
use crate::text::ends_with_chars;
use crate::text::find_last_char;
use crate::text::from_chars;
use crate::text::to_chars;
use crate::text::trim_end_matches_chars;
use crate::text::trim_end_matches_seq;

verus! {

/// A predicate over candidate entries, judged by the entry's name (its
/// last path node).
pub enum ScanFilter {
    /// Every entry passes.
    EveryEntry,
    /// No entry passes.
    NoEntry,
    /// The entry's name ends with the given suffix.
    NameEndsWith(String),
    /// The entry's name equals the given string.
    NameIs(String),
    /// The entry's name differs from the given string.
    NameIsNot(String),
}

/// Whether the entry at `path` passes the filter `f`.
pub open spec fn filter_allows(f: ScanFilter, path: Seq<char>) -> bool {
    match f {
        ScanFilter::EveryEntry => true,
        ScanFilter::NoEntry => false,
        ScanFilter::NameEndsWith(s) => s@.is_suffix_of(last_node_of(path)),
        ScanFilter::NameIs(s) => last_node_of(path) == s@,
        ScanFilter::NameIsNot(s) => last_node_of(path) != s@,
    }
}

/// Whether the entry at `path` is classified as a file: its name carries
/// a `.`-delimited extension.
pub open spec fn listed_as_file(path: Seq<char>) -> bool {
    extension_of(path) is Some
}

impl Clone for ScanFilter {
    fn clone(&self) -> (r: Self)
        ensures
            r == *self,
    {
        match self {
            ScanFilter::EveryEntry => ScanFilter::EveryEntry,
            ScanFilter::NoEntry => ScanFilter::NoEntry,
            ScanFilter::NameEndsWith(s) => ScanFilter::NameEndsWith(s.clone()),
            ScanFilter::NameIs(s) => ScanFilter::NameIs(s.clone()),
            ScanFilter::NameIsNot(s) => ScanFilter::NameIsNot(s.clone()),
        }
    }
}

impl ScanFilter {
    /// Whether `entry` passes this filter.
    pub fn allows(&self, entry: &FileRef) -> (r: bool)
        ensures
            r == filter_allows(*self, entry@),
    {
        match self {
            ScanFilter::EveryEntry => true,
            ScanFilter::NoEntry => false,
            ScanFilter::NameEndsWith(s) => {
                let cs = to_chars(entry.path());
                let name = crate::nodes::last_node_chars(&cs);
                let suffix = to_chars(s.as_str());
                ends_with_chars(&name, &suffix)
            },
            ScanFilter::NameIs(s) => {
                let cs = to_chars(entry.path());
                let name = crate::nodes::last_node_chars(&cs);
                let wanted = to_chars(s.as_str());
                chars_eq(&name, &wanted)
            },
            ScanFilter::NameIsNot(s) => {
                let cs = to_chars(entry.path());
                let name = crate::nodes::last_node_chars(&cs);
                let unwanted = to_chars(s.as_str());
                !chars_eq(&name, &unwanted)
            },
        }
    }
}

/// Whether `entry` is classified as a file.
fn entry_is_file(entry: &FileRef) -> (r: bool)
    ensures
        r == listed_as_file(entry@),
{
    let cs = to_chars(entry.path());
    let name = crate::nodes::last_node_chars(&cs);
    match find_last_char(&name, '.') {
        Option::Some(_) => true,
        Option::None => false,
    }
}

/// One step of a scan: the next entry, a request for a directory's
/// listing, or exhaustion.
pub enum ScanStep {
    /// The next matching entry.
    Yield(FileRef),
    /// The scanner needs the immediate children of this directory before
    /// it can go on; answer with [`FileScanner::supply_listing`].
    NeedListing(FileRef),
    /// The scanner needs to know whether the root entry exists before it
    /// can offer it through `include_self`; answer with
    /// [`FileScanner::supply_root_exists`].
    NeedRootCheck(FileRef),
    /// The scan is exhausted and will stay so.
    Done,
}

/// The paths held by a list of entries.
pub open spec fn paths_view(entries: Seq<FileRef>) -> Seq<Seq<char>> {
    entries.map_values(|f: FileRef| f@)
}

pub broadcast proof fn lemma_paths_view_len(entries: Seq<FileRef>)
    ensures
        #[trigger] paths_view(entries).len() == entries.len(),
{
}

pub broadcast proof fn lemma_paths_view_index(entries: Seq<FileRef>, i: int)
    requires
        0 <= i < entries.len(),
    ensures
        #[trigger] paths_view(entries)[i] == entries[i]@,
{
}

/// Whether `p` appears in one of the supplied listings.
pub open spec fn in_some_listing(log: Seq<(Seq<char>, Seq<Seq<char>>)>, p: Seq<char>) -> bool {
    exists|i: int| 0 <= i < log.len() && (#[trigger] log[i]).1.contains(p)
}


/// The spec-level shape of one scan step.
pub ghost enum StepView {
    Yield(Seq<char>),
    NeedListing(Seq<char>),
    NeedRootCheck(Seq<char>),
    Done,
}

/// The view of a step.
pub open spec fn step_view(s: ScanStep) -> StepView {
    match s {
        ScanStep::Yield(e) => StepView::Yield(e@),
        ScanStep::NeedListing(d) => StepView::NeedListing(d@),
        ScanStep::NeedRootCheck(d) => StepView::NeedRootCheck(d@),
        ScanStep::Done => StepView::Done,
    }
}

/// The spec-level state of one open directory frame: the directory, its
/// classified children once listed, and the resume positions.
pub ghost struct FrameView {
    pub dir: Seq<char>,
    pub files: Seq<Seq<char>>,
    pub dirs: Seq<Seq<char>>,
    pub subs: Seq<Seq<char>>,
    pub fi: int,
    pub di: int,
    pub si: int,
    pub listed: bool,
}

/// A frame freshly opened on `dir`, its listing not yet supplied.
pub open spec fn fresh_frame(dir: Seq<char>) -> FrameView {
    FrameView {
        dir,
        files: Seq::<Seq<char>>::empty(),
        dirs: Seq::<Seq<char>>::empty(),
        subs: Seq::<Seq<char>>::empty(),
        fi: 0,
        di: 0,
        si: 0,
        listed: false,
    }
}

/// The position of the first entry at or after `from` that passes `flt`.
pub open spec fn yield_index(flt: ScanFilter, entries: Seq<Seq<char>>, from: int) -> Option<int>
    decreases entries.len() - from,
{
    if from < 0 || from >= entries.len() {
        Option::None
    } else if filter_allows(flt, entries[from]) {
        Option::Some(from)
    } else {
        yield_index(flt, entries, from + 1)
    }
}

/// The position of the next file this frame owes as a result, if any.
pub open spec fn frame_file_yield(cfg: ScanConfig, f: FrameView) -> Option<int> {
    if cfg.include_files {
        yield_index(cfg.results_filter, f.files, f.fi)
    } else {
        Option::None
    }
}

/// The position of the next directory this frame owes as a result, if
/// any.
pub open spec fn frame_dir_yield(cfg: ScanConfig, f: FrameView) -> Option<int> {
    if cfg.include_dirs {
        yield_index(cfg.results_filter, f.dirs, f.di)
    } else {
        Option::None
    }
}

/// The step the directory walk owes with this frame stack: list the top
/// frame if it has no listing yet; else yield its next matching file,
/// then its next matching directory; else descend into its next
/// recursion-approved subdirectory; else ascend, and report exhaustion
/// once no frame holds work.
pub open spec fn stack_step(cfg: ScanConfig, frames: Seq<FrameView>) -> StepView
    decreases frames.len(),
{
    if frames.len() == 0 {
        StepView::Done
    } else {
        let top = frames.last();
        if !top.listed {
            StepView::NeedListing(top.dir)
        } else {
            match frame_file_yield(cfg, top) {
                Option::Some(i) => StepView::Yield(top.files[i]),
                Option::None => match frame_dir_yield(cfg, top) {
                    Option::Some(i) => StepView::Yield(top.dirs[i]),
                    Option::None => if top.si < top.subs.len() {
                        StepView::NeedListing(top.subs[top.si])
                    } else {
                        stack_step(cfg, frames.drop_last())
                    },
                },
            }
        }
    }
}

/// The file cursor once the file phase holds no further work: past the
/// end when files are included at all, untouched otherwise.
pub open spec fn drained_files(cfg: ScanConfig, f: FrameView) -> int {
    if cfg.include_files {
        f.files.len() as int
    } else {
        f.fi
    }
}

/// The directory cursor once the directory phase holds no further work.
pub open spec fn drained_dirs(cfg: ScanConfig, f: FrameView) -> int {
    if cfg.include_dirs {
        f.dirs.len() as int
    } else {
        f.di
    }
}

/// The frame stack after the walk takes the step of [`stack_step`]: the
/// cursor of a yielded entry moves just past it (skipping rejected
/// candidates for good), an exhausted phase leaves its cursor drained,
/// a descent opens a fresh frame, and an exhausted directory is popped.
pub open spec fn stack_after(cfg: ScanConfig, frames: Seq<FrameView>) -> Seq<FrameView>
    decreases frames.len(),
{
    if frames.len() == 0 {
        frames
    } else {
        let top = frames.last();
        if !top.listed {
            frames
        } else {
            match frame_file_yield(cfg, top) {
                Option::Some(i) => frames.update(frames.len() - 1, FrameView { fi: i + 1, ..top }),
                Option::None => match frame_dir_yield(cfg, top) {
                    Option::Some(i) => frames.update(
                        frames.len() - 1,
                        FrameView { fi: drained_files(cfg, top), di: i + 1, ..top },
                    ),
                    Option::None => if top.si < top.subs.len() {
                        frames.update(
                            frames.len() - 1,
                            FrameView {
                                fi: drained_files(cfg, top),
                                di: drained_dirs(cfg, top),
                                si: top.si + 1,
                                ..top
                            },
                        ).push(fresh_frame(top.subs[top.si]))
                    } else {
                        stack_after(cfg, frames.drop_last())
                    },
                },
            }
        }
    }
}

/// The file-classified entries of a listing, in listing order.
pub open spec fn files_of(children: Seq<Seq<char>>) -> Seq<Seq<char>>
    decreases children.len(),
{
    if children.len() == 0 {
        children
    } else if listed_as_file(children[0]) {
        seq![children[0]] + files_of(children.drop_first())
    } else {
        files_of(children.drop_first())
    }
}

/// The directory-classified entries of a listing, in listing order.
pub open spec fn dirs_of(children: Seq<Seq<char>>) -> Seq<Seq<char>>
    decreases children.len(),
{
    if children.len() == 0 {
        children
    } else if !listed_as_file(children[0]) {
        seq![children[0]] + dirs_of(children.drop_first())
    } else {
        dirs_of(children.drop_first())
    }
}

/// The directory-classified entries that pass the recursion filter, in
/// listing order.
pub open spec fn subs_of(flt: ScanFilter, children: Seq<Seq<char>>) -> Seq<Seq<char>>
    decreases children.len(),
{
    if children.len() == 0 {
        children
    } else if !listed_as_file(children[0]) && filter_allows(flt, children[0]) {
        seq![children[0]] + subs_of(flt, children.drop_first())
    } else {
        subs_of(flt, children.drop_first())
    }
}

/// The frame a supplied listing installs on the requested directory:
/// the children split by the spelling rule and the recursion filter, in
/// listing order, with the resume positions reset.
pub open spec fn listed_frame(cfg: ScanConfig, dir: Seq<char>, children: Seq<Seq<char>>) -> FrameView {
    FrameView {
        dir,
        files: files_of(children),
        dirs: dirs_of(children),
        subs: subs_of(cfg.recurse_filter, children),
        fi: 0,
        di: 0,
        si: 0,
        listed: true,
    }
}

/// The scan configuration, fixed once iteration has started.
pub ghost struct ScanConfig {
    pub include_self: bool,
    pub include_files: bool,
    pub include_dirs: bool,
    pub results_filter: ScanFilter,
    pub recurse_filter: ScanFilter,
    pub root: Seq<char>,
}

struct ScanSettings {
    include_self: bool,
    include_files: bool,
    include_dirs: bool,
    results_filter: ScanFilter,
    recurse_filter: ScanFilter,
}

/// One open directory: its buffered, classified children and the resume
/// positions within them.
struct ScanFrame {
    dir: FileRef,
    files: Vec<FileRef>,
    dirs: Vec<FileRef>,
    subs: Vec<FileRef>,
    fi: usize,
    di: usize,
    si: usize,
    listed: bool,
}

impl ScanFrame {
    spec fn work(self) -> int {
        self.files@.len() - self.fi + self.dirs@.len() - self.di + self.subs@.len() - self.si
    }
}

spec fn frame_view(f: ScanFrame) -> FrameView {
    FrameView {
        dir: f.dir@,
        files: paths_view(f.files@),
        dirs: paths_view(f.dirs@),
        subs: paths_view(f.subs@),
        fi: f.fi as int,
        di: f.di as int,
        si: f.si as int,
        listed: f.listed,
    }
}

spec fn stack_work(st: Seq<ScanFrame>) -> int
    decreases st.len(),
{
    if st.len() == 0 {
        0
    } else {
        stack_work(st.drop_last()) + st.last().work()
    }
}

/// The scanner: a forward-only, non-restartable walk over the tree below
/// a root entry.
pub struct FileScanner {
    settings: ScanSettings,
    root: FileRef,
    root_known: bool,
    root_exists: bool,
    self_checked: bool,
    self_emitted: bool,
    started: bool,
    finished: bool,
    stack: Vec<ScanFrame>,
    log: Ghost<Seq<(Seq<char>, Seq<Seq<char>>)>>,
}

impl FileScanner {
    /// The configuration this scanner runs with.
    pub closed spec fn config(&self) -> ScanConfig {
        ScanConfig {
            include_self: self.settings.include_self,
            include_files: self.settings.include_files,
            include_dirs: self.settings.include_dirs,
            results_filter: self.settings.results_filter,
            recurse_filter: self.settings.recurse_filter,
            root: self.root@,
        }
    }

    /// Whether the scan is exhausted.
    pub closed spec fn is_done(&self) -> bool {
        self.finished
    }

    /// Whether iteration has started: the first listing was requested.
    pub closed spec fn is_started(&self) -> bool {
        self.started
    }

    /// Whether the root has been yielded through `include_self`.
    pub closed spec fn self_emitted(&self) -> bool {
        self.self_emitted
    }

    /// Whether an `include_self` check of the root is still ahead.
    pub closed spec fn self_pending(&self) -> bool {
        self.settings.include_self && !self.self_checked
    }

    /// Whether the one `include_self` consideration of the root is
    /// already behind the scanner.
    pub closed spec fn self_check_spent(&self) -> bool {
        self.self_checked
    }

    /// What the environment has reported about the root's existence.
    pub closed spec fn root_answer(&self) -> Option<bool> {
        if self.root_known {
            Option::Some(self.root_exists)
        } else {
            Option::None
        }
    }

    /// Whether the scanner is waiting to hear if the root exists.
    pub open spec fn awaiting_root_check(&self) -> bool {
        self.self_pending() && self.root_answer() is None
    }

    /// The listings supplied so far, in order.
    pub closed spec fn listings(&self) -> Seq<(Seq<char>, Seq<Seq<char>>)> {
        self.log@
    }

    /// The directory whose listing the scanner is waiting for, if any.
    pub closed spec fn awaiting_listing(&self) -> Option<Seq<char>> {
        if self.stack@.len() > 0 && !self.stack@.last().listed {
            Option::Some(self.stack@.last().dir@)
        } else {
            Option::None
        }
    }

    /// The open directory frames, bottom (the root) to top.
    pub closed spec fn frames(&self) -> Seq<FrameView> {
        self.stack@.map_values(|f: ScanFrame| frame_view(f))
    }

    /// Whether the next `poll` must ask for the root-existence check.
    pub open spec fn root_check_next(&self) -> bool {
        !self.is_done() && self.self_pending() && self.root_answer() is None
    }

    /// Whether the next `poll` must yield the root through
    /// `include_self`.
    pub open spec fn self_yield_next(&self) -> bool {
        !self.is_done() && self.self_pending() && self.root_answer() == Option::<bool>::Some(true)
            && filter_allows(self.config().results_filter, self.config().root)
    }

    /// Whether the next `poll` reaches the directory walk.
    pub open spec fn walk_next(&self) -> bool {
        !self.is_done() && !self.root_check_next() && !self.self_yield_next()
    }

    /// The step the next `poll` returns, fixed by the current state.
    pub open spec fn next_step(&self) -> StepView {
        if self.is_done() {
            StepView::Done
        } else if self.root_check_next() {
            StepView::NeedRootCheck(self.config().root)
        } else if self.self_yield_next() {
            StepView::Yield(self.config().root)
        } else if !self.is_started() {
            StepView::NeedListing(self.config().root)
        } else {
            stack_step(self.config(), self.frames())
        }
    }

    /// The frames the next `poll` leaves behind.
    pub open spec fn frames_after(&self) -> Seq<FrameView> {
        if self.is_done() || self.root_check_next() || self.self_yield_next() {
            self.frames()
        } else if !self.is_started() {
            seq![fresh_frame(self.config().root)]
        } else {
            stack_after(self.config(), self.frames())
        }
    }

    spec fn frame_inv(self, f: ScanFrame) -> bool {
        &&& f.fi <= f.files@.len()
        &&& f.di <= f.dirs@.len()
        &&& f.si <= f.subs@.len()
        &&& f.listed ==> {
            &&& forall|i: int|
                0 <= i < f.files@.len() ==> in_some_listing(self.log@, (#[trigger] f.files@[i])@)
                    && listed_as_file(f.files@[i]@)
            &&& forall|i: int|
                0 <= i < f.dirs@.len() ==> in_some_listing(self.log@, (#[trigger] f.dirs@[i])@)
                    && !listed_as_file(f.dirs@[i]@)
            &&& forall|i: int|
                0 <= i < f.subs@.len() ==> in_some_listing(self.log@, (#[trigger] f.subs@[i])@)
                    && !listed_as_file(f.subs@[i]@) && filter_allows(
                    self.settings.recurse_filter,
                    f.subs@[i]@,
                )
        }
    }

    /// The scanner's internal well-formedness; established by the
    /// constructor and preserved by every operation.
    pub closed spec fn wf(&self) -> bool {
        &&& forall|k: int| 0 <= k < self.stack@.len() ==> self.frame_inv(#[trigger] self.stack@[k])
        &&& forall|k: int| 0 <= k < self.stack@.len() - 1 ==> (#[trigger] self.stack@[k]).listed
        &&& (self.stack@.len() > 0 ==> self.stack@[0].dir@ == self.root@)
        &&& forall|k: int|
            1 <= k < self.stack@.len() ==> {
                &&& filter_allows(self.settings.recurse_filter, (#[trigger] self.stack@[k]).dir@)
                &&& !listed_as_file(self.stack@[k].dir@)
                &&& in_some_listing(self.log@, self.stack@[k].dir@)
            }
        &&& (!self.started ==> self.stack@.len() == 0)
        &&& (self.self_emitted ==> self.self_checked)
    }

    /// Whether iteration has started; the `include_*`, `filter` and
    /// `recurse` methods are for a scanner that has not.
    pub fn has_started(&self) -> (r: bool)
        ensures
            r == self.is_started(),
    {
        self.started
    }

    /// A fresh scanner over `root_dir`, with trailing separators trimmed
    /// from the root. Nothing is included yet: callers opt in through the
    /// `include_*`, `filter` and `recurse` methods, which are meant to be
    /// used before the first `poll`.
    pub fn new(root_dir: &FileRef) -> (r: FileScanner)
        ensures
            r.wf(),
            !r.is_done(),
            !r.is_started(),
            !r.self_emitted(),
            !r.self_pending(),
            !r.self_check_spent(),
            r.root_answer() is None,
            r.awaiting_listing() is None,
            r.listings() == Seq::<(Seq<char>, Seq<Seq<char>>)>::empty(),
            r.frames() == Seq::<FrameView>::empty(),
            r.config() == (ScanConfig {
                include_self: false,
                include_files: false,
                include_dirs: false,
                results_filter: ScanFilter::EveryEntry,
                recurse_filter: ScanFilter::NoEntry,
                root: normalize(trim_end_matches_seq(root_dir@, seq!['/'])),
            }),
    {
        let cs = to_chars(root_dir.path());
        let mut sep: Vec<char> = Vec::new();
        sep.push('/');
        proof {
            assert(sep@ =~= seq!['/']);
        }
        let trimmed = trim_end_matches_chars(&cs, &sep);
        let owned = from_chars(&trimmed);
        let root = FileRef::new(owned.as_str());
        let r = FileScanner {
            settings: ScanSettings {
                include_self: false,
                include_files: false,
                include_dirs: false,
                results_filter: ScanFilter::EveryEntry,
                recurse_filter: ScanFilter::NoEntry,
            },
            root,
            root_known: false,
            root_exists: false,
            self_checked: false,
            self_emitted: false,
            started: false,
            finished: false,
            stack: Vec::new(),
            log: Ghost(Seq::empty()),
        };
        proof {
            assert(r.frames() =~= Seq::<FrameView>::empty());
        }
        r
    }

    /// This scanner, set to offer the root itself as a candidate result.
    pub fn include_self(self) -> (r: Self)
        requires
            self.wf(),
            !self.is_started(),
        ensures
            r.wf(),
            !r.is_started(),
            r.is_done() == self.is_done(),
            r.self_emitted() == self.self_emitted(),
            r.listings() == self.listings(),
            r.root_answer() == self.root_answer(),
            r.frames() == self.frames(),
            r.self_check_spent() == self.self_check_spent(),
            r.self_pending() == !self.self_check_spent(),
            r.config() == (ScanConfig { include_self: true, ..self.config() }),
    {
        let mut r = self;
        r.settings.include_self = true;
        r
    }

    /// This scanner, set to include files among the results.
    pub fn include_files(self) -> (r: Self)
        requires
            self.wf(),
            !self.is_started(),
        ensures
            r.wf(),
            !r.is_started(),
            r.is_done() == self.is_done(),
            r.self_emitted() == self.self_emitted(),
            r.listings() == self.listings(),
            r.root_answer() == self.root_answer(),
            r.frames() == self.frames(),
            r.self_check_spent() == self.self_check_spent(),
            r.self_pending() == self.self_pending(),
            r.config() == (ScanConfig { include_files: true, ..self.config() }),
    {
        let mut r = self;
        r.settings.include_files = true;
        r
    }

    /// This scanner, set to include directories among the results.
    pub fn include_dirs(self) -> (r: Self)
        requires
            self.wf(),
            !self.is_started(),
        ensures
            r.wf(),
            !r.is_started(),
            r.is_done() == self.is_done(),
            r.self_emitted() == self.self_emitted(),
            r.listings() == self.listings(),
            r.root_answer() == self.root_answer(),
            r.frames() == self.frames(),
            r.self_check_spent() == self.self_check_spent(),
            r.self_pending() == self.self_pending(),
            r.config() == (ScanConfig { include_dirs: true, ..self.config() }),
    {
        let mut r = self;
        r.settings.include_dirs = true;
        r
    }

    /// This scanner with `filter` as its result filter; entries failing
    /// it are skipped as results but may still be recursed into.
    pub fn filter(self, filter: ScanFilter) -> (r: Self)
        requires
            self.wf(),
            !self.is_started(),
        ensures
            r.wf(),
            !r.is_started(),
            r.is_done() == self.is_done(),
            r.self_emitted() == self.self_emitted(),
            r.listings() == self.listings(),
            r.root_answer() == self.root_answer(),
            r.frames() == self.frames(),
            r.self_check_spent() == self.self_check_spent(),
            r.self_pending() == self.self_pending(),
            r.config() == (ScanConfig { results_filter: filter, ..self.config() }),
    {
        let mut r = self;
        r.settings.results_filter = filter;
        r
    }

    /// This scanner, set to descend into every subdirectory.
    pub fn recurse(self) -> (r: Self)
        requires
            self.wf(),
            !self.is_started(),
        ensures
            r.wf(),
            !r.is_started(),
            r.is_done() == self.is_done(),
            r.self_emitted() == self.self_emitted(),
            r.listings() == self.listings(),
            r.root_answer() == self.root_answer(),
            r.frames() == self.frames(),
            r.self_check_spent() == self.self_check_spent(),
            r.self_pending() == self.self_pending(),
            r.config() == (ScanConfig { recurse_filter: ScanFilter::EveryEntry, ..self.config() }),
    {
        self.recurse_filter(ScanFilter::EveryEntry)
    }

    /// This scanner with `filter` as its recursion filter; it controls
    /// which directories are descended into, independently of the result
    /// filter.
    pub fn recurse_filter(self, filter: ScanFilter) -> (r: Self)
        requires
            self.wf(),
            !self.is_started(),
        ensures
            r.wf(),
            !r.is_started(),
            r.is_done() == self.is_done(),
            r.self_emitted() == self.self_emitted(),
            r.listings() == self.listings(),
            r.root_answer() == self.root_answer(),
            r.frames() == self.frames(),
            r.self_check_spent() == self.self_check_spent(),
            r.self_pending() == self.self_pending(),
            r.config() == (ScanConfig { recurse_filter: filter, ..self.config() }),
    {
        let mut r = self;
        r.settings.recurse_filter = filter;
        r
    }

    /// One step of the scan. The step taken is fixed by the state —
    /// [`FileScanner::next_step`] — and so are the frames left behind —
    /// [`FileScanner::frames_after`]: an unfinished scan must ask for the
    /// pending root check or listing, yield the first unconsumed matching
    /// candidate of the top frame, descend, or ascend; it reports
    /// exhaustion only once no frame holds work. Every yielded entry
    /// passed the result filter and an enabled classification; the root
    /// is offered through `include_self` at most once, before any
    /// listing, and only when the environment reported it existing; only
    /// the root and recursion-approved directories are ever listed; a
    /// finished scan stays finished.
    #[verifier::rlimit(100)]
    pub fn poll(&mut self) -> (step: ScanStep)
        requires
            old(self).wf(),
        ensures
            final(self).wf(),
            final(self).config() == old(self).config(),
            final(self).listings() == old(self).listings(),
            old(self).self_emitted() ==> final(self).self_emitted(),
            old(self).is_done() ==> step is Done && *final(self) == *old(self),
            !old(self).is_done() ==> {
                &&& step_view(step) == old(self).next_step()
                &&& final(self).frames() == old(self).frames_after()
                &&& final(self).is_done() == (old(self).next_step() is Done)
                &&& final(self).is_started() == (old(self).is_started() || old(self).walk_next())
                &&& final(self).self_emitted() == (old(self).self_emitted() || old(
                    self,
                ).self_yield_next())
                &&& final(self).root_answer() == old(self).root_answer()
                &&& final(self).self_pending() == old(self).root_check_next()
            },
            match step {
                ScanStep::Done => final(self).is_done(),
                ScanStep::NeedRootCheck(d) => {
                    &&& d@ == old(self).config().root
                    &&& !final(self).is_done()
                    &&& old(self).self_pending() && old(self).root_answer() is None
                    &&& final(self).awaiting_root_check()
                    &&& *final(self) == *old(self)
                },
                ScanStep::NeedListing(d) => {
                    &&& final(self).awaiting_listing() == Option::Some(d@)
                    &&& !final(self).is_done()
                    &&& !final(self).self_pending()
                    &&& d@ == old(self).config().root || (filter_allows(
                        old(self).config().recurse_filter,
                        d@,
                    ) && !listed_as_file(d@) && in_some_listing(old(self).listings(), d@))
                },
                ScanStep::Yield(e) => {
                    &&& filter_allows(old(self).config().results_filter, e@)
                    &&& !final(self).is_done()
                    &&& !final(self).self_pending()
                    &&& ((old(self).self_pending() && e@ == old(self).config().root
                        && old(self).root_answer() == Option::<bool>::Some(true)
                        && final(self).self_emitted() && !old(self).self_emitted()) || (
                    in_some_listing(old(self).listings(), e@) && (listed_as_file(e@)
                        ==> old(self).config().include_files) && (!listed_as_file(e@)
                        ==> old(self).config().include_dirs)
                        && final(self).self_emitted() == old(self).self_emitted()))
                },
            },
    {
        broadcast use {lemma_paths_view_len, lemma_paths_view_index, lemma_frames_len,
            lemma_frames_index};

        if self.finished {
            return ScanStep::Done;
        }
        // The root itself is considered exactly once, before any listing,
        // and only when the environment reports it existing.
        if self.settings.include_self && !self.self_checked {
            if !self.root_known {
                return ScanStep::NeedRootCheck(self.root.clone());
            }
            self.self_checked = true;
            if self.root_exists && self.settings.results_filter.allows(&self.root) {
                self.self_emitted = true;
                return ScanStep::Yield(self.root.clone());
            }
        }
        proof {
            assert(old(self).walk_next());
        }
        if !self.started {
            // Open the walk on the root itself.
            self.started = true;
            let frame = ScanFrame {
                dir: self.root.clone(),
                files: Vec::new(),
                dirs: Vec::new(),
                subs: Vec::new(),
                fi: 0,
                di: 0,
                si: 0,
                listed: false,
            };
            self.stack.push(frame);
            proof {
                assert(self.stack@.len() == 1);
                assert(frame_view(self.stack@[0]) == fresh_frame(old(self).config().root)) by {
                    assert(paths_view(self.stack@[0].files@) =~= Seq::<Seq<char>>::empty());
                    assert(paths_view(self.stack@[0].dirs@) =~= Seq::<Seq<char>>::empty());
                    assert(paths_view(self.stack@[0].subs@) =~= Seq::<Seq<char>>::empty());
                }
                assert(self.frames() =~= seq![fresh_frame(old(self).config().root)]);
            }
            return ScanStep::NeedListing(self.root.clone());
        }
        let ghost cfg = old(self).config();
        proof {
            assert(self.frames() =~= old(self).frames());
            assert(old(self).next_step() == stack_step(cfg, old(self).frames()));
            assert(old(self).frames_after() == stack_after(cfg, old(self).frames()));
        }
        loop
            invariant
                self.wf(),
                !self.finished,
                !old(self).finished,
                self.started,
                old(self).started,
                old(self).walk_next(),
                cfg == old(self).config(),
                self.config() == old(self).config(),
                self.log@ == old(self).listings(),
                self.self_emitted == old(self).self_emitted(),
                !self.self_pending(),
                self.settings == old(self).settings,
                self.root_known == old(self).root_known,
                self.root_exists == old(self).root_exists,
                stack_step(cfg, self.frames()) == old(self).next_step(),
                stack_after(cfg, self.frames()) == old(self).frames_after(),
            decreases stack_work(self.stack@) + self.stack@.len(),
        {
            proof {
                lemma_stack_work_nonneg(self.stack@, *self);
            }
            let n = self.stack.len();
            if n == 0 {
                proof {
                    assert(stack_step(cfg, self.frames()) == StepView::Done);
                }
                self.finished = true;
                return ScanStep::Done;
            }
            let ghost frames_b = self.frames();
            let ghost old_stack = self.stack@;
            let ghost top_v = frame_view(old_stack.last());
            proof {
                assert(frames_b.last() == top_v);
            }
            let mut fr = match self.stack.pop() {
                Option::Some(f) => f,
                Option::None => vstd::pervasive::unreached(),
            };
            proof {
                assert(old_stack.drop_last().push(old_stack.last()) =~= old_stack);
            }
            if !fr.listed {
                let request = fr.dir.clone();
                self.stack.push(fr);
                proof {
                    assert(self.stack@ =~= old_stack);
                    assert(stack_step(cfg, frames_b) == StepView::NeedListing(top_v.dir));
                    assert(stack_after(cfg, frames_b) == frames_b);
                }
                return ScanStep::NeedListing(request);
            }
            if self.settings.include_files && fr.fi < fr.files.len() {
                let candidate = fr.files[fr.fi].clone();
                proof {
                    assert(candidate@ == top_v.files[top_v.fi]);
                }
                fr.fi = fr.fi + 1;
                let ghost fr2 = fr;
                self.stack.push(fr);
                let ghost top2 = (FrameView { fi: top_v.fi + 1, ..top_v });
                proof {
                    lemma_stack_push_work(old_stack.drop_last(), fr2);
                    assert forall|k: int| 0 <= k < self.stack@.len() implies self.frame_inv(
                        #[trigger] self.stack@[k],
                    ) by {
                        assert(self.stack@ =~= old_stack.drop_last().push(fr2));
                        if k < self.stack@.len() - 1 {
                            assert(self.stack@[k] == old_stack[k]);
                        }
                    }
                    assert(self.stack@.len() == old_stack.len());
                    assert forall|k: int| 1 <= k < self.stack@.len() implies filter_allows(
                        self.settings.recurse_filter,
                        (#[trigger] self.stack@[k]).dir@,
                    ) && !listed_as_file(self.stack@[k].dir@) && in_some_listing(
                        self.log@,
                        self.stack@[k].dir@,
                    ) by {
                        if k < self.stack@.len() - 1 {
                            assert(self.stack@[k] == old_stack[k]);
                        } else {
                            assert(self.stack@[k].dir == old_stack[k].dir);
                        }
                    }
                    assert(frame_view(fr2) == top2);
                    assert(self.frames() =~= frames_b.update(frames_b.len() - 1, top2));
                }
                if self.settings.results_filter.allows(&candidate) {
                    proof {
                        assert(yield_index(cfg.results_filter, top_v.files, top_v.fi)
                            == Option::Some(top_v.fi));
                        assert(stack_step(cfg, frames_b) == StepView::Yield(
                            top_v.files[top_v.fi],
                        ));
                        assert(stack_after(cfg, frames_b) == frames_b.update(
                            frames_b.len() - 1,
                            top2,
                        ));
                    }
                    return ScanStep::Yield(candidate);
                }
                proof {
                    lemma_advance_rejected_file(cfg, frames_b);
                }
            } else if self.settings.include_dirs && fr.di < fr.dirs.len() {
                let candidate = fr.dirs[fr.di].clone();
                proof {
                    assert(candidate@ == top_v.dirs[top_v.di]);
                    lemma_frame_file_exhausted(cfg, top_v);
                }
                fr.di = fr.di + 1;
                let ghost fr2 = fr;
                self.stack.push(fr);
                let ghost top2 = (FrameView { di: top_v.di + 1, ..top_v });
                proof {
                    lemma_stack_push_work(old_stack.drop_last(), fr2);
                    assert forall|k: int| 0 <= k < self.stack@.len() implies self.frame_inv(
                        #[trigger] self.stack@[k],
                    ) by {
                        assert(self.stack@ =~= old_stack.drop_last().push(fr2));
                        if k < self.stack@.len() - 1 {
                            assert(self.stack@[k] == old_stack[k]);
                        }
                    }
                    assert(self.stack@.len() == old_stack.len());
                    assert forall|k: int| 1 <= k < self.stack@.len() implies filter_allows(
                        self.settings.recurse_filter,
                        (#[trigger] self.stack@[k]).dir@,
                    ) && !listed_as_file(self.stack@[k].dir@) && in_some_listing(
                        self.log@,
                        self.stack@[k].dir@,
                    ) by {
                        if k < self.stack@.len() - 1 {
                            assert(self.stack@[k] == old_stack[k]);
                        } else {
                            assert(self.stack@[k].dir == old_stack[k].dir);
                        }
                    }
                    assert(frame_view(fr2) == top2);
                    assert(self.frames() =~= frames_b.update(frames_b.len() - 1, top2));
                }
                if self.settings.results_filter.allows(&candidate) {
                    proof {
                        assert(yield_index(cfg.results_filter, top_v.dirs, top_v.di)
                            == Option::Some(top_v.di));
                        assert(stack_step(cfg, frames_b) == StepView::Yield(top_v.dirs[top_v.di]));
                        assert(stack_after(cfg, frames_b) == frames_b.update(
                            frames_b.len() - 1,
                            top2,
                        ));
                    }
                    return ScanStep::Yield(candidate);
                }
                proof {
                    lemma_advance_rejected_dir(cfg, frames_b);
                }
            } else if fr.si < fr.subs.len() {
                let child = fr.subs[fr.si].clone();
                proof {
                    assert(child@ == top_v.subs[top_v.si]);
                    lemma_frame_file_exhausted(cfg, top_v);
                    lemma_frame_dir_exhausted(cfg, top_v);
                }
                fr.si = fr.si + 1;
                let ghost fr2 = fr;
                self.stack.push(fr);
                let child_frame = ScanFrame {
                    dir: child.clone(),
                    files: Vec::new(),
                    dirs: Vec::new(),
                    subs: Vec::new(),
                    fi: 0,
                    di: 0,
                    si: 0,
                    listed: false,
                };
                let ghost cf = child_frame;
                self.stack.push(child_frame);
                let ghost top2 = (FrameView { si: top_v.si + 1, ..top_v });
                proof {
                    let st = old_stack.drop_last().push(fr2).push(cf);
                    assert(self.stack@ =~= st);
                    assert forall|k: int| 0 <= k < self.stack@.len() implies self.frame_inv(
                        #[trigger] self.stack@[k],
                    ) by {
                        if k < self.stack@.len() - 2 {
                            assert(self.stack@[k] == old_stack[k]);
                        } else if k == self.stack@.len() - 2 {
                            assert(self.stack@[k] == fr2);
                        } else {
                            assert(self.stack@[k] == cf);
                        }
                    }
                    assert forall|k: int| 0 <= k < self.stack@.len() - 1 implies (
                    #[trigger] self.stack@[k]).listed by {
                        if k < self.stack@.len() - 2 {
                            assert(self.stack@[k] == old_stack[k]);
                        } else {
                            assert(self.stack@[k] == fr2);
                        }
                    }
                    assert forall|k: int| 1 <= k < self.stack@.len() implies filter_allows(
                        self.settings.recurse_filter,
                        (#[trigger] self.stack@[k]).dir@,
                    ) && !listed_as_file(self.stack@[k].dir@) && in_some_listing(
                        self.log@,
                        self.stack@[k].dir@,
                    ) by {
                        if k < self.stack@.len() - 2 {
                            assert(self.stack@[k] == old_stack[k]);
                        } else if k == self.stack@.len() - 2 {
                            assert(self.stack@[k].dir == old_stack[k].dir);
                        } else {
                            assert(self.stack@[k].dir@ == old_stack.last().subs@[fr2.si - 1]@);
                        }
                    }
                    assert(frame_view(fr2) == top2);
                    assert(frame_view(cf) == fresh_frame(top_v.subs[top_v.si])) by {
                        assert(paths_view(cf.files@) =~= Seq::<Seq<char>>::empty());
                        assert(paths_view(cf.dirs@) =~= Seq::<Seq<char>>::empty());
                        assert(paths_view(cf.subs@) =~= Seq::<Seq<char>>::empty());
                    }
                    assert(self.frames() =~= frames_b.update(frames_b.len() - 1, top2).push(
                        fresh_frame(top_v.subs[top_v.si]),
                    ));
                    assert(stack_step(cfg, frames_b) == StepView::NeedListing(
                        top_v.subs[top_v.si],
                    ));
                    assert(stack_after(cfg, frames_b) == frames_b.update(
                        frames_b.len() - 1,
                        top2,
                    ).push(fresh_frame(top_v.subs[top_v.si])));
                }
                return ScanStep::NeedListing(child);
            } else {
                // This directory is exhausted: ascend and go on among the
                // parent's remaining children.
                proof {
                    assert forall|k: int| 0 <= k < self.stack@.len() implies self.frame_inv(
                        #[trigger] self.stack@[k],
                    ) by {
                        assert(self.stack@[k] == old_stack[k]);
                    }
                    assert forall|k: int| 0 <= k < self.stack@.len() - 1 implies (
                    #[trigger] self.stack@[k]).listed by {
                        assert(self.stack@[k] == old_stack[k]);
                    }
                    assert forall|k: int| 1 <= k < self.stack@.len() implies filter_allows(
                        self.settings.recurse_filter,
                        (#[trigger] self.stack@[k]).dir@,
                    ) && !listed_as_file(self.stack@[k].dir@) && in_some_listing(
                        self.log@,
                        self.stack@[k].dir@,
                    ) by {
                        assert(self.stack@[k] == old_stack[k]);
                    }
                    lemma_stack_work_nonneg(self.stack@, *self);
                    lemma_frame_file_exhausted(cfg, top_v);
                    lemma_frame_dir_exhausted(cfg, top_v);
                    assert(self.frames() =~= frames_b.drop_last());
                    assert(stack_step(cfg, frames_b) == stack_step(cfg, frames_b.drop_last()));
                    assert(stack_after(cfg, frames_b) == stack_after(cfg, frames_b.drop_last()));
                }
            }
        }
    }

    /// The answer to a pending [`ScanStep::NeedRootCheck`]: whether the
    /// root entry exists. Without a pending check the call changes
    /// nothing.
    pub fn supply_root_exists(&mut self, exists: bool)
        requires
            old(self).wf(),
        ensures
            final(self).wf(),
            final(self).config() == old(self).config(),
            final(self).listings() == old(self).listings(),
            final(self).is_done() == old(self).is_done(),
            final(self).is_started() == old(self).is_started(),
            final(self).self_emitted() == old(self).self_emitted(),
            final(self).self_pending() == old(self).self_pending(),
            final(self).awaiting_listing() == old(self).awaiting_listing(),
            final(self).frames() == old(self).frames(),
            old(self).awaiting_root_check() ==> final(self).root_answer()
                == Option::<bool>::Some(exists) && !final(self).awaiting_root_check(),
            !old(self).awaiting_root_check() ==> *final(self) == *old(self),
    {
        if self.settings.include_self && !self.self_checked && !self.root_known {
            self.root_known = true;
            self.root_exists = exists;
        }
    }

    /// The answer to a pending [`ScanStep::NeedListing`]: the immediate
    /// children of the requested directory, in the order the environment
    /// reports them. An unreadable or vanished directory is answered with
    /// an empty listing. Without a pending request the call changes
    /// nothing.
    pub fn supply_listing(&mut self, children: Vec<FileRef>)
        requires
            old(self).wf(),
        ensures
            final(self).wf(),
            final(self).config() == old(self).config(),
            final(self).is_done() == old(self).is_done(),
            final(self).is_started() == old(self).is_started(),
            final(self).self_emitted() == old(self).self_emitted(),
            final(self).self_pending() == old(self).self_pending(),
            final(self).root_answer() == old(self).root_answer(),
            match old(self).awaiting_listing() {
                Option::Some(d) => {
                    &&& final(self).listings() == old(self).listings().push(
                        (d, paths_view(children@)),
                    )
                    &&& final(self).awaiting_listing() is None
                    &&& final(self).frames() == old(self).frames().update(
                        old(self).frames().len() - 1,
                        listed_frame(old(self).config(), d, paths_view(children@)),
                    )
                },
                Option::None => *final(self) == *old(self),
            },
    {
        broadcast use {lemma_paths_view_len, lemma_paths_view_index, lemma_frames_len,
            lemma_frames_index};
        let n = self.stack.len();
        if n == 0 {
            return ;
        }
        if self.stack[n - 1].listed {
            return ;
        }
        let ghost old_stack = self.stack@;
        let mut fr = match self.stack.pop() {
            Option::Some(f) => f,
            Option::None => vstd::pervasive::unreached(),
        };
        proof {
            assert(old_stack.drop_last().push(old_stack.last()) =~= old_stack);
        }
        let ghost d = fr.dir@;
        self.log = Ghost(self.log@.push((d, paths_view(children@))));
        let ghost new_log = self.log@;

        let mut files: Vec<FileRef> = Vec::new();
        let mut dirs: Vec<FileRef> = Vec::new();
        let mut subs: Vec<FileRef> = Vec::new();
        let m = children.len();
        let mut i: usize = 0;
        let ghost all = paths_view(children@);
        proof {
            assert(all.skip(0) =~= all);
            assert(paths_view(files@) + files_of(all) =~= files_of(all));
            assert(paths_view(dirs@) + dirs_of(all) =~= dirs_of(all));
            assert(paths_view(subs@) + subs_of(self.settings.recurse_filter, all) =~= subs_of(
                self.settings.recurse_filter,
                all,
            ));
        }
        while i < m
            invariant
                i <= m,
                m == children@.len(),
                all == paths_view(children@),
                new_log == self.log@,
                new_log.len() > 0,
                new_log.last().1 == paths_view(children@),
                self.settings == old(self).settings,
                files_of(all) == paths_view(files@) + files_of(all.skip(i as int)),
                dirs_of(all) == paths_view(dirs@) + dirs_of(all.skip(i as int)),
                subs_of(self.settings.recurse_filter, all) == paths_view(subs@) + subs_of(
                    self.settings.recurse_filter,
                    all.skip(i as int),
                ),
                forall|j: int|
                    0 <= j < files@.len() ==> in_some_listing(new_log, (#[trigger] files@[j])@)
                        && listed_as_file(files@[j]@),
                forall|j: int|
                    0 <= j < dirs@.len() ==> in_some_listing(new_log, (#[trigger] dirs@[j])@)
                        && !listed_as_file(dirs@[j]@),
                forall|j: int|
                    0 <= j < subs@.len() ==> in_some_listing(new_log, (#[trigger] subs@[j])@)
                        && !listed_as_file(subs@[j]@) && filter_allows(
                        self.settings.recurse_filter,
                        subs@[j]@,
                    ),
            decreases m - i,
        {
            let entry = &children[i];
            proof {
                assert(paths_view(children@)[i as int] == children@[i as int]@);
                assert(new_log[new_log.len() - 1].1.contains(children@[i as int]@));
                assert(in_some_listing(new_log, children@[i as int]@));
                assert(all.skip(i as int)[0] == all[i as int]);
                assert(all.skip(i as int).drop_first() =~= all.skip(i + 1 as int));
            }
            let ghost old_files = files@;
            let ghost old_dirs = dirs@;
            let ghost old_subs = subs@;
            if entry_is_file(entry) {
                files.push(entry.clone());
                proof {
                    assert(paths_view(files@) =~= paths_view(old_files).push(all[i as int]));
                    assert(paths_view(old_files) + (seq![all[i as int]] + files_of(
                        all.skip(i + 1 as int),
                    )) =~= paths_view(files@) + files_of(all.skip(i + 1 as int)));
                }
            } else {
                dirs.push(entry.clone());
                proof {
                    assert(paths_view(dirs@) =~= paths_view(old_dirs).push(all[i as int]));
                    assert(paths_view(old_dirs) + (seq![all[i as int]] + dirs_of(
                        all.skip(i + 1 as int),
                    )) =~= paths_view(dirs@) + dirs_of(all.skip(i + 1 as int)));
                }
                if self.settings.recurse_filter.allows(entry) {
                    subs.push(entry.clone());
                    proof {
                        assert(paths_view(subs@) =~= paths_view(old_subs).push(all[i as int]));
                        assert(paths_view(old_subs) + (seq![all[i as int]] + subs_of(
                            self.settings.recurse_filter,
                            all.skip(i + 1 as int),
                        )) =~= paths_view(subs@) + subs_of(
                            self.settings.recurse_filter,
                            all.skip(i + 1 as int),
                        ));
                    }
                }
            }
            i = i + 1;
        }
        proof {
            assert(all.skip(m as int) =~= Seq::<Seq<char>>::empty());
            assert(paths_view(files@) + files_of(all.skip(m as int)) =~= paths_view(files@));
            assert(paths_view(dirs@) + dirs_of(all.skip(m as int)) =~= paths_view(dirs@));
            assert(paths_view(subs@) + subs_of(
                self.settings.recurse_filter,
                all.skip(m as int),
            ) =~= paths_view(subs@));
        }
        let new_frame = ScanFrame { dir: fr.dir, files, dirs, subs, fi: 0, di: 0, si: 0, listed: true };
        let ghost nf = new_frame;
        self.stack.push(new_frame);
        proof {
            assert(self.stack@ =~= old_stack.drop_last().push(nf));
            assert forall|k: int| 0 <= k < self.stack@.len() implies self.frame_inv(
                #[trigger] self.stack@[k],
            ) by {
                if k < self.stack@.len() - 1 {
                    assert(self.stack@[k] == old_stack[k]);
                    lemma_log_extension_preserves_frame(*old(self), *self, old_stack[k]);
                }
            }
            assert forall|k: int| 0 <= k < self.stack@.len() - 1 implies (
            #[trigger] self.stack@[k]).listed by {
                assert(self.stack@[k] == old_stack[k]);
            }
            assert forall|k: int| 1 <= k < self.stack@.len() implies filter_allows(
                self.settings.recurse_filter,
                (#[trigger] self.stack@[k]).dir@,
            ) && !listed_as_file(self.stack@[k].dir@) && in_some_listing(
                self.log@,
                self.stack@[k].dir@,
            ) by {
                if k < self.stack@.len() - 1 {
                    assert(self.stack@[k] == old_stack[k]);
                    lemma_log_extension_preserves_member(log_of(*old(self)), self.log@, old_stack[k].dir@);
                } else {
                    assert(self.stack@[k].dir == old_stack[k].dir);
                    lemma_log_extension_preserves_member(log_of(*old(self)), self.log@, old_stack[k].dir@);
                }
            }
            assert(frame_view(nf) == listed_frame(old(self).config(), d, paths_view(children@)));
            assert(self.frames() =~= old(self).frames().update(
                old(self).frames().len() - 1,
                listed_frame(old(self).config(), d, paths_view(children@)),
            ));
        }
    }
}

/// A directory answered with the empty listing — one that vanished or
/// could not be read — contributes nothing: the walk's next step, and
/// the frames it leaves behind, are exactly those of the stack with that
/// directory popped, so the scan goes on among the remaining frames.
pub proof fn lemma_empty_listing_scan_continues(
    cfg: ScanConfig,
    frames: Seq<FrameView>,
    dir: Seq<char>,
)
    requires
        frames.len() > 0,
    ensures
        stack_step(
            cfg,
            frames.update(
                frames.len() - 1,
                listed_frame(cfg, dir, Seq::<Seq<char>>::empty()),
            ),
        ) == stack_step(cfg, frames.drop_last()),
        stack_after(
            cfg,
            frames.update(
                frames.len() - 1,
                listed_frame(cfg, dir, Seq::<Seq<char>>::empty()),
            ),
        ) == stack_after(cfg, frames.drop_last()),
{
    let empty = listed_frame(cfg, dir, Seq::<Seq<char>>::empty());
    let after = frames.update(frames.len() - 1, empty);
    assert(after.last() == empty);
    assert(empty.files.len() == 0);
    assert(empty.dirs.len() == 0);
    assert(empty.subs.len() == 0);
    assert(frame_file_yield(cfg, empty) is None);
    assert(frame_dir_yield(cfg, empty) is None);
    assert(after.drop_last() =~= frames.drop_last());
}

/// The pending listing request is determined by the frames: the top
/// frame's directory, when that frame has no listing yet.
pub proof fn lemma_awaiting_listing_frames(s: &FileScanner)
    ensures
        s.awaiting_listing() == (if s.frames().len() > 0 && !s.frames().last().listed {
            Option::Some(s.frames().last().dir)
        } else {
            Option::<Seq<char>>::None
        }),
{
    if s.stack@.len() > 0 {
        assert(s.frames().last() == frame_view(s.stack@[s.stack@.len() - 1]));
    }
}

broadcast proof fn lemma_frames_len(s: FileScanner)
    ensures
        #[trigger] s.frames().len() == s.stack@.len(),
{
}

broadcast proof fn lemma_frames_index(s: FileScanner, k: int)
    requires
        0 <= k < s.stack@.len(),
    ensures
        #[trigger] s.frames()[k] == frame_view(s.stack@[k]),
{
}


proof fn lemma_frame_file_exhausted(cfg: ScanConfig, f: FrameView)
    requires
        !(cfg.include_files && f.fi < f.files.len()),
    ensures
        frame_file_yield(cfg, f) is None,
{
}

proof fn lemma_frame_dir_exhausted(cfg: ScanConfig, f: FrameView)
    requires
        !(cfg.include_dirs && f.di < f.dirs.len()),
    ensures
        frame_dir_yield(cfg, f) is None,
{
}

/// Skipping one rejected file candidate changes neither the step the
/// walk owes nor the frames it leaves behind.
proof fn lemma_advance_rejected_file(cfg: ScanConfig, frames: Seq<FrameView>)
    requires
        frames.len() > 0,
        frames.last().listed,
        cfg.include_files,
        0 <= frames.last().fi < frames.last().files.len(),
        !filter_allows(cfg.results_filter, frames.last().files[frames.last().fi]),
    ensures
        stack_step(
            cfg,
            frames.update(
                frames.len() - 1,
                (FrameView { fi: frames.last().fi + 1, ..frames.last() }),
            ),
        ) == stack_step(cfg, frames),
        stack_after(
            cfg,
            frames.update(
                frames.len() - 1,
                (FrameView { fi: frames.last().fi + 1, ..frames.last() }),
            ),
        ) == stack_after(cfg, frames),
{
    let top = frames.last();
    let top2 = (FrameView { fi: top.fi + 1, ..top });
    let upd = frames.update(frames.len() - 1, top2);
    assert(upd.last() == top2);
    assert(yield_index(cfg.results_filter, top.files, top.fi) == yield_index(
        cfg.results_filter,
        top.files,
        top.fi + 1,
    ));
    assert(frame_file_yield(cfg, top2) == frame_file_yield(cfg, top));
    assert(frame_dir_yield(cfg, top2) == frame_dir_yield(cfg, top));
    assert(drained_files(cfg, top2) == drained_files(cfg, top));
    assert(drained_dirs(cfg, top2) == drained_dirs(cfg, top));
    match frame_file_yield(cfg, top) {
        Option::Some(i) => {
            assert((FrameView { fi: i + 1, ..top2 }) == (FrameView { fi: i + 1, ..top }));
            assert(upd.update(upd.len() - 1, (FrameView { fi: i + 1, ..top2 })) =~= frames.update(
                frames.len() - 1,
                (FrameView { fi: i + 1, ..top }),
            ));
        },
        Option::None => {
            match frame_dir_yield(cfg, top) {
                Option::Some(j) => {
                    assert((FrameView { fi: drained_files(cfg, top2), di: j + 1, ..top2 })
                        == (FrameView { fi: drained_files(cfg, top), di: j + 1, ..top }));
                    assert(upd.update(
                        upd.len() - 1,
                        (FrameView { fi: drained_files(cfg, top2), di: j + 1, ..top2 }),
                    ) =~= frames.update(
                        frames.len() - 1,
                        (FrameView { fi: drained_files(cfg, top), di: j + 1, ..top }),
                    ));
                },
                Option::None => {
                    if top.si < top.subs.len() {
                        let a = (FrameView {
                            fi: drained_files(cfg, top2),
                            di: drained_dirs(cfg, top2),
                            si: top2.si + 1,
                            ..top2
                        });
                        let b = (FrameView {
                            fi: drained_files(cfg, top),
                            di: drained_dirs(cfg, top),
                            si: top.si + 1,
                            ..top
                        });
                        assert(a == b);
                        assert(upd.update(upd.len() - 1, a) =~= frames.update(
                            frames.len() - 1,
                            b,
                        ));
                        assert(upd.update(upd.len() - 1, a).push(fresh_frame(top2.subs[top2.si]))
                            =~= frames.update(frames.len() - 1, b).push(
                            fresh_frame(top.subs[top.si]),
                        ));
                    } else {
                        assert(upd.drop_last() =~= frames.drop_last());
                    }
                },
            }
        },
    }
}

/// Skipping one rejected directory candidate changes neither the step
/// the walk owes nor the frames it leaves behind.
proof fn lemma_advance_rejected_dir(cfg: ScanConfig, frames: Seq<FrameView>)
    requires
        frames.len() > 0,
        frames.last().listed,
        cfg.include_dirs,
        !(cfg.include_files && frames.last().fi < frames.last().files.len()),
        0 <= frames.last().di < frames.last().dirs.len(),
        !filter_allows(cfg.results_filter, frames.last().dirs[frames.last().di]),
    ensures
        stack_step(
            cfg,
            frames.update(
                frames.len() - 1,
                (FrameView { di: frames.last().di + 1, ..frames.last() }),
            ),
        ) == stack_step(cfg, frames),
        stack_after(
            cfg,
            frames.update(
                frames.len() - 1,
                (FrameView { di: frames.last().di + 1, ..frames.last() }),
            ),
        ) == stack_after(cfg, frames),
{
    let top = frames.last();
    let top2 = (FrameView { di: top.di + 1, ..top });
    let upd = frames.update(frames.len() - 1, top2);
    assert(upd.last() == top2);
    lemma_frame_file_exhausted(cfg, top);
    lemma_frame_file_exhausted(cfg, top2);
    assert(yield_index(cfg.results_filter, top.dirs, top.di) == yield_index(
        cfg.results_filter,
        top.dirs,
        top.di + 1,
    ));
    assert(frame_dir_yield(cfg, top2) == frame_dir_yield(cfg, top));
    assert(drained_files(cfg, top2) == drained_files(cfg, top));
    assert(drained_dirs(cfg, top2) == drained_dirs(cfg, top));
    match frame_dir_yield(cfg, top) {
        Option::Some(j) => {
            assert((FrameView { fi: drained_files(cfg, top2), di: j + 1, ..top2 }) == (FrameView {
                fi: drained_files(cfg, top),
                di: j + 1,
                ..top
            }));
            assert(upd.update(
                upd.len() - 1,
                (FrameView { fi: drained_files(cfg, top2), di: j + 1, ..top2 }),
            ) =~= frames.update(
                frames.len() - 1,
                (FrameView { fi: drained_files(cfg, top), di: j + 1, ..top }),
            ));
        },
        Option::None => {
            if top.si < top.subs.len() {
                let a = (FrameView {
                    fi: drained_files(cfg, top2),
                    di: drained_dirs(cfg, top2),
                    si: top2.si + 1,
                    ..top2
                });
                let b = (FrameView {
                    fi: drained_files(cfg, top),
                    di: drained_dirs(cfg, top),
                    si: top.si + 1,
                    ..top
                });
                assert(a == b);
                assert(upd.update(upd.len() - 1, a) =~= frames.update(frames.len() - 1, b));
                assert(upd.update(upd.len() - 1, a).push(fresh_frame(top2.subs[top2.si])) =~= frames.update(
                    frames.len() - 1,
                    b,
                ).push(fresh_frame(top.subs[top.si])));
            } else {
                assert(upd.drop_last() =~= frames.drop_last());
            }
        },
    }
}

/// The listing log of a scanner; a spec-level shorthand.
spec fn log_of(s: FileScanner) -> Seq<(Seq<char>, Seq<Seq<char>>)> {
    s.listings()
}

proof fn lemma_log_extension_preserves_member(
    log: Seq<(Seq<char>, Seq<Seq<char>>)>,
    longer: Seq<(Seq<char>, Seq<Seq<char>>)>,
    p: Seq<char>,
)
    requires
        log.is_prefix_of(longer),
        in_some_listing(log, p),
    ensures
        in_some_listing(longer, p),
{
    let i = choose|i: int| 0 <= i < log.len() && (#[trigger] log[i]).1.contains(p);
    assert(longer[i].1.contains(p));
}

proof fn lemma_log_extension_preserves_frame(a: FileScanner, b: FileScanner, f: ScanFrame)
    requires
        a.frame_inv(f),
        log_of(a).is_prefix_of(log_of(b)),
        a.config().recurse_filter == b.config().recurse_filter,
    ensures
        b.frame_inv(f),
{
    if f.listed {
        assert forall|i: int| 0 <= i < f.files@.len() implies in_some_listing(
            log_of(b),
            (#[trigger] f.files@[i])@,
        ) && listed_as_file(f.files@[i]@) by {
            lemma_log_extension_preserves_member(log_of(a), log_of(b), f.files@[i]@);
        }
        assert forall|i: int| 0 <= i < f.dirs@.len() implies in_some_listing(
            log_of(b),
            (#[trigger] f.dirs@[i])@,
        ) && !listed_as_file(f.dirs@[i]@) by {
            lemma_log_extension_preserves_member(log_of(a), log_of(b), f.dirs@[i]@);
        }
        assert forall|i: int| 0 <= i < f.subs@.len() implies in_some_listing(
            log_of(b),
            (#[trigger] f.subs@[i])@,
        ) && !listed_as_file(f.subs@[i]@) && filter_allows(
            b.config().recurse_filter,
            f.subs@[i]@,
        ) by {
            lemma_log_extension_preserves_member(log_of(a), log_of(b), f.subs@[i]@);
        }
    }
}

proof fn lemma_stack_work_nonneg(st: Seq<ScanFrame>, s: FileScanner)
    requires
        forall|k: int| 0 <= k < st.len() ==> s.frame_inv(#[trigger] st[k]),
    ensures
        stack_work(st) >= 0,
    decreases st.len(),
{
    if st.len() > 0 {
        lemma_stack_work_nonneg(st.drop_last(), s);
    }
}

proof fn lemma_stack_push_work(st: Seq<ScanFrame>, f: ScanFrame)
    ensures
        stack_work(st.push(f)) == stack_work(st) + f.work(),
{
    assert(st.push(f).drop_last() =~= st);
}

impl FileRef {
    /// A fresh scanner rooted at this reference.
    pub fn scanner(&self) -> (r: FileScanner)
        ensures
            r.wf(),
            !r.is_done(),
            !r.is_started(),
            !r.self_emitted(),
            !r.self_pending(),
            !r.self_check_spent(),
            r.root_answer() is None,
            r.awaiting_listing() is None,
            r.listings() == Seq::<(Seq<char>, Seq<Seq<char>>)>::empty(),
            r.frames() == Seq::<FrameView>::empty(),
            r.config() == (ScanConfig {
                include_self: false,
                include_files: false,
                include_dirs: false,
                results_filter: ScanFilter::EveryEntry,
                recurse_filter: ScanFilter::NoEntry,
                root: normalize(trim_end_matches_seq(self@, seq!['/'])),
            }),
    {
        FileScanner::new(self)
    }
}

} // verus!
