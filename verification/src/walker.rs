//! The traversal state machine.
//!
//! [`WalkDir`] performs a depth-first walk without doing any I/O itself. Each
//! method is told the outcome of the last operation it asked for and answers
//! with the next [`Action`]: an operation for the driver to perform, or an item
//! to hand to the user. The driver keeps one open directory stream per level of
//! [`WalkModel::depths`], in the same order.

use std::collections::HashSet;
use std::path::PathBuf;
use vstd::prelude::*;

use crate::error::{IoFailure, WalkError};
use crate::options::WalkOptions;

verus! {

broadcast use vstd::std_specs::hash::group_hash_axioms;

/// What the walker is waiting for.
#[derive(Clone, Copy, Debug, PartialEq, Eq, Structural)]
pub enum Phase {
    /// Waiting for the user to ask for the next item.
    Ready,
    /// Waiting for the root directory to be opened.
    OpeningRoot,
    /// Waiting for the metadata of the root directory.
    StattingRootDir,
    /// Waiting for the metadata of the root file.
    StattingRootFile,
    /// Waiting for the next entry of the innermost open directory.
    Reading,
    /// Waiting for the user's filter to judge the current entry.
    Filtering,
    /// Waiting for the metadata of the current entry, to learn whether it is a directory.
    Classifying,
    /// Waiting for the metadata of the current directory, to learn its identity.
    Identifying,
    /// Waiting for the current directory to be opened.
    Descending,
    /// Waiting for the innermost directory stream to be closed.
    Closing,
}

/// What the metadata of a path says: its kind and its identity.
#[derive(Clone, Copy, Debug)]
pub struct StatInfo {
    /// Whether the path is a directory.
    pub is_dir: bool,
    /// The device the file lives on.
    pub dev: u64,
    /// The inode number of the file on its device.
    pub ino: u64,
}

/// The next thing the driver must do.
#[derive(Debug)]
pub enum Action {
    /// Open the root directory; on success keep its stream as the first level.
    OpenRoot,
    /// Read the metadata of the root, following links.
    StatRoot,
    /// Read the next entry of the innermost open directory, with its file type.
    ReadNext,
    /// Ask the user's filter whether the current entry, at this depth, is kept.
    Filter { depth: usize },
    /// Read the metadata of the current entry, following links.
    StatCurrent,
    /// Open the current entry as a directory; on success keep its stream as a new level.
    OpenCurrent,
    /// Close the innermost directory stream.
    CloseTop,
    /// Hand the root itself to the user, at depth 0.
    YieldRoot,
    /// Hand the current entry to the user, at this depth.
    YieldCurrent { depth: usize },
    /// Hand this error to the user.
    YieldError(WalkError),
    /// The walk is over.
    Finish,
}

/// The key under which a directory's identity is remembered.
pub open spec fn file_key(dev: u64, ino: u64) -> u128 {
    (dev as int * 0x1_0000_0000_0000_0000 + ino as int) as u128
}

/// Two files share a key only when they share device and inode.
pub proof fn lemma_file_key_injective(dev1: u64, ino1: u64, dev2: u64, ino2: u64)
    ensures
        file_key(dev1, ino1) == file_key(dev2, ino2) <==> (dev1 == dev2 && ino1 == ino2),
{
    assert(dev1 as int * 0x1_0000_0000_0000_0000 + ino1 as int <= u128::MAX) by (nonlinear_arith);
    assert(dev2 as int * 0x1_0000_0000_0000_0000 + ino2 as int <= u128::MAX) by (nonlinear_arith);
    if file_key(dev1, ino1) == file_key(dev2, ino2) {
        assert(dev1 == dev2 && ino1 == ino2) by (nonlinear_arith)
            requires
                dev1 as int * 0x1_0000_0000_0000_0000 + ino1 as int
                    == dev2 as int * 0x1_0000_0000_0000_0000 + ino2 as int,
                ino1 < 0x1_0000_0000_0000_0000,
                ino2 < 0x1_0000_0000_0000_0000,
        ;
    }
}

fn key_of(info: &StatInfo) -> (key: u128)
    ensures
        key == file_key(info.dev, info.ino),
{
    proof {
        assert(info.dev as int * 0x1_0000_0000_0000_0000 + info.ino as int <= u128::MAX)
            by (nonlinear_arith);
    }
    (info.dev as u128) * 0x1_0000_0000_0000_0000u128 + (info.ino as u128)
}

/// The abstract state of a walk.
#[verifier::ext_equal]
pub struct WalkModel {
    /// Whether links to directories are followed.
    pub follow_links: bool,
    /// The deepest level an entry may have.
    pub max_depth: usize,
    /// Whether I/O errors and loops are skipped.
    pub ignore_errors: bool,
    /// Whether directory identities are tracked to detect loops.
    pub detect_loops: bool,
    /// Whether I/O errors that deny access are skipped.
    pub ignore_permission_denied: bool,
    /// Whether a filter judges each entry.
    pub has_filter: bool,
    /// Whether the root is a file rather than a directory.
    pub root_is_file: bool,
    /// Whether the walk has begun.
    pub started: bool,
    /// What the walker waits for.
    pub phase: Phase,
    /// The depth of each open directory, outermost first.
    pub depths: Seq<usize>,
    /// The keys of the directories seen so far.
    pub visited: Set<u128>,
    /// The depth of the entry being examined.
    pub current_depth: usize,
    /// Whether the file type read with the current entry says directory.
    pub current_is_dir: bool,
    /// A failure to report before anything else, unless it is ignored by then.
    pub pending: Option<IoFailure>,
    /// The keys of the directories entered after a successful identity check, in order.
    pub entered: Seq<u128>,
    /// The key recorded for the current directory, when its identity was checked.
    pub current_key: Option<u128>,
}

impl WalkModel {
    /// Whether the walk skips `failure` rather than reporting it.
    pub open spec fn ignores(self, failure: IoFailure) -> bool {
        self.ignore_errors || (self.ignore_permission_denied && crate::error::io_error_denies_access(failure.error))
    }

    /// The walk is over: every later request for an item ends it again.
    pub open spec fn is_finished(self) -> bool {
        &&& self.started
        &&& self.phase == Phase::Ready
        &&& self.depths.len() == 0
        &&& self.pending is None
    }

    pub open spec fn in_phase(self, phase: Phase) -> WalkModel {
        WalkModel { phase, ..self }
    }

    /// Skip to the next entry of the innermost directory.
    pub open spec fn next_entry(self) -> (WalkModel, Action) {
        (self.in_phase(Phase::Reading), Action::ReadNext)
    }

    /// Report an I/O failure unless it is skipped, in which case `otherwise` happens.
    pub open spec fn report(self, failure: IoFailure, otherwise: (WalkModel, Action)) -> (
        WalkModel,
        Action,
    ) {
        if self.ignores(failure) {
            otherwise
        } else {
            (self.in_phase(Phase::Ready), Action::YieldError(WalkError::Io(failure.error, failure.path)))
        }
    }

    /// Hand the current entry to the user.
    pub open spec fn yield_current(self) -> (WalkModel, Action) {
        (self.in_phase(Phase::Ready), Action::YieldCurrent { depth: self.current_depth })
    }

    /// Enter the current directory when its children stay within the depth limit.
    pub open spec fn descend(self) -> (WalkModel, Action) {
        if self.current_depth < self.max_depth {
            (self.in_phase(Phase::Descending), Action::OpenCurrent)
        } else {
            self.yield_current()
        }
    }

    /// Act on whether the current entry is a directory.
    pub open spec fn decide(self, is_dir: bool) -> (WalkModel, Action) {
        if !is_dir {
            self.yield_current()
        } else if self.follow_links && self.detect_loops {
            (self.in_phase(Phase::Identifying), Action::StatCurrent)
        } else {
            self.descend()
        }
    }

    /// Learn whether the kept current entry is a directory.
    pub open spec fn classify(self) -> (WalkModel, Action) {
        if self.follow_links {
            (self.in_phase(Phase::Classifying), Action::StatCurrent)
        } else {
            self.decide(self.current_is_dir)
        }
    }

    /// The user asks for the next item.
    pub open spec fn resume_step(self) -> (WalkModel, Action) {
        match self.pending {
            Some(failure) => {
                let s = WalkModel { pending: None, ..self };
                if self.ignores(failure) {
                    s.advance()
                } else {
                    (s, Action::YieldError(WalkError::Io(failure.error, failure.path)))
                }
            },
            None => self.advance(),
        }
    }

    /// Move on once nothing is left to report.
    pub open spec fn advance(self) -> (WalkModel, Action) {
        if !self.started {
            let s = WalkModel { started: true, ..self };
            if self.root_is_file {
                if self.follow_links && self.detect_loops {
                    (s.in_phase(Phase::StattingRootFile), Action::StatRoot)
                } else {
                    (s, Action::YieldRoot)
                }
            } else {
                (s.in_phase(Phase::OpeningRoot), Action::OpenRoot)
            }
        } else if self.depths.len() == 0 {
            (self, Action::Finish)
        } else {
            self.next_entry()
        }
    }

    /// The directory the walker asked to open was opened.
    pub open spec fn opened_step(self) -> (WalkModel, Action) {
        if self.phase == Phase::OpeningRoot {
            let s = WalkModel { depths: seq![0usize], ..self };
            if self.detect_loops {
                (s.in_phase(Phase::StattingRootDir), Action::StatRoot)
            } else {
                s.next_entry()
            }
        } else {
            let s = WalkModel {
                depths: self.depths.push(self.current_depth),
                entered: match self.current_key {
                    Some(key) => self.entered.push(key),
                    None => self.entered,
                },
                ..self
            };
            s.yield_current()
        }
    }

    /// The operation the walker asked for failed.
    pub open spec fn failed_step(self, failure: IoFailure) -> (WalkModel, Action) {
        match self.phase {
            Phase::OpeningRoot => self.report(failure, (self.in_phase(Phase::Ready), Action::Finish)),
            Phase::StattingRootDir => self.next_entry(),
            Phase::StattingRootFile => (self.in_phase(Phase::Ready), Action::YieldRoot),
            Phase::Identifying => WalkModel { current_key: None, ..self }.descend(),
            Phase::Descending => WalkModel { pending: Some(failure), ..self }.yield_current(),
            _ => self.report(failure, self.next_entry()),
        }
    }

    /// The innermost directory yielded an entry whose file type says `is_dir`.
    pub open spec fn found_step(self, is_dir: bool) -> (WalkModel, Action) {
        let depth = self.depths.last() + 1;
        let s = WalkModel {
            current_depth: depth as usize,
            current_is_dir: is_dir,
            current_key: None,
            ..self
        };
        if depth > self.max_depth {
            self.next_entry()
        } else if self.has_filter {
            (s.in_phase(Phase::Filtering), Action::Filter { depth: depth as usize })
        } else {
            s.classify()
        }
    }

    /// The innermost directory has no more entries.
    pub open spec fn exhausted_step(self) -> (WalkModel, Action) {
        (WalkModel { depths: self.depths.drop_last(), phase: Phase::Closing, ..self }, Action::CloseTop)
    }

    /// The innermost directory stream was closed.
    pub open spec fn closed_step(self) -> (WalkModel, Action) {
        if self.depths.len() == 0 {
            (self.in_phase(Phase::Ready), Action::Finish)
        } else {
            self.next_entry()
        }
    }

    /// The filter judged the current entry.
    pub open spec fn filtered_step(self, keep: bool) -> (WalkModel, Action) {
        if keep {
            self.classify()
        } else {
            self.next_entry()
        }
    }

    /// The metadata the walker asked for arrived; `path` is the path it was read from.
    pub open spec fn stat_step(self, info: StatInfo, path: PathBuf) -> (WalkModel, Action) {
        let key = file_key(info.dev, info.ino);
        match self.phase {
            Phase::StattingRootDir => WalkModel {
                visited: self.visited.insert(key),
                entered: self.entered.push(key),
                ..self
            }.next_entry(),
            Phase::StattingRootFile => (
                WalkModel { visited: self.visited.insert(key), phase: Phase::Ready, ..self },
                Action::YieldRoot,
            ),
            Phase::Classifying => self.decide(info.is_dir),
            _ => {
                if self.visited.contains(key) {
                    if self.ignore_errors {
                        self.next_entry()
                    } else {
                        (self.in_phase(Phase::Ready), Action::YieldError(WalkError::LoopDetected(path)))
                    }
                } else {
                    WalkModel {
                        visited: self.visited.insert(key),
                        current_key: Some(key),
                        ..self
                    }.descend()
                }
            },
        }
    }

    /// Entries handed out lie within the depth limit and below the root.
    pub open spec fn yields_within_depth(self, action: Action) -> bool {
        action matches Action::YieldCurrent { depth } ==> 1 <= depth <= self.max_depth
    }

    /// Errors reach the user only when they are not ignored, and loops only when
    /// links are followed and loop detection is on.
    pub open spec fn reports_only_unignored(self, action: Action) -> bool {
        &&& action is YieldError ==> !self.ignore_errors
        &&& action matches Action::YieldError(WalkError::LoopDetected(_))
            ==> self.follow_links && self.detect_loops
    }

    /// Entries are stat'ed only when links are followed, and a directory is
    /// opened only when its children stay within the depth limit.
    pub open spec fn io_is_guarded(self, action: Action) -> bool {
        &&& action is StatCurrent ==> self.follow_links
        &&& action is OpenCurrent ==> self.current_depth < self.max_depth
    }

    /// What every step keeps: configuration, seen directories and entered directories
    /// only grow.
    pub open spec fn grows_into(self, next: WalkModel) -> bool {
        &&& next.follow_links == self.follow_links
        &&& next.max_depth == self.max_depth
        &&& next.ignore_errors == self.ignore_errors
        &&& next.detect_loops == self.detect_loops
        &&& next.ignore_permission_denied == self.ignore_permission_denied
        &&& next.has_filter == self.has_filter
        &&& next.root_is_file == self.root_is_file
        &&& self.visited.subset_of(next.visited)
        &&& self.entered.is_prefix_of(next.entered)
    }

    /// The state after a step that ended the walk.
    pub open spec fn ends_when_finished(next: WalkModel, action: Action) -> bool {
        (action is Finish || action is YieldRoot) ==> next.is_finished()
    }
}

/// A depth-first walk over a directory tree, driven from outside.
pub struct WalkDir {
    opts: WalkOptions,
    ignore_permission_denied: bool,
    has_filter: bool,
    root_is_file: bool,
    started: bool,
    phase: Phase,
    depths: Vec<usize>,
    visited: HashSet<u128>,
    current_depth: usize,
    current_is_dir: bool,
    pending: Option<IoFailure>,
    entered: Ghost<Seq<u128>>,
    current_key: Ghost<Option<u128>>,
}

impl View for WalkDir {
    type V = WalkModel;

    closed spec fn view(&self) -> WalkModel {
        WalkModel {
            follow_links: self.opts.follow_links,
            max_depth: self.opts.max_depth,
            ignore_errors: self.opts.ignore_errors,
            detect_loops: self.opts.detect_loops,
            ignore_permission_denied: self.ignore_permission_denied,
            has_filter: self.has_filter,
            root_is_file: self.root_is_file,
            started: self.started,
            phase: self.phase,
            depths: self.depths@,
            visited: self.visited@,
            current_depth: self.current_depth,
            current_is_dir: self.current_is_dir,
            pending: self.pending,
            entered: self.entered@,
            current_key: self.current_key@,
        }
    }
}

impl WalkModel {
    /// The invariant of a walk.
    pub open spec fn wf(self) -> bool {
        // Open directories sit at consecutive depths from the root.
        &&& forall|i: int| 0 <= i < self.depths.len() ==> #[trigger] self.depths[i] == i
        // A directory entered after an identity check is entered once.
        &&& self.entered.no_duplicates()
        &&& forall|i: int| 0 <= i < self.entered.len() ==> self.visited.contains(#[trigger] self.entered[i])
        &&& self.pending is Some ==> self.phase == Phase::Ready
        &&& !self.started ==> {
            &&& self.phase == Phase::Ready
            &&& self.depths.len() == 0
            &&& self.pending is None
            &&& self.visited.is_empty()
            &&& self.entered.len() == 0
        }
        &&& match self.phase {
            Phase::Ready => true,
            Phase::OpeningRoot => {
                &&& !self.root_is_file
                &&& self.depths.len() == 0
                &&& self.visited.is_empty()
                &&& self.entered.len() == 0
            },
            Phase::StattingRootDir => {
                &&& self.detect_loops
                &&& self.depths.len() == 1
                &&& self.visited.is_empty()
                &&& self.entered.len() == 0
            },
            Phase::StattingRootFile => {
                &&& self.root_is_file
                &&& self.depths.len() == 0
            },
            Phase::Reading => self.depths.len() > 0,
            Phase::Closing => true,
            _ => {
                &&& self.depths.len() > 0
                &&& self.current_depth == self.depths.len()
                &&& 1 <= self.current_depth <= self.max_depth
                &&& (self.phase == Phase::Filtering ==> self.has_filter)
                &&& (self.phase == Phase::Classifying ==> self.follow_links)
                &&& (self.phase == Phase::Identifying ==> {
                    &&& self.follow_links && self.detect_loops
                    &&& self.current_key is None
                })
                &&& (self.phase == Phase::Descending ==> {
                    &&& self.current_depth < self.max_depth
                    &&& (self.current_key matches Some(key) ==> {
                        &&& self.visited.contains(key)
                        &&& !self.entered.contains(key)
                    })
                })
                &&& (self.phase != Phase::Identifying && self.phase != Phase::Descending)
                    ==> self.current_key is None
            },
        }
    }
}

impl WalkDir {
    /// The invariant of a walk.
    pub open spec fn wf(&self) -> bool {
        self@.wf()
    }

    /// A walk that has not begun, with the default options; `root_is_file` says
    /// whether its root is a file rather than a directory.
    pub fn new(root_is_file: bool) -> (walk: WalkDir)
        ensures
            walk.wf(),
            walk@.follow_links == false,
            walk@.max_depth == crate::options::DEFAULT_MAX_DEPTH,
            walk@.ignore_errors == false,
            walk@.detect_loops == true,
            walk@.ignore_permission_denied == false,
            walk@.has_filter == false,
            walk@.root_is_file == root_is_file,
            walk@.started == false,
            walk@.phase == Phase::Ready,
            walk@.depths.len() == 0,
            walk@.visited.is_empty(),
            walk@.pending is None,
            walk@.entered.len() == 0,
            walk@.current_key is None,
    {
        let walk = WalkDir {
            opts: WalkOptions::default(),
            ignore_permission_denied: false,
            has_filter: false,
            root_is_file,
            started: false,
            phase: Phase::Ready,
            depths: Vec::new(),
            visited: HashSet::new(),
            current_depth: 0,
            current_is_dir: false,
            pending: None,
            entered: Ghost(Seq::empty()),
            current_key: Ghost(None),
        };
        assert(walk@.visited =~= Set::empty());
        walk
    }

    /// Follow symbolic links to directories, or not.
    pub fn follow_links(self, follow: bool) -> (walk: WalkDir)
        requires
            self.wf(),
            self@.phase == Phase::Ready,
        ensures
            walk.wf(),
            walk@ == (WalkModel { follow_links: follow, ..self@ }),
    {
        let mut walk = self;
        walk.opts.follow_links = follow;
        walk
    }

    /// Limit the depth of the entries handed out; the root is level 0.
    pub fn max_depth(self, depth: usize) -> (walk: WalkDir)
        requires
            self.wf(),
            self@.phase == Phase::Ready,
        ensures
            walk.wf(),
            walk@ == (WalkModel { max_depth: depth, ..self@ }),
    {
        let mut walk = self;
        walk.opts.max_depth = depth;
        walk
    }

    /// Track directory identities to detect symbolic-link loops, or not.
    pub fn detect_loops(self, detect: bool) -> (walk: WalkDir)
        requires
            self.wf(),
            self@.phase == Phase::Ready,
        ensures
            walk.wf(),
            walk@ == (WalkModel { detect_loops: detect, ..self@ }),
    {
        let mut walk = self;
        walk.opts.detect_loops = detect;
        walk
    }

    /// Skip I/O errors and detected loops instead of reporting them, or not.
    pub fn ignore_errors(self, ignore: bool) -> (walk: WalkDir)
        requires
            self.wf(),
            self@.phase == Phase::Ready,
        ensures
            walk.wf(),
            walk@ == (WalkModel { ignore_errors: ignore, ..self@ }),
    {
        let mut walk = self;
        walk.opts.ignore_errors = ignore;
        walk
    }

    /// Skip I/O errors that deny access instead of reporting them, or not.
    pub fn ignore_permission_denied(self, ignore: bool) -> (walk: WalkDir)
        requires
            self.wf(),
            self@.phase == Phase::Ready,
        ensures
            walk.wf(),
            walk@ == (WalkModel { ignore_permission_denied: ignore, ..self@ }),
    {
        let mut walk = self;
        walk.ignore_permission_denied = ignore;
        walk
    }

    /// Have a filter judge every entry before it is examined further: an entry it
    /// rejects is neither handed out nor entered.
    pub fn filter_entry(self) -> (walk: WalkDir)
        requires
            self.wf(),
            self@.phase == Phase::Ready,
        ensures
            walk.wf(),
            walk@ == (WalkModel { has_filter: true, ..self@ }),
    {
        let mut walk = self;
        walk.has_filter = true;
        walk
    }
    /// What the walk is waiting for.
    pub fn phase(&self) -> (phase: Phase)
        ensures
            phase == self@.phase,
    {
        self.phase
    }

    fn next_entry(&mut self) -> (action: Action)
        ensures
            final(self)@ == old(self)@.next_entry().0,
            action == old(self)@.next_entry().1,
    {
        self.phase = Phase::Reading;
        Action::ReadNext
    }

    fn yield_current(&mut self) -> (action: Action)
        ensures
            final(self)@ == old(self)@.yield_current().0,
            action == old(self)@.yield_current().1,
    {
        self.phase = Phase::Ready;
        Action::YieldCurrent { depth: self.current_depth }
    }

    fn descend(&mut self) -> (action: Action)
        ensures
            final(self)@ == old(self)@.descend().0,
            action == old(self)@.descend().1,
    {
        if self.current_depth < self.opts.max_depth {
            self.phase = Phase::Descending;
            Action::OpenCurrent
        } else {
            self.yield_current()
        }
    }

    fn decide(&mut self, is_dir: bool) -> (action: Action)
        ensures
            final(self)@ == old(self)@.decide(is_dir).0,
            action == old(self)@.decide(is_dir).1,
    {
        if !is_dir {
            self.yield_current()
        } else if self.opts.follow_links && self.opts.detect_loops {
            self.phase = Phase::Identifying;
            Action::StatCurrent
        } else {
            self.descend()
        }
    }

    fn classify(&mut self) -> (action: Action)
        ensures
            final(self)@ == old(self)@.classify().0,
            action == old(self)@.classify().1,
    {
        if self.opts.follow_links {
            self.phase = Phase::Classifying;
            Action::StatCurrent
        } else {
            let is_dir = self.current_is_dir;
            self.decide(is_dir)
        }
    }

    /// The user asks for the next item.
    pub fn resume(&mut self) -> (action: Action)
        requires
            old(self).wf(),
            old(self)@.phase == Phase::Ready,
        ensures
            final(self).wf(),
            final(self)@ == old(self)@.resume_step().0,
            action == old(self)@.resume_step().1,
            old(self)@.grows_into(final(self)@),
            final(self)@.yields_within_depth(action),
            final(self)@.reports_only_unignored(action),
            final(self)@.io_is_guarded(action),
            WalkModel::ends_when_finished(final(self)@, action),
    {
        match self.pending.take() {
            Some(failure) => {
                if !(self.opts.ignore_errors || (self.ignore_permission_denied
                    && failure.denies_access())) {
                    return Action::YieldError(WalkError::from(failure));
                }
            },
            None => {},
        }
        if !self.started {
            self.started = true;
            if self.root_is_file {
                if self.opts.follow_links && self.opts.detect_loops {
                    self.phase = Phase::StattingRootFile;
                    Action::StatRoot
                } else {
                    Action::YieldRoot
                }
            } else {
                self.phase = Phase::OpeningRoot;
                Action::OpenRoot
            }
        } else if self.depths.len() == 0 {
            Action::Finish
        } else {
            self.next_entry()
        }
    }

    /// The directory the walker asked to open was opened; the driver keeps its
    /// stream as the innermost level.
    pub fn opened(&mut self) -> (action: Action)
        requires
            old(self).wf(),
            old(self)@.phase == Phase::OpeningRoot || old(self)@.phase == Phase::Descending,
        ensures
            final(self).wf(),
            final(self)@ == old(self)@.opened_step().0,
            action == old(self)@.opened_step().1,
            old(self)@.grows_into(final(self)@),
            final(self)@.yields_within_depth(action),
            final(self)@.reports_only_unignored(action),
            final(self)@.io_is_guarded(action),
            WalkModel::ends_when_finished(final(self)@, action),
    {
        if self.phase == Phase::OpeningRoot {
            self.depths.push(0);
            if self.opts.detect_loops {
                self.phase = Phase::StattingRootDir;
                Action::StatRoot
            } else {
                self.next_entry()
            }
        } else {
            let depth = self.current_depth;
            self.depths.push(depth);
            proof {
                if let Some(key) = self.current_key@ {
                    self.entered@ = self.entered@.push(key);
                }
            }
            self.yield_current()
        }
    }

    /// The operation the walker asked for failed.
    pub fn failed(&mut self, failure: IoFailure) -> (action: Action)
        requires
            old(self).wf(),
            old(self)@.phase != Phase::Ready,
            old(self)@.phase != Phase::Filtering,
            old(self)@.phase != Phase::Closing,
        ensures
            final(self).wf(),
            final(self)@ == old(self)@.failed_step(failure).0,
            action == old(self)@.failed_step(failure).1,
            old(self)@.grows_into(final(self)@),
            final(self)@.yields_within_depth(action),
            final(self)@.reports_only_unignored(action),
            final(self)@.io_is_guarded(action),
            WalkModel::ends_when_finished(final(self)@, action),
    {
        let ignored = self.opts.ignore_errors || (self.ignore_permission_denied
            && failure.denies_access());
        match self.phase {
            Phase::OpeningRoot => {
                self.phase = Phase::Ready;
                if ignored {
                    Action::Finish
                } else {
                    Action::YieldError(WalkError::from(failure))
                }
            },
            Phase::StattingRootDir => self.next_entry(),
            Phase::StattingRootFile => {
                self.phase = Phase::Ready;
                Action::YieldRoot
            },
            Phase::Identifying => {
                self.current_key = Ghost(None);
                self.descend()
            },
            Phase::Descending => {
                self.pending = Some(failure);
                self.yield_current()
            },
            _ => {
                if ignored {
                    self.next_entry()
                } else {
                    self.phase = Phase::Ready;
                    Action::YieldError(WalkError::from(failure))
                }
            },
        }
    }

    /// The innermost directory yielded an entry; `is_dir` is what its file type says.
    pub fn found(&mut self, is_dir: bool) -> (action: Action)
        requires
            old(self).wf(),
            old(self)@.phase == Phase::Reading,
        ensures
            final(self).wf(),
            final(self)@ == old(self)@.found_step(is_dir).0,
            action == old(self)@.found_step(is_dir).1,
            old(self)@.grows_into(final(self)@),
            final(self)@.yields_within_depth(action),
            final(self)@.reports_only_unignored(action),
            final(self)@.io_is_guarded(action),
            WalkModel::ends_when_finished(final(self)@, action),
    {
        let depth = self.depths[self.depths.len() - 1] + 1;
        if depth > self.opts.max_depth {
            return self.next_entry();
        }
        self.current_depth = depth;
        self.current_is_dir = is_dir;
        self.current_key = Ghost(None);
        if self.has_filter {
            self.phase = Phase::Filtering;
            Action::Filter { depth }
        } else {
            self.classify()
        }
    }

    /// The innermost directory has no more entries.
    pub fn exhausted(&mut self) -> (action: Action)
        requires
            old(self).wf(),
            old(self)@.phase == Phase::Reading,
        ensures
            final(self).wf(),
            final(self)@ == old(self)@.exhausted_step().0,
            action == old(self)@.exhausted_step().1,
            old(self)@.grows_into(final(self)@),
    {
        self.depths.pop();
        self.phase = Phase::Closing;
        Action::CloseTop
    }

    /// The innermost directory stream was closed.
    pub fn closed(&mut self) -> (action: Action)
        requires
            old(self).wf(),
            old(self)@.phase == Phase::Closing,
        ensures
            final(self).wf(),
            final(self)@ == old(self)@.closed_step().0,
            action == old(self)@.closed_step().1,
            old(self)@.grows_into(final(self)@),
            WalkModel::ends_when_finished(final(self)@, action),
    {
        if self.depths.len() == 0 {
            self.phase = Phase::Ready;
            Action::Finish
        } else {
            self.next_entry()
        }
    }

    /// The filter judged the current entry: `keep` is whether it stays in the walk.
    pub fn filtered(&mut self, keep: bool) -> (action: Action)
        requires
            old(self).wf(),
            old(self)@.phase == Phase::Filtering,
        ensures
            final(self).wf(),
            final(self)@ == old(self)@.filtered_step(keep).0,
            action == old(self)@.filtered_step(keep).1,
            old(self)@.grows_into(final(self)@),
            final(self)@.yields_within_depth(action),
            final(self)@.reports_only_unignored(action),
            final(self)@.io_is_guarded(action),
    {
        if keep {
            self.classify()
        } else {
            self.next_entry()
        }
    }

    /// The metadata the walker asked for arrived; `path` is the path it describes.
    pub fn stat(&mut self, info: StatInfo, path: PathBuf) -> (action: Action)
        requires
            old(self).wf(),
            old(self)@.phase == Phase::StattingRootDir || old(self)@.phase
                == Phase::StattingRootFile || old(self)@.phase == Phase::Classifying
                || old(self)@.phase == Phase::Identifying,
        ensures
            final(self).wf(),
            final(self)@ == old(self)@.stat_step(info, path).0,
            action == old(self)@.stat_step(info, path).1,
            old(self)@.grows_into(final(self)@),
            final(self)@.yields_within_depth(action),
            final(self)@.reports_only_unignored(action),
            final(self)@.io_is_guarded(action),
            WalkModel::ends_when_finished(final(self)@, action),
    {
        let key = key_of(&info);
        match self.phase {
            Phase::StattingRootDir => {
                self.visited.insert(key);
                proof {
                    self.entered@ = self.entered@.push(key);
                }
                self.next_entry()
            },
            Phase::StattingRootFile => {
                self.visited.insert(key);
                self.phase = Phase::Ready;
                Action::YieldRoot
            },
            Phase::Classifying => self.decide(info.is_dir),
            _ => {
                if self.visited.contains(&key) {
                    if self.opts.ignore_errors {
                        self.next_entry()
                    } else {
                        self.phase = Phase::Ready;
                        Action::YieldError(WalkError::LoopDetected(path))
                    }
                } else {
                    self.visited.insert(key);
                    self.current_key = Ghost(Some(key));
                    self.descend()
                }
            },
        }
    }
}

/// A finished walk stays finished: asking for more items ends it again and
/// changes nothing.
pub proof fn lemma_finished_walk_stays_finished(s: WalkModel)
    requires
        s.wf(),
        s.is_finished(),
    ensures
        s.resume_step() == (s, Action::Finish),
{
}

/// When links are followed and loops are detected, a directory whose identity was
/// already seen is never entered again: the walk reports the loop at its path, or
/// skips the entry when errors are ignored.
pub proof fn lemma_seen_directory_is_not_entered_again(s: WalkModel, info: StatInfo, path: PathBuf)
    requires
        s.wf(),
        s.phase == Phase::Identifying,
        s.visited.contains(file_key(info.dev, info.ino)),
    ensures
        s.stat_step(info, path).0.phase != Phase::Descending,
        s.stat_step(info, path).1 == (if s.ignore_errors {
            Action::ReadNext
        } else {
            Action::YieldError(WalkError::LoopDetected(path))
        }),
{
}

/// A directory entered after its identity check had not been entered before, so
/// no directory is entered twice.
pub proof fn lemma_entered_directories_are_distinct(s: WalkModel)
    requires
        s.wf(),
        s.phase == Phase::Descending,
        s.current_key is Some,
    ensures
        s.opened_step().0.entered.no_duplicates(),
        !s.entered.contains(s.current_key->0),
        s.opened_step().0.entered == s.entered.push(s.current_key->0),
{
}

/// An entry the filter rejects is neither handed out nor entered: the walk
/// moves on to the next entry.
pub proof fn lemma_rejected_entry_is_skipped(s: WalkModel)
    requires
        s.wf(),
        s.phase == Phase::Filtering,
    ensures
        s.filtered_step(false) == s.next_entry(),
{
}

/// A directory that cannot be opened is still handed out, and the failure, when
/// it is not ignored, is the very next item.
pub proof fn lemma_unreadable_directory_is_reported_after_its_entry(
    s: WalkModel,
    failure: IoFailure,
)
    requires
        s.wf(),
        s.phase == Phase::Descending,
        !s.ignores(failure),
    ensures
        s.failed_step(failure).1 == (Action::YieldCurrent { depth: s.current_depth }),
        s.failed_step(failure).0.resume_step().1 == Action::YieldError(
            WalkError::Io(failure.error, failure.path),
        ),
{
}

/// A directory that cannot be opened, when the failure is ignored, is handed out
/// and the walk goes on as if it were empty.
pub proof fn lemma_ignored_unreadable_directory_is_skipped(s: WalkModel, failure: IoFailure)
    requires
        s.wf(),
        s.phase == Phase::Descending,
        s.ignores(failure),
    ensures
        s.failed_step(failure).1 == (Action::YieldCurrent { depth: s.current_depth }),
        s.failed_step(failure).0.resume_step() == s.in_phase(Phase::Ready).advance(),
{
    assert(s.failed_step(failure).0.resume_step().0 =~= s.in_phase(Phase::Ready).advance().0);
}

} // verus!
