//! Whole walks that follow symbolic links, over a model of a filesystem.
//!
//! A [`Disk`] is a finite set of directories, numbered by inode, whose entries
//! are files, directories, or symbolic links to a file, to a directory, or to
//! nothing. Links may close cycles. [`trek`] answers every [`Action`] of a walk
//! from such a disk, as a driver answers it from a filesystem that does not
//! change during the walk. The laws below state that a walk that follows links
//! with loop detection on always ends, hands out no directory twice, and that
//! ignoring errors removes the errors and nothing else.

use std::path::PathBuf;
use vstd::prelude::*;

use crate::error::IoFailure;
use crate::walker::{file_key, Action, Phase, StatInfo, WalkModel};

verus! {

/// Where a symbolic link leads.
pub enum Target {
    Missing,
    File,
    Dir { id: nat },
}

/// An entry of a directory, as seen without following links.
pub enum Child {
    File,
    Dir { id: nat },
    Link { target: Target },
}

/// A directory: whether it can be read, and its entries in read order.
pub struct Folder {
    pub readable: bool,
    pub children: Seq<Child>,
}

/// A filesystem, the root of a walk over it, the filter, and the failure
/// reported, by path, for a directory that cannot be read or a link that leads
/// nowhere.
pub struct Disk {
    pub folders: Seq<Folder>,
    pub root: nat,
    pub keep: spec_fn(Seq<nat>, nat) -> bool,
    pub failure: spec_fn(Seq<nat>) -> IoFailure,
}

/// An item a walk hands out: an entry, with its path, depth, and the directory
/// it leads to when it leads to one; or an error about the entry at a path.
pub enum Sight {
    Entry { path: Seq<nat>, depth: nat, folder: Option<nat> },
    Error { path: Seq<nat> },
}

/// The directory an entry leads to once links are followed.
pub open spec fn leads_to(c: Child) -> Option<nat> {
    match c {
        Child::Dir { id } => Some(id),
        Child::Link { target: Target::Dir { id } } => Some(id),
        _ => None,
    }
}

/// The key under which the directory numbered `id` is remembered.
pub open spec fn folder_key(id: nat) -> u128 {
    file_key(0, id as u64)
}

impl Disk {
    /// Every directory an entry names exists, and inode numbers fit in 64 bits.
    pub open spec fn wf(self) -> bool {
        &&& self.folders.len() <= u64::MAX
        &&& self.root < self.folders.len()
        &&& forall|i: int, j: int|
            0 <= i < self.folders.len() && 0 <= j < self.folders[i].children.len() ==> (
            #[trigger] leads_to(self.folders[i].children[j]) matches Some(id) ==> id
                < self.folders.len())
    }

    /// The metadata of an entry, following links; `None` when the link leads nowhere.
    pub open spec fn stat_of(self, c: Child) -> Option<StatInfo> {
        match c {
            Child::Link { target: Target::Missing } => None,
            _ => match leads_to(c) {
                Some(id) => Some(StatInfo { is_dir: true, dev: 0, ino: id as u64 }),
                None => Some(StatInfo { is_dir: false, dev: 0, ino: 0 }),
            },
        }
    }

    /// The number of entries in the directories whose identity is not in `visited`,
    /// among the first `n`.
    pub open spec fn load(self, visited: Set<u128>, n: nat) -> nat
        decreases n,
    {
        if n == 0 {
            0
        } else {
            let i = (n - 1) as nat;
            self.load(visited, i) + if visited.contains(folder_key(i)) {
                0
            } else {
                self.folders[i as int].children.len()
            }
        }
    }
}

/// An open directory as the driver sees it: the entries not read yet, the index
/// of the next one, and the directory's own path.
pub struct Stage {
    pub rest: Seq<Child>,
    pub index: nat,
    pub path: Seq<nat>,
}

/// What the driver holds: its open directories and the entry being examined.
pub struct Track {
    pub stages: Seq<Stage>,
    pub current: Child,
    pub current_path: Seq<nat>,
}

/// The number of entries not read yet in the open directories.
pub open spec fn unread(stages: Seq<Stage>) -> nat
    decreases stages.len(),
{
    if stages.len() == 0 {
        0
    } else {
        stages.last().rest.len() + unread(stages.drop_last())
    }
}

/// The items handed out from state `s`, which has just asked for `action`, when
/// every action is answered from `disk` and the user keeps asking for items; the
/// flag says whether the walk ended within `fuel` actions.
pub open spec fn trek(disk: Disk, s: WalkModel, action: Action, t: Track, fuel: nat) -> (Seq<Sight>, bool)
    decreases fuel,
{
    if fuel == 0 {
        (seq![], false)
    } else {
        let f = (fuel - 1) as nat;
        match action {
            Action::OpenRoot => {
                let root = disk.folders[disk.root as int];
                if root.readable {
                    let u = Track { stages: seq![Stage { rest: root.children, index: 0, path: seq![] }], ..t };
                    trek(disk, s.opened_step().0, s.opened_step().1, u, f)
                } else {
                    let failure = (disk.failure)(seq![]);
                    trek(disk, s.failed_step(failure).0, s.failed_step(failure).1, t, f)
                }
            },
            Action::StatRoot => {
                let info = StatInfo { is_dir: true, dev: 0, ino: disk.root as u64 };
                let path = arbitrary::<PathBuf>();
                trek(disk, s.stat_step(info, path).0, s.stat_step(info, path).1, t, f)
            },
            Action::ReadNext => {
                let top = t.stages.last();
                if top.rest.len() == 0 {
                    trek(disk, s.exhausted_step().0, s.exhausted_step().1, t, f)
                } else {
                    let u = Track {
                        stages: t.stages.update(
                            t.stages.len() - 1,
                            Stage { rest: top.rest.drop_first(), index: top.index + 1, ..top },
                        ),
                        current: top.rest[0],
                        current_path: top.path.push(top.index),
                    };
                    let is_dir = top.rest[0] is Dir;
                    trek(disk, s.found_step(is_dir).0, s.found_step(is_dir).1, u, f)
                }
            },
            Action::Filter { depth } => {
                let keep = (disk.keep)(t.current_path, depth as nat);
                trek(disk, s.filtered_step(keep).0, s.filtered_step(keep).1, t, f)
            },
            Action::StatCurrent => match disk.stat_of(t.current) {
                Some(info) => {
                    let path = arbitrary::<PathBuf>();
                    trek(disk, s.stat_step(info, path).0, s.stat_step(info, path).1, t, f)
                },
                None => {
                    let failure = (disk.failure)(t.current_path);
                    trek(disk, s.failed_step(failure).0, s.failed_step(failure).1, t, f)
                },
            },
            Action::OpenCurrent => {
                let id = leads_to(t.current)->0;
                let folder = disk.folders[id as int];
                if folder.readable {
                    let u = Track {
                        stages: t.stages.push(Stage { rest: folder.children, index: 0, path: t.current_path }),
                        ..t
                    };
                    trek(disk, s.opened_step().0, s.opened_step().1, u, f)
                } else {
                    let failure = (disk.failure)(t.current_path);
                    trek(disk, s.failed_step(failure).0, s.failed_step(failure).1, t, f)
                }
            },
            Action::CloseTop => {
                let u = Track { stages: t.stages.drop_last(), ..t };
                trek(disk, s.closed_step().0, s.closed_step().1, u, f)
            },
            Action::YieldRoot => {
                let later = trek(disk, s.resume_step().0, s.resume_step().1, t, f);
                (seq![Sight::Entry { path: seq![], depth: 0, folder: None }] + later.0, later.1)
            },
            Action::YieldCurrent { depth } => {
                let later = trek(disk, s.resume_step().0, s.resume_step().1, t, f);
                (
                    seq![Sight::Entry { path: t.current_path, depth: depth as nat, folder: leads_to(t.current) }]
                        + later.0,
                    later.1,
                )
            },
            Action::YieldError(_) => {
                let later = trek(disk, s.resume_step().0, s.resume_step().1, t, f);
                (seq![Sight::Error { path: t.current_path }] + later.0, later.1)
            },
            Action::Finish => (seq![], true),
        }
    }
}

/// A whole walk from the fresh state `s` over `disk`, starting at its root directory.
pub open spec fn tour(disk: Disk, s: WalkModel, fuel: nat) -> (Seq<Sight>, bool) {
    trek(
        disk,
        s.resume_step().0,
        s.resume_step().1,
        Track { stages: seq![], current: Child::Dir { id: disk.root }, current_path: seq![] },
        fuel,
    )
}

/// The entries among `items`, in order.
pub open spec fn entries(items: Seq<Sight>) -> Seq<Sight> {
    items.filter(|v: Sight| v is Entry)
}

/// The same walker, with errors ignored.
pub open spec fn quiet(s: WalkModel) -> WalkModel {
    WalkModel { ignore_errors: true, ..s }
}

/// Every directory an entry of `stages` names exists.
pub open spec fn stages_wf(disk: Disk, stages: Seq<Stage>) -> bool {
    forall|k: int, j: int|
        0 <= k < stages.len() && 0 <= j < stages[k].rest.len() ==> (#[trigger] leads_to(
            stages[k].rest[j],
        ) matches Some(id) ==> id < disk.folders.len())
}

/// The walker in `s` has asked for the next entry of the innermost directory; the
/// driver's open directories `t.stages` match the walker's.
pub open spec fn touring(disk: Disk, s: WalkModel, t: Track) -> bool {
    &&& disk.wf()
    &&& stages_wf(disk, t.stages)
    &&& s.phase == Phase::Reading
    &&& s.started
    &&& s.pending is None
    &&& s.follow_links
    &&& s.detect_loops
    &&& !s.ignore_errors
    &&& s.depths.len() == t.stages.len()
    &&& t.stages.len() > 0
    &&& forall|i: int| 0 <= i < s.depths.len() ==> #[trigger] s.depths[i] == i
}

/// What is left to do: entries to read, directories not entered yet, and open
/// directories to close.
pub open spec fn potential(disk: Disk, s: WalkModel, t: Track) -> nat {
    20 * (unread(t.stages) + disk.load(s.visited, disk.folders.len())) + 10 * t.stages.len()
}

proof fn lemma_folder_key(id: nat)
    requires
        id <= u64::MAX,
    ensures
        folder_key(id) as int == id,
{
}

proof fn lemma_load_other(disk: Disk, visited: Set<u128>, key: u128, n: nat)
    requires
        n <= disk.folders.len() <= u64::MAX,
        forall|j: nat| j < n ==> folder_key(j) != key,
    ensures
        disk.load(visited.insert(key), n) == disk.load(visited, n),
    decreases n,
{
    if n > 0 {
        lemma_load_other(disk, visited, key, (n - 1) as nat);
        assert(folder_key((n - 1) as nat) != key);
    }
}

proof fn lemma_load_insert(disk: Disk, visited: Set<u128>, id: nat, n: nat)
    requires
        id < n <= disk.folders.len() <= u64::MAX,
        !visited.contains(folder_key(id)),
    ensures
        disk.load(visited.insert(folder_key(id)), n) + disk.folders[id as int].children.len()
            == disk.load(visited, n),
    decreases n,
{
    let i = (n - 1) as nat;
    lemma_folder_key(id);
    if i == id {
        assert forall|j: nat| j < i implies folder_key(j) != folder_key(id) by {
            lemma_folder_key(j);
        }
        lemma_load_other(disk, visited, folder_key(id), i);
    } else {
        lemma_load_insert(disk, visited, id, i);
        lemma_folder_key(i);
        assert(folder_key(i) != folder_key(id));
    }
}

proof fn lemma_entries_one(v: Sight)
    ensures
        entries(seq![v]) == (if v is Entry { seq![v] } else { Seq::<Sight>::empty() }),
{
    reveal_with_fuel(Seq::filter, 2);
    assert(seq![v].drop_last() =~= Seq::<Sight>::empty());
}

proof fn lemma_entries_sum(a: Seq<Sight>, b: Seq<Sight>)
    ensures
        entries(a + b) == entries(a) + entries(b),
{
    Seq::filter_distributes_over_add(a, b, |v: Sight| v is Entry);
}

proof fn lemma_read_on(s: WalkModel)
    requires
        s.phase == Phase::Ready,
        s.started,
        s.pending is None,
        s.depths.len() > 0,
    ensures
        s.resume_step() == s.next_entry(),
{
}

/// The directory an item hands out, if it hands one out.
pub open spec fn dir_of(v: Sight) -> Option<nat> {
    match v {
        Sight::Entry { folder, .. } => folder,
        Sight::Error { .. } => None,
    }
}

/// Every directory `items` hands out is outside `visited`, and none is handed
/// out twice.
pub open spec fn dirs_fresh(items: Seq<Sight>, visited: Set<u128>) -> bool {
    &&& forall|i: int| #![trigger items[i]]
        0 <= i < items.len() && dir_of(items[i]) is Some ==> !visited.contains(
            folder_key(dir_of(items[i])->0),
        )
    &&& forall|i: int, j: int| #![trigger items[i], items[j]]
        0 <= i < j < items.len() && dir_of(items[i]) is Some ==> dir_of(items[i]) != dir_of(items[j])
}

/// The state in which the walker, having read the entry `c` at the depth of
/// `t`'s innermost open directory plus one, starts to examine it.
pub open spec fn examining(s: WalkModel, t: Track) -> WalkModel {
    WalkModel {
        current_depth: t.stages.len() as usize,
        current_is_dir: t.current is Dir,
        current_key: None,
        ..s
    }
}

#[verifier::rlimit(100)]
proof fn lemma_sighted(disk: Disk, s: WalkModel, t: Track, fl: nat, fq: nat)
    requires
        touring(disk, s, t),
        leads_to(t.current) matches Some(id) ==> id < disk.folders.len(),
        t.stages.len() <= s.max_depth,
        fl >= potential(disk, s, t) + 19,
        fq >= potential(disk, s, t) + 19,
    ensures
        trek(disk, examining(s, t).classify().0, examining(s, t).classify().1, t, fl).1,
        trek(disk, examining(quiet(s), t).classify().0, examining(quiet(s), t).classify().1, t, fq).1,
        entries(trek(disk, examining(s, t).classify().0, examining(s, t).classify().1, t, fl).0)
            == trek(disk, examining(quiet(s), t).classify().0, examining(quiet(s), t).classify().1, t, fq).0,
        dirs_fresh(trek(disk, examining(s, t).classify().0, examining(s, t).classify().1, t, fl).0, s.visited),
    decreases potential(disk, s, t) + 15,
{
    let n = disk.folders.len();
    let len = t.stages.len();
    let c = t.current;
    let here = t.current_path;
    let sc = examining(s, t);
    let qc = examining(quiet(s), t);
    assert(qc == quiet(sc));
    let scl = sc.in_phase(Phase::Classifying);
    let qcl = qc.in_phase(Phase::Classifying);
    assert(sc.classify() == (scl, Action::StatCurrent));
    assert(qc.classify() == (qcl, Action::StatCurrent));
    let f1 = (fl - 1) as nat;
    let g1 = (fq - 1) as nat;
    let entry = Sight::Entry { path: here, depth: len as nat, folder: leads_to(c) };
    lemma_entries_one(entry);
    match disk.stat_of(c) {
        None => {
            let failure = (disk.failure)(here);
            let (s2, a2) = scl.failed_step(failure);
            let (q2, b2) = qcl.failed_step(failure);
            assert(trek(disk, scl, Action::StatCurrent, t, fl) == trek(disk, s2, a2, t, f1));
            assert(trek(disk, qcl, Action::StatCurrent, t, fq) == trek(disk, q2, b2, t, g1));
            let sn = scl.in_phase(Phase::Reading);
            assert(q2 == quiet(sn) && b2 == Action::ReadNext);
            assert(touring(disk, sn, t));
            lemma_touring(disk, sn, t, f1, g1);
            if !scl.ignores(failure) {
                lemma_read_on(s2);
                let err = Sight::Error { path: here };
                lemma_entries_one(err);
                assert(trek(disk, s2, a2, t, f1).0 == seq![err] + trek(disk, sn, Action::ReadNext, t, (f1 - 1) as nat).0);
                lemma_touring(disk, sn, t, (f1 - 1) as nat, g1);
                lemma_entries_sum(seq![err], trek(disk, sn, Action::ReadNext, t, (f1 - 1) as nat).0);
                assert(seq![err].filter(|v: Sight| v is Entry) =~= Seq::<Sight>::empty());
            }
        },
        Some(info) => {
            let path = arbitrary::<PathBuf>();
            let (s2, a2) = scl.stat_step(info, path);
            let (q2, b2) = qcl.stat_step(info, path);
            assert(trek(disk, scl, Action::StatCurrent, t, fl) == trek(disk, s2, a2, t, f1));
            assert(trek(disk, qcl, Action::StatCurrent, t, fq) == trek(disk, q2, b2, t, g1));
            assert((s2, a2) == scl.decide(info.is_dir));
            if !info.is_dir {
                let sy = scl.in_phase(Phase::Ready);
                assert(s2 == sy && a2 == (Action::YieldCurrent { depth: len as usize }));
                assert(q2 == quiet(sy) && b2 == a2);
                let sn = sy.next_entry().0;
                lemma_read_on(sy);
                lemma_read_on(quiet(sy));
                assert(trek(disk, s2, a2, t, f1).0 == seq![entry] + trek(disk, sn, Action::ReadNext, t, (f1 - 1) as nat).0);
                assert(trek(disk, q2, b2, t, g1).0 == seq![entry] + trek(disk, quiet(sn), Action::ReadNext, t, (g1 - 1) as nat).0);
                assert(touring(disk, sn, t));
                lemma_touring(disk, sn, t, (f1 - 1) as nat, (g1 - 1) as nat);
                lemma_entries_sum(seq![entry], trek(disk, sn, Action::ReadNext, t, (f1 - 1) as nat).0);
            } else {
                let id = leads_to(c)->0;
                let si = scl.in_phase(Phase::Identifying);
                assert(s2 == si && a2 == Action::StatCurrent);
                assert(q2 == quiet(si) && b2 == a2);
                let f2 = (f1 - 1) as nat;
                let g2 = (g1 - 1) as nat;
                let (s3, a3) = si.stat_step(info, path);
                let (q3, b3) = quiet(si).stat_step(info, path);
                assert(trek(disk, si, Action::StatCurrent, t, f1) == trek(disk, s3, a3, t, f2));
                assert(trek(disk, quiet(si), Action::StatCurrent, t, g1) == trek(disk, q3, b3, t, g2));
                let key = folder_key(id);
                assert(file_key(info.dev, info.ino) == key);
                if si.visited.contains(key) {
                    let sn = si.next_entry().0;
                    assert(q3 == quiet(sn) && b3 == Action::ReadNext);
                    let sy = si.in_phase(Phase::Ready);
                    assert(s3 == sy);
                    lemma_read_on(sy);
                    let err = Sight::Error { path: here };
                    lemma_entries_one(err);
                    assert(trek(disk, s3, a3, t, f2).0 == seq![err] + trek(disk, sn, Action::ReadNext, t, (f2 - 1) as nat).0);
                    assert(touring(disk, sn, t));
                    lemma_touring(disk, sn, t, (f2 - 1) as nat, g2);
                    lemma_entries_sum(seq![err], trek(disk, sn, Action::ReadNext, t, (f2 - 1) as nat).0);
                } else {
                    let sk = WalkModel { visited: si.visited.insert(key), current_key: Some(key), ..si };
                    assert(s3 == sk.descend().0 && a3 == sk.descend().1);
                    assert(q3 == quiet(sk).descend().0 && b3 == quiet(sk).descend().1);
                    lemma_load_insert(disk, si.visited, id, n);
                    if len < s.max_depth {
                        let sd = sk.in_phase(Phase::Descending);
                        assert(s3 == sd && a3 == Action::OpenCurrent);
                        let folder = disk.folders[id as int];
                        let f3 = (f2 - 1) as nat;
                        let g3 = (g2 - 1) as nat;
                        if folder.readable {
                            let u = Track {
                                stages: t.stages.push(Stage { rest: folder.children, index: 0, path: here }),
                                ..t
                            };
                            let (s4, a4) = sd.opened_step();
                            assert(trek(disk, sd, Action::OpenCurrent, t, f2) == trek(disk, s4, a4, u, f3));
                            assert(trek(disk, quiet(sd), Action::OpenCurrent, t, g2) == trek(
                                disk,
                                quiet(s4),
                                a4,
                                u,
                                g3,
                            ));
                            let sn = s4.next_entry().0;
                            lemma_read_on(s4);
                            lemma_read_on(quiet(s4));
                            assert(trek(disk, s4, a4, u, f3).0 == seq![entry] + trek(disk, sn, Action::ReadNext, u, (f3 - 1) as nat).0);
                            assert(trek(disk, quiet(s4), a4, u, g3).0 == seq![entry] + trek(disk, quiet(sn), Action::ReadNext, u, (g3 - 1) as nat).0);
                            assert(u.stages.drop_last() =~= t.stages);
                            assert(unread(u.stages) == folder.children.len() + unread(t.stages));
                            assert(stages_wf(disk, u.stages)) by {
                                assert forall|k: int, j: int|
                                    0 <= k < u.stages.len() && 0 <= j < u.stages[k].rest.len() implies (#[trigger] leads_to(
                                    u.stages[k].rest[j]) matches Some(x) ==> x < n) by {
                                    if k == t.stages.len() {
                                        assert(leads_to(disk.folders[id as int].children[j]) matches Some(x) ==> x < n);
                                    }
                                }
                            }
                            assert(touring(disk, sn, u));
                            lemma_touring(disk, sn, u, (f3 - 1) as nat, (g3 - 1) as nat);
                            lemma_entries_sum(seq![entry], trek(disk, sn, Action::ReadNext, u, (f3 - 1) as nat).0);
                        } else {
                            let failure = (disk.failure)(here);
                            let (s4, a4) = sd.failed_step(failure);
                            assert(trek(disk, sd, Action::OpenCurrent, t, f2) == trek(disk, s4, a4, t, f3));
                            assert(trek(disk, quiet(sd), Action::OpenCurrent, t, g2) == trek(
                                disk,
                                quiet(s4),
                                a4,
                                t,
                                g3,
                            ));
                            let (s5, a5) = s4.resume_step();
                            let (q5, b5) = quiet(s4).resume_step();
                            assert(trek(disk, s4, a4, t, f3).0 == seq![entry] + trek(disk, s5, a5, t, (f3 - 1) as nat).0);
                            assert(trek(disk, quiet(s4), a4, t, g3).0 == seq![entry] + trek(disk, q5, b5, t, (g3 - 1) as nat).0);
                            let sn = WalkModel { pending: None, ..s4 }.next_entry().0;
                            assert(q5 == quiet(sn) && b5 == Action::ReadNext);
                            assert(touring(disk, sn, t));
                            if s4.ignores(failure) {
                                assert(s5 == sn && a5 == Action::ReadNext);
                                lemma_touring(disk, sn, t, (f3 - 1) as nat, (g3 - 1) as nat);
                                lemma_entries_sum(seq![entry], trek(disk, sn, Action::ReadNext, t, (f3 - 1) as nat).0);
                            } else {
                                let err = Sight::Error { path: here };
                                lemma_entries_one(err);
                                lemma_read_on(s5);
                                assert(s5.next_entry().0 == sn);
                                let rest = trek(disk, sn, Action::ReadNext, t, (f3 - 2) as nat).0;
                                assert(trek(disk, s5, a5, t, (f3 - 1) as nat).0 == seq![err] + rest);
                                lemma_touring(disk, sn, t, (f3 - 2) as nat, (g3 - 1) as nat);
                                lemma_entries_sum(seq![entry], seq![err] + rest);
                                lemma_entries_sum(seq![err], rest);
                                assert(seq![entry] + (Seq::<Sight>::empty() + entries(rest)) =~= seq![entry] + entries(rest));
                            }
                        }
                    } else {
                        let sy = sk.in_phase(Phase::Ready);
                        assert(s3 == sy && a3 == (Action::YieldCurrent { depth: len as usize }));
                        let sn = sy.next_entry().0;
                        lemma_read_on(sy);
                        lemma_read_on(quiet(sy));
                        assert(trek(disk, s3, a3, t, f2).0 == seq![entry] + trek(disk, sn, Action::ReadNext, t, (f2 - 1) as nat).0);
                        assert(trek(disk, q3, b3, t, g2).0 == seq![entry] + trek(disk, quiet(sn), Action::ReadNext, t, (g2 - 1) as nat).0);
                        assert(touring(disk, sn, t));
                        lemma_touring(disk, sn, t, (f2 - 1) as nat, (g2 - 1) as nat);
                        lemma_entries_sum(seq![entry], trek(disk, sn, Action::ReadNext, t, (f2 - 1) as nat).0);
                    }
                }
            }
        },
    }
}

#[verifier::rlimit(100)]
proof fn lemma_touring(disk: Disk, s: WalkModel, t: Track, fl: nat, fq: nat)
    requires
        touring(disk, s, t),
        fl >= potential(disk, s, t) + 3,
        fq >= potential(disk, s, t) + 3,
    ensures
        trek(disk, s, Action::ReadNext, t, fl).1,
        trek(disk, quiet(s), Action::ReadNext, t, fq).1,
        entries(trek(disk, s, Action::ReadNext, t, fl).0) == trek(disk, quiet(s), Action::ReadNext, t, fq).0,
        dirs_fresh(trek(disk, s, Action::ReadNext, t, fl).0, s.visited),
    decreases potential(disk, s, t),
{
    let n = disk.folders.len();
    let len = t.stages.len();
    let top = t.stages.last();
    let sq = quiet(s);
    let f1 = (fl - 1) as nat;
    let g1 = (fq - 1) as nat;
    assert(s.depths.last() == len - 1);
    if top.rest.len() == 0 {
        let u = Track { stages: t.stages.drop_last(), ..t };
        let (s1, a1) = s.exhausted_step();
        let (s2, a2) = s1.closed_step();
        assert(sq.exhausted_step().0 == quiet(s1));
        assert(quiet(s1).closed_step() == (quiet(s2), a2));
        assert(trek(disk, s, Action::ReadNext, t, fl) == trek(disk, s1, a1, t, f1));
        assert(trek(disk, s1, a1, t, f1) == trek(disk, s2, a2, u, (f1 - 1) as nat));
        assert(trek(disk, sq, Action::ReadNext, t, fq) == trek(disk, quiet(s1), a1, t, g1));
        assert(trek(disk, quiet(s1), a1, t, g1) == trek(disk, quiet(s2), a2, u, (g1 - 1) as nat));
        if len == 1 {
            assert(a2 == Action::Finish);
            reveal_with_fuel(Seq::filter, 1);
            assert(entries(Seq::<Sight>::empty()) =~= Seq::<Sight>::empty());
        } else {
            assert(unread(t.stages) == unread(u.stages));
            assert(stages_wf(disk, u.stages)) by {
                assert forall|k: int, j: int|
                    0 <= k < u.stages.len() && 0 <= j < u.stages[k].rest.len() implies (#[trigger] leads_to(
                    u.stages[k].rest[j]) matches Some(x) ==> x < n) by {
                    assert(u.stages[k] == t.stages[k]);
                }
            }
            assert(touring(disk, s2, u));
            lemma_touring(disk, s2, u, (f1 - 1) as nat, (g1 - 1) as nat);
        }
    } else {
        let c = top.rest[0];
        let u = Track {
            stages: t.stages.update(len - 1, Stage { rest: top.rest.drop_first(), index: top.index + 1, ..top }),
            current: c,
            current_path: top.path.push(top.index),
        };
        let is_dir = c is Dir;
        assert(leads_to(top.rest[0]) matches Some(x) ==> x < n);
        assert(u.stages.drop_last() =~= t.stages.drop_last());
        assert(unread(u.stages) + 1 == unread(t.stages));
        assert(stages_wf(disk, u.stages)) by {
            assert forall|k: int, j: int|
                0 <= k < u.stages.len() && 0 <= j < u.stages[k].rest.len() implies (#[trigger] leads_to(
                u.stages[k].rest[j]) matches Some(x) ==> x < n) by {
                if k == len - 1 {
                    assert(u.stages[k].rest[j] == t.stages[k].rest[j + 1]);
                } else {
                    assert(u.stages[k] == t.stages[k]);
                }
            }
        }
        let (s1, a1) = s.found_step(is_dir);
        let (q1, b1) = sq.found_step(is_dir);
        assert(trek(disk, s, Action::ReadNext, t, fl) == trek(disk, s1, a1, u, f1));
        assert(trek(disk, sq, Action::ReadNext, t, fq) == trek(disk, q1, b1, u, g1));
        let depth = len as nat;
        if depth > s.max_depth {
            assert(s1 == s && q1 == sq && a1 == Action::ReadNext && b1 == a1);
            assert(touring(disk, s, u));
            lemma_touring(disk, s, u, f1, g1);
        } else {
            let sc = examining(s, u);
            let qc = examining(sq, u);
            assert(touring(disk, s, u));
            if s.has_filter {
                let keep = (disk.keep)(u.current_path, depth);
                let sf = sc.in_phase(Phase::Filtering);
                assert(s1 == sf && a1 == (Action::Filter { depth: len as usize }));
                assert(q1 == quiet(sf) && b1 == a1);
                assert(trek(disk, s1, a1, u, f1) == trek(disk, sf.filtered_step(keep).0, sf.filtered_step(keep).1, u, (f1 - 1) as nat));
                assert(trek(disk, q1, b1, u, g1) == trek(disk, quiet(sf).filtered_step(keep).0, quiet(sf).filtered_step(keep).1, u, (g1 - 1) as nat));
                if !keep {
                    let sn = sf.next_entry().0;
                    assert(quiet(sf).next_entry().0 == quiet(sn));
                    assert(touring(disk, sn, u));
                    lemma_touring(disk, sn, u, (f1 - 1) as nat, (g1 - 1) as nat);
                } else {
                    assert(sf.filtered_step(keep) == sc.classify());
                    assert(quiet(sf).filtered_step(keep) == qc.classify());
                    lemma_sighted(disk, s, u, (f1 - 1) as nat, (g1 - 1) as nat);
                }
            } else {
                assert(s1 == sc.classify().0 && a1 == sc.classify().1);
                assert(q1 == qc.classify().0 && b1 == qc.classify().1);
                lemma_sighted(disk, s, u, f1, g1);
            }
        }
    }
}

/// The number of actions within which a walk over `disk` ends.
pub open spec fn bound(disk: Disk) -> nat {
    20 * disk.load(Set::empty(), disk.folders.len()) + 15
}

/// A walk that follows symbolic links with loop detection on, over a finite
/// filesystem that does not change, ends within `bound(disk)` actions, whatever
/// cycles the links close, whatever the depth limit, filter and error settings.
/// The same walk with errors ignored ends as well and hands out exactly the
/// entries of the first, in the same order, and no error. No directory is handed
/// out twice, and the root is not handed out at all.
pub proof fn lemma_followed_walk_ends(disk: Disk, s: WalkModel, fl: nat, fq: nat)
    requires
        disk.wf(),
        s.wf(),
        !s.started,
        s.follow_links,
        s.detect_loops,
        !s.ignore_errors,
        !s.root_is_file,
        fl >= bound(disk),
        fq >= bound(disk),
    ensures
        tour(disk, s, fl).1,
        tour(disk, quiet(s), fq).1,
        entries(tour(disk, s, fl).0) == tour(disk, quiet(s), fq).0,
        entries(tour(disk, quiet(s), fq).0) == tour(disk, quiet(s), fq).0,
        dirs_fresh(tour(disk, s, fl).0, Set::empty().insert(folder_key(disk.root))),
{
    let n = disk.folders.len();
    let t = Track { stages: seq![], current: Child::Dir { id: disk.root }, current_path: seq![] };
    let (s1, a1) = s.resume_step();
    let (q1, b1) = quiet(s).resume_step();
    assert(a1 == Action::OpenRoot && q1 == quiet(s1) && b1 == a1);
    let root = disk.folders[disk.root as int];
    assert(s.visited =~= Set::<u128>::empty());
    if root.readable {
        let u = Track { stages: seq![Stage { rest: root.children, index: 0, path: seq![] }], ..t };
        let (s2, a2) = s1.opened_step();
        assert(a2 == Action::StatRoot);
        let info = StatInfo { is_dir: true, dev: 0, ino: disk.root as u64 };
        let path = arbitrary::<PathBuf>();
        let (s3, a3) = s2.stat_step(info, path);
        assert(quiet(s1).opened_step() == (quiet(s2), a2));
        assert(quiet(s2).stat_step(info, path) == (quiet(s3), a3));
        assert(trek(disk, s1, a1, t, fl) == trek(disk, s2, a2, u, (fl - 1) as nat));
        assert(trek(disk, s2, a2, u, (fl - 1) as nat) == trek(disk, s3, a3, u, (fl - 2) as nat));
        assert(trek(disk, quiet(s1), a1, t, fq) == trek(disk, quiet(s2), a2, u, (fq - 1) as nat));
        assert(trek(disk, quiet(s2), a2, u, (fq - 1) as nat) == trek(disk, quiet(s3), a3, u, (fq - 2) as nat));
        assert(file_key(info.dev, info.ino) == folder_key(disk.root));
        lemma_load_insert(disk, Set::<u128>::empty(), disk.root, n);
        assert(u.stages.drop_last() =~= Seq::<Stage>::empty());
        assert(unread(Seq::<Stage>::empty()) == 0);
        assert(unread(u.stages) == root.children.len());
        assert(stages_wf(disk, u.stages)) by {
            assert forall|k: int, j: int|
                0 <= k < u.stages.len() && 0 <= j < u.stages[k].rest.len() implies (#[trigger] leads_to(
                u.stages[k].rest[j]) matches Some(x) ==> x < n) by {
                assert(leads_to(disk.folders[disk.root as int].children[j]) matches Some(x) ==> x < n);
            }
        }
        assert(touring(disk, s3, u));
        lemma_touring(disk, s3, u, (fl - 2) as nat, (fq - 2) as nat);
        lemma_entries_idempotent(trek(disk, s3, Action::ReadNext, u, (fl - 2) as nat).0);
    } else {
        let failure = (disk.failure)(seq![]);
        let (s2, a2) = s1.failed_step(failure);
        let (q2, b2) = quiet(s1).failed_step(failure);
        assert(b2 == Action::Finish);
        assert(trek(disk, q2, b2, t, (fq - 1) as nat) == (Seq::<Sight>::empty(), true));
        if s1.ignores(failure) {
            assert(a2 == Action::Finish);
            assert(trek(disk, s2, a2, t, (fl - 1) as nat) == (Seq::<Sight>::empty(), true));
        }
        assert(trek(disk, s1, a1, t, fl) == trek(disk, s2, a2, t, (fl - 1) as nat));
        assert(trek(disk, quiet(s1), a1, t, fq) == trek(disk, q2, b2, t, (fq - 1) as nat));
        reveal_with_fuel(Seq::filter, 2);
        if !s1.ignores(failure) {
            let (s3, a3) = s2.resume_step();
            assert(a3 == Action::Finish);
            let err = Sight::Error { path: seq![] };
            assert(trek(disk, s3, a3, t, (fl - 2) as nat) == (Seq::<Sight>::empty(), true));
            assert(trek(disk, s2, a2, t, (fl - 1) as nat) == (seq![err] + Seq::<Sight>::empty(), true));
            lemma_entries_one(err);
            assert(seq![err] + Seq::<Sight>::empty() =~= seq![err]);
        }
        assert(entries(Seq::<Sight>::empty()) =~= Seq::<Sight>::empty());
    }
}

proof fn lemma_entries_idempotent(items: Seq<Sight>)
    ensures
        entries(entries(items)) == entries(items),
    decreases items.len(),
{
    reveal_with_fuel(Seq::filter, 1);
    if items.len() > 0 {
        lemma_entries_idempotent(items.drop_last());
        let last = items.last();
        let before = entries(items.drop_last());
        if last is Entry {
            assert(entries(items) == before.push(last));
            lemma_entries_sum(before, seq![last]);
            lemma_entries_one(last);
            assert(before.push(last) =~= before + seq![last]);
        }
    }
}

} // verus!
