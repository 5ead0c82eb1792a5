//! Whole walks over a model of a directory tree.
//!
//! A [`Tree`] is a finite directory tree as `lstat` sees it: files, symbolic
//! links and directories, some of which may refuse to be read. [`drive`] answers
//! every [`Action`] of a walk from such a tree, the way a driver answers it from
//! a real filesystem that does not change during the walk, and collects what the
//! walk hands out. The laws below state, for walks that do not follow links,
//! exactly what a whole walk hands out and that it ends.

use std::path::PathBuf;
use vstd::prelude::*;

use crate::error::{IoFailure, WalkError};
use crate::walker::{Action, Phase, StatInfo, WalkModel};

verus! {

/// A node of a directory tree, as seen without following links.
pub enum Tree {
    File,
    Link,
    Dir { readable: bool, children: Seq<Tree> },
}

/// An item a walk hands out: an entry with its path (child indices from the
/// root) and depth, or an error about the node at a path.
pub enum Visit {
    Entry { path: Seq<nat>, depth: nat },
    Error { path: Seq<nat> },
}

/// What decides the items of a walk.
pub struct Rules {
    /// The deepest level an entry may have.
    pub max_depth: nat,
    /// Whether a filter judges entries.
    pub has_filter: bool,
    /// The filter's verdict on an entry, by path and depth.
    pub keep: spec_fn(Seq<nat>, nat) -> bool,
    /// Whether I/O failures are ignored.
    pub ignore_errors: bool,
    /// Whether failures that deny access are ignored.
    pub ignore_permission_denied: bool,
    /// The failure reported when the directory at a path cannot be read.
    pub failure: spec_fn(Seq<nat>) -> IoFailure,
}

impl Rules {
    pub open spec fn keeps(self, path: Seq<nat>, depth: nat) -> bool {
        !self.has_filter || (self.keep)(path, depth)
    }

    /// Whether the failure to read the directory at `path` is reported.
    pub open spec fn reports(self, path: Seq<nat>) -> bool {
        !(self.ignore_errors || (self.ignore_permission_denied
            && crate::error::io_error_denies_access((self.failure)(path).error)))
    }

    pub open spec fn silent(self) -> Rules {
        Rules { ignore_errors: true, ..self }
    }
}

/// The items of the nodes `nodes`, siblings at `depth` whose first has index
/// `first` below the directory at `parent`, in depth-first pre-order: each kept
/// entry within the depth limit, then, for a directory below the limit, its own
/// items or, when it cannot be read and that is reported, an error.
pub open spec fn forest(nodes: Seq<Tree>, parent: Seq<nat>, first: nat, depth: nat, rules: Rules) -> Seq<
    Visit,
>
    decreases nodes,
{
    if nodes.len() == 0 {
        seq![]
    } else {
        let here = parent.push(first);
        let rest = forest(nodes.drop_first(), parent, first + 1, depth, rules);
        if depth > rules.max_depth || !rules.keeps(here, depth) {
            rest
        } else {
            let entry = seq![Visit::Entry { path: here, depth }];
            match nodes[0] {
                Tree::Dir { readable, children } => {
                    if depth < rules.max_depth {
                        if readable {
                            entry + forest(children, here, 0, depth + 1, rules) + rest
                        } else if rules.reports(here) {
                            entry + seq![Visit::Error { path: here }] + rest
                        } else {
                            entry + rest
                        }
                    } else {
                        entry + rest
                    }
                },
                _ => entry + rest,
            }
        }
    }
}

/// The items of a whole walk from `root`: a file root is handed out itself;
/// a directory root is not, only what lies below it.
pub open spec fn listing(root: Tree, rules: Rules) -> Seq<Visit> {
    match root {
        Tree::Dir { readable, children } => {
            if readable {
                forest(children, seq![], 0, 1, rules)
            } else if rules.reports(seq![]) {
                seq![Visit::Error { path: seq![] }]
            } else {
                seq![]
            }
        },
        _ => seq![Visit::Entry { path: seq![], depth: 0 }],
    }
}

/// The number of nodes in `nodes` and below.
pub open spec fn forest_size(nodes: Seq<Tree>) -> nat
    decreases nodes,
{
    if nodes.len() == 0 {
        0
    } else {
        let below = match nodes[0] {
            Tree::Dir { children, .. } => forest_size(children),
            _ => 0,
        };
        1 + below + forest_size(nodes.drop_first())
    }
}

/// An open directory as the driver sees it: the children not read yet, the
/// index of the next one, and the directory's own path.
pub struct Level {
    pub rest: Seq<Tree>,
    pub index: nat,
    pub path: Seq<nat>,
}

/// What the driver holds: its open directories, outermost first, and the entry
/// being examined.
pub struct Probe {
    pub levels: Seq<Level>,
    pub current: Tree,
    pub current_path: Seq<nat>,
}

/// The world a walk runs in: the tree, the filter, and the failure the system
/// reports, by path, when a directory cannot be read.
pub struct Scene {
    pub root: Tree,
    pub keep: spec_fn(Seq<nat>, nat) -> bool,
    pub failure: spec_fn(Seq<nat>) -> IoFailure,
}

/// The metadata the driver reports for the root.
pub open spec fn root_info() -> StatInfo {
    StatInfo { is_dir: true, dev: 0, ino: 0 }
}

/// The items handed out from state `s`, which has just asked for `action`, when
/// every action is answered from `scene` and the user keeps asking for items;
/// the flag says whether the walk ended within `fuel` actions.
pub open spec fn drive(scene: Scene, s: WalkModel, action: Action, p: Probe, fuel: nat) -> (Seq<Visit>, bool)
    decreases fuel,
{
    if fuel == 0 {
        (seq![], false)
    } else {
        let f = (fuel - 1) as nat;
        match action {
            Action::OpenRoot => match scene.root {
                Tree::Dir { readable: true, children } => {
                    let q = Probe {
                        levels: seq![Level { rest: children, index: 0, path: seq![] }],
                        ..p
                    };
                    drive(scene, s.opened_step().0, s.opened_step().1, q, f)
                },
                _ => drive(scene, s.failed_step((scene.failure)(seq![])).0, s.failed_step((scene.failure)(seq![])).1, p, f),
            },
            Action::StatRoot => drive(
                scene,
                s.stat_step(root_info(), arbitrary::<PathBuf>()).0,
                s.stat_step(root_info(), arbitrary::<PathBuf>()).1,
                p,
                f,
            ),
            Action::ReadNext => {
                let top = p.levels.last();
                if top.rest.len() == 0 {
                    drive(scene, s.exhausted_step().0, s.exhausted_step().1, p, f)
                } else {
                    let q = Probe {
                        levels: p.levels.update(
                            p.levels.len() - 1,
                            Level { rest: top.rest.drop_first(), index: top.index + 1, ..top },
                        ),
                        current: top.rest[0],
                        current_path: top.path.push(top.index),
                    };
                    let is_dir = top.rest[0] is Dir;
                    drive(scene, s.found_step(is_dir).0, s.found_step(is_dir).1, q, f)
                }
            },
            Action::Filter { depth } => {
                let keep = (scene.keep)(p.current_path, depth as nat);
                drive(scene, s.filtered_step(keep).0, s.filtered_step(keep).1, p, f)
            },
            Action::OpenCurrent => match p.current {
                Tree::Dir { readable: true, children } => {
                    let q = Probe {
                        levels: p.levels.push(Level { rest: children, index: 0, path: p.current_path }),
                        ..p
                    };
                    drive(scene, s.opened_step().0, s.opened_step().1, q, f)
                },
                _ => drive(scene, s.failed_step((scene.failure)(p.current_path)).0, s.failed_step((scene.failure)(p.current_path)).1, p, f),
            },
            Action::CloseTop => {
                let q = Probe { levels: p.levels.drop_last(), ..p };
                drive(scene, s.closed_step().0, s.closed_step().1, q, f)
            },
            Action::YieldRoot => {
                let later = drive(scene, s.resume_step().0, s.resume_step().1, p, f);
                (seq![Visit::Entry { path: seq![], depth: 0 }] + later.0, later.1)
            },
            Action::YieldCurrent { depth } => {
                let later = drive(scene, s.resume_step().0, s.resume_step().1, p, f);
                (seq![Visit::Entry { path: p.current_path, depth: depth as nat }] + later.0, later.1)
            },
            Action::YieldError(_) => {
                let later = drive(scene, s.resume_step().0, s.resume_step().1, p, f);
                (seq![Visit::Error { path: p.current_path }] + later.0, later.1)
            },
            Action::Finish => (seq![], true),
            // Entries are never stat'ed when links are not followed.
            Action::StatCurrent => (seq![], false),
        }
    }
}

/// A whole walk from the fresh state `s`: the user asks for the first item.
pub open spec fn run(scene: Scene, s: WalkModel, fuel: nat) -> (Seq<Visit>, bool) {
    drive(
        scene,
        s.resume_step().0,
        s.resume_step().1,
        Probe { levels: seq![], current: scene.root, current_path: seq![] },
        fuel,
    )
}

/// The rules a walker in state `s` follows in `scene`.
pub open spec fn rules_of(scene: Scene, s: WalkModel) -> Rules {
    Rules {
        max_depth: s.max_depth as nat,
        has_filter: s.has_filter,
        keep: scene.keep,
        ignore_errors: s.ignore_errors,
        ignore_permission_denied: s.ignore_permission_denied,
        failure: scene.failure,
    }
}

/// The items still to come from the open directories `levels`: the rest of the
/// innermost first, then the rest of each enclosing one.
pub open spec fn remaining(levels: Seq<Level>, rules: Rules) -> Seq<Visit>
    decreases levels.len(),
{
    if levels.len() == 0 {
        seq![]
    } else {
        let top = levels.last();
        forest(top.rest, top.path, top.index, levels.len() as nat, rules) + remaining(
            levels.drop_last(),
            rules,
        )
    }
}

/// The number of nodes not read yet in the open directories `levels`.
pub open spec fn unread(levels: Seq<Level>) -> nat
    decreases levels.len(),
{
    if levels.len() == 0 {
        0
    } else {
        forest_size(levels.last().rest) + unread(levels.drop_last())
    }
}

/// The walker in `s` has asked for the next entry of the innermost directory,
/// and the driver's open directories `p.levels` match the walker's.
pub open spec fn reading(scene: Scene, s: WalkModel, p: Probe) -> bool {
    &&& s.phase == Phase::Reading
    &&& s.started
    &&& s.pending is None
    &&& !s.follow_links
    &&& s.depths.len() == p.levels.len()
    &&& p.levels.len() > 0
    &&& forall|i: int| 0 <= i < s.depths.len() ==> #[trigger] s.depths[i] == i
}

proof fn lemma_handed_out_then_read_on(s: WalkModel)
    requires
        s.phase == Phase::Ready,
        s.started,
        s.pending is None,
        s.depths.len() > 0,
    ensures
        s.resume_step() == s.next_entry(),
{
}

/// The items of the node `node` itself at `here` and `depth`, kept and within
/// the depth limit: its entry, then what lies below it or the error about it.
pub open spec fn node_items(node: Tree, here: Seq<nat>, depth: nat, rules: Rules) -> Seq<Visit> {
    let entry = seq![Visit::Entry { path: here, depth }];
    match node {
        Tree::Dir { readable, children } => {
            if depth < rules.max_depth {
                if readable {
                    entry + forest(children, here, 0, depth + 1, rules)
                } else if rules.reports(here) {
                    entry + seq![Visit::Error { path: here }]
                } else {
                    entry
                }
            } else {
                entry
            }
        },
        _ => entry,
    }
}

pub open spec fn below(node: Tree) -> nat {
    match node {
        Tree::Dir { children, .. } => forest_size(children),
        _ => 0,
    }
}

#[verifier::rlimit(40)]
proof fn lemma_examined(scene: Scene, s: WalkModel, sc: WalkModel, q: Probe, g: nat)
    requires
        reading(scene, s, q),
        sc == (WalkModel {
            current_depth: q.levels.len() as usize,
            current_is_dir: q.current is Dir,
            current_key: None,
            ..s
        }),
        q.levels.len() <= s.max_depth,
        g >= 20 * unread(q.levels) + 20 * below(q.current) + 10 * q.levels.len() + 15,
    ensures
        drive(scene, sc.classify().0, sc.classify().1, q, g) == (
            node_items(q.current, q.current_path, q.levels.len() as nat, rules_of(scene, s))
                + remaining(q.levels, rules_of(scene, s)),
            true,
        ),
    decreases 20 * unread(q.levels) + 20 * below(q.current) + 10 * q.levels.len() + 15,
{
    let rules = rules_of(scene, s);
    let len = q.levels.len();
    let depth = len as nat;
    let c = q.current;
    let here = q.current_path;
    let entry = seq![Visit::Entry { path: here, depth }];
    if !(c is Dir) || depth >= rules.max_depth {
        let (s2, a2) = sc.yield_current();
        assert(sc.classify() == sc.yield_current());
        let s3 = s2.next_entry().0;
        lemma_handed_out_then_read_on(s2);
        assert(drive(scene, s2, a2, q, g).0 == entry + drive(scene, s3, Action::ReadNext, q, (g - 1) as nat).0);
        assert(reading(scene, s3, q));
        lemma_reading(scene, s3, q, (g - 1) as nat);
        assert(node_items(c, here, depth, rules) == entry);
    } else {
        let readable = c->readable;
        let children = c->children;
        let sd = sc.in_phase(Phase::Descending);
        assert(sc.classify() == (sd, Action::OpenCurrent));
        if readable {
            let q2 = Probe { levels: q.levels.push(Level { rest: children, index: 0, path: here }), ..q };
            let (s4, a4) = sd.opened_step();
            assert(drive(scene, sd, Action::OpenCurrent, q, g) == drive(scene, s4, a4, q2, (g - 1) as nat));
            let s5 = s4.next_entry().0;
            lemma_handed_out_then_read_on(s4);
            assert(drive(scene, s4, a4, q2, (g - 1) as nat).0 == entry + drive(
                scene,
                s5,
                Action::ReadNext,
                q2,
                (g - 2) as nat,
            ).0);
            assert(q2.levels.drop_last() =~= q.levels);
            assert(reading(scene, s5, q2));
            assert(unread(q2.levels) == forest_size(children) + unread(q.levels));
            lemma_reading(scene, s5, q2, (g - 2) as nat);
            assert(remaining(q2.levels, rules) == forest(children, here, 0, depth + 1, rules)
                + remaining(q.levels, rules));
            assert(node_items(c, here, depth, rules) == entry + forest(children, here, 0, depth + 1, rules));
            assert(entry + (forest(children, here, 0, depth + 1, rules) + remaining(q.levels, rules))
                =~= entry + forest(children, here, 0, depth + 1, rules) + remaining(q.levels, rules));
        } else {
            let (s4, a4) = sd.failed_step((scene.failure)(here));
            assert(drive(scene, sd, Action::OpenCurrent, q, g) == drive(scene, s4, a4, q, (g - 1) as nat));
            let (s5, a5) = s4.resume_step();
            assert(drive(scene, s4, a4, q, (g - 1) as nat).0 == entry + drive(
                scene,
                s5,
                a5,
                q,
                (g - 2) as nat,
            ).0);
            if s.ignores((scene.failure)(here)) {
                assert(a5 == Action::ReadNext);
                assert(reading(scene, s5, q));
                lemma_reading(scene, s5, q, (g - 2) as nat);
                assert(node_items(c, here, depth, rules) == entry);
            } else {
                let s6 = s5.next_entry().0;
                lemma_handed_out_then_read_on(s5);
                assert(drive(scene, s5, a5, q, (g - 2) as nat).0 == seq![Visit::Error { path: here }]
                    + drive(scene, s6, Action::ReadNext, q, (g - 3) as nat).0);
                assert(reading(scene, s6, q));
                lemma_reading(scene, s6, q, (g - 3) as nat);
                assert(node_items(c, here, depth, rules) == entry + seq![Visit::Error { path: here }]);
                assert(entry + (seq![Visit::Error { path: here }] + remaining(q.levels, rules))
                    =~= entry + seq![Visit::Error { path: here }] + remaining(q.levels, rules));
            }
        }
    }
}

#[verifier::rlimit(40)]
proof fn lemma_reading(scene: Scene, s: WalkModel, p: Probe, fuel: nat)
    requires
        reading(scene, s, p),
        fuel >= 20 * unread(p.levels) + 10 * p.levels.len(),
    ensures
        drive(scene, s, Action::ReadNext, p, fuel) == (remaining(p.levels, rules_of(scene, s)), true),
    decreases 20 * unread(p.levels) + 10 * p.levels.len(),
{
    let rules = rules_of(scene, s);
    let len = p.levels.len();
    let top = p.levels.last();
    let f = (fuel - 1) as nat;
    assert(s.depths.last() == len - 1);
    if top.rest.len() == 0 {
        let (s1, a1) = s.exhausted_step();
        let q = Probe { levels: p.levels.drop_last(), ..p };
        let (s2, a2) = s1.closed_step();
        assert(drive(scene, s, Action::ReadNext, p, fuel) == drive(scene, s1, a1, p, f));
        assert(drive(scene, s1, a1, p, f) == drive(scene, s2, a2, q, (f - 1) as nat));
        assert(remaining(p.levels, rules) == remaining(q.levels, rules));
        if len == 1 {
            assert(q.levels.len() == 0);
        } else {
            assert(reading(scene, s2, q));
            lemma_reading(scene, s2, q, (f - 1) as nat);
        }
    } else {
        let c = top.rest[0];
        let here = top.path.push(top.index);
        let depth = len as nat;
        let is_dir = c is Dir;
        let q = Probe {
            levels: p.levels.update(
                len - 1,
                Level { rest: top.rest.drop_first(), index: top.index + 1, ..top },
            ),
            current: c,
            current_path: here,
        };
        let later = forest(top.rest.drop_first(), top.path, top.index + 1, depth, rules);
        assert(q.levels.drop_last() =~= p.levels.drop_last());
        assert(remaining(q.levels, rules) == later + remaining(p.levels.drop_last(), rules));
        assert(unread(q.levels) == forest_size(top.rest.drop_first()) + unread(p.levels.drop_last()));
        assert(forest_size(top.rest) >= 1 + forest_size(top.rest.drop_first()));
        let (s1, a1) = s.found_step(is_dir);
        assert(drive(scene, s, Action::ReadNext, p, fuel) == drive(scene, s1, a1, q, f));
        if depth > rules.max_depth {
            assert(reading(scene, s1, q));
            lemma_reading(scene, s1, q, f);
            assert(forest(top.rest, top.path, top.index, depth, rules) == later);
        } else {
            // The state in which the kept entry is classified, and the fuel left then.
            let sc = WalkModel {
                current_depth: depth as usize,
                current_is_dir: is_dir,
                current_key: None,
                ..s
            };
            let g: nat;
            if s.has_filter {
                let keep = (scene.keep)(here, depth);
                let sf = sc.in_phase(Phase::Filtering);
                assert(s1 == sf);
                assert(drive(scene, s1, a1, q, f) == drive(
                    scene,
                    sf.filtered_step(keep).0,
                    sf.filtered_step(keep).1,
                    q,
                    (f - 1) as nat,
                ));
                if !keep {
                    assert(reading(scene, sf.next_entry().0, q));
                    lemma_reading(scene, sf.next_entry().0, q, (f - 1) as nat);
                    assert(forest(top.rest, top.path, top.index, depth, rules) == later);
                    return;
                }
                assert(sf.filtered_step(keep) == sf.classify());
                g = (f - 1) as nat;
                assert(drive(scene, s, Action::ReadNext, p, fuel) == drive(
                    scene,
                    sf.classify().0,
                    sf.classify().1,
                    q,
                    g,
                ));
                assert(sf.classify() == sc.classify());
            } else {
                g = f;
                assert(s1 == sc.classify().0 && a1 == sc.classify().1);
            }
            assert(drive(scene, s, Action::ReadNext, p, fuel) == drive(
                scene,
                sc.classify().0,
                sc.classify().1,
                q,
                g,
            ));
            assert(reading(scene, s, q));
            lemma_examined(scene, s, sc, q, g);
            assert(forest(top.rest, top.path, top.index, depth, rules) == node_items(c, here, depth, rules)
                + later);
        }
    }
}

/// A whole walk that does not follow links, over a finite tree that does not
/// change, ends and hands out exactly `listing(root, ..)`: every node below the
/// root that is kept and within the depth limit, once, in depth-first pre-order
/// with siblings in the order they are read, at its depth; symbolic links are
/// handed out and never entered; a directory that cannot be read is handed out
/// and followed by an error unless the failure is ignored; and after that the
/// walk ends.
pub proof fn lemma_walk_lists_the_tree(scene: Scene, s: WalkModel, fuel: nat)
    requires
        s.wf(),
        !s.started,
        !s.follow_links,
        s.root_is_file == (scene.root is File),
        !(scene.root is Link),
        fuel >= 20 * forest_size(seq![scene.root]) + 10,
    ensures
        run(scene, s, fuel) == (listing(scene.root, rules_of(scene, s)), true),
{
    let rules = rules_of(scene, s);
    let p = Probe { levels: seq![], current: scene.root, current_path: seq![] };
    let (s1, a1) = s.resume_step();
    assert(s1.started && s1.pending is None && s1.depths.len() == 0);
    match scene.root {
        Tree::Dir { readable, children } => {
            assert(seq![scene.root].drop_first() =~= Seq::<Tree>::empty());
            assert(forest_size(Seq::<Tree>::empty()) == 0);
            assert(seq![scene.root][0] == scene.root);
            assert(forest_size(seq![scene.root]) == 1 + forest_size(children));
            assert(a1 == Action::OpenRoot);
            if readable {
                let q = Probe { levels: seq![Level { rest: children, index: 0, path: seq![] }], ..p };
                let (s2, a2) = s1.opened_step();
                assert(drive(scene, s1, a1, p, fuel) == drive(scene, s2, a2, q, (fuel - 1) as nat));
                assert(q.levels.drop_last() =~= Seq::<Level>::empty());
                assert(unread(Seq::<Level>::empty()) == 0);
                assert(q.levels.last().rest == children);
                assert(unread(q.levels) == forest_size(children));
                assert(remaining(Seq::<Level>::empty(), rules) == Seq::<Visit>::empty());
                assert(q.levels.len() as nat == 1);
                assert(remaining(q.levels, rules) == forest(children, seq![], 0, 1, rules) + remaining(q.levels.drop_last(), rules));
                assert(remaining(q.levels, rules) == forest(children, seq![], 0, 1, rules) + Seq::<Visit>::empty());
                assert(forest(children, seq![], 0, 1, rules) + Seq::<Visit>::empty() =~= forest(children, seq![], 0, 1, rules));
                if s.detect_loops {
                    let (s3, a3) = s2.stat_step(root_info(), arbitrary::<PathBuf>());
                    assert(drive(scene, s2, a2, q, (fuel - 1) as nat) == drive(scene, s3, a3, q, (fuel - 2) as nat));
                    assert(reading(scene, s3, q));
                    lemma_reading(scene, s3, q, (fuel - 2) as nat);
                } else {
                    assert(reading(scene, s2, q));
                    lemma_reading(scene, s2, q, (fuel - 1) as nat);
                }
            } else {
                let (s2, a2) = s1.failed_step((scene.failure)(seq![]));
                assert(drive(scene, s1, a1, p, fuel) == drive(scene, s2, a2, p, (fuel - 1) as nat));
                if !s.ignores((scene.failure)(seq![])) {
                    let (s3, a3) = s2.resume_step();
                    assert(a3 == Action::Finish);
                    assert(drive(scene, s2, a2, p, (fuel - 1) as nat).0 == seq![Visit::Error { path: seq![] }]
                        + drive(scene, s3, a3, p, (fuel - 2) as nat).0);
                    assert(seq![Visit::Error { path: seq![] }] + Seq::<Visit>::empty() =~= seq![Visit::Error { path: seq![] }]);
                }
            }
        },
        _ => {
            assert(a1 == Action::YieldRoot);
            let (s2, a2) = s1.resume_step();
            assert(a2 == Action::Finish);
            assert(drive(scene, s1, a1, p, fuel).0 == seq![Visit::Entry { path: seq![], depth: 0 }]
                + drive(scene, s2, a2, p, (fuel - 1) as nat).0);
            assert(seq![Visit::Entry { path: seq![], depth: 0 }] + Seq::<Visit>::empty() =~= seq![Visit::Entry { path: seq![], depth: 0 }]);
        },
    }
}

/// The entries among `items`, in order.
pub open spec fn entries(items: Seq<Visit>) -> Seq<Visit> {
    items.filter(|v: Visit| v is Entry)
}

proof fn lemma_entries_of_sum(a: Seq<Visit>, b: Seq<Visit>)
    ensures
        entries(a + b) == entries(a) + entries(b),
{
    Seq::filter_distributes_over_add(a, b, |v: Visit| v is Entry);
}

proof fn lemma_entries_of_one(v: Visit)
    ensures
        entries(seq![v]) == (if v is Entry { seq![v] } else { Seq::<Visit>::empty() }),
{
    reveal_with_fuel(Seq::filter, 2);
    assert(seq![v].drop_last() =~= Seq::<Visit>::empty());
}

proof fn lemma_forest_silent(nodes: Seq<Tree>, parent: Seq<nat>, first: nat, depth: nat, rules: Rules)
    ensures
        forest(nodes, parent, first, depth, rules.silent()) == entries(
            forest(nodes, parent, first, depth, rules),
        ),
    decreases nodes,
{
    if nodes.len() == 0 {
        reveal_with_fuel(Seq::filter, 1);
        assert(entries(Seq::<Visit>::empty()) =~= Seq::<Visit>::empty());
    } else {
        let here = parent.push(first);
        let loud = rules;
        let quiet = rules.silent();
        lemma_forest_silent(nodes.drop_first(), parent, first + 1, depth, rules);
        let rest_l = forest(nodes.drop_first(), parent, first + 1, depth, loud);
        let rest_q = forest(nodes.drop_first(), parent, first + 1, depth, quiet);
        let entry = seq![Visit::Entry { path: here, depth }];
        let error = seq![Visit::Error { path: here }];
        lemma_entries_of_one(Visit::Entry { path: here, depth });
        lemma_entries_of_one(Visit::Error { path: here });
        if depth > rules.max_depth || !rules.keeps(here, depth) {
        } else {
            match nodes[0] {
                Tree::Dir { readable, children } => {
                    if depth < rules.max_depth {
                        if readable {
                            lemma_forest_silent(children, here, 0, depth + 1, rules);
                            let below_l = forest(children, here, 0, depth + 1, loud);
                            lemma_entries_of_sum(entry + below_l, rest_l);
                            lemma_entries_of_sum(entry, below_l);
                        } else if rules.reports(here) {
                            lemma_entries_of_sum(entry + error, rest_l);
                            lemma_entries_of_sum(entry, error);
                            assert(entries(entry) + entries(error) =~= entry);
                        } else {
                            lemma_entries_of_sum(entry, rest_l);
                        }
                    } else {
                        lemma_entries_of_sum(entry, rest_l);
                    }
                },
                _ => {
                    lemma_entries_of_sum(entry, rest_l);
                },
            }
        }
    }
}

/// Ignoring errors removes the errors of a whole walk and nothing else: the
/// entries come out the same and in the same order.
pub proof fn lemma_ignoring_errors_only_drops_errors(scene: Scene, s: WalkModel, fuel: nat)
    requires
        s.wf(),
        !s.started,
        !s.follow_links,
        s.root_is_file == (scene.root is File),
        !(scene.root is Link),
        fuel >= 20 * forest_size(seq![scene.root]) + 10,
    ensures
        run(scene, WalkModel { ignore_errors: true, ..s }, fuel).0 == entries(
            run(scene, WalkModel { ignore_errors: false, ..s }, fuel).0,
        ),
        entries(run(scene, WalkModel { ignore_errors: true, ..s }, fuel).0) == run(
            scene,
            WalkModel { ignore_errors: true, ..s },
            fuel,
        ).0,
{
    let quiet = WalkModel { ignore_errors: true, ..s };
    let loud = WalkModel { ignore_errors: false, ..s };
    lemma_walk_lists_the_tree(scene, quiet, fuel);
    lemma_walk_lists_the_tree(scene, loud, fuel);
    let rules = rules_of(scene, loud);
    assert(rules_of(scene, quiet) == rules.silent());
    lemma_entries_of_one(Visit::Error { path: seq![] });
    lemma_entries_of_one(Visit::Entry { path: seq![], depth: 0 });
    match scene.root {
        Tree::Dir { readable, children } => {
            if readable {
                lemma_forest_silent(children, seq![], 0, 1, rules);
                lemma_forest_silent(children, seq![], 0, 1, rules.silent());
                assert(rules.silent().silent() == rules.silent());
            } else {
                reveal_with_fuel(Seq::filter, 1);
                assert(entries(Seq::<Visit>::empty()) =~= Seq::<Visit>::empty());
            }
        },
        _ => {},
    }
}

/// The path an item is about.
pub open spec fn path_of(v: Visit) -> Seq<nat> {
    match v {
        Visit::Entry { path, .. } => path,
        Visit::Error { path } => path,
    }
}

/// `v` is about a node strictly below `parent`, reached through a child whose
/// index is at least `first`.
pub open spec fn lies_under(v: Visit, parent: Seq<nat>, first: nat) -> bool {
    let path = path_of(v);
    &&& path.len() > parent.len()
    &&& path.subrange(0, parent.len() as int) == parent
    &&& path[parent.len() as int] >= first
}

proof fn lemma_concat_distinct(a: Seq<Visit>, b: Seq<Visit>)
    requires
        a.no_duplicates(),
        b.no_duplicates(),
        forall|v: Visit| a.contains(v) ==> !b.contains(v),
    ensures
        (a + b).no_duplicates(),
{
    assert forall|i: int, j: int| 0 <= i < a.len() && 0 <= j < b.len() implies a[i] != b[j] by {
        assert(a.contains(a[i]));
        assert(b.contains(b[j]));
    }
    vstd::seq_lib::lemma_no_dup_in_concat(a, b);
}

proof fn lemma_contains_concat(a: Seq<Visit>, b: Seq<Visit>, v: Visit)
    ensures
        (a + b).contains(v) <==> (a.contains(v) || b.contains(v)),
{
    vstd::seq_lib::lemma_seq_concat_contains_all_elements(a, b, v);
    if (a + b).contains(v) {
        let i = choose|i: int| 0 <= i < (a + b).len() && (a + b)[i] == v;
        if i < a.len() {
            assert(a[i] == v);
        } else {
            assert(b[i - a.len()] == v);
        }
    }
}

proof fn lemma_forest_distinct(nodes: Seq<Tree>, parent: Seq<nat>, first: nat, depth: nat, rules: Rules)
    ensures
        forest(nodes, parent, first, depth, rules).no_duplicates(),
        forall|v: Visit| #[trigger]
            forest(nodes, parent, first, depth, rules).contains(v) ==> lies_under(v, parent, first),
    decreases nodes,
{
    let items = forest(nodes, parent, first, depth, rules);
    if nodes.len() == 0 {
        return;
    }
    let here = parent.push(first);
    let rest = forest(nodes.drop_first(), parent, first + 1, depth, rules);
    lemma_forest_distinct(nodes.drop_first(), parent, first + 1, depth, rules);
    let entry_v = Visit::Entry { path: here, depth };
    let error_v = Visit::Error { path: here };
    assert(here.subrange(0, parent.len() as int) =~= parent);
    // What lies at `here` or below it is no item of `rest`.
    let at_here = |v: Visit| path_of(v).len() > parent.len()
        && path_of(v).subrange(0, parent.len() as int) == parent
        && path_of(v)[parent.len() as int] == first;
    assert(forall|v: Visit| rest.contains(v) ==> !at_here(v));
    if depth > rules.max_depth || !rules.keeps(here, depth) {
        assert forall|v: Visit| #[trigger] items.contains(v) implies lies_under(v, parent, first) by {
            assert(rest.contains(v));
        }
        return;
    }
    let entry = seq![entry_v];
    let error = seq![error_v];
    assert(entry[0] == entry_v);
    assert(entry.contains(entry_v));
    assert(forall|v: Visit| entry.contains(v) ==> v == entry_v);
    assert(forall|v: Visit| error.contains(v) ==> v == error_v);
    assert(entry.no_duplicates());
    assert(error.no_duplicates());
    assert(at_here(entry_v) && at_here(error_v));
    let head: Seq<Visit> = match nodes[0] {
        Tree::Dir { readable, children } => {
            if depth < rules.max_depth {
                if readable {
                    entry + forest(children, here, 0, depth + 1, rules)
                } else if rules.reports(here) {
                    entry + error
                } else {
                    entry
                }
            } else {
                entry
            }
        },
        _ => entry,
    };
    assert(items == head + rest);
    match nodes[0] {
        Tree::Dir { readable, children } => {
            if depth < rules.max_depth && readable {
                let below = forest(children, here, 0, depth + 1, rules);
                lemma_forest_distinct(children, here, 0, depth + 1, rules);
                assert forall|v: Visit| below.contains(v) implies at_here(v) && v != entry_v by {
                    assert(lies_under(v, here, 0));
                    let pth = path_of(v);
                    assert(pth.subrange(0, parent.len() as int) =~= pth.subrange(0, here.len() as int).subrange(
                        0,
                        parent.len() as int,
                    ));
                    assert(pth[parent.len() as int] == pth.subrange(0, here.len() as int)[parent.len() as int]);
                }
                assert forall|v: Visit| entry.contains(v) implies !below.contains(v) by {}
                lemma_concat_distinct(entry, below);
                assert forall|v: Visit| (entry + below).contains(v) implies at_here(v) by {
                    lemma_contains_concat(entry, below, v);
                }
            } else if depth < rules.max_depth && rules.reports(here) {
                assert forall|v: Visit| entry.contains(v) implies !error.contains(v) by {}
                lemma_concat_distinct(entry, error);
                assert forall|v: Visit| (entry + error).contains(v) implies at_here(v) by {
                    lemma_contains_concat(entry, error, v);
                }
            } else {
            }
        },
        _ => {},
    }
    assert(head.no_duplicates());
    assert(forall|v: Visit| head.contains(v) ==> at_here(v));
    assert forall|v: Visit| head.contains(v) implies !rest.contains(v) by {}
    lemma_concat_distinct(head, rest);
    assert forall|v: Visit| #[trigger] items.contains(v) implies lies_under(v, parent, first) by {
        lemma_contains_concat(head, rest, v);
    }
}

/// A whole walk hands out no item twice: each node is handed out at most once,
/// and so is each error.
pub proof fn lemma_listing_is_distinct(root: Tree, rules: Rules)
    ensures
        listing(root, rules).no_duplicates(),
{
    match root {
        Tree::Dir { readable, children } => {
            if readable {
                lemma_forest_distinct(children, seq![], 0, 1, rules);
            }
        },
        _ => {},
    }
}

/// The entry at `path` and every entry above it, up to the root, pass the filter.
pub open spec fn kept_all_the_way(rules: Rules, path: Seq<nat>) -> bool {
    forall|k: int| 1 <= k <= path.len() ==> #[trigger] rules.keeps(path.take(k), k as nat)
}

/// The items of `items` about nodes that, like all nodes above them, pass the filter.
pub open spec fn pruned(items: Seq<Visit>, rules: Rules) -> Seq<Visit> {
    items.filter(|v: Visit| kept_all_the_way(rules, path_of(v)))
}

impl Rules {
    pub open spec fn unfiltered(self) -> Rules {
        Rules { has_filter: false, ..self }
    }
}

proof fn lemma_pruned_sum(a: Seq<Visit>, b: Seq<Visit>, rules: Rules)
    ensures
        pruned(a + b, rules) == pruned(a, rules) + pruned(b, rules),
{
    Seq::filter_distributes_over_add(a, b, |v: Visit| kept_all_the_way(rules, path_of(v)));
}

proof fn lemma_pruned_one(v: Visit, rules: Rules)
    ensures
        pruned(seq![v], rules) == (if kept_all_the_way(rules, path_of(v)) {
            seq![v]
        } else {
            Seq::<Visit>::empty()
        }),
{
    reveal_with_fuel(Seq::filter, 2);
    assert(seq![v].drop_last() =~= Seq::<Visit>::empty());
}

proof fn lemma_pruned_none(items: Seq<Visit>, rules: Rules)
    requires
        forall|v: Visit| items.contains(v) ==> !kept_all_the_way(rules, path_of(v)),
    ensures
        pruned(items, rules) == Seq::<Visit>::empty(),
{
    let pred = |v: Visit| kept_all_the_way(rules, path_of(v));
    let out = items.filter(pred);
    if out.len() > 0 {
        items.lemma_filter_pred(pred, 0);
        assert(out.contains(out[0]));
        items.lemma_filter_contains_rev(pred, out[0]);
    }
    assert(out =~= Seq::<Visit>::empty());
}

#[verifier::rlimit(60)]
proof fn lemma_forest_pruned(nodes: Seq<Tree>, parent: Seq<nat>, first: nat, depth: nat, rules: Rules)
    requires
        depth == parent.len() + 1,
        kept_all_the_way(rules, parent),
    ensures
        forest(nodes, parent, first, depth, rules) == pruned(
            forest(nodes, parent, first, depth, rules.unfiltered()),
            rules,
        ),
    decreases nodes,
{
    if nodes.len() == 0 {
        lemma_pruned_none(Seq::<Visit>::empty(), rules);
        return;
    }
    let free = rules.unfiltered();
    let here = parent.push(first);
    lemma_forest_pruned(nodes.drop_first(), parent, first + 1, depth, rules);
    let rest_f = forest(nodes.drop_first(), parent, first + 1, depth, free);
    let entry_v = Visit::Entry { path: here, depth };
    let error_v = Visit::Error { path: here };
    let entry = seq![entry_v];
    let error = seq![error_v];
    let head: Seq<Visit> = match nodes[0] {
        Tree::Dir { readable, children } => {
            if depth < free.max_depth {
                if readable {
                    entry + forest(children, here, 0, depth + 1, free)
                } else if free.reports(here) {
                    entry + error
                } else {
                    entry
                }
            } else {
                entry
            }
        },
        _ => entry,
    };
    if depth > rules.max_depth {
        return;
    }
    assert(forest(nodes, parent, first, depth, free) == head + rest_f);
    lemma_pruned_sum(head, rest_f, rules);
    assert(here.take(depth as int) =~= here);
    assert forall|k: int| 1 <= k <= parent.len() implies here.take(k) =~= parent.take(k) by {}
    let kept_here = rules.keeps(here, depth);
    assert(kept_all_the_way(rules, here) == kept_here) by {
        if kept_here {
            assert forall|k: int| 1 <= k <= here.len() implies #[trigger] rules.keeps(here.take(k), k as nat) by {
                if k < here.len() {
                    assert(here.take(k) =~= parent.take(k));
                }
            }
        }
    }
    lemma_pruned_one(entry_v, rules);
    lemma_pruned_one(error_v, rules);
    match nodes[0] {
        Tree::Dir { readable, children } => {
            if depth < free.max_depth && readable {
                let below = forest(children, here, 0, depth + 1, free);
                lemma_pruned_sum(entry, below, rules);
                if kept_here {
                    lemma_forest_pruned(children, here, 0, depth + 1, rules);
                } else {
                    lemma_forest_distinct(children, here, 0, depth + 1, free);
                    assert forall|v: Visit| below.contains(v) implies !kept_all_the_way(rules, path_of(v)) by {
                        let pth = path_of(v);
                        assert(lies_under(v, here, 0));
                        assert(pth.take(depth as int) =~= here);
                        assert(!rules.keeps(pth.take(depth as int), depth));
                    }
                    lemma_pruned_none(below, rules);
                }
            } else if depth < free.max_depth && free.reports(here) {
                lemma_pruned_sum(entry, error, rules);
            }
        },
        _ => {},
    }
}

/// A filter prunes: the walk with a filter hands out exactly what the same walk
/// without it hands out about nodes that, like every node above them, the filter
/// keeps. A rejected entry takes everything below it along.
pub proof fn lemma_filter_prunes_whole_subtrees(scene: Scene, s: WalkModel, fuel: nat)
    requires
        s.wf(),
        !s.started,
        !s.follow_links,
        s.root_is_file == (scene.root is File),
        !(scene.root is Link),
        fuel >= 20 * forest_size(seq![scene.root]) + 10,
    ensures
        run(scene, WalkModel { has_filter: true, ..s }, fuel).0 == pruned(
            run(scene, WalkModel { has_filter: false, ..s }, fuel).0,
            rules_of(scene, WalkModel { has_filter: true, ..s }),
        ),
{
    let with = WalkModel { has_filter: true, ..s };
    let without = WalkModel { has_filter: false, ..s };
    lemma_walk_lists_the_tree(scene, with, fuel);
    lemma_walk_lists_the_tree(scene, without, fuel);
    let rules = rules_of(scene, with);
    assert(rules_of(scene, without) == rules.unfiltered());
    assert(kept_all_the_way(rules, seq![]));
    match scene.root {
        Tree::Dir { readable, children } => {
            if readable {
                lemma_forest_pruned(children, seq![], 0, 1, rules);
            } else if rules.reports(seq![]) {
                lemma_pruned_one(Visit::Error { path: seq![] }, rules);
            } else {
                lemma_pruned_none(Seq::<Visit>::empty(), rules);
            }
        },
        _ => {
            lemma_pruned_one(Visit::Entry { path: seq![], depth: 0 }, rules);
        },
    }
}

} // verus!
