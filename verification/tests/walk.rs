use std::collections::HashMap;
use std::io::{Error, ErrorKind};
use std::path::PathBuf;

use walkdir_minimal::{Action, IoFailure, StatInfo, WalkDir, WalkError, WalkOptions};

/// A node of an in-memory file tree.
enum Node {
    Dir { ino: u64, children: Vec<String>, readable: bool },
    File { ino: u64 },
    Link { target: String },
}

/// An in-memory file tree with absolute, `/`-separated paths.
struct Tree {
    nodes: HashMap<String, Node>,
    next_ino: u64,
}

fn parent_and_name(path: &str) -> (String, String) {
    let i = path.rfind('/').unwrap();
    let parent = if i == 0 { "/".to_string() } else { path[..i].to_string() };
    (parent, path[i + 1..].to_string())
}

fn join(dir: &str, name: &str) -> String {
    if dir == "/" {
        format!("/{name}")
    } else {
        format!("{dir}/{name}")
    }
}

impl Tree {
    fn new() -> Tree {
        let mut nodes = HashMap::new();
        nodes.insert("/".to_string(), Node::Dir { ino: 1, children: vec![], readable: true });
        Tree { nodes, next_ino: 2 }
    }

    fn add(&mut self, path: &str, node: Node) {
        let (parent, name) = parent_and_name(path);
        match self.nodes.get_mut(&parent) {
            Some(Node::Dir { children, .. }) => children.push(name),
            _ => panic!("no directory {parent}"),
        }
        self.nodes.insert(path.to_string(), node);
    }

    fn dir(&mut self, path: &str) {
        let ino = self.next_ino;
        self.next_ino += 1;
        self.add(path, Node::Dir { ino, children: vec![], readable: true });
    }

    fn locked_dir(&mut self, path: &str) {
        let ino = self.next_ino;
        self.next_ino += 1;
        self.add(path, Node::Dir { ino, children: vec![], readable: false });
    }

    fn file(&mut self, path: &str) {
        let ino = self.next_ino;
        self.next_ino += 1;
        self.add(path, Node::File { ino });
    }

    fn link(&mut self, path: &str, target: &str) {
        self.add(path, Node::Link { target: target.to_string() });
    }

    /// The real path that `path` names once every link on the way is followed.
    fn resolve(&self, path: &str, hops: u32) -> Result<String, Error> {
        if hops > 40 {
            return Err(Error::new(ErrorKind::Other, "too many links"));
        }
        let mut real = "/".to_string();
        for comp in path.split('/').filter(|c| !c.is_empty()) {
            let candidate = join(&real, comp);
            match self.nodes.get(&candidate) {
                Some(Node::Link { target }) => real = self.resolve(target, hops + 1)?,
                Some(_) => real = candidate,
                None => return Err(Error::new(ErrorKind::NotFound, "no such file")),
            }
        }
        Ok(real)
    }

    /// `stat`: follows links.
    fn metadata(&self, path: &str) -> Result<StatInfo, Error> {
        let real = self.resolve(path, 0)?;
        match &self.nodes[&real] {
            Node::Dir { ino, .. } => Ok(StatInfo { is_dir: true, dev: 7, ino: *ino }),
            Node::File { ino } => Ok(StatInfo { is_dir: false, dev: 7, ino: *ino }),
            Node::Link { .. } => unreachable!(),
        }
    }

    /// The file type of a directory entry: does not follow links.
    fn entry_is_dir(&self, path: &str) -> bool {
        let (parent, name) = parent_and_name(path);
        let real = join(&self.resolve(&parent, 0).unwrap(), &name);
        matches!(self.nodes[&real], Node::Dir { .. })
    }

    fn read_dir(&self, path: &str) -> Result<Vec<String>, Error> {
        let real = self.resolve(path, 0)?;
        match &self.nodes[&real] {
            Node::Dir { children, readable: true, .. } => {
                Ok(children.iter().map(|c| join(path, c)).collect())
            }
            Node::Dir { readable: false, .. } => {
                Err(Error::new(ErrorKind::PermissionDenied, "permission denied"))
            }
            _ => Err(Error::new(ErrorKind::Other, "not a directory")),
        }
    }
}

/// One item of a walk: a path and its depth, or an error.
type Item = Result<(String, usize), WalkError>;

/// Drives a walk over an in-memory tree, performing each action the walker asks for.
struct Driver<'a> {
    tree: &'a Tree,
    root: String,
    walk: WalkDir,
    open: Vec<(Vec<String>, usize)>,
    current: String,
    filter: Option<fn(&str) -> bool>,
}

impl<'a> Driver<'a> {
    fn new(tree: &'a Tree, root: &str, configure: impl FnOnce(WalkDir) -> WalkDir) -> Driver<'a> {
        let root_is_file = !tree.entry_is_dir(root);
        Driver {
            tree,
            root: root.to_string(),
            walk: configure(WalkDir::new(root_is_file)),
            open: vec![],
            current: String::new(),
            filter: None,
        }
    }

    fn with_filter(mut self, f: fn(&str) -> bool) -> Self {
        self.filter = Some(f);
        self.walk = self.walk.filter_entry();
        self
    }

    fn failure(e: Error, path: &str) -> IoFailure {
        IoFailure::new(e, PathBuf::from(path))
    }

    fn next(&mut self) -> Option<Item> {
        let mut action = self.walk.resume();
        loop {
            action = match action {
                Action::OpenRoot => match self.tree.read_dir(&self.root) {
                    Ok(children) => {
                        self.open.push((children, 0));
                        self.walk.opened()
                    }
                    Err(e) => self.walk.failed(Self::failure(e, &self.root)),
                },
                Action::StatRoot => match self.tree.metadata(&self.root) {
                    Ok(info) => self.walk.stat(info, PathBuf::from(&self.root)),
                    Err(e) => self.walk.failed(Self::failure(e, &self.root)),
                },
                Action::ReadNext => {
                    let top = self.open.last_mut().unwrap();
                    if top.1 < top.0.len() {
                        self.current = top.0[top.1].clone();
                        top.1 += 1;
                        let is_dir = self.tree.entry_is_dir(&self.current);
                        self.walk.found(is_dir)
                    } else {
                        self.walk.exhausted()
                    }
                }
                Action::Filter { .. } => {
                    let keep = (self.filter.unwrap())(&self.current);
                    self.walk.filtered(keep)
                }
                Action::StatCurrent => match self.tree.metadata(&self.current) {
                    Ok(info) => self.walk.stat(info, PathBuf::from(&self.current)),
                    Err(e) => self.walk.failed(Self::failure(e, &self.current)),
                },
                Action::OpenCurrent => match self.tree.read_dir(&self.current) {
                    Ok(children) => {
                        self.open.push((children, 0));
                        self.walk.opened()
                    }
                    Err(e) => self.walk.failed(Self::failure(e, &self.current)),
                },
                Action::CloseTop => {
                    self.open.pop();
                    self.walk.closed()
                }
                Action::YieldRoot => return Some(Ok((self.root.clone(), 0))),
                Action::YieldCurrent { depth } => return Some(Ok((self.current.clone(), depth))),
                Action::YieldError(e) => return Some(Err(e)),
                Action::Finish => return None,
            };
        }
    }

    fn collect(mut self) -> Vec<Item> {
        let mut items = vec![];
        while let Some(item) = self.next() {
            items.push(item);
            assert!(items.len() < 10_000, "the walk does not end");
        }
        items
    }
}

fn names(items: &[Item]) -> Vec<String> {
    items
        .iter()
        .filter_map(|r| r.as_ref().ok())
        .map(|(p, _)| parent_and_name(p).1)
        .collect()
}

fn paths(items: &[Item]) -> Vec<String> {
    items.iter().filter_map(|r| r.as_ref().ok()).map(|(p, _)| p.clone()).collect()
}

fn errors(items: &[Item]) -> Vec<&WalkError> {
    items.iter().filter_map(|r| r.as_ref().err()).collect()
}

#[test]
fn test_ignore_permission_denied_on_locked_subdir() {
    let mut tree = Tree::new();
    tree.dir("/root");
    tree.file("/root/accessible.txt");
    tree.locked_dir("/root/locked");
    tree.file("/root/locked/secret.txt");

    {
        let results = Driver::new(&tree, "/root", |w| w.ignore_permission_denied(false)).collect();
        let errs = errors(&results);
        assert_eq!(errs.len(), 1, "expected exactly one error, got: {errs:?}");
        match errs[0] {
            WalkError::Io(io_err, path) => {
                assert_eq!(io_err.kind(), ErrorKind::PermissionDenied);
                assert_eq!(path, &PathBuf::from("/root/locked"));
            }
            other => panic!("unexpected error variant: {other:?}"),
        }
        let found = names(&results);
        assert!(found.contains(&"accessible.txt".to_string()));
        assert!(found.contains(&"locked".to_string()));
        assert!(!found.contains(&"secret.txt".to_string()));
    }

    {
        let results = Driver::new(&tree, "/root", |w| w.ignore_permission_denied(true)).collect();
        assert!(errors(&results).is_empty());
        let found = names(&results);
        assert!(found.contains(&"accessible.txt".to_string()));
        assert!(found.contains(&"locked".to_string()));
        assert!(!found.contains(&"secret.txt".to_string()));
    }
}

#[test]
fn walkdir_filter_works() {
    let mut tree = Tree::new();
    tree.dir("/tmp");
    tree.dir("/tmp/a");
    tree.dir("/tmp/b_ignore");
    tree.file("/tmp/a/file1.txt");
    tree.file("/tmp/b_ignore/file2.txt");

    let results = Driver::new(&tree, "/tmp", |w| w)
        .with_filter(|p| !p.contains("ignore"))
        .collect();
    let files: Vec<String> = results.into_iter().map(|r| r.unwrap().0).collect();
    assert!(files.iter().any(|p| p.ends_with("file1.txt")));
    assert!(!files.iter().any(|p| p.ends_with("file2.txt")));
}

#[test]
fn walkdir_follow_symlinks() {
    let mut tree = Tree::new();
    tree.dir("/tmp");
    tree.dir("/tmp/target");
    tree.file("/tmp/target/file.txt");
    tree.link("/tmp/link_to_target", "/tmp/target");

    let results = Driver::new(&tree, "/tmp", |w| w.follow_links(true).detect_loops(false)).collect();
    let found: Vec<String> = results.into_iter().map(|r| r.unwrap().0).collect();
    assert!(found.iter().any(|p| p.ends_with("file.txt")));
    assert!(found.contains(&"/tmp/link_to_target/file.txt".to_string()));
}

#[test]
fn walkdir_loop_detection() {
    let mut tree = Tree::new();
    tree.dir("/tmp");
    tree.dir("/tmp/a");
    tree.dir("/tmp/a/b");
    tree.link("/tmp/a/b/link_back", "/tmp/a");

    let mut walker = Driver::new(&tree, "/tmp", |w| w.follow_links(true).detect_loops(true));
    let mut visited = 0;
    let mut loop_detected = false;
    while let Some(entry) = walker.next() {
        if let Err(WalkError::LoopDetected(p)) = &entry {
            assert_eq!(p, &PathBuf::from("/tmp/a/b/link_back"));
            loop_detected = true;
            break;
        }
        entry.unwrap();
        visited += 1;
    }
    assert!(visited < 10);
    assert!(loop_detected, "a symbolic link loop should have been detected");
}

#[test]
fn walkdir_handles_large_dir() {
    let mut tree = Tree::new();
    tree.dir("/tmp");
    for i in 0..50 {
        tree.file(&format!("/tmp/file_{i}.txt"));
    }
    let count = Driver::new(&tree, "/tmp", |w| w).collect().len();
    assert_eq!(count, 50);
}

#[test]
fn walkdir_ignores_broken_symlinks() {
    let mut tree = Tree::new();
    tree.dir("/tmp");
    tree.file("/tmp/file.txt");
    tree.dir("/tmp/dir");
    tree.link("/tmp/link_to_file", "/tmp/file.txt");
    tree.link("/tmp/link_to_dir", "/tmp/dir");
    tree.link("/tmp/broken_link", "/nonexistent/path");

    let results = Driver::new(&tree, "/tmp", |w| w.follow_links(true)).collect();
    let mut found_valid_links = 0;
    let mut found_broken_links = 0;
    let mut found_loops = 0;
    for item in &results {
        match item {
            Ok((path, _)) => {
                assert_ne!(path, "/tmp/broken_link");
                if path == "/tmp/link_to_file" || path == "/tmp/link_to_dir" {
                    found_valid_links += 1;
                }
            }
            Err(WalkError::Io(io_err, path)) => {
                assert_eq!(io_err.kind(), ErrorKind::NotFound);
                assert_eq!(path, &PathBuf::from("/tmp/broken_link"));
                found_broken_links += 1;
            }
            Err(WalkError::LoopDetected(path)) => {
                // `dir` was entered already, so its link is reported as a loop.
                assert_eq!(path, &PathBuf::from("/tmp/link_to_dir"));
                found_loops += 1;
            }
        }
    }
    assert_eq!(found_valid_links, 1);
    assert_eq!(found_broken_links, 1);
    assert_eq!(found_loops, 1);
}

#[test]
fn walkdir_follow_symlinks_no_loop_detection() {
    let mut tree = Tree::new();
    tree.dir("/tmp");
    tree.dir("/tmp/a");
    tree.dir("/tmp/b");
    tree.file("/tmp/a/file_a.txt");
    tree.link("/tmp/b/link_to_a", "/tmp/a");
    tree.link("/tmp/a/link_to_b", "/tmp/b");

    let results = Driver::new(&tree, "/tmp", |w| {
        w.follow_links(true).detect_loops(false).max_depth(5)
    })
    .collect();
    let mut count = 0;
    for entry in results {
        let (path, depth) = entry.unwrap();
        assert!(depth <= 5, "{path} lies deeper than the limit");
        count += 1;
    }
    assert!(count > 2, "expected to visit multiple paths when following symbolic links");
}

#[test]
fn default_options_follow_the_documentation() {
    let opts = WalkOptions::default();
    assert!(!opts.follow_links);
    assert_eq!(opts.max_depth, 512);
    assert!(!opts.ignore_errors);
    assert!(opts.detect_loops);
}

#[test]
fn root_file_is_yielded_once() {
    let mut tree = Tree::new();
    tree.dir("/tmp");
    tree.file("/tmp/only.txt");
    for follow in [false, true] {
        let results = Driver::new(&tree, "/tmp/only.txt", |w| w.follow_links(follow)).collect();
        let items: Vec<(String, usize)> = results.into_iter().map(|r| r.unwrap()).collect();
        assert_eq!(items, vec![("/tmp/only.txt".to_string(), 0)]);
    }
}

#[test]
fn finished_walk_stays_finished() {
    let mut tree = Tree::new();
    tree.dir("/tmp");
    tree.file("/tmp/x");
    let mut walker = Driver::new(&tree, "/tmp", |w| w);
    assert!(walker.next().is_some());
    assert!(walker.next().is_none());
    assert!(walker.next().is_none());
    assert!(walker.next().is_none());
}

#[test]
fn root_directory_is_not_yielded_and_order_is_depth_first() {
    let mut tree = Tree::new();
    tree.dir("/r");
    tree.dir("/r/a");
    tree.file("/r/a/x");
    tree.file("/r/b");
    let results = Driver::new(&tree, "/r", |w| w).collect();
    let items: Vec<(String, usize)> = results.into_iter().map(|r| r.unwrap()).collect();
    assert_eq!(
        items,
        vec![("/r/a".to_string(), 1), ("/r/a/x".to_string(), 2), ("/r/b".to_string(), 1)]
    );
}

fn deep_tree() -> Tree {
    let mut tree = Tree::new();
    tree.dir("/r");
    tree.dir("/r/d1");
    tree.dir("/r/d1/d2");
    tree.dir("/r/d1/d2/d3");
    tree.file("/r/d1/d2/d3/f4");
    tree
}

#[test]
fn max_depth_limits_the_entries() {
    let tree = deep_tree();
    for limit in 0..6usize {
        let results = Driver::new(&tree, "/r", |w| w.max_depth(limit)).collect();
        let depths: Vec<usize> = results.into_iter().map(|r| r.unwrap().1).collect();
        let expected: Vec<usize> = (1..=limit.min(4)).collect();
        assert_eq!(depths, expected, "limit {limit}");
    }
}

#[test]
fn max_depth_zero_still_opens_the_root() {
    let mut tree = Tree::new();
    tree.locked_dir("/locked");
    for limit in [0usize, 1] {
        let results = Driver::new(&tree, "/locked", |w| w.max_depth(limit)).collect();
        assert_eq!(results.len(), 1);
        assert!(matches!(&results[0], Err(WalkError::Io(_, p)) if p == &PathBuf::from("/locked")));
    }
}

#[test]
fn unreadable_root_is_an_error_unless_ignored() {
    let mut tree = Tree::new();
    tree.locked_dir("/locked");
    let results = Driver::new(&tree, "/locked", |w| w).collect();
    assert_eq!(results.len(), 1);
    assert!(results[0].is_err());
    assert!(Driver::new(&tree, "/locked", |w| w.ignore_errors(true)).collect().is_empty());
    assert!(Driver::new(&tree, "/locked", |w| w.ignore_permission_denied(true)).collect().is_empty());
}

#[test]
fn unreadable_directory_entry_comes_before_its_error() {
    let mut tree = Tree::new();
    tree.dir("/r");
    tree.locked_dir("/r/locked");
    tree.file("/r/z");
    let results = Driver::new(&tree, "/r", |w| w).collect();
    assert_eq!(results.len(), 3);
    assert_eq!(results[0].as_ref().unwrap(), &("/r/locked".to_string(), 1));
    assert!(matches!(&results[1], Err(WalkError::Io(e, p))
        if e.kind() == ErrorKind::PermissionDenied && p == &PathBuf::from("/r/locked")));
    assert_eq!(results[2].as_ref().unwrap(), &("/r/z".to_string(), 1));
}

#[test]
fn ignore_errors_hides_every_error() {
    let mut tree = Tree::new();
    tree.dir("/tmp");
    tree.dir("/tmp/a");
    tree.locked_dir("/tmp/a/locked");
    tree.link("/tmp/a/back", "/tmp/a");
    tree.link("/tmp/broken", "/nowhere");
    let results =
        Driver::new(&tree, "/tmp", |w| w.follow_links(true).ignore_errors(true)).collect();
    assert!(errors(&results).is_empty());
    let found = paths(&results);
    assert!(found.contains(&"/tmp/a".to_string()));
    assert!(found.contains(&"/tmp/a/locked".to_string()));
    assert!(!found.contains(&"/tmp/a/back".to_string()));
    assert!(!found.contains(&"/tmp/broken".to_string()));
}

#[test]
fn links_are_not_followed_by_default() {
    let mut tree = Tree::new();
    tree.dir("/tmp");
    tree.dir("/tmp/target");
    tree.file("/tmp/target/file.txt");
    tree.link("/tmp/link", "/tmp/target");
    tree.link("/tmp/broken", "/nowhere");
    let results = Driver::new(&tree, "/tmp", |w| w).collect();
    assert!(errors(&results).is_empty());
    let found = paths(&results);
    assert!(found.contains(&"/tmp/link".to_string()));
    assert!(found.contains(&"/tmp/broken".to_string()));
    assert!(!found.contains(&"/tmp/link/file.txt".to_string()));
}

#[test]
fn loop_is_skipped_when_errors_are_ignored() {
    let mut tree = Tree::new();
    tree.dir("/tmp");
    tree.dir("/tmp/a");
    tree.link("/tmp/a/back", "/tmp");
    tree.file("/tmp/a/f");
    let results =
        Driver::new(&tree, "/tmp", |w| w.follow_links(true).ignore_errors(true)).collect();
    let items: Vec<(String, usize)> = results.into_iter().map(|r| r.unwrap()).collect();
    assert_eq!(items, vec![("/tmp/a".to_string(), 1), ("/tmp/a/f".to_string(), 2)]);
}

#[test]
fn filter_rejection_prunes_the_subtree() {
    let tree = deep_tree();
    let results = Driver::new(&tree, "/r", |w| w).with_filter(|p| !p.ends_with("d2")).collect();
    let items: Vec<(String, usize)> = results.into_iter().map(|r| r.unwrap()).collect();
    assert_eq!(items, vec![("/r/d1".to_string(), 1)]);
}

#[test]
fn io_failure_records_its_error_and_path() {
    let failure = IoFailure::new(Error::new(ErrorKind::PermissionDenied, "no"), PathBuf::from("/x"));
    assert!(failure.permission_denied);
    assert_eq!(failure.path, PathBuf::from("/x"));
    let other = IoFailure::new(Error::new(ErrorKind::NotFound, "gone"), PathBuf::from("/y"));
    assert!(!other.permission_denied);
    match WalkError::from(other) {
        WalkError::Io(e, p) => {
            assert_eq!(e.kind(), ErrorKind::NotFound);
            assert_eq!(p, PathBuf::from("/y"));
        }
        WalkError::LoopDetected(_) => panic!("expected an I/O error"),
    }
}

#[test]
fn walk_starts_with_default_configuration() {
    let mut walk = WalkDir::new(false);
    assert!(matches!(walk.resume(), Action::OpenRoot));
    assert!(matches!(walk.opened(), Action::StatRoot));
    let info = StatInfo { is_dir: true, dev: 1, ino: 1 };
    assert!(matches!(walk.stat(info, PathBuf::from("/")), Action::ReadNext));
    assert!(matches!(walk.found(true), Action::OpenCurrent));
    assert!(matches!(walk.opened(), Action::YieldCurrent { depth: 1 }));
    assert!(matches!(walk.resume(), Action::ReadNext));
    assert!(matches!(walk.exhausted(), Action::CloseTop));
    assert!(matches!(walk.closed(), Action::ReadNext));
    assert!(matches!(walk.exhausted(), Action::CloseTop));
    assert!(matches!(walk.closed(), Action::Finish));
    assert!(matches!(walk.resume(), Action::Finish));
}

#[test]
fn ignore_permission_denied_keeps_other_errors() {
    let mut tree = Tree::new();
    tree.dir("/tmp");
    tree.locked_dir("/tmp/locked");
    tree.link("/tmp/broken", "/nowhere");
    let results = Driver::new(&tree, "/tmp", |w| {
        w.follow_links(true).ignore_permission_denied(true)
    })
    .collect();
    let errs = errors(&results);
    assert_eq!(errs.len(), 1);
    assert!(matches!(errs[0], WalkError::Io(e, p)
        if e.kind() == ErrorKind::NotFound && p == &PathBuf::from("/tmp/broken")));
    assert_eq!(names(&results), vec!["locked".to_string()]);
}
