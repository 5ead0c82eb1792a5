//! A depth-first directory walker whose every decision is verified.
//!
//! The traversal logic lives in [`walker::WalkDir`], a state machine that never
//! touches the filesystem itself: it asks its driver to open, read, stat or close
//! directories, and is told what happened. The driver holds the open directory
//! streams and hands each outcome back, so the rules of the walk (depth limits,
//! symbolic-link loop detection, error policy and entry filtering) are proved
//! independently of any operating system. The module [`tree`] states what a
//! whole walk over a finite tree hands out when links are not followed, and
//! [`links`] proves that walks following links with loop detection on end.

pub mod error;
pub mod links;
pub mod options;
pub mod tree;
pub mod walker;

pub use error::{IoFailure, WalkError};
pub use options::WalkOptions;
pub use walker::{Action, Phase, StatInfo, WalkDir, WalkModel};
