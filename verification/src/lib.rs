//! An in-memory editor for the trees of a content-addressed object database.
//!
//! An [`Editor`] starts from a root [`Tree`], applies insertions and removals
//! addressed by slash-separated paths, loads each tree on an edited path at
//! most once through a [`Find`] implementation, and finally hands every
//! changed tree, children before parents, to a caller-supplied sink.
//!
//! The modules, from the leaves up:
//!
//! - [`object_id`]: identifiers and their two sentinels;
//! - [`path`]: paths of trees and the keys they are filed under;
//! - [`entry`], [`order`], [`tree`]: the rows of a tree, their order, and
//!   trees in canonical form;
//! - [`level`]: what one component of a path does to one tree;
//! - [`store`], [`find`]: where pending trees are kept and where existing
//!   trees come from;
//! - [`walk`]: what an edit does to the pending trees;
//! - [`flush`], [`flush_order`]: how the pending trees are written, and the
//!   order that a write keeps;
//! - [`editor`]: the session that ties them together.
pub mod editor;
pub mod entry;
pub mod find;
pub mod flush;
pub mod flush_order;
pub mod level;
pub mod object_id;
pub mod order;
pub mod path;
pub mod store;
pub mod tree;
pub mod walk;

pub use editor::Editor;
pub use entry::{Entry, EntryKind, EntryMode};
pub use find::{Find, FindError};
pub use object_id::ObjectId;
pub use tree::Tree;
