//! Threaded comments: a flat list of comment records, each naming its parent
//! by identifier, is assembled into a forest of nested comment nodes.
//!
//! [`build_tree`] is the entry point. [`forest`] says, as mathematics, what
//! the forest of a list of records is, and [`laws`] holds what is proved of
//! it for every input. [`request`] checks a comment on its way in.

pub mod builder;
pub mod forest;
pub mod laws;
pub mod node;
pub mod policy;
pub mod positions;
pub mod record;
pub mod request;

pub use builder::{build_tree, build_tree_with_policy, parent_indices, visible_only};
pub use node::{CommentNode, NodeModel};
pub use policy::{OrphanPolicy, TreeError};
pub use record::{CommentRecord, RecordModel, Timestamp};
pub use request::{CommentReq, InvalidFields, NewComment};
