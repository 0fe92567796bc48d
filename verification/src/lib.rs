//! An editor's core for schema-typed documents kept as a tree of immutable,
//! content-addressed nodes: digests and their text form, the canonical text
//! of nodes, a store of nodes by digest, paths and cursor movement, and
//! copy-on-write edits that give a new root and share every untouched
//! subtree with the old one.

pub mod action;
pub mod catalogue;
pub mod decoding;
pub mod descent;
pub mod digest;
pub mod encoding;
pub mod input;
pub mod mutation;
pub mod navigation;
pub mod ordered;
pub mod remote;
pub mod schema;
pub mod storage;
pub mod traverse;
pub mod value;

pub use action::{append, apply, delete, on_action, Action, Position, State};
pub use catalogue::create_schema;
pub use digest::{HexError, D};
pub use input::create_value;
pub use mutation::{update_node, update_node_value};
pub use navigation::{
    ancestor_with_next_child, child, find_node, find_value, first_leaf, format_path, next, parent,
    prev, Error,
};
pub use ordered::OrderedMap;
pub use remote::{accept_download, download_url, root_in_fragment, root_location, DownloadError};
pub use schema::{FieldType, ObjectType, Schema};
pub use storage::{
    get_item, get_item_untracked, get_root, get_value, node_storage, set_item, set_root, set_value,
    HasDigest, KeyValue, LocalStorage, Store,
};
pub use traverse::{children, Traversal, Visit};
pub use value::{Node, ObjectValue, Path, Selector, Type, Value, ID};
