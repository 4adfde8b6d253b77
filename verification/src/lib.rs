//! A transactional actor-state engine over a content-addressed block store:
//! a persistent hash-array-mapped trie, a map with an undo history, and the
//! state tree that ties them together. Around it stand the manifest of the
//! built-in actors, the kernel's view of one invocation, and a harness that
//! populates a state for trials.

pub mod actor;
pub mod address;
pub mod amount;
pub mod bytes;
pub mod cbor;
pub mod cid;
pub mod digest;
pub mod error;
pub mod hamt;
pub mod history_map;
pub mod init_actor;
pub mod ipld;
pub mod kernel;
pub mod laws;
pub mod manifest;
pub mod state_tree;
pub mod store;
pub mod syscalls;
pub mod tester;
pub mod varint;
pub mod version;
