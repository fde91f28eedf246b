//! Storage and indexing core of a hierarchical note-taking application.
//!
//! A virtual namespace of folders, notes and canvases is mapped onto one of
//! two backing stores: an application-managed document store, or a real
//! directory that the user designated as a vault. The crate models both
//! stores as plain values and verifies the operations on them: the node
//! identifier codec, the vault registry, the directory scanner that yields a
//! deterministically ordered tree, the tree resolver that chooses between
//! the two stores, the content store and the node mutators.

pub mod text;
pub mod paths;
pub mod codec;
pub mod errors;
pub mod fsmodel;
pub mod fsops;
pub mod node;
pub mod scan;
pub mod world;
pub mod fresh;
pub mod resolver;
pub mod content;
pub mod mutate;
