//! A minimal version-control engine: a content-addressed object store, a
//! reference namespace, tree and commit objects, commit-graph traversal and
//! three-way merging.
//!
//! Every operation works on values held in memory. A [`data::Repository`]
//! stands for one storage root; the working directory is handed in as
//! [`worktree::Node`]s and handed back as a map from path to content. Reading
//! and writing the file system is left to the caller, and so is the way in
//! which two texts are compared or three are merged: [`diff::diff_trees`] and
//! [`base::merge`] take it as a function.
//!
//! The modules, from the ground up:
//!
//! - [`outside`]: the SHA-1 digest and the few string operations that are
//!   taken on trust;
//! - [`text`], [`hex`], [`order`], [`strmap`]: characters, hexadecimal
//!   rendering, the order of names, and an ordered map keyed by strings;
//! - [`data`]: the object store and the reference store;
//! - [`tree`], [`commits`], [`worktree`]: what trees, commits and working
//!   directories are, and how the first two are written and read;
//! - [`base`]: the operations of a repository;
//! - [`diff`]: trees side by side;
//! - [`remote`]: exchange between two repositories;
//! - [`laws`], [`roundtrip`]: what holds of all this.

pub mod base;
pub mod commits;
pub mod data;
pub mod diff;
pub mod error;
pub mod hex;
pub mod laws;
pub mod order;
pub mod outside;
pub mod remote;
pub mod roundtrip;
pub mod strmap;
pub mod text;
pub mod tree;
pub mod worktree;
