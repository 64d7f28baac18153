//! Two-way synchronisation between a project laid out on disk and an
//! in-memory tree of typed instances.
//!
//! The library holds the rules of the synchronisation and proves them:
//!
//! - [`middleware`] reads paths into snapshots and writes instances back;
//!   [`resolution`] types the values of data files, [`json`] reads them.
//! - [`dom`] and [`tree`] hold the instances, each with its parent, its
//!   children in order and the paths it was made from.
//! - [`diff`] gives the changes between a subtree and a snapshot and makes
//!   changes; [`completeness`] proves that making the changes between the
//!   two turns the one into what the other describes.
//! - [`processor`] decides what the events of the file system ask for.
//! - [`queue`] hands each change set to every subscribed client.
//! - [`engine`] puts a project, its tree and its queue together.
//!
//! Reading and writing files, waiting, and serving clients are left to the
//! program that uses the library.

pub mod changes;
pub mod completeness;
pub mod diff;
pub mod dom;
pub mod engine;
pub mod glob;
pub mod json;
pub mod meta;
pub mod middleware;
pub mod order;
pub mod processor;
pub mod project;
pub mod queue;
pub mod resolution;
pub mod snapshot;
pub mod sourcemap;
pub mod text;
pub mod tree;
pub mod util;
pub mod value;
pub mod vfs;
