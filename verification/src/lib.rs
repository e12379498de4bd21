//! Incremental discovery of marked functions across a tree of source files.
//!
//! A pass walks the module tree that starts at a root file, collects every
//! function that carries the marker attribute, and emits one registration per
//! function. A cache keyed by file path lets a pass reuse what an earlier pass
//! found in files whose modification time has not changed.
//!
//! The library never touches the file system. A [`pass::Pass`] asks for what
//! it needs through a [`pass::Request`] and the caller hands back a
//! [`pass::Reply`].

pub mod text;
pub mod path;
pub mod source;
pub mod symbol;
pub mod declaration;
pub mod scan;
pub mod syntax;
pub mod cache;
pub mod pass;
pub mod config;
pub mod model;
pub mod simulation;
pub mod laws;
pub mod invalidation;
pub mod retention;
pub mod sharing;
