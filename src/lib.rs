//! A configurable filesystem snapshot engine.
//!
//! The library holds the decisions of a snapshot run: how destination paths are
//! derived, how tar headers are laid out, which entries are linked, copied or
//! archived, how the per-directory policy tree dispatches entries, and how the
//! catalog of past snapshots is parsed, written and pruned. The program around it
//! performs the filesystem work that those decisions name.
pub mod backup;
pub mod catalog;
pub mod compression;
pub mod config;
pub mod copy;
pub mod hardlink;
pub mod json;
pub mod path;
pub mod tar;
pub mod text;
