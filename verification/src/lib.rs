//! A minimal ad-hoc build pipeline for C projects without a build
//! descriptor: it classifies files by artifact kind, walks a directory tree
//! for each kind, extracts include references from translation units,
//! reconciles the declared references against the discovered files,
//! synthesizes the compile and link invocations, and steps the staged
//! pipeline that runs them.

pub mod commands;
pub mod context;
pub mod includes;
pub mod kinds;
pub mod paths;
pub mod pipeline;
pub mod reconcile;
pub mod walker;
