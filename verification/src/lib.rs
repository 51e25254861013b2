//! Per-commit codebase statistics over the first-parent history of a git
//! branch: the counting, exclusion, caching and output-row logic.
pub mod counts;
pub mod excludes;
pub mod blob;
pub mod languages;
pub mod world;
pub mod repo;
pub mod counter;
pub mod walk;
pub mod output;
pub mod skips;
