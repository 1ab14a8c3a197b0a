//! repo2md: an ignore-aware repository-to-Markdown rendering engine.
//!
//! The library works on an in-memory snapshot of a directory tree.  It
//! decides, for every entry, whether it is included or excluded under
//! gitignore-style rules and include overrides, classifies included files
//! as text, binary or symbolic link, and renders a deterministic Markdown
//! document: per-directory headings, ASCII tree diagrams, and fenced
//! source blocks.
pub mod bytestr;
pub mod glob;
pub mod rules;
pub mod snapshot;
pub mod doc;
pub mod render;
pub mod engine;
pub mod laws;
