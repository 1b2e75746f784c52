//! Verified core of a single-file Markdown viewer: the document model
//! (parsed with comrak), syntax highlighting (syntect), a TeX subset, a
//! Mermaid subset with layered flowchart ranks, vim-style navigation, the
//! viewer's own decisions (selection segments, rows, key map, reload) and
//! what a file-watch batch means.

pub mod text;
pub mod ast;
pub mod highlight;
pub mod math;
pub mod mermaid;
pub mod markdown;
pub mod theme;
pub mod view;
pub mod vim;
pub mod watch;
