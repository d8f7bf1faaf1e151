//! A verified CommonMark-flavoured Markdown block parser and HTML renderer.
//!
//! The library splits a document into physical lines, runs a line-oriented
//! block parser that maintains a stack of open containers (block quotes,
//! lists, list items) and leaves (headings, paragraphs, code and HTML
//! blocks), and serialises the resulting block tree to HTML.  Inline
//! parsing is out of scope: text runs are carried verbatim and only a small
//! escape pass is applied when rendering.

pub mod ast;
pub mod chars;
pub mod matchers;
pub mod model;
pub mod parser;
pub mod props;
pub mod render;
pub mod tree;

pub use parser::to_html;
