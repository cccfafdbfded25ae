//! Obsidian-flavoured markdown rewriting for mdBook: the text passes.
use vstd::prelude::*;

pub mod text;
pub mod lines;
pub mod breaks;
pub mod links;
pub mod spans;
pub mod trusted;
pub mod anchors;
pub mod paths;
pub mod components;
pub mod obsidian_syntax;
pub mod lightbox;
pub mod embed;
pub mod frontmatter;
pub mod excalidraw;
pub mod backlinks;
pub mod toc;
pub mod chapters;

verus! {
} // verus!
