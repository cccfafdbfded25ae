//! Excalidraw drawings: links to `.excalidraw` files become links to viewer
//! pages, and the viewer pages are built from the drawing's scene JSON.
use vstd::prelude::*;

pub mod page;
pub mod scene;
pub mod links;

pub use page::{excalidraw_href, excalidraw_slug, make_excalidraw_chapter, make_excalidraw_error_chapter, ExcalidrawChapter};
pub use links::{drawing_chapter_ref, process_excalidraw, refs_to_inject, replace_links, replace_wikilinks, ExcalidrawRef};
pub use scene::{is_excalidraw_md, scene_file_candidates, scene_not_found_message, excalidraw_md_json, extract_fenced_block, extract_json_from_excalidraw_md, find_matching_close_brace, inject_embedded_files, inject_into_files_object, mime_for_extension, parse_embedded_files, EmbeddedImage};

verus! {
} // verus!
