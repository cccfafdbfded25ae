//! Obsidian-flavoured syntax turned into standard markdown and HTML:
//! comments are removed, block ids become anchors, callouts become styled
//! blocks, highlights become `<mark>`, and wikilinks become markdown links.
use vstd::prelude::*;
use crate::text;

pub mod comments;
pub mod block_ids;
pub mod highlights;
pub mod callouts;
pub mod wikilinks;

pub use comments::{remove_comments, strip_line_comments};
pub use block_ids::{convert_block_ids, convert_block_id_line, is_plain_paragraph};
pub use highlights::{convert_highlights, highlight_line, highlight_segment};
pub use callouts::{convert_callouts, normalize_callout_type, parse_callout_header, render_callout};
pub use wikilinks::{convert_wikilinks, wikilink_line};

verus! {

/// The style sheet injected into pages that hold a callout.
pub const CALLOUT_CSS: &'static str = r"<style>
.callout{border-left:4px solid #888;border-radius:0 4px 4px 0;margin:1em 0;overflow:hidden}
.callout-title{font-weight:600;padding:.4em .8em;background:rgba(0,0,0,.07)}
.callout-content{padding:.4em .8em}.callout-content>:last-child{margin-bottom:0}
details.callout>summary{cursor:pointer;list-style:none;font-weight:600;padding:.4em .8em;background:rgba(0,0,0,.07)}
details.callout>summary::-webkit-details-marker{display:none}
.callout-note,.callout-info,.callout-todo{border-color:#4a9eff;background:rgba(74,158,255,.06)}
.callout-note .callout-title,.callout-info .callout-title,.callout-todo .callout-title,
details.callout-note>summary{background:rgba(74,158,255,.18)}
.callout-abstract{border-color:#00bcd4;background:rgba(0,188,212,.06)}
.callout-abstract .callout-title,details.callout-abstract>summary{background:rgba(0,188,212,.18)}
.callout-tip{border-color:#00c853;background:rgba(0,200,83,.06)}
.callout-tip .callout-title,details.callout-tip>summary{background:rgba(0,200,83,.18)}
.callout-success{border-color:#00c853;background:rgba(0,200,83,.06)}
.callout-success .callout-title,details.callout-success>summary{background:rgba(0,200,83,.18)}
.callout-question{border-color:#ffb300;background:rgba(255,179,0,.06)}
.callout-question .callout-title,details.callout-question>summary{background:rgba(255,179,0,.18)}
.callout-warning{border-color:#ff6d00;background:rgba(255,109,0,.06)}
.callout-warning .callout-title,details.callout-warning>summary{background:rgba(255,109,0,.18)}
.callout-failure{border-color:#f44336;background:rgba(244,67,54,.06)}
.callout-failure .callout-title,details.callout-failure>summary{background:rgba(244,67,54,.18)}
.callout-danger{border-color:#f44336;background:rgba(244,67,54,.06)}
.callout-danger .callout-title,details.callout-danger>summary{background:rgba(244,67,54,.18)}
.callout-bug{border-color:#d50000;background:rgba(213,0,0,.06)}
.callout-bug .callout-title,details.callout-bug>summary{background:rgba(213,0,0,.18)}
.callout-example{border-color:#7c4dff;background:rgba(124,77,255,.06)}
.callout-example .callout-title,details.callout-example>summary{background:rgba(124,77,255,.18)}
.callout-quote{border-color:#9e9e9e;background:rgba(158,158,158,.06)}
.callout-quote .callout-title,details.callout-quote>summary{background:rgba(158,158,158,.18)}
</style>";

/// The passes in order: comments, block ids, callouts, highlights,
/// wikilinks; the callout style sheet is put first when a callout was found.
pub open spec fn spec_process(content: Seq<char>) -> Seq<char> {
    let s1 = comments::spec_remove_comments(content);
    let s2 = block_ids::spec_convert_block_ids(s1);
    let c = callouts::spec_convert_callouts(s2);
    let s4 = highlights::spec_convert_highlights(c.0);
    let s5 = wikilinks::spec_convert_wikilinks(s4);
    if c.1 {
        CALLOUT_CSS@ + "\n\n"@ + s5
    } else {
        s5
    }
}

/// Applies all Obsidian-flavoured syntax conversions to a chapter.
pub fn process(content: &str, _verbose: bool) -> (res: String)
    ensures
        res@ == spec_process(content@),
{
    let s1 = comments::remove_comments(content);
    let s2 = block_ids::convert_block_ids(s1.as_str());
    let (s3, had_callouts) = callouts::convert_callouts(s2.as_str());
    let s4 = highlights::convert_highlights(s3.as_str());
    let s5 = wikilinks::convert_wikilinks(s4.as_str());
    if had_callouts {
        let mut out: Vec<char> = Vec::new();
        crate::text::push_str(&mut out, CALLOUT_CSS);
        crate::text::push_str(&mut out, "\n\n");
        crate::text::push_str(&mut out, s5.as_str());
        crate::text::string_of(out.as_slice())
    } else {
        s5
    }
}

/// A chapter with none of the Obsidian constructs (no `%%`, `^`, `[!`,
/// `==` or `[[`) passes through the Obsidian syntax pass unchanged, and
/// gets no callout style sheet.
pub proof fn law_plain_chapter_unchanged(content: Seq<char>)
    requires
        !text::contains(content, "%%"@),
        !content.contains('^'),
        !text::contains(content, "[!"@),
        !text::contains(content, "=="@),
        !text::contains(content, "[["@),
    ensures
        spec_process(content) == content,
{
    comments::law_chapter_without_comments_unchanged(content);
    block_ids::law_chapter_without_block_ids_unchanged(content);
    callouts::law_chapter_without_callouts_unchanged(content);
    highlights::law_chapter_without_highlights_unchanged(content);
    wikilinks::law_chapter_without_wikilinks_unchanged(content);
}

} // verus!
