//! YouTube embeds: a line that is only a YouTube URL (bare, as a link, or
//! as an image embed) keeps the URL as a link and gets a player below it.
use vstd::prelude::*;
use crate::text::{self, chars_of, is_whitespace, contains_exec, find_exec, push_all, push_str, slice_vec, starts_with_exec, string_of, trim_vec};
use crate::lines::{self, fence_step, split_lines_exec};
use crate::links::{self, next_md_link_exec};

verus! {

/// The player's style sheet, added once to pages that embed a video.
pub const EMBED_CSS: &'static str = "<style>
.yt-embed { margin: 1em auto; }
.yt-embed iframe { width: 100%; aspect-ratio: 16/9; border: none; display: block; }
</style>
";

pub open spec fn youtu_be_https() -> Seq<char> {
    "https://youtu.be/"@
}

pub open spec fn youtu_be_http() -> Seq<char> {
    "http://youtu.be/"@
}

/// The text of `s` up to the first character that `stop` holds of.
pub open spec fn take_until(s: Seq<char>, stop: spec_fn(char) -> bool) -> Seq<char>
    decreases s.len(),
{
    if s.len() == 0 || stop(s[0]) {
        Seq::empty()
    } else {
        seq![s[0]] + take_until(s.drop_first(), stop)
    }
}

pub open spec fn short_id(rest: Seq<char>) -> Seq<char> {
    take_until(rest, |c: char| c == '?' || c == '#' || c == '&')
}

pub open spec fn watch_id(rest: Seq<char>) -> Seq<char> {
    take_until(rest, |c: char| c == '&' || c == '#')
}

/// The video id of a `youtu.be/ID` or `youtube.com/...v=ID` URL.
pub open spec fn spec_extract_youtube_id(url: Seq<char>) -> Option<Seq<char>> {
    if text::starts_with(url, youtu_be_https()) && short_id(url.skip(youtu_be_https().len() as int)).len() > 0 {
        Some(short_id(url.skip(youtu_be_https().len() as int)))
    } else if text::starts_with(url, youtu_be_http()) && short_id(url.skip(youtu_be_http().len() as int)).len() > 0 {
        Some(short_id(url.skip(youtu_be_http().len() as int)))
    } else if text::contains(url, "youtube.com"@) && text::find(url, seq!['v', '=']) is Some
        && watch_id(url.skip(text::find(url, seq!['v', '='])->0 + 2)).len() > 0 {
        Some(watch_id(url.skip(text::find(url, seq!['v', '='])->0 + 2)))
    } else {
        None
    }
}

/// The player for a video id.
pub open spec fn spec_make_embed(id: Seq<char>) -> Seq<char> {
    "<div class=\"yt-embed\"><iframe src=\"https://www.youtube.com/embed/"@ + id
        + "\" frameborder=\"0\" allow=\"accelerometer; autoplay; clipboard-write; encrypted-media; gyroscope; picture-in-picture\" allowfullscreen loading=\"lazy\"></iframe></div>"@
}

pub open spec fn self_link(url: Seq<char>) -> Seq<char> {
    seq!['['] + url + seq![']', '('] + url + seq![')']
}

/// The text holds white space somewhere.
pub open spec fn has_ws(s: Seq<char>) -> bool {
    exists|i: int| 0 <= i < s.len() && text::is_ws(#[trigger] s[i])
}

/// The video id when the whole (trimmed) line is a bare YouTube URL: no
/// white space in it, so no other words on the line.
pub open spec fn bare_video_id(content: Seq<char>) -> Option<Seq<char>> {
    if has_ws(content) {
        None
    } else {
        spec_extract_youtube_id(content)
    }
}

/// For a (trimmed) line that is only a YouTube URL, a bare one standing
/// alone or the whole of a markdown link: the URL as a link, and the player.
pub open spec fn spec_check_embed_line(content: Seq<char>) -> Option<(Seq<char>, Seq<char>)> {
    match bare_video_id(content) {
        Some(id) => Some((self_link(content), spec_make_embed(id))),
        None => match links::next_md_link(content, 0) {
            Some(m) => if m.start == 0 && m.end() == content.len() {
                match spec_extract_youtube_id(m.url(content)) {
                    Some(id) => Some((self_link(m.url(content)), spec_make_embed(id))),
                    None => None,
                }
            } else {
                None
            },
            None => None,
        },
    }
}

pub open spec fn spec_has_youtube(content: Seq<char>) -> bool {
    text::contains(content, "youtu.be/"@) || text::contains(content, "youtube.com/watch"@)
}

/// A line as it is written out: a video line becomes its link and its
/// player, set apart by blank lines.
pub open spec fn embed_line(line: Seq<char>) -> Seq<char> {
    match spec_check_embed_line(text::trim(line)) {
        Some(p) => "\n\n"@ + p.0 + "\n\n"@ + p.1 + "\n\n"@,
        None => line,
    }
}

/// Whether a prose line among the first `k` lines is a video line.
pub open spec fn has_embed_before(ls: Seq<Seq<char>>, k: int) -> bool {
    exists|i: int| 0 <= i < k && !lines::verbatim(ls, i) && (#[trigger] spec_check_embed_line(text::trim(ls[i]))) is Some
}

/// The chapter with its video lines embedded; the player style sheet is
/// appended when there was one. Chapters without a YouTube URL are unchanged.
pub open spec fn spec_process(content: Seq<char>) -> Seq<char> {
    let ls = lines::split_lines(content);
    let body = lines::join_lines(lines::map_prose(ls, |l: Seq<char>| embed_line(l)));
    if !spec_has_youtube(content) {
        content
    } else if has_embed_before(ls, ls.len() as int) {
        body + seq!['\n'] + EMBED_CSS@
    } else {
        body
    }
}

fn take_until_exec(s: &[char], stop_q: bool) -> (res: Vec<char>)
    ensures
        res@ == if stop_q { short_id(s@) } else { watch_id(s@) },
{
    let ghost stop = if stop_q { |c: char| c == '?' || c == '#' || c == '&' } else { |c: char| c == '&' || c == '#' };
    let mut k: usize = 0;
    assert(s@.skip(0) =~= s@);
    while k < s.len() && !(s[k] == '#' || s[k] == '&' || (stop_q && s[k] == '?'))
        invariant
            k <= s.len(),
            stop == if stop_q { |c: char| c == '?' || c == '#' || c == '&' } else { |c: char| c == '&' || c == '#' },
            take_until(s@, stop) == s@.take(k as int) + take_until(s@.skip(k as int), stop),
        decreases s.len() - k,
    {
        assert(s@.skip(k as int).drop_first() =~= s@.skip(k + 1));
        assert(s@.take(k + 1) =~= s@.take(k as int) + seq![s@[k as int]]);
        k += 1;
    }
    assert(take_until(s@.skip(k as int), stop) =~= Seq::<char>::empty());
    assert(s@.take(k as int) + Seq::<char>::empty() =~= s@.take(k as int));
    slice_vec(s, 0, k)
}

/// The video id of a YouTube URL.
pub fn extract_youtube_id(url: &str) -> (r: Option<String>)
    ensures
        r is None <==> spec_extract_youtube_id(url@) is None,
        r matches Some(id) ==> spec_extract_youtube_id(url@) == Some(id@),
{
    let uv = chars_of(url);
    let u = uv.as_slice();
    let p1 = chars_of("https://youtu.be/");
    let p2 = chars_of("http://youtu.be/");
    if starts_with_exec(u, p1.as_slice()) {
        let rest = &u[p1.len()..u.len()];
        assert(rest@ =~= u@.skip(p1@.len() as int));
        let id = take_until_exec(rest, true);
        if id.len() > 0 {
            return Some(string_of(id.as_slice()));
        }
    }
    if starts_with_exec(u, p2.as_slice()) {
        let rest = &u[p2.len()..u.len()];
        assert(rest@ =~= u@.skip(p2@.len() as int));
        let id = take_until_exec(rest, true);
        if id.len() > 0 {
            return Some(string_of(id.as_slice()));
        }
    }
    let yt = chars_of("youtube.com");
    if contains_exec(u, yt.as_slice()) {
        let v: [char; 2] = ['v', '='];
        let vs = v.as_slice();
        assert(vs@ =~= seq!['v', '=']);
        match find_exec(u, vs) {
            Some(pos) => {
                proof {
                    text::lemma_find_from_some(u@, seq!['v', '='], 0);
                }
                let after = &u[pos + 2..u.len()];
                assert(after@ =~= u@.skip(pos + 2));
                let id = take_until_exec(after, false);
                if id.len() > 0 {
                    return Some(string_of(id.as_slice()));
                }
            },
            None => {},
        }
    }
    None
}

/// The player for a video id.
pub fn make_embed(video_id: &str) -> (res: String)
    ensures
        res@ == spec_make_embed(video_id@),
{
    let mut out: Vec<char> = Vec::new();
    push_str(&mut out, "<div class=\"yt-embed\"><iframe src=\"https://www.youtube.com/embed/");
    push_str(&mut out, video_id);
    push_str(
        &mut out,
        "\" frameborder=\"0\" allow=\"accelerometer; autoplay; clipboard-write; encrypted-media; gyroscope; picture-in-picture\" allowfullscreen loading=\"lazy\"></iframe></div>",
    );
    string_of(out.as_slice())
}

/// Whether the chapter mentions a YouTube URL at all.
pub fn has_youtube(content: &str) -> (b: bool)
    ensures
        b == spec_has_youtube(content@),
{
    let cv = chars_of(content);
    let a = chars_of("youtu.be/");
    let b = chars_of("youtube.com/watch");
    contains_exec(cv.as_slice(), a.as_slice()) || contains_exec(cv.as_slice(), b.as_slice())
}

fn self_link_exec(url: &[char]) -> (res: Vec<char>)
    ensures
        res@ == self_link(url@),
{
    let mut out: Vec<char> = Vec::new();
    out.push('[');
    push_all(&mut out, url);
    out.push(']');
    out.push('(');
    push_all(&mut out, url);
    out.push(')');
    out
}

/// The link line and the player when a (trimmed) line is only a YouTube URL.
pub fn check_embed_line(content: &str) -> (r: Option<(String, String)>)
    ensures
        r is None <==> spec_check_embed_line(content@) is None,
        r matches Some(p) ==> spec_check_embed_line(content@) == Some((p.0@, p.1@)),
{
    let cv = chars_of(content);
    let c = cv.as_slice();
    let mut k: usize = 0;
    while k < c.len() && !is_whitespace(c[k])
        invariant
            k <= c@.len(),
            forall|i: int| 0 <= i < k ==> !text::is_ws(#[trigger] c@[i]),
        decreases c@.len() - k,
    {
        k += 1;
    }
    let bare = if k < c.len() {
        None
    } else {
        extract_youtube_id(content)
    };
    match bare {
        Some(id) => {
            let l = self_link_exec(c);
            return Some((string_of(l.as_slice()), make_embed(id.as_str())));
        },
        None => {},
    }
    match next_md_link_exec(c, 0) {
        Some((st, _bang, close, ue)) => {
            proof {
                links::lemma_next_md_link(c@, 0);
            }
            if st == 0 && ue + 1 == c.len() {
                let url = &c[close + 2..ue];
                match extract_youtube_id(string_of(url).as_str()) {
                    Some(id) => {
                        let l = self_link_exec(url);
                        Some((string_of(l.as_slice()), make_embed(id.as_str())))
                    },
                    None => None,
                }
            } else {
                None
            }
        },
        None => None,
    }
}

/// Embeds a player under every line that is only a YouTube URL, outside
/// fenced code blocks.
pub fn process(content: &str) -> (res: String)
    ensures
        res@ == spec_process(content@),
{
    if !has_youtube(content) {
        return content.to_owned();
    }
    let cv = chars_of(content);
    let ls = split_lines_exec(cv.as_slice());
    let ghost gl = lines::split_lines(cv@);
    let ghost f = |l: Seq<char>| embed_line(l);
    let ghost outl = lines::map_prose(gl, f);
    let n = ls.len();
    let mut out: Vec<char> = Vec::new();
    let mut st: Option<(char, usize)> = None;
    let mut had_embed: bool = false;
    let mut i: usize = 0;
    assert(outl.take(0) =~= Seq::<Seq<char>>::empty());
    while i < n
        invariant
            i <= n,
            n == ls@.len(),
            ls@.len() == gl.len(),
            gl == lines::split_lines(cv@),
            cv@ == content@,
            forall|j: int| 0 <= j < ls@.len() ==> #[trigger] ls@[j]@ == gl[j],
            f == (|l: Seq<char>| embed_line(l)),
            outl == lines::map_prose(gl, f),
            lines::fence_view(st) == lines::fence_before(gl, i as int),
            out@ == lines::join_lines(outl.take(i as int)),
            had_embed == has_embed_before(gl, i as int),
        decreases n - i,
    {
        let line = ls[i].as_slice();
        assert(line@ == gl[i as int]);
        let verb = fence_step(&mut st, line);
        proof {
            lines::lemma_join_take(outl, i as int);
        }
        assert(outl[i as int] == if lines::verbatim(gl, i as int) { gl[i as int] } else { embed_line(gl[i as int]) });
        let mut piece: Vec<char> = Vec::new();
        let mut found = false;
        if verb {
            push_all(&mut piece, line);
        } else {
            let clean = trim_vec(line);
            match check_embed_line(string_of(clean.as_slice()).as_str()) {
                Some((url_line, embed_html)) => {
                    found = true;
                    push_str(&mut piece, "\n\n");
                    push_str(&mut piece, url_line.as_str());
                    push_str(&mut piece, "\n\n");
                    push_str(&mut piece, embed_html.as_str());
                    push_str(&mut piece, "\n\n");
                },
                None => {
                    push_all(&mut piece, line);
                },
            }
        }
        assert(piece@ == outl[i as int]);
        assert(found == (!lines::verbatim(gl, i as int) && spec_check_embed_line(text::trim(gl[i as int])) is Some));
        assert(has_embed_before(gl, i + 1) == (had_embed || found)) by {
            if found {
                assert(spec_check_embed_line(text::trim(gl[i as int])) is Some);
            }
            if has_embed_before(gl, i + 1) && !found {
                let j = choose|j: int| 0 <= j < i + 1 && !lines::verbatim(gl, j) && (#[trigger] spec_check_embed_line(text::trim(gl[j]))) is Some;
                assert(j < i);
            }
        }
        had_embed = had_embed || found;
        if i > 0 {
            out.push('\n');
        }
        push_all(&mut out, piece.as_slice());
        i += 1;
    }
    assert(outl.take(n as int) =~= outl);
    if had_embed {
        out.push('\n');
        push_str(&mut out, EMBED_CSS);
    }
    string_of(out.as_slice())
}

/// A chapter that mentions no YouTube URL is left as it is.
pub proof fn law_chapter_without_videos_unchanged(content: Seq<char>)
    ensures
        !spec_has_youtube(content) ==> spec_process(content) == content,
{
}

} // verus!
