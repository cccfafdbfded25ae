//! The link grammar of the passes.
//!
//! A markdown link is `!?[text](url)`: an optional `!`, a `[`, any text
//! without `]`, then `](`, a non-empty url without `)`, and `)`. Links are
//! found leftmost first and do not overlap. A bare URL is `http://` or
//! `https://` followed by at least one character that is neither white
//! space nor one of `[ ] < > " '`.
use vstd::prelude::*;
use crate::text::{self, find_from_exec, occurs_at_exec};

verus! {

/// A markdown link found in a text: it starts at `start` (at the `!` when
/// `bang`), its text ends at `close` (the `]`), and its url ends at
/// `url_end` (the `)`).
pub struct MdLink {
    pub start: int,
    pub bang: bool,
    pub close: int,
    pub url_end: int,
}

impl MdLink {
    pub open spec fn text_start(self) -> int {
        self.start + if self.bang { 2int } else { 1int }
    }

    pub open spec fn url_start(self) -> int {
        self.close + 2
    }

    pub open spec fn end(self) -> int {
        self.url_end + 1
    }

    pub open spec fn text(self, s: Seq<char>) -> Seq<char> {
        s.subrange(self.text_start(), self.close)
    }

    pub open spec fn url(self, s: Seq<char>) -> Seq<char> {
        s.subrange(self.url_start(), self.url_end)
    }

    pub open spec fn whole(self, s: Seq<char>) -> Seq<char> {
        s.subrange(self.start, self.end())
    }
}

pub open spec fn md_link(start: int, bang: bool, close: int, url_end: int) -> MdLink {
    MdLink { start, bang, close, url_end }
}

/// `[text](url)` with its `[` at `q`: the positions of the `]` and of the `)`.
pub open spec fn link_body(s: Seq<char>, q: int) -> Option<(int, int)> {
    if 0 <= q < s.len() && s[q] == '[' {
        match text::find_from(s, seq![']'], q + 1) {
            Some(c) => if c + 1 < s.len() && s[c + 1] == '(' {
                match text::find_from(s, seq![')'], c + 2) {
                    Some(u) => if u > c + 2 {
                        Some((c, u))
                    } else {
                        None
                    },
                    None => None,
                }
            } else {
                None
            },
            None => None,
        }
    } else {
        None
    }
}

/// The markdown link that starts exactly at `p`, if any.
pub open spec fn md_link_at(s: Seq<char>, p: int) -> Option<MdLink> {
    if 0 <= p < s.len() && s[p] == '!' && link_body(s, p + 1) is Some {
        let b = link_body(s, p + 1)->0;
        Some(MdLink { start: p, bang: true, close: b.0, url_end: b.1 })
    } else if link_body(s, p) is Some {
        let b = link_body(s, p)->0;
        Some(MdLink { start: p, bang: false, close: b.0, url_end: b.1 })
    } else {
        None
    }
}

/// The leftmost markdown link starting at or after `p`.
pub open spec fn next_md_link(s: Seq<char>, p: int) -> Option<MdLink>
    decreases s.len() - p,
{
    if p < 0 || p >= s.len() {
        None
    } else if md_link_at(s, p) is Some {
        md_link_at(s, p)
    } else {
        next_md_link(s, p + 1)
    }
}

/// A character a bare URL may hold.
pub open spec fn url_char(c: char) -> bool {
    !text::is_ws(c) && c != '[' && c != ']' && c != '<' && c != '>' && c != '"' && c != '\''
}

/// Number of URL characters at the start of `s`.
pub open spec fn url_run(s: Seq<char>) -> nat
    decreases s.len(),
{
    if s.len() > 0 && url_char(s[0]) {
        1 + url_run(s.drop_first())
    } else {
        0
    }
}

pub open spec fn https_prefix() -> Seq<char> {
    seq!['h', 't', 't', 'p', 's', ':', '/', '/']
}

pub open spec fn http_prefix() -> Seq<char> {
    seq!['h', 't', 't', 'p', ':', '/', '/']
}

/// The end of the bare URL that starts exactly at `p`, if any.
pub open spec fn url_at(s: Seq<char>, p: int) -> Option<int> {
    if text::occurs_at(s, https_prefix(), p) && url_run(s.skip(p + 8)) > 0 {
        Some(p + 8 + url_run(s.skip(p + 8)))
    } else if text::occurs_at(s, http_prefix(), p) && url_run(s.skip(p + 7)) > 0 {
        Some(p + 7 + url_run(s.skip(p + 7)))
    } else {
        None
    }
}

/// The leftmost bare URL starting at or after `p`: `(start, end)`.
pub open spec fn next_url(s: Seq<char>, p: int) -> Option<(int, int)>
    decreases s.len() - p,
{
    if p < 0 || p >= s.len() {
        None
    } else if url_at(s, p) is Some {
        Some((p, url_at(s, p)->0))
    } else {
        next_url(s, p + 1)
    }
}

pub proof fn lemma_find_char_bounds(s: Seq<char>, c: char, i: int)
    requires
        text::find_from(s, seq![c], i) is Some,
    ensures
        i <= text::find_from(s, seq![c], i)->0 < s.len(),
        s[text::find_from(s, seq![c], i)->0] == c,
        forall|j: int| i <= j < text::find_from(s, seq![c], i)->0 ==> s[j] != c,
{
    text::lemma_find_from_some(s, seq![c], i);
    let k = text::find_from(s, seq![c], i)->0;
    assert(s.subrange(k, k + 1)[0] == s[k]);
    assert forall|j: int| i <= j < k implies s[j] != c by {
        if s[j] == c {
            assert(s.subrange(j, j + 1) =~= seq![c]);
            assert(text::occurs_at(s, seq![c], j));
        }
    }
}

/// A link found at `p` lies inside `s` after `p`.
pub proof fn lemma_md_link_at(s: Seq<char>, p: int)
    requires
        md_link_at(s, p) is Some,
    ensures
        md_link_at(s, p)->0.start == p,
        p < md_link_at(s, p)->0.text_start() <= md_link_at(s, p)->0.close,
        md_link_at(s, p)->0.url_start() < md_link_at(s, p)->0.url_end,
        md_link_at(s, p)->0.end() <= s.len(),
{
    let q = if 0 <= p < s.len() && s[p] == '!' && link_body(s, p + 1) is Some { p + 1 } else { p };
    lemma_find_char_bounds(s, ']', q + 1);
    let c = text::find_from(s, seq![']'], q + 1)->0;
    lemma_find_char_bounds(s, ')', c + 2);
}

pub proof fn lemma_next_md_link(s: Seq<char>, p: int)
    requires
        next_md_link(s, p) is Some,
    ensures
        p <= next_md_link(s, p)->0.start,
        md_link_at(s, next_md_link(s, p)->0.start) == next_md_link(s, p),
        next_md_link(s, p)->0.start < next_md_link(s, p)->0.text_start() <= next_md_link(s, p)->0.close,
        next_md_link(s, p)->0.url_start() < next_md_link(s, p)->0.url_end,
        next_md_link(s, p)->0.end() <= s.len(),
        forall|j: int| p <= j < next_md_link(s, p)->0.start ==> md_link_at(s, j) is None,
    decreases s.len() - p,
{
    if md_link_at(s, p) is Some {
        lemma_md_link_at(s, p);
    } else {
        lemma_next_md_link(s, p + 1);
    }
}

pub proof fn lemma_next_md_link_none(s: Seq<char>, p: int)
    requires
        next_md_link(s, p) is None,
        0 <= p,
    ensures
        forall|j: int| p <= j ==> md_link_at(s, j) is None,
    decreases s.len() - p,
{
    if p < s.len() {
        lemma_next_md_link_none(s, p + 1);
    }
}

pub proof fn lemma_url_run_bound(s: Seq<char>)
    ensures
        url_run(s) <= s.len(),
    decreases s.len(),
{
    if s.len() > 0 && url_char(s[0]) {
        lemma_url_run_bound(s.drop_first());
    }
}

pub proof fn lemma_next_url(s: Seq<char>, p: int)
    requires
        next_url(s, p) is Some,
    ensures
        next_url(s, p) matches Some(m) && p <= m.0 < m.1 <= s.len(),
    decreases s.len() - p,
{
    if url_at(s, p) is Some {
        lemma_url_run_bound(s.skip(p + 8));
        lemma_url_run_bound(s.skip(p + 7));
    } else {
        lemma_next_url(s, p + 1);
    }
}

/// A wikilink `!?[[inner]]` found in a text: it starts at `start` (at the
/// `!` when `bang`) and its inner text ends at `close` (the first `]`).
pub struct WikiLink {
    pub start: int,
    pub bang: bool,
    pub close: int,
}

impl WikiLink {
    pub open spec fn inner_start(self) -> int {
        self.start + if self.bang { 3int } else { 2int }
    }

    pub open spec fn end(self) -> int {
        self.close + 2
    }

    pub open spec fn inner(self, s: Seq<char>) -> Seq<char> {
        s.subrange(self.inner_start(), self.close)
    }

    pub open spec fn whole(self, s: Seq<char>) -> Seq<char> {
        s.subrange(self.start, self.end())
    }
}

pub open spec fn wiki_link(start: int, bang: bool, close: int) -> WikiLink {
    WikiLink { start, bang, close }
}

/// `[[inner]]` with its first `[` at `q`: the position of the first `]`,
/// which must be followed by a second `]`; `inner` is not empty.
pub open spec fn wiki_body(s: Seq<char>, q: int) -> Option<int> {
    if 0 <= q && q + 1 < s.len() && s[q] == '[' && s[q + 1] == '[' {
        match text::find_from(s, seq![']'], q + 2) {
            Some(c) => if c > q + 2 && c + 1 < s.len() && s[c + 1] == ']' {
                Some(c)
            } else {
                None
            },
            None => None,
        }
    } else {
        None
    }
}

/// The wikilink that starts exactly at `p`, if any.
pub open spec fn wiki_at(s: Seq<char>, p: int) -> Option<WikiLink> {
    if 0 <= p < s.len() && s[p] == '!' && wiki_body(s, p + 1) is Some {
        Some(wiki_link(p, true, wiki_body(s, p + 1)->0))
    } else if wiki_body(s, p) is Some {
        Some(wiki_link(p, false, wiki_body(s, p)->0))
    } else {
        None
    }
}

/// The leftmost wikilink starting at or after `p`.
pub open spec fn next_wiki(s: Seq<char>, p: int) -> Option<WikiLink>
    decreases s.len() - p,
{
    if p < 0 || p >= s.len() {
        None
    } else if wiki_at(s, p) is Some {
        wiki_at(s, p)
    } else {
        next_wiki(s, p + 1)
    }
}

pub proof fn lemma_next_wiki(s: Seq<char>, p: int)
    requires
        next_wiki(s, p) is Some,
    ensures
        p <= next_wiki(s, p)->0.start,
        wiki_at(s, next_wiki(s, p)->0.start) == next_wiki(s, p),
        next_wiki(s, p)->0.start < next_wiki(s, p)->0.inner_start() < next_wiki(s, p)->0.close,
        next_wiki(s, p)->0.end() <= s.len(),
    decreases s.len() - p,
{
    if wiki_at(s, p) is Some {
        let q = if 0 <= p < s.len() && s[p] == '!' && wiki_body(s, p + 1) is Some { p + 1 } else { p };
        lemma_find_char_bounds(s, ']', q + 2);
    } else {
        lemma_next_wiki(s, p + 1);
    }
}

fn wiki_body_exec(s: &[char], q: usize) -> (r: Option<usize>)
    ensures
        match r {
            Some(c) => wiki_body(s@, q as int) == Some(c as int),
            None => wiki_body(s@, q as int) is None,
        },
{
    if q < s.len() && q + 1 < s.len() && s[q] == '[' && s[q + 1] == '[' {
        match find_char_from(s, q + 2, ']') {
            Some(c) => {
                proof {
                    lemma_find_char_bounds(s@, ']', q + 2);
                }
                if c > q + 2 && c + 1 < s.len() && s[c + 1] == ']' {
                    Some(c)
                } else {
                    None
                }
            },
            None => None,
        }
    } else {
        None
    }
}

/// The wikilink at `p`: `(bang, close)`.
pub fn wiki_at_exec(s: &[char], p: usize) -> (r: Option<(bool, usize)>)
    ensures
        match r {
            Some(w) => wiki_at(s@, p as int) == Some(wiki_link(p as int, w.0, w.1 as int)),
            None => wiki_at(s@, p as int) is None,
        },
{
    if p < s.len() && s[p] == '!' {
        match wiki_body_exec(s, p + 1) {
            Some(c) => {
                return Some((true, c));
            },
            None => {},
        }
    }
    match wiki_body_exec(s, p) {
        Some(c) => Some((false, c)),
        None => None,
    }
}

/// A wikilink found at `p` lies inside `s` after `p`.
pub proof fn lemma_wiki_at(s: Seq<char>, p: int)
    requires
        wiki_at(s, p) is Some,
    ensures
        wiki_at(s, p)->0.start == p,
        p < wiki_at(s, p)->0.inner_start() < wiki_at(s, p)->0.close,
        wiki_at(s, p)->0.end() <= s.len(),
{
    let q = if 0 <= p < s.len() && s[p] == '!' && wiki_body(s, p + 1) is Some { p + 1 } else { p };
    lemma_find_char_bounds(s, ']', q + 2);
}

/// The leftmost wikilink at or after `p`: `(start, bang, close)`.
pub fn next_wiki_exec(s: &[char], p: usize) -> (r: Option<(usize, bool, usize)>)
    ensures
        match r {
            Some(w) => next_wiki(s@, p as int) == Some(wiki_link(w.0 as int, w.1, w.2 as int)),
            None => next_wiki(s@, p as int) is None,
        },
{
    let mut k: usize = p;
    while k < s.len()
        invariant
            p <= k,
            next_wiki(s@, p as int) == next_wiki(s@, k as int),
        decreases s.len() - k,
    {
        if s[k] == '!' {
            match wiki_body_exec(s, k + 1) {
                Some(c) => {
                    return Some((k, true, c));
                },
                None => {},
            }
        }
        match wiki_body_exec(s, k) {
            Some(c) => {
                return Some((k, false, c));
            },
            None => {},
        }
        k += 1;
    }
    None
}

/// Position of the first `c` at or after `i`.
pub fn find_char_from(s: &[char], i: usize, c: char) -> (r: Option<usize>)
    ensures
        match r {
            Some(k) => text::find_from(s@, seq![c], i as int) == Some(k as int),
            None => text::find_from(s@, seq![c], i as int) is None,
        },
{
    let p: [char; 1] = [c];
    assert(p@ =~= seq![c]);
    find_from_exec(s, i, p.as_slice())
}

fn link_body_exec(s: &[char], q: usize) -> (r: Option<(usize, usize)>)
    ensures
        match r {
            Some(b) => link_body(s@, q as int) == Some((b.0 as int, b.1 as int)),
            None => link_body(s@, q as int) is None,
        },
{
    if q < s.len() && s[q] == '[' {
        match find_char_from(s, q + 1, ']') {
            Some(c) => {
                proof {
                    lemma_find_char_bounds(s@, ']', q + 1);
                }
                if c + 1 < s.len() && s[c + 1] == '(' {
                    match find_char_from(s, c + 2, ')') {
                        Some(u) => {
                            if u > c + 2 {
                                Some((c, u))
                            } else {
                                None
                            }
                        },
                        None => None,
                    }
                } else {
                    None
                }
            },
            None => None,
        }
    } else {
        None
    }
}

/// The markdown link at `p`: `(bang, close, url_end)`.
pub fn md_link_at_exec(s: &[char], p: usize) -> (r: Option<(bool, usize, usize)>)
    ensures
        match r {
            Some(m) => md_link_at(s@, p as int) == Some(
                MdLink { start: p as int, bang: m.0, close: m.1 as int, url_end: m.2 as int },
            ),
            None => md_link_at(s@, p as int) is None,
        },
{
    if p < s.len() && s[p] == '!' {
        match link_body_exec(s, p + 1) {
            Some(b) => {
                return Some((true, b.0, b.1));
            },
            None => {},
        }
    }
    match link_body_exec(s, p) {
        Some(b) => Some((false, b.0, b.1)),
        None => None,
    }
}

/// The leftmost markdown link at or after `p`: `(start, bang, close, url_end)`.
pub fn next_md_link_exec(s: &[char], p: usize) -> (r: Option<(usize, bool, usize, usize)>)
    ensures
        match r {
            Some(m) => next_md_link(s@, p as int) == Some(
                MdLink { start: m.0 as int, bang: m.1, close: m.2 as int, url_end: m.3 as int },
            ),
            None => next_md_link(s@, p as int) is None,
        },
{
    let mut k: usize = p;
    while k < s.len()
        invariant
            p <= k,
            next_md_link(s@, p as int) == next_md_link(s@, k as int),
        decreases s.len() - k,
    {
        match md_link_at_exec(s, k) {
            Some(m) => {
                return Some((k, m.0, m.1, m.2));
            },
            None => {},
        }
        k += 1;
    }
    None
}

pub fn is_url_char(c: char) -> (b: bool)
    ensures
        b == url_char(c),
{
    !text::is_whitespace(c) && c != '[' && c != ']' && c != '<' && c != '>' && c != '"' && c
        != '\''
}

fn url_run_exec(s: &[char], i: usize) -> (n: usize)
    requires
        i <= s.len(),
    ensures
        n == url_run(s@.skip(i as int)),
        i + n <= s.len(),
{
    let mut k: usize = i;
    while k < s.len() && is_url_char(s[k])
        invariant
            i <= k <= s.len(),
            url_run(s@.skip(i as int)) == (k - i) + url_run(s@.skip(k as int)),
        decreases s.len() - k,
    {
        assert(s@.skip(k as int).drop_first() =~= s@.skip(k + 1));
        k += 1;
    }
    k - i
}

/// The end of the bare URL starting at `p`.
pub fn url_at_exec(s: &[char], p: usize) -> (r: Option<usize>)
    ensures
        match r {
            Some(e) => url_at(s@, p as int) == Some(e as int),
            None => url_at(s@, p as int) is None,
        },
{
    let https: [char; 8] = ['h', 't', 't', 'p', 's', ':', '/', '/'];
    let http: [char; 7] = ['h', 't', 't', 'p', ':', '/', '/'];
    assert(https@ =~= https_prefix());
    assert(http@ =~= http_prefix());
    let hs = https.as_slice();
    let h = http.as_slice();
    assert(hs@.len() == 8 && h@.len() == 7);
    if occurs_at_exec(s, p, hs) {
        assert(p + hs@.len() <= s@.len());
        assert(p + 8 <= s.len());
        let n = url_run_exec(s, p + 8);
        if n > 0 {
            return Some(p + 8 + n);
        }
    }
    if occurs_at_exec(s, p, h) {
        assert(p + h@.len() <= s@.len());
        assert(p + 7 <= s.len());
        let n = url_run_exec(s, p + 7);
        if n > 0 {
            return Some(p + 7 + n);
        }
    }
    None
}

/// The leftmost bare URL at or after `p`: `(start, end)`.
pub fn next_url_exec(s: &[char], p: usize) -> (r: Option<(usize, usize)>)
    ensures
        match r {
            Some(m) => next_url(s@, p as int) == Some((m.0 as int, m.1 as int)),
            None => next_url(s@, p as int) is None,
        },
{
    let mut k: usize = p;
    while k < s.len()
        invariant
            p <= k,
            next_url(s@, p as int) == next_url(s@, k as int),
        decreases s.len() - k,
    {
        match url_at_exec(s, k) {
            Some(e) => {
                return Some((k, e));
            },
            None => {},
        }
        k += 1;
    }
    None
}

} // verus!
