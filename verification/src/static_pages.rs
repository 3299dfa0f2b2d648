//! Static pages in the preview: baking a page into the theme's content area,
//! and the community catalogue's entries.
use crate::text::{
    chars_of, find, find_from, lemma_find_from, matches_at, occurs_at, push_all, push_char,
    push_range,
};
use vstd::prelude::*;

verus! {

/// The script placed at the start of `<head>`: it answers the theme's feed
/// requests with sample posts, so feed-driven pages render offline.
pub const MOCK_FEED_SCRIPT: &'static str = r##"<script>
    const _origFetch = window.fetch;
    window.fetch = async function(url, opts) {
        if (typeof url === 'string' && url.includes('/feeds/')) {
            return {
                ok: true,
                json: async () => ({
                    feed: {
                        openSearch$totalResults: { $t: "3" },
                        entry: [
                            {
                                title: { $t: "Archive Feed Intercepted" },
                                link: [{ rel: "alternate", href: "#" }],
                                summary: { $t: "Offline preview routing successful. Theme layout nominal." },
                                published: { $t: new Date().toISOString() },
                                category: [{ term: "System" }]
                            },
                            {
                                title: { $t: "Patch Notes v1.2" },
                                link: [{ rel: "alternate", href: "#" }],
                                summary: { $t: "Guild UI updated. Potions nerfed." },
                                published: { $t: "2025-06-03T10:00:00Z" },
                                category: [{ term: "Updates" }]
                            }
                        ]
                    }
                })
            };
        }

        return _origFetch(url, opts);
    };
    </script>"##;

// ───────────────────────── markers ─────────────────────────

pub open spec fn head_tag() -> Seq<char> {
    seq!['<', 'h', 'e', 'a', 'd', '>']
}

/// `<div class="canvas-content">`.
pub open spec fn canvas_open() -> Seq<char> {
    seq![
        '<', 'd', 'i', 'v', ' ', 'c', 'l', 'a', 's', 's', '=', '"', 'c', 'a', 'n', 'v', 'a', 's',
        '-', 'c', 'o', 'n', 't', 'e', 'n', 't', '"', '>',
    ]
}

/// `<footer class="mor-footer"`.
pub open spec fn footer_open() -> Seq<char> {
    seq![
        '<', 'f', 'o', 'o', 't', 'e', 'r', ' ', 'c', 'l', 'a', 's', 's', '=', '"', 'm', 'o', 'r',
        '-', 'f', 'o', 'o', 't', 'e', 'r', '"',
    ]
}

pub open spec fn div_close() -> Seq<char> {
    seq!['<', '/', 'd', 'i', 'v', '>']
}

fn head_tag_chars() -> (v: Vec<char>)
    ensures
        v@ == head_tag(),
{
    vec!['<', 'h', 'e', 'a', 'd', '>']
}

fn canvas_open_chars() -> (v: Vec<char>)
    ensures
        v@ == canvas_open(),
{
    vec![
        '<', 'd', 'i', 'v', ' ', 'c', 'l', 'a', 's', 's', '=', '"', 'c', 'a', 'n', 'v', 'a', 's',
        '-', 'c', 'o', 'n', 't', 'e', 'n', 't', '"', '>',
    ]
}

fn footer_open_chars() -> (v: Vec<char>)
    ensures
        v@ == footer_open(),
{
    vec![
        '<', 'f', 'o', 'o', 't', 'e', 'r', ' ', 'c', 'l', 'a', 's', 's', '=', '"', 'm', 'o', 'r',
        '-', 'f', 'o', 'o', 't', 'e', 'r', '"',
    ]
}

fn div_close_chars() -> (v: Vec<char>)
    ensures
        v@ == div_close(),
{
    vec!['<', '/', 'd', 'i', 'v', '>']
}

// ───────────────────────── specifications ─────────────────────────

/// `s[pos..]` with each occurrence of a non-empty `pat`, left to right,
/// replaced by `with` (`str::replace`).
pub open spec fn replace_from(s: Seq<char>, pat: Seq<char>, with: Seq<char>, pos: int) -> Seq<char>
    decreases s.len() + 1 - pos,
{
    if pat.len() == 0 || pos < 0 || pos > s.len() {
        Seq::empty()
    } else {
        match find_from(s, pat, pos) {
            None => s.subrange(pos, s.len() as int),
            Some(i) => {
                proof {
                    lemma_find_from(s, pat, pos);
                }
                s.subrange(pos, i) + with + replace_from(s, pat, with, i + pat.len())
            },
        }
    }
}

/// Start of the last occurrence of `pat` lying wholly inside `s[lo..hi]`.
pub open spec fn rfind_within(s: Seq<char>, pat: Seq<char>, lo: int, hi: int) -> Option<int>
    decreases hi - lo + 1,
{
    if hi - pat.len() < lo || hi > s.len() {
        None
    } else if occurs_at(s, pat, hi - pat.len()) {
        Some(hi - pat.len())
    } else {
        rfind_within(s, pat, lo, hi - 1)
    }
}

/// The base page with the feed-mocking script placed after every `<head>`.
pub open spec fn head_with_mock(base: Seq<char>) -> Seq<char> {
    replace_from(base, head_tag(), head_tag() + seq!['\n'] + MOCK_FEED_SCRIPT@, 0)
}

/// The content area's inner span: from the end of its opening tag to the last
/// `</div>` before the footer; none where the footer starts before the opening
/// tag ends (an unrecognised structure).
pub open spec fn canvas_span(h: Seq<char>) -> Option<(int, int)> {
    match (find_from(h, canvas_open(), 0), find_from(h, footer_open(), 0)) {
        (Some(start), Some(footer)) => {
            let open_end = start + canvas_open().len();
            if open_end > footer {
                None
            } else {
                match rfind_within(h, div_close(), open_end, footer) {
                    Some(close) => Some((open_end, close)),
                    None => None,
                }
            }
        },
        _ => None,
    }
}

/// The base page with the mock script, and with the static page in place of
/// the content area's contents; without a content area, the base page with
/// the mock script alone.
pub open spec fn injected_page(base: Seq<char>, page: Seq<char>) -> Seq<char> {
    let h = head_with_mock(base);
    match canvas_span(h) {
        Some((a, c)) => h.take(a) + seq!['\n'] + page + seq!['\n'] + h.skip(c),
        None => h,
    }
}

// ───────────────────────── executable ─────────────────────────

/// Appends `s` with every occurrence of a non-empty `pat` replaced by `with`.
fn push_replaced(out: &mut String, s: &[char], pat: &[char], with: &[char])
    requires
        pat@.len() > 0,
    ensures
        final(out)@ == old(out)@ + replace_from(s@, pat@, with@, 0),
{
    let n = s.len();
    let mut pos: usize = 0;
    loop
        invariant
            pos <= n,
            n == s@.len(),
            pat@.len() > 0,
            old(out)@ + replace_from(s@, pat@, with@, 0) == out@ + replace_from(
                s@,
                pat@,
                with@,
                pos as int,
            ),
        decreases n + 1 - pos,
    {
        proof {
            lemma_find_from(s@, pat@, pos as int);
        }
        match find(s, pat, pos) {
            None => {
                push_range(out, s, pos, n);
                return;
            },
            Some(i) => {
                let ghost before = out@;
                push_range(out, s, pos, i);
                push_all(out, with);
                proof {
                    let rest = replace_from(s@, pat@, with@, i + pat@.len());
                    let piece = s@.subrange(pos as int, i as int);
                    assert(before + (piece + with@ + rest) == before + piece + with@ + rest);
                }
                pos = i + pat.len();
            },
        }
    }
}

/// Start of the last `pat` wholly inside `s[lo..hi]`.
fn rfind_in(s: &[char], pat: &[char], lo: usize, hi: usize) -> (r: Option<usize>)
    requires
        hi <= s@.len(),
    ensures
        r matches Some(p) ==> rfind_within(s@, pat@, lo as int, hi as int) == Some(p as int),
        r is None ==> rfind_within(s@, pat@, lo as int, hi as int) is None,
{
    let mut h: usize = hi;
    while h >= lo && h - lo >= pat.len()
        invariant
            h <= hi <= s@.len(),
            rfind_within(s@, pat@, lo as int, hi as int) == rfind_within(
                s@,
                pat@,
                lo as int,
                h as int,
            ),
        decreases h,
    {
        if matches_at(s, pat, h - pat.len()) {
            return Some(h - pat.len());
        }
        if h == 0 {
            assert(s@.subrange(0, 0) == pat@);
            return None;
        }
        h = h - 1;
    }
    None
}

/// Bakes a static page into the preview: the feed-mocking script goes after
/// `<head>`, and the page replaces the contents of `.canvas-content` (up to its
/// last `</div>` before the footer). Without that structure the base page is
/// returned with the script alone, so the page is never dropped elsewhere.
pub fn inject_static_page(base_html: &str, static_html: &str) -> (r: String)
    ensures
        r@ == injected_page(base_html@, static_html@),
{
    let base = chars_of(base_html);
    let head = head_tag_chars();
    let mut with = head_tag_chars();
    with.push('\n');
    let script = chars_of(MOCK_FEED_SCRIPT);
    let mut k: usize = 0;
    while k < script.len()
        invariant
            0 <= k <= script@.len(),
            with@ == head_tag() + seq!['\n'] + script@.take(k as int),
        decreases script.len() - k,
    {
        with.push(script[k]);
        assert(script@.take(k + 1) == script@.take(k as int).push(script@[k as int]));
        k = k + 1;
    }
    assert(script@.take(script@.len() as int) == script@);
    let mut injected = String::new();
    push_replaced(&mut injected, &base, &head, &with);
    assert(Seq::<char>::empty() + replace_from(base@, head@, with@, 0) == replace_from(
        base@,
        head@,
        with@,
        0,
    ));
    let h = chars_of(injected.as_str());
    let ghost hs = h@;
    assert(hs == head_with_mock(base_html@));
    let open = canvas_open_chars();
    let footer_tag = footer_open_chars();
    let start = find(&h, &open, 0);
    let footer = find(&h, &footer_tag, 0);
    match (start, footer) {
        (Some(start), Some(footer)) => {
            proof {
                lemma_find_from(hs, open@, 0);
                lemma_find_from(hs, footer_tag@, 0);
            }
            let hn = h.len();
            assert(start + open@.len() <= hn);
            let open_end = start + open.len();
            if open_end > footer {
                return injected;
            }
            let close_tag = div_close_chars();
            match rfind_in(&h, &close_tag, open_end, footer) {
                Some(close) => {
                    let page = chars_of(static_html);
                    let mut out = String::new();
                    push_range(&mut out, &h, 0, open_end);
                    push_char(&mut out, '\n');
                    push_all(&mut out, &page);
                    push_char(&mut out, '\n');
                    proof {
                        lemma_rfind_within(hs, div_close(), open_end as int, footer as int);
                    }
                    push_range(&mut out, &h, close, h.len());
                    proof {
                        assert(hs.take(open_end as int) == hs.subrange(0, open_end as int));
                        assert(hs.skip(close as int) == hs.subrange(close as int, hs.len() as int));
                    }
                    out
                },
                None => injected,
            }
        },
        _ => injected,
    }
}

/// Where `rfind_within` reports a position, the occurrence lies inside the span.
pub proof fn lemma_rfind_within(s: Seq<char>, pat: Seq<char>, lo: int, hi: int)
    ensures
        rfind_within(s, pat, lo, hi) matches Some(p) ==> lo <= p && p + pat.len() <= hi
            && hi <= s.len() && occurs_at(s, pat, p),
    decreases hi - lo + 1,
{
    if hi - pat.len() >= lo && hi <= s.len() && !occurs_at(s, pat, hi - pat.len()) {
        lemma_rfind_within(s, pat, lo, hi - 1);
    }
}

/// Injecting a page keeps the footer: everything of the base page (with the
/// script) from its first `<footer class="mor-footer"` on ends the result
/// unchanged, so only the content area before it is replaced.
pub proof fn law_inject_keeps_footer(base: Seq<char>, page: Seq<char>)
    ensures
        ({
            let h = head_with_mock(base);
            let r = injected_page(base, page);
            find_from(h, footer_open(), 0) matches Some(f) ==> {
                &&& 0 <= f <= h.len()
                &&& h.len() - f <= r.len()
                &&& r.skip(r.len() - (h.len() - f)) == h.skip(f)
            }
        }),
{
    let h = head_with_mock(base);
    let r = injected_page(base, page);
    lemma_find_from(h, footer_open(), 0);
    lemma_find_from(h, canvas_open(), 0);
    if find_from(h, footer_open(), 0) is Some {
        let f = find_from(h, footer_open(), 0)->0;
        match canvas_span(h) {
            Some((a, c)) => {
                let open_end = find_from(h, canvas_open(), 0)->0 + canvas_open().len();
                lemma_rfind_within(h, div_close(), open_end, f);
                assert(c + div_close().len() <= f);
                let pre = h.take(a) + seq!['\n'] + page + seq!['\n'];
                assert(r == pre + h.skip(c));
                assert(r.skip(r.len() - (h.len() - f)) =~= h.skip(f));
            },
            None => {
                assert(r.skip(r.len() - (h.len() - f)) =~= h.skip(f));
            },
        }
    }
}

/// Where the page is injected, the result is the base page (with the
/// script) up to the end of the content area's opening tag, then the page
/// between newlines, then the base page again from a `</div>` that lies
/// before the footer.
pub proof fn law_inject_places_page(base: Seq<char>, page: Seq<char>)
    ensures
        ({
            let h = head_with_mock(base);
            let r = injected_page(base, page);
            canvas_span(h) matches Some((a, c)) ==> {
                let head = h.take(a) + seq!['\n'] + page + seq!['\n'];
                &&& find_from(h, canvas_open(), 0) matches Some(st) && a == st + canvas_open().len()
                &&& find_from(h, footer_open(), 0) matches Some(f) && a <= c && c + div_close().len() <= f
                &&& occurs_at(h, div_close(), c)
                &&& r.take(head.len() as int) == head
                &&& r.skip(head.len() as int) == h.skip(c)
            }
        }),
{
    let h = head_with_mock(base);
    let r = injected_page(base, page);
    if canvas_span(h) is Some {
        let (a, c) = canvas_span(h)->0;
        let f = find_from(h, footer_open(), 0)->0;
        lemma_rfind_within(h, div_close(), a, f);
        let head = h.take(a) + seq!['\n'] + page + seq!['\n'];
        assert(r == head + h.skip(c));
        assert(r.take(head.len() as int) =~= head);
        assert(r.skip(head.len() as int) =~= h.skip(c));
    }
}

// ───────────────────────── community catalogue ─────────────────────────

/// One community-contributed static page pulled from the hub.
#[derive(Clone, Debug, PartialEq)]
pub struct CommunityPage {
    pub title: String,
    pub html: String,
}

/// One post of the hub's feed: its title and, where it has one, its content.
#[derive(Clone, Debug, PartialEq)]
pub struct FeedEntry {
    pub title: String,
    pub content: Option<String>,
}

impl View for CommunityPage {
    type V = (Seq<char>, Seq<char>);

    open spec fn view(&self) -> (Seq<char>, Seq<char>) {
        (self.title@, self.html@)
    }
}

impl View for FeedEntry {
    type V = (Seq<char>, Option<Seq<char>>);

    open spec fn view(&self) -> (Seq<char>, Option<Seq<char>>) {
        (
            self.title@,
            match self.content {
                Some(c) => Some(c@),
                None => None,
            },
        )
    }
}

/// The pages of a feed: each entry that has content, as (title, content), in order.
pub open spec fn feed_pages(entries: Seq<(Seq<char>, Option<Seq<char>>)>) -> Seq<(Seq<char>, Seq<char>)>
    decreases entries.len(),
{
    if entries.len() == 0 {
        Seq::empty()
    } else {
        let last = entries.last();
        feed_pages(entries.drop_last()) + match last.1 {
            Some(c) => seq![(last.0, c)],
            None => Seq::empty(),
        }
    }
}

/// The catalogue of a feed: entries without content are dropped, the others
/// become pages with their title and content, in feed order.
pub fn community_pages(entries: &Vec<FeedEntry>) -> (r: Vec<CommunityPage>)
    ensures
        r@.map_values(|p: CommunityPage| p@) == feed_pages(
            entries@.map_values(|e: FeedEntry| e@),
        ),
{
    let mut out: Vec<CommunityPage> = Vec::new();
    let mut i: usize = 0;
    while i < entries.len()
        invariant
            0 <= i <= entries@.len(),
            out@.map_values(|p: CommunityPage| p@) == feed_pages(
                entries@.take(i as int).map_values(|e: FeedEntry| e@),
            ),
        decreases entries.len() - i,
    {
        let e = &entries[i];
        let ghost prev = out@;
        match &e.content {
            Some(c) => {
                out.push(CommunityPage { title: e.title.clone(), html: c.clone() });
                assert(out@.map_values(|p: CommunityPage| p@) == prev.map_values(
                    |p: CommunityPage| p@,
                ).push((e.title@, c@)));
            },
            None => {},
        }
        proof {
            let t = entries@.take(i + 1).map_values(|e: FeedEntry| e@);
            assert(t.drop_last() == entries@.take(i as int).map_values(|e: FeedEntry| e@));
            assert(t.last() == entries@[i as int]@);
        }
        i = i + 1;
    }
    assert(entries@.take(entries@.len() as int) == entries@);
    out
}

} // verus!
