//! Static previews of widget blueprints: the literal markup of HTML gadgets
//! and the opened notification bell.
use crate::text::{
    chars_of, contains, find, find_from, lemma_find_from, push_all, push_char, push_range, trim,
    trim_bounds,
};
use vstd::prelude::*;

verus! {

/// The markup shown after the bell's own styles: the preview-only layout rules
/// and an opened dropdown with a sample post.
pub const BELL_PANEL: &'static str = r##"</style>
<style>
/* preview-only: the bell sits at the top-left of this isolated canvas, so anchor
   the floating panel leftward — the blueprint's right:0 (correct on the blog,
   where the bell is right-aligned) would push the 280px panel off-screen here. */
.mor-bell-panel { right: auto; left: 0; }
body { min-height: 240px; }
</style>
<div class="mor-bell open">
  <button class="mor-bell-btn" type="button" aria-label="Recent post">
    <svg viewBox="0 0 24 24" xmlns="http://www.w3.org/2000/svg"><path d="M12 2a6 6 0 0 0-6 6c0 5-2 7-2 7h16s-2-2-2-7a6 6 0 0 0-6-6zm0 20a3 3 0 0 0 3-3H9a3 3 0 0 0 3 3z"/></svg>
  </button>
  <div class="mor-bell-panel">
    <h3 class="mor-bell-heading">Newest Post</h3>
    <a class="mor-bell-post" href="#">
      <span class="mor-bell-title">Sample: The Newest Post Title</span>
      <span class="mor-bell-snippet">A preview of the most recent post summary. On a live site this pulls from your feed or latest page.</span>
      <span class="mor-bell-thumb" style="display:block;height:120px;margin-top:10px;border-radius:8px;background:linear-gradient(135deg,var(--bg-base,#222),var(--accent,#555));opacity:.55;"></span>
    </a>
  </div>
</div>"##;

// ───────────────────────── markers ─────────────────────────

pub open spec fn cdata_open() -> Seq<char> {
    seq!['<', '!', '[', 'C', 'D', 'A', 'T', 'A', '[']
}

pub open spec fn cdata_close() -> Seq<char> {
    seq![']', ']', '>']
}

pub open spec fn style_open() -> Seq<char> {
    seq!['<', 's', 't', 'y', 'l', 'e', '>']
}

pub open spec fn style_close() -> Seq<char> {
    seq!['<', '/', 's', 't', 'y', 'l', 'e', '>']
}

pub open spec fn data_tag() -> Seq<char> {
    seq!['<', 'd', 'a', 't', 'a', ':']
}

pub open spec fn b_tag() -> Seq<char> {
    seq!['<', 'b', ':']
}

pub open spec fn expr_attr() -> Seq<char> {
    seq!['e', 'x', 'p', 'r', ':']
}

pub open spec fn bell_class() -> Seq<char> {
    seq!['m', 'o', 'r', '-', 'b', 'e', 'l', 'l']
}

fn cdata_open_chars() -> (v: Vec<char>)
    ensures
        v@ == cdata_open(),
{
    vec!['<', '!', '[', 'C', 'D', 'A', 'T', 'A', '[']
}

fn cdata_close_chars() -> (v: Vec<char>)
    ensures
        v@ == cdata_close(),
{
    vec![']', ']', '>']
}

fn style_open_chars() -> (v: Vec<char>)
    ensures
        v@ == style_open(),
{
    vec!['<', 's', 't', 'y', 'l', 'e', '>']
}

fn style_close_chars() -> (v: Vec<char>)
    ensures
        v@ == style_close(),
{
    vec!['<', '/', 's', 't', 'y', 'l', 'e', '>']
}

fn data_tag_chars() -> (v: Vec<char>)
    ensures
        v@ == data_tag(),
{
    vec!['<', 'd', 'a', 't', 'a', ':']
}

fn b_tag_chars() -> (v: Vec<char>)
    ensures
        v@ == b_tag(),
{
    vec!['<', 'b', ':']
}

fn expr_attr_chars() -> (v: Vec<char>)
    ensures
        v@ == expr_attr(),
{
    vec!['e', 'x', 'p', 'r', ':']
}

fn bell_class_chars() -> (v: Vec<char>)
    ensures
        v@ == bell_class(),
{
    vec!['m', 'o', 'r', '-', 'b', 'e', 'l', 'l']
}

// ───────────────────────── specifications ─────────────────────────

/// The text of each `open … close` section of `s` from `pos` on, in order, each
/// followed by a newline; an opening marker without a closing one ends the scan.
pub open spec fn sections_from(s: Seq<char>, open: Seq<char>, close: Seq<char>, pos: int) -> Seq<char>
    decreases s.len() + 1 - pos,
{
    if open.len() == 0 || pos < 0 || pos > s.len() {
        Seq::empty()
    } else {
        match find_from(s, open, pos) {
            None => Seq::empty(),
            Some(i) => match find_from(s, close, i + open.len()) {
                None => Seq::empty(),
                Some(e) => {
                    proof {
                        lemma_find_from(s, open, pos);
                        lemma_find_from(s, close, i + open.len());
                    }
                    s.subrange(i + open.len(), e) + seq!['\n'] + sections_from(
                        s,
                        open,
                        close,
                        e + close.len(),
                    )
                },
            },
        }
    }
}

/// The previewable body of a widget blueprint and whether it depends on
/// platform templating: the CDATA sections' text, or nothing (and dynamic) when
/// that text is blank; otherwise dynamic when it holds `<data:`, `<b:` or `expr:`.
pub open spec fn widget_body(xml: Seq<char>) -> (Seq<char>, bool) {
    let cdata = sections_from(xml, cdata_open(), cdata_close(), 0);
    if trim(cdata).len() == 0 {
        (Seq::empty(), true)
    } else {
        (
            cdata,
            contains(cdata, data_tag()) || contains(cdata, b_tag()) || contains(cdata, expr_attr()),
        )
    }
}

/// The bell preview of a blueprint that uses the `mor-bell` class: its own
/// `<style>` sections, then the preview rules and an opened dropdown.
pub open spec fn bell_preview(xml: Seq<char>) -> Option<Seq<char>> {
    if contains(xml, bell_class()) {
        Some(style_open() + sections_from(xml, style_open(), style_close(), 0) + BELL_PANEL@)
    } else {
        None
    }
}

// ───────────────────────── executable ─────────────────────────

/// Appends the `open … close` sections of `s` from position 0 to `out`.
fn push_sections(out: &mut String, s: &[char], open: &[char], close: &[char])
    requires
        open@.len() > 0,
    ensures
        final(out)@ == old(out)@ + sections_from(s@, open@, close@, 0),
{
    let n = s.len();
    let mut pos: usize = 0;
    loop
        invariant
            pos <= n,
            n == s@.len(),
            open@.len() > 0,
            old(out)@ + sections_from(s@, open@, close@, 0) == out@ + sections_from(
                s@,
                open@,
                close@,
                pos as int,
            ),
        decreases n + 1 - pos,
    {
        proof {
            lemma_find_from(s@, open@, pos as int);
        }
        let i = match find(s, open, pos) {
            None => {
                assert(out@ + Seq::<char>::empty() == out@);
                return;
            },
            Some(i) => i,
        };
        let start = i + open.len();
        proof {
            lemma_find_from(s@, close@, start as int);
        }
        let e = match find(s, close, start) {
            None => {
                assert(out@ + Seq::<char>::empty() == out@);
                return;
            },
            Some(e) => e,
        };
        let ghost before = out@;
        push_range(out, s, start, e);
        push_char(out, '\n');
        proof {
            let piece = s@.subrange(start as int, e as int);
            let rest = sections_from(s@, open@, close@, e + close@.len());
            assert(sections_from(s@, open@, close@, pos as int) == piece + seq!['\n'] + rest);
            assert(before + (piece + seq!['\n'] + rest) == (before + piece).push('\n') + rest);
        }
        pos = e + close.len();
    }
}

/// `s` holds `pat`.
fn holds(s: &[char], pat: &[char]) -> (r: bool)
    ensures
        r == contains(s@, pat@),
{
    find(s, pat, 0).is_some()
}

/// Pulls the previewable HTML out of a widget blueprint. HTML gadgets keep
/// literal markup in `<![CDATA[ … ]]>`, which renders statically; a blueprint
/// without such text is a dynamic widget, reported with an empty body.
pub fn extract_widget_body(xml: &str) -> (r: (String, bool))
    ensures
        (r.0@, r.1) == widget_body(xml@),
{
    let s = chars_of(xml);
    let open = cdata_open_chars();
    let close = cdata_close_chars();
    let mut cdata = String::new();
    push_sections(&mut cdata, &s, &open, &close);
    assert(Seq::<char>::empty() + sections_from(s@, open@, close@, 0) == sections_from(
        s@,
        open@,
        close@,
        0,
    ));
    let c = chars_of(cdata.as_str());
    let n = c.len();
    let (a, b) = trim_bounds(&c, 0, n);
    assert(c@.subrange(0, n as int) == c@);
    if a == b {
        return (String::new(), true);
    }
    let data = data_tag_chars();
    let btag = b_tag_chars();
    let expr = expr_attr_chars();
    let dynamic = holds(&c, &data) || holds(&c, &btag) || holds(&c, &expr);
    (cdata, dynamic)
}

/// What a blueprint's flag says: a blueprint whose CDATA text is blank has no
/// body and is dynamic; otherwise its body is that text, and it is dynamic
/// exactly when the text holds a Blogger templating marker (`<data:`, `<b:`
/// or `expr:`), static HTML otherwise.
pub proof fn law_dynamic_iff_templating(xml: Seq<char>)
    ensures
        ({
            let cdata = sections_from(xml, cdata_open(), cdata_close(), 0);
            let (body, dynamic) = widget_body(xml);
            &&& trim(cdata).len() == 0 ==> body.len() == 0 && dynamic
            &&& trim(cdata).len() > 0 ==> body == cdata
            &&& trim(cdata).len() > 0 && contains(cdata, seq!['<', 'd', 'a', 't', 'a', ':']) ==> dynamic
            &&& trim(cdata).len() > 0 && contains(cdata, seq!['<', 'b', ':']) ==> dynamic
            &&& trim(cdata).len() > 0 && contains(cdata, seq!['e', 'x', 'p', 'r', ':']) ==> dynamic
            &&& trim(cdata).len() > 0 && !contains(cdata, seq!['<', 'd', 'a', 't', 'a', ':'])
                && !contains(cdata, seq!['<', 'b', ':']) && !contains(
                cdata,
                seq!['e', 'x', 'p', 'r', ':'],
            ) ==> !dynamic
        }),
{
    assert(data_tag() =~= seq!['<', 'd', 'a', 't', 'a', ':']);
    assert(b_tag() =~= seq!['<', 'b', ':']);
    assert(expr_attr() =~= seq!['e', 'x', 'p', 'r', ':']);
}

/// The preview of the notification-bell gadget, recognised by its `mor-bell`
/// class: the blueprint's own styles, then an opened dropdown with a sample
/// post. Other blueprints give `None`.
pub fn bell_preview_html(widget_xml: &str) -> (r: Option<String>)
    ensures
        r matches Some(t) ==> bell_preview(widget_xml@) == Some(t@),
        r is None ==> bell_preview(widget_xml@) is None,
{
    let s = chars_of(widget_xml);
    let bell = bell_class_chars();
    if !holds(&s, &bell) {
        return None;
    }
    let open = style_open_chars();
    let close = style_close_chars();
    let mut out = String::new();
    push_all(&mut out, &open);
    push_sections(&mut out, &s, &open, &close);
    let tail = chars_of(BELL_PANEL);
    push_all(&mut out, &tail);
    Some(out)
}

} // verus!
