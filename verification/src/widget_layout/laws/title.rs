//! Setting the blueprint's widget title: a reparse shows the written title on
//! the first card and leaves every other card as it was.
use super::scan::cards;
use super::scan::lemma_widget_open_first;
use super::set_visible::{lemma_before, lemma_block_head, lemma_rewritten_head, lemma_tag_end_shift};
use super::visible::{clean_edit, edit_ok, head_ok, lemma_edit_step, lemma_span_tame, tame};
use super::visible_tag::{lemma_occ_char, lemma_quote_after, no_occ};
use crate::text::{
    find_char_from, find_from, lemma_find_char_from, lemma_find_from, lemma_find_from_first,
    occurs_at, replace_char,
};
use crate::widget_layout::fields::{
    escape_attr_spec, escape_text_spec, replace_attr_spec, set_widget_title_spec,
};
use crate::widget_layout::{
    attr_pat, attr_q, attr_value, block_end, close_tag, is_widget_open_at, lemma_block_end,
    lemma_widget_open_from, name_title, open_tag, quoted_attr, replace_first, slots_of, tag_end_of, widget_open_from,
};
use vstd::prelude::*;

verus! {

// ───────────────────────── escaped values ─────────────────────────

/// No character of `s` is `d`.
pub open spec fn avoids(s: Seq<char>, d: char) -> bool {
    forall|k: int| 0 <= k < s.len() ==> #[trigger] s[k] != d
}

/// Replacing `c` keeps `d` out when the replacement lacks it and `d` was
/// absent or is `c` itself.
pub proof fn lemma_replace_avoids(s: Seq<char>, c: char, with: Seq<char>, d: char)
    requires
        avoids(s, d) || d == c,
        avoids(with, d),
    ensures
        avoids(replace_char(s, c, with), d),
    decreases s.len(),
{
    if s.len() > 0 {
        let init = s.drop_last();
        if avoids(s, d) {
            assert forall|k: int| 0 <= k < init.len() implies #[trigger] init[k] != d by {
                assert(init[k] == s[k]);
            }
        }
        lemma_replace_avoids(init, c, with, d);
        let r0 = replace_char(init, c, with);
        let tail = if s.last() == c {
            with
        } else {
            seq![s.last()]
        };
        let r = r0 + tail;
        assert(replace_char(s, c, with) == r);
        assert forall|k: int| 0 <= k < r.len() implies #[trigger] r[k] != d by {
            if k < r0.len() {
                assert(r[k] == r0[k]);
            } else {
                assert(r[k] == tail[k - r0.len()]);
                if s.last() != c {
                    assert(tail[0] == s.last());
                    if avoids(s, d) {
                        assert(s[s.len() - 1] != d);
                    }
                }
            }
        }
    }
}

/// What an escaped attribute value holds: no `<`, not its own quote, no `>`
/// unless the value had one, and no `'` unless the value had one.
pub proof fn lemma_escape_attr(v: Seq<char>, q: char)
    requires
        q == '\'' || q == '"',
    ensures
        avoids(escape_attr_spec(v, q), '<'),
        avoids(escape_attr_spec(v, q), q),
        avoids(v, '>') ==> avoids(escape_attr_spec(v, q), '>'),
        avoids(v, '\'') ==> avoids(escape_attr_spec(v, q), '\''),
{
    let amp = seq!['&', 'a', 'm', 'p', ';'];
    let lt = seq!['&', 'l', 't', ';'];
    let apos = seq!['&', '#', '3', '9', ';'];
    let quot = seq!['&', 'q', 'u', 'o', 't', ';'];
    let e1 = replace_char(v, '&', amp);
    let e2 = replace_char(e1, '<', lt);
    assert(e2 == escape_text_spec(v));
    let ent = if q == '\'' {
        apos
    } else {
        quot
    };
    assert(escape_attr_spec(v, q) == replace_char(e2, q, ent));
    assert(avoids(lt, '<'));
    assert(avoids(ent, '<'));
    assert(avoids(ent, q));
    lemma_replace_avoids(e1, '<', lt, '<');
    lemma_replace_avoids(e2, q, ent, '<');
    lemma_replace_avoids(e2, q, ent, q);
    if avoids(v, '>') {
        assert(avoids(amp, '>'));
        assert(avoids(lt, '>'));
        assert(avoids(ent, '>'));
        lemma_replace_avoids(v, '&', amp, '>');
        lemma_replace_avoids(e1, '<', lt, '>');
        lemma_replace_avoids(e2, q, ent, '>');
    }
    if avoids(v, '\'') {
        assert(avoids(amp, '\''));
        assert(avoids(lt, '\''));
        assert(avoids(quot, '\''));
        lemma_replace_avoids(v, '&', amp, '\'');
        lemma_replace_avoids(e1, '<', lt, '\'');
        if q == '"' {
            lemma_replace_avoids(e2, q, ent, '\'');
        }
    }
}

// ───────────────────────── the rewritten tag ─────────────────────────

/// Text that agrees with `t` through `t`'s first occurrence of a pattern has
/// its first occurrence there too.
pub proof fn lemma_find_same_prefix(t: Seq<char>, u: Seq<char>, pat: Seq<char>, p: int)
    requires
        find_from(t, pat, 0) == Some(p),
        p + pat.len() <= u.len(),
        u.take(p + pat.len()) == t.take(p + pat.len()),
    ensures
        find_from(u, pat, 0) == Some(p),
{
    lemma_find_from(t, pat, 0);
    let l = pat.len() as int;
    assert(u.subrange(p, p + l) == u.take(p + l).subrange(p, p + l));
    assert(t.subrange(p, p + l) == t.take(p + l).subrange(p, p + l));
    assert forall|k: int| 0 <= k < p implies !occurs_at(u, pat, k) by {
        if occurs_at(u, pat, k) {
            assert(u.subrange(k, k + l) == u.take(p + l).subrange(k, k + l));
            assert(t.subrange(k, k + l) == t.take(p + l).subrange(k, k + l));
            assert(occurs_at(t, pat, k));
        }
    }
    lemma_find_from_first(u, pat, 0, p);
}

/// `title='`, the opening of a single-quoted title.
pub open spec fn title_single() -> Seq<char> {
    attr_pat(name_title(), '\'')
}

/// `title="`, the opening of a double-quoted title.
pub open spec fn title_double() -> Seq<char> {
    attr_pat(name_title(), '"')
}

/// The widget's opening tag with its title set: the title's value rewritten
/// where the tag has one, else a single-quoted title inserted after
/// `<b:widget`; none where the first `title='` is never closed.
pub open spec fn titled(tag: Seq<char>, v: Seq<char>) -> Option<Seq<char>> {
    match attr_value(tag, name_title()) {
        Some(_) => replace_attr_spec(tag, name_title(), v),
        None => Some(
            replace_first(
                tag,
                open_tag(),
                open_tag() + seq![' '] + quoted_attr(
                    name_title(),
                    '\'',
                    escape_attr_spec(v, '\''),
                ),
            ),
        ),
    }
}

/// The quote a title is written with: double only where the tag's title is a
/// double-quoted value and no `title='` occurs.
pub open spec fn title_quote(tag: Seq<char>) -> char {
    if find_from(tag, title_single(), 0) is None && attr_value(tag, name_title()) is Some {
        '"'
    } else {
        '\''
    }
}

/// A title pattern in a real widget tag starts after the name and its
/// delimiter.
pub proof fn lemma_title_late(t: Seq<char>, z: Seq<char>, pat: Seq<char>, p: int)
    requires
        head_ok(t, t + z),
        pat.len() == 7,
        pat[0] == 't',
        pat[1] == 'i',
        occurs_at(t, pat, p),
    ensures
        p >= 10,
{
    lemma_occ_char(t, pat, p, p);
    lemma_occ_char(t, pat, p, p + 1);
    assert((t + z)[9] == t[9]);
    if p < 9 {
        assert(t[p] == t.take(9)[p]);
        assert(p == 8);
    }
}

/// A pattern that does not occur on either side of `m`, ending in a character
/// `m` lacks and holding no copy of `m`'s last character, does not occur
/// across `m` either.
pub proof fn lemma_no_occ_join(a: Seq<char>, m: Seq<char>, b: Seq<char>, pat: Seq<char>)
    requires
        no_occ(a, pat),
        no_occ(b, pat),
        pat.len() > 0,
        m.len() > 0,
        avoids(m, pat.last()),
        avoids(pat, m.last()),
    ensures
        no_occ(a + m + b, pat),
{
    let u = a + m + b;
    let n = a.len() as int;
    let l = pat.len() as int;
    assert forall|q: int| !#[trigger] occurs_at(u, pat, q) by {
        if occurs_at(u, pat, q) {
            if q + l <= n {
                assert(u.subrange(q, q + l) == a.subrange(q, q + l));
                assert(occurs_at(a, pat, q));
            } else if q >= n + m.len() {
                assert(u.subrange(q, q + l) == b.subrange(q - n - m.len(), q - n - m.len() + l));
                assert(occurs_at(b, pat, q - n - m.len()));
            } else if q + l - 1 < n + m.len() {
                lemma_occ_char(u, pat, q, q + l - 1);
                assert(u[q + l - 1] == m[q + l - 1 - n]);
            } else {
                let j = n + m.len() - 1;
                lemma_occ_char(u, pat, q, j);
                assert(u[j] == m.last());
            }
        }
    }
}

/// Where a title value is rewritten: after the first `name=q`, up to the
/// next `q`.
pub proof fn lemma_titled_at(t: Seq<char>, v: Seq<char>, q: char)
    requires
        attr_value(t, name_title()) is Some,
        titled(t, v) is Some,
        q == '\'' || q == '"',
        q == '\'' <==> find_from(t, title_single(), 0) is Some,
    ensures
        find_from(t, attr_pat(name_title(), q), 0) matches Some(p) && find_char_from(t, q, p + 7)
            matches Some(e) && p + 7 <= e < t.len() && t[e] == q && occurs_at(
            t,
            attr_pat(name_title(), q),
            p,
        ) && titled(t, v)->0 == t.take(p + 7) + escape_attr_spec(v, q) + t.skip(e),
{
    let pat = attr_pat(name_title(), q);
    lemma_find_from(t, pat, 0);
    let p = find_from(t, pat, 0)->0;
    lemma_find_char_from(t, q, p + 7);
}

/// A single-quoted title is rewritten cleanly.
#[verifier::spinoff_prover]
pub proof fn lemma_edit_single(t: Seq<char>, v: Seq<char>, z: Seq<char>)
    requires
        head_ok(t, t + z),
        avoids(v, '>'),
        attr_value(t, name_title()) is Some,
        find_from(t, title_single(), 0) is Some,
        titled(t, v) is Some,
    ensures
        edit_ok(t, titled(t, v)->0, z),
{
    let ts = title_single();
    lemma_titled_at(t, v, '\'');
    let p = find_from(t, ts, 0)->0;
    let e = find_char_from(t, '\'', p + 7)->0;
    let esc = escape_attr_spec(v, '\'');
    lemma_escape_attr(v, '\'');
    lemma_title_late(t, z, ts, p);
    lemma_span_tame(t, z, p, e);
    let a = t.take(p);
    let r = t.subrange(p, e + 1);
    let m = ts + esc + seq!['\''];
    let b = t.skip(e + 1);
    assert(t.subrange(p, p + 7) == ts);
    assert(t =~= a + r + b);
    assert(titled(t, v)->0 =~= a + m + b);
    assert forall|k: int| 0 <= k < m.len() implies #[trigger] m[k] != '>' by {
        if 7 <= k < 7 + esc.len() {
            assert(m[k] == esc[k - 7]);
        }
    }
    assert(tame(m));
    assert(clean_edit(t, a + m + b, a, r, m, b));
    lemma_edit_step(t, a + m + b, a, r, m, b, z);
}

/// A double-quoted title (with no `title='` in the tag) is rewritten cleanly.
#[verifier::spinoff_prover]
pub proof fn lemma_edit_double(t: Seq<char>, v: Seq<char>, z: Seq<char>)
    requires
        head_ok(t, t + z),
        avoids(v, '>'),
        find_from(t, title_single(), 0) is None,
        titled(t, v) is Some,
        attr_value(t, name_title()) is Some,
    ensures
        edit_ok(t, titled(t, v)->0, z),
{
    let td = title_double();
    lemma_titled_at(t, v, '"');
    let p = find_from(t, td, 0)->0;
    let e = find_char_from(t, '"', p + 7)->0;
    let esc = escape_attr_spec(v, '"');
    lemma_escape_attr(v, '"');
    lemma_title_late(t, z, td, p);
    lemma_span_tame(t, z, p, e);
    let a = t.take(p);
    let r = t.subrange(p, e + 1);
    let m = td + esc + seq!['"'];
    let b = t.skip(e + 1);
    assert(t.subrange(p, p + 7) == td);
    assert(t =~= a + r + b);
    assert(titled(t, v)->0 =~= a + m + b);
    assert forall|k: int| 0 <= k < m.len() implies #[trigger] m[k] != '>' by {
        if 7 <= k < 7 + esc.len() {
            assert(m[k] == esc[k - 7]);
        }
    }
    assert(tame(m));
    assert(clean_edit(t, a + m + b, a, r, m, b));
    lemma_edit_step(t, a + m + b, a, r, m, b, z);
}

/// A tag without a title gets one inserted cleanly.
pub proof fn lemma_edit_inserted(t: Seq<char>, v: Seq<char>, z: Seq<char>)
    requires
        head_ok(t, t + z),
        avoids(v, '>'),
        attr_value(t, name_title()) is None,
    ensures
        edit_ok(t, titled(t, v)->0, z),
{
    let esc = escape_attr_spec(v, '\'');
    lemma_escape_attr(v, '\'');
    let with1 = quoted_attr(name_title(), '\'', esc);
    let a = t.take(9);
    let b = t.skip(9);
    let m = seq![' '] + with1;
    assert(occurs_at(t, open_tag(), 0));
    lemma_find_from_first(t, open_tag(), 0, 0);
    assert(titled(t, v)->0 =~= a + m + b);
    assert(t =~= a + Seq::<char>::empty() + b);
    assert forall|k: int| 0 <= k < m.len() implies #[trigger] m[k] != '>' by {
        if 8 <= k < 8 + esc.len() {
            assert(m[k] == esc[k - 8]);
        }
    }
    assert(tame(m));
    lemma_edit_step(t, a + m + b, a, Seq::<char>::empty(), m, b, z);
}

/// Setting the title keeps the block's shape: a real opening tag read to the
/// rewritten tag's end, the block end moved by the change in length, and the
/// text after the block unchanged.
pub proof fn lemma_title_edit(t: Seq<char>, v: Seq<char>, z: Seq<char>)
    requires
        head_ok(t, t + z),
        avoids(v, '>'),
        titled(t, v) is Some,
    ensures
        edit_ok(t, titled(t, v)->0, z),
{
    if attr_value(t, name_title()) is None {
        lemma_edit_inserted(t, v, z);
    } else if find_from(t, title_single(), 0) is Some {
        lemma_edit_single(t, v, z);
    } else {
        lemma_edit_double(t, v, z);
    }
}

/// `<b:widget title=` holds no `'`.
pub proof fn lemma_title_head()
    ensures
        avoids(open_tag() + seq![' '] + name_title() + seq!['='], '\''),
{
    let head = open_tag() + seq![' '] + name_title() + seq!['='];
    assert(head =~= seq!['<', 'b', ':', 'w', 'i', 'd', 'g', 'e', 't', ' ', 't', 'i', 't', 'l', 'e', '=']);
}

/// An inserted title is what the tag reads.
#[verifier::spinoff_prover]
pub proof fn lemma_reads_inserted(t: Seq<char>, v: Seq<char>)
    requires
        t.len() >= 9,
        t.take(9) == open_tag(),
        attr_value(t, name_title()) is None,
    ensures
        attr_value(titled(t, v)->0, name_title()) == Some(escape_attr_spec(v, '\'')),
        titled(titled(t, v)->0, v) == Some(titled(t, v)->0),
{
    let ts = title_single();
    let nt = titled(t, v)->0;
    let esc = escape_attr_spec(v, '\'');
    lemma_escape_attr(v, '\'');
    lemma_title_head();
    assert(occurs_at(t, open_tag(), 0));
    lemma_find_from_first(t, open_tag(), 0, 0);
    let head = open_tag() + seq![' '] + name_title() + seq!['='];
    let rest = seq!['\''] + esc + seq!['\''] + t.skip(9);
    assert(nt =~= head + rest);
    assert(head.len() == 16);
    assert(nt.subrange(10, 17) =~= ts);
    assert forall|q: int| 0 <= q < 10 implies !occurs_at(nt, ts, q) by {
        if occurs_at(nt, ts, q) {
            lemma_occ_char(nt, ts, q, q + 6);
            assert(nt[q + 6] == head[q + 6]);
        }
    }
    lemma_find_from_first(nt, ts, 0, 10);
    assert(nt.subrange(17, 17 + esc.len() as int) =~= esc);
    assert(nt[17 + esc.len() as int] == '\'');
    lemma_quote_after(nt, 17, esc, '\'');
    assert(nt.take(17) + esc + nt.skip(17 + esc.len() as int) =~= nt);
}

/// A rewritten single-quoted title is what the tag reads.
#[verifier::spinoff_prover]
pub proof fn lemma_reads_single(t: Seq<char>, v: Seq<char>)
    requires
        attr_value(t, name_title()) is Some,
        find_from(t, title_single(), 0) is Some,
        titled(t, v) is Some,
    ensures
        attr_value(titled(t, v)->0, name_title()) == Some(escape_attr_spec(v, '\'')),
        titled(titled(t, v)->0, v) == Some(titled(t, v)->0),
{
    let ts = title_single();
    let nt = titled(t, v)->0;
    lemma_titled_at(t, v, '\'');
    let p = find_from(t, ts, 0)->0;
    let e = find_char_from(t, '\'', p + 7)->0;
    let esc = escape_attr_spec(v, '\'');
    lemma_escape_attr(v, '\'');
    assert(nt.take(p + 7) =~= t.take(p + 7));
    lemma_find_same_prefix(t, nt, ts, p);
    assert(nt.subrange(p + 7, p + 7 + esc.len()) =~= esc);
    assert(nt[p + 7 + esc.len()] == t[e]);
    lemma_quote_after(nt, p + 7, esc, '\'');
    assert(nt.take(p + 7) + esc + nt.skip(p + 7 + esc.len()) =~= nt);
}

/// A rewritten double-quoted title, written without `'`, is what the tag
/// reads: no `title='` appears.
#[verifier::spinoff_prover]
pub proof fn lemma_reads_double(t: Seq<char>, v: Seq<char>)
    requires
        attr_value(t, name_title()) is Some,
        find_from(t, title_single(), 0) is None,
        titled(t, v) is Some,
        avoids(v, '\''),
    ensures
        attr_value(titled(t, v)->0, name_title()) == Some(escape_attr_spec(v, '"')),
        titled(titled(t, v)->0, v) == Some(titled(t, v)->0),
{
    let ts = title_single();
    let td = title_double();
    let nt = titled(t, v)->0;
    lemma_find_from(t, ts, 0);
    lemma_titled_at(t, v, '"');
    let p = find_from(t, td, 0)->0;
    let e = find_char_from(t, '"', p + 7)->0;
    let esc = escape_attr_spec(v, '"');
    lemma_escape_attr(v, '"');
    let a = t.take(p);
    let m = td + esc + seq!['"'];
    let b = t.skip(e + 1);
    assert(t.subrange(p, p + 7) == td);
    assert(nt =~= a + m + b);
    assert forall|q: int| !#[trigger] occurs_at(a, ts, q) by {
        if occurs_at(a, ts, q) {
            assert(a.subrange(q, q + 7) == t.subrange(q, q + 7));
            assert(occurs_at(t, ts, q));
        }
    }
    assert forall|q: int| !#[trigger] occurs_at(b, ts, q) by {
        if occurs_at(b, ts, q) {
            assert(b.subrange(q, q + 7) == t.subrange(e + 1 + q, e + 1 + q + 7));
            assert(occurs_at(t, ts, e + 1 + q));
        }
    }
    assert forall|k: int| 0 <= k < m.len() implies #[trigger] m[k] != '\'' by {
        if 7 <= k < 7 + esc.len() {
            assert(m[k] == esc[k - 7]);
        }
    }
    assert(avoids(ts, '"'));
    lemma_no_occ_join(a, m, b, ts);
    lemma_find_from(nt, ts, 0);
    assert(attr_q(nt, name_title(), '\'') is None);
    assert(nt.take(p + 7) =~= t.take(p + 7));
    lemma_find_same_prefix(t, nt, td, p);
    assert(nt.subrange(p + 7, p + 7 + esc.len()) =~= esc);
    assert(nt[p + 7 + esc.len()] == t[e]);
    lemma_quote_after(nt, p + 7, esc, '"');
    assert(nt.take(p + 7) + esc + nt.skip(p + 7 + esc.len()) =~= nt);
}

/// The rewritten tag reads back the escaped title, quoted as it was written.
pub proof fn lemma_title_reads_back(t: Seq<char>, v: Seq<char>)
    requires
        t.len() >= 9,
        t.take(9) == open_tag(),
        titled(t, v) is Some,
        title_quote(t) == '"' ==> avoids(v, '\''),
    ensures
        attr_value(titled(t, v)->0, name_title()) == Some(escape_attr_spec(v, title_quote(t))),
        titled(titled(t, v)->0, v) == Some(titled(t, v)->0),
{
    if attr_value(t, name_title()) is None {
        lemma_reads_inserted(t, v);
    } else if find_from(t, title_single(), 0) is Some {
        lemma_reads_single(t, v);
    } else {
        lemma_reads_double(t, v);
    }
}

// ───────────────────────── the buffer ─────────────────────────

/// The opening tag of the blueprint's widget: the first block's tag.
pub open spec fn first_tag(s: Seq<char>) -> Seq<char> {
    let x = slots_of(s)[0];
    s.subrange(x.start, tag_end_of(s, x.start, x.end))
}

/// A block's tag ends at the same `>` whether the search stops at the block
/// end or at the end of the buffer.
pub proof fn lemma_tag_end_in_block(s: Seq<char>, start: int)
    requires
        0 <= start,
        start + 9 <= s.len(),
    ensures
        tag_end_of(s, start, s.len() as int) == tag_end_of(s, start, block_end(s, start)),
{
    lemma_block_end(s, start);
    let end = block_end(s, start);
    assert(s.take(s.len() as int) =~= s);
    if end < s.len() {
        lemma_find_from(s, close_tag(), start + 9);
        let c = find_from(s, close_tag(), start + 9)->0;
        lemma_occ_char(s, close_tag(), c, c + 10);
        let h = s.take(end);
        assert(h[c + 10] == s[c + 10]);
        lemma_find_char_from(h, '>', start);
        lemma_find_char_from(s, '>', start);
        let i1 = find_char_from(h, '>', start)->0;
        let i2 = find_char_from(s, '>', start)->0;
        assert(h[i1] == s[i1]);
        if i2 < i1 {
            assert(h[i2] == s[i2]);
        }
    }
}

/// Setting the blueprint's widget title shows it on the first card: a reparse
/// gives the same number of cards, the first card's title is the written
/// value escaped for the quote it is written with, and every other card is
/// unchanged. A widget whose first `title='` is never closed is left alone.
/// (A value with `>` would end the tag early, and a `'` written into a
/// double-quoted title could be read as a single-quoted one.)
#[verifier::spinoff_prover]
#[verifier::rlimit(40)]
pub proof fn law_set_widget_title_shows_title(s: Seq<char>, v: Seq<char>)
    requires
        slots_of(s).len() > 0,
        avoids(v, '>'),
        title_quote(first_tag(s)) == '"' ==> avoids(v, '\''),
    ensures
        ({
            let out = set_widget_title_spec(s, v);
            let tag = first_tag(s);
            let c = cards(slots_of(out));
            let d = cards(slots_of(s));
            &&& c.len() == d.len()
            &&& forall|j: int| 1 <= j < d.len() ==> c[j] == d[j]
            &&& titled(tag, v) is None ==> out == s
            &&& titled(tag, v) is Some ==> c[0].2 == escape_attr_spec(v, title_quote(tag))
        }),
{
    let sl = slots_of(s);
    lemma_widget_open_from(s, 0);
    let start = widget_open_from(s, 0)->0;
    lemma_block_end(s, start);
    assert(sl[0].start == start);
    assert(sl[0].end == block_end(s, start));
    lemma_tag_end_in_block(s, start);
    lemma_block_head(s, 0);
    let x = sl[0];
    let te = tag_end_of(s, x.start, x.end);
    let t = s.subrange(x.start, te);
    let z = s.skip(te);
    assert(t == first_tag(s));
    let out = set_widget_title_spec(s, v);
    if titled(t, v) is None {
        assert(out == s);
    } else {
        let nt = titled(t, v)->0;
        assert(out == s.take(start) + nt + s.skip(te));
        lemma_title_edit(t, v, z);
        lemma_rewritten_head(s, 0, t, z, nt);
        lemma_title_reads_back(t, v);
        let y = nt + z;
        lemma_before(s, 0, y);
        assert(out =~= s.take(x.start) + y);
        assert(cards(sl.take(0)) =~= Seq::empty());
        assert(cards(slots_of(out)) =~= cards(slots_of(y)));
        let cy = cards(slots_of(y));
        let d = cards(sl);
        assert forall|j: int| 1 <= j < d.len() implies cy[j] == d[j] by {
            assert(cy[j] == cy.skip(1)[j - 1]);
            assert(cards(sl.skip(1))[j - 1] == d[j]);
        }
    }
}

/// Where two texts agree on a widget name's span and the character after it,
/// a real widget opening tag there is one in both.
pub proof fn lemma_open_agrees(a: Seq<char>, b: Seq<char>, k: int)
    requires
        0 <= k,
        k + 9 <= a.len(),
        k + 9 <= b.len(),
        forall|j: int| k <= j < k + 10 && j < a.len() ==> j < b.len() && a[j] == b[j],
        k + 9 < a.len() <==> k + 9 < b.len(),
        is_widget_open_at(a, k),
    ensures
        is_widget_open_at(b, k),
{
    assert(a.subrange(k, k + 9) =~= b.subrange(k, k + 9));
}

/// A buffer whose first widget's tag was rewritten, keeping the widget name
/// and a real delimiter, still has its first widget where it was, with the
/// rewritten tag.
#[verifier::spinoff_prover]
#[verifier::rlimit(40)]
pub proof fn lemma_first_rewritten(s: Seq<char>, start: int, t: Seq<char>, z: Seq<char>, nt: Seq<char>)
    requires
        widget_open_from(s, 0) == Some(start),
        0 <= start <= s.len(),
        t + z == s.skip(start),
        t.len() >= 9,
        t.take(9) == open_tag(),
        nt.len() >= 9,
        nt.take(9) == open_tag(),
        is_widget_open_at(nt + z, 0),
        tag_end_of(nt + z, 0, block_end(nt + z, 0)) == nt.len(),
    ensures
        ({
            let out = s.take(start) + nt + z;
            &&& widget_open_from(out, 0) == Some(start)
            &&& tag_end_of(out, start, out.len() as int) == start + nt.len()
        }),
{
    lemma_widget_open_from(s, 0);
    let y = nt + z;
    let pre = s.take(start);
    let out = pre + y;
    assert(s.take(start) + nt + z =~= out);
    assert forall|j: int| 0 <= j < start + 9 && j < out.len() implies j < s.len() && out[j] == s[j] by {
        if j < start {
            assert(out[j] == pre[j]);
        } else {
            assert(out[j] == y[j - start]);
            assert(y[j - start] == nt.take(9)[j - start]);
            assert(s[j] == s.skip(start)[j - start]);
            assert(s.skip(start)[j - start] == t[j - start]);
            assert(t[j - start] == t.take(9)[j - start]);
        }
    }
    assert forall|k: int| 0 <= k < start implies !is_widget_open_at(out, k) by {
        if is_widget_open_at(out, k) {
            lemma_open_agrees(out, s, k);
        }
    }
    assert(out.subrange(start, start + 9) =~= y.subrange(0, 9));
    if 9 < y.len() {
        assert(out[start + 9] == y[9]);
    }
    assert(is_widget_open_at(out, start));
    lemma_widget_open_first(out, 0, start);
    lemma_tag_end_shift(pre, y, 0, y.len() as int);
    lemma_tag_end_in_block(y, 0);
}

/// Setting the same title again changes nothing: a second call on the result
/// gives the result back.
#[verifier::spinoff_prover]
#[verifier::rlimit(40)]
pub proof fn law_set_widget_title_settles(s: Seq<char>, v: Seq<char>)
    requires
        slots_of(s).len() > 0,
        avoids(v, '>'),
        title_quote(first_tag(s)) == '"' ==> avoids(v, '\''),
    ensures
        set_widget_title_spec(set_widget_title_spec(s, v), v) == set_widget_title_spec(s, v),
{
    let sl = slots_of(s);
    lemma_widget_open_from(s, 0);
    let start = widget_open_from(s, 0)->0;
    lemma_block_end(s, start);
    assert(sl[0].start == start);
    assert(sl[0].end == block_end(s, start));
    lemma_tag_end_in_block(s, start);
    lemma_block_head(s, 0);
    let x = sl[0];
    let te = tag_end_of(s, x.start, x.end);
    let t = s.subrange(x.start, te);
    let z = s.skip(te);
    if titled(t, v) is Some {
        let nt = titled(t, v)->0;
        lemma_title_edit(t, v, z);
        lemma_title_reads_back(t, v);
        lemma_first_rewritten(s, start, t, z, nt);
        let out = s.take(start) + nt + z;
        assert(set_widget_title_spec(s, v) == s.take(start) + nt + s.skip(te));
        assert(set_widget_title_spec(s, v) == out);
        assert(out.subrange(start, start + nt.len()) =~= nt);
        assert(out.take(start) + nt + out.skip(start + nt.len()) =~= out);
    }
}

} // verus!
