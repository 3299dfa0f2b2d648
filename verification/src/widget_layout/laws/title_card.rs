//! Setting the title keeps the rest of the first card: its id, type and
//! visibility read as before, where their readings lie clear of the rewritten
//! span.
use super::field_edit::{attr_span, lemma_replace_absent};
use super::reading::{attr_clear, lemma_attr_kept, untouched};
use super::scan::cards;
use super::set_visible::{lemma_before, lemma_block_head, lemma_rewritten_head};
use super::title::{
    avoids, first_tag, lemma_edit_inserted, lemma_tag_end_in_block, lemma_title_edit, lemma_titled_at,
    title_single, titled,
};
use super::visible_tag::lemma_occ_char;
use crate::text::{find_from, lemma_find_from_first, occurs_at};
use crate::widget_layout::fields::{escape_attr_spec, set_widget_title_spec};
use crate::widget_layout::{
    attr_pat, attr_value, block_end, lemma_block_end, lemma_widget_open_from, name_id, name_title,
    name_type, name_visible, open_tag, quoted_attr, slots_of, tag_end_of, widget_open_from,
};
use vstd::prelude::*;

verus! {

/// A title value written as it is: no `&`, `<`, `>`, quote or `=`.
pub open spec fn plain_title(v: Seq<char>) -> bool {
    &&& avoids(v, '&')
    &&& avoids(v, '<')
    &&& avoids(v, '>')
    &&& avoids(v, '\'')
    &&& avoids(v, '"')
    &&& avoids(v, '=')
}

/// A plain title is written unescaped.
pub proof fn lemma_plain_title(v: Seq<char>, q: char)
    requires
        plain_title(v),
        q == '\'' || q == '"',
    ensures
        escape_attr_spec(v, q) == v,
{
    lemma_replace_absent(v, '&', seq!['&', 'a', 'm', 'p', ';']);
    lemma_replace_absent(v, '<', seq!['&', 'l', 't', ';']);
    lemma_replace_absent(v, '\'', seq!['&', '#', '3', '9', ';']);
    lemma_replace_absent(v, '"', seq!['&', 'q', 'u', 'o', 't', ';']);
}

/// An attribute name the edits never write: no `=` and no quote.
pub open spec fn bare_name(name: Seq<char>) -> bool {
    name.len() > 0 && avoids(name, '=') && avoids(name, '\'') && avoids(name, '"')
}

/// A value without `=` written between two quotes touches no attribute
/// pattern of a bare name.
pub proof fn lemma_untouched_between(u: Seq<char>, lo: int, n: int, name: Seq<char>, q: char)
    requires
        1 <= lo,
        0 <= n,
        lo + n < u.len(),
        u[lo - 1] == '\'' || u[lo - 1] == '"',
        u[lo + n] == '\'' || u[lo + n] == '"',
        forall|i: int| lo <= i < lo + n ==> u[i] != '=',
        bare_name(name),
        q == '\'' || q == '"',
    ensures
        untouched(u, attr_pat(name, q), lo, lo + n),
{
    let pat = attr_pat(name, q);
    let l = pat.len() as int;
    assert forall|k: int| #[trigger] occurs_at(u, pat, k) implies k >= lo + n || k + l <= lo by {
        let j0 = k + name.len();
        if !(k >= lo + n || k + l <= lo) {
            if k <= lo - 1 {
                lemma_occ_char(u, pat, k, lo - 1);
                if lo - 1 < j0 {
                    assert(pat[lo - 1 - k] == name[lo - 1 - k]);
                } else if lo - 1 == j0 {
                    assert(pat[name.len() as int] == '=');
                }
            } else {
                lemma_occ_char(u, pat, k, j0);
                assert(pat[name.len() as int] == '=');
                if j0 > lo + n {
                    lemma_occ_char(u, pat, k, lo + n);
                    assert(pat[lo + n - k] == name[lo + n - k]);
                }
            }
        }
    }
}

/// An attribute `w='x'` inserted after `<b:widget` touches no attribute
/// pattern of a bare name that does not end the text `<b:widget w`.
pub proof fn lemma_untouched_inserted(u: Seq<char>, w: Seq<char>, x: Seq<char>, name: Seq<char>, q: char)
    requires
        ({
            let h = open_tag() + seq![' '] + w;
            &&& u.take(h.len() as int + 1) == h + seq!['=']
            &&& avoids(h, '=')
            &&& h.len() < name.len() || u.subrange(h.len() - name.len(), h.len() as int) != name
        }),
        u.len() > 12 + (w.len() as int) + (x.len() as int),
        u[11 + (w.len() as int)] == '\'',
        u.subrange(12 + (w.len() as int), 12 + (w.len() as int) + (x.len() as int)) == x,
        u[12 + (w.len() as int) + (x.len() as int)] == '\'',
        avoids(x, '='),
        bare_name(name),
        q == '\'' || q == '"',
    ensures
        untouched(u, attr_pat(name, q), 9, 13 + (w.len() as int) + (x.len() as int)),
{
    let pat = attr_pat(name, q);
    let l = pat.len() as int;
    let h = open_tag() + seq![' '] + w;
    let e = h.len() as int;
    let c = 12 + (w.len() as int) + (x.len() as int);
    assert forall|k: int| #[trigger] occurs_at(u, pat, k) implies k >= c + 1 || k + l <= 9 by {
        let j0 = k + name.len();
        if !(k >= c + 1 || k + l <= 9) {
            lemma_occ_char(u, pat, k, j0);
            assert(pat[name.len() as int] == '=');
            if j0 < e {
                assert(u[j0] == u.take(e + 1)[j0]);
                assert(u.take(e + 1)[j0] == h[j0]);
            } else if j0 == e {
                assert(u.subrange(k, j0) =~= name) by {
                    assert forall|i: int| k <= i < j0 implies u[i] == name[i - k] by {
                        lemma_occ_char(u, pat, k, i);
                    }
                }
            } else if j0 == e + 1 {
            } else if j0 < c {
                assert(u[j0] == u.subrange(12 + (w.len() as int), c)[j0 - 12 - w.len()]);
            } else if j0 == c {
            } else {
                lemma_occ_char(u, pat, k, c);
                assert(pat[c - k] == name[c - k]);
            }
        }
    }
}

/// Where the title is rewritten in a tag: the value's span, or the point
/// after `<b:widget` where a title is inserted.
pub open spec fn title_span(tag: Seq<char>) -> (int, int) {
    if attr_value(tag, name_title()) is None {
        (9, 9)
    } else {
        attr_span(tag, name_title())
    }
}

/// The id, type and visibility of the first card are read clear of the span
/// a title edit rewrites.
pub open spec fn card_clear_of_title(s: Seq<char>) -> bool {
    let tag = first_tag(s);
    let (lo, hi) = title_span(tag);
    &&& attr_clear(tag, name_id(), lo, hi)
    &&& attr_clear(tag, name_type(), lo, hi)
    &&& attr_clear(tag, name_visible(), lo, hi)
}

/// A plain title rewrites the tag's title span with a text that touches no
/// pattern of the id, type or visibility.
#[verifier::spinoff_prover]
#[verifier::rlimit(40)]
pub proof fn lemma_title_rewrite(t: Seq<char>, v: Seq<char>, name: Seq<char>, q: char)
    requires
        t.len() >= 9,
        t.take(9) == open_tag(),
        titled(t, v) is Some,
        plain_title(v),
        bare_name(name),
        name.len() > 15 || (open_tag() + seq![' '] + name_title()).subrange(15 - name.len(), 15)
            != name,
        q == '\'' || q == '"',
    ensures
        ({
            let (lo, hi) = title_span(t);
            let nt = titled(t, v)->0;
            let m = nt.subrange(lo, nt.len() - (t.len() - hi));
            &&& 0 <= lo <= hi <= t.len()
            &&& lo <= nt.len() - (t.len() - hi)
            &&& nt == t.take(lo) + m + t.skip(hi)
            &&& untouched(nt, attr_pat(name, q), lo, lo + m.len())
        }),
{
    let (lo, hi) = title_span(t);
    let nt = titled(t, v)->0;
    if attr_value(t, name_title()) is None {
        lemma_plain_title(v, '\'');
        let with1 = quoted_attr(name_title(), '\'', v);
        assert(occurs_at(t, open_tag(), 0));
        lemma_find_from_first(t, open_tag(), 0, 0);
        let m = seq![' '] + with1;
        assert(nt =~= t.take(9) + m + t.skip(9));
        assert(nt.subrange(9, nt.len() - (t.len() - 9)) =~= m);
        assert(nt.take(16) =~= open_tag() + seq![' '] + name_title() + seq!['=']);
        assert(nt.subrange(17, 17 + v.len() as int) =~= v);
        let h = open_tag() + seq![' '] + name_title();
        assert(h =~= seq!['<', 'b', ':', 'w', 'i', 'd', 'g', 'e', 't', ' ', 't', 'i', 't', 'l', 'e']);
        assert(nt.take(16) =~= h + seq!['=']);
        if name.len() <= 15 {
            assert forall|i: int| 15 - name.len() <= i < 15 implies nt[i] == h[i] by {
                assert(nt[i] == nt.take(16)[i]);
                assert(nt.take(16)[i] == (h + seq!['='])[i]);
            }
            assert(nt.subrange(15 - name.len(), 15) =~= h.subrange(15 - name.len(), 15));
        }
        lemma_untouched_inserted(nt, name_title(), v, name, q);
    } else {
        let qt = if find_from(t, title_single(), 0) is Some {
            '\''
        } else {
            '"'
        };
        lemma_titled_at(t, v, qt);
        lemma_plain_title(v, qt);
        let p = find_from(t, attr_pat(name_title(), qt), 0)->0;
        assert(lo == p + 7);
        assert(t[p + 6] == t.subrange(p, p + 7)[6]);
        assert(nt =~= t.take(lo) + v + t.skip(hi));
        assert(nt.subrange(lo, nt.len() - (t.len() - hi)) =~= v);
        assert(nt[lo - 1] == t[p + 6]);
        assert(nt[lo + v.len()] == t[hi]);
        lemma_untouched_between(nt, lo, v.len() as int, name, q);
    }
}

/// The names the card reads besides its title are bare and do not end
/// `<b:widget title`.
pub proof fn lemma_card_names()
    ensures
        bare_name(name_id()),
        bare_name(name_type()),
        bare_name(name_visible()),
        (open_tag() + seq![' '] + name_title()).subrange(15 - 2, 15) != name_id(),
        (open_tag() + seq![' '] + name_title()).subrange(15 - 4, 15) != name_type(),
        (open_tag() + seq![' '] + name_title()).subrange(15 - 7, 15) != name_visible(),
{
    let h = open_tag() + seq![' '] + name_title();
    assert(h =~= seq!['<', 'b', ':', 'w', 'i', 'd', 'g', 'e', 't', ' ', 't', 'i', 't', 'l', 'e']);
    assert(h.subrange(13, 15)[0] != name_id()[0]);
    assert(h.subrange(11, 15)[0] != name_type()[0]);
    assert(h.subrange(8, 15)[0] != name_visible()[0]);
}

/// Setting the title keeps the first card's id, type and visibility, where
/// their readings lie clear of the rewritten title (a reading that runs
/// across it, such as an `id='` inside the old title, changes with it). The
/// title then reads as written, for a plain value.
#[verifier::spinoff_prover]
#[verifier::rlimit(40)]
pub proof fn law_set_widget_title_keeps_card(s: Seq<char>, v: Seq<char>)
    requires
        slots_of(s).len() > 0,
        plain_title(v),
        card_clear_of_title(s),
    ensures
        ({
            let out = set_widget_title_spec(s, v);
            let c = cards(slots_of(out));
            let d = cards(slots_of(s));
            &&& c.len() == d.len()
            &&& c[0].0 == d[0].0
            &&& c[0].1 == d[0].1
            &&& c[0].3 == d[0].3
            &&& titled(first_tag(s), v) is Some ==> c[0].2 == v
        }),
{
    let sl = slots_of(s);
    lemma_widget_open_from(s, 0);
    let start = widget_open_from(s, 0)->0;
    lemma_block_end(s, start);
    assert(sl[0].start == start);
    assert(sl[0].end == block_end(s, start));
    lemma_tag_end_in_block(s, start);
    lemma_block_head(s, 0);
    let x = sl[0];
    let te = tag_end_of(s, x.start, x.end);
    let t = s.subrange(x.start, te);
    let z = s.skip(te);
    assert(t == first_tag(s));
    let out = set_widget_title_spec(s, v);
    if titled(t, v) is Some {
        let nt = titled(t, v)->0;
        let (lo, hi) = title_span(t);
        lemma_card_names();
        lemma_title_rewrite(t, v, name_id(), '\'');
        lemma_title_rewrite(t, v, name_id(), '"');
        lemma_title_rewrite(t, v, name_type(), '\'');
        lemma_title_rewrite(t, v, name_type(), '"');
        lemma_title_rewrite(t, v, name_visible(), '\'');
        lemma_title_rewrite(t, v, name_visible(), '"');
        let m = nt.subrange(lo, nt.len() - (t.len() - hi));
        lemma_attr_kept(t, nt, m, lo, hi, name_id());
        lemma_attr_kept(t, nt, m, lo, hi, name_type());
        lemma_attr_kept(t, nt, m, lo, hi, name_visible());
        assert(v.len() == 0 || avoids(v, '>'));
        super::title::law_set_widget_title_shows_title(s, v);
        lemma_plain_title(v, '\'');
        lemma_plain_title(v, '"');
        lemma_title_edit(t, v, z);
        lemma_rewritten_head(s, 0, t, z, nt);
        let y = nt + z;
        lemma_before(s, 0, y);
        assert(out == s.take(start) + nt + s.skip(te));
        assert(out =~= s.take(x.start) + y);
        assert(cards(sl.take(0)) =~= Seq::empty());
        assert(cards(slots_of(out)) =~= cards(slots_of(y)));
    }
}

} // verus!
