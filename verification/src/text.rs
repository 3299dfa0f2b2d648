//! Character-level text helpers: searching, trimming and building strings.
//!
//! Every buffer operation in this crate works on the `Seq<char>` view of a
//! string. Searched patterns are ASCII, so a character position found here
//! marks the same place in the text as the byte offset a byte-level search
//! would report.
use vstd::prelude::*;

verus! {

// ───────────────────────── specifications ─────────────────────────

/// `pat` occurs in `s` starting at position `i`.
pub open spec fn occurs_at(s: Seq<char>, pat: Seq<char>, i: int) -> bool {
    0 <= i && i + pat.len() <= s.len() && s.subrange(i, i + pat.len()) == pat
}

/// Position of the first occurrence of `pat` in `s` at or after `from`.
pub open spec fn find_from(s: Seq<char>, pat: Seq<char>, from: int) -> Option<int>
    decreases s.len() + 1 - from,
{
    if from < 0 || from + pat.len() > s.len() {
        None
    } else if occurs_at(s, pat, from) {
        Some(from)
    } else {
        find_from(s, pat, from + 1)
    }
}

/// Position of the first `c` in `s` at or after `from`.
pub open spec fn find_char_from(s: Seq<char>, c: char, from: int) -> Option<int>
    decreases s.len() - from,
{
    if from < 0 || from >= s.len() {
        None
    } else if s[from] == c {
        Some(from)
    } else {
        find_char_from(s, c, from + 1)
    }
}

/// Position of the last `c` in `s` strictly before `end`.
pub open spec fn rfind_char_before(s: Seq<char>, c: char, end: int) -> Option<int>
    decreases end,
{
    if end <= 0 || end > s.len() {
        None
    } else if s[end - 1] == c {
        Some(end - 1)
    } else {
        rfind_char_before(s, c, end - 1)
    }
}

/// `pat` occurs somewhere in `s`.
pub open spec fn contains(s: Seq<char>, pat: Seq<char>) -> bool {
    find_from(s, pat, 0) is Some
}

/// Unicode `White_Space`, the property behind `char::is_whitespace`.
pub open spec fn is_ws(c: char) -> bool {
    ||| ('\u{9}' <= c && c <= '\u{d}')
    ||| c == ' '
    ||| c == '\u{85}'
    ||| c == '\u{a0}'
    ||| c == '\u{1680}'
    ||| ('\u{2000}' <= c && c <= '\u{200a}')
    ||| c == '\u{2028}'
    ||| c == '\u{2029}'
    ||| c == '\u{202f}'
    ||| c == '\u{205f}'
    ||| c == '\u{3000}'
}

/// Number of leading whitespace characters.
pub open spec fn lead_ws(s: Seq<char>) -> nat
    decreases s.len(),
{
    if s.len() > 0 && is_ws(s[0]) {
        1 + lead_ws(s.drop_first())
    } else {
        0
    }
}

/// Number of trailing whitespace characters.
pub open spec fn trail_ws(s: Seq<char>) -> nat
    decreases s.len(),
{
    if s.len() > 0 && is_ws(s.last()) {
        1 + trail_ws(s.drop_last())
    } else {
        0
    }
}

/// `s` without leading whitespace (`str::trim_start`).
pub open spec fn trim_start(s: Seq<char>) -> Seq<char> {
    s.skip(lead_ws(s) as int)
}

/// `s` without trailing whitespace (`str::trim_end`).
pub open spec fn trim_end(s: Seq<char>) -> Seq<char> {
    s.take(s.len() - trail_ws(s))
}

/// `s` without surrounding whitespace (`str::trim`).
pub open spec fn trim(s: Seq<char>) -> Seq<char> {
    trim_end(trim_start(s))
}

/// `s` starts with `p`.
pub open spec fn starts_with(s: Seq<char>, p: Seq<char>) -> bool {
    p.len() <= s.len() && s.take(p.len() as int) == p
}

/// `s` ends with `p`.
pub open spec fn ends_with(s: Seq<char>, p: Seq<char>) -> bool {
    p.len() <= s.len() && s.skip(s.len() - p.len()) == p
}

/// Every character of `s` replaced by `with` where it equals `c` (`str::replace` of one char).
pub open spec fn replace_char(s: Seq<char>, c: char, with: Seq<char>) -> Seq<char>
    decreases s.len(),
{
    if s.len() == 0 {
        Seq::empty()
    } else {
        replace_char(s.drop_last(), c, with) + (if s.last() == c {
            with
        } else {
            seq![s.last()]
        })
    }
}

/// Sequences joined with a separator (`[T]::join`).
pub open spec fn join(parts: Seq<Seq<char>>, sep: Seq<char>) -> Seq<char>
    decreases parts.len(),
{
    if parts.len() == 0 {
        Seq::empty()
    } else if parts.len() == 1 {
        parts[0]
    } else {
        join(parts.drop_last(), sep) + sep + parts.last()
    }
}

// ───────────────────────── lemmas ─────────────────────────

/// What `find_from` reports: the found position holds an occurrence and no
/// earlier position at or after `from` does; without a result there is none.
pub proof fn lemma_find_from(s: Seq<char>, pat: Seq<char>, from: int)
    requires
        0 <= from,
    ensures
        find_from(s, pat, from) matches Some(p) ==> from <= p && occurs_at(s, pat, p) && forall|
            k: int,
        |
            from <= k < p ==> !occurs_at(s, pat, k),
        find_from(s, pat, from) is None ==> forall|k: int| from <= k ==> !occurs_at(s, pat, k),
    decreases s.len() + 1 - from,
{
    if from + pat.len() > s.len() {
    } else if occurs_at(s, pat, from) {
    } else {
        lemma_find_from(s, pat, from + 1);
    }
}

/// A position that holds an occurrence and has none before it is what `find_from` reports.
pub proof fn lemma_find_from_first(s: Seq<char>, pat: Seq<char>, from: int, p: int)
    requires
        0 <= from <= p,
        occurs_at(s, pat, p),
        forall|k: int| from <= k < p ==> !occurs_at(s, pat, k),
    ensures
        find_from(s, pat, from) == Some(p),
    decreases p - from,
{
    if from < p {
        lemma_find_from_first(s, pat, from + 1, p);
    }
}

/// With no occurrence at or after `from`, `find_from` reports none.
pub proof fn lemma_find_from_none(s: Seq<char>, pat: Seq<char>, from: int)
    requires
        0 <= from,
        forall|k: int| from <= k ==> !occurs_at(s, pat, k),
    ensures
        find_from(s, pat, from) is None,
    decreases s.len() + 1 - from,
{
    if from + pat.len() <= s.len() {
        lemma_find_from_none(s, pat, from + 1);
    }
}

/// What `find_char_from` reports.
pub proof fn lemma_find_char_from(s: Seq<char>, c: char, from: int)
    requires
        0 <= from,
    ensures
        find_char_from(s, c, from) matches Some(p) ==> from <= p < s.len() && s[p] == c && forall|
            k: int,
        |
            from <= k < p ==> s[k] != c,
        find_char_from(s, c, from) is None ==> forall|k: int| from <= k < s.len() ==> s[k] != c,
    decreases s.len() - from,
{
    if from < s.len() && s[from] != c {
        lemma_find_char_from(s, c, from + 1);
    }
}

/// What `rfind_char_before` reports.
pub proof fn lemma_rfind_char_before(s: Seq<char>, c: char, end: int)
    requires
        0 <= end <= s.len(),
    ensures
        rfind_char_before(s, c, end) matches Some(p) ==> 0 <= p < end && s[p] == c && forall|
            k: int,
        |
            p < k < end ==> s[k] != c,
        rfind_char_before(s, c, end) is None ==> forall|k: int| 0 <= k < end ==> s[k] != c,
    decreases end,
{
    if end > 0 && s[end - 1] != c {
        lemma_rfind_char_before(s, c, end - 1);
    }
}

/// Whitespace counts stay within the sequence.
pub proof fn lemma_ws_bounds(s: Seq<char>)
    ensures
        lead_ws(s) <= s.len(),
        trail_ws(s) <= s.len(),
        forall|k: int| 0 <= k < lead_ws(s) ==> is_ws(s[k]),
        forall|k: int| s.len() - trail_ws(s) <= k < s.len() ==> is_ws(s[k]),
        lead_ws(s) < s.len() ==> !is_ws(s[lead_ws(s) as int]),
        trail_ws(s) < s.len() ==> !is_ws(s[s.len() - trail_ws(s) - 1]),
    decreases s.len(),
{
    if s.len() > 0 {
        lemma_ws_bounds(s.drop_first());
        lemma_ws_bounds(s.drop_last());
        if is_ws(s[0]) {
            assert forall|k: int| 0 <= k < lead_ws(s) implies is_ws(s[k]) by {
                if k > 0 {
                    assert(s[k] == s.drop_first()[k - 1]);
                }
            }
            if lead_ws(s) < s.len() {
                assert(s[lead_ws(s) as int] == s.drop_first()[lead_ws(s.drop_first()) as int]);
            }
        }
        if is_ws(s.last()) {
            assert forall|k: int| s.len() - trail_ws(s) <= k < s.len() implies is_ws(s[k]) by {
                if k < s.len() - 1 {
                    assert(s[k] == s.drop_last()[k]);
                }
            }
            if trail_ws(s) < s.len() {
                assert(s[s.len() - trail_ws(s) - 1] == s.drop_last()[s.drop_last().len()
                    - trail_ws(s.drop_last()) - 1]);
            }
        }
    }
}

/// Leading whitespace is the longest whitespace prefix.
pub proof fn lemma_lead_ws_char(s: Seq<char>, n: int)
    requires
        0 <= n <= s.len(),
        forall|k: int| 0 <= k < n ==> is_ws(s[k]),
        n == s.len() || !is_ws(s[n]),
    ensures
        lead_ws(s) == n,
    decreases n,
{
    if n > 0 {
        assert forall|k: int| 0 <= k < n - 1 implies is_ws(s.drop_first()[k]) by {
            assert(s.drop_first()[k] == s[k + 1]);
        }
        if n < s.len() {
            assert(s.drop_first()[n - 1] == s[n]);
        }
        lemma_lead_ws_char(s.drop_first(), n - 1);
    }
}

/// Trailing whitespace is the longest whitespace suffix.
pub proof fn lemma_trail_ws_char(s: Seq<char>, n: int)
    requires
        0 <= n <= s.len(),
        forall|k: int| s.len() - n <= k < s.len() ==> is_ws(s[k]),
        n == s.len() || !is_ws(s[s.len() - n - 1]),
    ensures
        trail_ws(s) == n,
    decreases n,
{
    if n > 0 {
        let t = s.drop_last();
        assert forall|k: int| t.len() - (n - 1) <= k < t.len() implies is_ws(t[k]) by {
            assert(t[k] == s[k]);
        }
        if n < s.len() {
            assert(t[t.len() - (n - 1) - 1] == s[s.len() - n - 1]);
        }
        lemma_trail_ws_char(t, n - 1);
    }
}

/// `replace_char` distributes over concatenation.
pub proof fn lemma_replace_char_add(a: Seq<char>, b: Seq<char>, c: char, with: Seq<char>)
    ensures
        replace_char(a + b, c, with) == replace_char(a, c, with) + replace_char(b, c, with),
    decreases b.len(),
{
    if b.len() == 0 {
        assert(a + b == a);
    } else {
        assert((a + b).drop_last() == a + b.drop_last());
        lemma_replace_char_add(a, b.drop_last(), c, with);
    }
}

// ───────────────────────── executable helpers ─────────────────────────

/// Appends one character to a string (`String::push`).
#[verifier::external_body]
pub(crate) fn push_char(s: &mut String, c: char)
    ensures
        final(s)@ == old(s)@.push(c),
{
    s.push(c);
}

/// The characters of a string.
pub fn chars_of(s: &str) -> (v: Vec<char>)
    ensures
        v@ == s@,
{
    let mut v: Vec<char> = Vec::new();
    for c in it: s.chars()
        invariant
            v@ == it.seq().subrange(0, it.index() as int),
            it.seq() == s@,
    {
        v.push(c);
    }
    v
}

/// Appends `s[lo..hi]` to `out`.
pub fn push_range(out: &mut String, s: &[char], lo: usize, hi: usize)
    requires
        lo <= hi <= s@.len(),
    ensures
        final(out)@ == old(out)@ + s@.subrange(lo as int, hi as int),
{
    let mut i: usize = lo;
    while i < hi
        invariant
            lo <= i <= hi <= s@.len(),
            out@ == old(out)@ + s@.subrange(lo as int, i as int),
        decreases hi - i,
    {
        push_char(out, s[i]);
        assert(s@.subrange(lo as int, i + 1) == s@.subrange(lo as int, i as int).push(s@[i as int]));
        i = i + 1;
    }
}

/// Appends every character of `s` to `out`.
pub fn push_all(out: &mut String, s: &[char])
    ensures
        final(out)@ == old(out)@ + s@,
{
    push_range(out, s, 0, s.len());
    assert(s@.subrange(0, s@.len() as int) == s@);
}

/// `s[lo..hi]` as a new string.
pub fn string_of_range(s: &[char], lo: usize, hi: usize) -> (r: String)
    requires
        lo <= hi <= s@.len(),
    ensures
        r@ == s@.subrange(lo as int, hi as int),
{
    let mut r = String::new();
    push_range(&mut r, s, lo, hi);
    assert(Seq::<char>::empty() + s@.subrange(lo as int, hi as int) == s@.subrange(
        lo as int,
        hi as int,
    ));
    r
}

/// The whole of `s` as a new string.
pub fn string_of(s: &[char]) -> (r: String)
    ensures
        r@ == s@,
{
    let r = string_of_range(s, 0, s.len());
    assert(s@.subrange(0, s@.len() as int) == s@);
    r
}

/// `s[lo..hi]` as a new vector.
pub fn vec_of_range(s: &[char], lo: usize, hi: usize) -> (r: Vec<char>)
    requires
        lo <= hi <= s@.len(),
    ensures
        r@ == s@.subrange(lo as int, hi as int),
{
    let mut r: Vec<char> = Vec::new();
    let mut i: usize = lo;
    while i < hi
        invariant
            lo <= i <= hi <= s@.len(),
            r@ == s@.subrange(lo as int, i as int),
        decreases hi - i,
    {
        r.push(s[i]);
        assert(s@.subrange(lo as int, i + 1) == s@.subrange(lo as int, i as int).push(s@[i as int]));
        i = i + 1;
    }
    r
}

/// `pat` occurs in `s` at position `i`.
pub fn matches_at(s: &[char], pat: &[char], i: usize) -> (b: bool)
    ensures
        b == occurs_at(s@, pat@, i as int),
{
    if i > s.len() || pat.len() > s.len() - i {
        return false;
    }
    let mut k: usize = 0;
    while k < pat.len()
        invariant
            i + pat@.len() <= s@.len(),
            0 <= k <= pat@.len(),
            forall|j: int| 0 <= j < k ==> s@[i + j] == pat@[j],
        decreases pat.len() - k,
    {
        assert(i + k < s.len());
        if s[i + k] != pat[k] {
            assert(s@.subrange(i as int, i + pat@.len())[k as int] != pat@[k as int]);
            return false;
        }
        k = k + 1;
    }
    assert(s@.subrange(i as int, i + pat@.len()) == pat@);
    true
}

/// First occurrence of `pat` in `s` at or after `from` (`str::find` on `s[from..]`,
/// reported as an absolute position).
pub fn find(s: &[char], pat: &[char], from: usize) -> (r: Option<usize>)
    ensures
        r matches Some(p) ==> find_from(s@, pat@, from as int) == Some(p as int),
        r is None ==> find_from(s@, pat@, from as int) is None,
{
    let mut i: usize = from;
    while i <= s.len() && pat.len() <= s.len() - i
        invariant
            from <= i,
            find_from(s@, pat@, from as int) == find_from(s@, pat@, i as int),
        decreases s.len() + 1 - i,
    {
        if matches_at(s, pat, i) {
            return Some(i);
        }
        if i == s.len() {
            assert(find_from(s@, pat@, i + 1) is None);
            return None;
        }
        i = i + 1;
    }
    None
}

/// First `c` in `s` at or after `from`.
pub fn find_char(s: &[char], c: char, from: usize) -> (r: Option<usize>)
    ensures
        r matches Some(p) ==> find_char_from(s@, c, from as int) == Some(p as int),
        r is None ==> find_char_from(s@, c, from as int) is None,
{
    let mut i: usize = from;
    while i < s.len()
        invariant
            from <= i,
            find_char_from(s@, c, from as int) == find_char_from(s@, c, i as int),
        decreases s.len() - i,
    {
        if s[i] == c {
            return Some(i);
        }
        i = i + 1;
    }
    None
}

/// Last `c` in `s` strictly before `end`.
pub fn rfind_char(s: &[char], c: char, end: usize) -> (r: Option<usize>)
    requires
        end <= s@.len(),
    ensures
        r matches Some(p) ==> rfind_char_before(s@, c, end as int) == Some(p as int),
        r is None ==> rfind_char_before(s@, c, end as int) is None,
{
    let mut e: usize = end;
    while e > 0
        invariant
            e <= end <= s@.len(),
            rfind_char_before(s@, c, end as int) == rfind_char_before(s@, c, e as int),
        decreases e,
    {
        if s[e - 1] == c {
            return Some(e - 1);
        }
        e = e - 1;
    }
    None
}

/// `char::is_whitespace`.
pub fn is_whitespace(c: char) -> (b: bool)
    ensures
        b == is_ws(c),
{
    ('\u{9}' <= c && c <= '\u{d}') || c == ' ' || c == '\u{85}' || c == '\u{a0}' || c
        == '\u{1680}' || ('\u{2000}' <= c && c <= '\u{200a}') || c == '\u{2028}' || c
        == '\u{2029}' || c == '\u{202f}' || c == '\u{205f}' || c == '\u{3000}'
}

/// Bounds of `trim(s[lo..hi])` inside `s`.
pub fn trim_bounds(s: &[char], lo: usize, hi: usize) -> (r: (usize, usize))
    requires
        lo <= hi <= s@.len(),
    ensures
        lo <= r.0 <= r.1 <= hi,
        s@.subrange(r.0 as int, r.1 as int) == trim(s@.subrange(lo as int, hi as int)),
        s@.subrange(r.0 as int, hi as int) == trim_start(s@.subrange(lo as int, hi as int)),
{
    let ghost t = s@.subrange(lo as int, hi as int);
    let mut a: usize = lo;
    while a < hi && is_whitespace(s[a])
        invariant
            lo <= a <= hi <= s@.len(),
            forall|k: int| lo <= k < a ==> is_ws(s@[k]),
        decreases hi - a,
    {
        a = a + 1;
    }
    proof {
        assert forall|k: int| 0 <= k < a - lo implies is_ws(t[k]) by {
            assert(t[k] == s@[lo + k]);
        }
        if a < hi {
            assert(t[a - lo] == s@[a as int]);
        }
        lemma_lead_ws_char(t, a - lo);
        assert(trim_start(t) == s@.subrange(a as int, hi as int));
    }
    let mut b: usize = hi;
    while b > a && is_whitespace(s[b - 1])
        invariant
            lo <= a <= b <= hi <= s@.len(),
            forall|k: int| b <= k < hi ==> is_ws(s@[k]),
        decreases b,
    {
        b = b - 1;
    }
    proof {
        let u = trim_start(t);
        assert forall|k: int| u.len() - (hi - b) <= k < u.len() implies is_ws(u[k]) by {
            assert(u[k] == s@[a + k]);
        }
        if b > a {
            assert(u[u.len() - (hi - b) - 1] == s@[b - 1]);
        }
        lemma_trail_ws_char(u, hi - b);
        assert(trim_end(u) == s@.subrange(a as int, b as int));
    }
    (a, b)
}

/// Bounds of `trim_end(s[lo..hi])` inside `s`.
pub fn trim_end_bound(s: &[char], lo: usize, hi: usize) -> (b: usize)
    requires
        lo <= hi <= s@.len(),
    ensures
        lo <= b <= hi,
        s@.subrange(lo as int, b as int) == trim_end(s@.subrange(lo as int, hi as int)),
{
    let ghost t = s@.subrange(lo as int, hi as int);
    let mut b: usize = hi;
    while b > lo && is_whitespace(s[b - 1])
        invariant
            lo <= b <= hi <= s@.len(),
            forall|k: int| b <= k < hi ==> is_ws(s@[k]),
        decreases b,
    {
        b = b - 1;
    }
    proof {
        assert forall|k: int| t.len() - (hi - b) <= k < t.len() implies is_ws(t[k]) by {
            assert(t[k] == s@[lo + k]);
        }
        if b > lo {
            assert(t[t.len() - (hi - b) - 1] == s@[b - 1]);
        }
        lemma_trail_ws_char(t, hi - b);
    }
    b
}

/// Bound of `trim_start(s[lo..hi])` inside `s`.
pub fn trim_start_bound(s: &[char], lo: usize, hi: usize) -> (a: usize)
    requires
        lo <= hi <= s@.len(),
    ensures
        lo <= a <= hi,
        s@.subrange(a as int, hi as int) == trim_start(s@.subrange(lo as int, hi as int)),
{
    let r = trim_bounds(s, lo, hi);
    r.0
}

/// Two character sequences are equal.
pub fn chars_eq(a: &[char], b: &[char]) -> (r: bool)
    ensures
        r == (a@ == b@),
{
    if a.len() != b.len() {
        return false;
    }
    let mut i: usize = 0;
    while i < a.len()
        invariant
            a@.len() == b@.len(),
            0 <= i <= a@.len(),
            forall|k: int| 0 <= k < i ==> a@[k] == b@[k],
        decreases a.len() - i,
    {
        if a[i] != b[i] {
            return false;
        }
        i = i + 1;
    }
    assert(a@ == b@);
    true
}

/// Appends `s` with every `c` replaced by `with` (`str::replace` of one char).
pub fn push_replacing(out: &mut String, s: &[char], c: char, with: &[char])
    ensures
        final(out)@ == old(out)@ + replace_char(s@, c, with@),
{
    let mut i: usize = 0;
    while i < s.len()
        invariant
            0 <= i <= s@.len(),
            out@ == old(out)@ + replace_char(s@.subrange(0, i as int), c, with@),
        decreases s.len() - i,
    {
        let ghost before = out@;
        if s[i] == c {
            push_all(out, with);
        } else {
            push_char(out, s[i]);
        }
        proof {
            let t = s@.subrange(0, i + 1);
            assert(t.drop_last() == s@.subrange(0, i as int));
            assert(t.last() == s@[i as int]);
        }
        i = i + 1;
    }
    assert(s@.subrange(0, s@.len() as int) == s@);
}


/// Joining one more part adds the separator and the part.
pub proof fn lemma_join_take(v: Seq<Seq<char>>, sep: Seq<char>, k: int)
    requires
        0 <= k < v.len(),
    ensures
        join(v.take(k + 1), sep) == if k == 0 {
            v[0]
        } else {
            join(v.take(k), sep) + sep + v[k]
        },
{
    let t = v.take(k + 1);
    assert(t.drop_last() == v.take(k));
    assert(t.last() == v[k]);
    if k == 0 {
        assert(t.len() == 1);
    }
}

} // verus!
