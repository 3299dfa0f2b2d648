//! Line-based unified diff for the asset editor's Diff view.
use crate::text::{chars_of, find_char, find_char_from, lemma_find_char_from, string_of_range};
use vstd::prelude::*;

verus! {

// ───────────────────────── lines ─────────────────────────

/// A line without the `\r` of a `\r\n` ending.
pub open spec fn strip_cr(l: Seq<char>) -> Seq<char> {
    if l.len() > 0 && l.last() == '\r' {
        l.drop_last()
    } else {
        l
    }
}

/// The lines of `s[cur..]` (`str::lines`): split after each `\n`, the `\n` and a
/// `\r` before it dropped; a final line ending adds no empty line.
pub open spec fn lines_from(s: Seq<char>, cur: int) -> Seq<Seq<char>>
    decreases s.len() - cur,
{
    if cur < 0 || cur >= s.len() {
        Seq::empty()
    } else {
        match find_char_from(s, '\n', cur) {
            None => seq![s.subrange(cur, s.len() as int)],
            Some(i) => {
                proof {
                    lemma_find_char_from(s, '\n', cur);
                }
                seq![strip_cr(s.subrange(cur, i))] + lines_from(s, i + 1)
            },
        }
    }
}

pub open spec fn lines(s: Seq<char>) -> Seq<Seq<char>> {
    lines_from(s, 0)
}

/// A text has no more lines than characters.
pub proof fn lemma_lines_len(s: Seq<char>, cur: int)
    requires
        0 <= cur,
    ensures
        lines_from(s, cur).len() <= if cur <= s.len() {
            s.len() - cur
        } else {
            0
        },
    decreases s.len() - cur,
{
    if cur < s.len() {
        lemma_find_char_from(s, '\n', cur);
        match find_char_from(s, '\n', cur) {
            None => {},
            Some(i) => {
                lemma_lines_len(s, i + 1);
            },
        }
    }
}

/// `str::lines`, collected.
fn lines_of(text: &str) -> (r: Vec<String>)
    ensures
        r@.map_values(|l: String| l@) == lines(text@),
{
    let s = chars_of(text);
    let n = s.len();
    let mut out: Vec<String> = Vec::new();
    let mut cur: usize = 0;
    while cur < n
        invariant
            cur <= n,
            n == s@.len(),
            s@ == text@,
            lines(s@) == out@.map_values(|l: String| l@) + lines_from(s@, cur as int),
        decreases n - cur,
    {
        let ghost before = out@;
        proof {
            lemma_find_char_from(s@, '\n', cur as int);
        }
        match find_char(&s, '\n', cur) {
            None => {
                out.push(string_of_range(&s, cur, n));
                proof {
                    assert(out@.map_values(|l: String| l@) == before.map_values(|l: String| l@).push(
                        s@.subrange(cur as int, n as int),
                    ));
                    assert(lines_from(s@, n as int) == Seq::<Seq<char>>::empty());
                }
                cur = n;
            },
            Some(i) => {
                let end = if i > cur && s[i - 1] == '\r' {
                    i - 1
                } else {
                    i
                };
                out.push(string_of_range(&s, cur, end));
                proof {
                    let l = s@.subrange(cur as int, i as int);
                    if i > cur && s@[i - 1] == '\r' {
                        assert(l.drop_last() == s@.subrange(cur as int, end as int));
                    }
                    assert(out@.map_values(|l: String| l@) == before.map_values(|l: String| l@).push(
                        strip_cr(l),
                    ));
                }
                cur = i + 1;
            },
        }
    }
    assert(lines_from(s@, cur as int) == Seq::<Seq<char>>::empty());
    assert(out@.map_values(|l: String| l@) + Seq::<Seq<char>>::empty() == out@.map_values(
        |l: String| l@,
    ));
    out
}

// ───────────────────────── longest common subsequence ─────────────────────────

/// Length of a longest common subsequence of `a[i..]` and `b[j..]`.
pub open spec fn lcs(a: Seq<Seq<char>>, b: Seq<Seq<char>>, i: int, j: int) -> nat
    decreases a.len() - i + b.len() - j,
{
    if i < 0 || j < 0 || i >= a.len() || j >= b.len() {
        0
    } else if a[i] == b[j] {
        1 + lcs(a, b, i + 1, j + 1)
    } else {
        let x = lcs(a, b, i + 1, j);
        let y = lcs(a, b, i, j + 1);
        if x >= y {
            x
        } else {
            y
        }
    }
}

/// A common subsequence is no longer than what is left of either side.
pub proof fn lemma_lcs_bound(a: Seq<Seq<char>>, b: Seq<Seq<char>>, i: int, j: int)
    requires
        0 <= i <= a.len(),
        0 <= j <= b.len(),
    ensures
        lcs(a, b, i, j) <= a.len() - i,
        lcs(a, b, i, j) <= b.len() - j,
    decreases a.len() - i + b.len() - j,
{
    if i < a.len() && j < b.len() {
        lemma_lcs_bound(a, b, i + 1, j + 1);
        lemma_lcs_bound(a, b, i + 1, j);
        lemma_lcs_bound(a, b, i, j + 1);
    }
}

/// One line of the diff: `' '` kept, `'-'` only in the old text, `'+'` only in the new.
pub open spec fn entry(tag: char, line: Seq<char>) -> (char, Seq<char>) {
    (tag, line)
}

/// The remaining lines of one side, all with the same tag.
pub open spec fn tagged(tag: char, ls: Seq<Seq<char>>) -> Seq<(char, Seq<char>)> {
    ls.map_values(|l: Seq<char>| entry(tag, l))
}

/// The diff of `a[i..]` against `b[j..]`, walking the LCS table: equal lines are
/// kept, otherwise the side whose skip keeps the longer common subsequence
/// advances (the old side on a tie); the leftover of either side comes last.
pub open spec fn diff_walk(a: Seq<Seq<char>>, b: Seq<Seq<char>>, i: int, j: int) -> Seq<
    (char, Seq<char>),
>
    decreases a.len() - i + b.len() - j,
{
    if i < 0 || j < 0 || i > a.len() || j > b.len() {
        Seq::empty()
    } else if i < a.len() && j < b.len() {
        if a[i] == b[j] {
            seq![entry(' ', a[i])] + diff_walk(a, b, i + 1, j + 1)
        } else if lcs(a, b, i + 1, j) >= lcs(a, b, i, j + 1) {
            seq![entry('-', a[i])] + diff_walk(a, b, i + 1, j)
        } else {
            seq![entry('+', b[j])] + diff_walk(a, b, i, j + 1)
        }
    } else {
        tagged('-', a.skip(i)) + tagged('+', b.skip(j))
    }
}

/// The diff of two texts, line by line.
pub open spec fn line_diff_spec(old: Seq<char>, new: Seq<char>) -> Seq<(char, Seq<char>)> {
    diff_walk(lines(old), lines(new), 0, 0)
}

pub open spec fn entry_view(e: (char, String)) -> (char, Seq<char>) {
    (e.0, e.1@)
}

/// A row of zeros.
fn zeros(len: usize) -> (r: Vec<usize>)
    ensures
        r@.len() == len,
        forall|k: int| 0 <= k < len ==> r@[k] == 0,
{
    let mut r: Vec<usize> = Vec::new();
    let mut k: usize = 0;
    while k < len
        invariant
            0 <= k <= len,
            r@.len() == k,
            forall|x: int| 0 <= x < k ==> r@[x] == 0,
        decreases len - k,
    {
        r.push(0);
        k = k + 1;
    }
    r
}

/// `lcs(a, b, i, j)` for every `i <= a.len()`, `j <= b.len()`.
fn lcs_table(a: &Vec<String>, b: &Vec<String>) -> (t: Vec<Vec<usize>>)
    requires
        a@.len() < usize::MAX,
        b@.len() < usize::MAX,
    ensures
        t@.len() == a@.len() + 1,
        forall|i: int| 0 <= i <= a@.len() ==> #[trigger] t@[i]@.len() == b@.len() + 1,
        forall|i: int, j: int|
            0 <= i <= a@.len() && 0 <= j <= b@.len() ==> #[trigger] t@[i]@[j] == lcs(
                a@.map_values(|l: String| l@),
                b@.map_values(|l: String| l@),
                i,
                j,
            ),
{
    let ghost av = a@.map_values(|l: String| l@);
    let ghost bv = b@.map_values(|l: String| l@);
    let n = a.len();
    let m = b.len();
    let mut t: Vec<Vec<usize>> = Vec::new();
    let mut k: usize = 0;
    while k <= n
        invariant
            0 <= k <= n + 1,
            n == a@.len(),
            m == b@.len(),
            t@.len() == k,
            n < usize::MAX,
            m < usize::MAX,
            forall|i: int| 0 <= i < k ==> #[trigger] t@[i]@.len() == m + 1,
            forall|i: int, j: int| 0 <= i < k && 0 <= j <= m ==> #[trigger] t@[i]@[j] == 0,
        decreases n + 1 - k,
    {
        t.push(zeros(m + 1));
        k = k + 1;
    }
    assert(av.len() == n && bv.len() == m);
    let mut i: usize = n;
    while i > 0
        invariant
            0 <= i <= n,
            n == a@.len(),
            m == b@.len(),
            av == a@.map_values(|l: String| l@),
            bv == b@.map_values(|l: String| l@),
            t@.len() == n + 1,
            forall|r: int|
                0 <= r <= n ==> #[trigger] t@[r]@.len() == m + 1,
            forall|r: int, j: int|
                i <= r <= n && 0 <= j <= m ==> #[trigger] t@[r]@[j] == lcs(av, bv, r, j),
            m < usize::MAX,
        decreases i,
    {
        let r = i - 1;
        let mut row = zeros(m + 1);
        let mut j: usize = m;
        while j > 0
            invariant
                0 <= j <= m,
                r + 1 == i,
                1 <= i <= n,
                n == a@.len(),
                m == b@.len(),
                av == a@.map_values(|l: String| l@),
                bv == b@.map_values(|l: String| l@),
                t@.len() == n + 1,
                forall|q: int| 0 <= q <= n ==> #[trigger] t@[q]@.len() == m + 1,
                forall|q: int, c: int|
                    i <= q <= n && 0 <= c <= m ==> #[trigger] t@[q]@[c] == lcs(av, bv, q, c),
                row@.len() == m + 1,
                forall|c: int| j <= c <= m ==> #[trigger] row@[c] == lcs(av, bv, r as int, c),
            decreases j,
        {
            let c = j - 1;
            proof {
                lemma_lcs_bound(av, bv, i as int, j as int);
                lemma_lcs_bound(av, bv, r as int, c as int);
                assert(av[r as int] == a@[r as int]@);
                assert(bv[c as int] == b@[c as int]@);
            }
            let below = &t[i];
            let v = if a[r] == b[c] {
                below[j] + 1
            } else {
                let x = below[c];
                let y = row[j];
                if x >= y {
                    x
                } else {
                    y
                }
            };
            row.set(c, v);
            j = c;
        }
        proof {
            assert(row@[m as int] == lcs(av, bv, r as int, m as int));
        }
        t.set(r, row);
        i = r;
    }
    t
}

/// Diff `old` against `new`, line by line. Returns `(tag, line)` pairs where
/// tag is `' '` (unchanged), `'-'` (only in old), or `'+'` (only in new).
pub fn line_diff(old: &str, new: &str) -> (r: Vec<(char, String)>)
    requires
        old@.len() < usize::MAX,
        new@.len() < usize::MAX,
    ensures
        r@.map_values(|e: (char, String)| entry_view(e)) == line_diff_spec(old@, new@),
{
    let a = lines_of(old);
    let b = lines_of(new);
    let ghost av = a@.map_values(|l: String| l@);
    let ghost bv = b@.map_values(|l: String| l@);
    let n = a.len();
    let m = b.len();
    proof {
        lemma_lines_len(old@, 0);
        lemma_lines_len(new@, 0);
    }
    let t = lcs_table(&a, &b);
    let mut out: Vec<(char, String)> = Vec::new();
    let mut i: usize = 0;
    let mut j: usize = 0;
    while i < n && j < m
        invariant
            i <= n,
            j <= m,
            n == a@.len(),
            m == b@.len(),
            av == a@.map_values(|l: String| l@),
            bv == b@.map_values(|l: String| l@),
            av == lines(old@),
            bv == lines(new@),
            t@.len() == n + 1,
            forall|q: int| 0 <= q <= n ==> #[trigger] t@[q]@.len() == m + 1,
            forall|q: int, c: int|
                0 <= q <= n && 0 <= c <= m ==> #[trigger] t@[q]@[c] == lcs(av, bv, q, c),
            diff_walk(av, bv, 0, 0) == out@.map_values(|e: (char, String)| entry_view(e))
                + diff_walk(av, bv, i as int, j as int),
        decreases n - i + m - j,
    {
        let ghost before = out@;
        proof {
            assert(av[i as int] == a@[i as int]@);
            assert(bv[j as int] == b@[j as int]@);
            assert(t@[i + 1]@[j as int] == lcs(av, bv, i + 1, j as int));
            assert(t@[i as int]@[j + 1] == lcs(av, bv, i as int, j + 1));
        }
        if a[i] == b[j] {
            let e = (' ', a[i].clone());
            out.push(e);
            i = i + 1;
            j = j + 1;
        } else if t[i + 1][j] >= t[i][j + 1] {
            let e = ('-', a[i].clone());
            out.push(e);
            i = i + 1;
        } else {
            let e = ('+', b[j].clone());
            out.push(e);
            j = j + 1;
        }
        proof {
            assert(out@.map_values(|e: (char, String)| entry_view(e)) == before.map_values(
                |e: (char, String)| entry_view(e),
            ).push(entry_view(out@.last())));
        }
    }
    let ghost mid = out@;
    let mut k: usize = i;
    while k < n
        invariant
            i <= k <= n,
            n == a@.len(),
            av == a@.map_values(|l: String| l@),
            out@.map_values(|e: (char, String)| entry_view(e)) == mid.map_values(
                |e: (char, String)| entry_view(e),
            ) + tagged('-', av.subrange(i as int, k as int)),
        decreases n - k,
    {
        let ghost before = out@;
        out.push(('-', a[k].clone()));
        proof {
            assert(out@.map_values(|e: (char, String)| entry_view(e)) == before.map_values(
                |e: (char, String)| entry_view(e),
            ).push(entry('-', av[k as int])));
            assert(av.subrange(i as int, k + 1) == av.subrange(i as int, k as int).push(
                av[k as int],
            ));
        }
        k = k + 1;
    }
    let ghost mid2 = out@;
    let mut k: usize = j;
    while k < m
        invariant
            j <= k <= m,
            m == b@.len(),
            bv == b@.map_values(|l: String| l@),
            out@.map_values(|e: (char, String)| entry_view(e)) == mid2.map_values(
                |e: (char, String)| entry_view(e),
            ) + tagged('+', bv.subrange(j as int, k as int)),
        decreases m - k,
    {
        let ghost before = out@;
        out.push(('+', b[k].clone()));
        proof {
            assert(out@.map_values(|e: (char, String)| entry_view(e)) == before.map_values(
                |e: (char, String)| entry_view(e),
            ).push(entry('+', bv[k as int])));
            assert(bv.subrange(j as int, k + 1) == bv.subrange(j as int, k as int).push(
                bv[k as int],
            ));
        }
        k = k + 1;
    }
    proof {
        assert(av.subrange(i as int, n as int) == av.skip(i as int));
        assert(bv.subrange(j as int, m as int) == bv.skip(j as int));
        assert(diff_walk(av, bv, i as int, j as int) == tagged('-', av.skip(i as int)) + tagged(
            '+',
            bv.skip(j as int),
        ));
    }
    out
}


// ───────────────────────── laws ─────────────────────────

/// The old text's lines that a diff lists: every entry not tagged `'+'`, in order.
pub open spec fn old_side(d: Seq<(char, Seq<char>)>) -> Seq<Seq<char>>
    decreases d.len(),
{
    if d.len() == 0 {
        Seq::empty()
    } else {
        (if d[0].0 != '+' {
            seq![d[0].1]
        } else {
            Seq::empty()
        }) + old_side(d.drop_first())
    }
}

/// The new text's lines that a diff lists: every entry not tagged `'-'`, in order.
pub open spec fn new_side(d: Seq<(char, Seq<char>)>) -> Seq<Seq<char>>
    decreases d.len(),
{
    if d.len() == 0 {
        Seq::empty()
    } else {
        (if d[0].0 != '-' {
            seq![d[0].1]
        } else {
            Seq::empty()
        }) + new_side(d.drop_first())
    }
}

/// Number of entries tagged `' '`.
pub open spec fn kept_count(d: Seq<(char, Seq<char>)>) -> nat
    decreases d.len(),
{
    if d.len() == 0 {
        0
    } else {
        (if d[0].0 == ' ' {
            1nat
        } else {
            0nat
        }) + kept_count(d.drop_first())
    }
}

proof fn lemma_sides_cons(e: (char, Seq<char>), d: Seq<(char, Seq<char>)>)
    ensures
        old_side(seq![e] + d) == (if e.0 != '+' {
            seq![e.1]
        } else {
            Seq::empty()
        }) + old_side(d),
        new_side(seq![e] + d) == (if e.0 != '-' {
            seq![e.1]
        } else {
            Seq::empty()
        }) + new_side(d),
        kept_count(seq![e] + d) == (if e.0 == ' ' {
            1nat
        } else {
            0nat
        }) + kept_count(d),
{
    assert((seq![e] + d).drop_first() == d);
    assert((seq![e] + d)[0] == e);
}

/// The sides of a run of lines that all carry one tag.
proof fn lemma_sides_tagged(tag: char, ls: Seq<Seq<char>>, rest: Seq<(char, Seq<char>)>)
    requires
        tag == '-' || tag == '+',
    ensures
        old_side(tagged(tag, ls) + rest) == (if tag == '-' {
            ls
        } else {
            Seq::empty()
        }) + old_side(rest),
        new_side(tagged(tag, ls) + rest) == (if tag == '+' {
            ls
        } else {
            Seq::empty()
        }) + new_side(rest),
        kept_count(tagged(tag, ls) + rest) == kept_count(rest),
    decreases ls.len(),
{
    if ls.len() == 0 {
        assert(tagged(tag, ls) + rest == rest);
    } else {
        let t = tagged(tag, ls.drop_first());
        assert(tagged(tag, ls) + rest == seq![entry(tag, ls[0])] + (t + rest));
        assert(ls.drop_first().map_values(|l: Seq<char>| entry(tag, l)) == t);
        lemma_sides_cons(entry(tag, ls[0]), t + rest);
        lemma_sides_tagged(tag, ls.drop_first(), rest);
        assert(seq![ls[0]] + ls.drop_first() == ls);
    }
}

proof fn lemma_walk_sides(a: Seq<Seq<char>>, b: Seq<Seq<char>>, i: int, j: int)
    requires
        0 <= i <= a.len(),
        0 <= j <= b.len(),
    ensures
        old_side(diff_walk(a, b, i, j)) == a.skip(i),
        new_side(diff_walk(a, b, i, j)) == b.skip(j),
        kept_count(diff_walk(a, b, i, j)) == lcs(a, b, i, j),
    decreases a.len() - i + b.len() - j,
{
    if i < a.len() && j < b.len() {
        if a[i] == b[j] {
            lemma_walk_sides(a, b, i + 1, j + 1);
            lemma_sides_cons(entry(' ', a[i]), diff_walk(a, b, i + 1, j + 1));
            assert(seq![a[i]] + a.skip(i + 1) == a.skip(i));
            assert(seq![b[j]] + b.skip(j + 1) == b.skip(j));
        } else if lcs(a, b, i + 1, j) >= lcs(a, b, i, j + 1) {
            lemma_walk_sides(a, b, i + 1, j);
            lemma_sides_cons(entry('-', a[i]), diff_walk(a, b, i + 1, j));
            assert(seq![a[i]] + a.skip(i + 1) == a.skip(i));
        } else {
            lemma_walk_sides(a, b, i, j + 1);
            lemma_sides_cons(entry('+', b[j]), diff_walk(a, b, i, j + 1));
            assert(seq![b[j]] + b.skip(j + 1) == b.skip(j));
        }
    } else {
        let empty: Seq<(char, Seq<char>)> = Seq::empty();
        lemma_sides_tagged('+', b.skip(j), empty);
        assert(tagged('+', b.skip(j)) + empty == tagged('+', b.skip(j)));
        lemma_sides_tagged('-', a.skip(i), tagged('+', b.skip(j)));
        assert(a.skip(i) + Seq::<Seq<char>>::empty() == a.skip(i));
        assert(Seq::<Seq<char>>::empty() + b.skip(j) == b.skip(j));
        if i == a.len() {
            assert(a.skip(i) == Seq::<Seq<char>>::empty());
        }
        if j == b.len() {
            assert(b.skip(j) == Seq::<Seq<char>>::empty());
        }
    }
}

/// Reading a diff's unchanged and removed lines, in order, gives back the old
/// text's lines.
pub proof fn law_diff_replays_old(old: Seq<char>, new: Seq<char>)
    ensures
        old_side(line_diff_spec(old, new)) == lines(old),
{
    lemma_walk_sides(lines(old), lines(new), 0, 0);
    assert(lines(old).skip(0) == lines(old));
}

/// Reading a diff's unchanged and added lines, in order, gives back the new
/// text's lines.
pub proof fn law_diff_replays_new(old: Seq<char>, new: Seq<char>)
    ensures
        new_side(line_diff_spec(old, new)) == lines(new),
{
    lemma_walk_sides(lines(old), lines(new), 0, 0);
    assert(lines(new).skip(0) == lines(new));
}

/// A diff keeps as many lines unchanged as the longest common subsequence of
/// the two texts' lines: no diff of these texts keeps more.
pub proof fn law_diff_keeps_lcs(old: Seq<char>, new: Seq<char>)
    ensures
        kept_count(line_diff_spec(old, new)) == lcs(lines(old), lines(new), 0, 0),
{
    lemma_walk_sides(lines(old), lines(new), 0, 0);
}

proof fn lemma_walk_identical(a: Seq<Seq<char>>, i: int)
    requires
        0 <= i <= a.len(),
    ensures
        forall|k: int|
            0 <= k < diff_walk(a, a, i, i).len() ==> #[trigger] diff_walk(a, a, i, i)[k].0 == ' ',
        diff_walk(a, a, i, i).len() == a.len() - i,
    decreases a.len() - i,
{
    if i < a.len() {
        lemma_walk_identical(a, i + 1);
        let rest = diff_walk(a, a, i + 1, i + 1);
        assert forall|k: int| 0 <= k < diff_walk(a, a, i, i).len() implies #[trigger] diff_walk(
            a,
            a,
            i,
            i,
        )[k].0 == ' ' by {
            if k > 0 {
                assert(diff_walk(a, a, i, i)[k] == rest[k - 1]);
            }
        }
    } else {
        assert(a.skip(i).len() == 0);
    }
}

/// Diffing a text against itself marks every line unchanged.
pub proof fn law_diff_of_identical(text: Seq<char>)
    ensures
        line_diff_spec(text, text).len() == lines(text).len(),
        forall|k: int|
            0 <= k < line_diff_spec(text, text).len() ==> #[trigger] line_diff_spec(text, text)[k].0
                == ' ',
{
    lemma_walk_identical(lines(text), 0);
}

/// Against an empty old text every line of the new one is an addition.
pub proof fn law_diff_from_empty(new: Seq<char>)
    ensures
        line_diff_spec(Seq::empty(), new) == tagged('+', lines(new)),
{
    assert(lines(Seq::<char>::empty()) == Seq::<Seq<char>>::empty());
    assert(lines(new).skip(0) == lines(new));
    assert(tagged('-', Seq::<Seq<char>>::empty().skip(0)) == Seq::<(char, Seq<char>)>::empty());
    assert(Seq::<(char, Seq<char>)>::empty() + tagged('+', lines(new)) == tagged('+', lines(new)));
}

} // verus!
