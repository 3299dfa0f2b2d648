//! Normalisation of preset links: GitHub "blob" pages and jsDelivr GitHub
//! links are rewritten to the raw file on `raw.githubusercontent.com`.
use crate::text::{
    is_ws, lead_ws, lemma_lead_ws_char, lemma_trail_ws_char, lemma_ws_bounds, trail_ws,
    trim_start, chars_of, contains, find, find_char, find_char_from, join, lemma_find_char_from,
    lemma_join_take, matches_at, occurs_at, push_all, push_char, push_range, starts_with, string_of,
    trim, trim_bounds, vec_of_range,
};
use vstd::prelude::*;

verus! {

// ───────────────────────── fixed words ─────────────────────────

pub open spec fn github_host_slash() -> Seq<char> {
    seq!['g', 'i', 't', 'h', 'u', 'b', '.', 'c', 'o', 'm', '/']
}

fn github_host_slash_chars() -> (v: Vec<char>)
    ensures
        v@ == github_host_slash(),
{
    vec!['g', 'i', 't', 'h', 'u', 'b', '.', 'c', 'o', 'm', '/']
}

pub open spec fn blob_segment() -> Seq<char> {
    seq!['/', 'b', 'l', 'o', 'b', '/']
}

fn blob_segment_chars() -> (v: Vec<char>)
    ensures
        v@ == blob_segment(),
{
    vec!['/', 'b', 'l', 'o', 'b', '/']
}

pub open spec fn jsdelivr_gh() -> Seq<char> {
    seq!['c', 'd', 'n', '.', 'j', 's', 'd', 'e', 'l', 'i', 'v', 'r', '.', 'n', 'e', 't', '/', 'g', 'h', '/']
}

fn jsdelivr_gh_chars() -> (v: Vec<char>)
    ensures
        v@ == jsdelivr_gh(),
{
    vec!['c', 'd', 'n', '.', 'j', 's', 'd', 'e', 'l', 'i', 'v', 'r', '.', 'n', 'e', 't', '/', 'g', 'h', '/']
}

pub open spec fn https_scheme() -> Seq<char> {
    seq!['h', 't', 't', 'p', 's', ':', '/', '/']
}

fn https_scheme_chars() -> (v: Vec<char>)
    ensures
        v@ == https_scheme(),
{
    vec!['h', 't', 't', 'p', 's', ':', '/', '/']
}

pub open spec fn http_scheme() -> Seq<char> {
    seq!['h', 't', 't', 'p', ':', '/', '/']
}

fn http_scheme_chars() -> (v: Vec<char>)
    ensures
        v@ == http_scheme(),
{
    vec!['h', 't', 't', 'p', ':', '/', '/']
}

pub open spec fn github_host() -> Seq<char> {
    seq!['g', 'i', 't', 'h', 'u', 'b', '.', 'c', 'o', 'm']
}

fn github_host_chars() -> (v: Vec<char>)
    ensures
        v@ == github_host(),
{
    vec!['g', 'i', 't', 'h', 'u', 'b', '.', 'c', 'o', 'm']
}

pub open spec fn word_blob() -> Seq<char> {
    seq!['b', 'l', 'o', 'b']
}

fn word_blob_chars() -> (v: Vec<char>)
    ensures
        v@ == word_blob(),
{
    vec!['b', 'l', 'o', 'b']
}

pub open spec fn jsdelivr_host() -> Seq<char> {
    seq!['c', 'd', 'n', '.', 'j', 's', 'd', 'e', 'l', 'i', 'v', 'r', '.', 'n', 'e', 't']
}

fn jsdelivr_host_chars() -> (v: Vec<char>)
    ensures
        v@ == jsdelivr_host(),
{
    vec!['c', 'd', 'n', '.', 'j', 's', 'd', 'e', 'l', 'i', 'v', 'r', '.', 'n', 'e', 't']
}

pub open spec fn word_gh() -> Seq<char> {
    seq!['g', 'h']
}

fn word_gh_chars() -> (v: Vec<char>)
    ensures
        v@ == word_gh(),
{
    vec!['g', 'h']
}

pub open spec fn word_main() -> Seq<char> {
    seq!['m', 'a', 'i', 'n']
}

fn word_main_chars() -> (v: Vec<char>)
    ensures
        v@ == word_main(),
{
    vec!['m', 'a', 'i', 'n']
}

pub open spec fn raw_prefix() -> Seq<char> {
    seq!['h', 't', 't', 'p', 's', ':', '/', '/', 'r', 'a', 'w', '.', 'g', 'i', 't', 'h', 'u', 'b', 'u', 's', 'e', 'r', 'c', 'o', 'n', 't', 'e', 'n', 't', '.', 'c', 'o', 'm', '/']
}

fn raw_prefix_chars() -> (v: Vec<char>)
    ensures
        v@ == raw_prefix(),
{
    vec!['h', 't', 't', 'p', 's', ':', '/', '/', 'r', 'a', 'w', '.', 'g', 'i', 't', 'h', 'u', 'b', 'u', 's', 'e', 'r', 'c', 'o', 'n', 't', 'e', 'n', 't', '.', 'c', 'o', 'm', '/']
}

// ───────────────────────── splitting ─────────────────────────

/// `s` with every leading copy of `p` removed (`str::trim_start_matches`).
pub open spec fn strip_leading(s: Seq<char>, p: Seq<char>) -> Seq<char>
    decreases s.len(),
{
    if p.len() > 0 && starts_with(s, p) {
        strip_leading(s.skip(p.len() as int), p)
    } else {
        s
    }
}

/// The pieces of `s[cur..]` between the characters `c` (`str::split`), empty
/// pieces included.
pub open spec fn split_from(s: Seq<char>, c: char, cur: int) -> Seq<Seq<char>>
    decreases s.len() + 1 - cur,
{
    if cur < 0 || cur > s.len() {
        Seq::empty()
    } else {
        match find_char_from(s, c, cur) {
            None => seq![s.subrange(cur, s.len() as int)],
            Some(i) => {
                proof {
                    lemma_find_char_from(s, c, cur);
                }
                seq![s.subrange(cur, i)] + split_from(s, c, i + 1)
            },
        }
    }
}

/// At most `n` pieces of `s[cur..]` between the characters `c`, the last one
/// holding the rest (`str::splitn`).
pub open spec fn splitn_from(s: Seq<char>, n: nat, c: char, cur: int) -> Seq<Seq<char>>
    decreases n,
{
    if n == 0 || cur < 0 || cur > s.len() {
        Seq::empty()
    } else if n == 1 {
        seq![s.subrange(cur, s.len() as int)]
    } else {
        match find_char_from(s, c, cur) {
            None => seq![s.subrange(cur, s.len() as int)],
            Some(i) => seq![s.subrange(cur, i)] + splitn_from(s, (n - 1) as nat, c, i + 1),
        }
    }
}

/// The text before and after the first `c` (`str::split_once`).
pub open spec fn split_once(s: Seq<char>, c: char) -> Option<(Seq<char>, Seq<char>)> {
    match find_char_from(s, c, 0) {
        None => None,
        Some(i) => Some((s.take(i), s.skip(i + 1))),
    }
}

/// The link without its scheme, as the normalisation reads it.
pub open spec fn without_scheme(url: Seq<char>) -> Seq<char> {
    strip_leading(strip_leading(url, https_scheme()), http_scheme())
}

/// `https://raw.githubusercontent.com/{owner}/{repo}/{branch}/{path}`.
pub open spec fn raw_url(owner: Seq<char>, repo: Seq<char>, branch: Seq<char>, path: Seq<char>) -> Seq<char> {
    raw_prefix() + owner + seq!['/'] + repo + seq!['/'] + branch + seq!['/'] + path
}

/// The raw link for a `github.com/{owner}/{repo}/blob/{branch}/{path}` link, if
/// the link has that shape.
pub open spec fn github_raw(url: Seq<char>) -> Option<Seq<char>> {
    let parts = split_from(without_scheme(url), '/', 0);
    if contains(url, github_host_slash()) && contains(url, blob_segment()) && parts.len() >= 6
        && parts[0] == github_host() && parts[3] == word_blob() {
        Some(raw_url(parts[1], parts[2], parts[4], join(parts.skip(5), seq!['/'])))
    } else {
        None
    }
}

/// The raw link for a `cdn.jsdelivr.net/gh/{owner}/{repo}[@{branch}]/{path}`
/// link, if the link has that shape; the branch defaults to `main`.
pub open spec fn jsdelivr_raw(url: Seq<char>) -> Option<Seq<char>> {
    let parts = splitn_from(without_scheme(url), 4, '/', 0);
    if contains(url, jsdelivr_gh()) && parts.len() >= 4 && parts[0] == jsdelivr_host()
        && parts[1] == word_gh() {
        match split_once(parts[3], '/') {
            None => None,
            Some((repo_branch, path)) => match split_once(repo_branch, '@') {
                Some((repo, branch)) => Some(raw_url(parts[2], repo, branch, path)),
                None => Some(raw_url(parts[2], repo_branch, word_main(), path)),
            },
        }
    } else {
        None
    }
}

/// The normalised form of a preset link: the input trimmed, and rewritten to
/// the raw file where it is a GitHub blob page or a jsDelivr GitHub link.
pub open spec fn normalized_url(input: Seq<char>) -> Seq<char> {
    let url = trim(input);
    match github_raw(url) {
        Some(r) => r,
        None => match jsdelivr_raw(url) {
            Some(r) => r,
            None => url,
        },
    }
}

// ───────────────────────── executable ─────────────────────────

/// `s[lo..hi]` equals `w`.
fn range_eq(s: &[char], lo: usize, hi: usize, w: &[char]) -> (r: bool)
    requires
        lo <= hi <= s@.len(),
    ensures
        r == (s@.subrange(lo as int, hi as int) == w@),
{
    if hi - lo != w.len() {
        return false;
    }
    matches_at(s, w, lo)
}

/// Position in `u` after every leading copy of `p`, starting at `lo`.
fn strip_leading_from(u: &[char], p: &[char], lo: usize) -> (r: usize)
    requires
        lo <= u@.len(),
    ensures
        lo <= r <= u@.len(),
        u@.subrange(r as int, u@.len() as int) == strip_leading(
            u@.subrange(lo as int, u@.len() as int),
            p@,
        ),
{
    let n = u.len();
    let mut i: usize = lo;
    while p.len() > 0 && matches_at(u, p, i)
        invariant
            lo <= i <= n,
            n == u@.len(),
            strip_leading(u@.subrange(lo as int, n as int), p@) == strip_leading(
                u@.subrange(i as int, n as int),
                p@,
            ),
        decreases n - i,
    {
        proof {
            let t = u@.subrange(i as int, n as int);
            assert(t.take(p@.len() as int) == u@.subrange(i as int, i + p@.len()));
            assert(t.skip(p@.len() as int) == u@.subrange(i + p@.len(), n as int));
        }
        i = i + p.len();
    }
    proof {
        let t = u@.subrange(i as int, n as int);
        if p@.len() > 0 && starts_with(t, p@) {
            assert(t.take(p@.len() as int) == u@.subrange(i as int, i + p@.len()));
            assert(occurs_at(u@, p@, i as int));
        }
    }
    i
}

/// The link without its scheme.
fn scheme_free(url: &[char]) -> (v: Vec<char>)
    ensures
        v@ == without_scheme(url@),
{
    let n = url.len();
    let https = https_scheme_chars();
    let http = http_scheme_chars();
    let a = strip_leading_from(url, &https, 0);
    let b = strip_leading_from(url, &http, a);
    assert(url@.subrange(0, n as int) == url@);
    vec_of_range(url, b, n)
}

/// Spans of the pieces of `t` between the characters `c`.
fn split_spans(t: &[char], c: char) -> (r: Vec<(usize, usize)>)
    ensures
        r@.len() == split_from(t@, c, 0).len(),
        forall|i: int|
            0 <= i < r@.len() ==> {
                let sp = #[trigger] r@[i];
                &&& sp.0 <= sp.1 <= t@.len()
                &&& t@.subrange(sp.0 as int, sp.1 as int) == split_from(t@, c, 0)[i]
            },
{
    let n = t.len();
    let mut out: Vec<(usize, usize)> = Vec::new();
    let mut cur: usize = 0;
    let ghost done: Seq<Seq<char>> = Seq::empty();
    loop
        invariant
            cur <= n,
            n == t@.len(),
            split_from(t@, c, 0) == done + split_from(t@, c, cur as int),
            out@.len() == done.len(),
            forall|i: int|
                0 <= i < out@.len() ==> {
                    let sp = #[trigger] out@[i];
                    &&& sp.0 <= sp.1 <= t@.len()
                    &&& t@.subrange(sp.0 as int, sp.1 as int) == done[i]
                },
        decreases n + 1 - cur,
    {
        proof {
            lemma_find_char_from(t@, c, cur as int);
        }
        match find_char(t, c, cur) {
            None => {
                proof {
                    let piece = t@.subrange(cur as int, n as int);
                    assert(split_from(t@, c, cur as int) == seq![piece]);
                    assert(done + seq![piece] == done.push(piece));
                    done = done.push(piece);
                }
                out.push((cur, n));
                return out;
            },
            Some(i) => {
                proof {
                    let piece = t@.subrange(cur as int, i as int);
                    let rest = split_from(t@, c, i + 1);
                    assert(split_from(t@, c, cur as int) == seq![piece] + rest);
                    assert(done + (seq![piece] + rest) == done.push(piece) + rest);
                    done = done.push(piece);
                }
                out.push((cur, i));
                cur = i + 1;
            },
        }
    }
}

/// `github_raw` of a link.
fn github_raw_of(url: &[char]) -> (r: Option<String>)
    ensures
        r matches Some(s) ==> github_raw(url@) == Some(s@),
        r is None ==> github_raw(url@) is None,
{
    let host_slash = github_host_slash_chars();
    let blob = blob_segment_chars();
    if find(url, &host_slash, 0).is_none() || find(url, &blob, 0).is_none() {
        return None;
    }
    let ws = scheme_free(url);
    let spans = split_spans(&ws, '/');
    let ghost parts = split_from(ws@, '/', 0);
    if spans.len() < 6 {
        return None;
    }
    let host = github_host_chars();
    let word = word_blob_chars();
    let s0 = spans[0];
    let s3 = spans[3];
    if !range_eq(&ws, s0.0, s0.1, &host) || !range_eq(&ws, s3.0, s3.1, &word) {
        return None;
    }
    let s1 = spans[1];
    let s2 = spans[2];
    let s4 = spans[4];
    let mut out = String::new();
    let prefix = raw_prefix_chars();
    push_all(&mut out, &prefix);
    push_range(&mut out, &ws, s1.0, s1.1);
    push_char(&mut out, '/');
    push_range(&mut out, &ws, s2.0, s2.1);
    push_char(&mut out, '/');
    push_range(&mut out, &ws, s4.0, s4.1);
    push_char(&mut out, '/');
    let ghost head = out@;
    assert(head == raw_prefix() + parts[1] + seq!['/'] + parts[2] + seq!['/'] + parts[4] + seq![
        '/',
    ]);
    let ghost rest = parts.skip(5);
    let mut k: usize = 5;
    while k < spans.len()
        invariant
            5 <= k <= spans@.len(),
            spans@.len() == parts.len(),
            rest == parts.skip(5),
            forall|i: int|
                0 <= i < spans@.len() ==> {
                    let sp = #[trigger] spans@[i];
                    &&& sp.0 <= sp.1 <= ws@.len()
                    &&& ws@.subrange(sp.0 as int, sp.1 as int) == parts[i]
                },
            out@ == head + join(rest.take(k - 5), seq!['/']),
        decreases spans.len() - k,
    {
        let sp = spans[k];
        proof {
            lemma_join_take(rest, seq!['/'], k - 5);
            assert(rest[k - 5] == parts[k as int]);
        }
        if k > 5 {
            push_char(&mut out, '/');
        }
        push_range(&mut out, &ws, sp.0, sp.1);
        proof {
            if k == 5 {
                assert(join(rest.take(0), seq!['/']) == Seq::<char>::empty());
            }
        }
        k = k + 1;
    }
    assert(rest.take(k - 5) == rest);
    Some(out)
}

/// `jsdelivr_raw` of a link.
fn jsdelivr_raw_of(url: &[char]) -> (r: Option<String>)
    ensures
        r matches Some(s) ==> jsdelivr_raw(url@) == Some(s@),
        r is None ==> jsdelivr_raw(url@) is None,
{
    let marker = jsdelivr_gh_chars();
    if find(url, &marker, 0).is_none() {
        return None;
    }
    let ws = scheme_free(url);
    let n = ws.len();
    let ghost s = ws@;
    proof {
        reveal_with_fuel(splitn_from, 5);
        lemma_find_char_from(s, '/', 0);
    }
    let i0 = match find_char(&ws, '/', 0) {
        None => return None,
        Some(i) => i,
    };
    proof {
        lemma_find_char_from(s, '/', i0 + 1);
    }
    let i1 = match find_char(&ws, '/', i0 + 1) {
        None => {
            assert(splitn_from(s, 4, '/', 0) == seq![s.subrange(0, i0 as int)] + seq![
                s.subrange(i0 + 1, n as int),
            ]);
            return None;
        },
        Some(i) => i,
    };
    proof {
        lemma_find_char_from(s, '/', i1 + 1);
    }
    let i2 = match find_char(&ws, '/', i1 + 1) {
        None => {
            assert(splitn_from(s, 4, '/', 0) == seq![s.subrange(0, i0 as int)] + (seq![
                s.subrange(i0 + 1, i1 as int),
            ] + seq![s.subrange(i1 + 1, n as int)]));
            return None;
        },
        Some(i) => i,
    };
    let ghost parts = seq![s.subrange(0, i0 as int)] + (seq![s.subrange(i0 + 1, i1 as int)] + (
    seq![s.subrange(i1 + 1, i2 as int)] + seq![s.subrange(i2 + 1, n as int)]));
    assert(splitn_from(s, 4, '/', 0) == parts);
    let host = jsdelivr_host_chars();
    let gh = word_gh_chars();
    if !range_eq(&ws, 0, i0, &host) || !range_eq(&ws, i0 + 1, i1, &gh) {
        return None;
    }
    let rest = vec_of_range(&ws, i2 + 1, n);
    proof {
        lemma_find_char_from(rest@, '/', 0);
    }
    let j = match find_char(&rest, '/', 0) {
        None => return None,
        Some(j) => j,
    };
    let repo_branch = vec_of_range(&rest, 0, j);
    proof {
        lemma_find_char_from(repo_branch@, '@', 0);
    }
    let mut out = String::new();
    let prefix = raw_prefix_chars();
    push_all(&mut out, &prefix);
    push_range(&mut out, &ws, i1 + 1, i2);
    push_char(&mut out, '/');
    match find_char(&repo_branch, '@', 0) {
        Some(a) => {
            push_range(&mut out, &repo_branch, 0, a);
            push_char(&mut out, '/');
            push_range(&mut out, &repo_branch, a + 1, j);
        },
        None => {
            push_all(&mut out, &repo_branch);
            push_char(&mut out, '/');
            let main = word_main_chars();
            push_all(&mut out, &main);
        },
    }
    push_char(&mut out, '/');
    push_range(&mut out, &rest, j + 1, rest.len());
    proof {
        assert(rest@.take(j as int) == repo_branch@);
        assert(rest@.skip(j + 1) == rest@.subrange(j + 1, rest@.len() as int));
        assert(repo_branch@.subrange(0, repo_branch@.len() as int) == repo_branch@);
    }
    Some(out)
}

/// Normalises a preset link: the input is trimmed, a GitHub
/// `github.com/{owner}/{repo}/blob/{branch}/{path}` page and a jsDelivr
/// `cdn.jsdelivr.net/gh/{owner}/{repo}[@{branch}]/{path}` link become
/// `https://raw.githubusercontent.com/{owner}/{repo}/{branch}/{path}` (branch
/// `main` where jsDelivr names none); any other link is returned trimmed.
pub fn normalize_preset_url(input: &str) -> (r: String)
    ensures
        r@ == normalized_url(input@),
{
    let chars = chars_of(input);
    let n = chars.len();
    let (a, b) = trim_bounds(&chars, 0, n);
    assert(chars@.subrange(0, n as int) == chars@);
    let url = vec_of_range(&chars, a, b);
    match github_raw_of(&url) {
        Some(s) => s,
        None => match jsdelivr_raw_of(&url) {
            Some(s) => s,
            None => string_of(&url),
        },
    }
}

// ───────────────────────── laws ─────────────────────────

/// A text that neither starts nor ends with whitespace is its own trim.
pub proof fn lemma_trim_clean(x: Seq<char>)
    requires
        x.len() == 0 || (!is_ws(x[0]) && !is_ws(x.last())),
    ensures
        trim(x) == x,
{
    lemma_lead_ws_char(x, 0);
    assert(x.skip(0) == x);
    lemma_trail_ws_char(x, 0);
    assert(x.take(x.len() as int) == x);
}

/// A trimmed text neither starts nor ends with whitespace.
pub proof fn lemma_trim_ends(u: Seq<char>)
    ensures
        trim(u).len() > 0 ==> !is_ws(trim(u)[0]) && !is_ws(trim(u).last()),
{
    lemma_ws_bounds(u);
    let ts = trim_start(u);
    lemma_ws_bounds(ts);
    let t = trim(u);
    if t.len() > 0 {
        assert(t[0] == ts[0]);
        assert(ts[0] == u[lead_ws(u) as int]);
        assert(t.last() == ts[ts.len() - trail_ws(ts) - 1]);
    }
}

/// Removing leading copies of a prefix leaves a suffix.
pub proof fn lemma_strip_suffix(x: Seq<char>, p: Seq<char>)
    ensures
        strip_leading(x, p).len() <= x.len(),
        strip_leading(x, p) == x.skip(x.len() - strip_leading(x, p).len()),
    decreases x.len(),
{
    if p.len() > 0 && starts_with(x, p) {
        lemma_strip_suffix(x.skip(p.len() as int), p);
        assert(x.skip(p.len() as int).skip(x.len() - p.len() - strip_leading(x, p).len())
            == x.skip(x.len() - strip_leading(x, p).len()));
    } else {
        assert(x.skip(0) == x);
    }
}

/// The last piece of a split is a suffix of the text.
pub proof fn lemma_split_last(w: Seq<char>, c: char, cur: int)
    requires
        0 <= cur <= w.len(),
    ensures
        split_from(w, c, cur).len() > 0,
        split_from(w, c, cur).last() == w.skip(w.len() - split_from(w, c, cur).last().len()),
        split_from(w, c, cur).last().len() <= w.len(),
    decreases w.len() + 1 - cur,
{
    lemma_find_char_from(w, c, cur);
    match find_char_from(w, c, cur) {
        None => {
            assert(w.subrange(cur, w.len() as int) == w.skip(cur));
        },
        Some(i) => {
            lemma_split_last(w, c, i + 1);
            let rest = split_from(w, c, i + 1);
            assert((seq![w.subrange(cur, i)] + rest).last() == rest.last());
        },
    }
}

/// At most `n` pieces come out of `splitn`, the last a suffix of the text.
pub proof fn lemma_splitn_last(w: Seq<char>, n: nat, c: char, cur: int)
    requires
        n >= 1,
        0 <= cur <= w.len(),
    ensures
        0 < splitn_from(w, n, c, cur).len() <= n,
        splitn_from(w, n, c, cur).last() == w.skip(w.len() - splitn_from(w, n, c, cur).last().len()),
        splitn_from(w, n, c, cur).last().len() <= w.len(),
    decreases n,
{
    if n == 1 {
        assert(w.subrange(cur, w.len() as int) == w.skip(cur));
    } else {
        lemma_find_char_from(w, c, cur);
        match find_char_from(w, c, cur) {
            None => {
                assert(w.subrange(cur, w.len() as int) == w.skip(cur));
            },
            Some(i) => {
                lemma_splitn_last(w, (n - 1) as nat, c, i + 1);
                let rest = splitn_from(w, (n - 1) as nat, c, i + 1);
                assert((seq![w.subrange(cur, i)] + rest).last() == rest.last());
            },
        }
    }
}

/// A join by `/` ends with `/` or with the last part's last character.
pub proof fn lemma_join_last(ps: Seq<Seq<char>>)
    requires
        ps.len() > 0,
    ensures
        join(ps, seq!['/']).len() > 0 ==> join(ps, seq!['/']).last() == '/' || (ps.last().len()
            > 0 && join(ps, seq!['/']).last() == ps.last().last()),
{
    if ps.len() > 1 {
        let j = join(ps.drop_last(), seq!['/']) + seq!['/'] + ps.last();
        assert(join(ps, seq!['/']) == j);
        if ps.last().len() > 0 {
            assert(j.last() == ps.last().last());
        } else {
            assert(j =~= join(ps.drop_last(), seq!['/']) + seq!['/']);
        }
    }
}

/// A rewritten link ends in `/` or in the trimmed input's last character, and
/// the text after its scheme starts with `r`.
pub proof fn lemma_raw_shape(t: Seq<char>, r: Seq<char>)
    requires
        t.len() > 0,
        github_raw(t) == Some(r) || (github_raw(t) is None && jsdelivr_raw(t) == Some(r)),
    ensures
        r.len() > 0,
        r[0] == 'h',
        r.last() == '/' || r.last() == t.last(),
        r.take(34) == raw_prefix(),
{
    let w = without_scheme(t);
    lemma_strip_suffix(t, https_scheme());
    lemma_strip_suffix(strip_leading(t, https_scheme()), http_scheme());
    let w1 = strip_leading(t, https_scheme());
    assert(w.len() > 0 ==> w.last() == t.last()) by {
        if w.len() > 0 {
            assert(w.last() == w1.skip(w1.len() - w.len()).last());
            if w1.len() > 0 {
                assert(w1.last() == t.skip(t.len() - w1.len()).last());
            }
        }
    }
    if github_raw(t) == Some(r) {
        let parts = split_from(w, '/', 0);
        lemma_split_last(w, '/', 0);
        let tail = parts.skip(5);
        assert(tail.last() == parts.last());
        lemma_join_last(tail);
        let path = join(tail, seq!['/']);
        let x = raw_prefix() + parts[1] + seq!['/'] + parts[2] + seq!['/'] + parts[4] + seq!['/'];
        assert(r == x + path);
        if path.len() > 0 {
            assert(r.last() == path.last());
            if path.last() != '/' {
                assert(parts.last().last() == w.last());
            }
        } else {
            assert(r =~= x);
        }
        assert(r.take(34) =~= raw_prefix());
    } else {
        let parts = splitn_from(w, 4, '/', 0);
        lemma_splitn_last(w, 4, '/', 0);
        assert(parts.last() == parts[3]);
        let p3 = parts[3];
        lemma_find_char_from(p3, '/', 0);
        let i = find_char_from(p3, '/', 0)->0;
        let path = p3.skip(i + 1);
        let rb = p3.take(i);
        let x = if split_once(rb, '@') is Some {
            let (repo, branch) = split_once(rb, '@')->0;
            raw_prefix() + parts[2] + seq!['/'] + repo + seq!['/'] + branch + seq!['/']
        } else {
            raw_prefix() + parts[2] + seq!['/'] + rb + seq!['/'] + word_main() + seq!['/']
        };
        assert(r == x + path);
        if path.len() > 0 {
            assert(r.last() == path.last());
            assert(path.last() == p3.last());
            assert(p3.last() == w.last());
        } else {
            assert(r =~= x);
        }
        assert(r.take(34) =~= raw_prefix());
    }
}

/// A raw link is not rewritten again.
pub proof fn lemma_raw_stays(r: Seq<char>)
    requires
        r.len() >= 34,
        r.take(34) == raw_prefix(),
    ensures
        github_raw(r) is None,
        jsdelivr_raw(r) is None,
{
    let w2 = r.skip(8);
    assert(r.take(8) =~= https_scheme());
    assert(r.skip(8).skip(8) =~= r.skip(16));
    assert(w2[0] == 'r');
    assert(strip_leading(w2, https_scheme()) == w2) by {
        if starts_with(w2, https_scheme()) {
            assert(w2.take(8)[0] == w2[0]);
        }
    }
    assert(strip_leading(r, https_scheme()) == w2);
    assert(strip_leading(w2, http_scheme()) == w2) by {
        if starts_with(w2, http_scheme()) {
            assert(w2.take(7)[0] == w2[0]);
        }
    }
    assert(without_scheme(r) == w2);
    lemma_find_char_from(w2, '/', 0);
    let parts = split_from(w2, '/', 0);
    assert(parts[0][0] == 'r');
    assert(parts[0] != github_host());
    let parts4 = splitn_from(w2, 4, '/', 0);
    assert(parts4[0][0] == 'r');
    assert(parts4[0] != jsdelivr_host());
}

/// Normalising a link twice gives what normalising once gave, and a link
/// that names neither GitHub nor jsDelivr is only trimmed.
pub proof fn law_normalize_settles(input: Seq<char>)
    ensures
        normalized_url(normalized_url(input)) == normalized_url(input),
        !contains(trim(input), github_host_slash()) && !contains(trim(input), jsdelivr_gh())
            ==> normalized_url(input) == trim(input),
{
    let t = trim(input);
    lemma_trim_ends(input);
    lemma_trim_clean(t);
    let r = normalized_url(input);
    if github_raw(t) is Some || jsdelivr_raw(t) is Some {
        lemma_raw_shape(t, r);
        lemma_trim_clean(r);
        lemma_raw_stays(r);
    }
}

} // verus!
