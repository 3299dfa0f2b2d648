//! Grouping of field tokens into an indented tree.
//!
//! Tokens carry a `data-field-path` (e.g. `footer.columns.0.links.1.label`).
//! Grouping fields by that path turns a flat wall of chips into the module's
//! structure (footer columns, link rows, …) without module-specific code.
use super::parts::{Part, PartSpec};
use crate::text::{join, lemma_join_take, push_all, push_char, push_range, trim, trim_bounds};
use crate::unicode::{char_uppercase, to_uppercase};
use vstd::prelude::*;

verus! {

// ───────────────────────── splitting ─────────────────────────

/// Separators: `.` between path segments (kind 0), `_` or `-` between words (kind 1).
pub open spec fn is_sep(kind: int, c: char) -> bool {
    if kind == 0 {
        c == '.'
    } else {
        c == '_' || c == '-'
    }
}

/// Position of the first separator at or after `cur`.
pub open spec fn next_sep(s: Seq<char>, kind: int, cur: int) -> Option<int>
    decreases s.len() - cur,
{
    if cur < 0 || cur >= s.len() {
        None
    } else if is_sep(kind, s[cur]) {
        Some(cur)
    } else {
        next_sep(s, kind, cur + 1)
    }
}

pub proof fn lemma_next_sep(s: Seq<char>, kind: int, cur: int)
    requires
        0 <= cur,
    ensures
        next_sep(s, kind, cur) matches Some(i) ==> cur <= i < s.len() && is_sep(kind, s[i]),
    decreases s.len() - cur,
{
    if cur < s.len() && !is_sep(kind, s[cur]) {
        lemma_next_sep(s, kind, cur + 1);
    }
}

/// `t` as a one-item list, or no item when it is empty.
pub open spec fn keep_nonempty(t: Seq<char>) -> Seq<Seq<char>> {
    if t.len() > 0 {
        seq![t]
    } else {
        Seq::empty()
    }
}

/// The non-empty pieces of `s[cur..]` between separators of `kind`.
pub open spec fn pieces(s: Seq<char>, kind: int, cur: int) -> Seq<Seq<char>>
    decreases s.len() + 1 - cur,
{
    if cur < 0 || cur > s.len() {
        Seq::empty()
    } else {
        match next_sep(s, kind, cur) {
            None => keep_nonempty(s.subrange(cur, s.len() as int)),
            Some(i) => {
                proof {
                    lemma_next_sep(s, kind, cur);
                }
                keep_nonempty(s.subrange(cur, i)) + pieces(s, kind, i + 1)
            },
        }
    }
}

fn is_separator(kind: u8, c: char) -> (b: bool)
    ensures
        b == is_sep(kind as int, c),
{
    if kind == 0 {
        c == '.'
    } else {
        c == '_' || c == '-'
    }
}

/// Spans of the non-empty pieces of `t` between separators of `kind`.
fn piece_spans(t: &[char], kind: u8) -> (r: Vec<(usize, usize)>)
    ensures
        r@.len() == pieces(t@, kind as int, 0).len(),
        forall|i: int|
            0 <= i < r@.len() ==> {
                let sp = #[trigger] r@[i];
                &&& sp.0 <= sp.1 <= t@.len()
                &&& t@.subrange(sp.0 as int, sp.1 as int) == pieces(t@, kind as int, 0)[i]
            },
{
    let n = t.len();
    let mut out: Vec<(usize, usize)> = Vec::new();
    let mut cur: usize = 0;
    let ghost done: Seq<Seq<char>> = Seq::empty();
    loop
        invariant
            cur <= n,
            n == t@.len(),
            pieces(t@, kind as int, 0) == done + pieces(t@, kind as int, cur as int),
            out@.len() == done.len(),
            forall|i: int|
                0 <= i < out@.len() ==> {
                    let sp = #[trigger] out@[i];
                    &&& sp.0 <= sp.1 <= t@.len()
                    &&& t@.subrange(sp.0 as int, sp.1 as int) == done[i]
                },
        decreases n + 1 - cur,
    {
        let mut i: usize = cur;
        while i < n && !is_separator(kind, t[i])
            invariant
                cur <= i <= n,
                n == t@.len(),
                next_sep(t@, kind as int, cur as int) == next_sep(t@, kind as int, i as int),
            decreases n - i,
        {
            i = i + 1;
        }
        if i > cur {
            out.push((cur, i));
        }
        proof {
            let piece = t@.subrange(cur as int, i as int);
            done = done + keep_nonempty(piece);
            assert forall|k: int| 0 <= k < out@.len() implies {
                let sp = #[trigger] out@[k];
                &&& sp.0 <= sp.1 <= t@.len()
                &&& t@.subrange(sp.0 as int, sp.1 as int) == done[k]
            } by {}
        }
        if i == n {
            proof {
                assert(pieces(t@, kind as int, cur as int) == keep_nonempty(
                    t@.subrange(cur as int, n as int),
                ));
                assert(done + Seq::<Seq<char>>::empty() == done);
                assert(pieces(t@, kind as int, n as int + 1) == Seq::<Seq<char>>::empty());
            }
            return out;
        }
        cur = i + 1;
    }
}

// ───────────────────────── segment labels ─────────────────────────

pub open spec fn is_digit(c: char) -> bool {
    '0' <= c && c <= '9'
}

/// Value of a run of decimal digits.
pub open spec fn digits_value(d: Seq<char>) -> int
    decreases d.len(),
{
    if d.len() == 0 {
        0
    } else {
        digits_value(d.drop_last()) * 10 + (d.last() as int - '0' as int)
    }
}

/// The text after an optional leading `+`.
pub open spec fn unsigned_digits(s: Seq<char>) -> Seq<char> {
    if s.len() > 0 && s[0] == '+' {
        s.skip(1)
    } else {
        s
    }
}

pub open spec fn all_digits(d: Seq<char>) -> bool {
    forall|i: int| 0 <= i < d.len() ==> is_digit(#[trigger] d[i])
}

/// `usize::from_str`: an optional `+`, then one or more decimal digits whose
/// value fits in `usize`.
pub open spec fn parse_usize_spec(s: Seq<char>) -> Option<int> {
    let d = unsigned_digits(s);
    if d.len() == 0 || !all_digits(d) || digits_value(d) > usize::MAX {
        None
    } else {
        Some(digits_value(d))
    }
}

pub open spec fn digit_char(n: int) -> char {
    ('0' as int + n) as char
}

/// Decimal notation of `n`.
pub open spec fn decimal(n: nat) -> Seq<char>
    decreases n,
{
    if n < 10 {
        seq![digit_char(n as int)]
    } else {
        decimal(n / 10).push(digit_char(n as int % 10))
    }
}

/// A word with its first character uppercased.
pub open spec fn capitalize(w: Seq<char>) -> Seq<char> {
    if w.len() == 0 {
        Seq::empty()
    } else {
        char_uppercase(w[0]) + w.skip(1)
    }
}

/// A segment as a label: an index becomes 1-based (`0` → `1`), anything else is
/// split on `_`/`-` into title-cased words joined by spaces.
pub open spec fn pretty_spec(seg: Seq<char>) -> Seq<char> {
    match parse_usize_spec(seg) {
        Some(n) => decimal((n + 1) as nat),
        None => join(pieces(seg, 1, 0).map_values(|w: Seq<char>| capitalize(w)), seq![' ']),
    }
}

/// The segment is not an index whose successor overflows `usize`.
pub open spec fn index_fits(seg: Seq<char>) -> bool {
    parse_usize_spec(seg) != Some(usize::MAX as int)
}

proof fn lemma_digits_value_nonneg(d: Seq<char>)
    requires
        forall|i: int| 0 <= i < d.len() ==> is_digit(#[trigger] d[i]),
    ensures
        digits_value(d) >= 0,
    decreases d.len(),
{
    if d.len() > 0 {
        assert forall|i: int| 0 <= i < d.len() - 1 implies is_digit(#[trigger] d.drop_last()[i]) by {
            assert(d.drop_last()[i] == d[i]);
        }
        lemma_digits_value_nonneg(d.drop_last());
    }
}

/// `usize::from_str`.
fn parse_index(seg: &[char]) -> (r: Option<usize>)
    ensures
        r matches Some(v) ==> parse_usize_spec(seg@) == Some(v as int),
        r is None ==> parse_usize_spec(seg@) is None,
{
    let n = seg.len();
    let start: usize = if n > 0 && seg[0] == '+' {
        1
    } else {
        0
    };
    let ghost d = seg@.skip(start as int);
    assert(seg@.skip(0) == seg@);
    assert(d == unsigned_digits(seg@));
    if start == n {
        return None;
    }
    let mut v: usize = 0;
    let mut i: usize = start;
    while i < n
        invariant
            start <= i <= n,
            n == seg@.len(),
            d == seg@.skip(start as int),
            d == unsigned_digits(seg@),
            forall|k: int| 0 <= k < i - start ==> is_digit(#[trigger] d[k]),
            v as int == digits_value(d.take(i - start)),
        decreases n - i,
    {
        let c = seg[i];
        assert(d[i - start] == c);
        if !('0' <= c && c <= '9') {
            assert(!is_digit(d[i - start]));
            assert(!all_digits(d));
            return None;
        }
        let digit: usize = (c as u32 - '0' as u32) as usize;
        assert(d.take(i - start + 1).drop_last() == d.take(i - start));
        assert(d.take(i - start + 1).last() == c);
        if v > (usize::MAX - digit) / 10 {
            proof {
                // every longer run only grows
                lemma_digits_value_grows(d, i - start + 1);
                assert(digits_value(d.take(i - start + 1)) == v * 10 + digit) by (nonlinear_arith)
                    requires
                        digits_value(d.take(i - start + 1)) == digits_value(d.take(i - start)) * 10
                            + digit,
                        v as int == digits_value(d.take(i - start)),
                ;
                assert(v * 10 + digit > usize::MAX) by (nonlinear_arith)
                    requires
                        v > (usize::MAX - digit) / 10,
                        digit <= 9,
                ;
                if all_digits(d) {
                    assert(digits_value(d) > usize::MAX);
                }
            }
            return None;
        }
        proof {
            assert(v * 10 + digit <= usize::MAX) by (nonlinear_arith)
                requires
                    v <= (usize::MAX - digit) / 10,
                    digit <= 9,
            ;
        }
        v = v * 10 + digit;
        i = i + 1;
    }
    assert(d.take(n - start) == d);
    assert(all_digits(d));
    Some(v)
}

/// Longer digit runs have values at least as large.
proof fn lemma_digits_value_grows(d: Seq<char>, k: int)
    requires
        0 <= k <= d.len(),
        forall|i: int| 0 <= i < k ==> is_digit(#[trigger] d[i]),
    ensures
        (forall|i: int| 0 <= i < d.len() ==> is_digit(#[trigger] d[i])) ==> digits_value(d.take(k))
            <= digits_value(d),
    decreases d.len() - k,
{
    if forall|i: int| 0 <= i < d.len() ==> is_digit(#[trigger] d[i]) {
        if k < d.len() {
            lemma_digits_value_grows(d, k + 1);
            let t = d.take(k + 1);
            assert(t.drop_last() == d.take(k));
            assert(is_digit(t.last()));
            assert forall|i: int| 0 <= i < k implies is_digit(#[trigger] d.take(k)[i]) by {}
            lemma_digits_value_nonneg(d.take(k));
        } else {
            assert(d.take(k) == d);
        }
    }
}

/// Appends the decimal notation of `n`.
pub(crate) fn push_decimal(out: &mut String, n: usize)
    ensures
        final(out)@ == old(out)@ + decimal(n as nat),
    decreases n,
{
    if n < 10 {
        push_char(out, digit_of(n));
    } else {
        push_decimal(out, n / 10);
        push_char(out, digit_of(n % 10));
        assert(decimal(n as nat) == decimal((n / 10) as nat).push(digit_char(n as int % 10)));
    }
}

fn digit_of(n: usize) -> (c: char)
    requires
        n < 10,
    ensures
        c == digit_char(n as int),
{
    let d: u8 = n as u8;
    ('0' as u8 + d) as char
}

/// Prettify a path segment: a numeric index becomes 1-based (`0` → `1`), otherwise
/// it's split on `_`/`-` and title-cased (`site_title` → `Site Title`).
fn pretty_segment(seg: &[char]) -> (r: String)
    requires
        index_fits(seg@),
    ensures
        r@ == pretty_spec(seg@),
{
    if let Some(n) = parse_index(seg) {
        let mut out = String::new();
        push_decimal(&mut out, n + 1);
        return out;
    }
    let spans = piece_spans(seg, 1);
    let ghost words = pieces(seg@, 1, 0).map_values(|w: Seq<char>| capitalize(w));
    let mut out = String::new();
    let mut k: usize = 0;
    while k < spans.len()
        invariant
            0 <= k <= spans@.len(),
            spans@.len() == pieces(seg@, 1, 0).len(),
            words == pieces(seg@, 1, 0).map_values(|w: Seq<char>| capitalize(w)),
            forall|i: int|
                0 <= i < spans@.len() ==> {
                    let sp = #[trigger] spans@[i];
                    &&& sp.0 <= sp.1 <= seg@.len()
                    &&& seg@.subrange(sp.0 as int, sp.1 as int) == pieces(seg@, 1, 0)[i]
                },
            out@ == join(words.take(k as int), seq![' ']),
        decreases spans.len() - k,
    {
        proof {
            lemma_join_take(words, seq![' '], k as int);
        }
        if k > 0 {
            push_char(&mut out, ' ');
        }
        let sp = spans[k];
        assert(spans@[k as int] == sp);
        // pieces are never empty
        proof {
            lemma_pieces_nonempty(seg@, 1, 0);
        }
        let first = to_uppercase(seg[sp.0]);
        push_all(&mut out, &crate::text::chars_of(first.as_str()));
        push_range(&mut out, seg, sp.0 + 1, sp.1);
        proof {
            let w = seg@.subrange(sp.0 as int, sp.1 as int);
            assert(w[0] == seg@[sp.0 as int]);
            assert(w.skip(1) == seg@.subrange(sp.0 + 1, sp.1 as int));
            assert(words[k as int] == capitalize(w));
        }
        k = k + 1;
    }
    assert(words.take(words.len() as int) == words);
    out
}

/// Every piece is non-empty.
pub proof fn lemma_pieces_nonempty(s: Seq<char>, kind: int, cur: int)
    ensures
        forall|i: int|
            0 <= i < pieces(s, kind, cur).len() ==> #[trigger] pieces(s, kind, cur)[i].len() > 0,
    decreases s.len() + 1 - cur,
{
    if 0 <= cur <= s.len() {
        lemma_next_sep(s, kind, cur);
        match next_sep(s, kind, cur) {
            None => {},
            Some(i) => {
                lemma_pieces_nonempty(s, kind, i + 1);
                let a = keep_nonempty(s.subrange(cur, i));
                let all = pieces(s, kind, cur);
                assert forall|j: int| 0 <= j < all.len() implies #[trigger] all[j].len() > 0 by {
                    if j >= a.len() {
                        assert(all[j] == pieces(s, kind, i + 1)[j - a.len()]);
                    }
                }
            },
        }
    }
}


// ───────────────────────── the tree ─────────────────────────

/// One node of the field tree: its label, the tokens that end at it, and its
/// children in the order they were first reached.
pub struct NodeSpec {
    pub label: Seq<char>,
    pub tokens: Seq<Seq<char>>,
    pub children: Seq<NodeSpec>,
}

pub open spec fn new_node(label: Seq<char>) -> NodeSpec {
    NodeSpec { label, tokens: Seq::empty(), children: Seq::empty() }
}

/// Index of the first child labelled `label` at or after `k`, else the number of children.
pub open spec fn child_pos_from(cs: Seq<NodeSpec>, label: Seq<char>, k: int) -> int
    decreases cs.len() - k,
{
    if k < 0 || k >= cs.len() {
        cs.len() as int
    } else if cs[k].label == label {
        k
    } else {
        child_pos_from(cs, label, k + 1)
    }
}

pub open spec fn child_pos(cs: Seq<NodeSpec>, label: Seq<char>) -> int {
    child_pos_from(cs, label, 0)
}

/// The tree with `token` added at the node reached by following `labels`,
/// creating the nodes that are missing.
pub open spec fn tree_insert(node: NodeSpec, labels: Seq<Seq<char>>, token: Seq<char>) -> NodeSpec
    decreases labels.len(),
{
    if labels.len() == 0 {
        NodeSpec { label: node.label, tokens: node.tokens.push(token), children: node.children }
    } else {
        let i = child_pos(node.children, labels[0]);
        let child = if 0 <= i < node.children.len() {
            node.children[i]
        } else {
            new_node(labels[0])
        };
        let grown = tree_insert(child, labels.drop_first(), token);
        NodeSpec {
            label: node.label,
            tokens: node.tokens,
            children: if 0 <= i < node.children.len() {
                node.children.update(i, grown)
            } else {
                node.children.push(grown)
            },
        }
    }
}

/// One row of the indented field tree, as the contracts see it.
pub struct GroupSpec {
    pub depth: int,
    pub label: Seq<char>,
    pub tokens: Seq<Seq<char>>,
}

/// The rows of a forest in pre-order, roots at `depth`.
pub open spec fn flatten_spec(cs: Seq<NodeSpec>, depth: int) -> Seq<GroupSpec>
    decreases cs,
{
    if cs.len() == 0 {
        Seq::empty()
    } else {
        flatten_spec(cs.drop_last(), depth) + seq![
            GroupSpec { depth, label: cs.last().label, tokens: cs.last().tokens },
        ] + flatten_spec(cs.last().children, depth + 1)
    }
}

/// Every node of the forest lies fewer than `b` levels below its roots.
pub open spec fn within_depth(cs: Seq<NodeSpec>, b: int) -> bool
    decreases cs,
{
    if cs.len() == 0 {
        true
    } else {
        b > 0 && within_depth(cs.drop_last(), b) && within_depth(cs.last().children, b - 1)
    }
}

pub proof fn lemma_within_depth(cs: Seq<NodeSpec>, b: int)
    ensures
        within_depth(cs, b) == (cs.len() == 0 || (b > 0 && forall|i: int|
            0 <= i < cs.len() ==> within_depth(#[trigger] cs[i].children, b - 1))),
    decreases cs.len(),
{
    if cs.len() > 0 {
        lemma_within_depth(cs.drop_last(), b);
        if b > 0 && forall|i: int| 0 <= i < cs.len() ==> within_depth(#[trigger] cs[i].children, b - 1) {
            assert forall|i: int| 0 <= i < cs.drop_last().len() implies within_depth(
                #[trigger] cs.drop_last()[i].children,
                b - 1,
            ) by {
                assert(cs.drop_last()[i] == cs[i]);
            }
            assert(within_depth(cs.last().children, b - 1));
        }
        if within_depth(cs, b) {
            assert forall|i: int| 0 <= i < cs.len() implies within_depth(
                #[trigger] cs[i].children,
                b - 1,
            ) by {
                if i < cs.len() - 1 {
                    assert(cs[i] == cs.drop_last()[i]);
                }
            }
        }
    }
}

pub proof fn lemma_child_pos_from(cs: Seq<NodeSpec>, label: Seq<char>, k: int)
    requires
        0 <= k,
    ensures
        k <= child_pos_from(cs, label, k) || child_pos_from(cs, label, k) == cs.len(),
        child_pos_from(cs, label, k) <= cs.len(),
        child_pos_from(cs, label, k) < cs.len() ==> cs[child_pos_from(cs, label, k)].label
            == label,
        forall|j: int| k <= j < child_pos_from(cs, label, k) ==> cs[j].label != label,
    decreases cs.len() - k,
{
    if k < cs.len() && cs[k].label != label {
        lemma_child_pos_from(cs, label, k + 1);
    }
}

/// Insertion keeps the tree within a depth bound that the path fits.
pub proof fn lemma_insert_within_depth(
    node: NodeSpec,
    labels: Seq<Seq<char>>,
    token: Seq<char>,
    b: int,
)
    requires
        within_depth(node.children, b),
        labels.len() <= b,
    ensures
        within_depth(tree_insert(node, labels, token).children, b),
    decreases labels.len(),
{
    if labels.len() > 0 {
        let i = child_pos(node.children, labels[0]);
        lemma_child_pos_from(node.children, labels[0], 0);
        lemma_within_depth(node.children, b);
        let child = if 0 <= i < node.children.len() {
            node.children[i]
        } else {
            new_node(labels[0])
        };
        assert(within_depth(child.children, b - 1));
        lemma_insert_within_depth(child, labels.drop_first(), token, b - 1);
        let grown = tree_insert(child, labels.drop_first(), token);
        let cs = tree_insert(node, labels, token).children;
        lemma_within_depth(cs, b);
        assert forall|j: int| 0 <= j < cs.len() implies within_depth(#[trigger] cs[j].children, b - 1) by {
            if j == i || j == node.children.len() {
            } else {
                assert(cs[j] == node.children[j]);
            }
        }
    }
}

/// Labels of a trimmed, non-empty path: its non-empty `.`-separated segments, prettified.
pub open spec fn path_labels(t: Seq<char>) -> Seq<Seq<char>> {
    pieces(t, 0, 0).map_values(|seg: Seq<char>| pretty_spec(seg))
}

/// A field's path, trimmed, when it holds anything.
pub open spec fn used_path(p: Option<Seq<char>>) -> Option<Seq<char>> {
    match p {
        Some(x) => if trim(x).len() > 0 {
            Some(trim(x))
        } else {
            None
        },
        None => None,
    }
}

/// The tree and the pathless tokens after the given parts.
pub open spec fn group_state(parts: Seq<PartSpec>) -> (NodeSpec, Seq<Seq<char>>)
    decreases parts.len(),
{
    if parts.len() == 0 {
        (new_node(Seq::empty()), Seq::empty())
    } else {
        let (root, pathless) = group_state(parts.drop_last());
        match parts.last() {
            PartSpec::Field { name, path } => match used_path(path) {
                Some(t) => (tree_insert(root, path_labels(t), name), pathless),
                None => (root, pathless.push(name)),
            },
            _ => (root, pathless),
        }
    }
}

/// The indented field tree: the path tree in pre-order, then one unlabelled row
/// at depth 0 with the pathless tokens when there are any.
pub open spec fn group_fields_spec(parts: Seq<PartSpec>) -> Seq<GroupSpec> {
    let (root, pathless) = group_state(parts);
    flatten_spec(root.children, 0) + if pathless.len() > 0 {
        seq![GroupSpec { depth: 0, label: Seq::empty(), tokens: pathless }]
    } else {
        Seq::empty()
    }
}

/// No segment of any field path is an index whose successor overflows.
pub open spec fn fields_fit(parts: Seq<PartSpec>) -> bool {
    forall|k: int|
        0 <= k < parts.len() ==> match #[trigger] parts[k] {
            PartSpec::Field { name, path } => match used_path(path) {
                Some(t) => forall|j: int|
                    0 <= j < pieces(t, 0, 0).len() ==> index_fits(#[trigger] pieces(t, 0, 0)[j]),
                None => true,
            },
            _ => true,
        }
}

// ───────────────────────── executable tree ─────────────────────────

/// One row of the indented field tree, in pre-order. `tokens` are the chips that
/// terminate at this node (a link maps both its url and label token here).
#[derive(Clone, PartialEq, Debug, Default)]
pub struct FieldGroup {
    pub depth: usize,
    pub label: String,
    pub tokens: Vec<String>,
}

impl View for FieldGroup {
    type V = GroupSpec;

    open spec fn view(&self) -> GroupSpec {
        GroupSpec {
            depth: self.depth as int,
            label: self.label@,
            tokens: self.tokens@.map_values(|t: String| t@),
        }
    }
}

struct PathNode {
    label: String,
    tokens: Vec<String>,
    children: Vec<PathNode>,
}

spec fn node_view(n: PathNode) -> NodeSpec
    decreases n,
{
    NodeSpec {
        label: n.label@,
        tokens: n.tokens@.map_values(|t: String| t@),
        children: Seq::new(
            n.children@.len(),
            |i: int|
                if 0 <= i < n.children@.len() {
                    node_view(n.children@[i])
                } else {
                    new_node(Seq::empty())
                },
        ),
    }
}

proof fn lemma_node_view(n: PathNode)
    ensures
        node_view(n).children.len() == n.children@.len(),
        forall|i: int|
            0 <= i < n.children@.len() ==> #[trigger] node_view(n).children[i] == node_view(
                n.children@[i],
            ),
{
}

/// Copies of a list of strings.
fn clone_strings(v: &Vec<String>) -> (r: Vec<String>)
    ensures
        r@.map_values(|t: String| t@) == v@.map_values(|t: String| t@),
{
    let mut r: Vec<String> = Vec::new();
    let mut k: usize = 0;
    while k < v.len()
        invariant
            0 <= k <= v@.len(),
            r@.map_values(|t: String| t@) == v@.take(k as int).map_values(|t: String| t@),
        decreases v.len() - k,
    {
        let ghost before = r@;
        r.push(v[k].clone());
        proof {
            assert(r@.map_values(|t: String| t@) == before.map_values(|t: String| t@).push(
                v@[k as int]@,
            ));
            assert(v@.take(k + 1).map_values(|t: String| t@) == v@.take(k as int).map_values(
                |t: String| t@,
            ).push(v@[k as int]@));
        }
        k = k + 1;
    }
    assert(v@.take(v@.len() as int) == v@);
    r
}

impl PathNode {
    fn new(label: String) -> (r: PathNode)
        ensures
            node_view(r) == new_node(label@),
    {
        let r = PathNode { label, tokens: Vec::new(), children: Vec::new() };
        assert(node_view(r).tokens == Seq::<Seq<char>>::empty());
        assert(node_view(r).children == Seq::<NodeSpec>::empty());
        r
    }

    /// Position of the child labelled `label`, appended when there is none.
    fn child_index(&mut self, label: &String) -> (i: usize)
        ensures
            ({
                let ov = node_view(*old(self));
                let p = child_pos(ov.children, label@);
                &&& p < ov.children.len() ==> node_view(*final(self)) == ov && i == p
                &&& p == ov.children.len() ==> node_view(*final(self)) == (NodeSpec {
                    label: ov.label,
                    tokens: ov.tokens,
                    children: ov.children.push(new_node(label@)),
                }) && i == p
            }),
            i < final(self).children@.len(),
    {
        let ghost ov = node_view(*self);
        proof {
            lemma_node_view(*self);
            lemma_child_pos_from(ov.children, label@, 0);
        }
        let mut k: usize = 0;
        while k < self.children.len()
            invariant
                0 <= k <= self.children@.len(),
                ov == node_view(*self),
                ov.children.len() == self.children@.len(),
                forall|i: int|
                    0 <= i < self.children@.len() ==> #[trigger] ov.children[i] == node_view(
                        self.children@[i],
                    ),
                child_pos(ov.children, label@) == child_pos_from(ov.children, label@, k as int),
            decreases self.children.len() - k,
        {
            if self.children[k].label == *label {
                assert(ov.children[k as int].label == label@);
                return k;
            }
            k = k + 1;
        }
        let ghost before = *self;
        self.children.push(PathNode::new(label.clone()));
        proof {
            lemma_node_view(*self);
            let nv = node_view(*self);
            assert(nv.children == ov.children.push(new_node(label@)));
        }
        self.children.len() - 1
    }
}

/// `node` with `token` added at the end of the path `labels[k..]`.
fn insert_path(node: PathNode, labels: &Vec<String>, k: usize, token: String) -> (r: PathNode)
    requires
        k <= labels@.len(),
    ensures
        node_view(r) == tree_insert(
            node_view(node),
            labels@.map_values(|l: String| l@).skip(k as int),
            token@,
        ),
    decreases labels@.len() - k,
{
    let ghost ls = labels@.map_values(|l: String| l@).skip(k as int);
    let mut node = node;
    let ghost ov = node_view(node);
    proof {
        lemma_node_view(node);
    }
    if k == labels.len() {
        let ghost t0 = node.tokens@;
        node.tokens.push(token);
        proof {
            assert(node.tokens@.map_values(|t: String| t@) == t0.map_values(|t: String| t@).push(
                token@,
            ));
            lemma_node_view(node);
            assert(node_view(node).children == ov.children);
        }
        return node;
    }
    assert(ls[0] == labels@[k as int]@);
    assert(ls.drop_first() == labels@.map_values(|l: String| l@).skip(k + 1));
    proof {
        lemma_child_pos_from(ov.children, labels@[k as int]@, 0);
    }
    let i = node.child_index(&labels[k]);
    let ghost mid = node_view(node);
    let ghost mid_node = node;
    proof {
        lemma_node_view(node);
        assert(mid.tokens == ov.tokens);
        assert(mid.label == ov.label);
    }
    let child = node.children.remove(i);
    let ghost token_v = token@;
    let grown = insert_path(child, labels, k + 1, token);
    node.children.insert(i, grown);
    proof {
        lemma_node_view(node);
        let nv = node_view(node);
        assert(node.tokens == mid_node.tokens);
        assert(node.label == mid_node.label);
        assert(nv.tokens == mid.tokens);
        assert(nv.children == mid.children.update(i as int, node_view(grown)));
        let p = child_pos(ov.children, ls[0]);
        assert(node_view(child) == mid.children[i as int]);
        if p < ov.children.len() {
            assert(node_view(child) == ov.children[p]);
        } else {
            assert(node_view(child) == new_node(ls[0]));
            assert(mid.children.update(i as int, node_view(grown)) == ov.children.push(
                node_view(grown),
            ));
        }
        assert(node_view(grown) == tree_insert(node_view(child), ls.drop_first(), token@));
        assert(nv == tree_insert(ov, ls, token@));
    }
    node
}

impl PathNode {
    /// Appends the rows of this node's children in pre-order, children at `depth`.
    fn flatten(&self, depth: usize, out: &mut Vec<FieldGroup>)
        requires
            within_depth(node_view(*self).children, usize::MAX - depth + 1),
        ensures
            final(out)@.map_values(|g: FieldGroup| g@) == old(out)@.map_values(|g: FieldGroup| g@)
                + flatten_spec(node_view(*self).children, depth as int),
        decreases *self,
    {
        let ghost cs = node_view(*self).children;
        let ghost b = usize::MAX - depth + 1;
        proof {
            lemma_node_view(*self);
            lemma_within_depth(cs, b);
        }
        let mut k: usize = 0;
        while k < self.children.len()
            invariant
                0 <= k <= self.children@.len(),
                cs == node_view(*self).children,
                cs.len() == self.children@.len(),
                b == usize::MAX - depth + 1,
                forall|i: int|
                    0 <= i < self.children@.len() ==> #[trigger] cs[i] == node_view(
                        self.children@[i],
                    ),
                cs.len() > 0 ==> b > 0,
                forall|i: int| 0 <= i < cs.len() ==> within_depth(#[trigger] cs[i].children, b - 1),
                out@.map_values(|g: FieldGroup| g@) == old(out)@.map_values(|g: FieldGroup| g@)
                    + flatten_spec(cs.take(k as int), depth as int),
            decreases self.children.len() - k,
        {
            let c = &self.children[k];
            let ghost before = out@;
            let g = FieldGroup { depth, label: c.label.clone(), tokens: clone_strings(&c.tokens) };
            out.push(g);
            proof {
                lemma_node_view(*c);
                assert(out@.map_values(|g: FieldGroup| g@) == before.map_values(|g: FieldGroup| g@).push(g@));
                assert(cs[k as int] == node_view(*c));
            }
            let ghost mid = out@;
            if c.children.len() > 0 {
                proof {
                    lemma_within_depth(node_view(*c).children, b - 1);
                }
                c.flatten(depth + 1, out);
            } else {
                assert(node_view(*c).children.len() == 0);
                assert(flatten_spec(node_view(*c).children, depth + 1) == Seq::<GroupSpec>::empty());
            }
            proof {
                let t = cs.take(k + 1);
                assert(t.drop_last() == cs.take(k as int));
                assert(t.last() == cs[k as int]);
                assert(g@ == GroupSpec { depth: depth as int, label: cs[k as int].label, tokens: cs[k as int].tokens });
                assert(flatten_spec(t, depth as int) == flatten_spec(cs.take(k as int), depth as int) + seq![g@] + flatten_spec(cs[k as int].children, depth + 1));
                assert(out@.map_values(|g: FieldGroup| g@) == mid.map_values(|g: FieldGroup| g@) + flatten_spec(cs[k as int].children, depth + 1));
            }
            k = k + 1;
        }
        assert(cs.take(cs.len() as int) == cs);
    }
}

/// The labels of a path: its non-empty `.`-separated segments, prettified.
fn labels_of(t: &[char]) -> (r: Vec<String>)
    requires
        forall|j: int| 0 <= j < pieces(t@, 0, 0).len() ==> index_fits(#[trigger] pieces(t@, 0, 0)[j]),
    ensures
        r@.map_values(|l: String| l@) == path_labels(t@),
{
    let spans = piece_spans(t, 0);
    let mut out: Vec<String> = Vec::new();
    let mut k: usize = 0;
    while k < spans.len()
        invariant
            0 <= k <= spans@.len(),
            spans@.len() == pieces(t@, 0, 0).len(),
            forall|j: int| 0 <= j < pieces(t@, 0, 0).len() ==> index_fits(#[trigger] pieces(t@, 0, 0)[j]),
            forall|i: int|
                0 <= i < spans@.len() ==> {
                    let sp = #[trigger] spans@[i];
                    &&& sp.0 <= sp.1 <= t@.len()
                    &&& t@.subrange(sp.0 as int, sp.1 as int) == pieces(t@, 0, 0)[i]
                },
            out@.map_values(|l: String| l@) == path_labels(t@).take(k as int),
        decreases spans.len() - k,
    {
        let ghost before = out@;
        let sp = spans[k];
        assert(spans@[k as int] == sp);
        assert(index_fits(pieces(t@, 0, 0)[k as int]));
        let label = pretty_segment(&t[sp.0..sp.1]);
        out.push(label);
        proof {
            assert(out@.map_values(|l: String| l@) == before.map_values(|l: String| l@).push(
                label@,
            ));
            assert(path_labels(t@).take(k + 1) == path_labels(t@).take(k as int).push(
                path_labels(t@)[k as int],
            ));
        }
        k = k + 1;
    }
    assert(path_labels(t@).take(spans@.len() as int) == path_labels(t@));
    out
}

/// Group `Field` parts into an indented tree by `data-field-path`. Fields with no
/// path collapse into one unlabelled bucket at the end (header chrome tokens, etc.).
pub fn group_fields(parts: &[Part]) -> (r: Vec<FieldGroup>)
    requires
        fields_fit(parts@.map_values(|p: Part| p@)),
    ensures
        r@.map_values(|g: FieldGroup| g@) == group_fields_spec(parts@.map_values(|p: Part| p@)),
{
    let ghost ps = parts@.map_values(|p: Part| p@);
    let mut root = PathNode::new(String::new());
    let mut pathless: Vec<String> = Vec::new();
    let mut k: usize = 0;
    while k < parts.len()
        invariant
            0 <= k <= parts@.len(),
            ps == parts@.map_values(|p: Part| p@),
            fields_fit(ps),
            group_state(ps.take(k as int)) == (node_view(root), pathless@.map_values(
                |t: String| t@,
            )),
            within_depth(node_view(root).children, usize::MAX + 1),
        decreases parts.len() - k,
    {
        proof {
            assert(ps.take(k + 1).drop_last() == ps.take(k as int));
            assert(ps.take(k + 1).last() == ps[k as int]);
            assert(ps[k as int] == parts@[k as int]@);
        }
        match &parts[k] {
            Part::Field { name, path } => {
                let mut placed = false;
                if let Some(p) = path {
                    let pc = crate::text::chars_of(p.as_str());
                    let (a, b) = trim_bounds(&pc, 0, pc.len());
                    assert(pc@.subrange(0, pc@.len() as int) == pc@);
                    if a < b {
                        let t = &pc[a..b];
                        proof {
                            assert(used_path(Some(p@)) == Some(t@));
                            assert(match ps[k as int] {
                                PartSpec::Field { name, path } => match used_path(path) {
                                    Some(t) => forall|j: int|
                                        0 <= j < pieces(t, 0, 0).len() ==> index_fits(
                                            #[trigger] pieces(t, 0, 0)[j],
                                        ),
                                    None => true,
                                },
                                _ => true,
                            });
                        }
                        let labels = labels_of(t);
                        let nl = labels.len();
                        proof {
                            assert(labels@.map_values(|l: String| l@).skip(0) == labels@.map_values(
                                |l: String| l@,
                            ));
                            lemma_insert_within_depth(
                                node_view(root),
                                path_labels(t@),
                                name@,
                                usize::MAX + 1,
                            );
                        }
                        root = insert_path(root, &labels, 0, name.clone());
                        placed = true;
                    }
                }
                if !placed {
                    let ghost before = pathless@;
                    pathless.push(name.clone());
                    proof {
                        assert(pathless@.map_values(|t: String| t@) == before.map_values(
                            |t: String| t@,
                        ).push(name@));
                    }
                }
            },
            _ => {},
        }
        k = k + 1;
    }
    assert(ps.take(parts@.len() as int) == ps);
    let mut out: Vec<FieldGroup> = Vec::new();
    root.flatten(0, &mut out);
    if pathless.len() > 0 {
        let ghost before = out@;
        let g = FieldGroup { depth: 0, label: String::new(), tokens: pathless };
        out.push(g);
        assert(out@.map_values(|g: FieldGroup| g@) == before.map_values(|g: FieldGroup| g@).push(
            g@,
        ));
    }
    out
}

} // verus!
