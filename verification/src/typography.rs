//! Typography panel logic: per-element style overrides, the inline style of a
//! preview sample, and the display name of a font stack.
use crate::text::{
    chars_of, chars_eq, find_char_from, lemma_find_char_from, find_char, push_all, push_range, trim,
    trim_bounds, vec_of_range,
};
use vstd::prelude::*;

verus! {

// ───────────────────────── element overrides ─────────────────────────

/// A style override for one element selector (`h1`, `p`, …). Empty values
/// leave the theme's default in place.
#[derive(Clone, Debug, PartialEq)]
pub struct ElementStyle {
    pub selector: String,
    pub font_size: String,
    pub font_weight: String,
    pub line_height: String,
    pub letter_spacing: String,
    pub color: String,
    pub background: String,
    pub padding: String,
    pub border_radius: String,
    pub text_align: String,
    pub italic: bool,
}

/// The values of an `ElementStyle`.
pub struct StyleSpec {
    pub selector: Seq<char>,
    pub font_size: Seq<char>,
    pub font_weight: Seq<char>,
    pub line_height: Seq<char>,
    pub letter_spacing: Seq<char>,
    pub color: Seq<char>,
    pub background: Seq<char>,
    pub padding: Seq<char>,
    pub border_radius: Seq<char>,
    pub text_align: Seq<char>,
    pub italic: bool,
}

impl View for ElementStyle {
    type V = StyleSpec;

    open spec fn view(&self) -> StyleSpec {
        StyleSpec {
            selector: self.selector@,
            font_size: self.font_size@,
            font_weight: self.font_weight@,
            line_height: self.line_height@,
            letter_spacing: self.letter_spacing@,
            color: self.color@,
            background: self.background@,
            padding: self.padding@,
            border_radius: self.border_radius@,
            text_align: self.text_align@,
            italic: self.italic,
        }
    }
}

/// One change made in the panel: a property set to a value, or italic toggled.
#[derive(Clone, Debug, PartialEq)]
pub enum StyleEdit {
    FontSize(String),
    FontWeight(String),
    LineHeight(String),
    LetterSpacing(String),
    Color(String),
    Background(String),
    Padding(String),
    BorderRadius(String),
    TextAlign(String),
    Italic(bool),
}

/// An override with nothing set, for `selector`.
pub open spec fn blank_style(selector: Seq<char>) -> StyleSpec {
    StyleSpec {
        selector,
        font_size: Seq::empty(),
        font_weight: Seq::empty(),
        line_height: Seq::empty(),
        letter_spacing: Seq::empty(),
        color: Seq::empty(),
        background: Seq::empty(),
        padding: Seq::empty(),
        border_radius: Seq::empty(),
        text_align: Seq::empty(),
        italic: false,
    }
}

/// The override after an edit.
pub open spec fn edited(e: StyleSpec, edit: StyleEdit) -> StyleSpec {
    match edit {
        StyleEdit::FontSize(v) => StyleSpec { font_size: v@, ..e },
        StyleEdit::FontWeight(v) => StyleSpec { font_weight: v@, ..e },
        StyleEdit::LineHeight(v) => StyleSpec { line_height: v@, ..e },
        StyleEdit::LetterSpacing(v) => StyleSpec { letter_spacing: v@, ..e },
        StyleEdit::Color(v) => StyleSpec { color: v@, ..e },
        StyleEdit::Background(v) => StyleSpec { background: v@, ..e },
        StyleEdit::Padding(v) => StyleSpec { padding: v@, ..e },
        StyleEdit::BorderRadius(v) => StyleSpec { border_radius: v@, ..e },
        StyleEdit::TextAlign(v) => StyleSpec { text_align: v@, ..e },
        StyleEdit::Italic(b) => StyleSpec { italic: b, ..e },
    }
}

/// An override that sets nothing: every value blank and not italic.
pub open spec fn all_default(e: StyleSpec) -> bool {
    &&& trim(e.font_size).len() == 0
    &&& trim(e.font_weight).len() == 0
    &&& trim(e.line_height).len() == 0
    &&& trim(e.letter_spacing).len() == 0
    &&& trim(e.color).len() == 0
    &&& trim(e.background).len() == 0
    &&& trim(e.padding).len() == 0
    &&& trim(e.border_radius).len() == 0
    &&& trim(e.text_align).len() == 0
    &&& !e.italic
}

/// Index of the first override for `selector`.
pub open spec fn first_for(v: Seq<StyleSpec>, selector: Seq<char>, i: int) -> Option<int>
    decreases v.len() - i,
{
    if i < 0 || i >= v.len() {
        None
    } else if v[i].selector == selector {
        Some(i)
    } else {
        first_for(v, selector, i + 1)
    }
}

pub proof fn lemma_first_for(v: Seq<StyleSpec>, selector: Seq<char>, i: int)
    requires
        0 <= i,
    ensures
        first_for(v, selector, i) matches Some(k) ==> i <= k < v.len() && v[k].selector == selector
            && forall|j: int| i <= j < k ==> v[j].selector != selector,
        first_for(v, selector, i) is None ==> forall|j: int|
            i <= j < v.len() ==> v[j].selector != selector,
    decreases v.len() - i,
{
    if i < v.len() && v[i].selector != selector {
        lemma_first_for(v, selector, i + 1);
    }
}

/// The overrides after editing `selector`'s: its first override (or a blank
/// one) takes the edit; an override left all-default is dropped, else it is
/// stored in place (or appended when new).
pub open spec fn updated_styles(v: Seq<StyleSpec>, selector: Seq<char>, edit: StyleEdit) -> Seq<StyleSpec> {
    match first_for(v, selector, 0) {
        Some(i) => {
            let e = edited(v[i], edit);
            if all_default(e) {
                v.remove(i)
            } else {
                v.update(i, e)
            }
        },
        None => {
            let e = edited(blank_style(selector), edit);
            if all_default(e) {
                v
            } else {
                v.push(e)
            }
        },
    }
}

fn blank(s: &String) -> (r: bool)
    ensures
        r == (trim(s@).len() == 0),
{
    let c = chars_of(s.as_str());
    let n = c.len();
    let (a, b) = trim_bounds(&c, 0, n);
    assert(c@.subrange(0, n as int) == c@);
    a == b
}

/// Whether an override sets nothing.
pub fn is_default_style(e: &ElementStyle) -> (r: bool)
    ensures
        r == all_default(e@),
{
    blank(&e.font_size) && blank(&e.font_weight) && blank(&e.line_height) && blank(
        &e.letter_spacing,
    ) && blank(&e.color) && blank(&e.background) && blank(&e.padding) && blank(
        &e.border_radius,
    ) && blank(&e.text_align) && !e.italic
}

fn copy_style(e: &ElementStyle) -> (r: ElementStyle)
    ensures
        r@ == e@,
{
    ElementStyle {
        selector: e.selector.clone(),
        font_size: e.font_size.clone(),
        font_weight: e.font_weight.clone(),
        line_height: e.line_height.clone(),
        letter_spacing: e.letter_spacing.clone(),
        color: e.color.clone(),
        background: e.background.clone(),
        padding: e.padding.clone(),
        border_radius: e.border_radius.clone(),
        text_align: e.text_align.clone(),
        italic: e.italic,
    }
}

fn apply_edit(e: &mut ElementStyle, edit: StyleEdit)
    ensures
        final(e)@ == edited(old(e)@, edit),
{
    match edit {
        StyleEdit::FontSize(v) => e.font_size = v,
        StyleEdit::FontWeight(v) => e.font_weight = v,
        StyleEdit::LineHeight(v) => e.line_height = v,
        StyleEdit::LetterSpacing(v) => e.letter_spacing = v,
        StyleEdit::Color(v) => e.color = v,
        StyleEdit::Background(v) => e.background = v,
        StyleEdit::Padding(v) => e.padding = v,
        StyleEdit::BorderRadius(v) => e.border_radius = v,
        StyleEdit::TextAlign(v) => e.text_align = v,
        StyleEdit::Italic(b) => e.italic = b,
    }
}

/// Index of the first override for `selector`.
fn position_of(elements: &Vec<ElementStyle>, selector: &str) -> (r: Option<usize>)
    ensures
        r matches Some(i) ==> first_for(
            elements@.map_values(|e: ElementStyle| e@),
            selector@,
            0,
        ) == Some(i as int),
        r is None ==> first_for(elements@.map_values(|e: ElementStyle| e@), selector@, 0) is None,
{
    let ghost v = elements@.map_values(|e: ElementStyle| e@);
    let sel = chars_of(selector);
    let mut i: usize = 0;
    while i < elements.len()
        invariant
            0 <= i <= elements@.len(),
            v == elements@.map_values(|e: ElementStyle| e@),
            sel@ == selector@,
            first_for(v, selector@, 0) == first_for(v, selector@, i as int),
        decreases elements.len() - i,
    {
        let c = chars_of(elements[i].selector.as_str());
        assert(v[i as int] == elements@[i as int]@);
        if chars_eq(&c, &sel) {
            return Some(i);
        }
        i = i + 1;
    }
    None
}

/// Finds or creates the override for `selector`, applies the edit, and drops
/// the override again if it ended up all-default (keeps saved configs clean).
pub fn update_element(elements: &mut Vec<ElementStyle>, selector: &str, edit: StyleEdit)
    ensures
        final(elements)@.map_values(|e: ElementStyle| e@) == updated_styles(
            old(elements)@.map_values(|e: ElementStyle| e@),
            selector@,
            edit,
        ),
{
    let ghost v = elements@.map_values(|e: ElementStyle| e@);
    let idx = position_of(elements, selector);
    proof {
        lemma_first_for(v, selector@, 0);
    }
    match idx {
        Some(i) => {
            let mut entry = copy_style(&elements[i]);
            assert(entry@ == v[i as int]);
            apply_edit(&mut entry, edit);
            if is_default_style(&entry) {
                let _ = elements.remove(i);
                assert(elements@.map_values(|e: ElementStyle| e@) == v.remove(i as int));
            } else {
                elements.set(i, entry);
                assert(elements@.map_values(|e: ElementStyle| e@) == v.update(i as int, entry@));
            }
        },
        None => {
            let mut entry = ElementStyle {
                selector: String::from_str(selector),
                font_size: String::new(),
                font_weight: String::new(),
                line_height: String::new(),
                letter_spacing: String::new(),
                color: String::new(),
                background: String::new(),
                padding: String::new(),
                border_radius: String::new(),
                text_align: String::new(),
                italic: false,
            };
            assert(entry@ == blank_style(selector@));
            apply_edit(&mut entry, edit);
            if !is_default_style(&entry) {
                elements.push(entry);
                assert(elements@.map_values(|e: ElementStyle| e@) == v.push(entry@));
            }
        },
    }
}

/// Edits never leave an all-default override behind: if none was stored
/// before, none is stored after.
pub proof fn law_update_keeps_overrides_clean(v: Seq<StyleSpec>, selector: Seq<char>, edit: StyleEdit)
    requires
        forall|k: int| 0 <= k < v.len() ==> !all_default(#[trigger] v[k]),
    ensures
        forall|k: int|
            0 <= k < updated_styles(v, selector, edit).len() ==> !all_default(
                #[trigger] updated_styles(v, selector, edit)[k],
            ),
{
    lemma_first_for(v, selector, 0);
    let r = updated_styles(v, selector, edit);
    match first_for(v, selector, 0) {
        Some(i) => {
            if all_default(edited(v[i], edit)) {
                assert forall|k: int| 0 <= k < r.len() implies !all_default(#[trigger] r[k]) by {
                    if k < i {
                        assert(r[k] == v[k]);
                    } else {
                        assert(r[k] == v[k + 1]);
                    }
                }
            }
        },
        None => {},
    }
}

/// After an edit that leaves something set, the selector's override is the
/// edited one.
pub proof fn law_update_then_lookup(v: Seq<StyleSpec>, selector: Seq<char>, edit: StyleEdit)
    ensures
        ({
            let before = match first_for(v, selector, 0) {
                Some(i) => v[i],
                None => blank_style(selector),
            };
            let after = edited(before, edit);
            let r = updated_styles(v, selector, edit);
            !all_default(after) ==> (first_for(r, selector, 0) matches Some(k) && r[k] == after)
        }),
{
    lemma_first_for(v, selector, 0);
    let r = updated_styles(v, selector, edit);
    lemma_first_for(r, selector, 0);
    match first_for(v, selector, 0) {
        Some(i) => {
            let after = edited(v[i], edit);
            if !all_default(after) {
                assert(r[i] == after);
                assert(after.selector == selector);
                if first_for(r, selector, 0) is None {
                    assert(false);
                }
                let k = first_for(r, selector, 0)->0;
                if k < i {
                    assert(r[k] == v[k]);
                }
                if k > i {
                    assert(false);
                }
            }
        },
        None => {
            let after = edited(blank_style(selector), edit);
            if !all_default(after) {
                assert(r == v.push(after));
                assert(r[v.len() as int] == after);
                assert(after.selector == selector);
                if first_for(r, selector, 0) is None {
                    assert(false);
                }
                let k = first_for(r, selector, 0)->0;
                if k < v.len() {
                    assert(r[k] == v[k]);
                }
            }
        },
    }
}

/// After an edit, where the selector still has an override, that override
/// reads the edited property as the edit's value and every other property
/// as the override held before (a blank one where there was none); where it
/// has none, the edit set nothing. Overrides are kept one per selector.
#[verifier::rlimit(40)]
pub proof fn law_edit_sets_its_property(v: Seq<StyleSpec>, selector: Seq<char>, edit: StyleEdit)
    requires
        forall|i: int, j: int|
            0 <= i < j < v.len() ==> (#[trigger] v[i]).selector != (#[trigger] v[j]).selector,
    ensures
        ({
            let b = match first_for(v, selector, 0) {
                Some(i) => v[i],
                None => blank_style(selector),
            };
            let r = updated_styles(v, selector, edit);
            match first_for(r, selector, 0) {
                Some(k) => {
                    let o = r[k];
                    &&& o.selector == selector
                    &&& (edit matches StyleEdit::FontSize(x) ==> o.font_size == x@)
                    &&& (edit matches StyleEdit::FontWeight(x) ==> o.font_weight == x@)
                    &&& (edit matches StyleEdit::LineHeight(x) ==> o.line_height == x@)
                    &&& (edit matches StyleEdit::LetterSpacing(x) ==> o.letter_spacing == x@)
                    &&& (edit matches StyleEdit::Color(x) ==> o.color == x@)
                    &&& (edit matches StyleEdit::Background(x) ==> o.background == x@)
                    &&& (edit matches StyleEdit::Padding(x) ==> o.padding == x@)
                    &&& (edit matches StyleEdit::BorderRadius(x) ==> o.border_radius == x@)
                    &&& (edit matches StyleEdit::TextAlign(x) ==> o.text_align == x@)
                    &&& (edit matches StyleEdit::Italic(x) ==> o.italic == x)
                    &&& (!(edit is FontSize) ==> o.font_size == b.font_size)
                    &&& (!(edit is FontWeight) ==> o.font_weight == b.font_weight)
                    &&& (!(edit is LineHeight) ==> o.line_height == b.line_height)
                    &&& (!(edit is LetterSpacing) ==> o.letter_spacing == b.letter_spacing)
                    &&& (!(edit is Color) ==> o.color == b.color)
                    &&& (!(edit is Background) ==> o.background == b.background)
                    &&& (!(edit is Padding) ==> o.padding == b.padding)
                    &&& (!(edit is BorderRadius) ==> o.border_radius == b.border_radius)
                    &&& (!(edit is TextAlign) ==> o.text_align == b.text_align)
                    &&& (!(edit is Italic) ==> o.italic == b.italic)
                },
                None => match edit {
                    StyleEdit::Italic(x) => !x,
                    StyleEdit::FontSize(x) => trim(x@).len() == 0,
                    StyleEdit::FontWeight(x) => trim(x@).len() == 0,
                    StyleEdit::LineHeight(x) => trim(x@).len() == 0,
                    StyleEdit::LetterSpacing(x) => trim(x@).len() == 0,
                    StyleEdit::Color(x) => trim(x@).len() == 0,
                    StyleEdit::Background(x) => trim(x@).len() == 0,
                    StyleEdit::Padding(x) => trim(x@).len() == 0,
                    StyleEdit::BorderRadius(x) => trim(x@).len() == 0,
                    StyleEdit::TextAlign(x) => trim(x@).len() == 0,
                },
            }
        }),
{
    lemma_first_for(v, selector, 0);
    law_update_then_lookup(v, selector, edit);
    let r = updated_styles(v, selector, edit);
    lemma_first_for(r, selector, 0);
    match first_for(v, selector, 0) {
        Some(i) => {
            let after = edited(v[i], edit);
            if all_default(after) {
                assert(r == v.remove(i));
                if first_for(r, selector, 0) is Some {
                    let k = first_for(r, selector, 0)->0;
                    if k < i {
                        assert(r[k] == v[k]);
                    } else {
                        assert(r[k] == v[k + 1]);
                        assert(v[i].selector != v[k + 1].selector);
                    }
                }
            }
        },
        None => {},
    }
}

/// Updates keep overrides one per selector.
pub proof fn law_update_keeps_selectors_distinct(v: Seq<StyleSpec>, selector: Seq<char>, edit: StyleEdit)
    requires
        forall|i: int, j: int|
            0 <= i < j < v.len() ==> (#[trigger] v[i]).selector != (#[trigger] v[j]).selector,
    ensures
        ({
            let r = updated_styles(v, selector, edit);
            forall|i: int, j: int|
                0 <= i < j < r.len() ==> (#[trigger] r[i]).selector != (#[trigger] r[j]).selector
        }),
{
    lemma_first_for(v, selector, 0);
    let r = updated_styles(v, selector, edit);
    match first_for(v, selector, 0) {
        Some(k) => {
            let after = edited(v[k], edit);
            assert(after.selector == v[k].selector);
            if all_default(after) {
                assert forall|i: int, j: int| 0 <= i < j < r.len() implies (#[trigger] r[i]).selector
                    != (#[trigger] r[j]).selector by {
                    let i2 = if i < k { i } else { i + 1 };
                    let j2 = if j < k { j } else { j + 1 };
                    assert(r[i] == v[i2]);
                    assert(r[j] == v[j2]);
                }
            } else {
                assert forall|i: int, j: int| 0 <= i < j < r.len() implies (#[trigger] r[i]).selector
                    != (#[trigger] r[j]).selector by {
                    assert(r[i].selector == v[i].selector);
                    assert(r[j].selector == v[j].selector);
                }
            }
        },
        None => {
            let after = edited(blank_style(selector), edit);
            if !all_default(after) {
                assert forall|i: int, j: int| 0 <= i < j < r.len() implies (#[trigger] r[i]).selector
                    != (#[trigger] r[j]).selector by {
                    if j == v.len() {
                        assert(r[j] == after);
                        assert(r[i] == v[i]);
                    } else {
                        assert(r[i] == v[i]);
                        assert(r[j] == v[j]);
                    }
                }
            }
        },
    }
}

// ───────────────────────── preview samples ─────────────────────────

/// A value that is set: its trimmed text, where that is not empty.
pub open spec fn set_value(v: Seq<char>) -> Option<Seq<char>> {
    if trim(v).len() > 0 {
        Some(trim(v))
    } else {
        None
    }
}

/// ` name: value;` for a set value, nothing otherwise.
#[verifier::opaque]
pub open spec fn declaration(name: Seq<char>, v: Seq<char>) -> Seq<char> {
    match set_value(v) {
        Some(t) => " "@ + name + ": "@ + t + ";"@,
        None => Seq::empty(),
    }
}

/// The override's value where it sets one, else the default.
pub open spec fn value_or(ov: Option<Seq<char>>, d: Seq<char>) -> Seq<char> {
    match ov {
        Some(t) => t,
        None => d,
    }
}

/// The declarations an override adds: each set property, then italic.
pub open spec fn override_css(o: StyleSpec) -> Seq<char> {
    declaration("line-height"@, o.line_height) + declaration("letter-spacing"@, o.letter_spacing)
        + declaration("color"@, o.color) + declaration("background"@, o.background)
        + declaration("padding"@, o.padding) + declaration("border-radius"@, o.border_radius)
        + declaration("text-align"@, o.text_align) + if o.italic {
        " font-style: italic;"@
    } else {
        Seq::empty()
    }
}

/// ` font-weight: w;` for a non-empty weight.
pub open spec fn weight_css(weight: Seq<char>) -> Seq<char> {
    if weight.len() > 0 {
        " font-weight: "@ + weight + ";"@
    } else {
        Seq::empty()
    }
}

/// The inline style of a preview sample: font family and size (the override's
/// size winning over the default), the weight where there is one, each set
/// property of the override, italic, then `extra`.
pub open spec fn sample_css(
    family: Seq<char>,
    default_size: Seq<char>,
    default_weight: Seq<char>,
    ov: Option<StyleSpec>,
    extra: Seq<char>,
) -> Seq<char> {
    let size = match ov {
        Some(o) => value_or(set_value(o.font_size), default_size),
        None => default_size,
    };
    let weight = match ov {
        Some(o) => value_or(set_value(o.font_weight), default_weight),
        None => default_weight,
    };
    let props = match ov {
        Some(o) => override_css(o),
        None => Seq::empty(),
    };
    let ex = if extra.len() > 0 {
        " "@ + extra
    } else {
        Seq::empty()
    };
    "font-family: "@ + family + "; font-size: "@ + size + ";"@ + weight_css(weight) + props + ex
}

/// A preview sample's style begins with the font family, then the size and
/// the weight, the override winning over the default for each: an
/// override's size or weight is used where it trims to something (trimmed),
/// the default otherwise; a weight that comes out empty is left out.
pub proof fn law_sample_override_wins(
    family: Seq<char>,
    default_size: Seq<char>,
    default_weight: Seq<char>,
    ov: Option<StyleSpec>,
    extra: Seq<char>,
)
    ensures
        ({
            let size = match ov {
                Some(o) => if trim(o.font_size).len() > 0 {
                    trim(o.font_size)
                } else {
                    default_size
                },
                None => default_size,
            };
            let weight = match ov {
                Some(o) => if trim(o.font_weight).len() > 0 {
                    trim(o.font_weight)
                } else {
                    default_weight
                },
                None => default_weight,
            };
            let head = seq!['f', 'o', 'n', 't', '-', 'f', 'a', 'm', 'i', 'l', 'y', ':', ' '] + family
                + seq![';', ' ', 'f', 'o', 'n', 't', '-', 's', 'i', 'z', 'e', ':', ' '] + size
                + seq![';'];
            let w = seq![' ', 'f', 'o', 'n', 't', '-', 'w', 'e', 'i', 'g', 'h', 't', ':', ' ']
                + weight + seq![';'];
            let css = sample_css(family, default_size, default_weight, ov, extra);
            &&& css.len() >= head.len()
            &&& css.take(head.len() as int) == head
            &&& weight.len() > 0 ==> css.len() >= head.len() + w.len() && css.subrange(
                head.len() as int,
                (head.len() + w.len()) as int,
            ) == w
        }),
{
    reveal_strlit("font-family: ");
    reveal_strlit("; font-size: ");
    reveal_strlit(";");
    reveal_strlit(" font-weight: ");
    let shown_size = match ov {
        Some(o) => value_or(set_value(o.font_size), default_size),
        None => default_size,
    };
    let shown_weight = match ov {
        Some(o) => value_or(set_value(o.font_weight), default_weight),
        None => default_weight,
    };
    let head = "font-family: "@ + family + "; font-size: "@ + shown_size + ";"@;
    let css = sample_css(family, default_size, default_weight, ov, extra);
    assert(css.take(head.len() as int) =~= head);
    if shown_weight.len() > 0 {
        let w = " font-weight: "@ + shown_weight + ";"@;
        assert(css.subrange(head.len() as int, (head.len() + w.len()) as int) =~= w);
    }
}

/// The trimmed value, where it is set.
fn set_text(v: &String) -> (r: Option<Vec<char>>)
    ensures
        r matches Some(t) ==> set_value(v@) == Some(t@),
        r is None ==> set_value(v@) is None,
{
    let c = chars_of(v.as_str());
    let n = c.len();
    let (a, b) = trim_bounds(&c, 0, n);
    assert(c@.subrange(0, n as int) == c@);
    if a == b {
        None
    } else {
        Some(vec_of_range(&c, a, b))
    }
}

/// Appends ` name: value;` when the value is set.
fn push_declaration(out: &mut String, name: &str, v: &String)
    ensures
        final(out)@ == old(out)@ + declaration(name@, v@),
{
    reveal(declaration);
    match set_text(v) {
        Some(t) => {
            out.append(" ");
            out.append(name);
            out.append(": ");
            push_all(out, &t);
            out.append(";");
        },
        None => {
            assert(out@ + Seq::<char>::empty() == out@);
        },
    }
}

fn push_value_or(out: &mut String, v: &String, d: &str)
    ensures
        final(out)@ == old(out)@ + value_or(set_value(v@), d@),
{
    match set_text(v) {
        Some(t) => push_all(out, &t),
        None => out.append(d),
    }
}

fn push_weight(out: &mut String, weight: &String)
    ensures
        final(out)@ == old(out)@ + weight_css(weight@),
{
    if weight.as_str().unicode_len() > 0 {
        out.append(" font-weight: ");
        out.append(weight.as_str());
        out.append(";");
    } else {
        assert(out@ + Seq::<char>::empty() == out@);
    }
}

fn push_overrides(out: &mut String, o: &ElementStyle)
    ensures
        final(out)@ == old(out)@ + override_css(o@),
{
    let ghost start = out@;
    let ghost d1 = declaration("line-height"@, o.line_height@);
    let ghost d2 = declaration("letter-spacing"@, o.letter_spacing@);
    let ghost d3 = declaration("color"@, o.color@);
    let ghost d4 = declaration("background"@, o.background@);
    let ghost d5 = declaration("padding"@, o.padding@);
    let ghost d6 = declaration("border-radius"@, o.border_radius@);
    let ghost d7 = declaration("text-align"@, o.text_align@);
    push_declaration(out, "line-height", &o.line_height);
    push_declaration(out, "letter-spacing", &o.letter_spacing);
    assert(out@ == start + (d1 + d2));
    push_declaration(out, "color", &o.color);
    assert(out@ == start + (d1 + d2 + d3));
    push_declaration(out, "background", &o.background);
    assert(out@ == start + (d1 + d2 + d3 + d4));
    push_declaration(out, "padding", &o.padding);
    assert(out@ == start + (d1 + d2 + d3 + d4 + d5));
    push_declaration(out, "border-radius", &o.border_radius);
    assert(out@ == start + (d1 + d2 + d3 + d4 + d5 + d6));
    push_declaration(out, "text-align", &o.text_align);
    assert(out@ == start + (d1 + d2 + d3 + d4 + d5 + d6 + d7));
    let ghost mid = out@;
    if o.italic {
        out.append(" font-style: italic;");
    } else {
        assert(out@ + Seq::<char>::empty() == out@);
    }
}

/// Builds the inline style of one preview sample: base defaults merged with
/// the element's override (the override wins per property), plus `extra`.
pub fn sample_style(
    family: &str,
    default_size: &str,
    default_weight: &str,
    ov: Option<&ElementStyle>,
    extra: &str,
) -> (r: String)
    ensures
        r@ == sample_css(
            family@,
            default_size@,
            default_weight@,
            match ov {
                Some(o) => Some(o@),
                None => None,
            },
            extra@,
        ),
{
    let mut s = String::from_str("font-family: ");
    s.append(family);
    s.append("; font-size: ");
    match ov {
        Some(o) => push_value_or(&mut s, &o.font_size, default_size),
        None => s.append(default_size),
    }
    s.append(";");
    let mut weight = String::new();
    match ov {
        Some(o) => push_value_or(&mut weight, &o.font_weight, default_weight),
        None => weight.append(default_weight),
    }
    push_weight(&mut s, &weight);
    if let Some(o) = ov {
        push_overrides(&mut s, o);
    }
    if extra.unicode_len() > 0 {
        s.append(" ");
        s.append(extra);
    }
    s
}

// ───────────────────────── font stacks ─────────────────────────

pub open spec fn is_quote(c: char) -> bool {
    c == '\'' || c == '"'
}

/// `s` without leading quotes.
pub open spec fn strip_front_quotes(s: Seq<char>) -> Seq<char>
    decreases s.len(),
{
    if s.len() > 0 && is_quote(s[0]) {
        strip_front_quotes(s.drop_first())
    } else {
        s
    }
}

/// `s` without trailing quotes.
pub open spec fn strip_back_quotes(s: Seq<char>) -> Seq<char>
    decreases s.len(),
{
    if s.len() > 0 && is_quote(s.last()) {
        strip_back_quotes(s.drop_last())
    } else {
        s
    }
}

/// Bytes a character takes in UTF-8.
pub open spec fn utf8_width(c: char) -> int {
    if (c as u32) < 0x80 {
        1
    } else if (c as u32) < 0x800 {
        2
    } else if (c as u32) < 0x10000 {
        3
    } else {
        4
    }
}

/// Bytes a text takes in UTF-8 (`str::len`).
pub open spec fn utf8_len(s: Seq<char>) -> int
    decreases s.len(),
{
    if s.len() == 0 {
        0
    } else {
        utf8_len(s.drop_last()) + utf8_width(s.last())
    }
}

/// The first family of a font stack, without surrounding space and quotes.
pub open spec fn first_family(stack: Seq<char>) -> Seq<char> {
    let head = match find_char_from(stack, ',', 0) {
        Some(i) => stack.take(i),
        None => stack,
    };
    strip_back_quotes(strip_front_quotes(trim(head)))
}

/// The family's display can be cut: it fits in 36 bytes, or a character ends
/// exactly at byte 36.
pub open spec fn display_cut_defined(stack: Seq<char>) -> bool {
    let p = first_family(stack);
    utf8_len(p) <= 36 || exists|k: int| 0 <= k <= p.len() && utf8_len(#[trigger] p.take(k)) == 36
}

/// The family's display: the family, cut to its first 36 bytes with `…` when longer.
pub open spec fn display_of(stack: Seq<char>) -> Seq<char> {
    let p = first_family(stack);
    if utf8_len(p) > 36 {
        p.take(choose|k: int| 0 <= k <= p.len() && utf8_len(#[trigger] p.take(k)) == 36) + seq!['…']
    } else {
        p
    }
}

/// One more character adds its width.
pub proof fn lemma_utf8_take(p: Seq<char>, k: int)
    requires
        0 <= k < p.len(),
    ensures
        utf8_len(p.take(k + 1)) == utf8_len(p.take(k)) + utf8_width(p[k]),
{
    assert(p.take(k + 1).drop_last() == p.take(k));
}

/// Longer prefixes take strictly more bytes.
pub proof fn lemma_utf8_mono(p: Seq<char>, i: int, j: int)
    requires
        0 <= i < j <= p.len(),
    ensures
        utf8_len(p.take(i)) < utf8_len(p.take(j)),
    decreases j - i,
{
    lemma_utf8_take(p, j - 1);
    if i < j - 1 {
        lemma_utf8_mono(p, i, j - 1);
    }
}

fn utf8_width_of(c: char) -> (r: usize)
    ensures
        r == utf8_width(c),
{
    let u = c as u32;
    if u < 0x80 {
        1
    } else if u < 0x800 {
        2
    } else if u < 0x10000 {
        3
    } else {
        4
    }
}

/// Bounds of `strip_back_quotes(strip_front_quotes(s[lo..hi]))` inside `s`.
fn quote_bounds(s: &[char], lo: usize, hi: usize) -> (r: (usize, usize))
    requires
        lo <= hi <= s@.len(),
    ensures
        lo <= r.0 <= r.1 <= hi,
        s@.subrange(r.0 as int, r.1 as int) == strip_back_quotes(
            strip_front_quotes(s@.subrange(lo as int, hi as int)),
        ),
{
    let mut a: usize = lo;
    while a < hi && (s[a] == '\'' || s[a] == '"')
        invariant
            lo <= a <= hi <= s@.len(),
            strip_front_quotes(s@.subrange(lo as int, hi as int)) == strip_front_quotes(
                s@.subrange(a as int, hi as int),
            ),
        decreases hi - a,
    {
        assert(s@.subrange(a as int, hi as int).drop_first() == s@.subrange(a + 1, hi as int));
        a = a + 1;
    }
    let mut b: usize = hi;
    while b > a && (s[b - 1] == '\'' || s[b - 1] == '"')
        invariant
            lo <= a <= b <= hi <= s@.len(),
            strip_back_quotes(s@.subrange(a as int, hi as int)) == strip_back_quotes(
                s@.subrange(a as int, b as int),
            ),
        decreases b,
    {
        assert(s@.subrange(a as int, b as int).drop_last() == s@.subrange(a as int, b - 1));
        b = b - 1;
    }
    (a, b)
}

/// The display name of a font stack: its first family without surrounding
/// space and quotes, cut to 36 bytes with `…` when longer.
pub fn primary_display(stack: &str) -> (r: String)
    requires
        display_cut_defined(stack@),
    ensures
        r@ == display_of(stack@),
{
    let s = chars_of(stack);
    let n = s.len();
    proof {
        lemma_find_char_from(s@, ',', 0);
    }
    let end: usize = match find_char(&s, ',', 0) {
        Some(i) => i,
        None => n,
    };
    assert(s@.subrange(0, end as int) == match find_char_from(s@, ',', 0) {
        Some(i) => s@.take(i),
        None => s@,
    });
    let (a0, b0) = trim_bounds(&s, 0, end);
    let (a, b) = quote_bounds(&s, a0, b0);
    let p = vec_of_range(&s, a, b);
    let ghost pv = p@;
    assert(pv == first_family(stack@));
    let m = p.len();
    let mut acc: usize = 0;
    let mut k: usize = 0;
    let mut cut: Option<usize> = None;
    while k < m && acc <= 36
        invariant
            0 <= k <= m,
            m == pv.len(),
            pv == p@,
            acc == utf8_len(pv.take(k as int)),
            acc <= 40,
            cut matches Some(c) ==> c <= k && utf8_len(pv.take(c as int)) == 36,
            cut is None ==> forall|j: int| 0 <= j <= k ==> utf8_len(#[trigger] pv.take(j)) != 36,
        decreases m - k,
    {
        proof {
            lemma_utf8_take(pv, k as int);
        }
        acc = acc + utf8_width_of(p[k]);
        k = k + 1;
        if acc == 36 && cut.is_none() {
            cut = Some(k);
        }
    }
    if acc <= 36 {
        assert(pv.take(m as int) == pv);
        proof {
            if k < m {
                assert(false);
            }
        }
        return string_of_chars(&p);
    }
    proof {
        if k < m {
            lemma_utf8_mono(pv, k as int, m as int);
        }
        assert(pv.take(m as int) == pv);
        assert(utf8_len(pv) > 36);
        assert(display_cut_defined(stack@));
        let w = choose|j: int| 0 <= j <= pv.len() && utf8_len(#[trigger] pv.take(j)) == 36;
        if cut is None {
            if w > k {
                lemma_utf8_mono(pv, k as int, w);
            }
            assert(false);
        }
    }
    let c = cut.unwrap();
    proof {
        let w = choose|j: int| 0 <= j <= pv.len() && utf8_len(#[trigger] pv.take(j)) == 36;
        if w < c {
            lemma_utf8_mono(pv, w, c as int);
        }
        if w > c {
            lemma_utf8_mono(pv, c as int, w);
        }
    }
    let mut out = String::new();
    push_range(&mut out, &p, 0, c);
    push_char_ellipsis(&mut out);
    assert(pv.subrange(0, c as int) == pv.take(c as int));
    out
}

fn string_of_chars(p: &Vec<char>) -> (r: String)
    ensures
        r@ == p@,
{
    let mut out = String::new();
    push_all(&mut out, p);
    assert(Seq::<char>::empty() + p@ == p@);
    out
}

fn push_char_ellipsis(out: &mut String)
    ensures
        final(out)@ == old(out)@ + seq!['…'],
{
    crate::text::push_char(out, '…');
}

} // verus!
