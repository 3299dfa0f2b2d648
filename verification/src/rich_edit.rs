//! Rich editing in the preview: commands sent to the preview frame, `<img>`
//! tags, and the names and checks used when images are imported.
use crate::text::{
    chars_of, contains, ends_with, find, find_char, find_char_from, push_char, push_replacing,
    rfind_char, rfind_char_before, replace_char, starts_with, trim, trim_bounds, vec_of_range,
    string_of, matches_at,
};
use vstd::prelude::*;

verus! {

// ───────────────────────── character classes ─────────────────────────

pub open spec fn ascii_lower_char(c: char) -> char {
    if 'A' <= c && c <= 'Z' {
        ((c as int) + 32) as char
    } else {
        c
    }
}

/// `str::to_ascii_lowercase`.
pub open spec fn ascii_lower(s: Seq<char>) -> Seq<char> {
    s.map_values(|c: char| ascii_lower_char(c))
}

pub open spec fn is_ascii_alnum(c: char) -> bool {
    ('0' <= c && c <= '9') || ('a' <= c && c <= 'z') || ('A' <= c && c <= 'Z')
}

fn lower_char(c: char) -> (r: char)
    ensures
        r == ascii_lower_char(c),
{
    if 'A' <= c && c <= 'Z' {
        ((c as u8) + 32) as char
    } else {
        c
    }
}

fn lower_chars(s: &[char]) -> (r: Vec<char>)
    ensures
        r@ == ascii_lower(s@),
{
    let mut r: Vec<char> = Vec::new();
    let mut i: usize = 0;
    while i < s.len()
        invariant
            0 <= i <= s@.len(),
            r@ == ascii_lower(s@.take(i as int)),
        decreases s.len() - i,
    {
        r.push(lower_char(s[i]));
        assert(ascii_lower(s@.take(i + 1)) == ascii_lower(s@.take(i as int)).push(
            ascii_lower_char(s@[i as int]),
        ));
        i = i + 1;
    }
    assert(s@.take(s@.len() as int) == s@);
    r
}

fn is_alnum(c: char) -> (r: bool)
    ensures
        r == is_ascii_alnum(c),
{
    ('0' <= c && c <= '9') || ('a' <= c && c <= 'z') || ('A' <= c && c <= 'Z')
}

/// `s` holds the text of `lit`.
fn has(s: &[char], lit: &str) -> (r: bool)
    ensures
        r == contains(s@, lit@),
{
    let p = chars_of(lit);
    find(s, &p, 0).is_some()
}

/// `s` ends with the text of `lit`.
fn ends(s: &[char], lit: &str) -> (r: bool)
    ensures
        r == ends_with(s@, lit@),
{
    let p = chars_of(lit);
    if p.len() > s.len() {
        return false;
    }
    let at = s.len() - p.len();
    let r = matches_at(s, &p, at);
    assert(s@.skip(at as int) == s@.subrange(at as int, s@.len() as int));
    r
}

/// `s` starts with the text of `lit`.
fn begins(s: &[char], lit: &str) -> (r: bool)
    ensures
        r == starts_with(s@, lit@),
{
    let p = chars_of(lit);
    if p.len() > s.len() {
        return false;
    }
    let r = matches_at(s, &p, 0);
    assert(s@.take(p@.len() as int) == s@.subrange(0, p@.len() as int));
    r
}

// ───────────────────────── image extension ─────────────────────────

/// The extension named by a content type, if it names one.
pub open spec fn ext_from_type(ct: Seq<char>) -> Option<Seq<char>> {
    let l = ascii_lower(ct);
    if contains(l, "png"@) {
        Some("png"@)
    } else if contains(l, "jpeg"@) || contains(l, "jpg"@) {
        Some("jpg"@)
    } else if contains(l, "gif"@) {
        Some("gif"@)
    } else if contains(l, "webp"@) {
        Some("webp"@)
    } else if contains(l, "svg"@) {
        Some("svg"@)
    } else {
        None
    }
}

/// The text before the first `c` (all of it where there is none).
pub open spec fn before_first(s: Seq<char>, c: char) -> Seq<char> {
    match find_char_from(s, c, 0) {
        Some(i) => s.take(i),
        None => s,
    }
}

/// The text after the last `c` (all of it where there is none).
pub open spec fn after_last(s: Seq<char>, c: char) -> Seq<char> {
    match rfind_char_before(s, c, s.len() as int) {
        Some(i) => s.skip(i + 1),
        None => s,
    }
}

/// The extension named by a URL's path (query removed), `png` by default.
pub open spec fn ext_from_path(url: Seq<char>) -> Seq<char> {
    let lower = ascii_lower(before_first(url, '?'));
    if ends_with(lower, ".png"@) {
        "png"@
    } else if ends_with(lower, ".jpg"@) || ends_with(lower, ".jpeg"@) {
        "jpg"@
    } else if ends_with(lower, ".gif"@) {
        "gif"@
    } else if ends_with(lower, ".webp"@) {
        "webp"@
    } else if ends_with(lower, ".svg"@) {
        "svg"@
    } else {
        "png"@
    }
}

/// The file extension for a downloaded image: from the content type where it
/// names one, else from the URL's path.
pub open spec fn image_ext(url: Seq<char>, ctype: Option<Seq<char>>) -> Seq<char> {
    match ctype {
        Some(ct) => match ext_from_type(ct) {
            Some(e) => e,
            None => ext_from_path(url),
        },
        None => ext_from_path(url),
    }
}

fn type_ext(ct: &str) -> (r: Option<&'static str>)
    ensures
        r matches Some(e) ==> ext_from_type(ct@) == Some(e@),
        r is None ==> ext_from_type(ct@) is None,
{
    let c = chars_of(ct);
    let l = lower_chars(&c);
    if has(&l, "png") {
        Some("png")
    } else if has(&l, "jpeg") || has(&l, "jpg") {
        Some("jpg")
    } else if has(&l, "gif") {
        Some("gif")
    } else if has(&l, "webp") {
        Some("webp")
    } else if has(&l, "svg") {
        Some("svg")
    } else {
        None
    }
}

/// Positions of the text before the first `c` in `s`.
fn before_first_len(s: &[char], c: char) -> (r: usize)
    ensures
        r <= s@.len(),
        s@.take(r as int) == before_first(s@, c),
{
    proof {
        crate::text::lemma_find_char_from(s@, c, 0);
    }
    match find_char(s, c, 0) {
        Some(i) => i,
        None => {
            assert(s@.take(s@.len() as int) == s@);
            s.len()
        },
    }
}

/// Guesses an image's extension from its content type, else from its URL.
pub fn ext_from_url_or_ctype(url: &str, ctype: Option<&str>) -> (r: &'static str)
    ensures
        r@ == image_ext(
            url@,
            match ctype {
                Some(t) => Some(t@),
                None => None,
            },
        ),
{
    if let Some(ct) = ctype {
        if let Some(e) = type_ext(ct) {
            return e;
        }
    }
    let u = chars_of(url);
    let k = before_first_len(&u, '?');
    let path = vec_of_range(&u, 0, k);
    assert(u@.subrange(0, k as int) == u@.take(k as int));
    let lower = lower_chars(&path);
    if ends(&lower, ".png") {
        "png"
    } else if ends(&lower, ".jpg") || ends(&lower, ".jpeg") {
        "jpg"
    } else if ends(&lower, ".gif") {
        "gif"
    } else if ends(&lower, ".webp") {
        "webp"
    } else if ends(&lower, ".svg") {
        "svg"
    } else {
        "png"
    }
}

/// Two endings of one text agree where they overlap.
proof fn lemma_endings_agree(s: Seq<char>, a: Seq<char>, b: Seq<char>, k: int)
    requires
        ends_with(s, a),
        ends_with(s, b),
        1 <= k <= a.len(),
        k <= b.len(),
    ensures
        a[a.len() - k] == b[b.len() - k],
{
    assert(s.skip(s.len() - a.len())[a.len() - k] == s[s.len() - k]);
    assert(s.skip(s.len() - b.len())[b.len() - k] == s[s.len() - k]);
}

/// A downloaded image is named by what it is: a content type that names an
/// extension decides it; otherwise the URL's path (query removed, any case)
/// decides it by the extension it ends with (`.jpeg` saved as `jpg`), and
/// `png` is the fallback for a path with none of them.
pub proof fn law_image_ext_follows_its_source(url: Seq<char>, ctype: Option<Seq<char>>)
    ensures
        ({
            let r = image_ext(url, ctype);
            let path = ascii_lower(before_first(url, '?'));
            let by_path = match ctype {
                Some(ct) => ext_from_type(ct) is None,
                None => true,
            };
            &&& ctype matches Some(ct) ==> (ext_from_type(ct) matches Some(e) ==> r == e)
            &&& by_path && ends_with(path, seq!['.', 'p', 'n', 'g']) ==> r == seq!['p', 'n', 'g']
            &&& by_path && ends_with(path, seq!['.', 'j', 'p', 'g']) ==> r == seq!['j', 'p', 'g']
            &&& by_path && ends_with(path, seq!['.', 'j', 'p', 'e', 'g']) ==> r == seq!['j', 'p', 'g']
            &&& by_path && ends_with(path, seq!['.', 'g', 'i', 'f']) ==> r == seq!['g', 'i', 'f']
            &&& by_path && ends_with(path, seq!['.', 'w', 'e', 'b', 'p']) ==> r == seq!['w', 'e', 'b', 'p']
            &&& by_path && ends_with(path, seq!['.', 's', 'v', 'g']) ==> r == seq!['s', 'v', 'g']
            &&& by_path && !ends_with(path, seq!['.', 'p', 'n', 'g'])
                && !ends_with(path, seq!['.', 'j', 'p', 'g'])
                && !ends_with(path, seq!['.', 'j', 'p', 'e', 'g'])
                && !ends_with(path, seq!['.', 'g', 'i', 'f'])
                && !ends_with(path, seq!['.', 'w', 'e', 'b', 'p'])
                && !ends_with(path, seq!['.', 's', 'v', 'g']) ==> r == seq!['p', 'n', 'g']
        }),
{
    reveal_strlit(".png");
    reveal_strlit(".jpg");
    reveal_strlit(".jpeg");
    reveal_strlit(".gif");
    reveal_strlit(".webp");
    reveal_strlit(".svg");
    reveal_strlit("png");
    reveal_strlit("jpg");
    reveal_strlit("gif");
    reveal_strlit("webp");
    reveal_strlit("svg");
    let path = ascii_lower(before_first(url, '?'));
    let png = seq!['.', 'p', 'n', 'g'];
    let jpg = seq!['.', 'j', 'p', 'g'];
    let jpeg = seq!['.', 'j', 'p', 'e', 'g'];
    let gif = seq!['.', 'g', 'i', 'f'];
    let webp = seq!['.', 'w', 'e', 'b', 'p'];
    let svg = seq!['.', 's', 'v', 'g'];
    assert(".png"@ =~= png);
    assert(".jpg"@ =~= jpg);
    assert(".jpeg"@ =~= jpeg);
    assert(".gif"@ =~= gif);
    assert(".webp"@ =~= webp);
    assert(".svg"@ =~= svg);
    assert("png"@ =~= seq!['p', 'n', 'g']);
    assert("jpg"@ =~= seq!['j', 'p', 'g']);
    assert("gif"@ =~= seq!['g', 'i', 'f']);
    assert("webp"@ =~= seq!['w', 'e', 'b', 'p']);
    assert("svg"@ =~= seq!['s', 'v', 'g']);
    // no path ends with two of the endings
    if ends_with(path, jpg) && ends_with(path, png) {
        lemma_endings_agree(path, jpg, png, 3);
    }
    if ends_with(path, jpeg) && ends_with(path, png) {
        lemma_endings_agree(path, jpeg, png, 2);
    }
    if ends_with(path, gif) && ends_with(path, png) {
        lemma_endings_agree(path, gif, png, 2);
    }
    if ends_with(path, gif) && ends_with(path, jpg) {
        lemma_endings_agree(path, gif, jpg, 1);
    }
    if ends_with(path, gif) && ends_with(path, jpeg) {
        lemma_endings_agree(path, gif, jpeg, 1);
    }
    if ends_with(path, webp) && ends_with(path, png) {
        lemma_endings_agree(path, webp, png, 1);
    }
    if ends_with(path, webp) && ends_with(path, jpg) {
        lemma_endings_agree(path, webp, jpg, 2);
    }
    if ends_with(path, webp) && ends_with(path, jpeg) {
        lemma_endings_agree(path, webp, jpeg, 2);
    }
    if ends_with(path, webp) && ends_with(path, gif) {
        lemma_endings_agree(path, webp, gif, 1);
    }
    if ends_with(path, svg) && ends_with(path, png) {
        lemma_endings_agree(path, svg, png, 3);
    }
    if ends_with(path, svg) && ends_with(path, jpg) {
        lemma_endings_agree(path, svg, jpg, 2);
    }
    if ends_with(path, svg) && ends_with(path, jpeg) {
        lemma_endings_agree(path, svg, jpeg, 1);
    }
    if ends_with(path, svg) && ends_with(path, gif) {
        lemma_endings_agree(path, svg, gif, 2);
    }
    if ends_with(path, svg) && ends_with(path, webp) {
        lemma_endings_agree(path, svg, webp, 1);
    }
}

// ───────────────────────── image tags and names ─────────────────────────

/// `<img src="{src}" alt="{alt}" …/>`, quotes in the alt text written `&quot;`.
pub open spec fn img_markup(src: Seq<char>, alt: Seq<char>) -> Seq<char> {
    "<img src=\""@ + src + "\" alt=\""@ + replace_char(alt, '"', "&quot;"@)
        + "\" style=\"max-width:100%;height:auto\" />"@
}

/// Builds an `<img>` tag for a site-relative or absolute URL.
pub fn img_tag(src: &str, alt: &str) -> (r: String)
    ensures
        r@ == img_markup(src@, alt@),
{
    let mut out = String::from_str("<img src=\"");
    out.append(src);
    out.append("\" alt=\"");
    let a = chars_of(alt);
    let quot = chars_of("&quot;");
    push_replacing(&mut out, &a, '"', &quot);
    out.append("\" style=\"max-width:100%;height:auto\" />");
    out
}

/// Characters kept in an imported image's file name; others become `_`.
pub open spec fn file_char(c: char) -> char {
    if is_ascii_alnum(c) || c == '.' || c == '-' || c == '_' {
        c
    } else {
        '_'
    }
}

/// The file name an imported image is stored under: its name with unsafe
/// characters replaced, `image.png` where that leaves nothing.
pub open spec fn safe_name_of(name: Seq<char>) -> Seq<char> {
    let safe = name.map_values(|c: char| file_char(c));
    if safe.len() == 0 {
        "image.png"@
    } else {
        safe
    }
}

/// The file name an imported image is stored under.
pub fn safe_image_name(preferred_name: &str) -> (r: String)
    ensures
        r@ == safe_name_of(preferred_name@),
{
    let s = chars_of(preferred_name);
    if s.len() == 0 {
        return String::from_str("image.png");
    }
    let mut out = String::new();
    let mut i: usize = 0;
    while i < s.len()
        invariant
            0 <= i <= s@.len(),
            out@ == s@.take(i as int).map_values(|c: char| file_char(c)),
        decreases s.len() - i,
    {
        let c = s[i];
        let k = if is_alnum(c) || c == '.' || c == '-' || c == '_' {
            c
        } else {
            '_'
        };
        push_char(&mut out, k);
        assert(s@.take(i + 1).map_values(|c: char| file_char(c)) == s@.take(i as int).map_values(
            |c: char| file_char(c),
        ).push(file_char(s@[i as int])));
        i = i + 1;
    }
    assert(s@.take(s@.len() as int) == s@);
    out
}

/// Characters kept in a downloaded image's stem; others (the dot included) become `_`.
pub open spec fn stem_char(c: char) -> char {
    if is_ascii_alnum(c) || c == '-' || c == '_' {
        c
    } else {
        '_'
    }
}

/// The stem of a downloaded image: the URL's last path segment without its
/// query, at most 40 characters, with unsafe characters replaced.
pub open spec fn url_stem(url: Seq<char>) -> Seq<char> {
    let seg = before_first(after_last(url, '/'), '?');
    let cut = if seg.len() > 40 {
        seg.take(40)
    } else {
        seg
    };
    cut.map_values(|c: char| stem_char(c))
}

/// The name a downloaded image is saved under: its stem (`image` where that
/// is empty), a dot and the extension. A stem never holds a dot, so no
/// trailing `.{ext}` is ever left to strip from it.
pub open spec fn download_name_of(url: Seq<char>, ext: Seq<char>) -> Seq<char> {
    let stem = url_stem(url);
    (if stem.len() == 0 {
        "image"@
    } else {
        stem
    }) + "."@ + ext
}

/// The name a downloaded image is saved under.
pub fn download_image_name(url: &str, ext: &str) -> (r: String)
    ensures
        r@ == download_name_of(url@, ext@),
{
    let u = chars_of(url);
    let n = u.len();
    proof {
        crate::text::lemma_rfind_char_before(u@, '/', n as int);
    }
    let start: usize = match rfind_char(&u, '/', n) {
        Some(i) => i + 1,
        None => 0,
    };
    let seg = vec_of_range(&u, start, n);
    assert(seg@ == after_last(u@, '/'));
    let k = before_first_len(&seg, '?');
    let m: usize = if k > 40 {
        40
    } else {
        k
    };
    let ghost cut = seg@.take(k as int);
    assert(seg@.take(m as int) == if cut.len() > 40 {
        cut.take(40)
    } else {
        cut
    });
    let mut out = String::new();
    let mut i: usize = 0;
    while i < m
        invariant
            0 <= i <= m <= seg@.len(),
            out@ == seg@.take(i as int).map_values(|c: char| stem_char(c)),
        decreases m - i,
    {
        let c = seg[i];
        let x = if is_alnum(c) || c == '-' || c == '_' {
            c
        } else {
            '_'
        };
        push_char(&mut out, x);
        assert(seg@.take(i + 1).map_values(|c: char| stem_char(c)) == seg@.take(
            i as int,
        ).map_values(|c: char| stem_char(c)).push(stem_char(seg@[i as int])));
        i = i + 1;
    }
    if m == 0 {
        out = String::from_str("image");
    }
    out.append(".");
    out.append(ext);
    out
}

// ───────────────────────── download checks ─────────────────────────

/// A download link, trimmed, when it is an `http` or `https` URL.
pub open spec fn image_url_of(url: Seq<char>) -> Result<Seq<char>, Seq<char>> {
    let t = trim(url);
    if starts_with(t, "https://"@) || starts_with(t, "http://"@) {
        Ok(t)
    } else {
        Err("URL must start with http:// or https://"@)
    }
}

/// Trims a download link and accepts only `http://` and `https://` URLs.
pub fn image_url(url: &str) -> (r: Result<String, String>)
    ensures
        match (r, image_url_of(url@)) {
            (Ok(a), Ok(b)) => a@ == b,
            (Err(a), Err(b)) => a@ == b,
            _ => false,
        },
{
    let u = chars_of(url);
    let n = u.len();
    let (a, b) = trim_bounds(&u, 0, n);
    assert(u@.subrange(0, n as int) == u@);
    let t = vec_of_range(&u, a, b);
    if begins(&t, "https://") || begins(&t, "http://") {
        Ok(string_of(&t))
    } else {
        Err(String::from_str("URL must start with http:// or https://"))
    }
}

/// A content type that may be an image: `image/…`, or naming SVG or raw bytes.
pub open spec fn image_type_ok(ct: Seq<char>) -> bool {
    let l = ascii_lower(ct);
    starts_with(l, "image/"@) || contains(l, "svg"@) || contains(l, "octet-stream"@)
}

/// Refuses a download whose content type is clearly not an image.
pub fn check_image_type(ct: &str) -> (r: Result<(), String>)
    ensures
        r is Ok <==> image_type_ok(ct@),
        r matches Err(e) ==> e@ == "URL does not look like an image (Content-Type: "@ + ct@
            + ")"@,
{
    let c = chars_of(ct);
    let l = lower_chars(&c);
    if begins(&l, "image/") || has(&l, "svg") || has(&l, "octet-stream") {
        Ok(())
    } else {
        let mut e = String::from_str("URL does not look like an image (Content-Type: ");
        e.append(ct);
        e.append(")");
        Err(e)
    }
}

/// The largest image body accepted: 12 MiB.
pub const MAX_IMAGE_BYTES: usize = 12582912;

/// Refuses an image body that is larger than 12 MiB or empty.
pub fn check_image_size(len: usize) -> (r: Result<(), String>)
    ensures
        len > MAX_IMAGE_BYTES ==> (r matches Err(e) && e@
            == "Image larger than 12 MB — refuse to import"@),
        len == 0 ==> (r matches Err(e) && e@ == "Empty image body"@),
        0 < len <= MAX_IMAGE_BYTES ==> r is Ok,
{
    if len > MAX_IMAGE_BYTES {
        Err(String::from_str("Image larger than 12 MB — refuse to import"))
    } else if len == 0 {
        Err(String::from_str("Empty image body"))
    } else {
        Ok(())
    }
}

// ───────────────────────── frame commands ─────────────────────────

/// The message sent to the preview frame for a rich-editing command.
#[derive(Clone, Debug, PartialEq)]
pub enum RichPayload {
    /// Insert this HTML at the caret.
    Html(String),
    /// Run a command with a value.
    Command(String, String),
    /// Run a command without a value.
    Bare(String),
}

/// Commands that insert HTML: `html` and `html:…`.
pub open spec fn is_html_command(cmd: Seq<char>) -> bool {
    cmd == "html"@ || starts_with(cmd, "html:"@)
}

/// The message for a command: with a value, an HTML insertion for the HTML
/// commands and the command with its value otherwise; without one, the bare command.
pub fn rich_payload(cmd: &str, val: Option<&str>) -> (r: RichPayload)
    ensures
        match r {
            RichPayload::Html(h) => val matches Some(v) && is_html_command(cmd@) && h@ == v@,
            RichPayload::Command(c, v) => val matches Some(x) && !is_html_command(cmd@) && c@
                == cmd@ && v@ == x@,
            RichPayload::Bare(c) => val is None && c@ == cmd@,
        },
{
    match val {
        Some(v) => {
            let c = chars_of(cmd);
            let h = chars_of("html");
            if crate::text::chars_eq(&c, &h) || begins(&c, "html:") {
                RichPayload::Html(String::from_str(v))
            } else {
                RichPayload::Command(String::from_str(cmd), String::from_str(v))
            }
        },
        None => RichPayload::Bare(String::from_str(cmd)),
    }
}

} // verus!
