//! Trusted bindings to the outside crates that classify and measure characters,
//! decode and encode HTML entities, and parse URLs. Every item here calls one
//! outside function; its contract is what that function's source shows.

use vstd::prelude::*;
use vstd::string::StringExecFns;

verus! {

/// Terminal columns that `unicode_width::UnicodeWidthChar::width` assigns to `c`
/// (`None` for control characters).
pub uninterp spec fn char_columns(c: char) -> Option<usize>;

/// Terminal columns that `unicode_width::UnicodeWidthStr::width` assigns to a string.
pub uninterp spec fn str_columns(s: Seq<char>) -> usize;

/// Whether `c` has the Unicode `White_Space` property (`char::is_whitespace`):
/// tab through carriage return, space, next line, no-break space, ogham space
/// mark, the spaces U+2000..U+200A, line and paragraph separators, narrow
/// no-break space, medium mathematical space and ideographic space.
pub open spec fn white_space(c: char) -> bool {
    let u = c as u32;
    ||| (0x09 <= u && u <= 0x0d)
    ||| u == 0x20
    ||| u == 0x85
    ||| u == 0xa0
    ||| u == 0x1680
    ||| (0x2000 <= u && u <= 0x200a)
    ||| u == 0x2028
    ||| u == 0x2029
    ||| u == 0x202f
    ||| u == 0x205f
    ||| u == 0x3000
}

/// Whether `c` is a Unicode word character (`regex_syntax::is_word_character`).
pub uninterp spec fn word_char(c: char) -> bool;

/// The text that `html_escape::decode_html_entities` produces from `s`.
pub uninterp spec fn html_decoded(s: Seq<char>) -> Seq<char>;

/// The scheme of `s` as parsed by `url::Url::parse` (`None` when parsing fails).
pub uninterp spec fn url_scheme_of(s: Seq<char>) -> Option<Seq<char>>;

/// The host of `s` as parsed by `url::Url::parse` (`None` when parsing fails or
/// the URL has no host).
pub uninterp spec fn url_host_of(s: Seq<char>) -> Option<Seq<char>>;

/// The port of `s` as parsed by `url::Url::parse`, its scheme's default port
/// when none is written (`Url::port_or_known_default`); `None` when parsing
/// fails.
pub uninterp spec fn url_port_of(s: Seq<char>) -> Option<Option<u16>>;

/// Whether `c` belongs to the `\d` class of the `regex` crate (Unicode `Nd`).
pub uninterp spec fn decimal_digit(c: char) -> bool;

/// Characters that unicode-width gives one column both alone and inside any
/// string of such characters: printable ASCII, the box-drawing block
/// (U+2500..U+257F), the horizontal ellipsis (U+2026) and the middle dot
/// (U+00B7). The last three are East Asian Ambiguous, which the crate counts
/// as narrow.
pub open spec fn narrow_char(c: char) -> bool {
    ||| (0x20 <= c as u32 && c as u32 <= 0x7e)
    ||| (0x2500 <= c as u32 && c as u32 <= 0x257f)
    ||| c == '\u{2026}'
    ||| c == '\u{b7}'
}

/// Every character of `s` is narrow.
pub open spec fn all_narrow(s: Seq<char>) -> bool {
    forall|i: int| 0 <= i < s.len() ==> narrow_char(#[trigger] s[i])
}

/// Characters that unicode-width measures on their own inside any string made
/// only of such characters: printable ASCII; U+00A0..U+052F (Latin-1, Latin
/// Extended, IPA, combining diacritics, Greek, Cyrillic); Latin Extended
/// Additional (U+1E00..U+1EFF); the punctuation U+2010..U+2027; box drawing;
/// kana (U+3041..U+30FF); the CJK ideographs (U+3400..U+4DBF, U+4E00..U+9FFF);
/// Hangul syllables (U+AC00..U+D7A3); the fullwidth forms U+FF01..U+FF60.
/// None of them carries a ligature, emoji or line-break rule in the crate's
/// tables.
pub open spec fn plain_char(c: char) -> bool {
    let u = c as u32;
    ||| (0x20 <= u && u <= 0x7e)
    ||| (0xa0 <= u && u <= 0x52f)
    ||| (0x1e00 <= u && u <= 0x1eff)
    ||| (0x2010 <= u && u <= 0x2027)
    ||| (0x2500 <= u && u <= 0x257f)
    ||| (0x3041 <= u && u <= 0x30ff)
    ||| (0x3400 <= u && u <= 0x4dbf)
    ||| (0x4e00 <= u && u <= 0x9fff)
    ||| (0xac00 <= u && u <= 0xd7a3)
    ||| (0xff01 <= u && u <= 0xff60)
}

/// Wide characters among them: the CJK ideographs, Hangul syllables and the
/// fullwidth forms, two columns each.
pub open spec fn wide_char(c: char) -> bool {
    let u = c as u32;
    ||| (0x3400 <= u && u <= 0x4dbf)
    ||| (0x4e00 <= u && u <= 0x9fff)
    ||| (0xac00 <= u && u <= 0xd7a3)
    ||| (0xff01 <= u && u <= 0xff60)
}

/// Every character of `s` is plain.
pub open spec fn all_plain(s: Seq<char>) -> bool {
    forall|i: int| 0 <= i < s.len() ==> plain_char(#[trigger] s[i])
}

/// The columns of the characters of `s`, added up.
pub open spec fn plain_width(s: Seq<char>) -> nat
    decreases s.len(),
{
    if s.len() == 0 {
        0
    } else {
        plain_width(s.drop_last()) + cw(s.last())
    }
}

/// Columns of `c`, with control characters counted as zero (the
/// `width(c).unwrap_or(0)` idiom used throughout the layout code); a narrow
/// character is one column (as `char_width` states).
pub open spec fn cw(c: char) -> nat {
    if narrow_char(c) {
        1
    } else {
        match char_columns(c) {
            Some(w) => w as nat,
            None => 0,
        }
    }
}

/// Display columns of a string as `str_width` reports them: one per character
/// for a string of narrow characters, the sum of the characters' columns for a
/// string of plain characters (as `str_width` states), else the crate's own
/// count.
pub open spec fn text_cols(s: Seq<char>) -> usize {
    if all_narrow(s) {
        s.len() as usize
    } else if all_plain(s) && plain_width(s) <= usize::MAX {
        plain_width(s) as usize
    } else {
        str_columns(s)
    }
}

/// Calls `unicode_width::UnicodeWidthChar::width`. Its source returns `Some(1)`
/// for printable ASCII (U+0020..U+007E), `None` for the C0 controls, DEL and the
/// C1 controls (U+0000..U+001F, U+007F..U+009F), and a table value of at most 3
/// for everything else; the crate documents East Asian Ambiguous characters
/// (the box-drawing block, the ellipsis, the middle dot) as one column. The
/// tables give every plain character 0, 1 or 2 columns, and the wide ranges 2.
/// Other table values are not restated here.
#[verifier::external_body]
pub(crate) fn char_width(c: char) -> (r: Option<usize>)
    ensures
        r == char_columns(c),
        narrow_char(c) ==> r == Some(1usize),
        (c as u32) < 0x20 || (0x7f <= c as u32 && (c as u32) < 0xa0) <==> r is None,
        r matches Some(w) ==> w <= 3,
        plain_char(c) ==> r is Some,
        plain_char(c) ==> r.unwrap_or(0) <= 2,
        wide_char(c) ==> r == Some(2usize),
{
    unicode_width::UnicodeWidthChar::width(c)
}

/// Calls `unicode_width::UnicodeWidthStr::width`. Its source folds the string's
/// characters from the right starting at zero with the default state; a
/// character whose table entry is not the special value 3 leaves the state
/// default and adds its table width (printable ASCII adds 1 directly). No plain
/// character has that special entry, so a string of plain characters measures
/// the sum of its characters' columns, and a string of narrow characters one
/// column per character. The ligature and emoji rules that other strings meet
/// are not restated here.
#[verifier::external_body]
pub(crate) fn str_width(s: &str) -> (r: usize)
    ensures
        r == str_columns(s@),
        s@.len() == 0 ==> r == 0,
        all_narrow(s@) ==> r == s@.len(),
        all_plain(s@) && plain_width(s@) <= usize::MAX ==> r == plain_width(s@),
        r == text_cols(s@),
{
    unicode_width::UnicodeWidthStr::width(s)
}

/// Calls `char::is_whitespace`, which std documents as the Unicode `White_Space`
/// property; that property is the 25 code points `white_space` lists.
#[verifier::external_body]
pub(crate) fn is_white_space(c: char) -> (r: bool)
    ensures
        r == white_space(c),
{
    c.is_whitespace()
}

/// Calls `regex_syntax::is_word_character` (the `\w` class of the regex crate:
/// Alphabetic, Join_Control, Decimal_Number, Mark, Connector_Punctuation). For
/// ASCII input that class is exactly `[_0-9a-zA-Z]`.
#[verifier::external_body]
pub(crate) fn is_word_char(c: char) -> (r: bool)
    ensures
        r == word_char(c),
        (c as u32) < 0x80 ==> (r <==> (c == '_' || ('0' <= c && c <= '9') || ('a' <= c && c
            <= 'z') || ('A' <= c && c <= 'Z'))),
{
    regex_syntax::is_word_character(c)
}

/// Calls `html_escape::decode_html_entities`. The decoded text is named, not
/// restated: the entity table takes pages. Text without `&` comes back unchanged
/// (the decoder only acts at an `&`).
#[verifier::external_body]
pub(crate) fn decode_entities(s: &str) -> (r: String)
    ensures
        r@ == html_decoded(s@),
        !s@.contains('&') ==> r@ == s@,
{
    html_escape::decode_html_entities(s).into_owned()
}

/// The escaping that `html_escape::encode_text` performs: `&`, `<` and `>`
/// become `&amp;`, `&lt;` and `&gt;`; every other character is kept.
pub open spec fn text_escaped(s: Seq<char>) -> Seq<char>
    decreases s.len(),
{
    if s.len() == 0 {
        Seq::empty()
    } else {
        let c = s[0];
        let head = if c == '&' {
            seq!['&', 'a', 'm', 'p', ';']
        } else if c == '<' {
            seq!['&', 'l', 't', ';']
        } else if c == '>' {
            seq!['&', 'g', 't', ';']
        } else {
            seq![c]
        };
        head + text_escaped(s.drop_first())
    }
}

/// Calls `html_escape::encode_text`; its source escapes exactly `&`, `<` and `>`.
#[verifier::external_body]
pub(crate) fn encode_text(s: &str) -> (r: String)
    ensures
        r@ == text_escaped(s@),
{
    html_escape::encode_text(s).into_owned()
}

/// Calls `url::Url::parse` and returns the parsed scheme.
#[verifier::external_body]
pub(crate) fn parse_url_scheme(s: &str) -> (r: Option<String>)
    ensures
        r matches Some(x) ==> url_scheme_of(s@) == Some(x@),
        r is None <==> url_scheme_of(s@) is None,
{
    url::Url::parse(s).ok().map(|u| u.scheme().to_string())
}

/// Calls `url::Url::parse` and returns the parsed host, when there is one.
#[verifier::external_body]
pub(crate) fn parse_url_host(s: &str) -> (r: Option<String>)
    ensures
        r matches Some(x) ==> url_host_of(s@) == Some(x@),
        r is None <==> url_host_of(s@) is None,
{
    url::Url::parse(s).ok().and_then(|u| u.host_str().map(|h| h.to_string()))
}

/// Calls `url::Url::parse` and returns the URL's port or its scheme's known
/// default (`Url::port_or_known_default`).
#[verifier::external_body]
pub(crate) fn parse_url_port(s: &str) -> (r: Option<Option<u16>>)
    ensures
        r == url_port_of(s@),
{
    url::Url::parse(s).ok().map(|u| u.port_or_known_default())
}

/// Collects the characters of `s` (`str::chars`).
#[verifier::external_body]
pub(crate) fn chars_of(s: &str) -> (r: Vec<char>)
    ensures
        r@ == s@,
{
    s.chars().collect()
}

/// Builds a `String` from characters (`String: FromIterator<char>`).
#[verifier::external_body]
pub(crate) fn string_of(v: &[char]) -> (r: String)
    ensures
        r@ == v@,
{
    v.iter().collect()
}

/// Appends one character (`String::push`).
#[verifier::external_body]
pub(crate) fn push_char(s: &mut String, c: char)
    ensures
        final(s)@ == old(s)@.push(c),
{
    s.push(c)
}

/// Appends a string slice (vstd's specified string append).
pub(crate) fn push_str(s: &mut String, t: &str)
    ensures
        final(s)@ == old(s)@ + t@,
{
    s.append(t);
}

/// Matches `c` against `\d` with the `regex` crate, whose documentation gives
/// the class as Unicode `Nd`; its ASCII members are exactly `0`..`9`.
#[verifier::external_body]
pub(crate) fn is_decimal_digit(c: char) -> (r: bool)
    ensures
        r == decimal_digit(c),
        (c as u32) < 0x80 ==> (r <==> ('0' <= c && c <= '9')),
{
    let mut buf = [0u8; 4];
    regex::Regex::new(r"\A\d\z").map(|re| re.is_match(c.encode_utf8(&mut buf))).unwrap_or(false)
}

} // verus!
