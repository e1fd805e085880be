//! Layout primitives for the terminal views: display-width measurement,
//! link detection, boxed panels, asset rows and the task table.

use vstd::prelude::*;
use crate::unicode::{cw, text_cols, all_narrow, narrow_char, all_plain, plain_char, plain_width, char_width, str_width, chars_of, string_of, push_char, push_str};
use crate::textutil::{spaces, repeat, push_repeat, strs, join, join_strings, decimal, digits, u64_digits, i64_decimal, pad_right, push_padded, str_eq};
use crate::i18n::{I18n, t, translated};
use crate::wrap::{wrap_text, wrapped_text};
use crate::unicode::{url_scheme_of, parse_url_scheme};
use vstd::string::StringSliceAdditionalSpecFns;
use vstd::utf8::{is_char_boundary, valid_utf8, encode_utf8_valid_utf8, valid_utf8_split, is_char_boundary_iff_not_is_continuation_byte, is_char_boundary_start_end_of_seq};
use crate::richtext::{RichStyle, RichLine, RichSpan, SpanV, line_view, text_of};
use crate::scan::{at, at_exec, links, has_link, brackets, find_links, find_brackets, contains_link};

verus! {

/// A displayable asset extracted from a task body or its attachments.
#[derive(Debug, Clone, PartialEq)]
pub struct Asset {
    pub name: String,
    pub url: String,
}

impl Asset {
    /// A field-by-field copy.
    pub fn copy(&self) -> (r: Asset)
        ensures
            r == *self,
    {
        Asset { name: self.name.clone(), url: self.url.clone() }
    }
}

// ---------------------------------------------------------------------------
// Display-width primitives.
// ---------------------------------------------------------------------------

/// Columns of horizontal padding inside a panel border.
pub const PANEL_HPAD: usize = 1;

/// Blank rows above and below a panel's content.
pub const PANEL_VPAD: usize = 1;

/// Columns taken left of the content in a panel: the border and its padding.
pub const BODY_LEFT_CHROME_COLS: usize = 2;

pub open spec fn box_tl() -> char { '\u{250C}' }
pub open spec fn box_tr() -> char { '\u{2510}' }
pub open spec fn box_bl() -> char { '\u{2514}' }
pub open spec fn box_br() -> char { '\u{2518}' }
pub open spec fn box_h() -> char { '\u{2500}' }
pub open spec fn box_v() -> char { '\u{2502}' }
pub open spec fn ellipsis() -> char { '\u{2026}' }
pub open spec fn middot() -> char { '\u{00B7}' }

/// Terminal columns a string occupies.
pub fn display_width(s: &str) -> (r: usize)
    ensures
        r == text_cols(s@),
{
    str_width(s)
}

/// Columns of the first `k` characters, each counted on its own.
pub open spec fn cols_prefix(s: Seq<char>, k: int) -> nat
    decreases k,
{
    if k <= 0 || s.len() == 0 {
        0
    } else {
        cols_prefix(s, k - 1) + cw(s[k - 1])
    }
}

/// The characters of `s` whose first column (counting from `acc` at index `i`)
/// lies in `[start, end)`, stopping at the first character that starts at or past `end`.
pub open spec fn cols_window(s: Seq<char>, i: int, acc: nat, start: nat, end: nat) -> Seq<char>
    decreases s.len() - i,
{
    if i < 0 || i >= s.len() || acc >= end {
        Seq::empty()
    } else {
        (if acc >= start { seq![s[i]] } else { Seq::empty() }) + cols_window(s, i + 1, acc + cw(s[i]), start, end)
    }
}

/// `slice_by_display_cols`: the window `[start_col, end_col)`, with `end_col`
/// clamped to the string's width; an empty window gives the empty string.
pub open spec fn sliced(s: Seq<char>, start: nat, end: nat) -> Seq<char> {
    let e = if end <= text_cols(s) { end } else { text_cols(s) as nat };
    if start >= end || start >= e {
        Seq::empty()
    } else {
        cols_window(s, 0, 0, start, e)
    }
}

fn char_cols(c: char) -> (r: usize)
    ensures
        r == cw(c),
        r <= 3,
{
    match char_width(c) {
        Some(w) => w,
        None => 0,
    }
}

/// The substring occupying display columns `[start_col, end_col)`; a wide
/// character whose first column is inside the window is kept whole.
pub fn slice_by_display_cols(s: &str, start_col: usize, end_col: usize) -> (r: String)
    ensures
        r@ == sliced(s@, start_col as nat, end_col as nat),
{
    let mut result = String::new();
    if start_col >= end_col {
        return result;
    }
    let w = display_width(s);
    let e = if end_col <= w { end_col } else { w };
    if start_col >= e {
        return result;
    }
    let cs = chars_of(s);
    let mut acc: usize = 0;
    let ghost mut gacc: nat = 0;
    let mut i: usize = 0;
    proof {
        assert(result@ + cols_window(cs@, 0, 0, start_col as nat, e as nat) =~= cols_window(cs@, 0, 0, start_col as nat, e as nat));
    }
    while i < cs.len() && acc < e
        invariant
            i <= cs@.len(),
            cs@ == s@,
            e <= usize::MAX,
            acc as nat == (if gacc <= usize::MAX { gacc } else { usize::MAX as nat }),
            result@ + cols_window(cs@, i as int, gacc, start_col as nat, e as nat) == cols_window(cs@, 0, 0, start_col as nat, e as nat),
        decreases cs.len() - i,
    {
        let ch = cs[i];
        let c = char_cols(ch);
        let ghost before = result@;
        if acc >= start_col {
            push_char(&mut result, ch);
        }
        proof {
            let tail = cols_window(cs@, i + 1, gacc + c as nat, start_col as nat, e as nat);
            if acc >= start_col {
                assert(cols_window(cs@, i as int, gacc, start_col as nat, e as nat) == seq![ch] + tail);
                assert(result@ + tail =~= before + (seq![ch] + tail));
            } else {
                assert(cols_window(cs@, i as int, gacc, start_col as nat, e as nat) =~= tail);
            }
            gacc = gacc + c as nat;
        }
        acc = if c > usize::MAX - acc { usize::MAX } else { acc + c };
        i += 1;
    }
    proof {
        assert(cols_window(cs@, i as int, gacc, start_col as nat, e as nat) == Seq::<char>::empty());
        assert(result@ + Seq::<char>::empty() =~= result@);
    }
    result
}

/// The number of leading characters that fit in `cols` columns: stop at the
/// first character that would overflow.
pub open spec fn fit_len(s: Seq<char>, i: int, acc: nat, cols: nat) -> int
    decreases s.len() - i,
{
    if i < 0 || i >= s.len() || acc + cw(s[i]) > cols {
        i
    } else {
        fit_len(s, i + 1, acc + cw(s[i]), cols)
    }
}

pub open spec fn truncated(s: Seq<char>, cols: nat) -> Seq<char> {
    s.subrange(0, fit_len(s, 0, 0, cols))
}

pub proof fn lemma_fit_len_range(s: Seq<char>, i: int, acc: nat, cols: nat)
    requires
        0 <= i <= s.len(),
    ensures
        i <= fit_len(s, i, acc, cols) <= s.len(),
        acc + cols_prefix(s, fit_len(s, i, acc, cols)) - cols_prefix(s, i) <= cols || fit_len(s, i, acc, cols) == i,
    decreases s.len() - i,
{
    if i < s.len() && acc + cw(s[i]) <= cols {
        lemma_fit_len_range(s, i + 1, acc + cw(s[i]), cols);
    }
}

proof fn lemma_cols_prefix_take(s: Seq<char>, k: int, j: int)
    requires
        0 <= j <= k <= s.len(),
    ensures
        cols_prefix(s.subrange(0, k), j) == cols_prefix(s, j),
    decreases j,
{
    if j > 0 {
        lemma_cols_prefix_take(s, k, j - 1);
        assert(s.subrange(0, k)[j - 1] == s[j - 1]);
    }
}

/// `truncate_to_display_width` keeps a prefix of the text, and that prefix
/// fits in `cols` columns (each character counted at its own width).
pub proof fn law_truncate_fits(s: Seq<char>, cols: nat)
    ensures
        truncated(s, cols).len() <= s.len(),
        truncated(s, cols) == s.subrange(0, truncated(s, cols).len() as int),
        cols_prefix(truncated(s, cols), truncated(s, cols).len() as int) <= cols,
{
    lemma_fit_len_range(s, 0, 0, cols);
    let k = fit_len(s, 0, 0, cols);
    lemma_cols_prefix_take(s, k, k);
}

/// Walks the leading characters that fit in `cols` columns; gives their count
/// and their columns.
fn fit_prefix(cs: &Vec<char>, cols: usize) -> (r: (usize, usize))
    ensures
        r.0 as int == fit_len(cs@, 0, 0, cols as nat),
        r.1 <= cols,
{
    let mut acc: usize = 0;
    let mut i: usize = 0;
    let mut done = false;
    while i < cs.len() && !done
        invariant
            i <= cs@.len(),
            acc <= cols,
            fit_len(cs@, i as int, acc as nat, cols as nat) == fit_len(cs@, 0, 0, cols as nat),
            done ==> fit_len(cs@, i as int, acc as nat, cols as nat) == i,
        decreases cs.len() - i, if done { 0int } else { 1int },
    {
        let c = char_cols(cs[i]);
        if c > cols - acc {
            done = true;
        } else {
            acc = acc + c;
            i += 1;
        }
    }
    (i, acc)
}

/// The cumulative columns `fit_prefix` reports, as a spec.
pub open spec fn fit_cols(s: Seq<char>, i: int, acc: nat, cols: nat) -> nat
    decreases s.len() - i,
{
    if i < 0 || i >= s.len() || acc + cw(s[i]) > cols {
        acc
    } else {
        fit_cols(s, i + 1, acc + cw(s[i]), cols)
    }
}

fn fit_prefix_cols(cs: &Vec<char>, cols: usize) -> (r: (usize, usize))
    ensures
        r.0 as int == fit_len(cs@, 0, 0, cols as nat),
        r.1 as nat == fit_cols(cs@, 0, 0, cols as nat),
        r.1 <= cols,
{
    let mut acc: usize = 0;
    let mut i: usize = 0;
    let mut done = false;
    while i < cs.len() && !done
        invariant
            i <= cs@.len(),
            acc <= cols,
            fit_len(cs@, i as int, acc as nat, cols as nat) == fit_len(cs@, 0, 0, cols as nat),
            fit_cols(cs@, i as int, acc as nat, cols as nat) == fit_cols(cs@, 0, 0, cols as nat),
            done ==> fit_len(cs@, i as int, acc as nat, cols as nat) == i,
            done ==> fit_cols(cs@, i as int, acc as nat, cols as nat) == acc,
        decreases cs.len() - i, if done { 0int } else { 1int },
    {
        let c = char_cols(cs[i]);
        if c > cols - acc {
            done = true;
        } else {
            acc = acc + c;
            i += 1;
        }
    }
    (i, acc)
}

/// `truncate_to_display_width`: the leading characters that fit in `width`
/// columns (never padded).
pub fn truncate_to_display_width(s: &str, width: usize) -> (r: String)
    ensures
        r@ == truncated(s@, width as nat),
{
    let cs = chars_of(s);
    let (n, _) = fit_prefix(&cs, width);
    proof { lemma_fit_len_range(cs@, 0, 0, width as nat); }
    let mut out = String::new();
    let mut i: usize = 0;
    while i < n
        invariant
            i <= n <= cs@.len(),
            out@ == cs@.subrange(0, i as int),
        decreases n - i,
    {
        push_char(&mut out, cs[i]);
        i += 1;
        proof { assert(out@ =~= cs@.subrange(0, i as int)); }
    }
    out
}

/// `fit_to_display_width`: `s` padded with spaces to exactly `cols` columns when
/// its width is at most `cols`; otherwise its fitting prefix, padded up to `cols`.
pub open spec fn fitted(s: Seq<char>, cols: nat) -> Seq<char> {
    if text_cols(s) <= cols {
        s + spaces((cols - text_cols(s)) as nat)
    } else {
        truncated(s, cols) + spaces((cols - fit_cols(s, 0, 0, cols)) as nat)
    }
}

pub fn fit_to_display_width(s: &str, cols: usize) -> (r: String)
    ensures
        r@ == fitted(s@, cols as nat),
{
    let w = display_width(s);
    if w <= cols {
        let mut out = owned_str(s);
        push_repeat(&mut out, ' ', cols - w);
        proof { assert(repeat(' ', (cols - w) as nat) =~= spaces((cols - w) as nat)); }
        return out;
    }
    let cs = chars_of(s);
    let (n, acc) = fit_prefix_cols(&cs, cols);
    proof { lemma_fit_len_range(cs@, 0, 0, cols as nat); }
    let mut out = String::new();
    let mut i: usize = 0;
    while i < n
        invariant
            i <= n <= cs@.len(),
            out@ == cs@.subrange(0, i as int),
        decreases n - i,
    {
        push_char(&mut out, cs[i]);
        i += 1;
        proof { assert(out@ =~= cs@.subrange(0, i as int)); }
    }
    push_repeat(&mut out, ' ', cols - acc);
    proof { assert(repeat(' ', (cols - acc) as nat) =~= spaces((cols - acc) as nat)); }
    out
}

fn owned_str(s: &str) -> (r: String)
    ensures
        r@ == s@,
{
    s.to_owned()
}

pub open spec fn sat_sub(a: nat, b: nat) -> nat {
    if a >= b { (a - b) as nat } else { 0 }
}

/// Content columns of a panel `width` columns wide: the borders and the
/// padding on both sides are taken off.
pub fn panel_content_width(width: usize) -> (r: usize)
    ensures
        r as nat == sat_sub(width as nat, 4),
{
    if width >= 4 { width - 4 } else { 0 }
}

// ---------------------------------------------------------------------------
// Boxed panels.
// ---------------------------------------------------------------------------

/// An emphasis run over display columns `[start, start + len)` of a rendered line.
#[derive(Debug, Clone, Copy, PartialEq, Eq, Structural)]
pub struct StyleRun {
    pub start: usize,
    pub len: usize,
    pub style: RichStyle,
}

pub open spec fn sat_add(a: nat, b: nat) -> nat {
    if a + b <= usize::MAX { a + b } else { usize::MAX as nat }
}

/// The top-border label ` {label} ` when it fits in the panel's header room
/// (`width - 4` columns); otherwise the leading characters that fit in one
/// column less, then an ellipsis and a space; nothing when the panel is too
/// narrow for even that (4 columns). The label never pushes the top border
/// past `width` columns.
pub open spec fn fitted_header(label: Seq<char>, width: nat) -> Seq<char> {
    let inner = sat_sub(width, 2);
    let h = seq![' '] + label + seq![' '];
    let max_h = sat_sub(inner, 2);
    if text_cols(h) <= max_h {
        h
    } else if max_h >= 1 {
        truncated(h, (max_h - 1) as nat) + seq![ellipsis(), ' ']
    } else {
        Seq::empty()
    }
}

pub open spec fn top_border(label: Seq<char>, width: nat) -> Seq<char> {
    let inner = sat_sub(width, 2);
    let f = fitted_header(label, width);
    let fdw = text_cols(f) as nat;
    seq![box_tl(), box_h()] + f + repeat(box_h(), if inner > 1 + fdw { (inner - 1 - fdw) as nat } else { 0 }) + seq![box_tr()]
}

pub open spec fn blank_row(width: nat) -> Seq<char> {
    seq![box_v()] + spaces(sat_sub(width, 2)) + seq![box_v()]
}

pub open spec fn body_row(line: Seq<char>, width: nat) -> Seq<char> {
    seq![box_v(), ' '] + fitted(line, sat_sub(width, 4)) + seq![' ', box_v()]
}

pub open spec fn bottom_border(width: nat) -> Seq<char> {
    seq![box_bl()] + repeat(box_h(), sat_sub(width, 2)) + seq![box_br()]
}

/// `panel_box`: nothing below 4 columns; otherwise the top border with the
/// label, one blank row, one row per content line fitted to the content width,
/// one blank row and the bottom border.
pub open spec fn boxed(label: Seq<char>, lines: Seq<Seq<char>>, width: nat) -> Seq<Seq<char>> {
    if width < 4 {
        Seq::empty()
    } else {
        seq![top_border(label, width), blank_row(width)] + lines.map_values(|l: Seq<char>| body_row(l, width))
            + seq![blank_row(width), bottom_border(width)]
    }
}

// ---------------------------------------------------------------------------
// Every panel line is exactly `width` columns.
// ---------------------------------------------------------------------------

pub proof fn lemma_plain_concat(a: Seq<char>, b: Seq<char>)
    requires
        all_plain(a),
        all_plain(b),
    ensures
        all_plain(a + b),
        plain_width(a + b) == plain_width(a) + plain_width(b),
{
    assert forall|i: int| 0 <= i < (a + b).len() implies plain_char(#[trigger] (a + b)[i]) by {
        if i < a.len() {
            assert((a + b)[i] == a[i]);
        } else {
            assert((a + b)[i] == b[i - a.len()]);
        }
    }
    lemma_plain_width_concat(a, b);
}

pub proof fn lemma_plain_width_concat(a: Seq<char>, b: Seq<char>)
    ensures
        plain_width(a + b) == plain_width(a) + plain_width(b),
    decreases b.len(),
{
    if b.len() == 0 {
        assert(a + b =~= a);
    } else {
        lemma_plain_width_concat(a, b.drop_last());
        assert((a + b).drop_last() =~= a + b.drop_last());
        assert((a + b).last() == b.last());
    }
}

pub proof fn lemma_narrow_plain(s: Seq<char>)
    requires
        all_narrow(s),
    ensures
        all_plain(s),
        plain_width(s) == s.len(),
    decreases s.len(),
{
    assert forall|i: int| 0 <= i < s.len() implies plain_char(#[trigger] s[i]) by {
        assert(narrow_char(s[i]));
    }
    if s.len() > 0 {
        let d = s.drop_last();
        assert forall|i: int| 0 <= i < d.len() implies narrow_char(#[trigger] d[i]) by {
            assert(d[i] == s[i]);
        }
        lemma_narrow_plain(d);
        assert(narrow_char(s[s.len() - 1]));
    }
}

/// A string of plain characters is as wide as its characters' columns add up to.
pub proof fn lemma_text_cols_plain(s: Seq<char>)
    requires
        all_plain(s),
        plain_width(s) <= usize::MAX,
    ensures
        text_cols(s) == plain_width(s),
{
    if all_narrow(s) {
        lemma_narrow_plain(s);
    }
}

proof fn lemma_plain_prefix(s: Seq<char>, k: int)
    requires
        all_plain(s),
        0 <= k <= s.len(),
    ensures
        all_plain(s.subrange(0, k)),
        plain_width(s.subrange(0, k)) == cols_prefix(s, k),
    decreases k,
{
    assert forall|i: int| 0 <= i < s.subrange(0, k).len() implies plain_char(#[trigger] s.subrange(0, k)[i]) by {
        assert(s.subrange(0, k)[i] == s[i]);
    }
    if k > 0 {
        lemma_plain_prefix(s, k - 1);
        assert(s.subrange(0, k).drop_last() =~= s.subrange(0, k - 1));
        assert(s.subrange(0, k).last() == s[k - 1]);
    } else {
        assert(s.subrange(0, 0) =~= Seq::<char>::empty());
    }
}

proof fn lemma_fit_cols_prefix(s: Seq<char>, i: int, acc: nat, cols: nat)
    requires
        0 <= i <= s.len(),
        acc <= cols,
    ensures
        fit_cols(s, i, acc, cols) + cols_prefix(s, i) == acc + cols_prefix(s, fit_len(s, i, acc, cols)),
        fit_cols(s, i, acc, cols) <= cols,
    decreases s.len() - i,
{
    if i < s.len() && acc + cw(s[i]) <= cols {
        lemma_fit_cols_prefix(s, i + 1, acc + cw(s[i]), cols);
        assert(cols_prefix(s, i + 1) == cols_prefix(s, i) + cw(s[i]));
    }
}

proof fn lemma_plain_spaces(c: char, n: nat)
    requires
        narrow_char(c),
    ensures
        all_plain(repeat(c, n)),
        plain_width(repeat(c, n)) == n,
        all_plain(spaces(n)),
        plain_width(spaces(n)) == n,
{
    assert(narrow_char(' '));
    assert(all_narrow(repeat(c, n)));
    assert(all_narrow(spaces(n)));
    lemma_narrow_plain(repeat(c, n));
    lemma_narrow_plain(spaces(n));
}

/// The columns of a truncated string: the fitted count, at most `cols`.
proof fn lemma_truncated_plain(s: Seq<char>, cols: nat)
    requires
        all_plain(s),
    ensures
        all_plain(truncated(s, cols)),
        plain_width(truncated(s, cols)) == fit_cols(s, 0, 0, cols),
        fit_cols(s, 0, 0, cols) <= cols,
{
    lemma_fit_len_range(s, 0, 0, cols);
    lemma_fit_cols_prefix(s, 0, 0, cols);
    lemma_plain_prefix(s, fit_len(s, 0, 0, cols));
}

proof fn lemma_top_border_plain(label: Seq<char>, width: nat)
    requires
        4 <= width <= usize::MAX,
        all_plain(label),
        plain_width(label) + 2 <= usize::MAX,
    ensures
        all_plain(top_border(label, width)),
        plain_width(top_border(label, width)) == width,
{
    let inner = sat_sub(width, 2);
    let h = seq![' '] + label + seq![' '];
    let max_h = sat_sub(inner, 2);
    assert(narrow_char(' ') && narrow_char(box_tl()) && narrow_char(box_h()) && narrow_char(box_tr()) && narrow_char(ellipsis()));
    let sp = seq![' '];
    assert(all_narrow(sp));
    lemma_narrow_plain(sp);
    lemma_plain_concat(sp, label);
    lemma_plain_concat(sp + label, sp);
    lemma_text_cols_plain(h);
    let f = fitted_header(label, width);
    let tail2 = seq![ellipsis(), ' '];
    assert(all_narrow(tail2));
    lemma_narrow_plain(tail2);
    if text_cols(h) <= max_h {
        assert(f == h);
    } else if max_h >= 1 {
        let t = truncated(h, (max_h - 1) as nat);
        lemma_truncated_plain(h, (max_h - 1) as nat);
        lemma_plain_concat(t, tail2);
        assert(f == t + tail2);
    } else {
        assert(f =~= Seq::<char>::empty());
    }
    assert(plain_width(f) <= max_h + 1);
    lemma_text_cols_plain(f);
    let fdw = text_cols(f) as nat;
    let n: nat = if inner > 1 + fdw { (inner - 1 - fdw) as nat } else { 0 };
    lemma_plain_spaces(box_h(), n);
    let head = seq![box_tl(), box_h()];
    assert(all_narrow(head));
    lemma_narrow_plain(head);
    let end = seq![box_tr()];
    assert(all_narrow(end));
    lemma_narrow_plain(end);
    lemma_plain_concat(head, f);
    lemma_plain_concat(head + f, repeat(box_h(), n));
    lemma_plain_concat(head + f + repeat(box_h(), n), end);
}

proof fn lemma_body_row_plain(line: Seq<char>, width: nat)
    requires
        4 <= width <= usize::MAX,
        all_plain(line),
        plain_width(line) <= usize::MAX,
    ensures
        all_plain(body_row(line, width)),
        plain_width(body_row(line, width)) == width,
{
    let cols = (width - 4) as nat;
    assert(narrow_char(' ') && narrow_char(box_v()));
    lemma_text_cols_plain(line);
    let fl = fitted(line, cols);
    if plain_width(line) <= cols {
        lemma_plain_spaces(' ', (cols - plain_width(line)) as nat);
        lemma_plain_concat(line, spaces((cols - plain_width(line)) as nat));
    } else {
        let t = truncated(line, cols);
        lemma_truncated_plain(line, cols);
        lemma_plain_spaces(' ', (cols - fit_cols(line, 0, 0, cols)) as nat);
        lemma_plain_concat(t, spaces((cols - fit_cols(line, 0, 0, cols)) as nat));
    }
    assert(plain_width(fl) == cols);
    let l2 = seq![box_v(), ' '];
    let r2 = seq![' ', box_v()];
    assert(all_narrow(l2) && all_narrow(r2));
    lemma_narrow_plain(l2);
    lemma_narrow_plain(r2);
    lemma_plain_concat(l2, fl);
    lemma_plain_concat(l2 + fl, r2);
}

proof fn lemma_rule_plain(a: char, m: char, b: char, width: nat)
    requires
        4 <= width,
        narrow_char(a) && narrow_char(m) && narrow_char(b),
    ensures
        all_plain(seq![a] + repeat(m, sat_sub(width, 2)) + seq![b]),
        plain_width(seq![a] + repeat(m, sat_sub(width, 2)) + seq![b]) == width,
{
    let x = seq![a];
    let y = seq![b];
    assert(all_narrow(x) && all_narrow(y));
    lemma_narrow_plain(x);
    lemma_narrow_plain(y);
    lemma_plain_spaces(m, sat_sub(width, 2));
    lemma_plain_concat(x, repeat(m, sat_sub(width, 2)));
    lemma_plain_concat(x + repeat(m, sat_sub(width, 2)), y);
}

/// Every line of a panel at least 4 columns wide is exactly `width` columns,
/// as `display_width` counts them, when the label and the content lines are
/// made of plain characters (accented Latin, Greek, Cyrillic, kana, CJK and
/// Hangul among them); strings with emoji or joining sequences can only be
/// measured by the crate's tables.
pub proof fn law_panel_lines_exact(label: Seq<char>, lines: Seq<Seq<char>>, width: nat)
    requires
        4 <= width <= usize::MAX,
        all_plain(label),
        plain_width(label) + 2 <= usize::MAX,
        forall|k: int| 0 <= k < lines.len() ==> all_plain(#[trigger] lines[k]) && plain_width(lines[k]) <= usize::MAX,
    ensures
        forall|i: int| 0 <= i < boxed(label, lines, width).len() ==> {
            let l = #[trigger] boxed(label, lines, width)[i];
            &&& all_plain(l)
            &&& text_cols(l) == width
        },
{
    let b = boxed(label, lines, width);
    lemma_top_border_plain(label, width);
    assert(narrow_char(' ') && narrow_char(box_v()) && narrow_char(box_h()) && narrow_char(box_bl()) && narrow_char(box_br()));
    lemma_rule_plain(box_v(), ' ', box_v(), width);
    assert(blank_row(width) =~= seq![box_v()] + repeat(' ', sat_sub(width, 2)) + seq![box_v()]);
    lemma_rule_plain(box_bl(), box_h(), box_br(), width);
    let head = seq![top_border(label, width), blank_row(width)];
    let body = lines.map_values(|l: Seq<char>| body_row(l, width));
    let tail = seq![blank_row(width), bottom_border(width)];
    assert(b == head + body + tail);
    assert forall|i: int| 0 <= i < b.len() implies {
        let l = #[trigger] b[i];
        &&& all_plain(l)
        &&& text_cols(l) == width
    } by {
        if i < 2 {
            assert(b[i] == head[i]);
        } else if i < 2 + body.len() {
            assert(b[i] == body[i - 2]);
            lemma_body_row_plain(lines[i - 2], width);
        } else {
            assert(b[i] == tail[i - 2 - body.len()]);
        }
        lemma_text_cols_plain(b[i]);
    }
}

fn push_seq_chars(out: &mut String, cs: &Vec<char>, from: usize, to: usize)
    requires
        from <= to <= cs@.len(),
    ensures
        final(out)@ == old(out)@ + cs@.subrange(from as int, to as int),
{
    let mut i = from;
    while i < to
        invariant
            from <= i <= to <= cs@.len(),
            out@ == old(out)@ + cs@.subrange(from as int, i as int),
        decreases to - i,
    {
        push_char(out, cs[i]);
        i += 1;
        proof { assert(out@ =~= old(out)@ + cs@.subrange(from as int, i as int)); }
    }
}

/// The fitted top-border label and its display width.
pub fn fit_panel_header(label: &str, width: usize) -> (r: (String, usize))
    ensures
        r.0@ == fitted_header(label@, width as nat),
        r.1 == text_cols(r.0@),
{
    let inner: usize = if width >= 2 { width - 2 } else { 0 };
    let lc = chars_of(label);
    let mut hc: Vec<char> = Vec::new();
    hc.push(' ');
    let mut k: usize = 0;
    while k < lc.len()
        invariant
            k <= lc@.len(),
            hc@ == seq![' '] + lc@.subrange(0, k as int),
        decreases lc.len() - k,
    {
        hc.push(lc[k]);
        k += 1;
        proof { assert(hc@ =~= seq![' '] + lc@.subrange(0, k as int)); }
    }
    hc.push(' ');
    proof {
        assert(lc@.subrange(0, lc@.len() as int) =~= lc@);
        assert(hc@ =~= seq![' '] + label@ + seq![' ']);
    }
    let max_h: usize = if inner >= 2 { inner - 2 } else { 0 };
    let hs = string_of(hc.as_slice());
    let hw = display_width(hs.as_str());
    let mut out = String::new();
    if hw <= max_h {
        push_seq_chars(&mut out, &hc, 0, hc.len());
        proof { assert(hc@.subrange(0, hc@.len() as int) =~= hc@); }
    } else if max_h >= 1 {
        let (keep, _) = fit_prefix(&hc, max_h - 1);
        proof { lemma_fit_len_range(hc@, 0, 0, (max_h - 1) as nat); }
        push_seq_chars(&mut out, &hc, 0, keep);
        push_char(&mut out, '\u{2026}');
        push_char(&mut out, ' ');
        proof {
            assert(out@ =~= truncated(hc@, (max_h - 1) as nat) + seq![ellipsis(), ' ']);
        }
    } else {
        proof { assert(out@ =~= Seq::<char>::empty()); }
    }
    let w = display_width(out.as_str());
    (out, w)
}

/// The title run over a panel's fitted label: from column 2, as wide as the
/// label; none below 4 columns or for an empty label.
pub fn panel_title_run(label: &str, width: usize) -> (r: Option<StyleRun>)
    ensures
        width < 4 ==> r is None,
        width >= 4 ==> ({
            let fdw = text_cols(fitted_header(label@, width as nat));
            if fdw == 0 {
                r is None
            } else {
                r == Some(StyleRun { start: 2, len: fdw, style: RichStyle::PanelTitle })
            }
        }),
{
    if width < 4 {
        return None;
    }
    let (_, fdw) = fit_panel_header(label, width);
    if fdw == 0 {
        return None;
    }
    Some(StyleRun { start: 2, len: fdw, style: RichStyle::PanelTitle })
}

fn blank_row_exec(width: usize) -> (r: String)
    requires
        width >= 4,
    ensures
        r@ == blank_row(width as nat),
{
    let mut s = String::new();
    push_char(&mut s, '\u{2502}');
    push_repeat(&mut s, ' ', width - 2);
    push_char(&mut s, '\u{2502}');
    proof { assert(s@ =~= blank_row(width as nat)); }
    s
}

/// A rounded panel of exactly `width` columns per line (no lines below 4).
pub fn panel_box(label: &str, inner_lines: &[String], width: usize) -> (r: Vec<String>)
    ensures
        strs(r@) == boxed(label@, strs(inner_lines@), width as nat),
        width >= 4 && all_plain(label@) && plain_width(label@) + 2 <= usize::MAX
            && (forall|k: int| 0 <= k < inner_lines@.len() ==> all_plain(#[trigger] inner_lines@[k]@) && plain_width(inner_lines@[k]@) <= usize::MAX)
            ==> forall|i: int| 0 <= i < r@.len() ==> text_cols(#[trigger] r@[i]@) == width,
{
    let mut result: Vec<String> = Vec::new();
    if width < 4 {
        proof { assert(strs(result@) =~= boxed(label@, strs(inner_lines@), width as nat)); }
        return result;
    }
    let inner = width - 2;
    let content_width = width - 4;
    let (header, fdw) = fit_panel_header(label, width);
    let mut top = String::new();
    push_char(&mut top, '\u{250C}');
    push_char(&mut top, '\u{2500}');
    push_str(&mut top, header.as_str());
    let h_count: usize = if inner > 1 && fdw < inner - 1 { inner - 1 - fdw } else { 0 };
    push_repeat(&mut top, '\u{2500}', h_count);
    push_char(&mut top, '\u{2510}');
    proof {
        assert(top@ =~= top_border(label@, width as nat));
    }
    result.push(top);
    result.push(blank_row_exec(width));
    let mut i: usize = 0;
    while i < inner_lines.len()
        invariant
            4 <= width,
            content_width == width - 4,
            i <= inner_lines@.len(),
            result@.len() == 2 + i,
            result@[0]@ == top_border(label@, width as nat),
            result@[1]@ == blank_row(width as nat),
            forall|k: int| 2 <= k < 2 + i ==> #[trigger] result@[k]@ == body_row(inner_lines@[k - 2]@, width as nat),
        decreases inner_lines.len() - i,
    {
        let fitted_line = fit_to_display_width(inner_lines[i].as_str(), content_width);
        let mut row = String::new();
        push_char(&mut row, '\u{2502}');
        push_char(&mut row, ' ');
        push_str(&mut row, fitted_line.as_str());
        push_char(&mut row, ' ');
        push_char(&mut row, '\u{2502}');
        proof { assert(row@ =~= body_row(inner_lines@[i as int]@, width as nat)); }
        result.push(row);
        i += 1;
    }
    result.push(blank_row_exec(width));
    let mut bottom = String::new();
    push_char(&mut bottom, '\u{2514}');
    push_repeat(&mut bottom, '\u{2500}', inner);
    push_char(&mut bottom, '\u{2518}');
    proof { assert(bottom@ =~= bottom_border(width as nat)); }
    result.push(bottom);
    proof {
        let target = boxed(label@, strs(inner_lines@), width as nat);
        assert(strs(result@).len() == target.len());
        assert forall|k: int| 0 <= k < target.len() implies #[trigger] strs(result@)[k] == target[k] by {
            assert(strs(result@)[k] == result@[k]@);
        }
        assert(strs(result@) =~= target);
        if all_plain(label@) && plain_width(label@) + 2 <= usize::MAX
            && (forall|k: int| 0 <= k < inner_lines@.len() ==> all_plain(#[trigger] inner_lines@[k]@) && plain_width(inner_lines@[k]@) <= usize::MAX) {
            let ls = strs(inner_lines@);
            assert forall|k: int| 0 <= k < ls.len() implies all_plain(#[trigger] ls[k]) && plain_width(ls[k]) <= usize::MAX by {
                assert(ls[k] == inner_lines@[k]@);
            }
            law_panel_lines_exact(label@, ls, width as nat);
            assert forall|i: int| 0 <= i < result@.len() implies text_cols(#[trigger] result@[i]@) == width by {
                assert(result@[i]@ == target[i]);
            }
        }
    }
    result
}

/// The column after a run of spans (columns saturate at `usize::MAX`).
pub open spec fn col_after(l: Seq<SpanV>, chrome: nat) -> nat
    decreases l.len(),
{
    if l.len() == 0 {
        chrome
    } else {
        sat_add(col_after(l.drop_last(), chrome), text_cols(l.last().text) as nat)
    }
}

/// One run per non-plain span, positioned after the left chrome.
pub open spec fn style_runs(l: Seq<SpanV>, chrome: nat) -> Seq<StyleRun>
    decreases l.len(),
{
    if l.len() == 0 {
        Seq::empty()
    } else {
        style_runs(l.drop_last(), chrome) + if l.last().style != RichStyle::Plain {
            seq![
                StyleRun {
                    start: col_after(l.drop_last(), chrome) as usize,
                    len: text_cols(l.last().text),
                    style: l.last().style,
                },
            ]
        } else {
            Seq::empty()
        }
    }
}

/// The style runs of a content row: one per non-plain span, offset by `chrome_cols`.
pub fn rich_line_to_style_runs(spans: &RichLine, chrome_cols: usize) -> (r: Vec<StyleRun>)
    ensures
        r@ == style_runs(line_view(spans@), chrome_cols as nat),
{
    let mut runs: Vec<StyleRun> = Vec::new();
    let mut col = chrome_cols;
    let mut i: usize = 0;
    while i < spans.len()
        invariant
            i <= spans@.len(),
            col as nat == col_after(line_view(spans@).subrange(0, i as int), chrome_cols as nat),
            runs@ == style_runs(line_view(spans@).subrange(0, i as int), chrome_cols as nat),
        decreases spans.len() - i,
    {
        proof {
            let p = line_view(spans@).subrange(0, i + 1);
            assert(p.drop_last() =~= line_view(spans@).subrange(0, i as int));
            assert(p.last() == spans@[i as int]@);
        }
        let w = display_width(spans[i].text.as_str());
        if spans[i].style != RichStyle::Plain {
            runs.push(StyleRun { start: col, len: w, style: spans[i].style });
        }
        col = if w > usize::MAX - col { usize::MAX } else { col + w };
        i += 1;
        proof {
            let p = line_view(spans@).subrange(0, i as int);
            if p.last().style != RichStyle::Plain {
                assert(runs@ =~= style_runs(p, chrome_cols as nat));
            } else {
                assert(runs@ =~= style_runs(p, chrome_cols as nat));
            }
        }
    }
    proof {
        assert(line_view(spans@).subrange(0, spans@.len() as int) =~= line_view(spans@));
    }
    runs
}

/// The plain texts of a list of styled lines.
pub open spec fn plain_texts(lines: Seq<RichLine>) -> Seq<Seq<char>> {
    lines.map_values(|l: RichLine| text_of(line_view(l@)))
}

/// The plain text of a styled line.
pub fn rich_line_plain(line: &RichLine) -> (r: String)
    ensures
        r@ == text_of(line_view(line@)),
{
    let mut out = String::new();
    let mut i: usize = 0;
    while i < line.len()
        invariant
            i <= line@.len(),
            out@ == text_of(line_view(line@).subrange(0, i as int)),
        decreases line.len() - i,
    {
        proof {
            let p = line_view(line@).subrange(0, i + 1);
            assert(p.drop_last() =~= line_view(line@).subrange(0, i as int));
            assert(p.last() == line@[i as int]@);
        }
        push_str(&mut out, line[i].text.as_str());
        i += 1;
    }
    proof {
        assert(line_view(line@).subrange(0, line@.len() as int) =~= line_view(line@));
    }
    out
}

/// `panel_box_rich`: the rows of `panel_box` over the lines' plain text, each
/// paired with style runs; content rows carry the runs of their line offset by
/// the left chrome (2 columns), all other rows none.
pub open spec fn boxed_rich_runs(inner: Seq<RichLine>, width: nat, k: int) -> Seq<StyleRun> {
    if 2 <= k < 2 + inner.len() {
        style_runs(line_view(inner[k - 2]@), 2)
    } else {
        Seq::empty()
    }
}

pub fn panel_box_rich(label: &str, inner: &[RichLine], width: usize) -> (r: Vec<(String, Vec<StyleRun>)>)
    ensures
        r@.len() == boxed(label@, plain_texts(inner@), width as nat).len(),
        forall|k: int| 0 <= k < r@.len() ==> (#[trigger] r@[k]).0@ == boxed(label@, plain_texts(inner@), width as nat)[k]
            && r@[k].1@ == boxed_rich_runs(inner@, width as nat, k),
        width >= 4 && all_plain(label@) && plain_width(label@) + 2 <= usize::MAX
            && (forall|k: int| 0 <= k < inner@.len() ==> all_plain(#[trigger] plain_texts(inner@)[k]) && plain_width(plain_texts(inner@)[k]) <= usize::MAX)
            ==> forall|k: int| 0 <= k < r@.len() ==> text_cols(#[trigger] r@[k].0@) == width,
{
    let mut out: Vec<(String, Vec<StyleRun>)> = Vec::new();
    if width < 4 {
        return out;
    }
    let mut plain: Vec<String> = Vec::new();
    let mut i: usize = 0;
    while i < inner.len()
        invariant
            i <= inner@.len(),
            plain@.len() == i,
            forall|k: int| 0 <= k < i ==> #[trigger] plain@[k]@ == text_of(line_view(inner@[k]@)),
        decreases inner.len() - i,
    {
        plain.push(rich_line_plain(&inner[i]));
        i += 1;
    }
    proof {
        assert(strs(plain@) =~= plain_texts(inner@));
    }
    let boxed_lines = panel_box(label, plain.as_slice(), width);
    let ghost target = boxed(label@, plain_texts(inner@), width as nat);
    let n = boxed_lines.len();
    let mut k: usize = 0;
    while k < n
        invariant
            4 <= width,
            n == boxed_lines@.len(),
            strs(boxed_lines@) == target,
            target.len() == inner@.len() + 4,
            k <= n,
            out@.len() == k,
            forall|m: int| 0 <= m < k ==> (#[trigger] out@[m]).0@ == target[m]
                && out@[m].1@ == boxed_rich_runs(inner@, width as nat, m),
        decreases n - k,
    {
        let runs = if k >= 2 && k < 2 + inner.len() {
            rich_line_to_style_runs(&inner[k - 2], 2)
        } else {
            Vec::new()
        };
        proof {
            assert(strs(boxed_lines@)[k as int] == boxed_lines@[k as int]@);
        }
        out.push((boxed_lines[k].clone(), runs));
        k += 1;
    }
    proof {
        if all_plain(label@) && plain_width(label@) + 2 <= usize::MAX
            && (forall|m: int| 0 <= m < inner@.len() ==> all_plain(#[trigger] plain_texts(inner@)[m]) && plain_width(plain_texts(inner@)[m]) <= usize::MAX) {
            law_panel_lines_exact(label@, plain_texts(inner@), width as nat);
            assert forall|m: int| 0 <= m < out@.len() implies text_cols(#[trigger] out@[m].0@) == width by {
                assert(out@[m].0@ == target[m]);
            }
        }
    }
    out
}

/// A comment card: a panel titled `{author} · {when}` holding the body wrapped
/// to the content width (one empty row when the body wraps to nothing).
pub open spec fn comment_card(author: Seq<char>, when: Seq<char>, body: Seq<char>, width: nat) -> Seq<Seq<char>> {
    let label = author + seq![' ', middot(), ' '] + when;
    let wrapped = crate::wrap::wrapped_text(body, sat_sub(width, 4));
    boxed(label, if wrapped.len() == 0 { seq![Seq::<char>::empty()] } else { wrapped }, width)
}

pub fn comment_box(author: &str, when: &str, body: &str, width: usize) -> (r: Vec<String>)
    ensures
        strs(r@) == comment_card(author@, when@, body@, width as nat),
{
    let mut label = owned_str(author);
    push_char(&mut label, ' ');
    push_char(&mut label, '\u{00B7}');
    push_char(&mut label, ' ');
    push_str(&mut label, when);
    proof { assert(label@ =~= author@ + seq![' ', middot(), ' '] + when@); }
    let mut wrapped = crate::wrap::wrap_text(body, panel_content_width(width));
    if wrapped.len() == 0 {
        wrapped.push(String::new());
        proof { assert(strs(wrapped@) =~= seq![Seq::<char>::empty()]); }
    }
    panel_box(label.as_str(), wrapped.as_slice(), width)
}

/// `truncate_cell`: `s` unchanged when it has at most `max_width` characters;
/// otherwise its first `max_width - 1` characters and an ellipsis (empty for 0).
pub open spec fn cell_truncated(s: Seq<char>, max_width: nat) -> Seq<char> {
    if s.len() <= max_width {
        s
    } else if max_width == 0 {
        Seq::empty()
    } else {
        s.subrange(0, max_width - 1) + seq![ellipsis()]
    }
}

pub fn truncate_cell(s: &str, max_width: usize) -> (r: String)
    ensures
        r@ == cell_truncated(s@, max_width as nat),
{
    let cs = chars_of(s);
    if cs.len() <= max_width {
        return owned_str(s);
    }
    if max_width == 0 {
        return String::new();
    }
    let mut out = String::new();
    push_seq_chars(&mut out, &cs, 0, max_width - 1);
    push_char(&mut out, '\u{2026}');
    proof { assert(out@ =~= cs@.subrange(0, max_width - 1) + seq![ellipsis()]); }
    out
}

// ---------------------------------------------------------------------------
// Links inside rendered lines.
// ---------------------------------------------------------------------------

/// A piece of a rendered line, tagged by whether it is a link.
#[derive(Debug, Clone, PartialEq)]
pub struct LinkSegment {
    pub text: String,
    pub is_link: bool,
}

pub open spec fn scheme_sep() -> Seq<char> {
    seq![':', '/', '/']
}

/// `s` contains `pat` somewhere.
pub open spec fn contains_seq(s: Seq<char>, pat: Seq<char>) -> bool {
    exists|i: int| at(s, i, pat)
}

/// A web link occurs in `s`, or `s` is a bare e-mail address (has `@`, no `://`).
pub open spec fn url_or_email(s: Seq<char>) -> bool {
    has_link(s) || (s.contains('@') && !contains_seq(s, scheme_sep()))
}

pub fn contains_seq_exec(s: &Vec<char>, pat: &Vec<char>) -> (r: bool)
    ensures
        r == contains_seq(s@, pat@),
{
    let n = s.len();
    let mut i: usize = 0;
    while i < n
        invariant
            n == s@.len(),
            i <= n,
            forall|k: int| 0 <= k < i ==> !at(s@, k, pat@),
        decreases n - i,
    {
        if at_exec(s, i, pat) {
            return true;
        }
        i += 1;
    }
    if at_exec(s, n, pat) {
        return true;
    }
    proof {
        assert forall|k: int| !at(s@, k, pat@) by {
            if 0 <= k && k + pat@.len() <= s@.len() {
                assert(k <= n);
            }
        }
    }
    false
}

fn contains_char(s: &Vec<char>, c: char) -> (r: bool)
    ensures
        r == s@.contains(c),
{
    let mut i: usize = 0;
    while i < s.len()
        invariant
            i <= s@.len(),
            forall|k: int| 0 <= k < i ==> s@[k] != c,
        decreases s.len() - i,
    {
        if s[i] == c {
            return true;
        }
        i += 1;
    }
    false
}

pub fn is_url_or_email(s: &Vec<char>) -> (r: bool)
    ensures
        r == url_or_email(s@),
{
    if contains_link(s) {
        return true;
    }
    let sep: Vec<char> = vec![':', '/', '/'];
    proof { assert(sep@ =~= scheme_sep()); }
    contains_char(s, '@') && !contains_seq_exec(s, &sep)
}

/// Bracketed tokens whose inside is a link or an e-mail address, as
/// `(open, close)` positions.
pub open spec fn link_brackets(s: Seq<char>, brs: Seq<(int, int)>) -> Seq<(int, int)>
    decreases brs.len(),
{
    if brs.len() == 0 {
        Seq::empty()
    } else {
        let b = brs.last();
        link_brackets(s, brs.drop_last()) + if url_or_email(s.subrange(b.0 + 1, b.1)) {
            seq![b]
        } else {
            Seq::empty()
        }
    }
}

/// A link lies inside one of the link brackets.
pub open spec fn covered(m: (int, int), lbs: Seq<(int, int)>) -> bool {
    exists|k: int| 0 <= k < lbs.len() && lbs[k].0 <= m.0 && m.1 <= lbs[k].1 + 1
}

pub open spec fn free_links(ls: Seq<(int, int)>, lbs: Seq<(int, int)>) -> Seq<(int, int)>
    decreases ls.len(),
{
    if ls.len() == 0 {
        Seq::empty()
    } else {
        free_links(ls.drop_last(), lbs) + if covered(ls.last(), lbs) {
            Seq::empty()
        } else {
            seq![ls.last()]
        }
    }
}

/// Merge of two lists ordered by start; on equal starts the first list's entry
/// comes first (what a stable sort by start of `a + b` gives).
pub open spec fn merge_by_start(a: Seq<(int, int)>, b: Seq<(int, int)>) -> Seq<(int, int)>
    decreases a.len() + b.len(),
{
    if a.len() == 0 {
        b
    } else if b.len() == 0 {
        a
    } else if b[0].0 < a[0].0 {
        seq![b[0]] + merge_by_start(a, b.drop_first())
    } else {
        seq![a[0]] + merge_by_start(a.drop_first(), b)
    }
}

/// The link spans of a line: the inside of each link bracket, and each web
/// link not inside one, ordered by start.
pub open spec fn link_spans(s: Seq<char>) -> Seq<(int, int)> {
    let lbs = link_brackets(s, brackets(s));
    merge_by_start(
        lbs.map_values(|b: (int, int)| (b.0 + 1, b.1)),
        free_links(links(s), lbs),
    )
}

/// Segments after processing `spans`: the collected segments and the position
/// reached. A span starting before that position is skipped.
pub open spec fn seg_fold(s: Seq<char>, spans: Seq<(int, int)>) -> (Seq<(Seq<char>, bool)>, int)
    decreases spans.len(),
{
    if spans.len() == 0 {
        (Seq::empty(), 0)
    } else {
        let (segs, last) = seg_fold(s, spans.drop_last());
        let sp = spans.last();
        if sp.0 < last {
            (segs, last)
        } else {
            let gap = if sp.0 > last { seq![(s.subrange(last, sp.0), false)] } else { Seq::empty() };
            (segs + gap + seq![(s.subrange(sp.0, sp.1), true)], sp.1)
        }
    }
}

/// `link_segments`: the line cut around its link spans; plain text between and
/// after them is a non-link segment; a line without links is one segment.
pub open spec fn segmented(s: Seq<char>) -> Seq<(Seq<char>, bool)> {
    let (segs, last) = seg_fold(s, link_spans(s));
    let with_tail = if last < s.len() { segs + seq![(s.subrange(last, s.len() as int), false)] } else { segs };
    if with_tail.len() == 0 { seq![(s, false)] } else { with_tail }
}

pub open spec fn seg_views(v: Seq<LinkSegment>) -> Seq<(Seq<char>, bool)> {
    v.map_values(|x: LinkSegment| (x.text@, x.is_link))
}

pub open spec fn pairs(v: Seq<(usize, usize)>) -> Seq<(int, int)> {
    v.map_values(|p: (usize, usize)| (p.0 as int, p.1 as int))
}

pub(crate) fn sub_chars(cs: &Vec<char>, from: usize, to: usize) -> (r: Vec<char>)
    requires
        from <= to <= cs@.len(),
    ensures
        r@ == cs@.subrange(from as int, to as int),
{
    let mut out: Vec<char> = Vec::new();
    let mut i = from;
    while i < to
        invariant
            from <= i <= to <= cs@.len(),
            out@ == cs@.subrange(from as int, i as int),
        decreases to - i,
    {
        out.push(cs[i]);
        i += 1;
        proof { assert(out@ =~= cs@.subrange(from as int, i as int)); }
    }
    out
}

pub(crate) fn sub_string(cs: &Vec<char>, from: usize, to: usize) -> (r: String)
    requires
        from <= to <= cs@.len(),
    ensures
        r@ == cs@.subrange(from as int, to as int),
{
    let v = sub_chars(cs, from, to);
    string_of(v.as_slice())
}

fn link_brackets_exec(cs: &Vec<char>) -> (r: Vec<(usize, usize)>)
    ensures
        pairs(r@) == link_brackets(cs@, brackets(cs@)),
        forall|k: int| 0 <= k < r@.len() ==> (#[trigger] r@[k]).0 + 1 < r@[k].1 && r@[k].1 < cs@.len(),
{
    let brs = find_brackets(cs);
    proof { assert(pairs(brs@) =~= brackets(cs@)); }
    let mut out: Vec<(usize, usize)> = Vec::new();
    let mut i: usize = 0;
    while i < brs.len()
        invariant
            i <= brs@.len(),
            pairs(brs@) == brackets(cs@),
            forall|k: int| 0 <= k < brs@.len() ==> (#[trigger] brs@[k]).0 + 1 < brs@[k].1 && brs@[k].1 < cs@.len(),
            pairs(out@) == link_brackets(cs@, pairs(brs@).subrange(0, i as int)),
            forall|k: int| 0 <= k < out@.len() ==> (#[trigger] out@[k]).0 + 1 < out@[k].1 && out@[k].1 < cs@.len(),
        decreases brs.len() - i,
    {
        let b = brs[i];
        proof {
            let p = pairs(brs@).subrange(0, i + 1);
            assert(p.drop_last() =~= pairs(brs@).subrange(0, i as int));
            assert(p.last() == (b.0 as int, b.1 as int));
        }
        let inner = sub_chars(cs, b.0 + 1, b.1);
        let ghost before = out@;
        if is_url_or_email(&inner) {
            out.push(b);
        }
        proof { assert(pairs(out@) =~= link_brackets(cs@, pairs(brs@).subrange(0, i + 1))); }
        i += 1;
    }
    proof { assert(pairs(brs@).subrange(0, brs@.len() as int) =~= pairs(brs@)); }
    out
}

fn covered_exec(m: (usize, usize), lbs: &Vec<(usize, usize)>) -> (r: bool)
    ensures
        r == covered((m.0 as int, m.1 as int), pairs(lbs@)),
{
    let mut k: usize = 0;
    while k < lbs.len()
        invariant
            k <= lbs@.len(),
            forall|j: int| 0 <= j < k ==> !((#[trigger] pairs(lbs@)[j]).0 <= m.0 && m.1 <= pairs(lbs@)[j].1 + 1),
        decreases lbs.len() - k,
    {
        let b = lbs[k];
        if b.0 <= m.0 && (m.1 <= b.1 || (m.1 > 0 && m.1 - 1 <= b.1)) {
            proof { assert(pairs(lbs@)[k as int] == (b.0 as int, b.1 as int)); }
            return true;
        }
        proof { assert(pairs(lbs@)[k as int] == (b.0 as int, b.1 as int)); }
        k += 1;
    }
    false
}

fn merge_exec(a: &Vec<(usize, usize)>, b: &Vec<(usize, usize)>, bound: usize) -> (r: Vec<(usize, usize)>)
    requires
        forall|k: int| 0 <= k < a@.len() ==> (#[trigger] a@[k]).0 <= a@[k].1 <= bound,
        forall|k: int| 0 <= k < b@.len() ==> (#[trigger] b@[k]).0 <= b@[k].1 <= bound,
    ensures
        pairs(r@) == merge_by_start(pairs(a@), pairs(b@)),
        forall|k: int| 0 <= k < r@.len() ==> (#[trigger] r@[k]).0 <= r@[k].1 <= bound,
{
    let mut out: Vec<(usize, usize)> = Vec::new();
    let mut i: usize = 0;
    let mut j: usize = 0;
    proof {
        assert(pairs(a@).subrange(0, a@.len() as int) =~= pairs(a@));
        assert(pairs(b@).subrange(0, b@.len() as int) =~= pairs(b@));
        assert(pairs(out@) + merge_by_start(pairs(a@), pairs(b@)) =~= merge_by_start(pairs(a@), pairs(b@)));
    }
    while i < a.len() || j < b.len()
        invariant
            i <= a@.len(),
            j <= b@.len(),
            pairs(out@) + merge_by_start(pairs(a@).subrange(i as int, a@.len() as int), pairs(b@).subrange(j as int, b@.len() as int))
                == merge_by_start(pairs(a@), pairs(b@)),
            forall|k: int| 0 <= k < a@.len() ==> (#[trigger] a@[k]).0 <= a@[k].1 <= bound,
            forall|k: int| 0 <= k < b@.len() ==> (#[trigger] b@[k]).0 <= b@[k].1 <= bound,
            forall|k: int| 0 <= k < out@.len() ==> (#[trigger] out@[k]).0 <= out@[k].1 <= bound,
        decreases a@.len() - i + b@.len() - j,
    {
        let ghost ra = pairs(a@).subrange(i as int, a@.len() as int);
        let ghost rb = pairs(b@).subrange(j as int, b@.len() as int);
        let ghost before = pairs(out@);
        let take_b = if i == a.len() { true } else if j == b.len() { false } else { b[j].0 < a[i].0 };
        if take_b {
            let x = b[j];
            proof {
                assert(rb[0] == (x.0 as int, x.1 as int));
                assert(rb.drop_first() =~= pairs(b@).subrange(j + 1, b@.len() as int));
                assert(merge_by_start(ra, rb) == seq![rb[0]] + merge_by_start(ra, rb.drop_first()));
            }
            out.push(x);
            j += 1;
            proof {
                assert(pairs(out@) =~= before.push(rb[0]));
                assert(before.push(rb[0]) + merge_by_start(ra, rb.drop_first()) =~= before + (seq![rb[0]] + merge_by_start(ra, rb.drop_first())));
            }
        } else {
            let x = a[i];
            proof {
                assert(ra[0] == (x.0 as int, x.1 as int));
                assert(ra.drop_first() =~= pairs(a@).subrange(i + 1, a@.len() as int));
                assert(merge_by_start(ra, rb) == seq![ra[0]] + merge_by_start(ra.drop_first(), rb));
            }
            out.push(x);
            i += 1;
            proof {
                assert(pairs(out@) =~= before.push(ra[0]));
                assert(before.push(ra[0]) + merge_by_start(ra.drop_first(), rb) =~= before + (seq![ra[0]] + merge_by_start(ra.drop_first(), rb)));
            }
        }
    }
    proof {
        assert(pairs(a@).subrange(i as int, a@.len() as int) =~= Seq::<(int, int)>::empty());
        assert(pairs(b@).subrange(j as int, b@.len() as int) =~= Seq::<(int, int)>::empty());
        assert(pairs(out@) + Seq::<(int, int)>::empty() =~= pairs(out@));
    }
    out
}

pub(crate) fn link_spans_exec(cs: &Vec<char>) -> (r: Vec<(usize, usize)>)
    ensures
        pairs(r@) == link_spans(cs@),
        forall|k: int| 0 <= k < r@.len() ==> (#[trigger] r@[k]).0 <= r@[k].1 <= cs@.len(),
{
    let lbs = link_brackets_exec(cs);
    let mut inner: Vec<(usize, usize)> = Vec::new();
    let mut i: usize = 0;
    while i < lbs.len()
        invariant
            i <= lbs@.len(),
            forall|k: int| 0 <= k < lbs@.len() ==> (#[trigger] lbs@[k]).0 + 1 < lbs@[k].1 && lbs@[k].1 < cs@.len(),
            pairs(inner@) == pairs(lbs@).subrange(0, i as int).map_values(|b: (int, int)| (b.0 + 1, b.1)),
            forall|k: int| 0 <= k < inner@.len() ==> (#[trigger] inner@[k]).0 <= inner@[k].1 <= cs@.len(),
        decreases lbs.len() - i,
    {
        let b = lbs[i];
        let ghost before = pairs(inner@);
        inner.push((b.0 + 1, b.1));
        proof {
            assert(pairs(lbs@)[i as int] == (b.0 as int, b.1 as int));
            assert(pairs(inner@) =~= before.push((b.0 + 1, b.1 as int)));
            assert(pairs(lbs@).subrange(0, i + 1) =~= pairs(lbs@).subrange(0, i as int).push((b.0 as int, b.1 as int)));
        }
        i += 1;
        proof {
            assert(pairs(inner@) =~= pairs(lbs@).subrange(0, i as int).map_values(|b: (int, int)| (b.0 + 1, b.1)));
        }
    }
    proof { assert(pairs(lbs@).subrange(0, lbs@.len() as int) =~= pairs(lbs@)); }
    let ls = find_links(cs);
    proof { assert(pairs(ls@) =~= links(cs@)); }
    let mut free: Vec<(usize, usize)> = Vec::new();
    let mut k: usize = 0;
    while k < ls.len()
        invariant
            k <= ls@.len(),
            pairs(ls@) == links(cs@),
            forall|m: int| 0 <= m < ls@.len() ==> (#[trigger] ls@[m]).0 < ls@[m].1 <= cs@.len(),
            pairs(free@) == free_links(pairs(ls@).subrange(0, k as int), pairs(lbs@)),
            forall|m: int| 0 <= m < free@.len() ==> (#[trigger] free@[m]).0 <= free@[m].1 <= cs@.len(),
        decreases ls.len() - k,
    {
        let m = ls[k];
        proof {
            let p = pairs(ls@).subrange(0, k + 1);
            assert(p.drop_last() =~= pairs(ls@).subrange(0, k as int));
            assert(p.last() == (m.0 as int, m.1 as int));
        }
        if !covered_exec(m, &lbs) {
            free.push(m);
        }
        k += 1;
        proof {
            assert(pairs(free@) =~= free_links(pairs(ls@).subrange(0, k as int), pairs(lbs@)));
        }
    }
    proof { assert(pairs(ls@).subrange(0, ls@.len() as int) =~= pairs(ls@)); }
    let n = cs.len();
    merge_exec(&inner, &free, n)
}


/// The segments' texts put back together.
pub open spec fn seg_text(v: Seq<(Seq<char>, bool)>) -> Seq<char>
    decreases v.len(),
{
    if v.len() == 0 {
        Seq::empty()
    } else {
        seg_text(v.drop_last()) + v.last().0
    }
}

proof fn lemma_seg_text_push(v: Seq<(Seq<char>, bool)>, x: (Seq<char>, bool))
    ensures
        seg_text(v.push(x)) == seg_text(v) + x.0,
{
    assert(v.push(x).drop_last() =~= v);
}

/// A link span: a non-empty range of the line without a `]`.
pub open spec fn good_span(s: Seq<char>, sp: (int, int)) -> bool {
    &&& 0 <= sp.0 < sp.1 <= s.len()
    &&& forall|t: int| sp.0 <= t < sp.1 ==> s[t] != ']'
}

pub open spec fn all_good(s: Seq<char>, v: Seq<(int, int)>) -> bool {
    forall|i: int| 0 <= i < v.len() ==> good_span(s, #[trigger] v[i])
}

proof fn lemma_link_brackets_good(s: Seq<char>, brs: Seq<(int, int)>)
    requires
        forall|i: int| 0 <= i < brs.len() ==> {
            let b = #[trigger] brs[i];
            &&& 0 <= b.0 && b.0 + 1 < b.1 < s.len()
            &&& forall|t: int| b.0 + 1 <= t < b.1 ==> s[t] != ']'
        },
    ensures
        all_good(s, link_brackets(s, brs).map_values(|b: (int, int)| (b.0 + 1, b.1))),
    decreases brs.len(),
{
    if brs.len() > 0 {
        let d = brs.drop_last();
        assert forall|i: int| 0 <= i < d.len() implies {
            let b = #[trigger] d[i];
            &&& 0 <= b.0 && b.0 + 1 < b.1 < s.len()
            &&& forall|t: int| b.0 + 1 <= t < b.1 ==> s[t] != ']'
        } by {
            assert(d[i] == brs[i]);
        }
        lemma_link_brackets_good(s, d);
        let last = brs.last();
        assert(brs[brs.len() - 1] == last);
        let a = link_brackets(s, d);
        let extra: Seq<(int, int)> = if url_or_email(s.subrange(last.0 + 1, last.1)) { seq![last] } else { Seq::empty() };
        let m = (a + extra).map_values(|b: (int, int)| (b.0 + 1, b.1));
        let ma = a.map_values(|b: (int, int)| (b.0 + 1, b.1));
        assert forall|i: int| 0 <= i < m.len() implies good_span(s, #[trigger] m[i]) by {
            if i < a.len() {
                assert(m[i] == ma[i]);
            } else {
                assert((a + extra)[i] == last);
            }
        }
    }
}

proof fn lemma_free_links_good(s: Seq<char>, ls: Seq<(int, int)>, lbs: Seq<(int, int)>)
    requires
        all_good(s, ls),
    ensures
        all_good(s, free_links(ls, lbs)),
    decreases ls.len(),
{
    if ls.len() > 0 {
        let d = ls.drop_last();
        assert forall|i: int| 0 <= i < d.len() implies good_span(s, #[trigger] d[i]) by {
            assert(d[i] == ls[i]);
        }
        lemma_free_links_good(s, d, lbs);
        let a = free_links(d, lbs);
        let extra: Seq<(int, int)> = if covered(ls.last(), lbs) { Seq::empty() } else { seq![ls.last()] };
        assert(good_span(s, ls[ls.len() - 1]));
        assert forall|i: int| 0 <= i < (a + extra).len() implies good_span(s, #[trigger] (a + extra)[i]) by {
            if i < a.len() {
                assert((a + extra)[i] == a[i]);
            } else {
                assert((a + extra)[i] == ls.last());
            }
        }
    }
}

proof fn lemma_merge_good(s: Seq<char>, a: Seq<(int, int)>, b: Seq<(int, int)>)
    requires
        all_good(s, a),
        all_good(s, b),
    ensures
        all_good(s, merge_by_start(a, b)),
    decreases a.len() + b.len(),
{
    if a.len() > 0 && b.len() > 0 {
        if b[0].0 < a[0].0 {
            let d = b.drop_first();
            assert forall|i: int| 0 <= i < d.len() implies good_span(s, #[trigger] d[i]) by {
                assert(d[i] == b[i + 1]);
            }
            lemma_merge_good(s, a, d);
            let r = seq![b[0]] + merge_by_start(a, d);
            assert forall|i: int| 0 <= i < r.len() implies good_span(s, #[trigger] r[i]) by {
                if i > 0 {
                    assert(r[i] == merge_by_start(a, d)[i - 1]);
                }
            }
        } else {
            let d = a.drop_first();
            assert forall|i: int| 0 <= i < d.len() implies good_span(s, #[trigger] d[i]) by {
                assert(d[i] == a[i + 1]);
            }
            lemma_merge_good(s, d, b);
            let r = seq![a[0]] + merge_by_start(d, b);
            assert forall|i: int| 0 <= i < r.len() implies good_span(s, #[trigger] r[i]) by {
                if i > 0 {
                    assert(r[i] == merge_by_start(d, b)[i - 1]);
                }
            }
        }
    }
}

/// Every link segment is a non-empty text without `]`.
pub open spec fn links_clean(segs: Seq<(Seq<char>, bool)>) -> bool {
    forall|i: int| 0 <= i < segs.len() && (#[trigger] segs[i]).1 ==> segs[i].0.len() > 0 && !segs[i].0.contains(']')
}

proof fn lemma_seg_fold_clean(s: Seq<char>, spans: Seq<(int, int)>)
    requires
        all_good(s, spans),
    ensures
        links_clean(seg_fold(s, spans).0),
        0 <= seg_fold(s, spans).1 <= s.len(),
    decreases spans.len(),
{
    if spans.len() > 0 {
        let d = spans.drop_last();
        assert forall|i: int| 0 <= i < d.len() implies good_span(s, #[trigger] d[i]) by {
            assert(d[i] == spans[i]);
        }
        lemma_seg_fold_clean(s, d);
        let (segs, last) = seg_fold(s, d);
        let sp = spans.last();
        assert(good_span(s, spans[spans.len() - 1]));
        if sp.0 >= last {
            let gap: Seq<(Seq<char>, bool)> = if sp.0 > last { seq![(s.subrange(last, sp.0), false)] } else { Seq::empty() };
            let link = s.subrange(sp.0, sp.1);
            let r = segs + gap + seq![(link, true)];
            assert forall|k: int| 0 <= k < link.len() implies link[k] != ']' by {
                assert(link[k] == s[sp.0 + k]);
            }
            assert forall|i: int| 0 <= i < r.len() && (#[trigger] r[i]).1 implies r[i].0.len() > 0 && !r[i].0.contains(']') by {
                if i < segs.len() {
                    assert(r[i] == segs[i]);
                } else if i < segs.len() + gap.len() {
                    assert(r[i] == gap[i - segs.len()]);
                } else {
                    assert(r[i] == (link, true));
                }
            }
        }
    }
}

/// `link_segments` never gives an empty list, and each link segment is
/// non-empty and holds no `]`.
pub proof fn law_link_segments_shape(s: Seq<char>)
    ensures
        segmented(s).len() > 0,
        links_clean(segmented(s)),
{
    lemma_brackets_from_spans(s, 0);
    lemma_links_from_spans(s, 0);
    lemma_link_brackets_good(s, crate::scan::brackets(s));
    let lbs = link_brackets(s, crate::scan::brackets(s));
    assert(all_good(s, crate::scan::links(s)));
    lemma_free_links_good(s, crate::scan::links(s), lbs);
    lemma_merge_good(s, lbs.map_values(|b: (int, int)| (b.0 + 1, b.1)), free_links(crate::scan::links(s), lbs));
    lemma_seg_fold_clean(s, link_spans(s));
    let (segs, last) = seg_fold(s, link_spans(s));
    if last < s.len() {
        let r = segs + seq![(s.subrange(last, s.len() as int), false)];
        assert forall|i: int| 0 <= i < r.len() && (#[trigger] r[i]).1 implies r[i].0.len() > 0 && !r[i].0.contains(']') by {
            if i < segs.len() {
                assert(r[i] == segs[i]);
            }
        }
    }
}

/// Split a rendered panel line into link and non-link segments: the inside of a
/// bracketed URL or e-mail, and each bare web link, is a link segment; brackets,
/// borders and plain text are not. Put back together, the segments give the line.
pub fn link_segments(line: &str) -> (r: Vec<LinkSegment>)
    ensures
        seg_views(r@) == segmented(line@),
        seg_text(seg_views(r@)) == line@,
{
    let cs = chars_of(line);
    let spans = link_spans_exec(&cs);
    let mut segs: Vec<LinkSegment> = Vec::new();
    let mut last: usize = 0;
    let mut i: usize = 0;
    proof {
        assert(pairs(spans@).subrange(0, 0) =~= Seq::<(int, int)>::empty());
        assert(seg_views(segs@) =~= Seq::<(Seq<char>, bool)>::empty());
        assert(cs@.subrange(0, 0) =~= Seq::<char>::empty());
    }
    while i < spans.len()
        invariant
            cs@ == line@,
            i <= spans@.len(),
            pairs(spans@) == link_spans(cs@),
            forall|k: int| 0 <= k < spans@.len() ==> (#[trigger] spans@[k]).0 <= spans@[k].1 <= cs@.len(),
            seg_fold(cs@, pairs(spans@).subrange(0, i as int)) == (seg_views(segs@), last as int),
            last <= cs@.len(),
            seg_text(seg_views(segs@)) == cs@.subrange(0, last as int),
            segs@.len() == 0 ==> last == 0,
        decreases spans.len() - i,
    {
        let sp = spans[i];
        proof {
            let p = pairs(spans@).subrange(0, i + 1);
            assert(p.drop_last() =~= pairs(spans@).subrange(0, i as int));
            assert(p.last() == (sp.0 as int, sp.1 as int));
        }
        if sp.0 >= last {
            let ghost v0 = seg_views(segs@);
            let ghost gap = if sp.0 > last {
                seq![(cs@.subrange(last as int, sp.0 as int), false)]
            } else {
                Seq::<(Seq<char>, bool)>::empty()
            };
            if sp.0 > last {
                let t = sub_string(&cs, last, sp.0);
                segs.push(LinkSegment { text: t, is_link: false });
                proof {
                    assert(seg_views(segs@) =~= v0.push((cs@.subrange(last as int, sp.0 as int), false)));
                    lemma_seg_text_push(v0, (cs@.subrange(last as int, sp.0 as int), false));
                    assert(cs@.subrange(0, last as int) + cs@.subrange(last as int, sp.0 as int) =~= cs@.subrange(0, sp.0 as int));
                }
            } else {
                proof { assert(seg_views(segs@) =~= v0 + gap); }
            }
            let ghost v1 = seg_views(segs@);
            proof {
                assert(v1 =~= v0 + gap);
                assert(seg_text(v1) == cs@.subrange(0, sp.0 as int));
            }
            let t = sub_string(&cs, sp.0, sp.1);
            segs.push(LinkSegment { text: t, is_link: true });
            proof {
                assert(seg_views(segs@) =~= v1.push((cs@.subrange(sp.0 as int, sp.1 as int), true)));
                lemma_seg_text_push(v1, (cs@.subrange(sp.0 as int, sp.1 as int), true));
                assert(cs@.subrange(0, sp.0 as int) + cs@.subrange(sp.0 as int, sp.1 as int) =~= cs@.subrange(0, sp.1 as int));
                assert(seg_views(segs@) =~= v0 + gap + seq![(cs@.subrange(sp.0 as int, sp.1 as int), true)]);
            }
            last = sp.1;
        }
        i += 1;
    }
    proof { assert(pairs(spans@).subrange(0, spans@.len() as int) =~= pairs(spans@)); }
    let n = cs.len();
    let ghost v2 = seg_views(segs@);
    if last < n {
        let t = sub_string(&cs, last, n);
        segs.push(LinkSegment { text: t, is_link: false });
        proof {
            assert(seg_views(segs@) =~= v2.push((cs@.subrange(last as int, n as int), false)));
            lemma_seg_text_push(v2, (cs@.subrange(last as int, n as int), false));
            assert(cs@.subrange(0, last as int) + cs@.subrange(last as int, n as int) =~= cs@);
        }
    } else {
        proof { assert(cs@.subrange(0, last as int) =~= cs@); }
    }
    if segs.len() == 0 {
        let t = string_of(cs.as_slice());
        segs.push(LinkSegment { text: t, is_link: false });
        proof {
            assert(seg_views(segs@) =~= seq![(cs@, false)]);
            lemma_seg_text_push(Seq::empty(), (cs@, false));
            assert(seq![(cs@, false)] =~= Seq::<(Seq<char>, bool)>::empty().push((cs@, false)));
            assert(Seq::<char>::empty() + cs@ =~= cs@);
        }
    }
    segs
}

/// Columns before position `k`, counted character by character.
fn cols_upto(cs: &Vec<char>, k: usize) -> (r: usize)
    requires
        k <= cs@.len(),
        3 * cs@.len() <= usize::MAX,
    ensures
        r == cols_prefix(cs@, k as int),
        r <= 3 * k,
{
    let mut acc: usize = 0;
    let mut j: usize = 0;
    while j < k
        invariant
            j <= k <= cs@.len(),
            3 * cs@.len() <= usize::MAX,
            acc == cols_prefix(cs@, j as int),
            acc <= 3 * j,
        decreases k - j,
    {
        let c = char_cols(cs[j]);
        acc = acc + c;
        j += 1;
    }
    acc
}

/// Column `col` falls on the text between positions `from` and `to`: from the
/// columns before `from` up to that plus the width of the text.
pub open spec fn in_cols(s: Seq<char>, from: int, to: int, col: nat) -> bool {
    let st = cols_prefix(s, from);
    st <= col && col < st + text_cols(s.subrange(from, to))
}

/// The inside of the first bracketed token in `brs` that covers `col` and holds
/// a web link or an e-mail address.
pub open spec fn bracket_url_hit(s: Seq<char>, brs: Seq<(int, int)>, col: nat) -> Option<Seq<char>>
    decreases brs.len(),
{
    if brs.len() == 0 {
        None
    } else {
        let b = brs[0];
        let inner = s.subrange(b.0 + 1, b.1);
        if in_cols(s, b.0 + 1, b.1, col) && url_or_email(inner) {
            Some(inner)
        } else {
            bracket_url_hit(s, brs.drop_first(), col)
        }
    }
}

/// The first web link in `ls` that covers `col`.
pub open spec fn raw_url_hit(s: Seq<char>, ls: Seq<(int, int)>, col: nat) -> Option<Seq<char>>
    decreases ls.len(),
{
    if ls.len() == 0 {
        None
    } else {
        let l = ls[0];
        if in_cols(s, l.0, l.1, col) {
            Some(s.subrange(l.0, l.1))
        } else {
            raw_url_hit(s, ls.drop_first(), col)
        }
    }
}

/// `url_at`: a bracketed URL or e-mail under the column wins; else a bare link.
pub open spec fn url_at_col(s: Seq<char>, col: nat) -> Option<Seq<char>> {
    match bracket_url_hit(s, brackets(s), col) {
        Some(u) => Some(u),
        None => raw_url_hit(s, links(s), col),
    }
}

// ---------------------------------------------------------------------------
// What `url_at` returns never holds a closing bracket.
// ---------------------------------------------------------------------------

proof fn lemma_bracket_stop_clean(s: Seq<char>, k: int)
    requires
        0 <= k,
    ensures
        k <= crate::scan::bracket_stop(s, k),
        forall|t: int| k <= t < crate::scan::bracket_stop(s, k) ==> s[t] != '[' && s[t] != ']',
    decreases s.len() - k,
{
    if k < s.len() && s[k] != '[' && s[k] != ']' {
        lemma_bracket_stop_clean(s, k + 1);
    }
}

proof fn lemma_brackets_from_spans(s: Seq<char>, p: int)
    requires
        0 <= p,
    ensures
        forall|i: int| 0 <= i < crate::scan::brackets_from(s, p).len() ==> {
            let b = #[trigger] crate::scan::brackets_from(s, p)[i];
            &&& p <= b.0 && b.0 + 1 < b.1 < s.len()
            &&& forall|t: int| b.0 + 1 <= t < b.1 ==> s[t] != ']'
        },
    decreases s.len() - p,
{
    if p < s.len() {
        match crate::scan::bracket_at(s, p) {
            Some(j) => {
                if j > p {
                    lemma_brackets_from_spans(s, j + 1);
                    lemma_bracket_stop_clean(s, p + 1);
                    let rest = crate::scan::brackets_from(s, j + 1);
                    let all = seq![(p, j)] + rest;
                    assert(crate::scan::brackets_from(s, p) == all);
                    assert(j == crate::scan::bracket_stop(s, p + 1));
                    assert forall|i: int| 0 <= i < all.len() implies {
                        let b = #[trigger] all[i];
                        &&& p <= b.0 && b.0 + 1 < b.1 < s.len()
                        &&& forall|t: int| b.0 + 1 <= t < b.1 ==> s[t] != ']'
                    } by {
                        if i > 0 {
                            assert(all[i] == rest[i - 1]);
                        }
                    }
                } else {
                    lemma_brackets_from_spans(s, p + 1);
                    assert(crate::scan::brackets_from(s, p) == crate::scan::brackets_from(s, p + 1));
                }
            },
            None => {
                lemma_brackets_from_spans(s, p + 1);
                assert(crate::scan::brackets_from(s, p) == crate::scan::brackets_from(s, p + 1));
            },
        }
    }
}

proof fn lemma_link_run_clean(s: Seq<char>, k: int)
    requires
        0 <= k,
    ensures
        k <= crate::scan::link_run_end(s, k) <= if k <= s.len() { s.len() as int } else { k },
        forall|t: int| k <= t < crate::scan::link_run_end(s, k) ==> s[t] != ']',
    decreases s.len() - k,
{
    if k < s.len() && crate::scan::link_char(s[k]) {
        lemma_link_run_clean(s, k + 1);
    }
}

proof fn lemma_link_clean(s: Seq<char>, a: int)
    requires
        0 <= a,
        crate::scan::link_at(s, a) is Some,
    ensures
        a < crate::scan::link_at(s, a).unwrap() <= s.len(),
        forall|t: int| a <= t < crate::scan::link_at(s, a).unwrap() ==> s[t] != ']',
{
    let k = crate::scan::link_prefix_end(s, a).unwrap();
    let pat = if crate::scan::at(s, a, crate::scan::https_pat()) {
        crate::scan::https_pat()
    } else if crate::scan::at(s, a, crate::scan::http_pat()) {
        crate::scan::http_pat()
    } else {
        crate::scan::www_pat()
    };
    assert(k == a + pat.len());
    assert(s.subrange(a, k) == pat);
    lemma_link_run_clean(s, k);
    assert forall|t: int| a <= t < crate::scan::link_at(s, a).unwrap() implies s[t] != ']' by {
        if t < k {
            assert(s[t] == s.subrange(a, k)[t - a]);
            assert(pat[t - a] != ']');
        }
    }
}

proof fn lemma_links_from_spans(s: Seq<char>, p: int)
    requires
        0 <= p,
    ensures
        forall|i: int| 0 <= i < crate::scan::links_from(s, p).len() ==> {
            let l = #[trigger] crate::scan::links_from(s, p)[i];
            &&& p <= l.0 < l.1 <= s.len()
            &&& forall|t: int| l.0 <= t < l.1 ==> s[t] != ']'
        },
    decreases s.len() - p,
{
    if p < s.len() {
        match crate::scan::link_at(s, p) {
            Some(e) => {
                if e > p && e <= s.len() {
                    lemma_links_from_spans(s, e);
                    lemma_link_clean(s, p);
                    let rest = crate::scan::links_from(s, e);
                    let all = seq![(p, e)] + rest;
                    assert(crate::scan::links_from(s, p) == all);
                    assert forall|i: int| 0 <= i < all.len() implies {
                        let l = #[trigger] all[i];
                        &&& p <= l.0 < l.1 <= s.len()
                        &&& forall|t: int| l.0 <= t < l.1 ==> s[t] != ']'
                    } by {
                        if i > 0 {
                            assert(all[i] == rest[i - 1]);
                        }
                    }
                } else {
                    lemma_links_from_spans(s, p + 1);
                    assert(crate::scan::links_from(s, p) == crate::scan::links_from(s, p + 1));
                }
            },
            None => {
                lemma_links_from_spans(s, p + 1);
                assert(crate::scan::links_from(s, p) == crate::scan::links_from(s, p + 1));
            },
        }
    }
}

proof fn lemma_bracket_hit_clean(s: Seq<char>, brs: Seq<(int, int)>, col: nat)
    requires
        forall|i: int| 0 <= i < brs.len() ==> {
            let b = #[trigger] brs[i];
            &&& 0 <= b.0 < b.1 <= s.len()
            &&& forall|t: int| b.0 + 1 <= t < b.1 ==> s[t] != ']'
        },
    ensures
        bracket_url_hit(s, brs, col) matches Some(u) ==> !u.contains(']'),
    decreases brs.len(),
{
    if brs.len() > 0 {
        let b = brs[0];
        let inner = s.subrange(b.0 + 1, b.1);
        if !(in_cols(s, b.0 + 1, b.1, col) && url_or_email(inner)) {
            let rest = brs.drop_first();
            assert forall|i: int| 0 <= i < rest.len() implies {
                let c = #[trigger] rest[i];
                &&& 0 <= c.0 < c.1 <= s.len()
                &&& forall|t: int| c.0 + 1 <= t < c.1 ==> s[t] != ']'
            } by {
                assert(rest[i] == brs[i + 1]);
            }
            lemma_bracket_hit_clean(s, rest, col);
        } else {
            assert forall|k: int| 0 <= k < inner.len() implies inner[k] != ']' by {
                assert(inner[k] == s[b.0 + 1 + k]);
            }
        }
    }
}

proof fn lemma_raw_hit_clean(s: Seq<char>, ls: Seq<(int, int)>, col: nat)
    requires
        forall|i: int| 0 <= i < ls.len() ==> {
            let l = #[trigger] ls[i];
            &&& 0 <= l.0 < l.1 <= s.len()
            &&& forall|t: int| l.0 <= t < l.1 ==> s[t] != ']'
        },
    ensures
        raw_url_hit(s, ls, col) matches Some(u) ==> !u.contains(']'),
    decreases ls.len(),
{
    if ls.len() > 0 {
        let l = ls[0];
        if !in_cols(s, l.0, l.1, col) {
            let rest = ls.drop_first();
            assert forall|i: int| 0 <= i < rest.len() implies {
                let c = #[trigger] rest[i];
                &&& 0 <= c.0 < c.1 <= s.len()
                &&& forall|t: int| c.0 <= t < c.1 ==> s[t] != ']'
            } by {
                assert(rest[i] == ls[i + 1]);
            }
            lemma_raw_hit_clean(s, rest, col);
        } else {
            let u = s.subrange(l.0, l.1);
            assert forall|k: int| 0 <= k < u.len() implies u[k] != ']' by {
                assert(u[k] == s[l.0 + k]);
            }
        }
    }
}

/// The URL under a column is never the bracket itself: a bracketed token comes
/// back without its brackets, and no result holds a `]`.
pub proof fn law_url_at_has_no_closing_bracket(s: Seq<char>, col: nat)
    ensures
        url_at_col(s, col) matches Some(u) ==> !u.contains(']'),
{
    lemma_brackets_from_spans(s, 0);
    lemma_links_from_spans(s, 0);
    lemma_bracket_hit_clean(s, crate::scan::brackets(s), col);
    lemma_raw_hit_clean(s, crate::scan::links(s), col);
}

/// Whether the text between `from` and `to` covers display column `col`.
fn covers_col(cs: &Vec<char>, from: usize, to: usize, col: usize) -> (r: (bool, String))
    requires
        from <= to <= cs@.len(),
        3 * cs@.len() <= usize::MAX,
    ensures
        r.0 == in_cols(cs@, from as int, to as int, col as nat),
        r.1@ == cs@.subrange(from as int, to as int),
{
    let st = cols_upto(cs, from);
    let inner = sub_string(cs, from, to);
    let w = display_width(inner.as_str());
    (col >= st && col - st < w, inner)
}

/// The URL under display column `target_col` of a rendered body line: first a
/// bracketed token whose inside is a web link or e-mail address (returned
/// without its brackets), then a bare web link; `None` when neither covers it.
pub fn url_at(line: &str, target_col: usize) -> (r: Option<String>)
    requires
        3 * line@.len() <= usize::MAX,
    ensures
        match r {
            Some(u) => url_at_col(line@, target_col as nat) == Some(u@),
            None => url_at_col(line@, target_col as nat) is None,
        },
{
    let cs = chars_of(line);
    let brs = find_brackets(&cs);
    let ghost bs = brackets(cs@);
    let mut i: usize = 0;
    proof { assert(bs.subrange(0, bs.len() as int) =~= bs); }
    while i < brs.len()
        invariant
            cs@ == line@,
            3 * cs@.len() <= usize::MAX,
            bs == brackets(cs@),
            i <= brs@.len(),
            brs@.len() == bs.len(),
            forall|k: int| 0 <= k < brs@.len() ==> (#[trigger] brs@[k]).0 as int == bs[k].0 && brs@[k].1 as int == bs[k].1,
            forall|k: int| 0 <= k < brs@.len() ==> (#[trigger] brs@[k]).0 + 1 < brs@[k].1 && brs@[k].1 < cs@.len(),
            bracket_url_hit(cs@, bs, target_col as nat) == bracket_url_hit(cs@, bs.subrange(i as int, bs.len() as int), target_col as nat),
        decreases brs.len() - i,
    {
        let b = brs[i];
        let ghost rest = bs.subrange(i as int, bs.len() as int);
        proof {
            assert(rest[0] == (b.0 as int, b.1 as int));
            assert(rest.drop_first() =~= bs.subrange(i + 1, bs.len() as int));
        }
        let (hit, inner) = covers_col(&cs, b.0 + 1, b.1, target_col);
        if hit {
            let ic = chars_of(inner.as_str());
            if is_url_or_email(&ic) {
                return Some(inner);
            }
        }
        i += 1;
    }
    proof { assert(bs.subrange(i as int, bs.len() as int) =~= Seq::<(int, int)>::empty()); }
    let ls = find_links(&cs);
    let ghost lsv = links(cs@);
    let mut k: usize = 0;
    proof { assert(lsv.subrange(0, lsv.len() as int) =~= lsv); }
    while k < ls.len()
        invariant
            cs@ == line@,
            3 * cs@.len() <= usize::MAX,
            lsv == links(cs@),
            bracket_url_hit(cs@, brackets(cs@), target_col as nat) is None,
            k <= ls@.len(),
            ls@.len() == lsv.len(),
            forall|m: int| 0 <= m < ls@.len() ==> (#[trigger] ls@[m]).0 as int == lsv[m].0 && ls@[m].1 as int == lsv[m].1,
            forall|m: int| 0 <= m < ls@.len() ==> (#[trigger] ls@[m]).0 < ls@[m].1 <= cs@.len(),
            raw_url_hit(cs@, lsv, target_col as nat) == raw_url_hit(cs@, lsv.subrange(k as int, lsv.len() as int), target_col as nat),
        decreases ls.len() - k,
    {
        let m = ls[k];
        let ghost rest = lsv.subrange(k as int, lsv.len() as int);
        proof {
            assert(rest[0] == (m.0 as int, m.1 as int));
            assert(rest.drop_first() =~= lsv.subrange(k + 1, lsv.len() as int));
        }
        let (hit, text) = covers_col(&cs, m.0, m.1, target_col);
        if hit {
            return Some(text);
        }
        k += 1;
    }
    proof { assert(lsv.subrange(k as int, lsv.len() as int) =~= Seq::<(int, int)>::empty()); }
    None
}


// ---------------------------------------------------------------------------
// Clickable affordances and the detail layout's output.
// ---------------------------------------------------------------------------

/// What a Ctrl/Cmd+click on an affordance does.
#[derive(Debug, Clone, PartialEq)]
pub enum AffordanceKind {
    /// Edit the comment with this id.
    Edit(i64),
    /// Delete the comment with this id (after confirmation).
    Delete(i64),
    /// Open the asset at this URL; the whole row is the target.
    OpenAsset(String),
    /// Open an inline body link.
    OpenUrl(String),
}

impl AffordanceKind {
    /// A copy of the affordance kind.
    pub fn duplicate(&self) -> (r: AffordanceKind)
        ensures
            r == *self,
    {
        match self {
            AffordanceKind::Edit(id) => AffordanceKind::Edit(*id),
            AffordanceKind::Delete(id) => AffordanceKind::Delete(*id),
            AffordanceKind::OpenAsset(u) => AffordanceKind::OpenAsset(u.clone()),
            AffordanceKind::OpenUrl(u) => AffordanceKind::OpenUrl(u.clone()),
        }
    }

    /// Whether the whole row is the click target, not just the span.
    pub fn is_row_target(&self) -> (r: bool)
        ensures
            r <==> self is OpenAsset,
    {
        match self {
            AffordanceKind::OpenAsset(_) => true,
            _ => false,
        }
    }
}

/// A clickable span: a line index, the display columns `[col_start, col_end)`,
/// and what a click does.
#[derive(Debug, Clone, PartialEq)]
pub struct LocalAffordance {
    pub line_idx: usize,
    pub col_start: usize,
    pub col_end: usize,
    pub kind: AffordanceKind,
}

/// The laid-out task detail: lines, their style runs, the affordances, and the
/// line ranges of the comment cards.
#[derive(Debug, Clone)]
pub struct DetailContent {
    pub lines: Vec<String>,
    pub line_styles: Vec<Vec<StyleRun>>,
    pub affordances: Vec<LocalAffordance>,
    pub comment_spans: Vec<(usize, usize)>,
}

// ---------------------------------------------------------------------------
// Boxed lines.
// ---------------------------------------------------------------------------

/// A boxed content line `│ {content} │`: its bytes begin with the vertical
/// border (U+2502, three bytes) and a space, and end with a space and the
/// border, with at least those eight bytes (the content may be empty); both
/// cuts fall between characters, as they always do in a valid string.
pub open spec fn is_box_line(s: &str) -> bool {
    let b = s.spec_bytes();
    &&& b.len() >= 8
    &&& b.subrange(0, 4) == seq![0xE2u8, 0x94u8, 0x82u8, 0x20u8]
    &&& b.subrange(b.len() - 4, b.len() as int) == seq![0x20u8, 0xE2u8, 0x94u8, 0x82u8]
    &&& is_char_boundary(b, 4)
    &&& is_char_boundary(b, b.len() - 4)
}

/// The inside of a boxed content line `│ {content} │`: the bytes between the
/// border and padding at each end; `None` when the line is not such a line.
pub fn box_inner_content(s: &str) -> (r: Option<&str>)
    ensures
        r is Some <==> is_box_line(s),
        r matches Some(x) ==> x.spec_bytes() == s.spec_bytes().subrange(4, s.spec_bytes().len() - 4),
{
    let bytes = s.as_bytes();
    let len = bytes.len();
    let ghost b = s.spec_bytes();
    if len < 8 {
        return None;
    }
    let framed = bytes[0] == 0xE2u8 && bytes[1] == 0x94u8 && bytes[2] == 0x82u8 && bytes[3] == 0x20u8
        && bytes[len - 4] == 0x20u8 && bytes[len - 3] == 0xE2u8 && bytes[len - 2] == 0x94u8 && bytes[len - 1] == 0x82u8;
    proof {
        if framed {
            assert(b.subrange(0, 4) =~= seq![0xE2u8, 0x94u8, 0x82u8, 0x20u8]);
            assert(b.subrange(len - 4, len as int) =~= seq![0x20u8, 0xE2u8, 0x94u8, 0x82u8]);
        } else {
            if b.len() >= 8 && b.subrange(0, 4) == seq![0xE2u8, 0x94u8, 0x82u8, 0x20u8]
                && b.subrange(b.len() - 4, b.len() as int) == seq![0x20u8, 0xE2u8, 0x94u8, 0x82u8] {
                assert(b[0] == b.subrange(0, 4)[0]);
                assert(b[1] == b.subrange(0, 4)[1]);
                assert(b[2] == b.subrange(0, 4)[2]);
                assert(b[3] == b.subrange(0, 4)[3]);
                assert(b[len - 4] == b.subrange(len - 4, len as int)[0]);
                assert(b[len - 3] == b.subrange(len - 4, len as int)[1]);
                assert(b[len - 2] == b.subrange(len - 4, len as int)[2]);
                assert(b[len - 1] == b.subrange(len - 4, len as int)[3]);
            }
        }
    }
    if !framed {
        return None;
    }
    if !s.is_char_boundary(4) || !s.is_char_boundary(len - 4) {
        return None;
    }
    proof {
        encode_utf8_valid_utf8(s@);
        valid_utf8_split(b, len - 4);
    }
    let (head, _tail) = s.split_at(len - 4);
    proof {
        let p = b.subrange(0, len - 4);
        assert(head.spec_bytes() =~= p);
        if len == 8 {
            is_char_boundary_start_end_of_seq(p);
        } else {
            is_char_boundary_iff_not_is_continuation_byte(b, 4);
            is_char_boundary_iff_not_is_continuation_byte(p, 4);
            assert(p[4] == b[4]);
        }
    }
    let (_border, inner) = head.split_at(4);
    proof {
        assert(inner.spec_bytes() =~= b.subrange(4, len - 4));
    }
    Some(inner)
}

/// Same as `box_inner_content`, for callers outside the layout code.
pub fn box_inner_content_pub(s: &str) -> (r: Option<&str>)
    ensures
        r is Some <==> is_box_line(s),
        r matches Some(x) ==> x.spec_bytes() == s.spec_bytes().subrange(4, s.spec_bytes().len() - 4),
{
    box_inner_content(s)
}

// ---------------------------------------------------------------------------
// Assets.
// ---------------------------------------------------------------------------

pub open spec fn ascii_alpha(c: char) -> bool {
    ('a' <= c && c <= 'z') || ('A' <= c && c <= 'Z')
}

/// A name that looks like a downloadable file: non-empty, at most 48
/// characters, no `?`, `=` or `&`, and ending in a dot followed by two to six
/// ASCII letters.
pub open spec fn filename_like(s: Seq<char>) -> bool {
    &&& 0 < s.len() <= 48
    &&& !s.contains('?') && !s.contains('=') && !s.contains('&')
    &&& exists|d: int|
        #![trigger s[d]]
        0 <= d < s.len() && s[d] == '.' && 2 <= s.len() - d - 1 <= 6 && (forall|j: int|
            d < j < s.len() ==> ascii_alpha(#[trigger] s[j]))
}

fn is_ascii_alpha(c: char) -> (r: bool)
    ensures
        r == ascii_alpha(c),
{
    ('a' <= c && c <= 'z') || ('A' <= c && c <= 'Z')
}

fn has_char(cs: &Vec<char>, c: char) -> (r: bool)
    ensures
        r == cs@.contains(c),
{
    let mut i: usize = 0;
    while i < cs.len()
        invariant
            i <= cs@.len(),
            forall|k: int| 0 <= k < i ==> cs@[k] != c,
        decreases cs.len() - i,
    {
        if cs[i] == c {
            return true;
        }
        i += 1;
    }
    false
}

/// Whether `name` looks like a real downloadable file name.
pub fn looks_like_filename(name: &str) -> (r: bool)
    ensures
        r == filename_like(name@),
{
    let cs = chars_of(name);
    let n = cs.len();
    if n == 0 || n > 48 {
        return false;
    }
    if has_char(&cs, '?') || has_char(&cs, '=') || has_char(&cs, '&') {
        return false;
    }
    // Length of the trailing run of ASCII letters.
    let mut k: usize = 0;
    while k < n && is_ascii_alpha(cs[n - 1 - k])
        invariant
            n == cs@.len(),
            k <= n,
            forall|j: int| n - k <= j < n ==> ascii_alpha(#[trigger] cs@[j]),
        decreases n - k,
    {
        k += 1;
    }
    let r = k < n && cs[n - 1 - k] == '.' && 2 <= k && k <= 6;
    proof {
        let s = cs@;
        if r {
            let d = n - 1 - k;
            assert(s[d] == '.');
        } else {
            assert forall|d: int|
                0 <= d < s.len() && #[trigger] s[d] == '.' && 2 <= s.len() - d - 1 <= 6 implies !(forall|j: int|
                d < j < s.len() ==> ascii_alpha(#[trigger] s[j])) by {
                if forall|j: int| d < j < s.len() ==> ascii_alpha(#[trigger] s[j]) {
                    assert(!ascii_alpha(s[d]));
                    if d < n - 1 - k {
                        assert(k < n);
                        assert(ascii_alpha(s[n - 1 - k]));
                    } else if d > n - 1 - k {
                        assert(ascii_alpha(s[d]));
                    }
                }
            }
        }
    }
    r
}

pub open spec fn open_link_key() -> Seq<char> {
    seq!['O', 'p', 'e', 'n', ' ', 'l', 'i', 'n', 'k']
}

pub open spec fn arrow_gap() -> Seq<char> {
    seq![']', ' ', '\u{2197}', ' ']
}

/// The label an asset is shown under: its name, or the translated "Open link".
pub open spec fn asset_label(name: Seq<char>, lang: Seq<char>, entries: Seq<(String, String)>) -> Seq<char> {
    if name.len() == 0 { translated(lang, entries, open_link_key()) } else { name }
}

/// The fixed part in front of an asset's label: `[{index}] ↗ `.
pub open spec fn asset_prefix(index: nat) -> Seq<char> {
    seq!['['] + digits(index) + arrow_gap()
}

pub(crate) fn asset_prefix_exec(index: usize) -> (r: String)
    ensures
        r@ == asset_prefix(index as nat),
{
    let mut out = String::new();
    push_char(&mut out, '[');
    let d = u64_digits(index as u64);
    push_str(&mut out, d.as_str());
    push_char(&mut out, ']');
    push_char(&mut out, ' ');
    push_char(&mut out, '\u{2197}');
    push_char(&mut out, ' ');
    proof { assert(out@ =~= asset_prefix(index as nat)); }
    out
}

fn open_link_string() -> (r: String)
    ensures
        r@ == open_link_key(),
{
    let v: Vec<char> = vec!['O', 'p', 'e', 'n', ' ', 'l', 'i', 'n', 'k'];
    proof { assert(v@ =~= open_link_key()); }
    string_of(v.as_slice())
}

fn asset_label_exec(asset: &Asset, i18n: &I18n) -> (r: String)
    ensures
        r@ == asset_label(asset.name@, i18n.language@, i18n.catalog.entries@),
{
    if asset.name.as_str().is_empty() {
        let k = open_link_string();
        t(i18n, k.as_str())
    } else {
        asset.name.clone()
    }
}

/// The Artifacts panel line of one asset: `[{index}] ↗ {label}`.
pub fn asset_link_line(index: usize, asset: &Asset, i18n: &I18n) -> (r: String)
    ensures
        r@ == asset_prefix(index as nat) + asset_label(asset.name@, i18n.language@, i18n.catalog.entries@),
{
    let mut out = asset_prefix_exec(index);
    let label = asset_label_exec(asset, i18n);
    push_str(&mut out, label.as_str());
    out
}

/// An asset row wrapped to `width` columns: the label wraps under itself, the
/// continuation lines indented by the prefix's width.
pub open spec fn asset_row(prefix: Seq<char>, label: Seq<char>, width: nat) -> Seq<Seq<char>> {
    let pw = text_cols(prefix) as nat;
    if width == 0 || pw >= width {
        seq![prefix + label]
    } else {
        let ls = wrapped_text(label, (width - pw) as nat);
        if ls.len() == 0 {
            seq![prefix]
        } else {
            Seq::new(ls.len(), |i: int| if i == 0 { prefix + ls[0] } else { spaces(pw) + ls[i] })
        }
    }
}

pub fn format_asset_row(prefix: &str, label: &str, width: usize) -> (r: Vec<String>)
    ensures
        strs(r@) == asset_row(prefix@, label@, width as nat),
{
    let pw = display_width(prefix);
    if width == 0 || pw >= width {
        let mut one = owned_str(prefix);
        push_str(&mut one, label);
        let v = vec![one];
        proof { assert(strs(v@) =~= asset_row(prefix@, label@, width as nat)); }
        return v;
    }
    let ls = wrap_text(label, width - pw);
    let mut out: Vec<String> = Vec::new();
    if ls.len() == 0 {
        out.push(owned_str(prefix));
        proof { assert(strs(out@) =~= asset_row(prefix@, label@, width as nat)); }
        return out;
    }
    let ghost want = asset_row(prefix@, label@, width as nat);
    let mut i: usize = 0;
    while i < ls.len()
        invariant
            i <= ls@.len(),
            pw == text_cols(prefix@),
            0 < width,
            pw < width,
            strs(ls@) == wrapped_text(label@, (width - pw) as nat),
            ls@.len() > 0,
            want == asset_row(prefix@, label@, width as nat),
            want.len() == ls@.len(),
            strs(out@) == want.subrange(0, i as int),
        decreases ls.len() - i,
    {
        let mut line = if i == 0 { owned_str(prefix) } else {
            let mut p = String::new();
            push_repeat(&mut p, ' ', pw);
            p
        };
        push_str(&mut line, ls[i].as_str());
        let ghost before = strs(out@);
        proof {
            assert(strs(ls@)[i as int] == ls@[i as int]@);
            if i > 0 {
                assert(repeat(' ', pw as nat) =~= spaces(pw as nat));
            }
            assert(line@ == want[i as int]);
        }
        out.push(line);
        proof {
            assert(strs(out@) =~= before.push(want[i as int]));
            assert(want.subrange(0, i + 1) =~= want.subrange(0, i as int).push(want[i as int]));
        }
        i += 1;
    }
    proof { assert(want.subrange(0, ls@.len() as int) =~= want); }
    out
}

/// An asset row for the Artifacts panel: one line when it fits in `width`
/// (or `width` is zero), else the label wrapped under the `[{index}] ↗ ` prefix.
pub fn asset_row_lines(index: usize, asset: &Asset, width: usize, i18n: &I18n) -> (r: Vec<String>)
    ensures
        ({
            let full = asset_prefix(index as nat) + asset_label(asset.name@, i18n.language@, i18n.catalog.entries@);
            strs(r@) == if width == 0 || text_cols(full) <= width {
                seq![full]
            } else {
                asset_row(asset_prefix(index as nat), asset_label(asset.name@, i18n.language@, i18n.catalog.entries@), width as nat)
            }
        }),
{
    let full = asset_link_line(index, asset, i18n);
    if width == 0 || display_width(full.as_str()) <= width {
        let v = vec![full];
        proof { assert(strs(v@) =~= seq![v@[0]@]); }
        return v;
    }
    let prefix = asset_prefix_exec(index);
    let label = asset_label_exec(asset, i18n);
    format_asset_row(prefix.as_str(), label.as_str(), width)
}

/// A URL the browser may be asked to open: non-empty, and parsed with the
/// `http` or `https` scheme.
pub open spec fn openable(u: Seq<char>) -> bool {
    u.len() > 0 && match url_scheme_of(u) {
        Some(sc) => sc == seq!['h', 't', 't', 'p'] || sc == seq!['h', 't', 't', 'p', 's'],
        None => false,
    }
}

/// Whether `url` may be opened in the browser: only `http` and `https` URLs.
pub fn is_openable_url(url: &str) -> (r: bool)
    ensures
        r == openable(url@),
{
    if url.is_empty() {
        return false;
    }
    match parse_url_scheme(url) {
        Some(sc) => {
            let c = chars_of(sc.as_str());
            let http: Vec<char> = vec!['h', 't', 't', 'p'];
            let https: Vec<char> = vec!['h', 't', 't', 'p', 's'];
            proof {
                assert(http@ =~= seq!['h', 't', 't', 'p']);
                assert(https@ =~= seq!['h', 't', 't', 'p', 's']);
            }
            crate::textutil::chars_eq(&c, &http) || crate::textutil::chars_eq(&c, &https)
        },
        None => false,
    }
}

// ---------------------------------------------------------------------------
// The task table.
// ---------------------------------------------------------------------------

/// One row of the `mine` table.
#[derive(Debug, Clone)]
pub struct MineTableRow {
    pub instance: String,
    pub project_id: i64,
    pub task_number: i64,
    pub task_id: i64,
    pub name: String,
    pub due_on: Option<String>,
    pub project_name: Option<String>,
}

/// A table line: four left-aligned columns of 15, 10, 8 and 10 characters,
/// then the last field, separated by single spaces.
pub open spec fn table_line(a: Seq<char>, b: Seq<char>, c: Seq<char>, d: Seq<char>, e: Seq<char>) -> Seq<char> {
    pad_right(a, 15) + seq![' '] + pad_right(b, 10) + seq![' '] + pad_right(c, 8) + seq![' '] + pad_right(d, 10) + seq![' '] + e
}

pub open spec fn mine_row_line(r: MineTableRow) -> Seq<char> {
    table_line(r.instance@, decimal(r.project_id as int), decimal(r.task_number as int), decimal(r.task_id as int), r.name@)
}

pub open spec fn header_keys() -> Seq<Seq<char>> {
    seq![
        seq!['I', 'N', 'S', 'T', 'A', 'N', 'C', 'E'],
        seq!['P', 'R', 'O', 'J', 'E', 'C', 'T'],
        seq!['T', 'A', 'S', 'K', '#'],
        seq!['T', 'A', 'S', 'K', '_', 'I', 'D'],
        seq!['N', 'A', 'M', 'E'],
    ]
}

/// The rendered table: the translated header, eighty dashes, one line per row,
/// joined by line feeds.
pub open spec fn mine_table(lang: Seq<char>, entries: Seq<(String, String)>, rows: Seq<MineTableRow>) -> Seq<char> {
    let h = header_keys().map_values(|k: Seq<char>| translated(lang, entries, k));
    join(seq![table_line(h[0], h[1], h[2], h[3], h[4]), repeat('-', 80)] + rows.map_values(|r: MineTableRow| mine_row_line(r)), seq!['\n'])
}

proof fn lemma_split_append_plain(a: Seq<char>, b: Seq<char>)
    requires
        !b.contains('\n'),
    ensures
        split_lines(a + b) == split_lines(a).update(split_lines(a).len() - 1, split_lines(a).last() + b),
        split_lines(a).len() >= 1,
    decreases b.len(),
{
    lemma_split_lines_nonempty(a);
    if b.len() == 0 {
        assert(a + b =~= a);
        assert(split_lines(a).last() + b =~= split_lines(a).last());
        assert(split_lines(a).update(split_lines(a).len() - 1, split_lines(a).last()) =~= split_lines(a));
    } else {
        let b0 = b.drop_last();
        assert(!b0.contains('\n')) by {
            if b0.contains('\n') {
                let i = choose|i: int| 0 <= i < b0.len() && b0[i] == '\n';
                assert(b[i] == '\n');
            }
        }
        lemma_split_append_plain(a, b0);
        assert((a + b).drop_last() =~= a + b0);
        assert((a + b).last() == b.last());
        assert(b.last() != '\n') by {
            if b.last() == '\n' { assert(b[b.len() - 1] == '\n'); }
        }
        let sa = split_lines(a);
        let s0 = split_lines(a + b0);
        lemma_split_lines_nonempty(a + b0);
        assert(s0.last() == sa.last() + b0);
        assert(s0.last().push(b.last()) =~= sa.last() + b);
        assert(s0.update(s0.len() - 1, s0.last().push(b.last())) =~= sa.update(sa.len() - 1, sa.last() + b));
    }
}

/// Appending text keeps every line of `p` but its last.
pub proof fn lemma_split_prefix(p: Seq<char>, y: Seq<char>)
    ensures
        split_lines(p + y).len() >= split_lines(p).len(),
        forall|i: int| 0 <= i < split_lines(p).len() - 1 ==> #[trigger] split_lines(p + y)[i] == split_lines(p)[i],
    decreases y.len(),
{
    lemma_split_lines_nonempty(p);
    if y.len() == 0 {
        assert(p + y =~= p);
    } else {
        let y0 = y.drop_last();
        lemma_split_prefix(p, y0);
        assert((p + y).drop_last() =~= p + y0);
        assert((p + y).last() == y.last());
        lemma_split_lines_nonempty(p + y0);
    }
}

/// Lines joined by line feeds split back into those lines, up to the first
/// that holds a line feed itself.
pub proof fn lemma_split_join_prefix(ls: Seq<Seq<char>>, k: int)
    requires
        0 <= k < ls.len(),
        forall|i: int| 0 <= i <= k ==> !(#[trigger] ls[i]).contains('\n'),
    ensures
        split_lines(join(ls, seq!['\n'])).len() >= k + 1,
        forall|i: int| 0 <= i <= k ==> #[trigger] split_lines(join(ls, seq!['\n']))[i] == ls[i],
    decreases ls.len(),
{
    if ls.len() == k + 1 {
        lemma_split_join(ls);
    } else {
        let d = ls.drop_last();
        assert forall|i: int| 0 <= i <= k implies !(#[trigger] d[i]).contains('\n') by {
            assert(d[i] == ls[i]);
        }
        lemma_split_join_prefix(d, k);
        let j = join(d, seq!['\n']);
        let jn = j + seq!['\n'];
        assert(jn.drop_last() =~= j);
        lemma_split_lines_nonempty(j);
        assert(split_lines(jn) == split_lines(j).push(Seq::empty()));
        assert(join(ls, seq!['\n']) == jn + ls.last());
        lemma_split_prefix(jn, ls.last());
        assert forall|i: int| 0 <= i <= k implies #[trigger] split_lines(join(ls, seq!['\n']))[i] == ls[i] by {
            assert(split_lines(jn)[i] == split_lines(j)[i]);
            assert(d[i] == ls[i]);
        }
    }
}

proof fn lemma_split_join(ls: Seq<Seq<char>>)
    requires
        ls.len() >= 1,
        forall|i: int| 0 <= i < ls.len() ==> !(#[trigger] ls[i]).contains('\n'),
    ensures
        split_lines(join(ls, seq!['\n'])) == ls,
    decreases ls.len(),
{
    if ls.len() == 1 {
        lemma_split_append_plain(Seq::empty(), ls[0]);
        assert(Seq::<char>::empty() + ls[0] =~= ls[0]);
        assert(split_lines(Seq::<char>::empty()) == seq![Seq::<char>::empty()]);
        assert(seq![Seq::<char>::empty()].update(0, Seq::<char>::empty() + ls[0]) =~= ls);
    } else {
        let d = ls.drop_last();
        assert forall|i: int| 0 <= i < d.len() implies !(#[trigger] d[i]).contains('\n') by {
            assert(d[i] == ls[i]);
        }
        lemma_split_join(d);
        let j = join(d, seq!['\n']);
        let jn = j + seq!['\n'];
        assert(jn.drop_last() =~= j);
        assert(split_lines(jn) == d.push(Seq::empty()));
        assert(!ls[ls.len() - 1].contains('\n'));
        lemma_split_append_plain(jn, ls.last());
        assert(join(ls, seq!['\n']) == jn + ls.last());
        assert(d.push(Seq::<char>::empty()).update(d.len() as int, Seq::<char>::empty() + ls.last()) =~= ls);
    }
}

proof fn lemma_no_nl_concat(a: Seq<char>, b: Seq<char>)
    requires
        !a.contains('\n'),
        !b.contains('\n'),
    ensures
        !(a + b).contains('\n'),
{
    if (a + b).contains('\n') {
        let i = choose|i: int| 0 <= i < (a + b).len() && (a + b)[i] == '\n';
        if i < a.len() {
            assert(a[i] == '\n');
        } else {
            assert(b[i - a.len()] == '\n');
        }
    }
}

proof fn lemma_no_nl_pad(s: Seq<char>, n: nat)
    requires
        !s.contains('\n'),
    ensures
        !pad_right(s, n).contains('\n'),
{
    if s.len() < n {
        let sp = spaces((n - s.len()) as nat);
        assert(!sp.contains('\n')) by {
            if sp.contains('\n') {
                let i = choose|i: int| 0 <= i < sp.len() && sp[i] == '\n';
                assert(sp[i] == ' ');
            }
        }
        lemma_no_nl_concat(s, sp);
    }
}

proof fn lemma_no_nl_decimal(n: int)
    ensures
        !decimal(n).contains('\n'),
{
    let m: nat = if n < 0 { (-n) as nat } else { n as nat };
    crate::downloads::lemma_digits_chars(m);
    let d = digits(m);
    assert(!d.contains('\n')) by {
        if d.contains('\n') {
            let i = choose|i: int| 0 <= i < d.len() && d[i] == '\n';
            assert(48 <= d[i] as int);
        }
    }
    if n < 0 {
        assert(!seq!['-'].contains('\n')) by {
            if seq!['-'].contains('\n') {
                let i = choose|i: int| 0 <= i < 1 && seq!['-'][i] == '\n';
            }
        }
        lemma_no_nl_concat(seq!['-'], d);
    }
}

proof fn lemma_no_nl_table_line(a: Seq<char>, b: Seq<char>, c: Seq<char>, d: Seq<char>, e: Seq<char>)
    requires
        !a.contains('\n'),
        !b.contains('\n'),
        !c.contains('\n'),
        !d.contains('\n'),
        !e.contains('\n'),
    ensures
        !table_line(a, b, c, d, e).contains('\n'),
{
    let sp = seq![' '];
    assert(!sp.contains('\n')) by {
        if sp.contains('\n') {
            let i = choose|i: int| 0 <= i < 1 && sp[i] == '\n';
        }
    }
    lemma_no_nl_pad(a, 15);
    lemma_no_nl_pad(b, 10);
    lemma_no_nl_pad(c, 8);
    lemma_no_nl_pad(d, 10);
    let x1 = pad_right(a, 15) + sp;
    lemma_no_nl_concat(pad_right(a, 15), sp);
    lemma_no_nl_concat(x1, pad_right(b, 10));
    let x2 = x1 + pad_right(b, 10);
    lemma_no_nl_concat(x2, sp);
    let x3 = x2 + sp;
    lemma_no_nl_concat(x3, pad_right(c, 8));
    let x4 = x3 + pad_right(c, 8);
    lemma_no_nl_concat(x4, sp);
    let x5 = x4 + sp;
    lemma_no_nl_concat(x5, pad_right(d, 10));
    let x6 = x5 + pad_right(d, 10);
    lemma_no_nl_concat(x6, sp);
    let x7 = x6 + sp;
    lemma_no_nl_concat(x7, e);
}

/// With no line feed in the header texts or in any row's instance or name, the
/// `mine` table splits at its line feeds into exactly the header line, the
/// eighty-dash rule and one line per row, in order.
pub proof fn law_mine_table_lines(lang: Seq<char>, entries: Seq<(String, String)>, rows: Seq<MineTableRow>)
    requires
        forall|k: int| 0 <= k < 5 ==> !translated(lang, entries, #[trigger] header_keys()[k]).contains('\n'),
        forall|i: int| 0 <= i < rows.len() ==> !(#[trigger] rows[i]).instance@.contains('\n') && !rows[i].name@.contains('\n'),
    ensures
        split_lines(mine_table(lang, entries, rows)).len() == rows.len() + 2,
        split_lines(mine_table(lang, entries, rows)) == seq![
            {
                let h = header_keys().map_values(|k: Seq<char>| translated(lang, entries, k));
                table_line(h[0], h[1], h[2], h[3], h[4])
            },
            repeat('-', 80),
        ] + rows.map_values(|r: MineTableRow| mine_row_line(r)),
{
    let h = header_keys().map_values(|k: Seq<char>| translated(lang, entries, k));
    assert(!translated(lang, entries, header_keys()[0]).contains('\n'));
    assert(!translated(lang, entries, header_keys()[1]).contains('\n'));
    assert(!translated(lang, entries, header_keys()[2]).contains('\n'));
    assert(!translated(lang, entries, header_keys()[3]).contains('\n'));
    assert(!translated(lang, entries, header_keys()[4]).contains('\n'));
    lemma_no_nl_table_line(h[0], h[1], h[2], h[3], h[4]);
    let dash = repeat('-', 80);
    assert(!dash.contains('\n')) by {
        if dash.contains('\n') {
            let i = choose|i: int| 0 <= i < dash.len() && dash[i] == '\n';
            assert(dash[i] == '-');
        }
    }
    let body = rows.map_values(|r: MineTableRow| mine_row_line(r));
    let ls = seq![table_line(h[0], h[1], h[2], h[3], h[4]), dash] + body;
    assert forall|i: int| 0 <= i < ls.len() implies !(#[trigger] ls[i]).contains('\n') by {
        if i >= 2 {
            let r = rows[i - 2];
            assert(ls[i] == mine_row_line(r));
            lemma_no_nl_decimal(r.project_id as int);
            lemma_no_nl_decimal(r.task_number as int);
            lemma_no_nl_decimal(r.task_id as int);
            assert(!rows[i - 2].instance@.contains('\n'));
            lemma_no_nl_table_line(r.instance@, decimal(r.project_id as int), decimal(r.task_number as int), decimal(r.task_id as int), r.name@);
        }
    }
    lemma_split_join(ls);
}

/// Each row of the table is a line of its own showing, in this order, the
/// instance padded to 15 columns, the project id padded to 10, the task
/// number padded to 8, the task id padded to 10 (each followed by a space),
/// then the name.
pub proof fn law_mine_table_row_fields(lang: Seq<char>, entries: Seq<(String, String)>, rows: Seq<MineTableRow>)
    requires
        forall|k: int| 0 <= k < 5 ==> !translated(lang, entries, #[trigger] header_keys()[k]).contains('\n'),
        forall|i: int| 0 <= i < rows.len() ==> !(#[trigger] rows[i]).instance@.contains('\n') && !rows[i].name@.contains('\n'),
    ensures
        forall|i: int| 0 <= i < rows.len() ==> #[trigger] split_lines(mine_table(lang, entries, rows))[i + 2]
            == pad_right(rows[i].instance@, 15) + seq![' ']
                + pad_right(decimal(rows[i].project_id as int), 10) + seq![' ']
                + pad_right(decimal(rows[i].task_number as int), 8) + seq![' ']
                + pad_right(decimal(rows[i].task_id as int), 10) + seq![' ']
                + rows[i].name@,
{
    law_mine_table_lines(lang, entries, rows);
}

fn table_line_exec(a: &str, b: &str, c: &str, d: &str, e: &str) -> (r: String)
    ensures
        r@ == table_line(a@, b@, c@, d@, e@),
{
    let mut out = String::new();
    push_padded(&mut out, a, 15);
    push_char(&mut out, ' ');
    push_padded(&mut out, b, 10);
    push_char(&mut out, ' ');
    push_padded(&mut out, c, 8);
    push_char(&mut out, ' ');
    push_padded(&mut out, d, 10);
    push_char(&mut out, ' ');
    push_str(&mut out, e);
    proof { assert(out@ =~= table_line(a@, b@, c@, d@, e@)); }
    out
}

fn key_string(k: &[char]) -> (r: String)
    ensures
        r@ == k@,
{
    string_of(k)
}

/// The `mine` table: header, separator and one line per row.
pub fn render_mine_table(rows: &[MineTableRow], i18n: &I18n) -> (r: String)
    ensures
        r@ == mine_table(i18n.language@, i18n.catalog.entries@, rows@),
{
    let ghost lang = i18n.language@;
    let ghost entries = i18n.catalog.entries@;
    let k0 = key_string(&['I', 'N', 'S', 'T', 'A', 'N', 'C', 'E']);
    let k1 = key_string(&['P', 'R', 'O', 'J', 'E', 'C', 'T']);
    let k2 = key_string(&['T', 'A', 'S', 'K', '#']);
    let k3 = key_string(&['T', 'A', 'S', 'K', '_', 'I', 'D']);
    let k4 = key_string(&['N', 'A', 'M', 'E']);
    let h0 = t(i18n, k0.as_str());
    let h1 = t(i18n, k1.as_str());
    let h2 = t(i18n, k2.as_str());
    let h3 = t(i18n, k3.as_str());
    let h4 = t(i18n, k4.as_str());
    let header = table_line_exec(h0.as_str(), h1.as_str(), h2.as_str(), h3.as_str(), h4.as_str());
    let mut sep = String::new();
    push_repeat(&mut sep, '-', 80);
    let mut lines: Vec<String> = vec![header, sep];
    let ghost h = header_keys().map_values(|k: Seq<char>| translated(lang, entries, k));
    let ghost want = seq![table_line(h[0], h[1], h[2], h[3], h[4]), repeat('-', 80)] + rows@.map_values(|r: MineTableRow| mine_row_line(r));
    proof {
        assert(k0@ =~= header_keys()[0]);
        assert(k1@ =~= header_keys()[1]);
        assert(k2@ =~= header_keys()[2]);
        assert(k3@ =~= header_keys()[3]);
        assert(k4@ =~= header_keys()[4]);
        assert(strs(lines@) =~= want.subrange(0, 2));
    }
    let mut i: usize = 0;
    while i < rows.len()
        invariant
            i <= rows@.len(),
            want.len() == rows@.len() + 2,
            want == seq![table_line(h[0], h[1], h[2], h[3], h[4]), repeat('-', 80)] + rows@.map_values(|r: MineTableRow| mine_row_line(r)),
            strs(lines@) == want.subrange(0, i + 2),
        decreases rows.len() - i,
    {
        let row = &rows[i];
        let p = i64_decimal(row.project_id);
        let n = i64_decimal(row.task_number);
        let d = i64_decimal(row.task_id);
        let line = table_line_exec(row.instance.as_str(), p.as_str(), n.as_str(), d.as_str(), row.name.as_str());
        let ghost before = strs(lines@);
        proof {
            assert(rows@.map_values(|r: MineTableRow| mine_row_line(r))[i as int] == mine_row_line(rows@[i as int]));
            assert(line@ == want[i + 2]);
        }
        lines.push(line);
        proof {
            assert(strs(lines@) =~= before.push(want[i + 2]));
            assert(want.subrange(0, i + 3) =~= want.subrange(0, i + 2).push(want[i + 2]));
        }
        i += 1;
    }
    proof { assert(want.subrange(0, rows@.len() as int + 2) =~= want); }
    let nl = key_string(&['\n']);
    proof { assert(nl@ =~= seq!['\n']); }
    join_strings(&lines, nl.as_str())
}

// ---------------------------------------------------------------------------
// The compose overlay.
// ---------------------------------------------------------------------------

/// `s` cut at each line feed (`str::split('\n')`): the empty text gives one
/// empty line, a trailing line feed an empty last line.
pub open spec fn split_lines(s: Seq<char>) -> Seq<Seq<char>>
    decreases s.len(),
{
    if s.len() == 0 {
        seq![Seq::empty()]
    } else {
        let rest = split_lines(s.drop_last());
        if s.last() == '\n' {
            rest.push(Seq::empty())
        } else {
            rest.update(rest.len() - 1, rest.last().push(s.last()))
        }
    }
}

pub proof fn lemma_split_lines_nonempty(s: Seq<char>)
    ensures
        split_lines(s).len() >= 1,
    decreases s.len(),
{
    if s.len() > 0 {
        lemma_split_lines_nonempty(s.drop_last());
    }
}

/// Joining the compose buffer's lines with line feeds gives the buffer back.
pub proof fn law_compose_lines_rejoin(s: Seq<char>)
    ensures
        join(split_lines(s), seq!['\n']) == s,
    decreases s.len(),
{
    if s.len() > 0 {
        let p = s.drop_last();
        law_compose_lines_rejoin(p);
        lemma_split_lines_nonempty(p);
        let v = split_lines(p);
        if s.last() == '\n' {
            assert(v.push(Seq::empty()).drop_last() =~= v);
            assert(join(v, seq!['\n']) + seq!['\n'] + Seq::<char>::empty() =~= s);
        } else {
            let w = v.update(v.len() - 1, v.last().push(s.last()));
            if v.len() == 1 {
                assert(w[0] =~= p.push(s.last()));
            } else {
                assert(w.drop_last() =~= v.drop_last());
            }
            assert(s =~= p.push(s.last()));
        }
    } else {
        assert(split_lines(s) =~= seq![Seq::<char>::empty()]);
    }
}

/// The text split at each line feed (`str::split('\n')`).
pub fn split_newlines(text: &str) -> (r: Vec<String>)
    ensures
        strs(r@) == split_lines(text@),
{
    let cs = chars_of(text);
    let mut lines: Vec<String> = Vec::new();
    let mut cur = String::new();
    let mut i: usize = 0;
    proof {
        assert(cs@.subrange(0, 0) =~= Seq::<char>::empty());
        assert(strs(lines@).push(cur@) =~= split_lines(cs@.subrange(0, 0)));
    }
    while i < cs.len()
        invariant
            cs@ == text@,
            i <= cs@.len(),
            strs(lines@).push(cur@) == split_lines(cs@.subrange(0, i as int)),
        decreases cs.len() - i,
    {
        let c = cs[i];
        let ghost pre = cs@.subrange(0, i as int);
        proof {
            assert(cs@.subrange(0, i + 1).drop_last() =~= pre);
            assert(cs@.subrange(0, i + 1).last() == c);
        }
        if c == '\n' {
            let mut done = String::new();
            std::mem::swap(&mut done, &mut cur);
            lines.push(done);
            proof {
                assert(strs(lines@).push(cur@) =~= split_lines(pre).push(Seq::empty()));
            }
        } else {
            let ghost before = strs(lines@);
            push_char(&mut cur, c);
            proof {
                let rest = split_lines(pre);
                assert(rest =~= before.push(rest.last()));
                assert(strs(lines@).push(cur@) =~= rest.update(rest.len() - 1, rest.last().push(c)));
            }
        }
        i += 1;
    }
    proof { assert(cs@.subrange(0, cs@.len() as int) =~= cs@); }
    let ghost before = strs(lines@);
    lines.push(cur);
    proof { assert(strs(lines@) =~= before.push(cur@)); }
    lines
}

/// The compose buffer's lines, with an empty style list for each.
pub fn compose_block_lines(buffer: &str) -> (r: (Vec<String>, Vec<Vec<StyleRun>>))
    ensures
        strs(r.0@) == split_lines(buffer@),
        r.1@.len() == r.0@.len(),
        forall|i: int| 0 <= i < r.1@.len() ==> (#[trigger] r.1@[i])@.len() == 0,
{
    let lines = split_newlines(buffer);
    let mut styles: Vec<Vec<StyleRun>> = Vec::new();
    let mut i: usize = 0;
    while i < lines.len()
        invariant
            i <= lines@.len(),
            styles@.len() == i,
            forall|k: int| 0 <= k < styles@.len() ==> (#[trigger] styles@[k])@.len() == 0,
        decreases lines.len() - i,
    {
        styles.push(Vec::new());
        i += 1;
    }
    (lines, styles)
}

} // verus!
