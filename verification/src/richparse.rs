//! Task HTML to styled lines for the interactive detail view: paragraphs and
//! breaks split lines, lists get bullets or numbers, emphasis tags style their
//! text, links show their address in brackets, block quotes are prefixed with
//! `> `, headings are bold, preformatted text keeps its layout in the code
//! style, and tables are laid out in aligned columns.

use vstd::prelude::*;
use crate::richtext::{RichStyle, RichSpan, RichLine, SpanV, line_view, push_text, text_of};
use crate::wrap::lines_view;
use crate::unicode::{white_space, is_white_space, word_char, is_word_char, html_decoded, decode_entities,
    chars_of, string_of, push_char, push_str, text_cols, str_width};
use crate::textutil::{digits, u64_digits, spaces, push_repeat, repeat};
use crate::render::split_lines;
use crate::htmltext::{lower, any_tag_at, gt_from, lemma_gt_from};

verus! {

// ---------------------------------------------------------------------------
// Trimming.
// ---------------------------------------------------------------------------

/// The number of leading characters of `s` satisfying `p`.
pub open spec fn lead_len(s: Seq<char>, p: spec_fn(char) -> bool) -> nat
    decreases s.len(),
{
    if s.len() == 0 || !p(s[0]) {
        0
    } else {
        1 + lead_len(s.drop_first(), p)
    }
}

/// The number of trailing characters of `s` satisfying `p`.
pub open spec fn trail_len(s: Seq<char>, p: spec_fn(char) -> bool) -> nat
    decreases s.len(),
{
    if s.len() == 0 || !p(s.last()) {
        0
    } else {
        1 + trail_len(s.drop_last(), p)
    }
}

/// `s` without its leading characters satisfying `p`.
pub open spec fn trim_start_by(s: Seq<char>, p: spec_fn(char) -> bool) -> Seq<char> {
    s.skip(lead_len(s, p) as int)
}

/// `s` without its trailing characters satisfying `p`.
pub open spec fn trim_end_by(s: Seq<char>, p: spec_fn(char) -> bool) -> Seq<char> {
    s.take(s.len() - trail_len(s, p))
}

/// `s` without leading and trailing characters satisfying `p`.
pub open spec fn trim_by(s: Seq<char>, p: spec_fn(char) -> bool) -> Seq<char> {
    trim_end_by(trim_start_by(s, p), p)
}

pub open spec fn is_ws() -> spec_fn(char) -> bool {
    |c: char| white_space(c)
}

pub open spec fn is_char(x: char) -> spec_fn(char) -> bool {
    |c: char| c == x
}

proof fn lemma_lead_len(s: Seq<char>, p: spec_fn(char) -> bool, k: int)
    requires
        0 <= k <= s.len(),
        forall|j: int| 0 <= j < k ==> p(#[trigger] s[j]),
        k == s.len() || !p(s[k]),
    ensures
        lead_len(s, p) == k,
    decreases s.len(),
{
    if s.len() > 0 && k > 0 {
        assert forall|j: int| 0 <= j < k - 1 implies p(#[trigger] s.drop_first()[j]) by {
            assert(s.drop_first()[j] == s[j + 1]);
        }
        if k < s.len() {
            assert(s.drop_first()[k - 1] == s[k]);
        }
        lemma_lead_len(s.drop_first(), p, k - 1);
    }
}

proof fn lemma_trail_len(s: Seq<char>, p: spec_fn(char) -> bool, k: int)
    requires
        0 <= k <= s.len(),
        forall|j: int| s.len() - k <= j < s.len() ==> p(#[trigger] s[j]),
        k == s.len() || !p(s[s.len() - k - 1]),
    ensures
        trail_len(s, p) == k,
    decreases s.len(),
{
    if s.len() > 0 && k > 0 {
        let d = s.drop_last();
        assert forall|j: int| d.len() - (k - 1) <= j < d.len() implies p(#[trigger] d[j]) by {
            assert(d[j] == s[j]);
        }
        if k < s.len() {
            assert(d[d.len() - (k - 1) - 1] == s[s.len() - k - 1]);
        }
        assert(p(s.last()));
        lemma_trail_len(d, p, k - 1);
    }
}

/// `str::trim`: without leading and trailing Unicode whitespace.
pub(crate) fn trim_ws(s: &Vec<char>) -> (r: Vec<char>)
    ensures
        r@ == trim_by(s@, is_ws()),
{
    let n = s.len();
    let mut a: usize = 0;
    while a < n && is_white_space(s[a])
        invariant
            a <= n == s@.len(),
            forall|j: int| 0 <= j < a ==> white_space(#[trigger] s@[j]),
        decreases n - a,
    {
        a += 1;
    }
    proof { lemma_lead_len(s@, is_ws(), a as int); }
    let ghost t = s@.skip(a as int);
    let mut b: usize = n;
    while b > a && is_white_space(s[b - 1])
        invariant
            a <= b <= n == s@.len(),
            forall|j: int| b <= j < n ==> white_space(#[trigger] s@[j]),
        decreases b,
    {
        b -= 1;
    }
    proof {
        if b > a {
            assert(t[t.len() - (n - b) - 1] == s@[b - 1]);
        }
        assert forall|j: int| t.len() - (n - b) <= j < t.len() implies #[trigger] is_ws()(t[j]) by {
            assert(t[j] == s@[j + a]);
        }
        lemma_trail_len(t, is_ws(), (n - b) as int);
    }
    let mut out: Vec<char> = Vec::new();
    let mut k = a;
    while k < b
        invariant
            a <= k <= b <= n == s@.len(),
            out@ == s@.subrange(a as int, k as int),
        decreases b - k,
    {
        out.push(s[k]);
        k += 1;
        proof { assert(out@ =~= s@.subrange(a as int, k as int)); }
    }
    proof { assert(out@ =~= t.take(t.len() - (n - b))); }
    out
}

/// `s` without leading and trailing copies of `x` (`str::trim_matches`).
fn trim_char(s: &Vec<char>, x: char) -> (r: Vec<char>)
    ensures
        r@ == trim_by(s@, is_char(x)),
{
    let n = s.len();
    let mut a: usize = 0;
    while a < n && s[a] == x
        invariant
            a <= n == s@.len(),
            forall|j: int| 0 <= j < a ==> #[trigger] s@[j] == x,
        decreases n - a,
    {
        a += 1;
    }
    proof { lemma_lead_len(s@, is_char(x), a as int); }
    let ghost t = s@.skip(a as int);
    let mut b: usize = n;
    while b > a && s[b - 1] == x
        invariant
            a <= b <= n == s@.len(),
            forall|j: int| b <= j < n ==> #[trigger] s@[j] == x,
        decreases b,
    {
        b -= 1;
    }
    proof {
        assert forall|j: int| t.len() - (n - b) <= j < t.len() implies #[trigger] is_char(x)(t[j]) by {
            assert(t[j] == s@[j + a]);
        }
        if b > a {
            assert(t[t.len() - (n - b) - 1] == s@[b - 1]);
        }
        lemma_trail_len(t, is_char(x), (n - b) as int);
    }
    let mut out: Vec<char> = Vec::new();
    let mut k = a;
    while k < b
        invariant
            a <= k <= b <= n == s@.len(),
            out@ == s@.subrange(a as int, k as int),
        decreases b - k,
    {
        out.push(s[k]);
        k += 1;
        proof { assert(out@ =~= s@.subrange(a as int, k as int)); }
    }
    proof { assert(out@ =~= t.take(t.len() - (n - b))); }
    out
}


// ---------------------------------------------------------------------------
// Parse state.
// ---------------------------------------------------------------------------

/// How the items of an open list are marked.
#[derive(Debug, Clone, Copy, PartialEq, Eq, Structural)]
pub enum ListKind {
    Unordered,
    /// Numbered; the number the next item gets.
    Ordered(u32),
}

/// An open emphasis tag.
#[derive(Debug, Clone, Copy, PartialEq, Eq, Structural)]
pub enum EmphasisKind {
    Bold,
    Italic,
    Code,
    Strike,
    Underline,
}

/// Where text goes: the innermost of the open constructs, by priority.
#[derive(Debug, Clone, Copy, PartialEq, Eq, Structural)]
pub enum Context {
    Main,
    Anchor,
    Blockquote,
    Heading,
    Pre,
    Table,
}

/// One table cell, and whether it came from `<th>`.
#[derive(Debug, Clone)]
pub struct TableCell {
    pub text: String,
    pub is_header: bool,
}

/// The cells of one table row.
#[derive(Debug, Clone)]
pub struct TableRow {
    pub cells: Vec<TableCell>,
}

pub struct CellV {
    pub text: Seq<char>,
    pub is_header: bool,
}

impl View for TableCell {
    type V = CellV;

    open spec fn view(&self) -> CellV {
        CellV { text: self.text@, is_header: self.is_header }
    }
}

pub open spec fn row_view(r: TableRow) -> Seq<CellV> {
    r.cells@.map_values(|c: TableCell| c@)
}

pub open spec fn rows_view(v: Seq<TableRow>) -> Seq<Seq<CellV>> {
    v.map_values(|r: TableRow| row_view(r))
}

/// The state of the HTML to styled-lines conversion.
pub struct RichParseState {
    pub lines: Vec<RichLine>,
    pub current_line: RichLine,
    pub list_stack: Vec<ListKind>,
    pub emphasis_stack: Vec<EmphasisKind>,
    pub in_anchor: bool,
    pub anchor_href: Option<String>,
    pub anchor_spans: Vec<RichSpan>,
    pub in_blockquote: bool,
    pub blockquote_inner: String,
    pub in_heading: bool,
    pub heading_inner: String,
    pub in_pre: bool,
    pub pre_lines: Vec<RichLine>,
    pub pre_current_line: RichLine,
    pub in_table: bool,
    pub table_rows: Vec<TableRow>,
    pub table_current_row: Option<TableRow>,
    pub table_current_cell: Option<TableCell>,
}

/// The parse state as values.
pub struct ParseV {
    pub lines: Seq<Seq<SpanV>>,
    pub cur: Seq<SpanV>,
    pub lists: Seq<ListKind>,
    pub ems: Seq<EmphasisKind>,
    pub in_anchor: bool,
    pub href: Option<Seq<char>>,
    pub anchor: Seq<SpanV>,
    pub in_bq: bool,
    pub bq: Seq<char>,
    pub in_h: bool,
    pub h: Seq<char>,
    pub in_pre: bool,
    pub pre_lines: Seq<Seq<SpanV>>,
    pub pre_cur: Seq<SpanV>,
    pub in_table: bool,
    pub rows: Seq<Seq<CellV>>,
    pub row: Option<Seq<CellV>>,
    pub cell: Option<CellV>,
}

impl View for RichParseState {
    type V = ParseV;

    open spec fn view(&self) -> ParseV {
        ParseV {
            lines: lines_view(self.lines@),
            cur: line_view(self.current_line@),
            lists: self.list_stack@,
            ems: self.emphasis_stack@,
            in_anchor: self.in_anchor,
            href: match self.anchor_href {
                Some(h) => Some(h@),
                None => None,
            },
            anchor: line_view(self.anchor_spans@),
            in_bq: self.in_blockquote,
            bq: self.blockquote_inner@,
            in_h: self.in_heading,
            h: self.heading_inner@,
            in_pre: self.in_pre,
            pre_lines: lines_view(self.pre_lines@),
            pre_cur: line_view(self.pre_current_line@),
            in_table: self.in_table,
            rows: rows_view(self.table_rows@),
            row: match self.table_current_row {
                Some(r) => Some(row_view(r)),
                None => None,
            },
            cell: match self.table_current_cell {
                Some(c) => Some(c@),
                None => None,
            },
        }
    }
}

pub open spec fn init_view() -> ParseV {
    ParseV {
        lines: Seq::empty(),
        cur: Seq::empty(),
        lists: Seq::empty(),
        ems: Seq::empty(),
        in_anchor: false,
        href: None,
        anchor: Seq::empty(),
        in_bq: false,
        bq: Seq::empty(),
        in_h: false,
        h: Seq::empty(),
        in_pre: false,
        pre_lines: Seq::empty(),
        pre_cur: Seq::empty(),
        in_table: false,
        rows: Seq::empty(),
        row: None,
        cell: None,
    }
}

fn new_state() -> (r: RichParseState)
    ensures
        r@ == init_view(),
{
    let r = RichParseState {
        lines: Vec::new(),
        current_line: Vec::new(),
        list_stack: Vec::new(),
        emphasis_stack: Vec::new(),
        in_anchor: false,
        anchor_href: None,
        anchor_spans: Vec::new(),
        in_blockquote: false,
        blockquote_inner: String::new(),
        in_heading: false,
        heading_inner: String::new(),
        in_pre: false,
        pre_lines: Vec::new(),
        pre_current_line: Vec::new(),
        in_table: false,
        table_rows: Vec::new(),
        table_current_row: None,
        table_current_cell: None,
    };
    proof {
        assert(lines_view(r.lines@) =~= Seq::<Seq<SpanV>>::empty());
        assert(line_view(r.current_line@) =~= Seq::<SpanV>::empty());
        assert(line_view(r.anchor_spans@) =~= Seq::<SpanV>::empty());
        assert(lines_view(r.pre_lines@) =~= Seq::<Seq<SpanV>>::empty());
        assert(line_view(r.pre_current_line@) =~= Seq::<SpanV>::empty());
        assert(rows_view(r.table_rows@) =~= Seq::<Seq<CellV>>::empty());
    }
    r
}

/// The style of text under the innermost emphasis tag.
pub open spec fn emphasis_of(v: ParseV) -> RichStyle {
    if v.ems.len() == 0 {
        RichStyle::Plain
    } else {
        match v.ems.last() {
            EmphasisKind::Bold => RichStyle::Bold,
            EmphasisKind::Italic => RichStyle::Italic,
            EmphasisKind::Code => RichStyle::Code,
            EmphasisKind::Strike => RichStyle::Strike,
            EmphasisKind::Underline => RichStyle::Underline,
        }
    }
}

/// Where text goes: table, then preformatted, link, heading, quote, else the
/// main line.
pub open spec fn ctx_of(v: ParseV) -> Context {
    if v.in_table {
        Context::Table
    } else if v.in_pre {
        Context::Pre
    } else if v.in_anchor {
        Context::Anchor
    } else if v.in_h {
        Context::Heading
    } else if v.in_bq {
        Context::Blockquote
    } else {
        Context::Main
    }
}

/// The current line committed and a new one started.
pub open spec fn broke(v: ParseV) -> ParseV {
    ParseV { lines: v.lines.push(v.cur), cur: Seq::empty(), ..v }
}

/// The current preformatted line committed and a new one started.
pub open spec fn broke_pre(v: ParseV) -> ParseV {
    ParseV { pre_lines: v.pre_lines.push(v.pre_cur), pre_cur: Seq::empty(), ..v }
}

/// A line break (`<br>`, `<p>`, `<div>`) in the current context.
pub open spec fn newline(v: ParseV) -> ParseV {
    match ctx_of(v) {
        Context::Anchor => if v.anchor.len() > 0 {
            let last = v.anchor.last();
            ParseV { anchor: v.anchor.update(v.anchor.len() - 1, SpanV { text: last.text.push('\n'), style: last.style }), ..v }
        } else {
            v
        },
        Context::Heading => ParseV { h: v.h.push('\n'), ..v },
        Context::Blockquote => ParseV { bq: v.bq.push('\n'), ..v },
        Context::Pre => broke_pre(v),
        Context::Table => v,
        Context::Main => broke(v),
    }
}

/// Code style for preformatted text, unless an emphasis tag is open.
pub open spec fn pre_style(em: RichStyle) -> RichStyle {
    if em == RichStyle::Plain { RichStyle::Code } else { em }
}

/// Preformatted lines after the parts of the text that follow a line feed.
pub open spec fn pre_fold(lines: Seq<Seq<SpanV>>, cur: Seq<SpanV>, parts: Seq<Seq<char>>, st: RichStyle) -> (Seq<Seq<SpanV>>, Seq<SpanV>)
    decreases parts.len(),
{
    if parts.len() == 0 {
        (lines, cur)
    } else {
        let (l, c) = pre_fold(lines, cur, parts.drop_last(), st);
        (l.push(c), push_text(Seq::empty(), parts.last(), st))
    }
}

/// Text inside `<pre>`: decoded, split at line feeds, kept verbatim.
pub open spec fn acc_pre(v: ParseV, raw: Seq<char>) -> ParseV {
    let parts = split_lines(html_decoded(raw));
    let st = pre_style(emphasis_of(v));
    let c0 = push_text(v.pre_cur, parts[0], st);
    let (l, c) = pre_fold(v.pre_lines, c0, parts.drop_first(), st);
    ParseV { pre_lines: l, pre_cur: c, ..v }
}

/// Text between tags, added to the current context.
pub open spec fn accumulate(v: ParseV, raw: Seq<char>) -> ParseV {
    let dec = html_decoded(raw);
    let em = emphasis_of(v);
    if raw.len() == 0 {
        v
    } else {
        match ctx_of(v) {
            Context::Pre => acc_pre(v, raw),
            Context::Table => match v.cell {
                Some(c) => ParseV { cell: Some(CellV { text: c.text + dec, is_header: c.is_header }), ..v },
                None => v,
            },
            Context::Anchor => ParseV { anchor: push_text(v.anchor, dec, em), ..v },
            Context::Blockquote => ParseV { bq: v.bq + dec, ..v },
            Context::Heading => ParseV { h: v.h + dec, ..v },
            Context::Main => ParseV { cur: push_text(v.cur, dec, em), ..v },
        }
    }
}

/// Appends text of one style to a line, joining the last span when styles agree.
pub fn push_to_line(line: &mut RichLine, text: &str, style: RichStyle)
    ensures
        line_view(final(line)@) == push_text(line_view(old(line)@), text@, style),
{
    if text.is_empty() {
        return;
    }
    let ghost old_l = line@;
    let n = line.len();
    if n > 0 && line[n - 1].style == style {
        let mut last = line.pop().unwrap();
        let ghost prev = last;
        push_str(&mut last.text, text);
        line.push(last);
        proof {
            assert(prev == old_l.last());
            assert(line_view(old_l).last() == prev@);
            assert(line_view(line@) =~= line_view(old_l).update(n - 1, last@));
        }
    } else {
        let t = crate::textutil::owned(text);
        line.push(RichSpan { text: t, style });
        proof {
            assert(line_view(line@) =~= push_text(line_view(old(line)@), text@, style));
        }
    }
}

fn current_emphasis(st: &RichParseState) -> (r: RichStyle)
    ensures
        r == emphasis_of(st@),
{
    let n = st.emphasis_stack.len();
    if n == 0 {
        RichStyle::Plain
    } else {
        match st.emphasis_stack[n - 1] {
            EmphasisKind::Bold => RichStyle::Bold,
            EmphasisKind::Italic => RichStyle::Italic,
            EmphasisKind::Code => RichStyle::Code,
            EmphasisKind::Strike => RichStyle::Strike,
            EmphasisKind::Underline => RichStyle::Underline,
        }
    }
}

fn active_context(st: &RichParseState) -> (r: Context)
    ensures
        r == ctx_of(st@),
{
    if st.in_table {
        Context::Table
    } else if st.in_pre {
        Context::Pre
    } else if st.in_anchor {
        Context::Anchor
    } else if st.in_heading {
        Context::Heading
    } else if st.in_blockquote {
        Context::Blockquote
    } else {
        Context::Main
    }
}

fn push_rich_line(lines: &mut Vec<RichLine>, l: RichLine)
    ensures
        lines_view(final(lines)@) == lines_view(old(lines)@).push(line_view(l@)),
{
    lines.push(l);
    proof { assert(lines_view(final(lines)@) =~= lines_view(old(lines)@).push(line_view(l@))); }
}

fn break_line(st: &mut RichParseState)
    ensures
        final(st)@ == broke(old(st)@),
{
    let mut finished: RichLine = Vec::new();
    std::mem::swap(&mut finished, &mut st.current_line);
    push_rich_line(&mut st.lines, finished);
    proof { assert(line_view(st.current_line@) =~= Seq::<SpanV>::empty()); }
}

fn break_pre_line(st: &mut RichParseState)
    ensures
        final(st)@ == broke_pre(old(st)@),
{
    let mut finished: RichLine = Vec::new();
    std::mem::swap(&mut finished, &mut st.pre_current_line);
    push_rich_line(&mut st.pre_lines, finished);
    proof { assert(line_view(st.pre_current_line@) =~= Seq::<SpanV>::empty()); }
}

fn push_newline_to_context(st: &mut RichParseState)
    ensures
        final(st)@ == newline(old(st)@),
{
    match active_context(st) {
        Context::Anchor => {
            let n = st.anchor_spans.len();
            if n > 0 {
                let ghost old_a = st.anchor_spans@;
                let mut last = st.anchor_spans.pop().unwrap();
                let ghost prev = last;
                push_char(&mut last.text, '\n');
                st.anchor_spans.push(last);
                proof {
                    assert(prev == old_a.last());
                    assert(line_view(st.anchor_spans@) =~= line_view(old_a).update(n - 1, last@));
                }
            }
        },
        Context::Heading => push_char(&mut st.heading_inner, '\n'),
        Context::Blockquote => push_char(&mut st.blockquote_inner, '\n'),
        Context::Pre => break_pre_line(st),
        Context::Table => {},
        Context::Main => break_line(st),
    }
}

fn accumulate_pre_text(st: &mut RichParseState, raw: &str)
    ensures
        final(st)@ == acc_pre(old(st)@, raw@),
{
    let style = if current_emphasis(st) == RichStyle::Plain { RichStyle::Code } else { current_emphasis(st) };
    let decoded = decode_entities(raw);
    let (parts, _styles) = crate::render::compose_block_lines(decoded.as_str());
    proof { crate::render::lemma_split_lines_nonempty(decoded@); }
    let ghost ps = crate::textutil::strs(parts@);
    let ghost v0 = st@;
    push_to_line(&mut st.pre_current_line, parts[0].as_str(), style);
    let ghost c0 = push_text(v0.pre_cur, ps[0], style);
    let mut i: usize = 1;
    proof {
        assert(ps[0] == parts@[0]@);
        assert(ps.drop_first().subrange(0, 0) =~= Seq::<Seq<char>>::empty());
    }
    while i < parts.len()
        invariant
            1 <= i <= parts@.len(),
            ps == crate::textutil::strs(parts@),
            ps.len() >= 1,
            (lines_view(st.pre_lines@), line_view(st.pre_current_line@)) == pre_fold(v0.pre_lines, c0, ps.drop_first().subrange(0, i - 1), style),
            st@ == (ParseV { pre_lines: lines_view(st.pre_lines@), pre_cur: line_view(st.pre_current_line@), ..v0 }),
        decreases parts.len() - i,
    {
        let mut finished: RichLine = Vec::new();
        std::mem::swap(&mut finished, &mut st.pre_current_line);
        push_rich_line(&mut st.pre_lines, finished);
        push_to_line(&mut st.pre_current_line, parts[i].as_str(), style);
        proof {
            let sub = ps.drop_first().subrange(0, i as int);
            assert(sub.drop_last() =~= ps.drop_first().subrange(0, i - 1));
            assert(sub.last() == parts@[i as int]@);
            assert(line_view(Seq::<RichSpan>::empty()) =~= Seq::<SpanV>::empty());
        }
        i += 1;
    }
    proof {
        assert(ps.drop_first().subrange(0, ps.len() - 1) =~= ps.drop_first());
    }
}

fn accumulate_text(st: &mut RichParseState, raw: &str)
    ensures
        final(st)@ == accumulate(old(st)@, raw@),
{
    if raw.is_empty() {
        return;
    }
    match active_context(st) {
        Context::Pre => accumulate_pre_text(st, raw),
        Context::Table => {
            let decoded = decode_entities(raw);
            match &mut st.table_current_cell {
                Some(cell) => {
                    push_str(&mut cell.text, decoded.as_str());
                },
                None => {},
            }
        },
        Context::Anchor => {
            let decoded = decode_entities(raw);
            let em = current_emphasis(st);
            push_to_line(&mut st.anchor_spans, decoded.as_str(), em);
        },
        Context::Blockquote => {
            let decoded = decode_entities(raw);
            push_str(&mut st.blockquote_inner, decoded.as_str());
        },
        Context::Heading => {
            let decoded = decode_entities(raw);
            push_str(&mut st.heading_inner, decoded.as_str());
        },
        Context::Main => {
            let decoded = decode_entities(raw);
            let em = current_emphasis(st);
            push_to_line(&mut st.current_line, decoded.as_str(), em);
        },
    }
}


// ---------------------------------------------------------------------------
// Tags.
// ---------------------------------------------------------------------------

/// The index of the first whitespace character of `s` (its length when none).
pub open spec fn first_ws(s: Seq<char>) -> int
    decreases s.len(),
{
    if s.len() == 0 {
        0
    } else {
        let k = first_ws(s.drop_last());
        if k < s.len() - 1 {
            k
        } else if white_space(s.last()) {
            s.len() - 1
        } else {
            s.len() as int
        }
    }
}

/// A tag's text split into whether it closes and its element name: ASCII
/// lower case, without the angle brackets and surrounding whitespace; the name
/// is what follows `/` (trimmed) in a closing tag, else the first word.
pub open spec fn tag_parts(raw: Seq<char>) -> (bool, Seq<char>) {
    let lowered = raw.map_values(|c: char| lower(c));
    let body = trim_by(trim_end_by(trim_start_by(lowered, is_char('<')), is_char('>')), is_ws());
    let closing = body.len() > 0 && body[0] == '/';
    let element = if closing {
        trim_by(trim_start_by(body, is_char('/')), is_ws())
    } else {
        body.take(first_ws(body))
    };
    (closing, element)
}

proof fn lemma_first_ws(s: Seq<char>, k: int)
    requires
        0 <= k <= s.len(),
        forall|j: int| 0 <= j < k ==> !white_space(#[trigger] s[j]),
        k < s.len() ==> white_space(s[k]),
    ensures
        first_ws(s) == k,
    decreases s.len(),
{
    if s.len() > 0 {
        let d = s.drop_last();
        if k == s.len() {
            lemma_first_ws(d, d.len() as int);
        } else if k < d.len() {
            lemma_first_ws(d, k);
        } else {
            lemma_first_ws(d, d.len() as int);
        }
    }
}

fn lower_chars(s: &Vec<char>) -> (r: Vec<char>)
    ensures
        r@ == s@.map_values(|c: char| lower(c)),
{
    let mut out: Vec<char> = Vec::new();
    let mut i: usize = 0;
    while i < s.len()
        invariant
            i <= s@.len(),
            out@ == s@.subrange(0, i as int).map_values(|c: char| lower(c)),
        decreases s.len() - i,
    {
        let c = s[i];
        let l = if 'A' <= c && c <= 'Z' {
            crate::htmltext::lower_exec(c)
        } else {
            c
        };
        out.push(l);
        i += 1;
        proof { assert(out@ =~= s@.subrange(0, i as int).map_values(|c: char| lower(c))); }
    }
    proof { assert(s@.subrange(0, s@.len() as int) =~= s@); }
    out
}

fn trim_start_char(s: &Vec<char>, x: char) -> (r: Vec<char>)
    ensures
        r@ == trim_start_by(s@, is_char(x)),
{
    let n = s.len();
    let mut a: usize = 0;
    while a < n && s[a] == x
        invariant
            a <= n == s@.len(),
            forall|j: int| 0 <= j < a ==> #[trigger] s@[j] == x,
        decreases n - a,
    {
        a += 1;
    }
    proof { lemma_lead_len(s@, is_char(x), a as int); }
    let mut out: Vec<char> = Vec::new();
    let mut k = a;
    while k < n
        invariant
            a <= k <= n == s@.len(),
            out@ == s@.subrange(a as int, k as int),
        decreases n - k,
    {
        out.push(s[k]);
        k += 1;
        proof { assert(out@ =~= s@.subrange(a as int, k as int)); }
    }
    proof { assert(out@ =~= s@.skip(a as int)); }
    out
}

fn trim_end_char(s: &Vec<char>, x: char) -> (r: Vec<char>)
    ensures
        r@ == trim_end_by(s@, is_char(x)),
{
    let n = s.len();
    let mut b: usize = n;
    while b > 0 && s[b - 1] == x
        invariant
            b <= n == s@.len(),
            forall|j: int| b <= j < n ==> #[trigger] s@[j] == x,
        decreases b,
    {
        b -= 1;
    }
    proof {
        assert forall|j: int| s@.len() - (n - b) <= j < s@.len() implies #[trigger] is_char(x)(s@[j]) by {}
        lemma_trail_len(s@, is_char(x), (n - b) as int);
    }
    let mut out: Vec<char> = Vec::new();
    let mut k: usize = 0;
    while k < b
        invariant
            k <= b <= n == s@.len(),
            out@ == s@.subrange(0, k as int),
        decreases b - k,
    {
        out.push(s[k]);
        k += 1;
        proof { assert(out@ =~= s@.subrange(0, k as int)); }
    }
    proof { assert(out@ =~= s@.take(b as int)); }
    out
}

/// Whether a tag closes, and its element name.
fn tag_parts_exec(raw: &str) -> (r: (bool, Vec<char>))
    ensures
        (r.0, r.1@) == tag_parts(raw@),
{
    let cs = chars_of(raw);
    let lowered = lower_chars(&cs);
    let a = trim_start_char(&lowered, '<');
    let b = trim_end_char(&a, '>');
    let body = trim_ws(&b);
    let closing = body.len() > 0 && body[0] == '/';
    if closing {
        let c = trim_start_char(&body, '/');
        let el = trim_ws(&c);
        (true, el)
    } else {
        let mut k: usize = 0;
        while k < body.len() && !is_white_space(body[k])
            invariant
                k <= body@.len(),
                forall|j: int| 0 <= j < k ==> !white_space(#[trigger] body@[j]),
            decreases body.len() - k,
        {
            k += 1;
        }
        proof { lemma_first_ws(body@, k as int); }
        let mut el: Vec<char> = Vec::new();
        let mut i: usize = 0;
        while i < k
            invariant
                i <= k <= body@.len(),
                el@ == body@.subrange(0, i as int),
            decreases k - i,
        {
            el.push(body[i]);
            i += 1;
            proof { assert(el@ =~= body@.subrange(0, i as int)); }
        }
        proof { assert(el@ =~= body@.take(k as int)); }
        (false, el)
    }
}

/// `\bhref=["']([^"']+)["']` (case of `href` ignored) matched at `i`: the
/// value's range.
pub open spec fn href_at(s: Seq<char>, i: int) -> Option<(int, int)> {
    if (i == 0 || (0 < i <= s.len() && !word_char(s[i - 1]))) && crate::htmltext::ci_at(s, i, seq!['h', 'r', 'e', 'f', '='])
        && i + 5 < s.len() && (s[i + 5] == '"' || s[i + 5] == '\'') {
        let j = quote_from(s, i + 6);
        if j > i + 6 && j < s.len() { Some((i + 6, j)) } else { None }
    } else {
        None
    }
}

/// The first `"` or `'` at or after `k` (the length when none).
pub open spec fn quote_from(s: Seq<char>, k: int) -> int
    decreases s.len() - k,
{
    if k < 0 || k >= s.len() {
        s.len() as int
    } else if s[k] == '"' || s[k] == '\'' {
        k
    } else {
        quote_from(s, k + 1)
    }
}

/// The `href` value of the leftmost match at or after `i`.
pub open spec fn href_from(s: Seq<char>, i: int) -> Option<Seq<char>>
    decreases s.len() + 1 - i,
{
    if i < 0 || i > s.len() {
        None
    } else {
        match href_at(s, i) {
            Some(m) => Some(s.subrange(m.0, m.1)),
            None => href_from(s, i + 1),
        }
    }
}

fn quote_from_exec(s: &Vec<char>, k: usize) -> (r: usize)
    requires
        k <= s@.len(),
    ensures
        r as int == quote_from(s@, k as int),
        k <= r <= s@.len(),
{
    let mut j = k;
    while j < s.len() && s[j] != '"' && s[j] != '\''
        invariant
            k <= j <= s@.len(),
            quote_from(s@, k as int) == quote_from(s@, j as int),
        decreases s.len() - j,
    {
        j += 1;
    }
    j
}

/// The `href` attribute value of an opening `<a …>` tag.
fn extract_href(tag: &str) -> (r: Option<String>)
    ensures
        match r {
            Some(h) => href_from(tag@, 0) == Some(h@),
            None => href_from(tag@, 0) is None,
        },
{
    let cs = chars_of(tag);
    let n = cs.len();
    let mut i: usize = 0;
    while i < n
        invariant
            n == cs@.len(),
            cs@ == tag@,
            i <= n,
            href_from(cs@, 0) == href_from(cs@, i as int),
        decreases n - i,
    {
        let boundary = i == 0 || !is_word_char(cs[i - 1]);
        if boundary && crate::htmltext::ci_at_exec(&cs, i, &['h', 'r', 'e', 'f', '=']) && i + 5 < n
            && (cs[i + 5] == '"' || cs[i + 5] == '\'') {
            let j = quote_from_exec(&cs, i + 6);
            if j > i + 6 && j < n {
                let mut out: Vec<char> = Vec::new();
                let mut k = i + 6;
                while k < j
                    invariant
                        i + 6 <= k <= j <= n == cs@.len(),
                        out@ == cs@.subrange(i + 6, k as int),
                    decreases j - k,
                {
                    out.push(cs[k]);
                    k += 1;
                    proof { assert(out@ =~= cs@.subrange(i + 6, k as int)); }
                }
                proof { assert(href_at(cs@, i as int) == Some(((i + 6) as int, j as int))); }
                return Some(string_of(out.as_slice()));
            }
        }
        proof { assert(href_at(cs@, i as int) is None); }
        i += 1;
    }
    proof {
        assert(href_at(cs@, n as int) is None);
        assert(href_from(cs@, n + 1) is None);
    }
    None
}

// ---------------------------------------------------------------------------
// Flushing finished constructs into lines.
// ---------------------------------------------------------------------------

pub open spec fn one_span_line(t: Seq<char>, st: RichStyle) -> Seq<SpanV> {
    seq![SpanV { text: t, style: st }]
}

/// A quote: its text without surrounding line feeds, each line prefixed with
/// `> `, framed by empty lines; nothing for an empty quote.
pub open spec fn flushed_quote(inner: Seq<char>, lines: Seq<Seq<SpanV>>) -> Seq<Seq<SpanV>> {
    let trimmed = trim_by(inner, is_char('\n'));
    if trimmed.len() == 0 {
        lines
    } else {
        let prefixed = crate::textutil::join(
            crate::cli_render::text_lines(trimmed).map_values(|l: Seq<char>| seq!['>', ' '] + l),
            seq!['\n'],
        );
        lines.push(Seq::empty()) + split_lines(prefixed).map_values(|l: Seq<char>| one_span_line(l, RichStyle::Plain))
            + seq![Seq::<SpanV>::empty()]
    }
}

/// A heading: its trimmed text as one bold line framed by empty lines;
/// nothing for an empty heading.
pub open spec fn flushed_heading(inner: Seq<char>, lines: Seq<Seq<SpanV>>) -> Seq<Seq<SpanV>> {
    let trimmed = trim_by(inner, is_ws());
    if trimmed.len() == 0 {
        lines
    } else {
        lines + seq![Seq::<SpanV>::empty(), one_span_line(trimmed, RichStyle::Bold), Seq::<SpanV>::empty()]
    }
}

/// A line without spans or with only empty spans.
pub open spec fn all_blank(l: Seq<SpanV>) -> bool {
    forall|k: int| 0 <= k < l.len() ==> (#[trigger] l[k]).text.len() == 0
}

/// The first non-blank line at or after `i`.
pub open spec fn first_nonblank(ls: Seq<Seq<SpanV>>, i: int) -> int
    decreases ls.len() - i,
{
    if i < 0 || i >= ls.len() {
        ls.len() as int
    } else if !all_blank(ls[i]) {
        i
    } else {
        first_nonblank(ls, i + 1)
    }
}

/// One past the last non-blank line before `j`.
pub open spec fn last_nonblank_end(ls: Seq<Seq<SpanV>>, j: int) -> int
    decreases j,
{
    if j <= 0 || j > ls.len() {
        0
    } else if !all_blank(ls[j - 1]) {
        j
    } else {
        last_nonblank_end(ls, j - 1)
    }
}

/// Preformatted lines without blank lines at either end, framed by empty
/// lines; nothing when all are blank.
pub open spec fn flushed_pre(pls: Seq<Seq<SpanV>>, lines: Seq<Seq<SpanV>>) -> Seq<Seq<SpanV>> {
    let a = first_nonblank(pls, 0);
    if a >= pls.len() {
        lines
    } else {
        let b = last_nonblank_end(pls, pls.len() as int);
        lines.push(Seq::empty()) + pls.subrange(a, b) + seq![Seq::<SpanV>::empty()]
    }
}


/// Column widths after one more row: each cell widens its column to its own
/// display width; a column past the known ones is added.
pub open spec fn cols_fold(widths: Seq<usize>, cells: Seq<CellV>) -> Seq<usize>
    decreases cells.len(),
{
    if cells.len() == 0 {
        widths
    } else {
        let w0 = cols_fold(widths, cells.drop_last());
        let idx = cells.len() - 1;
        let w = text_cols(cells.last().text);
        if idx < w0.len() {
            if w > w0[idx] { w0.update(idx, w) } else { w0 }
        } else {
            w0.push(w)
        }
    }
}

/// The column widths of a table: for each column, its widest cell.
pub open spec fn col_widths(rows: Seq<Seq<CellV>>) -> Seq<usize>
    decreases rows.len(),
{
    if rows.len() == 0 {
        Seq::empty()
    } else {
        cols_fold(col_widths(rows.drop_last()), rows.last())
    }
}

/// `text` padded with spaces to `w` display columns (never cut).
pub open spec fn padded(text: Seq<char>, w: usize) -> Seq<char> {
    let tw = text_cols(text);
    if tw >= w { text } else { text + spaces((w - tw) as nat) }
}

/// The first `k` columns of a table row: cells padded to their column's width,
/// two spaces between columns, header cells bold, missing cells empty.
pub open spec fn row_fold(row: Seq<CellV>, widths: Seq<usize>, k: int) -> Seq<SpanV>
    decreases k,
{
    if k <= 0 {
        Seq::empty()
    } else {
        let l = row_fold(row, widths, k - 1);
        let idx = k - 1;
        let l1 = if idx > 0 { push_text(l, seq![' ', ' '], RichStyle::Plain) } else { l };
        let text = if idx < row.len() { row[idx].text } else { Seq::empty() };
        let hdr = idx < row.len() && row[idx].is_header;
        push_text(l1, padded(text, widths[idx]), if hdr { RichStyle::Bold } else { RichStyle::Plain })
    }
}

/// A table as aligned lines framed by empty lines; nothing for a table
/// without rows or columns.
pub open spec fn flushed_table(rows: Seq<Seq<CellV>>, lines: Seq<Seq<SpanV>>) -> Seq<Seq<SpanV>> {
    if rows.len() == 0 {
        lines
    } else {
        let ws = col_widths(rows);
        if ws.len() == 0 {
            lines
        } else {
            lines.push(Seq::empty()) + rows.map_values(|r: Seq<CellV>| row_fold(r, ws, ws.len() as int))
                + seq![Seq::<SpanV>::empty()]
        }
    }
}

fn clone_span(s: &RichSpan) -> (r: RichSpan)
    ensures
        r@ == s@,
{
    RichSpan { text: s.text.clone(), style: s.style }
}

fn clone_line(l: &RichLine) -> (r: RichLine)
    ensures
        line_view(r@) == line_view(l@),
{
    let mut out: RichLine = Vec::new();
    let mut i: usize = 0;
    while i < l.len()
        invariant
            i <= l@.len(),
            line_view(out@) == line_view(l@).subrange(0, i as int),
        decreases l.len() - i,
    {
        let sp = clone_span(&l[i]);
        let ghost before = line_view(out@);
        out.push(sp);
        proof {
            assert(line_view(out@) =~= before.push(l@[i as int]@));
            assert(line_view(l@).subrange(0, i + 1) =~= line_view(l@).subrange(0, i as int).push(l@[i as int]@));
        }
        i += 1;
    }
    proof { assert(line_view(l@).subrange(0, l@.len() as int) =~= line_view(l@)); }
    out
}

fn one_span(text: String, style: RichStyle) -> (r: RichLine)
    ensures
        line_view(r@) == one_span_line(text@, style),
{
    let v = vec![RichSpan { text, style }];
    proof { assert(line_view(v@) =~= one_span_line(text@, style)); }
    v
}

fn flush_blockquote_rich(inner: &str, lines: &mut Vec<RichLine>)
    ensures
        lines_view(final(lines)@) == flushed_quote(inner@, lines_view(old(lines)@)),
{
    let cs = chars_of(inner);
    let tv = trim_char(&cs, '\n');
    if tv.len() == 0 {
        return;
    }
    let trimmed = string_of(tv.as_slice());
    let ls = crate::cli_render::lines_of(trimmed.as_str());
    let mut pre: Vec<String> = Vec::new();
    let mut i: usize = 0;
    let ghost want = crate::cli_render::text_lines(tv@).map_values(|l: Seq<char>| seq!['>', ' '] + l);
    while i < ls.len()
        invariant
            i <= ls@.len(),
            crate::textutil::strs(ls@) == crate::cli_render::text_lines(tv@),
            want == crate::cli_render::text_lines(tv@).map_values(|l: Seq<char>| seq!['>', ' '] + l),
            crate::textutil::strs(pre@) == want.subrange(0, i as int),
        decreases ls.len() - i,
    {
        let mut x = String::new();
        push_char(&mut x, '>');
        push_char(&mut x, ' ');
        push_str(&mut x, ls[i].as_str());
        let ghost before = crate::textutil::strs(pre@);
        proof {
            assert(crate::textutil::strs(ls@)[i as int] == ls@[i as int]@);
            assert(x@ =~= seq!['>', ' '] + ls@[i as int]@);
            assert(want[i as int] == seq!['>', ' '] + crate::cli_render::text_lines(tv@)[i as int]);
        }
        pre.push(x);
        proof {
            assert(crate::textutil::strs(pre@) =~= before.push(want[i as int]));
            assert(want.subrange(0, i + 1) =~= want.subrange(0, i as int).push(want[i as int]));
        }
        i += 1;
    }
    proof { assert(want.subrange(0, ls@.len() as int) =~= want); }
    let nl = string_of(&['\n']);
    proof { assert(nl@ =~= seq!['\n']); }
    let prefixed = crate::textutil::join_strings(&pre, nl.as_str());
    let (parts, _styles) = crate::render::compose_block_lines(prefixed.as_str());
    let ghost base = lines_view(lines@).push(Seq::empty());
    push_rich_line(lines, Vec::new());
    proof { assert(line_view(Seq::<RichSpan>::empty()) =~= Seq::<SpanV>::empty()); }
    let ghost ps = crate::textutil::strs(parts@);
    let mut k: usize = 0;
    while k < parts.len()
        invariant
            k <= parts@.len(),
            ps == crate::textutil::strs(parts@),
            lines_view(lines@) == base + ps.subrange(0, k as int).map_values(|l: Seq<char>| one_span_line(l, RichStyle::Plain)),
        decreases parts.len() - k,
    {
        let t = parts[k].clone();
        let l = one_span(t, RichStyle::Plain);
        push_rich_line(lines, l);
        proof {
            assert(ps[k as int] == parts@[k as int]@);
            assert(ps.subrange(0, k + 1).map_values(|l: Seq<char>| one_span_line(l, RichStyle::Plain))
                =~= ps.subrange(0, k as int).map_values(|l: Seq<char>| one_span_line(l, RichStyle::Plain)).push(one_span_line(ps[k as int], RichStyle::Plain)));
        }
        k += 1;
    }
    proof { assert(ps.subrange(0, parts@.len() as int) =~= ps); }
    push_rich_line(lines, Vec::new());
    proof {
        assert(line_view(Seq::<RichSpan>::empty()) =~= Seq::<SpanV>::empty());
        assert(tv@ =~= trim_by(inner@, is_char('\n')));
    }
}

fn flush_heading_rich(inner: &str, lines: &mut Vec<RichLine>)
    ensures
        lines_view(final(lines)@) == flushed_heading(inner@, lines_view(old(lines)@)),
{
    let cs = chars_of(inner);
    let tv = trim_ws(&cs);
    if tv.len() == 0 {
        return;
    }
    let trimmed = string_of(tv.as_slice());
    push_rich_line(lines, Vec::new());
    push_rich_line(lines, one_span(trimmed, RichStyle::Bold));
    push_rich_line(lines, Vec::new());
    proof {
        assert(line_view(Seq::<RichSpan>::empty()) =~= Seq::<SpanV>::empty());
        assert(lines_view(final(lines)@) =~= flushed_heading(inner@, lines_view(old(lines)@)));
    }
}

fn line_all_blank(l: &RichLine) -> (r: bool)
    ensures
        r == all_blank(line_view(l@)),
{
    let mut k: usize = 0;
    while k < l.len()
        invariant
            k <= l@.len(),
            forall|j: int| 0 <= j < k ==> (#[trigger] line_view(l@)[j]).text.len() == 0,
        decreases l.len() - k,
    {
        if !l[k].text.as_str().is_empty() {
            proof { assert(line_view(l@)[k as int].text.len() != 0); }
            return false;
        }
        k += 1;
    }
    true
}

fn flush_pre_rich_lines(pre_lines: &Vec<RichLine>, lines: &mut Vec<RichLine>)
    ensures
        lines_view(final(lines)@) == flushed_pre(lines_view(pre_lines@), lines_view(old(lines)@)),
{
    let ghost pls = lines_view(pre_lines@);
    let n = pre_lines.len();
    let mut a: usize = 0;
    while a < n && line_all_blank(&pre_lines[a])
        invariant
            a <= n == pre_lines@.len(),
            pls == lines_view(pre_lines@),
            first_nonblank(pls, 0) == first_nonblank(pls, a as int),
        decreases n - a,
    {
        proof { assert(pls[a as int] == line_view(pre_lines@[a as int]@)); }
        a += 1;
    }
    if a >= n {
        return;
    }
    proof { assert(pls[a as int] == line_view(pre_lines@[a as int]@)); }
    let mut b: usize = n;
    while b > 0 && line_all_blank(&pre_lines[b - 1])
        invariant
            b <= n == pre_lines@.len(),
            pls == lines_view(pre_lines@),
            last_nonblank_end(pls, n as int) == last_nonblank_end(pls, b as int),
        decreases b,
    {
        proof { assert(pls[b - 1] == line_view(pre_lines@[b - 1]@)); }
        b -= 1;
    }
    proof {
        if b > 0 {
            assert(pls[b - 1] == line_view(pre_lines@[b - 1]@));
        }
        lemma_nonblank_bounds(pls, a as int, b as int);
    }
    let ghost base = lines_view(lines@).push(Seq::empty());
    push_rich_line(lines, Vec::new());
    proof { assert(line_view(Seq::<RichSpan>::empty()) =~= Seq::<SpanV>::empty()); }
    let mut k = a;
    while k < b
        invariant
            a <= k <= b <= n == pre_lines@.len(),
            pls == lines_view(pre_lines@),
            lines_view(lines@) == base + pls.subrange(a as int, k as int),
        decreases b - k,
    {
        let l = clone_line(&pre_lines[k]);
        push_rich_line(lines, l);
        proof {
            assert(pls[k as int] == line_view(pre_lines@[k as int]@));
            assert(pls.subrange(a as int, k + 1) =~= pls.subrange(a as int, k as int).push(pls[k as int]));
        }
        k += 1;
    }
    push_rich_line(lines, Vec::new());
    proof { assert(line_view(Seq::<RichSpan>::empty()) =~= Seq::<SpanV>::empty()); }
}

/// When a non-blank line exists at `a`, the last non-blank end lies after it.
proof fn lemma_nonblank_bounds(pls: Seq<Seq<SpanV>>, a: int, b: int)
    requires
        0 <= a < pls.len(),
        !all_blank(pls[a]),
        b == last_nonblank_end(pls, pls.len() as int),
    ensures
        a < b <= pls.len(),
{
    lemma_last_nonblank_ge(pls, pls.len() as int, a);
}

proof fn lemma_last_nonblank_ge(pls: Seq<Seq<SpanV>>, j: int, a: int)
    requires
        0 <= a < j <= pls.len(),
        !all_blank(pls[a]),
    ensures
        a < last_nonblank_end(pls, j) <= j,
    decreases j,
{
    if all_blank(pls[j - 1]) {
        lemma_last_nonblank_ge(pls, j - 1, a);
    }
}

fn table_col_widths(rows: &Vec<TableRow>) -> (r: Vec<usize>)
    ensures
        r@ == col_widths(rows_view(rows@)),
{
    let ghost rv = rows_view(rows@);
    let mut widths: Vec<usize> = Vec::new();
    let mut i: usize = 0;
    while i < rows.len()
        invariant
            i <= rows@.len(),
            rv == rows_view(rows@),
            widths@ == col_widths(rv.subrange(0, i as int)),
        decreases rows.len() - i,
    {
        let cells = &rows[i].cells;
        let ghost w_start = widths@;
        let ghost cv = row_view(rows@[i as int]);
        let mut c: usize = 0;
        while c < cells.len()
            invariant
                c <= cells@.len(),
                cells@ == rows@[i as int].cells@,
                cv == row_view(rows@[i as int]),
                widths@ == cols_fold(w_start, cv.subrange(0, c as int)),
            decreases cells.len() - c,
        {
            let w = str_width(cells[c].text.as_str());
            proof {
                let sub = cv.subrange(0, c + 1);
                assert(sub.drop_last() =~= cv.subrange(0, c as int));
                assert(sub.last() == cells@[c as int]@);
            }
            if c < widths.len() {
                if w > widths[c] {
                    widths.set(c, w);
                }
            } else {
                widths.push(w);
            }
            c += 1;
        }
        proof {
            assert(cv.subrange(0, cells@.len() as int) =~= cv);
            let sub = rv.subrange(0, i + 1);
            assert(sub.drop_last() =~= rv.subrange(0, i as int));
            assert(sub.last() == cv);
        }
        i += 1;
    }
    proof { assert(rv.subrange(0, rows@.len() as int) =~= rv); }
    widths
}

fn pad_to_display_width(text: &str, width: usize) -> (r: String)
    ensures
        r@ == padded(text@, width),
{
    let w = str_width(text);
    let mut s = crate::textutil::owned(text);
    if w >= width {
        return s;
    }
    push_repeat(&mut s, ' ', width - w);
    proof { assert(repeat(' ', (width - w) as nat) =~= spaces((width - w) as nat)); }
    s
}

fn render_table_row(row: &TableRow, widths: &Vec<usize>) -> (r: RichLine)
    ensures
        line_view(r@) == row_fold(row_view(*row), widths@, widths@.len() as int),
{
    let ghost rv = row_view(*row);
    let mut line: RichLine = Vec::new();
    let mut k: usize = 0;
    proof { assert(line_view(line@) =~= Seq::<SpanV>::empty()); }
    while k < widths.len()
        invariant
            k <= widths@.len(),
            rv == row_view(*row),
            line_view(line@) == row_fold(rv, widths@, k as int),
        decreases widths.len() - k,
    {
        if k > 0 {
            push_to_line(&mut line, "  ", RichStyle::Plain);
            proof { reveal_strlit("  "); assert("  "@ =~= seq![' ', ' ']); }
        }
        let ghost l1 = line_view(line@);
        let (text, hdr) = if k < row.cells.len() {
            (row.cells[k].text.as_str(), row.cells[k].is_header)
        } else {
            ("", false)
        };
        let ghost spec_text = if (k as int) < rv.len() { rv[k as int].text } else { Seq::<char>::empty() };
        let ghost spec_hdr = (k as int) < rv.len() && rv[k as int].is_header;
        proof {
            reveal_strlit("");
            assert(""@ =~= Seq::<char>::empty());
            if k < row.cells@.len() {
                assert(rv[k as int] == row.cells@[k as int]@);
            }
            assert(text@ == spec_text);
            assert(hdr == spec_hdr);
        }
        let p = pad_to_display_width(text, widths[k]);
        let style = if hdr { RichStyle::Bold } else { RichStyle::Plain };
        push_to_line(&mut line, p.as_str(), style);
        proof {
            assert(line_view(line@) == push_text(l1, padded(spec_text, widths@[k as int]), style));
            assert(row_fold(rv, widths@, k + 1) == push_text(
                (if k > 0 { push_text(row_fold(rv, widths@, k as int), seq![' ', ' '], RichStyle::Plain) } else { row_fold(rv, widths@, k as int) }),
                padded(spec_text, widths@[k as int]),
                if spec_hdr { RichStyle::Bold } else { RichStyle::Plain }));
        }
        k += 1;
    }
    line
}

fn flush_table_rich(rows: &Vec<TableRow>, lines: &mut Vec<RichLine>)
    ensures
        lines_view(final(lines)@) == flushed_table(rows_view(rows@), lines_view(old(lines)@)),
{
    if rows.len() == 0 {
        proof { assert(rows_view(rows@).len() == 0); }
        return;
    }
    let widths = table_col_widths(rows);
    if widths.len() == 0 {
        return;
    }
    let ghost rv = rows_view(rows@);
    let ghost base = lines_view(lines@).push(Seq::empty());
    push_rich_line(lines, Vec::new());
    proof { assert(line_view(Seq::<RichSpan>::empty()) =~= Seq::<SpanV>::empty()); }
    let mut i: usize = 0;
    while i < rows.len()
        invariant
            i <= rows@.len(),
            rv == rows_view(rows@),
            widths@ == col_widths(rv),
            lines_view(lines@) == base + rv.subrange(0, i as int).map_values(|r: Seq<CellV>| row_fold(r, widths@, widths@.len() as int)),
        decreases rows.len() - i,
    {
        let l = render_table_row(&rows[i], &widths);
        push_rich_line(lines, l);
        proof {
            assert(rv[i as int] == row_view(rows@[i as int]));
            assert(rv.subrange(0, i + 1).map_values(|r: Seq<CellV>| row_fold(r, widths@, widths@.len() as int))
                =~= rv.subrange(0, i as int).map_values(|r: Seq<CellV>| row_fold(r, widths@, widths@.len() as int))
                    .push(row_fold(rv[i as int], widths@, widths@.len() as int)));
        }
        i += 1;
    }
    proof { assert(rv.subrange(0, rows@.len() as int) =~= rv); }
    push_rich_line(lines, Vec::new());
    proof { assert(line_view(Seq::<RichSpan>::empty()) =~= Seq::<SpanV>::empty()); }
}


// ---------------------------------------------------------------------------
// Tag handlers.
// ---------------------------------------------------------------------------

pub open spec fn bullet() -> Seq<char> {
    seq!['\u{2022}', ' ']
}

/// The prefix of the next list item and the list stack after it: a bullet in
/// a bulleted list (or outside any list), the number and `. ` in a numbered
/// one, whose counter then advances (wrapping at `u32::MAX`).
pub open spec fn li_prefix(lists: Seq<ListKind>) -> (Seq<char>, Seq<ListKind>) {
    if lists.len() == 0 {
        (bullet(), lists)
    } else {
        match lists.last() {
            ListKind::Unordered => (bullet(), lists),
            ListKind::Ordered(n) => (
                digits(n as nat) + seq!['.', ' '],
                lists.update(lists.len() - 1, ListKind::Ordered(if n == u32::MAX { 0 } else { (n + 1) as u32 })),
            ),
        }
    }
}

/// `<li>`: inside a quote the prefix goes on a new quote line; elsewhere a new
/// line starts with the prefix.
pub open spec fn li_open(v: ParseV) -> ParseV {
    let (p, ls) = li_prefix(v.lists);
    if v.in_bq {
        ParseV { bq: v.bq.push('\n') + p, lists: ls, ..v }
    } else {
        let b = broke(ParseV { lists: ls, ..v });
        ParseV { cur: push_text(b.cur, p, RichStyle::Plain), ..b }
    }
}

pub open spec fn list_tag(v: ParseV, kind: ListKind, closing: bool) -> ParseV {
    if closing {
        ParseV { lists: if v.lists.len() > 0 { v.lists.drop_last() } else { v.lists }, ..v }
    } else {
        ParseV { lists: v.lists.push(kind), ..v }
    }
}

pub open spec fn bq_tag(v: ParseV, closing: bool) -> ParseV {
    if closing {
        let b = broke(ParseV { in_bq: false, ..v });
        ParseV { lines: flushed_quote(v.bq, b.lines), bq: Seq::empty(), ..b }
    } else {
        ParseV { in_bq: true, bq: Seq::empty(), ..v }
    }
}

pub open spec fn heading_tag(v: ParseV, closing: bool) -> ParseV {
    if closing {
        let b = broke(ParseV { in_h: false, ..v });
        ParseV { lines: flushed_heading(v.h, b.lines), h: Seq::empty(), ..b }
    } else {
        ParseV { in_h: true, h: Seq::empty(), ..v }
    }
}

pub open spec fn mailto() -> Seq<char> {
    seq!['m', 'a', 'i', 'l', 't', 'o', ':']
}

/// A link as text: `[address]` when its text is empty or repeats the address,
/// else `text [address]`; a `mailto:` address is shown without the scheme.
pub open spec fn anchor_label(inner: Seq<char>, url: Seq<char>) -> Seq<char> {
    let display = if crate::cli::has_prefix(url, mailto()) { url.skip(7) } else { url };
    let tr = trim_by(inner, is_ws());
    if tr.len() == 0 || tr == url || tr == display {
        seq!['['] + display + seq![']']
    } else {
        tr + seq![' ', '['] + display + seq![']']
    }
}

pub open spec fn anchor_text(v: ParseV) -> Seq<char> {
    match v.href {
        Some(u) => anchor_label(text_of(v.anchor), u),
        None => text_of(v.anchor),
    }
}

pub open spec fn close_anchor(v: ParseV) -> ParseV {
    ParseV { in_anchor: false, href: None, cur: push_text(v.cur, anchor_text(v), RichStyle::Plain), anchor: Seq::empty(), ..v }
}

pub open spec fn anchor_tag(v: ParseV, closing: bool, raw: Seq<char>) -> ParseV {
    if !closing {
        match href_from(raw, 0) {
            Some(u) => ParseV { in_anchor: true, href: Some(u), anchor: Seq::empty(), ..v },
            None => v,
        }
    } else if v.in_anchor {
        close_anchor(v)
    } else {
        v
    }
}

/// `ems` without any `k`.
pub open spec fn remove_all(ems: Seq<EmphasisKind>, k: EmphasisKind) -> Seq<EmphasisKind>
    decreases ems.len(),
{
    if ems.len() == 0 {
        ems
    } else {
        let r = remove_all(ems.drop_last(), k);
        if ems.last() == k { r } else { r.push(ems.last()) }
    }
}

pub open spec fn em_tag(v: ParseV, k: EmphasisKind, closing: bool) -> ParseV {
    if closing {
        ParseV { ems: remove_all(v.ems, k), ..v }
    } else {
        ParseV { ems: v.ems.push(k), ..v }
    }
}

pub open spec fn pre_tag(v: ParseV, closing: bool) -> ParseV {
    if closing {
        let pls = v.pre_lines.push(v.pre_cur);
        let b = broke(ParseV { in_pre: false, pre_lines: Seq::empty(), pre_cur: Seq::empty(), ..v });
        ParseV { lines: flushed_pre(pls, b.lines), ..b }
    } else {
        ParseV { in_pre: true, pre_lines: Seq::empty(), pre_cur: Seq::empty(), ..v }
    }
}

pub open spec fn close_cell(v: ParseV) -> ParseV {
    match v.cell {
        Some(c) => match v.row {
            Some(r) => ParseV { cell: None, row: Some(r.push(c)), ..v },
            None => ParseV { cell: None, ..v },
        },
        None => v,
    }
}

pub open spec fn close_row(v: ParseV) -> ParseV {
    match v.row {
        Some(r) => ParseV { rows: v.rows.push(r), row: None, ..v },
        None => v,
    }
}

pub open spec fn table_tag(v: ParseV, closing: bool) -> ParseV {
    if closing {
        let c = close_row(close_cell(v));
        let b = broke(ParseV { rows: Seq::empty(), in_table: false, ..c });
        ParseV { lines: flushed_table(c.rows, b.lines), ..b }
    } else {
        ParseV { in_table: true, rows: Seq::empty(), row: None, cell: None, ..v }
    }
}

pub open spec fn tr_tag(v: ParseV, closing: bool) -> ParseV {
    let c = close_row(close_cell(v));
    if closing { c } else { ParseV { row: Some(Seq::empty()), ..c } }
}

pub open spec fn cell_tag(v: ParseV, closing: bool, hdr: bool) -> ParseV {
    let c = close_cell(v);
    if closing { c } else { ParseV { cell: Some(CellV { text: Seq::empty(), is_header: hdr }), ..c } }
}

pub open spec fn is_heading_name(el: Seq<char>) -> bool {
    el.len() == 2 && el[0] == 'h' && '1' <= el[1] && el[1] <= '6'
}

/// A tag applied to the state.
pub open spec fn process_tag(v: ParseV, raw: Seq<char>) -> ParseV {
    let (closing, el) = tag_parts(raw);
    if el == seq!['b', 'r'] || el == seq!['p'] || el == seq!['d', 'i', 'v'] {
        newline(v)
    } else if el == seq!['u', 'l'] {
        list_tag(v, ListKind::Unordered, closing)
    } else if el == seq!['o', 'l'] {
        list_tag(v, ListKind::Ordered(1), closing)
    } else if el == seq!['l', 'i'] {
        if !closing { li_open(v) } else { v }
    } else if el == seq!['b', 'l', 'o', 'c', 'k', 'q', 'u', 'o', 't', 'e'] {
        bq_tag(v, closing)
    } else if el == seq!['a'] {
        anchor_tag(v, closing, raw)
    } else if el == seq!['s', 't', 'r', 'o', 'n', 'g'] || el == seq!['b'] {
        em_tag(v, EmphasisKind::Bold, closing)
    } else if el == seq!['e', 'm'] || el == seq!['i'] {
        em_tag(v, EmphasisKind::Italic, closing)
    } else if el == seq!['c', 'o', 'd', 'e'] {
        em_tag(v, EmphasisKind::Code, closing)
    } else if el == seq!['s', 't', 'r', 'i', 'k', 'e'] || el == seq!['d', 'e', 'l'] {
        em_tag(v, EmphasisKind::Strike, closing)
    } else if el == seq!['u'] {
        em_tag(v, EmphasisKind::Underline, closing)
    } else if el == seq!['p', 'r', 'e'] {
        pre_tag(v, closing)
    } else if el == seq!['t', 'a', 'b', 'l', 'e'] {
        table_tag(v, closing)
    } else if el == seq!['t', 'r'] {
        tr_tag(v, closing)
    } else if el == seq!['t', 'd'] {
        cell_tag(v, closing, false)
    } else if el == seq!['t', 'h'] {
        cell_tag(v, closing, true)
    } else if is_heading_name(el) {
        heading_tag(v, closing)
    } else {
        v
    }
}

fn next_li_prefix(lists: &mut Vec<ListKind>) -> (r: String)
    ensures
        (r@, final(lists)@) == li_prefix(old(lists)@),
{
    let n = lists.len();
    if n == 0 {
        let b = string_of(&['\u{2022}', ' ']);
        proof { assert(b@ =~= bullet()); }
        return b;
    }
    match lists[n - 1] {
        ListKind::Unordered => {
            let b = string_of(&['\u{2022}', ' ']);
            proof { assert(b@ =~= bullet()); }
            b
        },
        ListKind::Ordered(k) => {
            let mut p = u64_digits(k as u64);
            push_char(&mut p, '.');
            push_char(&mut p, ' ');
            let next: u32 = if k == u32::MAX { 0 } else { k + 1 };
            lists.set(n - 1, ListKind::Ordered(next));
            proof { assert(p@ =~= digits(k as nat) + seq!['.', ' ']); }
            p
        },
    }
}

fn handle_list_item_open(st: &mut RichParseState)
    ensures
        final(st)@ == li_open(old(st)@),
{
    let prefix = next_li_prefix(&mut st.list_stack);
    if st.in_blockquote {
        push_char(&mut st.blockquote_inner, '\n');
        push_str(&mut st.blockquote_inner, prefix.as_str());
    } else {
        break_line(st);
        push_to_line(&mut st.current_line, prefix.as_str(), RichStyle::Plain);
    }
}

fn take_string(s: &mut String) -> (r: String)
    ensures
        r@ == old(s)@,
        final(s)@.len() == 0,
{
    let mut out = String::new();
    std::mem::swap(&mut out, s);
    out
}

fn handle_blockquote_tag(st: &mut RichParseState, closing: bool)
    ensures
        final(st)@ == bq_tag(old(st)@, closing),
{
    if closing {
        st.in_blockquote = false;
        let inner = take_string(&mut st.blockquote_inner);
        break_line(st);
        flush_blockquote_rich(inner.as_str(), &mut st.lines);
        proof { assert(st.blockquote_inner@ =~= Seq::<char>::empty()); }
    } else {
        st.in_blockquote = true;
        st.blockquote_inner = String::new();
    }
}

fn handle_heading_tag(st: &mut RichParseState, closing: bool)
    ensures
        final(st)@ == heading_tag(old(st)@, closing),
{
    if closing {
        st.in_heading = false;
        let inner = take_string(&mut st.heading_inner);
        break_line(st);
        flush_heading_rich(inner.as_str(), &mut st.lines);
        proof { assert(st.heading_inner@ =~= Seq::<char>::empty()); }
    } else {
        st.in_heading = true;
        st.heading_inner = String::new();
    }
}

fn spans_text(spans: &Vec<RichSpan>) -> (r: String)
    ensures
        r@ == text_of(line_view(spans@)),
{
    let mut out = String::new();
    let mut i: usize = 0;
    while i < spans.len()
        invariant
            i <= spans@.len(),
            out@ == text_of(line_view(spans@).subrange(0, i as int)),
        decreases spans.len() - i,
    {
        push_str(&mut out, spans[i].text.as_str());
        proof {
            let sub = line_view(spans@).subrange(0, i + 1);
            assert(sub.drop_last() =~= line_view(spans@).subrange(0, i as int));
            assert(sub.last() == spans@[i as int]@);
        }
        i += 1;
    }
    proof { assert(line_view(spans@).subrange(0, spans@.len() as int) =~= line_view(spans@)); }
    out
}

fn anchor_label_exec(inner: &str, url: &str) -> (r: String)
    ensures
        r@ == anchor_label(inner@, url@),
{
    let uc = chars_of(url);
    let m: Vec<char> = vec!['m', 'a', 'i', 'l', 't', 'o', ':'];
    proof { assert(m@ =~= mailto()); }
    let display: Vec<char> = if crate::cli::strip_prefix_len(&uc, &m) {
        let mut d: Vec<char> = Vec::new();
        let mut k: usize = 7;
        while k < uc.len()
            invariant
                7 <= k <= uc@.len(),
                d@ == uc@.subrange(7, k as int),
            decreases uc.len() - k,
        {
            d.push(uc[k]);
            k += 1;
            proof { assert(d@ =~= uc@.subrange(7, k as int)); }
        }
        proof { assert(d@ =~= uc@.skip(7)); }
        d
    } else {
        uc.clone()
    };
    let ic = chars_of(inner);
    let tr = trim_ws(&ic);
    let mut out = String::new();
    if tr.len() == 0 || crate::textutil::chars_eq(&tr, &uc) || crate::textutil::chars_eq(&tr, &display) {
        push_char(&mut out, '[');
        push_str(&mut out, string_of(display.as_slice()).as_str());
        push_char(&mut out, ']');
        proof { assert(out@ =~= seq!['['] + display@ + seq![']']); }
    } else {
        push_str(&mut out, string_of(tr.as_slice()).as_str());
        push_char(&mut out, ' ');
        push_char(&mut out, '[');
        push_str(&mut out, string_of(display.as_slice()).as_str());
        push_char(&mut out, ']');
        proof { assert(out@ =~= tr@ + seq![' ', '['] + display@ + seq![']']); }
    }
    out
}

fn anchor_text_exec(st: &RichParseState) -> (r: String)
    ensures
        r@ == anchor_text(st@),
{
    let inner = spans_text(&st.anchor_spans);
    match &st.anchor_href {
        Some(u) => anchor_label_exec(inner.as_str(), u.as_str()),
        None => inner,
    }
}

fn close_anchor_exec(st: &mut RichParseState)
    ensures
        final(st)@ == close_anchor(old(st)@),
{
    let label = anchor_text_exec(st);
    st.in_anchor = false;
    st.anchor_href = None;
    push_to_line(&mut st.current_line, label.as_str(), RichStyle::Plain);
    st.anchor_spans = Vec::new();
    proof { assert(line_view(st.anchor_spans@) =~= Seq::<SpanV>::empty()); }
}

fn handle_anchor_tag(st: &mut RichParseState, closing: bool, raw: &str)
    ensures
        final(st)@ == anchor_tag(old(st)@, closing, raw@),
{
    if !closing {
        match extract_href(raw) {
            Some(url) => {
                st.in_anchor = true;
                st.anchor_href = Some(url);
                st.anchor_spans = Vec::new();
                proof { assert(line_view(st.anchor_spans@) =~= Seq::<SpanV>::empty()); }
            },
            None => {},
        }
    } else if st.in_anchor {
        close_anchor_exec(st);
    }
}

fn handle_emphasis_tag(st: &mut RichParseState, kind: EmphasisKind, closing: bool)
    ensures
        final(st)@ == em_tag(old(st)@, kind, closing),
{
    if closing {
        let mut kept: Vec<EmphasisKind> = Vec::new();
        let mut i: usize = 0;
        while i < st.emphasis_stack.len()
            invariant
                i <= st.emphasis_stack@.len(),
                kept@ == remove_all(st.emphasis_stack@.subrange(0, i as int), kind),
            decreases st.emphasis_stack.len() - i,
        {
            let k = st.emphasis_stack[i];
            if k != kind {
                kept.push(k);
            }
            proof {
                let sub = st.emphasis_stack@.subrange(0, i + 1);
                assert(sub.drop_last() =~= st.emphasis_stack@.subrange(0, i as int));
            }
            i += 1;
        }
        proof { assert(st.emphasis_stack@.subrange(0, st.emphasis_stack@.len() as int) =~= st.emphasis_stack@); }
        st.emphasis_stack = kept;
    } else {
        st.emphasis_stack.push(kind);
    }
}

fn take_lines(v: &mut Vec<RichLine>) -> (r: Vec<RichLine>)
    ensures
        r@ == old(v)@,
        final(v)@.len() == 0,
{
    let mut out: Vec<RichLine> = Vec::new();
    std::mem::swap(&mut out, v);
    out
}

fn handle_pre_tag(st: &mut RichParseState, closing: bool)
    ensures
        final(st)@ == pre_tag(old(st)@, closing),
{
    if closing {
        st.in_pre = false;
        let mut partial: RichLine = Vec::new();
        std::mem::swap(&mut partial, &mut st.pre_current_line);
        push_rich_line(&mut st.pre_lines, partial);
        let pls = take_lines(&mut st.pre_lines);
        break_line(st);
        flush_pre_rich_lines(&pls, &mut st.lines);
        proof {
            assert(lines_view(st.pre_lines@) =~= Seq::<Seq<SpanV>>::empty());
            assert(line_view(st.pre_current_line@) =~= Seq::<SpanV>::empty());
        }
    } else {
        st.in_pre = true;
        st.pre_lines = Vec::new();
        st.pre_current_line = Vec::new();
        proof {
            assert(lines_view(st.pre_lines@) =~= Seq::<Seq<SpanV>>::empty());
            assert(line_view(st.pre_current_line@) =~= Seq::<SpanV>::empty());
        }
    }
}

fn close_current_table_cell(st: &mut RichParseState)
    ensures
        final(st)@ == close_cell(old(st)@),
{
    let mut cell: Option<TableCell> = None;
    std::mem::swap(&mut cell, &mut st.table_current_cell);
    match cell {
        Some(c) => {
            match &mut st.table_current_row {
                Some(row) => {
                    let ghost before = row_view(*row);
                    row.cells.push(c);
                    proof { assert(row_view(*row) =~= before.push(c@)); }
                },
                None => {},
            }
        },
        None => {},
    }
}

fn close_current_table_row(st: &mut RichParseState)
    ensures
        final(st)@ == close_row(old(st)@),
{
    let mut row: Option<TableRow> = None;
    std::mem::swap(&mut row, &mut st.table_current_row);
    match row {
        Some(r) => {
            let ghost before = rows_view(st.table_rows@);
            st.table_rows.push(r);
            proof { assert(rows_view(st.table_rows@) =~= before.push(row_view(r))); }
        },
        None => {},
    }
}

fn take_rows(v: &mut Vec<TableRow>) -> (r: Vec<TableRow>)
    ensures
        r@ == old(v)@,
        final(v)@.len() == 0,
{
    let mut out: Vec<TableRow> = Vec::new();
    std::mem::swap(&mut out, v);
    out
}

fn handle_table_tag(st: &mut RichParseState, closing: bool)
    ensures
        final(st)@ == table_tag(old(st)@, closing),
{
    if closing {
        close_current_table_cell(st);
        close_current_table_row(st);
        let rows = take_rows(&mut st.table_rows);
        st.in_table = false;
        break_line(st);
        flush_table_rich(&rows, &mut st.lines);
        proof { assert(rows_view(st.table_rows@) =~= Seq::<Seq<CellV>>::empty()); }
    } else {
        st.in_table = true;
        st.table_rows = Vec::new();
        st.table_current_row = None;
        st.table_current_cell = None;
        proof { assert(rows_view(st.table_rows@) =~= Seq::<Seq<CellV>>::empty()); }
    }
}

fn handle_tr_tag(st: &mut RichParseState, closing: bool)
    ensures
        final(st)@ == tr_tag(old(st)@, closing),
{
    close_current_table_cell(st);
    close_current_table_row(st);
    if !closing {
        let r = TableRow { cells: Vec::new() };
        proof { assert(row_view(r) =~= Seq::<CellV>::empty()); }
        st.table_current_row = Some(r);
    }
}

fn handle_cell_tag(st: &mut RichParseState, closing: bool, is_header: bool)
    ensures
        final(st)@ == cell_tag(old(st)@, closing, is_header),
{
    close_current_table_cell(st);
    if !closing {
        st.table_current_cell = Some(TableCell { text: String::new(), is_header });
    }
}

fn el_is(el: &Vec<char>, lit: &[char]) -> (r: bool)
    ensures
        r == (el@ == lit@),
{
    let v = slice_vec(lit);
    crate::textutil::chars_eq(el, &v)
}

fn slice_vec(lit: &[char]) -> (r: Vec<char>)
    ensures
        r@ == lit@,
{
    let mut v: Vec<char> = Vec::new();
    let mut i: usize = 0;
    while i < lit.len()
        invariant
            i <= lit@.len(),
            v@ == lit@.subrange(0, i as int),
        decreases lit.len() - i,
    {
        v.push(lit[i]);
        i += 1;
        proof { assert(v@ =~= lit@.subrange(0, i as int)); }
    }
    proof { assert(lit@.subrange(0, lit@.len() as int) =~= lit@); }
    v
}

/// Applies one tag to the parse state.
fn process_tag_rich(raw: &str, st: &mut RichParseState)
    ensures
        final(st)@ == process_tag(old(st)@, raw@),
{
    let (closing, el) = tag_parts_exec(raw);
    proof {
        assert(['b', 'r']@ =~= seq!['b', 'r']);
        assert(['p']@ =~= seq!['p']);
        assert(['d', 'i', 'v']@ =~= seq!['d', 'i', 'v']);
        assert(['u', 'l']@ =~= seq!['u', 'l']);
        assert(['o', 'l']@ =~= seq!['o', 'l']);
        assert(['l', 'i']@ =~= seq!['l', 'i']);
        assert(['b', 'l', 'o', 'c', 'k', 'q', 'u', 'o', 't', 'e']@ =~= seq!['b', 'l', 'o', 'c', 'k', 'q', 'u', 'o', 't', 'e']);
        assert(['a']@ =~= seq!['a']);
        assert(['s', 't', 'r', 'o', 'n', 'g']@ =~= seq!['s', 't', 'r', 'o', 'n', 'g']);
        assert(['b']@ =~= seq!['b']);
        assert(['e', 'm']@ =~= seq!['e', 'm']);
        assert(['i']@ =~= seq!['i']);
        assert(['c', 'o', 'd', 'e']@ =~= seq!['c', 'o', 'd', 'e']);
        assert(['s', 't', 'r', 'i', 'k', 'e']@ =~= seq!['s', 't', 'r', 'i', 'k', 'e']);
        assert(['d', 'e', 'l']@ =~= seq!['d', 'e', 'l']);
        assert(['u']@ =~= seq!['u']);
        assert(['p', 'r', 'e']@ =~= seq!['p', 'r', 'e']);
        assert(['t', 'a', 'b', 'l', 'e']@ =~= seq!['t', 'a', 'b', 'l', 'e']);
        assert(['t', 'r']@ =~= seq!['t', 'r']);
        assert(['t', 'd']@ =~= seq!['t', 'd']);
        assert(['t', 'h']@ =~= seq!['t', 'h']);
    }
    if el_is(&el, &['b', 'r']) || el_is(&el, &['p']) || el_is(&el, &['d', 'i', 'v']) {
        push_newline_to_context(st);
    } else if el_is(&el, &['u', 'l']) {
        if closing { st.list_stack.pop(); } else { st.list_stack.push(ListKind::Unordered); }
    } else if el_is(&el, &['o', 'l']) {
        if closing { st.list_stack.pop(); } else { st.list_stack.push(ListKind::Ordered(1)); }
    } else if el_is(&el, &['l', 'i']) {
        if !closing {
            handle_list_item_open(st);
        }
    } else if el_is(&el, &['b', 'l', 'o', 'c', 'k', 'q', 'u', 'o', 't', 'e']) {
        handle_blockquote_tag(st, closing);
    } else if el_is(&el, &['a']) {
        handle_anchor_tag(st, closing, raw);
    } else if el_is(&el, &['s', 't', 'r', 'o', 'n', 'g']) || el_is(&el, &['b']) {
        handle_emphasis_tag(st, EmphasisKind::Bold, closing);
    } else if el_is(&el, &['e', 'm']) || el_is(&el, &['i']) {
        handle_emphasis_tag(st, EmphasisKind::Italic, closing);
    } else if el_is(&el, &['c', 'o', 'd', 'e']) {
        handle_emphasis_tag(st, EmphasisKind::Code, closing);
    } else if el_is(&el, &['s', 't', 'r', 'i', 'k', 'e']) || el_is(&el, &['d', 'e', 'l']) {
        handle_emphasis_tag(st, EmphasisKind::Strike, closing);
    } else if el_is(&el, &['u']) {
        handle_emphasis_tag(st, EmphasisKind::Underline, closing);
    } else if el_is(&el, &['p', 'r', 'e']) {
        handle_pre_tag(st, closing);
    } else if el_is(&el, &['t', 'a', 'b', 'l', 'e']) {
        handle_table_tag(st, closing);
    } else if el_is(&el, &['t', 'r']) {
        handle_tr_tag(st, closing);
    } else if el_is(&el, &['t', 'd']) {
        handle_cell_tag(st, closing, false);
    } else if el_is(&el, &['t', 'h']) {
        handle_cell_tag(st, closing, true);
    } else if el.len() == 2 && el[0] == 'h' && '1' <= el[1] && el[1] <= '6' {
        handle_heading_tag(st, closing);
    }
}


// ---------------------------------------------------------------------------
// Finishing and the whole conversion.
// ---------------------------------------------------------------------------

/// Constructs still open at the end of the text, flushed in order: a link
/// (its label joins the line), a quote, a heading, preformatted text, a table.
pub open spec fn flush_open(v: ParseV) -> ParseV {
    let v1 = if v.in_anchor {
        ParseV { href: None, cur: push_text(v.cur, anchor_text(v), RichStyle::Plain), ..v }
    } else {
        v
    };
    let v2 = if v1.in_bq && v1.bq.len() > 0 {
        let b = broke(v1);
        ParseV { lines: flushed_quote(v1.bq, b.lines), ..b }
    } else {
        v1
    };
    let v3 = if v2.in_h && v2.h.len() > 0 {
        let b = broke(v2);
        ParseV { lines: flushed_heading(v2.h, b.lines), ..b }
    } else {
        v2
    };
    let v4 = if v3.in_pre && (v3.pre_lines.len() > 0 || v3.pre_cur.len() > 0) {
        let pls = v3.pre_lines.push(v3.pre_cur);
        let b = broke(ParseV { pre_lines: Seq::empty(), pre_cur: Seq::empty(), ..v3 });
        ParseV { lines: flushed_pre(pls, b.lines), ..b }
    } else {
        v3
    };
    if v4.in_table {
        let c = close_row(close_cell(v4));
        let b = broke(ParseV { rows: Seq::empty(), ..c });
        ParseV { lines: flushed_table(c.rows, b.lines), ..b }
    } else {
        v4
    }
}

/// The lines, with the current line added when it has spans.
pub open spec fn finished(v: ParseV) -> Seq<Seq<SpanV>> {
    if v.cur.len() > 0 { v.lines.push(v.cur) } else { v.lines }
}

/// A line with no visible text: every span is whitespace only.
pub open spec fn blank_line(l: Seq<SpanV>) -> bool {
    forall|k: int| 0 <= k < l.len() ==> trim_by((#[trigger] l[k]).text, is_ws()).len() == 0
}

/// Lines with each run of blank lines cut to its first two, and the length of
/// the blank run at the end.
pub open spec fn norm_fold(ls: Seq<Seq<SpanV>>) -> (Seq<Seq<SpanV>>, nat)
    decreases ls.len(),
{
    if ls.len() == 0 {
        (Seq::empty(), 0)
    } else {
        let (r, run) = norm_fold(ls.drop_last());
        let l = ls.last();
        if blank_line(l) {
            if run + 1 <= 2 { (r.push(l), run + 1) } else { (r, run + 1) }
        } else {
            (r.push(l), 0)
        }
    }
}

pub open spec fn lead_empty(r: Seq<Seq<SpanV>>) -> int
    decreases r.len(),
{
    if r.len() == 0 || r[0].len() != 0 {
        0
    } else {
        1 + lead_empty(r.drop_first())
    }
}

pub open spec fn trail_empty(r: Seq<Seq<SpanV>>) -> int
    decreases r.len(),
{
    if r.len() == 0 || r.last().len() != 0 {
        0
    } else {
        1 + trail_empty(r.drop_last())
    }
}

/// Runs of blank lines cut to two, and empty lines at either end dropped.
pub open spec fn normalized(ls: Seq<Seq<SpanV>>) -> Seq<Seq<SpanV>> {
    let r = norm_fold(ls).0;
    let a = lead_empty(r);
    let t = r.skip(a);
    t.take(t.len() - trail_empty(t))
}

/// The first tag at or after `p` (the length when none).
pub open spec fn next_tag(s: Seq<char>, p: int) -> int
    decreases s.len() - p,
{
    if p < 0 || p >= s.len() {
        s.len() as int
    } else if any_tag_at(s, p) is Some {
        p
    } else {
        next_tag(s, p + 1)
    }
}

pub proof fn lemma_next_tag(s: Seq<char>, p: int)
    requires
        0 <= p <= s.len(),
    ensures
        p <= next_tag(s, p) <= s.len(),
        next_tag(s, p) < s.len() ==> any_tag_at(s, next_tag(s, p)) is Some,
    decreases s.len() - p,
{
    if p < s.len() && any_tag_at(s, p) is None {
        lemma_next_tag(s, p + 1);
    }
}

pub proof fn lemma_any_tag_end(s: Seq<char>, t: int)
    requires
        any_tag_at(s, t) is Some,
    ensures
        t < any_tag_at(s, t)->0 <= s.len(),
{
    lemma_gt_from(s, t + 1);
}

/// The state after the text from `p` on: each stretch of text goes to the
/// current context, then the tag after it is applied.
pub open spec fn scan(v: ParseV, s: Seq<char>, p: int) -> ParseV
    decreases s.len() - p,
{
    if p < 0 || p > s.len() {
        v
    } else {
        let t = next_tag(s, p);
        proof { lemma_next_tag(s, p); }
        if t >= s.len() {
            accumulate(v, s.subrange(p, s.len() as int))
        } else {
            let e = any_tag_at(s, t)->0;
            proof { lemma_any_tag_end(s, t); }
            scan(process_tag(accumulate(v, s.subrange(p, t)), s.subrange(t, e)), s, e)
        }
    }
}

/// The styled lines of task HTML.
pub open spec fn rich_lines(html: Seq<char>) -> Seq<Seq<SpanV>> {
    if html.len() == 0 {
        Seq::empty()
    } else {
        normalized(finished(flush_open(scan(init_view(), html, 0))))
    }
}

fn flush_open_contexts(st: &mut RichParseState)
    ensures
        final(st)@ == flush_open(old(st)@),
{
    if st.in_anchor {
        let label = anchor_text_exec(st);
        st.anchor_href = None;
        push_to_line(&mut st.current_line, label.as_str(), RichStyle::Plain);
    }
    if st.in_blockquote && !st.blockquote_inner.as_str().is_empty() {
        let inner = st.blockquote_inner.clone();
        break_line(st);
        flush_blockquote_rich(inner.as_str(), &mut st.lines);
    }
    if st.in_heading && !st.heading_inner.as_str().is_empty() {
        let inner = st.heading_inner.clone();
        break_line(st);
        flush_heading_rich(inner.as_str(), &mut st.lines);
    }
    if st.in_pre && (st.pre_lines.len() > 0 || st.pre_current_line.len() > 0) {
        let mut partial: RichLine = Vec::new();
        std::mem::swap(&mut partial, &mut st.pre_current_line);
        push_rich_line(&mut st.pre_lines, partial);
        let pls = take_lines(&mut st.pre_lines);
        break_line(st);
        flush_pre_rich_lines(&pls, &mut st.lines);
        proof {
            assert(lines_view(st.pre_lines@) =~= Seq::<Seq<SpanV>>::empty());
            assert(line_view(st.pre_current_line@) =~= Seq::<SpanV>::empty());
        }
    }
    if st.in_table {
        close_current_table_cell(st);
        close_current_table_row(st);
        let rows = take_rows(&mut st.table_rows);
        break_line(st);
        flush_table_rich(&rows, &mut st.lines);
        proof { assert(rows_view(st.table_rows@) =~= Seq::<Seq<CellV>>::empty()); }
    }
}

fn line_is_blank(l: &RichLine) -> (r: bool)
    ensures
        r == blank_line(line_view(l@)),
{
    let mut k: usize = 0;
    while k < l.len()
        invariant
            k <= l@.len(),
            forall|j: int| 0 <= j < k ==> trim_by((#[trigger] line_view(l@)[j]).text, is_ws()).len() == 0,
        decreases l.len() - k,
    {
        let cs = chars_of(l[k].text.as_str());
        let tr = trim_ws(&cs);
        proof { assert(line_view(l@)[k as int].text == cs@); }
        if tr.len() > 0 {
            return false;
        }
        k += 1;
    }
    true
}

fn normalize_rich_lines(lines: Vec<RichLine>) -> (r: Vec<RichLine>)
    ensures
        lines_view(r@) == normalized(lines_view(lines@)),
{
    let ghost lv = lines_view(lines@);
    let mut result: Vec<RichLine> = Vec::new();
    let mut run: usize = 0;
    let mut i: usize = 0;
    let n = lines.len();
    let mut src = lines;
    // Take the lines from the back so each one moves instead of being copied.
    let mut rev: Vec<RichLine> = Vec::new();
    while src.len() > 0
        invariant
            src@.len() + rev@.len() == n,
            lv.len() == n,
            forall|k: int| 0 <= k < src@.len() ==> line_view((#[trigger] src@[k])@) == lv[k],
            forall|k: int| 0 <= k < rev@.len() ==> line_view((#[trigger] rev@[k])@) == lv[n - 1 - k],
        decreases src@.len(),
    {
        let l = src.pop().unwrap();
        rev.push(l);
    }
    proof {
        assert(norm_fold(lv.subrange(0, 0)) == (Seq::<Seq<SpanV>>::empty(), 0nat));
    }
    while i < n
        invariant
            i <= n,
            rev@.len() == n - i,
            lv.len() == n,
            forall|k: int| 0 <= k < rev@.len() ==> line_view((#[trigger] rev@[k])@) == lv[n - 1 - k],
            (lines_view(result@), run as nat) == norm_fold(lv.subrange(0, i as int)),
            run <= i,
        decreases n - i,
    {
        let l = rev.pop().unwrap();
        proof {
            assert(line_view(l@) == lv[i as int]);
            let sub = lv.subrange(0, i + 1);
            assert(sub.drop_last() =~= lv.subrange(0, i as int));
            assert(sub.last() == lv[i as int]);
        }
        if line_is_blank(&l) {
            run += 1;
            if run <= 2 {
                push_rich_line(&mut result, l);
            }
        } else {
            run = 0;
            push_rich_line(&mut result, l);
        }
        i += 1;
    }
    proof { assert(lv.subrange(0, n as int) =~= lv); }
    let ghost r = lines_view(result@);
    // Drop empty lines at the front and the back.
    let m = result.len();
    let mut a: usize = 0;
    proof { assert(r.skip(0) =~= r); }
    while a < m && result[a].len() == 0
        invariant
            a <= m == result@.len(),
            r == lines_view(result@),
            lead_empty(r) == a + lead_empty(r.skip(a as int)),
        decreases m - a,
    {
        proof {
            assert(r[a as int] == line_view(result@[a as int]@));
            assert(r.skip(a as int).drop_first() =~= r.skip(a + 1));
        }
        a += 1;
    }
    proof {
        if a < m {
            assert(r.skip(a as int)[0] == r[a as int]);
            assert(r[a as int] == line_view(result@[a as int]@));
        }
        assert(lead_empty(r.skip(a as int)) == 0);
    }
    let ghost t = r.skip(a as int);
    let mut b: usize = m;
    proof { assert(t.take(m - a) =~= t); }
    while b > a && result[b - 1].len() == 0
        invariant
            a <= b <= m == result@.len(),
            r == lines_view(result@),
            t == r.skip(a as int),
            trail_empty(t) == (m - b) + trail_empty(t.take(b - a)),
        decreases b,
    {
        proof {
            assert(r[b - 1] == line_view(result@[b - 1]@));
            assert(t.take(b - a).last() == r[b - 1]);
            assert(t.take(b - a).drop_last() =~= t.take(b - 1 - a));
        }
        b -= 1;
    }
    proof {
        assert(t.take(t.len() as int) =~= t);
        if b > a {
            assert(t.take(b - a).last() == r[b - 1]);
            assert(r[b - 1] == line_view(result@[b - 1]@));
        }
        assert(trail_empty(t.take(b - a)) == 0);
    }
    let mut out: Vec<RichLine> = Vec::new();
    proof {
        assert forall|j: int| 0 <= j < result@.len() implies line_view((#[trigger] result@[j])@) == r[j] by {}
    }
    // Move the kept range out, back to front, then restore the order.
    while result.len() > b
        invariant
            b <= result@.len() <= m,
            r.len() == m,
            forall|j: int| 0 <= j < result@.len() ==> line_view((#[trigger] result@[j])@) == r[j],
        decreases result@.len(),
    {
        let _dropped = result.pop();
    }
    let mut kept: Vec<RichLine> = Vec::new();
    while result.len() > a
        invariant
            a <= result@.len() <= b,
            forall|j: int| 0 <= j < result@.len() ==> line_view((#[trigger] result@[j])@) == r[j],
            kept@.len() == b - result@.len(),
            forall|j: int| 0 <= j < kept@.len() ==> line_view((#[trigger] kept@[j])@) == r[b - 1 - j],
        decreases result@.len(),
    {
        let l = result.pop().unwrap();
        kept.push(l);
    }
    while kept.len() > 0
        invariant
            a <= b <= m,
            r.len() == m,
            kept@.len() + out@.len() == b - a,
            forall|j: int| 0 <= j < kept@.len() ==> line_view((#[trigger] kept@[j])@) == r[b - 1 - j],
            lines_view(out@) == r.subrange(a as int, a + out@.len()),
        decreases kept@.len(),
    {
        let l = kept.pop().unwrap();
        let ghost before = lines_view(out@);
        let ghost k0 = out@.len();
        proof { assert(line_view(l@) == r[a + k0]); }
        push_rich_line(&mut out, l);
        proof {
            assert(r.subrange(a as int, a + k0 + 1) =~= r.subrange(a as int, a + k0).push(r[a + k0]));
            assert(lines_view(out@) =~= r.subrange(a as int, a + out@.len()));
        }
    }
    proof {
        assert(r.subrange(a as int, b as int) =~= t.take(t.len() - trail_empty(t)));
    }
    out
}

/// Task HTML as styled lines: block tags and `<br>` break lines, lists are
/// bulleted or numbered, `<strong>`/`<b>`, `<em>`/`<i>`, `<code>`,
/// `<strike>`/`<del>` and `<u>` style their text, a link shows as
/// `text [address]`, quotes are prefixed with `> `, headings are bold,
/// `<pre>` keeps its lines in the code style, tables are aligned; runs of
/// blank lines are cut to two and empty lines at either end dropped.
pub fn structured_rich_with_links(html: &str) -> (r: Vec<RichLine>)
    ensures
        lines_view(r@) == rich_lines(html@),
{
    let cs = chars_of(html);
    let n = cs.len();
    if n == 0 {
        let v: Vec<RichLine> = Vec::new();
        proof { assert(lines_view(v@) =~= Seq::<Seq<SpanV>>::empty()); }
        return v;
    }
    let mut st = new_state();
    let mut last: usize = 0;
    let mut i: usize = 0;
    while i < n
        invariant
            n == cs@.len(),
            cs@ == html@,
            last <= i <= n,
            scan(st@, cs@, last as int) == scan(init_view(), cs@, 0),
            next_tag(cs@, last as int) == next_tag(cs@, i as int),
        decreases n - i,
    {
        match crate::htmltext::any_tag_at_exec(&cs, i) {
            Some(e) => {
                let text = crate::render::sub_string(&cs, last, i);
                let tag = crate::render::sub_string(&cs, i, e);
                proof {
                    lemma_next_tag(cs@, last as int);
                    assert(next_tag(cs@, i as int) == i);
                }
                accumulate_text(&mut st, text.as_str());
                process_tag_rich(tag.as_str(), &mut st);
                last = e;
                i = e;
            },
            None => {
                proof { assert(next_tag(cs@, i as int) == next_tag(cs@, i + 1)); }
                i += 1;
            },
        }
    }
    proof {
        lemma_next_tag(cs@, last as int);
    }
    let rest = crate::render::sub_string(&cs, last, n);
    accumulate_text(&mut st, rest.as_str());
    flush_open_contexts(&mut st);
    let mut lines = take_lines(&mut st.lines);
    if st.current_line.len() > 0 {
        let mut c: RichLine = Vec::new();
        std::mem::swap(&mut c, &mut st.current_line);
        push_rich_line(&mut lines, c);
    }
    normalize_rich_lines(lines)
}


/// No three consecutive blank lines.
pub open spec fn no_three_blank(r: Seq<Seq<SpanV>>) -> bool {
    forall|i: int| #![trigger r[i]] 0 <= i && i + 2 < r.len() ==> !(blank_line(r[i]) && blank_line(r[i + 1]) && blank_line(r[i + 2]))
}

/// The number of blank lines at the end.
pub open spec fn tail_blanks(r: Seq<Seq<SpanV>>) -> nat
    decreases r.len(),
{
    if r.len() == 0 || !blank_line(r.last()) {
        0
    } else {
        1 + tail_blanks(r.drop_last())
    }
}

proof fn lemma_norm_fold(ls: Seq<Seq<SpanV>>)
    ensures
        no_three_blank(norm_fold(ls).0),
        tail_blanks(norm_fold(ls).0) == (if norm_fold(ls).1 < 2 { norm_fold(ls).1 } else { 2 }),
    decreases ls.len(),
{
    if ls.len() > 0 {
        let d = ls.drop_last();
        lemma_norm_fold(d);
        let (r, run) = norm_fold(d);
        let l = ls.last();
        if blank_line(l) {
            if run + 1 <= 2 {
                let r2 = r.push(l);
                assert(r2.drop_last() =~= r);
                if r.len() >= 2 && blank_line(r[r.len() - 1]) {
                    assert(r.last() == r[r.len() - 1]);
                    assert(tail_blanks(r) == 1 + tail_blanks(r.drop_last()));
                    assert(r.drop_last().last() == r[r.len() - 2]);
                    assert(!blank_line(r[r.len() - 2]));
                }
                assert forall|i: int| #![trigger r2[i]] 0 <= i && i + 2 < r2.len() implies !(blank_line(r2[i]) && blank_line(r2[i + 1]) && blank_line(r2[i + 2])) by {
                    if i + 2 < r.len() {
                        assert(r2[i] == r[i] && r2[i + 1] == r[i + 1] && r2[i + 2] == r[i + 2]);
                        assert(r[i] == r[i]);
                    } else {
                        assert(r2[i] == r[i] && r2[i + 1] == r[i + 1]);
                    }
                }
            }
        } else {
            let r2 = r.push(l);
            assert(r2.drop_last() =~= r);
            assert forall|i: int| #![trigger r2[i]] 0 <= i && i + 2 < r2.len() implies !(blank_line(r2[i]) && blank_line(r2[i + 1]) && blank_line(r2[i + 2])) by {
                if i + 2 < r.len() {
                    assert(r2[i] == r[i] && r2[i + 1] == r[i + 1] && r2[i + 2] == r[i + 2]);
                    assert(r[i] == r[i]);
                }
            }
        }
    }
}

proof fn lemma_lead_empty(r: Seq<Seq<SpanV>>)
    ensures
        0 <= lead_empty(r) <= r.len(),
        lead_empty(r) < r.len() ==> r[lead_empty(r)].len() != 0,
    decreases r.len(),
{
    if r.len() > 0 && r[0].len() == 0 {
        lemma_lead_empty(r.drop_first());
        let k = lead_empty(r.drop_first());
        if k < r.len() - 1 {
            assert(r.drop_first()[k] == r[k + 1]);
        }
    }
}

proof fn lemma_trail_empty(r: Seq<Seq<SpanV>>)
    ensures
        0 <= trail_empty(r) <= r.len(),
        trail_empty(r) < r.len() ==> r[r.len() - 1 - trail_empty(r)].len() != 0,
    decreases r.len(),
{
    if r.len() > 0 && r.last().len() == 0 {
        lemma_trail_empty(r.drop_last());
    }
}

/// The detail view's styled lines never begin or end with an empty line and
/// never hold three blank lines in a row.
pub proof fn law_rich_lines_shape(html: Seq<char>)
    ensures
        ({
            let r = rich_lines(html);
            &&& no_three_blank(r)
            &&& r.len() > 0 ==> r[0].len() > 0 && r[r.len() - 1].len() > 0
        }),
{
    if html.len() > 0 {
        let ls = finished(flush_open(scan(init_view(), html, 0)));
        lemma_norm_fold(ls);
        let r = norm_fold(ls).0;
        let a = lead_empty(r);
        lemma_lead_empty(r);
        let t = r.skip(a);
        lemma_trail_empty(t);
        let out = t.take(t.len() - trail_empty(t));
        assert(out == normalized(ls));
        assert forall|i: int| #![trigger out[i]] 0 <= i && i + 2 < out.len() implies !(blank_line(out[i]) && blank_line(out[i + 1]) && blank_line(out[i + 2])) by {
            assert(out[i] == r[a + i] && out[i + 1] == r[a + i + 1] && out[i + 2] == r[a + i + 2]);
            assert(r[a + i] == r[a + i]);
        }
        if out.len() > 0 {
            assert(out[0] == r[a]);
            assert(out[out.len() - 1] == t[t.len() - 1 - trail_empty(t)]);
        }
    }
}

// ---------------------------------------------------------------------------
// Numbered lists count their items.
// ---------------------------------------------------------------------------

/// The state after an opening `<ol>` and `i` opening `<li>` tags.
pub open spec fn after_ol_items(v: ParseV, i: nat) -> ParseV
    decreases i,
{
    if i == 0 {
        list_tag(v, ListKind::Ordered(1), false)
    } else {
        li_open(after_ol_items(v, (i - 1) as nat))
    }
}

/// In a numbered list the items are numbered 1, 2, 3, … in order: after an
/// opening `<ol>` and `i` items the list waits to number its next item
/// `i + 1`, the enclosing lists are untouched, and (outside a quote) the line
/// of the `i`-th item starts with `i` in decimal followed by `. `.
pub proof fn law_numbered_items_count_up(v: ParseV, i: nat)
    requires
        i < u32::MAX,
    ensures
        after_ol_items(v, i).lists == v.lists.push(ListKind::Ordered((i + 1) as u32)),
        after_ol_items(v, i).in_bq == v.in_bq,
        i >= 1 && !v.in_bq ==> text_of(after_ol_items(v, i).cur) == digits(i) + seq!['.', ' '],
    decreases i,
{
    if i > 0 {
        law_numbered_items_count_up(v, (i - 1) as nat);
        let w = after_ol_items(v, (i - 1) as nat);
        let ls = w.lists;
        assert(ls.last() == ListKind::Ordered(i as u32));
        assert(li_prefix(ls).1 =~= v.lists.push(ListKind::Ordered((i + 1) as u32)));
        assert(li_prefix(ls).0 == digits(i) + seq!['.', ' ']);
        if !v.in_bq {
            let p = digits(i) + seq!['.', ' '];
            let b = broke(ParseV { lists: li_prefix(ls).1, ..w });
            assert(b.cur.len() == 0);
            assert(push_text(b.cur, p, RichStyle::Plain) == seq![SpanV { text: p, style: RichStyle::Plain }]);
            let one = seq![SpanV { text: p, style: RichStyle::Plain }];
            assert(one.drop_last() =~= Seq::<SpanV>::empty());
            assert(text_of(Seq::<SpanV>::empty()) =~= Seq::<char>::empty());
            assert(one.last().text == p);
            assert(text_of(one) =~= Seq::<char>::empty() + p);
        }
    }
}

} // verus!
