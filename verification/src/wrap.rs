//! The greedy word-wrap shared by plain and styled text. Text is split into
//! segments at line feeds; each segment is filled greedily with words (runs of
//! characters between ASCII whitespace), joined by one space, to at most
//! `width` display columns; a word wider than `width` is split by accumulated
//! column count. Every segment yields at least one line.

use vstd::prelude::*;
use crate::richtext::{Cell, RichStyle, RichLine, RichSpan, SpanV, spans_of, push_text, line_view, cells_of, line_from_cells};
use crate::unicode::{cw, char_width, chars_of, string_of};
use crate::textutil::{ascii_ws, is_ascii_ws, strs};

verus! {

// ---------------------------------------------------------------------------
// Specification.
// ---------------------------------------------------------------------------

pub open spec fn cell_w(c: Cell) -> nat {
    cw(c.0)
}

/// Display columns of a run of cells.
pub open spec fn width_of(s: Seq<Cell>) -> nat
    decreases s.len(),
{
    if s.len() == 0 {
        0
    } else {
        width_of(s.drop_last()) + cell_w(s.last())
    }
}

/// A line feed separates segments; other ASCII whitespace separates words.
pub open spec fn splits(c: Cell, at_newline: bool) -> bool {
    if at_newline {
        c.0 == '\n'
    } else {
        ascii_ws(c.0) && c.0 != '\n'
    }
}

/// The pieces between separators, empty ones included (`<[T]>::split`):
/// `n` separators give `n + 1` pieces.
pub open spec fn pieces(s: Seq<Cell>, at_newline: bool) -> Seq<Seq<Cell>>
    decreases s.len(),
{
    if s.len() == 0 {
        seq![Seq::empty()]
    } else {
        let ps = pieces(s.drop_last(), at_newline);
        if splits(s.last(), at_newline) {
            ps.push(Seq::empty())
        } else {
            ps.update(ps.len() - 1, ps.last().push(s.last()))
        }
    }
}

/// Lines emitted so far, the line being filled and its display width.
pub struct WrapState {
    pub lines: Seq<Seq<Cell>>,
    pub cur: Seq<Cell>,
    pub dw: nat,
}

pub open spec fn sep_cell() -> Cell {
    (' ', RichStyle::Plain)
}

/// Split a word wider than the line by accumulated width (`dw` counts the
/// current line from zero).
pub open spec fn hard_split(st: WrapState, word: Seq<Cell>, width: nat) -> WrapState
    decreases word.len(),
{
    if word.len() == 0 {
        st
    } else {
        let s1 = hard_split(st, word.drop_last(), width);
        let c = word.last();
        if s1.dw + cell_w(c) > width {
            WrapState { lines: s1.lines.push(s1.cur), cur: seq![c], dw: cell_w(c) }
        } else {
            WrapState { lines: s1.lines, cur: s1.cur.push(c), dw: s1.dw + cell_w(c) }
        }
    }
}

pub open spec fn append_word(st: WrapState, word: Seq<Cell>, width: nat) -> WrapState {
    if width_of(word) <= width {
        WrapState { lines: st.lines, cur: st.cur + word, dw: width_of(word) }
    } else {
        hard_split(WrapState { lines: st.lines, cur: st.cur, dw: 0 }, word, width)
    }
}

/// Place a word: after one space on the current line when it fits, else on a new line.
pub open spec fn place_word(st: WrapState, word: Seq<Cell>, width: nat) -> WrapState {
    if st.dw > 0 {
        if st.dw + 1 + width_of(word) <= width {
            WrapState { lines: st.lines, cur: st.cur.push(sep_cell()) + word, dw: st.dw + 1 + width_of(word) }
        } else {
            append_word(WrapState { lines: st.lines.push(st.cur), cur: Seq::empty(), dw: 0 }, word, width)
        }
    } else {
        append_word(st, word, width)
    }
}

pub open spec fn init_state() -> WrapState {
    WrapState { lines: Seq::empty(), cur: Seq::empty(), dw: 0 }
}

/// Place every non-empty piece in order.
pub open spec fn place_all(ws: Seq<Seq<Cell>>, width: nat) -> WrapState
    decreases ws.len(),
{
    if ws.len() == 0 {
        init_state()
    } else {
        let s1 = place_all(ws.drop_last(), width);
        if ws.last().len() == 0 {
            s1
        } else {
            place_word(s1, ws.last(), width)
        }
    }
}

/// The lines of a segment: a wordless segment still yields one (empty) line.
pub open spec fn finish(st: WrapState) -> Seq<Seq<Cell>> {
    if st.cur.len() > 0 || st.lines.len() == 0 {
        st.lines.push(st.cur)
    } else {
        st.lines
    }
}

pub open spec fn wrap_segment(seg: Seq<Cell>, width: nat) -> Seq<Seq<Cell>> {
    finish(place_all(pieces(seg, false), width))
}

pub open spec fn wrap_segments(segs: Seq<Seq<Cell>>, width: nat) -> Seq<Seq<Cell>>
    decreases segs.len(),
{
    if segs.len() == 0 {
        Seq::empty()
    } else {
        wrap_segments(segs.drop_last(), width) + wrap_segment(segs.last(), width)
    }
}

/// The wrapped lines of a cell stream.
pub open spec fn wrap_cells(cells: Seq<Cell>, width: nat) -> Seq<Seq<Cell>> {
    wrap_segments(pieces(cells, true), width)
}

/// Plain characters as cells of plain style.
pub open spec fn plain_cells(s: Seq<char>) -> Seq<Cell> {
    s.map_values(|c: char| (c, RichStyle::Plain))
}

pub open spec fn cell_chars(s: Seq<Cell>) -> Seq<char> {
    s.map_values(|c: Cell| c.0)
}

/// `wrap_text`: the wrapped lines of `text` as strings.
pub open spec fn wrapped_text(text: Seq<char>, width: nat) -> Seq<Seq<char>> {
    if text.len() == 0 || width == 0 {
        Seq::empty()
    } else {
        wrap_cells(plain_cells(text), width).map_values(|l: Seq<Cell>| cell_chars(l))
    }
}

/// `wrap_rich`: the wrapped lines of a styled line.
pub open spec fn wrapped_rich(line: Seq<SpanV>, width: nat) -> Seq<Seq<SpanV>> {
    if line.len() == 0 || width == 0 {
        Seq::empty()
    } else {
        wrap_cells(cells_of(line), width).map_values(|l: Seq<Cell>| spans_of(l))
    }
}

pub open spec fn seqs(v: Seq<Vec<Cell>>) -> Seq<Seq<Cell>> {
    v.map_values(|x: Vec<Cell>| x@)
}

// ---------------------------------------------------------------------------
// Lemmas.
// ---------------------------------------------------------------------------

pub proof fn lemma_pieces_nonempty(s: Seq<Cell>, at_newline: bool)
    ensures
        pieces(s, at_newline).len() >= 1,
    decreases s.len(),
{
    if s.len() > 0 {
        lemma_pieces_nonempty(s.drop_last(), at_newline);
    }
}

pub proof fn lemma_pieces_short(s: Seq<Cell>, at_newline: bool)
    ensures
        forall|i: int| 0 <= i < pieces(s, at_newline).len() ==> #[trigger] pieces(s, at_newline)[i].len() <= s.len(),
    decreases s.len(),
{
    if s.len() > 0 {
        lemma_pieces_short(s.drop_last(), at_newline);
        lemma_pieces_nonempty(s.drop_last(), at_newline);
    }
}

// ---------------------------------------------------------------------------
// Every wrapped line fits the width.
// ---------------------------------------------------------------------------

/// Every cell is at most `width` columns wide.
pub open spec fn narrow(s: Seq<Cell>, width: nat) -> bool {
    forall|i: int| 0 <= i < s.len() ==> cell_w(#[trigger] s[i]) <= width
}

/// Every line is at most `width` columns wide.
pub open spec fn lines_fit(ls: Seq<Seq<Cell>>, width: nat) -> bool {
    forall|i: int| 0 <= i < ls.len() ==> width_of(#[trigger] ls[i]) <= width
}

/// The emitted lines fit, and the current line's width is counted exactly.
pub open spec fn state_fits(st: WrapState, width: nat) -> bool {
    &&& lines_fit(st.lines, width)
    &&& width_of(st.cur) == st.dw
    &&& st.dw <= width
}

proof fn lemma_width_concat(a: Seq<Cell>, b: Seq<Cell>)
    ensures
        width_of(a + b) == width_of(a) + width_of(b),
    decreases b.len(),
{
    if b.len() > 0 {
        lemma_width_concat(a, b.drop_last());
        assert((a + b).drop_last() =~= a + b.drop_last());
    }
}

proof fn lemma_width_push(a: Seq<Cell>, c: Cell)
    ensures
        width_of(a.push(c)) == width_of(a) + cell_w(c),
{
    assert(a.push(c).drop_last() =~= a);
}

proof fn lemma_lines_push(ls: Seq<Seq<Cell>>, l: Seq<Cell>, width: nat)
    requires
        lines_fit(ls, width),
        width_of(l) <= width,
    ensures
        lines_fit(ls.push(l), width),
{
    assert forall|i: int| 0 <= i < ls.push(l).len() implies width_of(#[trigger] ls.push(l)[i]) <= width by {
        if i < ls.len() {
            assert(ls.push(l)[i] == ls[i]);
        }
    }
}

proof fn lemma_hard_split_fits(st: WrapState, word: Seq<Cell>, width: nat)
    requires
        state_fits(st, width),
        narrow(word, width),
    ensures
        state_fits(hard_split(st, word, width), width),
    decreases word.len(),
{
    if word.len() > 0 {
        let w0 = word.drop_last();
        assert forall|i: int| 0 <= i < w0.len() implies cell_w(#[trigger] w0[i]) <= width by {
            assert(w0[i] == word[i]);
        }
        lemma_hard_split_fits(st, w0, width);
        let s1 = hard_split(st, w0, width);
        let c = word.last();
        assert(cell_w(word[word.len() - 1]) <= width);
        if s1.dw + cell_w(c) > width {
            lemma_lines_push(s1.lines, s1.cur, width);
            lemma_width_push(Seq::empty(), c);
            assert(Seq::<Cell>::empty().push(c) =~= seq![c]);
        } else {
            lemma_width_push(s1.cur, c);
        }
    }
}

proof fn lemma_append_word_fits(st: WrapState, word: Seq<Cell>, width: nat)
    requires
        state_fits(st, width),
        st.dw == 0,
        narrow(word, width),
    ensures
        state_fits(append_word(st, word, width), width),
{
    if width_of(word) <= width {
        lemma_width_concat(st.cur, word);
    } else {
        lemma_hard_split_fits(WrapState { lines: st.lines, cur: st.cur, dw: 0 }, word, width);
    }
}

proof fn lemma_place_word_fits(st: WrapState, word: Seq<Cell>, width: nat)
    requires
        state_fits(st, width),
        narrow(word, width),
        cell_w(sep_cell()) == 1,
    ensures
        state_fits(place_word(st, word, width), width),
{
    if st.dw > 0 {
        if st.dw + 1 + width_of(word) <= width {
            lemma_width_push(st.cur, sep_cell());
            lemma_width_concat(st.cur.push(sep_cell()), word);
        } else {
            lemma_lines_push(st.lines, st.cur, width);
            lemma_append_word_fits(WrapState { lines: st.lines.push(st.cur), cur: Seq::empty(), dw: 0 }, word, width);
        }
    } else {
        lemma_append_word_fits(st, word, width);
    }
}

proof fn lemma_place_all_fits(ws: Seq<Seq<Cell>>, width: nat)
    requires
        forall|i: int| 0 <= i < ws.len() ==> narrow(#[trigger] ws[i], width),
        cell_w(sep_cell()) == 1,
    ensures
        state_fits(place_all(ws, width), width),
    decreases ws.len(),
{
    if ws.len() > 0 {
        let w0 = ws.drop_last();
        assert forall|i: int| 0 <= i < w0.len() implies narrow(#[trigger] w0[i], width) by {
            assert(w0[i] == ws[i]);
        }
        lemma_place_all_fits(w0, width);
        assert(narrow(ws[ws.len() - 1], width));
        if ws.last().len() > 0 {
            lemma_place_word_fits(place_all(w0, width), ws.last(), width);
        }
    }
}

proof fn lemma_pieces_narrow(s: Seq<Cell>, at_newline: bool, width: nat)
    requires
        narrow(s, width),
    ensures
        forall|i: int| 0 <= i < pieces(s, at_newline).len() ==> narrow(#[trigger] pieces(s, at_newline)[i], width),
    decreases s.len(),
{
    if s.len() > 0 {
        let s0 = s.drop_last();
        assert forall|i: int| 0 <= i < s0.len() implies cell_w(#[trigger] s0[i]) <= width by {
            assert(s0[i] == s[i]);
        }
        lemma_pieces_narrow(s0, at_newline, width);
        lemma_pieces_nonempty(s0, at_newline);
        let ps = pieces(s0, at_newline);
        assert(cell_w(s[s.len() - 1]) <= width);
        if splits(s.last(), at_newline) {
            assert forall|i: int| 0 <= i < ps.push(Seq::empty()).len() implies narrow(#[trigger] ps.push(Seq::<Cell>::empty())[i], width) by {
                if i < ps.len() {
                    assert(ps.push(Seq::empty())[i] == ps[i]);
                }
            }
        } else {
            let last = ps.last().push(s.last());
            assert(narrow(ps[ps.len() - 1], width));
            assert forall|k: int| 0 <= k < last.len() implies cell_w(#[trigger] last[k]) <= width by {
                if k < ps.last().len() {
                    assert(last[k] == ps.last()[k]);
                }
            }
            let up = ps.update(ps.len() - 1, last);
            assert forall|i: int| 0 <= i < up.len() implies narrow(#[trigger] up[i], width) by {
                if i < ps.len() - 1 {
                    assert(up[i] == ps[i]);
                }
            }
        }
    }
}

proof fn lemma_segments_fit(segs: Seq<Seq<Cell>>, width: nat)
    requires
        forall|i: int| 0 <= i < segs.len() ==> narrow(#[trigger] segs[i], width),
        cell_w(sep_cell()) == 1,
    ensures
        lines_fit(wrap_segments(segs, width), width),
    decreases segs.len(),
{
    if segs.len() > 0 {
        let s0 = segs.drop_last();
        assert forall|i: int| 0 <= i < s0.len() implies narrow(#[trigger] s0[i], width) by {
            assert(s0[i] == segs[i]);
        }
        lemma_segments_fit(s0, width);
        let seg = segs.last();
        assert(narrow(segs[segs.len() - 1], width));
        lemma_pieces_narrow(seg, false, width);
        lemma_place_all_fits(pieces(seg, false), width);
        let st = place_all(pieces(seg, false), width);
        if st.cur.len() > 0 || st.lines.len() == 0 {
            lemma_lines_push(st.lines, st.cur, width);
        }
        let a = wrap_segments(s0, width);
        let b = wrap_segment(seg, width);
        assert forall|i: int| 0 <= i < (a + b).len() implies width_of(#[trigger] (a + b)[i]) <= width by {
            if i < a.len() {
                assert((a + b)[i] == a[i]);
            } else {
                assert((a + b)[i] == b[i - a.len()]);
            }
        }
    }
}

/// No wrapped line is wider than `width` columns, each character counted at
/// its own width, provided no single character is (a character wider than the
/// line still takes a line of its own).
pub proof fn law_wrap_lines_fit(cells: Seq<Cell>, width: nat)
    requires
        narrow(cells, width),
    ensures
        lines_fit(wrap_cells(cells, width), width),
{
    assert(crate::unicode::narrow_char(' '));
    lemma_pieces_narrow(cells, true, width);
    lemma_segments_fit(pieces(cells, true), width);
}

proof fn lemma_plain_width(l: Seq<Cell>)
    ensures
        width_of(plain_cells(cell_chars(l))) == width_of(l),
    decreases l.len(),
{
    if l.len() > 0 {
        lemma_plain_width(l.drop_last());
        assert(plain_cells(cell_chars(l)).drop_last() =~= plain_cells(cell_chars(l.drop_last())));
    }
}

/// `wrap_text` keeps every line within `width` columns (each character counted
/// at its `char_width`), provided no single character is wider than the line.
pub proof fn law_wrap_text_fits(text: Seq<char>, width: nat)
    requires
        forall|i: int| 0 <= i < text.len() ==> cw(#[trigger] text[i]) <= width,
    ensures
        forall|i: int| 0 <= i < wrapped_text(text, width).len() ==>
            width_of(plain_cells(#[trigger] wrapped_text(text, width)[i])) <= width,
{
    if text.len() > 0 && width > 0 {
        let cells = plain_cells(text);
        assert forall|i: int| 0 <= i < cells.len() implies cell_w(#[trigger] cells[i]) <= width by {
            assert(cells[i].0 == text[i]);
        }
        law_wrap_lines_fit(cells, width);
        let ls = wrap_cells(cells, width);
        assert forall|i: int| 0 <= i < wrapped_text(text, width).len() implies
            width_of(plain_cells(#[trigger] wrapped_text(text, width)[i])) <= width by {
            assert(wrapped_text(text, width)[i] == cell_chars(ls[i]));
            lemma_plain_width(ls[i]);
        }
    }
}

proof fn lemma_segments_count(segs: Seq<Seq<Cell>>, width: nat)
    ensures
        wrap_segments(segs, width).len() >= segs.len(),
    decreases segs.len(),
{
    if segs.len() > 0 {
        lemma_segments_count(segs.drop_last(), width);
    }
}

/// Line breaks are kept: `n` line feeds give at least `n + 1` wrapped lines
/// (a blank line between paragraphs stays a blank line).
pub proof fn law_wrap_keeps_line_breaks(cells: Seq<Cell>, width: nat)
    ensures
        wrap_cells(cells, width).len() >= pieces(cells, true).len(),
        pieces(cells, true).len() >= 1,
{
    lemma_pieces_nonempty(cells, true);
    lemma_segments_count(pieces(cells, true), width);
}

// ---------------------------------------------------------------------------
// Wrapping only regroups the input: every cell of a line is an input cell or
// the joining space.
// ---------------------------------------------------------------------------

/// Every cell of `l` is a cell of `src` or the joining space.
pub open spec fn cells_from(l: Seq<Cell>, src: Seq<Cell>) -> bool {
    forall|i: int| 0 <= i < l.len() ==> src.contains(#[trigger] l[i]) || l[i] == sep_cell()
}

pub open spec fn all_from(ls: Seq<Seq<Cell>>, src: Seq<Cell>) -> bool {
    forall|i: int| 0 <= i < ls.len() ==> cells_from(#[trigger] ls[i], src)
}

pub open spec fn state_from(st: WrapState, src: Seq<Cell>) -> bool {
    all_from(st.lines, src) && cells_from(st.cur, src)
}

proof fn lemma_from_concat(a: Seq<Cell>, b: Seq<Cell>, src: Seq<Cell>)
    requires
        cells_from(a, src),
        cells_from(b, src),
    ensures
        cells_from(a + b, src),
{
    assert forall|i: int| 0 <= i < (a + b).len() implies src.contains(#[trigger] (a + b)[i]) || (a + b)[i] == sep_cell() by {
        if i < a.len() {
            assert((a + b)[i] == a[i]);
        } else {
            assert((a + b)[i] == b[i - a.len()]);
        }
    }
}

proof fn lemma_all_from_push(ls: Seq<Seq<Cell>>, l: Seq<Cell>, src: Seq<Cell>)
    requires
        all_from(ls, src),
        cells_from(l, src),
    ensures
        all_from(ls.push(l), src),
{
    assert forall|i: int| 0 <= i < ls.push(l).len() implies cells_from(#[trigger] ls.push(l)[i], src) by {
        if i < ls.len() {
            assert(ls.push(l)[i] == ls[i]);
        }
    }
}

proof fn lemma_hard_split_from(st: WrapState, word: Seq<Cell>, width: nat, src: Seq<Cell>)
    requires
        state_from(st, src),
        cells_from(word, src),
    ensures
        state_from(hard_split(st, word, width), src),
    decreases word.len(),
{
    if word.len() > 0 {
        let w0 = word.drop_last();
        assert forall|i: int| 0 <= i < w0.len() implies src.contains(#[trigger] w0[i]) || w0[i] == sep_cell() by {
            assert(w0[i] == word[i]);
        }
        lemma_hard_split_from(st, w0, width, src);
        let s1 = hard_split(st, w0, width);
        let c = word.last();
        assert(src.contains(word[word.len() - 1]) || word[word.len() - 1] == sep_cell());
        lemma_from_concat(s1.cur, seq![c], src);
        assert(s1.cur + seq![c] == s1.cur.push(c));
        if s1.dw + cell_w(c) > width {
            lemma_all_from_push(s1.lines, s1.cur, src);
            lemma_from_concat(Seq::empty(), seq![c], src);
            assert(Seq::<Cell>::empty() + seq![c] == seq![c]);
        }
    }
}

proof fn lemma_place_word_from(st: WrapState, word: Seq<Cell>, width: nat, src: Seq<Cell>)
    requires
        state_from(st, src),
        cells_from(word, src),
    ensures
        state_from(place_word(st, word, width), src),
{
    let e = Seq::<Cell>::empty();
    assert(cells_from(e, src));
    assert(cells_from(seq![sep_cell()], src));
    if st.dw > 0 && st.dw + 1 + width_of(word) <= width {
        lemma_from_concat(st.cur, seq![sep_cell()], src);
        assert(st.cur + seq![sep_cell()] == st.cur.push(sep_cell()));
        lemma_from_concat(st.cur.push(sep_cell()), word, src);
    } else {
        let st2 = if st.dw > 0 { WrapState { lines: st.lines.push(st.cur), cur: e, dw: 0 } } else { st };
        if st.dw > 0 {
            lemma_all_from_push(st.lines, st.cur, src);
        }
        if width_of(word) <= width {
            lemma_from_concat(st2.cur, word, src);
        } else {
            lemma_hard_split_from(WrapState { lines: st2.lines, cur: st2.cur, dw: 0 }, word, width, src);
        }
    }
}

proof fn lemma_place_all_from(ws: Seq<Seq<Cell>>, width: nat, src: Seq<Cell>)
    requires
        all_from(ws, src),
    ensures
        state_from(place_all(ws, width), src),
    decreases ws.len(),
{
    if ws.len() == 0 {
        assert(cells_from(Seq::<Cell>::empty(), src));
    } else {
        let w0 = ws.drop_last();
        assert forall|i: int| 0 <= i < w0.len() implies cells_from(#[trigger] w0[i], src) by {
            assert(w0[i] == ws[i]);
        }
        lemma_place_all_from(w0, width, src);
        assert(cells_from(ws[ws.len() - 1], src));
        if ws.last().len() > 0 {
            lemma_place_word_from(place_all(w0, width), ws.last(), width, src);
        }
    }
}

proof fn lemma_pieces_from(s: Seq<Cell>, at_newline: bool, src: Seq<Cell>)
    requires
        cells_from(s, src),
    ensures
        all_from(pieces(s, at_newline), src),
    decreases s.len(),
{
    if s.len() == 0 {
        assert(cells_from(Seq::<Cell>::empty(), src));
    } else {
        let s0 = s.drop_last();
        assert forall|i: int| 0 <= i < s0.len() implies src.contains(#[trigger] s0[i]) || s0[i] == sep_cell() by {
            assert(s0[i] == s[i]);
        }
        lemma_pieces_from(s0, at_newline, src);
        lemma_pieces_nonempty(s0, at_newline);
        let ps = pieces(s0, at_newline);
        assert(src.contains(s[s.len() - 1]) || s[s.len() - 1] == sep_cell());
        if splits(s.last(), at_newline) {
            assert(cells_from(Seq::<Cell>::empty(), src));
            lemma_all_from_push(ps, Seq::empty(), src);
        } else {
            assert(cells_from(ps[ps.len() - 1], src));
            lemma_from_concat(ps.last(), seq![s.last()], src);
            assert(ps.last() + seq![s.last()] == ps.last().push(s.last()));
            let up = ps.update(ps.len() - 1, ps.last().push(s.last()));
            assert forall|i: int| 0 <= i < up.len() implies cells_from(#[trigger] up[i], src) by {
                if i < ps.len() - 1 {
                    assert(up[i] == ps[i]);
                }
            }
        }
    }
}

proof fn lemma_segments_from(segs: Seq<Seq<Cell>>, width: nat, src: Seq<Cell>)
    requires
        all_from(segs, src),
    ensures
        all_from(wrap_segments(segs, width), src),
    decreases segs.len(),
{
    if segs.len() > 0 {
        let s0 = segs.drop_last();
        assert forall|i: int| 0 <= i < s0.len() implies cells_from(#[trigger] s0[i], src) by {
            assert(s0[i] == segs[i]);
        }
        lemma_segments_from(s0, width, src);
        let seg = segs.last();
        assert(cells_from(segs[segs.len() - 1], src));
        lemma_pieces_from(seg, false, src);
        lemma_place_all_from(pieces(seg, false), width, src);
        let st = place_all(pieces(seg, false), width);
        if st.cur.len() > 0 || st.lines.len() == 0 {
            lemma_all_from_push(st.lines, st.cur, src);
        }
        let a = wrap_segments(s0, width);
        let b = wrap_segment(seg, width);
        assert forall|i: int| 0 <= i < (a + b).len() implies cells_from(#[trigger] (a + b)[i], src) by {
            if i < a.len() {
                assert((a + b)[i] == a[i]);
            } else {
                assert((a + b)[i] == b[i - a.len()]);
            }
        }
    }
}

/// Wrapping only regroups its input: every cell of every wrapped line (a
/// character with its style) is a cell of the input or the joining space.
pub proof fn law_wrap_keeps_cells(cells: Seq<Cell>, width: nat)
    ensures
        all_from(wrap_cells(cells, width), cells),
{
    assert forall|i: int| 0 <= i < cells.len() implies cells.contains(#[trigger] cells[i]) || cells[i] == sep_cell() by {}
    lemma_pieces_from(cells, true, cells);
    lemma_segments_from(pieces(cells, true), width, cells);
}

proof fn lemma_plain_cells_width(l: Seq<char>)
    ensures
        width_of(plain_cells(l)) == crate::unicode::plain_width(l),
    decreases l.len(),
{
    if l.len() > 0 {
        lemma_plain_cells_width(l.drop_last());
        assert(plain_cells(l).drop_last() =~= plain_cells(l.drop_last()));
    }
}

/// For text of plain characters (accented Latin, Greek, Cyrillic, kana, CJK,
/// Hangul among them) none wider than the line, every line `wrap_text` gives
/// is at most `width` columns as `display_width` counts them.
pub proof fn law_wrap_text_display_fits(text: Seq<char>, width: nat)
    requires
        crate::unicode::all_plain(text),
        forall|i: int| 0 <= i < text.len() ==> cw(#[trigger] text[i]) <= width,
        width <= usize::MAX,
    ensures
        forall|i: int| 0 <= i < wrapped_text(text, width).len() ==>
            crate::unicode::all_plain(#[trigger] wrapped_text(text, width)[i])
            && crate::unicode::text_cols(wrapped_text(text, width)[i]) <= width,
{
    if text.len() > 0 && width > 0 {
        assert(crate::unicode::narrow_char(' '));
        let cells = plain_cells(text);
        law_wrap_text_fits(text, width);
        law_wrap_keeps_cells(cells, width);
        let ls = wrap_cells(cells, width);
        assert forall|i: int| 0 <= i < wrapped_text(text, width).len() implies
            crate::unicode::all_plain(#[trigger] wrapped_text(text, width)[i])
            && crate::unicode::text_cols(wrapped_text(text, width)[i]) <= width by {
            let line = wrapped_text(text, width)[i];
            assert(line == cell_chars(ls[i]));
            assert(cells_from(ls[i], cells));
            assert forall|k: int| 0 <= k < line.len() implies crate::unicode::plain_char(#[trigger] line[k]) by {
                assert(line[k] == ls[i][k].0);
                if cells.contains(ls[i][k]) {
                    let j = choose|j: int| 0 <= j < cells.len() && cells[j] == ls[i][k];
                    assert(cells[j].0 == text[j]);
                }
            }
            lemma_plain_cells_width(line);
            crate::render::lemma_text_cols_plain(line);
        }
    }
}

// ---------------------------------------------------------------------------
// Wrapping drops only whitespace: laid end to end, the lines hold the input's
// other cells in their order.
// ---------------------------------------------------------------------------

/// The cells of `s` that are not ASCII whitespace, in order.
pub open spec fn solid(s: Seq<Cell>) -> Seq<Cell>
    decreases s.len(),
{
    if s.len() == 0 {
        Seq::empty()
    } else if ascii_ws(s.last().0) {
        solid(s.drop_last())
    } else {
        solid(s.drop_last()).push(s.last())
    }
}

/// Lines laid end to end.
pub open spec fn joined(ls: Seq<Seq<Cell>>) -> Seq<Cell>
    decreases ls.len(),
{
    if ls.len() == 0 {
        Seq::empty()
    } else {
        joined(ls.drop_last()) + ls.last()
    }
}

pub open spec fn laid(st: WrapState) -> Seq<Cell> {
    joined(st.lines) + st.cur
}

proof fn lemma_solid_concat(a: Seq<Cell>, b: Seq<Cell>)
    ensures
        solid(a + b) == solid(a) + solid(b),
    decreases b.len(),
{
    if b.len() == 0 {
        assert(a + b =~= a);
        assert(solid(a) + solid(b) =~= solid(a));
    } else {
        lemma_solid_concat(a, b.drop_last());
        assert((a + b).drop_last() =~= a + b.drop_last());
        assert((a + b).last() == b.last());
        if !ascii_ws(b.last().0) {
            assert(solid(a) + solid(b.drop_last()).push(b.last()) =~= (solid(a) + solid(b.drop_last())).push(b.last()));
        }
    }
}

proof fn lemma_joined_push(ls: Seq<Seq<Cell>>, l: Seq<Cell>)
    ensures
        joined(ls.push(l)) == joined(ls) + l,
{
    assert(ls.push(l).drop_last() =~= ls);
}

proof fn lemma_joined_concat(a: Seq<Seq<Cell>>, b: Seq<Seq<Cell>>)
    ensures
        joined(a + b) == joined(a) + joined(b),
    decreases b.len(),
{
    if b.len() == 0 {
        assert(a + b =~= a);
        assert(joined(a) + joined(b) =~= joined(a));
    } else {
        lemma_joined_concat(a, b.drop_last());
        assert((a + b).drop_last() =~= a + b.drop_last());
        assert(joined(a) + (joined(b.drop_last()) + b.last()) =~= (joined(a) + joined(b.drop_last())) + b.last());
    }
}

proof fn lemma_hard_split_laid(st: WrapState, word: Seq<Cell>, width: nat)
    ensures
        laid(hard_split(st, word, width)) == laid(st) + word,
    decreases word.len(),
{
    if word.len() == 0 {
        assert(laid(st) + word =~= laid(st));
    } else {
        let s1 = hard_split(st, word.drop_last(), width);
        lemma_hard_split_laid(st, word.drop_last(), width);
        let c = word.last();
        lemma_joined_push(s1.lines, s1.cur);
        assert(word =~= word.drop_last().push(c));
        assert(laid(st) + word =~= (laid(st) + word.drop_last()).push(c));
        assert(joined(s1.lines) + seq![c] + Seq::empty() =~= joined(s1.lines) + seq![c]);
        assert(joined(s1.lines) + s1.cur + seq![c] =~= joined(s1.lines) + s1.cur.push(c));
        assert((joined(s1.lines) + s1.cur) + seq![c] =~= (joined(s1.lines) + s1.cur).push(c));
    }
}

proof fn lemma_place_word_laid(st: WrapState, word: Seq<Cell>, width: nat)
    ensures
        solid(laid(place_word(st, word, width))) == solid(laid(st)) + solid(word),
{
    let base = WrapState { lines: st.lines.push(st.cur), cur: Seq::empty(), dw: 0 };
    lemma_joined_push(st.lines, st.cur);
    assert(laid(base) =~= laid(st));
    let zero = WrapState { lines: st.lines, cur: st.cur, dw: 0 };
    let zb = WrapState { lines: base.lines, cur: base.cur, dw: 0 };
    lemma_hard_split_laid(zero, word, width);
    lemma_hard_split_laid(zb, word, width);
    assert(laid(st) + word =~= joined(st.lines) + (st.cur + word));
    assert(laid(base) + word =~= joined(base.lines) + (base.cur + word));
    lemma_solid_concat(laid(st), word);
    if st.dw > 0 && st.dw + 1 + width_of(word) <= width {
        let sp = seq![sep_cell()];
        assert(joined(st.lines) + (st.cur.push(sep_cell()) + word) =~= (laid(st) + sp) + word);
        lemma_solid_concat(laid(st) + sp, word);
        lemma_solid_concat(laid(st), sp);
        assert(sp.drop_last() =~= Seq::<Cell>::empty());
        assert(solid(Seq::<Cell>::empty()) =~= Seq::<Cell>::empty());
        assert(solid(sp) =~= Seq::<Cell>::empty());
        assert(solid(laid(st)) + solid(sp) =~= solid(laid(st)));
    }
}

proof fn lemma_place_all_laid(ws: Seq<Seq<Cell>>, width: nat)
    ensures
        solid(laid(place_all(ws, width))) == solid(joined(ws)),
    decreases ws.len(),
{
    if ws.len() == 0 {
        assert(laid(init_state()) =~= Seq::<Cell>::empty());
    } else {
        let w0 = ws.drop_last();
        lemma_place_all_laid(w0, width);
        lemma_solid_concat(joined(w0), ws.last());
        if ws.last().len() == 0 {
            assert(joined(w0) + ws.last() =~= joined(w0));
        } else {
            lemma_place_word_laid(place_all(w0, width), ws.last(), width);
        }
    }
}

proof fn lemma_finish_laid(st: WrapState)
    ensures
        joined(finish(st)) == laid(st),
{
    lemma_joined_push(st.lines, st.cur);
    if !(st.cur.len() > 0 || st.lines.len() == 0) {
        assert(laid(st) =~= joined(st.lines));
    }
}

proof fn lemma_pieces_laid(s: Seq<Cell>, at_newline: bool)
    ensures
        solid(joined(pieces(s, at_newline))) == solid(s),
    decreases s.len(),
{
    if s.len() == 0 {
        let e = Seq::<Seq<Cell>>::empty();
        assert(seq![Seq::<Cell>::empty()].drop_last() =~= e);
        assert(joined(e) =~= Seq::<Cell>::empty());
        assert(joined(seq![Seq::<Cell>::empty()]) =~= Seq::<Cell>::empty());
    } else {
        let s0 = s.drop_last();
        let c = s.last();
        lemma_pieces_laid(s0, at_newline);
        lemma_pieces_nonempty(s0, at_newline);
        let ps = pieces(s0, at_newline);
        if splits(c, at_newline) {
            lemma_joined_push(ps, Seq::empty());
            assert(joined(ps) + Seq::<Cell>::empty() =~= joined(ps));
            assert(ascii_ws(c.0));
        } else {
            let up = ps.update(ps.len() - 1, ps.last().push(c));
            assert(up.drop_last() =~= ps.drop_last());
            assert(joined(up) =~= joined(ps.drop_last()) + ps.last().push(c));
            assert(joined(ps) == joined(ps.drop_last()) + ps.last());
            assert(joined(up) =~= joined(ps) + seq![c]);
            lemma_solid_concat(joined(ps), seq![c]);
            assert(seq![c].drop_last() =~= Seq::<Cell>::empty());
            assert(seq![c].last() == c);
            assert(solid(Seq::<Cell>::empty()) =~= Seq::<Cell>::empty());
            if at_newline {
                assert(c.0 != '\n');
            }
            if ascii_ws(c.0) {
                assert(solid(seq![c]) =~= Seq::<Cell>::empty());
                assert(solid(joined(ps)) + solid(seq![c]) =~= solid(joined(ps)));
            } else {
                assert(solid(seq![c]) =~= seq![c]);
                assert(solid(joined(ps)) + seq![c] =~= solid(joined(ps)).push(c));
            }
        }
    }
}

proof fn lemma_segments_laid(segs: Seq<Seq<Cell>>, width: nat)
    ensures
        solid(joined(wrap_segments(segs, width))) == solid(joined(segs)),
    decreases segs.len(),
{
    if segs.len() > 0 {
        let s0 = segs.drop_last();
        let seg = segs.last();
        lemma_segments_laid(s0, width);
        lemma_joined_concat(wrap_segments(s0, width), wrap_segment(seg, width));
        lemma_solid_concat(joined(wrap_segments(s0, width)), joined(wrap_segment(seg, width)));
        lemma_solid_concat(joined(s0), seg);
        lemma_finish_laid(place_all(pieces(seg, false), width));
        lemma_place_all_laid(pieces(seg, false), width);
        lemma_pieces_laid(seg, false);
    }
}

/// Wrapping drops nothing but whitespace and adds nothing but whitespace:
/// laid end to end, the wrapped lines hold exactly the input's cells that are
/// not ASCII whitespace, each with its style, in their order.
pub proof fn law_wrap_keeps_visible_cells(cells: Seq<Cell>, width: nat)
    ensures
        solid(joined(wrap_cells(cells, width))) == solid(cells),
{
    lemma_segments_laid(pieces(cells, true), width);
    lemma_pieces_laid(cells, true);
}

// ---------------------------------------------------------------------------
// No wrapped line starts or ends with whitespace.
// ---------------------------------------------------------------------------

/// Neither end of `l` is ASCII whitespace.
pub open spec fn trimmed(l: Seq<Cell>) -> bool {
    l.len() > 0 ==> !ascii_ws(l[0].0) && !ascii_ws(l[l.len() - 1].0)
}

pub open spec fn blank_free(s: Seq<Cell>) -> bool {
    forall|i: int| 0 <= i < s.len() ==> !ascii_ws(#[trigger] s[i].0)
}

pub open spec fn tidy(st: WrapState) -> bool {
    &&& forall|i: int| 0 <= i < st.lines.len() ==> trimmed(#[trigger] st.lines[i])
    &&& trimmed(st.cur)
    &&& st.dw > 0 ==> st.cur.len() > 0
}

proof fn lemma_tidy_push_line(lines: Seq<Seq<Cell>>, l: Seq<Cell>)
    requires
        forall|i: int| 0 <= i < lines.len() ==> trimmed(#[trigger] lines[i]),
        trimmed(l),
    ensures
        forall|i: int| 0 <= i < lines.push(l).len() ==> trimmed(#[trigger] lines.push(l)[i]),
{
    assert forall|i: int| 0 <= i < lines.push(l).len() implies trimmed(#[trigger] lines.push(l)[i]) by {
        if i < lines.len() {
            assert(lines.push(l)[i] == lines[i]);
        }
    }
}

proof fn lemma_hard_split_tidy(st: WrapState, word: Seq<Cell>, width: nat)
    requires
        tidy(st),
        blank_free(word),
    ensures
        tidy(hard_split(st, word, width)),
    decreases word.len(),
{
    if word.len() > 0 {
        let w0 = word.drop_last();
        assert forall|i: int| 0 <= i < w0.len() implies !ascii_ws(#[trigger] w0[i].0) by {
            assert(w0[i] == word[i]);
        }
        lemma_hard_split_tidy(st, w0, width);
        let s1 = hard_split(st, w0, width);
        let c = word.last();
        assert(!ascii_ws(word[word.len() - 1].0));
        if s1.dw + cell_w(c) > width {
            lemma_tidy_push_line(s1.lines, s1.cur);
        } else {
            let n = s1.cur.push(c);
            assert(n[n.len() - 1] == c);
            if s1.cur.len() > 0 {
                assert(n[0] == s1.cur[0]);
            }
        }
    }
}

proof fn lemma_append_word_tidy(st: WrapState, word: Seq<Cell>, width: nat)
    requires
        tidy(st),
        blank_free(word),
        word.len() > 0,
    ensures
        tidy(append_word(st, word, width)),
{
    if width_of(word) <= width {
        let n = st.cur + word;
        assert(n[n.len() - 1] == word[word.len() - 1]);
        if st.cur.len() > 0 {
            assert(n[0] == st.cur[0]);
        } else {
            assert(n[0] == word[0]);
        }
    } else {
        lemma_hard_split_tidy(WrapState { lines: st.lines, cur: st.cur, dw: 0 }, word, width);
    }
}

proof fn lemma_place_word_tidy(st: WrapState, word: Seq<Cell>, width: nat)
    requires
        tidy(st),
        blank_free(word),
        word.len() > 0,
    ensures
        tidy(place_word(st, word, width)),
{
    if st.dw > 0 {
        if st.dw + 1 + width_of(word) <= width {
            let n = st.cur.push(sep_cell()) + word;
            assert(n[0] == st.cur[0]);
            assert(n[n.len() - 1] == word[word.len() - 1]);
        } else {
            lemma_tidy_push_line(st.lines, st.cur);
            lemma_append_word_tidy(WrapState { lines: st.lines.push(st.cur), cur: Seq::empty(), dw: 0 }, word, width);
        }
    } else {
        lemma_append_word_tidy(st, word, width);
    }
}

proof fn lemma_place_all_tidy(ws: Seq<Seq<Cell>>, width: nat)
    requires
        forall|k: int| 0 <= k < ws.len() ==> blank_free(#[trigger] ws[k]),
    ensures
        tidy(place_all(ws, width)),
    decreases ws.len(),
{
    if ws.len() > 0 {
        let w0 = ws.drop_last();
        assert forall|k: int| 0 <= k < w0.len() implies blank_free(#[trigger] w0[k]) by {
            assert(w0[k] == ws[k]);
        }
        lemma_place_all_tidy(w0, width);
        assert(blank_free(ws[ws.len() - 1]));
        if ws.last().len() > 0 {
            lemma_place_word_tidy(place_all(w0, width), ws.last(), width);
        }
    }
}

/// Each piece holds cells of `s` and no separator.
proof fn lemma_pieces_avoid(s: Seq<Cell>, at_newline: bool)
    ensures
        forall|k: int, i: int| 0 <= k < pieces(s, at_newline).len() && 0 <= i < pieces(s, at_newline)[k].len() ==>
            !splits(#[trigger] pieces(s, at_newline)[k][i], at_newline) && s.contains(pieces(s, at_newline)[k][i]),
    decreases s.len(),
{
    if s.len() > 0 {
        let s0 = s.drop_last();
        lemma_pieces_avoid(s0, at_newline);
        lemma_pieces_nonempty(s0, at_newline);
        let ps = pieces(s0, at_newline);
        let c = s.last();
        assert forall|k: int, i: int| 0 <= k < pieces(s, at_newline).len() && 0 <= i < pieces(s, at_newline)[k].len() implies
            !splits(#[trigger] pieces(s, at_newline)[k][i], at_newline) && s.contains(pieces(s, at_newline)[k][i]) by {
            let x = pieces(s, at_newline)[k][i];
            let from_s0 = k < ps.len() && i < ps[k].len() && x == ps[k][i];
            if splits(c, at_newline) {
                assert(k < ps.len());
                assert(from_s0);
            } else if k < ps.len() - 1 {
                assert(from_s0);
            } else if i < ps[ps.len() - 1].len() {
                assert(x == ps.last().push(c)[i]);
                assert(from_s0);
            } else {
                assert(x == c);
                assert(s[s.len() - 1] == c);
            }
            if from_s0 {
                assert(s0.contains(x));
                let j = choose|j: int| 0 <= j < s0.len() && s0[j] == x;
                assert(s[j] == x);
            }
        }
    }
}

proof fn lemma_segments_tidy(segs: Seq<Seq<Cell>>, width: nat)
    requires
        forall|k: int, i: int| 0 <= k < segs.len() && 0 <= i < segs[k].len() ==> (#[trigger] segs[k][i]).0 != '\n',
    ensures
        forall|i: int| 0 <= i < wrap_segments(segs, width).len() ==> trimmed(#[trigger] wrap_segments(segs, width)[i]),
    decreases segs.len(),
{
    if segs.len() > 0 {
        let s0 = segs.drop_last();
        assert forall|k: int, i: int| 0 <= k < s0.len() && 0 <= i < s0[k].len() implies (#[trigger] s0[k][i]).0 != '\n' by {
            assert(s0[k] == segs[k]);
        }
        lemma_segments_tidy(s0, width);
        let seg = segs.last();
        let ws = pieces(seg, false);
        lemma_pieces_avoid(seg, false);
        assert forall|k: int| 0 <= k < ws.len() implies blank_free(#[trigger] ws[k]) by {
            assert forall|i: int| 0 <= i < ws[k].len() implies !ascii_ws(#[trigger] ws[k][i].0) by {
                let x = ws[k][i];
                assert(!splits(x, false));
                assert(seg.contains(x));
                let j = choose|j: int| 0 <= j < seg.len() && seg[j] == x;
                assert(segs[segs.len() - 1][j] == x);
            }
        }
        lemma_place_all_tidy(ws, width);
        let st = place_all(ws, width);
        lemma_tidy_push_line(st.lines, st.cur);
        let a = wrap_segments(s0, width);
        let b = wrap_segment(seg, width);
        assert forall|i: int| 0 <= i < (a + b).len() implies trimmed(#[trigger] (a + b)[i]) by {
            if i < a.len() {
                assert((a + b)[i] == a[i]);
            } else {
                assert((a + b)[i] == b[i - a.len()]);
            }
        }
    }
}

/// No wrapped line starts or ends with ASCII whitespace: the joining space only
/// ever stands between two words.
pub proof fn law_wrap_trims_lines(cells: Seq<Cell>, width: nat)
    ensures
        forall|i: int| 0 <= i < wrap_cells(cells, width).len() ==> trimmed(#[trigger] wrap_cells(cells, width)[i]),
{
    let segs = pieces(cells, true);
    lemma_pieces_avoid(cells, true);
    assert forall|k: int, i: int| 0 <= k < segs.len() && 0 <= i < segs[k].len() implies (#[trigger] segs[k][i]).0 != '\n' by {
        assert(!splits(segs[k][i], true));
    }
    lemma_segments_tidy(segs, width);
}

// ---------------------------------------------------------------------------
// The same two facts for `wrap_text`, over characters.
// ---------------------------------------------------------------------------

/// The characters of `s` that are not ASCII whitespace, in order.
pub open spec fn visible(s: Seq<char>) -> Seq<char>
    decreases s.len(),
{
    if s.len() == 0 {
        Seq::empty()
    } else if ascii_ws(s.last()) {
        visible(s.drop_last())
    } else {
        visible(s.drop_last()).push(s.last())
    }
}

/// Lines of text laid end to end.
pub open spec fn concat_lines(ls: Seq<Seq<char>>) -> Seq<char>
    decreases ls.len(),
{
    if ls.len() == 0 {
        Seq::empty()
    } else {
        concat_lines(ls.drop_last()) + ls.last()
    }
}

proof fn lemma_visible_cells(x: Seq<Cell>)
    ensures
        visible(cell_chars(x)) == cell_chars(solid(x)),
    decreases x.len(),
{
    if x.len() > 0 {
        lemma_visible_cells(x.drop_last());
        assert(cell_chars(x).drop_last() =~= cell_chars(x.drop_last()));
        assert(cell_chars(x).last() == x.last().0);
        if !ascii_ws(x.last().0) {
            assert(cell_chars(solid(x.drop_last()).push(x.last())) =~= cell_chars(solid(x.drop_last())).push(x.last().0));
        }
    }
}

proof fn lemma_concat_cells(ls: Seq<Seq<Cell>>)
    ensures
        concat_lines(ls.map_values(|l: Seq<Cell>| cell_chars(l))) == cell_chars(joined(ls)),
    decreases ls.len(),
{
    if ls.len() > 0 {
        let m = ls.map_values(|l: Seq<Cell>| cell_chars(l));
        lemma_concat_cells(ls.drop_last());
        assert(m.drop_last() =~= ls.drop_last().map_values(|l: Seq<Cell>| cell_chars(l)));
        assert(cell_chars(joined(ls.drop_last()) + ls.last()) =~= cell_chars(joined(ls.drop_last())) + cell_chars(ls.last()));
    }
}

/// `wrap_text` leaves no whitespace at either end of a line, and its lines
/// laid end to end hold exactly the text's characters that are not ASCII
/// whitespace, in order; empty text gives no lines.
pub proof fn law_wrap_text_keeps_words(text: Seq<char>, width: nat)
    requires
        width > 0,
    ensures
        forall|i: int| 0 <= i < wrapped_text(text, width).len() ==> {
            let l = #[trigger] wrapped_text(text, width)[i];
            l.len() > 0 ==> !ascii_ws(l[0]) && !ascii_ws(l[l.len() - 1])
        },
        visible(concat_lines(wrapped_text(text, width))) == visible(text),
        text.len() == 0 ==> wrapped_text(text, width).len() == 0,
{
    if text.len() > 0 {
        let cells = plain_cells(text);
        let ls = wrap_cells(cells, width);
        law_wrap_trims_lines(cells, width);
        law_wrap_keeps_visible_cells(cells, width);
        assert forall|i: int| 0 <= i < wrapped_text(text, width).len() implies {
            let l = #[trigger] wrapped_text(text, width)[i];
            l.len() > 0 ==> !ascii_ws(l[0]) && !ascii_ws(l[l.len() - 1])
        } by {
            assert(wrapped_text(text, width)[i] == cell_chars(ls[i]));
            assert(trimmed(ls[i]));
        }
        lemma_concat_cells(ls);
        lemma_visible_cells(joined(ls));
        lemma_visible_cells(cells);
        assert(cell_chars(cells) =~= text);
    }
}

// ---------------------------------------------------------------------------
// The same facts for `wrap_rich`, with styles.
// ---------------------------------------------------------------------------

proof fn lemma_spans_cells(cells: Seq<Cell>)
    ensures
        cells_of(spans_of(cells)) == cells,
    decreases cells.len(),
{
    if cells.len() > 0 {
        let c0 = cells.drop_last();
        let x = cells.last();
        lemma_spans_cells(c0);
        let l = spans_of(c0);
        let one = seq![x.0];
        assert(one.map_values(|c: char| (c, x.1)) =~= seq![x]);
        assert(cells =~= c0 + seq![x]);
        if l.len() > 0 && l.last().style == x.1 {
            let last = l.last();
            let u = l.update(l.len() - 1, SpanV { text: last.text + one, style: x.1 });
            assert(u.drop_last() =~= l.drop_last());
            assert((last.text + one).map_values(|c: char| (c, x.1))
                =~= last.text.map_values(|c: char| (c, last.style)) + seq![x]);
            assert(cells_of(u) =~= cells_of(l) + seq![x]);
        } else {
            let p = l.push(SpanV { text: one, style: x.1 });
            assert(p.drop_last() =~= l);
            assert(cells_of(p) =~= cells_of(l) + seq![x]);
        }
    }
}

/// No span of a regrouped line is empty, and no two neighbours share a style.
pub open spec fn well_grouped(l: Seq<SpanV>) -> bool {
    &&& forall|k: int| 0 <= k < l.len() ==> (#[trigger] l[k]).text.len() > 0
    &&& forall|j: int, k: int| 0 <= j && k == j + 1 && k < l.len() ==> (#[trigger] l[j]).style != (#[trigger] l[k]).style
}

proof fn lemma_push_text_grouped(l: Seq<SpanV>, x: Cell)
    requires
        well_grouped(l),
    ensures
        well_grouped(push_text(l, seq![x.0], x.1)),
{
    let one = seq![x.0];
    let r = push_text(l, one, x.1);
    if l.len() > 0 && l.last().style == x.1 {
        assert(r == l.update(l.len() - 1, SpanV { text: l.last().text + one, style: x.1 }));
        assert(r.len() == l.len());
        assert forall|k: int| 0 <= k < r.len() implies (#[trigger] r[k]).text.len() > 0 by {
            if k < l.len() - 1 {
                assert(r[k] == l[k]);
            }
        }
        assert forall|j: int, k: int| 0 <= j && k == j + 1 && k < r.len() implies (#[trigger] r[j]).style != (#[trigger] r[k]).style by {
            assert(r[j] == l[j]);
            assert(r[k].style == l[k].style);
        }
    } else {
        assert(r == l.push(SpanV { text: one, style: x.1 }));
        assert forall|k: int| 0 <= k < r.len() implies (#[trigger] r[k]).text.len() > 0 by {
            if k < l.len() {
                assert(r[k] == l[k]);
            }
        }
        assert forall|j: int, k: int| 0 <= j && k == j + 1 && k < r.len() implies (#[trigger] r[j]).style != (#[trigger] r[k]).style by {
            assert(r[j] == l[j]);
            if k < l.len() {
                assert(r[k] == l[k]);
            }
        }
    }
}

proof fn lemma_spans_grouped(cells: Seq<Cell>)
    ensures
        well_grouped(spans_of(cells)),
    decreases cells.len(),
{
    if cells.len() > 0 {
        lemma_spans_grouped(cells.drop_last());
        lemma_push_text_grouped(spans_of(cells.drop_last()), cells.last());
    }
}

/// Every line `wrap_rich` gives is made of non-empty spans, no two neighbours
/// sharing a style, and neither starts nor ends with whitespace; laid end to
/// end, the lines hold exactly the line's characters that are not ASCII
/// whitespace, each with its style, in order.
pub proof fn law_wrap_rich_keeps_styles(line: Seq<SpanV>, width: nat)
    requires
        width > 0,
    ensures
        forall|i: int| 0 <= i < wrapped_rich(line, width).len() ==>
            well_grouped(#[trigger] wrapped_rich(line, width)[i]) && trimmed(cells_of(wrapped_rich(line, width)[i])),
        solid(joined(wrapped_rich(line, width).map_values(|l: Seq<SpanV>| cells_of(l)))) == solid(cells_of(line)),
{
    let w = wrapped_rich(line, width);
    let m = w.map_values(|l: Seq<SpanV>| cells_of(l));
    if line.len() == 0 {
        assert(m =~= Seq::<Seq<Cell>>::empty());
        assert(cells_of(line) =~= Seq::<Cell>::empty());
        assert(solid(Seq::<Cell>::empty()) =~= Seq::<Cell>::empty());
    } else {
        let ls = wrap_cells(cells_of(line), width);
        law_wrap_trims_lines(cells_of(line), width);
        law_wrap_keeps_visible_cells(cells_of(line), width);
        assert forall|i: int| 0 <= i < m.len() implies #[trigger] m[i] == ls[i] by {
            assert(w[i] == spans_of(ls[i]));
            lemma_spans_cells(ls[i]);
        }
        assert(m =~= ls);
        assert forall|i: int| 0 <= i < w.len() implies well_grouped(#[trigger] w[i]) && trimmed(cells_of(w[i])) by {
            assert(w[i] == spans_of(ls[i]));
            lemma_spans_grouped(ls[i]);
            assert(m[i] == ls[i]);
            assert(trimmed(ls[i]));
        }
    }
}

proof fn lemma_text_of_cells(l: Seq<SpanV>)
    ensures
        crate::richtext::text_of(l) == cell_chars(cells_of(l)),
    decreases l.len(),
{
    if l.len() > 0 {
        lemma_text_of_cells(l.drop_last());
        let last = l.last();
        let m = last.text.map_values(|c: char| (c, last.style));
        assert(cell_chars(cells_of(l.drop_last()) + m) =~= cell_chars(cells_of(l.drop_last())) + cell_chars(m));
        assert(cell_chars(m) =~= last.text);
    }
}

proof fn lemma_cells_width(l: Seq<Cell>)
    ensures
        width_of(l) == crate::unicode::plain_width(cell_chars(l)),
    decreases l.len(),
{
    if l.len() > 0 {
        lemma_cells_width(l.drop_last());
        assert(cell_chars(l).drop_last() =~= cell_chars(l.drop_last()));
    }
}

/// For a styled line of plain characters none wider than the line, the text of
/// every line `wrap_rich` gives is at most `width` columns as `display_width`
/// counts them.
pub proof fn law_wrap_rich_display_fits(line: Seq<SpanV>, width: nat)
    requires
        forall|i: int| 0 <= i < cells_of(line).len() ==>
            crate::unicode::plain_char((#[trigger] cells_of(line)[i]).0) && cw(cells_of(line)[i].0) <= width,
        width <= usize::MAX,
    ensures
        forall|i: int| 0 <= i < wrapped_rich(line, width).len() ==>
            crate::unicode::text_cols(crate::richtext::text_of(#[trigger] wrapped_rich(line, width)[i])) <= width,
{
    if line.len() > 0 && width > 0 {
        let cells = cells_of(line);
        assert(crate::unicode::narrow_char(' '));
        assert forall|i: int| 0 <= i < cells.len() implies cell_w(#[trigger] cells[i]) <= width by {}
        law_wrap_lines_fit(cells, width);
        law_wrap_keeps_cells(cells, width);
        let ls = wrap_cells(cells, width);
        let w = wrapped_rich(line, width);
        assert forall|i: int| 0 <= i < w.len() implies
            crate::unicode::text_cols(crate::richtext::text_of(#[trigger] w[i])) <= width by {
            assert(w[i] == spans_of(ls[i]));
            lemma_spans_cells(ls[i]);
            lemma_text_of_cells(w[i]);
            let t = cell_chars(ls[i]);
            assert(crate::richtext::text_of(w[i]) == t);
            assert(cells_from(ls[i], cells));
            assert forall|k: int| 0 <= k < t.len() implies crate::unicode::plain_char(#[trigger] t[k]) by {
                assert(t[k] == ls[i][k].0);
                if cells.contains(ls[i][k]) {
                    let j = choose|j: int| 0 <= j < cells.len() && cells[j] == ls[i][k];
                    assert(crate::unicode::plain_char(cells[j].0));
                }
            }
            lemma_cells_width(ls[i]);
            assert(width_of(ls[i]) <= width);
            crate::render::lemma_text_cols_plain(t);
        }
    }
}

// ---------------------------------------------------------------------------
// Executable wrap.
// ---------------------------------------------------------------------------

fn cell_width(c: Cell) -> (r: usize)
    ensures
        r == cell_w(c),
        r <= 3,
{
    match char_width(c.0) {
        Some(w) => w,
        None => 0,
    }
}

fn splits_exec(c: Cell, at_newline: bool) -> (r: bool)
    ensures
        r == splits(c, at_newline),
{
    if at_newline {
        c.0 == '\n'
    } else {
        is_ascii_ws(c.0) && c.0 != '\n'
    }
}

/// `<[T]>::split` on line feeds or on word separators.
fn split_pieces(cells: &Vec<Cell>, at_newline: bool) -> (r: Vec<Vec<Cell>>)
    ensures
        seqs(r@) == pieces(cells@, at_newline),
{
    let mut out: Vec<Vec<Cell>> = Vec::new();
    let mut cur: Vec<Cell> = Vec::new();
    let mut i: usize = 0;
    proof {
        assert(cells@.subrange(0, 0) =~= Seq::<Cell>::empty());
        assert(seqs(out@).push(cur@) =~= pieces(cells@.subrange(0, 0), at_newline));
    }
    while i < cells.len()
        invariant
            i <= cells@.len(),
            seqs(out@).push(cur@) == pieces(cells@.subrange(0, i as int), at_newline),
        decreases cells.len() - i,
    {
        let c = cells[i];
        let ghost before = seqs(out@).push(cur@);
        proof {
            let p = cells@.subrange(0, i + 1);
            assert(p.drop_last() =~= cells@.subrange(0, i as int));
            assert(p.last() == c);
        }
        if splits_exec(c, at_newline) {
            let finished = cur;
            out.push(finished);
            cur = Vec::new();
            proof {
                assert(seqs(out@).push(cur@) =~= before.push(Seq::empty()));
            }
        } else {
            cur.push(c);
            proof {
                assert(seqs(out@).push(cur@) =~= before.update(before.len() - 1, before.last().push(c)));
            }
        }
        i += 1;
    }
    out.push(cur);
    proof {
        assert(cells@.subrange(0, cells@.len() as int) =~= cells@);
        assert(seqs(out@) =~= pieces(cells@, at_newline));
    }
    out
}

/// Display width of a word (`Σ width(c).unwrap_or(0)`).
fn word_width(word: &Vec<Cell>) -> (r: u128)
    ensures
        r == width_of(word@),
{
    let mut acc: u128 = 0;
    let mut i: usize = 0;
    let n = word.len();
    while i < n
        invariant
            i <= word@.len(),
            n == word@.len(),
            acc == width_of(word@.subrange(0, i as int)),
            acc <= 3 * i,
        decreases word.len() - i,
    {
        let w = cell_width(word[i]);
        proof {
            let p = word@.subrange(0, i + 1);
            assert(p.drop_last() =~= word@.subrange(0, i as int));
        }
        acc = acc + w as u128;
        i += 1;
    }
    proof {
        assert(word@.subrange(0, word@.len() as int) =~= word@);
    }
    acc
}

fn append_cells(dst: &mut Vec<Cell>, src: &Vec<Cell>)
    ensures
        final(dst)@ == old(dst)@ + src@,
{
    let mut i: usize = 0;
    while i < src.len()
        invariant
            i <= src@.len(),
            dst@ == old(dst)@ + src@.subrange(0, i as int),
        decreases src.len() - i,
    {
        dst.push(src[i]);
        i += 1;
        proof {
            assert(dst@ =~= old(dst)@ + src@.subrange(0, i as int));
        }
    }
    proof {
        assert(src@.subrange(0, src@.len() as int) =~= src@);
    }
}

pub open spec fn state_of(lines: Seq<Vec<Cell>>, cur: Seq<Cell>, dw: usize) -> WrapState {
    WrapState { lines: seqs(lines), cur, dw: dw as nat }
}

fn hard_split_exec(lines: &mut Vec<Vec<Cell>>, cur: &mut Vec<Cell>, word: &Vec<Cell>, width: usize) -> (dw: usize)
    ensures
        state_of(final(lines)@, final(cur)@, dw) == hard_split(
            state_of(old(lines)@, old(cur)@, 0),
            word@,
            width as nat,
        ),
        dw <= width || dw <= 3,
{
    let mut acc: usize = 0;
    let mut i: usize = 0;
    while i < word.len()
        invariant
            i <= word@.len(),
            state_of(lines@, cur@, acc) == hard_split(
                state_of(old(lines)@, old(cur)@, 0),
                word@.subrange(0, i as int),
                width as nat,
            ),
            acc <= width || acc <= 3,
        decreases word.len() - i,
    {
        let c = word[i];
        let w = cell_width(c);
        proof {
            let p = word@.subrange(0, i + 1);
            assert(p.drop_last() =~= word@.subrange(0, i as int));
            assert(p.last() == c);
        }
        let over = if acc > width { true } else { w > width - acc };
        if over {
            let ghost before = lines@;
            let mut finished: Vec<Cell> = Vec::new();
            std::mem::swap(&mut finished, cur);
            lines.push(finished);
            cur.push(c);
            acc = w;
            proof {
                assert(seqs(lines@) =~= seqs(before).push(finished@));
                assert(cur@ =~= seq![c]);
            }
        } else {
            cur.push(c);
            acc = acc + w;
        }
        i += 1;
    }
    proof {
        assert(word@.subrange(0, word@.len() as int) =~= word@);
    }
    acc
}

fn place_word_exec(lines: &mut Vec<Vec<Cell>>, cur: &mut Vec<Cell>, dw: usize, word: &Vec<Cell>, width: usize) -> (r: usize)
    requires
        dw <= width || dw <= 3,
    ensures
        state_of(final(lines)@, final(cur)@, r) == place_word(
            state_of(old(lines)@, old(cur)@, dw),
            word@,
            width as nat,
        ),
        r <= width || r <= 3,
{
    let wdw = word_width(word);
    if dw > 0 {
        let fits = wdw <= width as u128 && (dw as u128) < (width as u128) - wdw;
        if fits {
            cur.push((' ', RichStyle::Plain));
            append_cells(cur, word);
            return dw + 1 + (wdw as usize);
        }
        let ghost before = lines@;
        let mut finished: Vec<Cell> = Vec::new();
            std::mem::swap(&mut finished, cur);
        lines.push(finished);
        proof {
            assert(seqs(lines@) =~= seqs(before).push(finished@));
        }
    }
    if wdw <= width as u128 {
        append_cells(cur, word);
        wdw as usize
    } else {
        hard_split_exec(lines, cur, word, width)
    }
}

fn wrap_segment_exec(seg: &Vec<Cell>, width: usize) -> (r: Vec<Vec<Cell>>)
    ensures
        seqs(r@) == wrap_segment(seg@, width as nat),
{
    let ws = split_pieces(seg, false);
    proof { lemma_pieces_short(seg@, false); }
    let mut lines: Vec<Vec<Cell>> = Vec::new();
    let mut cur: Vec<Cell> = Vec::new();
    let mut dw: usize = 0;
    let mut i: usize = 0;
    proof {
        assert(seqs(lines@) =~= Seq::<Seq<Cell>>::empty());
        assert(seqs(ws@).subrange(0, 0) =~= Seq::<Seq<Cell>>::empty());
    }
    while i < ws.len()
        invariant
            i <= ws@.len(),
            seqs(ws@) == pieces(seg@, false),
            forall|j: int| 0 <= j < pieces(seg@, false).len() ==> #[trigger] pieces(seg@, false)[j].len() <= seg@.len(),
            state_of(lines@, cur@, dw) == place_all(seqs(ws@).subrange(0, i as int), width as nat),
            dw <= width || dw <= 3,
        decreases ws.len() - i,
    {
        proof {
            let p = seqs(ws@).subrange(0, i + 1);
            assert(p.drop_last() =~= seqs(ws@).subrange(0, i as int));
            assert(p.last() == ws@[i as int]@);
            assert(ws@[i as int]@ == pieces(seg@, false)[i as int]);
        }
        if ws[i].len() > 0 {
            dw = place_word_exec(&mut lines, &mut cur, dw, &ws[i], width);
        }
        i += 1;
    }
    proof {
        assert(seqs(ws@).subrange(0, ws@.len() as int) =~= seqs(ws@));
    }
    if cur.len() > 0 || lines.len() == 0 {
        let ghost before = lines@;
        lines.push(cur);
        proof {
            assert(seqs(lines@) =~= seqs(before).push(cur@));
        }
    }
    lines
}

fn wrap_cells_exec(cells: &Vec<Cell>, width: usize) -> (r: Vec<Vec<Cell>>)
    ensures
        seqs(r@) == wrap_cells(cells@, width as nat),
{
    let segs = split_pieces(cells, true);
    proof { lemma_pieces_short(cells@, true); }
    let mut out: Vec<Vec<Cell>> = Vec::new();
    let mut i: usize = 0;
    proof {
        assert(seqs(out@) =~= wrap_segments(seqs(segs@).subrange(0, 0), width as nat));
    }
    while i < segs.len()
        invariant
            i <= segs@.len(),
            seqs(segs@) == pieces(cells@, true),
            forall|j: int| 0 <= j < pieces(cells@, true).len() ==> #[trigger] pieces(cells@, true)[j].len() <= cells@.len(),
            seqs(out@) == wrap_segments(seqs(segs@).subrange(0, i as int), width as nat),
        decreases segs.len() - i,
    {
        proof {
            let p = seqs(segs@).subrange(0, i + 1);
            assert(p.drop_last() =~= seqs(segs@).subrange(0, i as int));
            assert(p.last() == segs@[i as int]@);
            assert(segs@[i as int]@ == pieces(cells@, true)[i as int]);
        }
        let mut part = wrap_segment_exec(&segs[i], width);
        let ghost before = out@;
        let ghost partv = part@;
        out.append(&mut part);
        proof {
            assert(seqs(out@) =~= seqs(before) + seqs(partv));
        }
        i += 1;
    }
    proof {
        assert(seqs(segs@).subrange(0, segs@.len() as int) =~= seqs(segs@));
    }
    out
}

fn cells_to_chars(cells: &Vec<Cell>) -> (r: Vec<char>)
    ensures
        r@ == cell_chars(cells@),
{
    let mut out: Vec<char> = Vec::new();
    let mut i: usize = 0;
    while i < cells.len()
        invariant
            i <= cells@.len(),
            out@ == cell_chars(cells@.subrange(0, i as int)),
        decreases cells.len() - i,
    {
        out.push(cells[i].0);
        i += 1;
        proof {
            assert(out@ =~= cell_chars(cells@.subrange(0, i as int)));
        }
    }
    proof {
        assert(cells@.subrange(0, cells@.len() as int) =~= cells@);
    }
    out
}

/// Greedy word-wrap of plain text to at most `width` display columns per line.
/// Line feeds are kept (a blank line stays a blank line); a word wider than the
/// line is split by accumulated width. Empty text or zero width gives no lines.
pub fn wrap_text(text: &str, width: usize) -> (r: Vec<String>)
    ensures
        strs(r@) == wrapped_text(text@, width as nat),
{
    let chars = chars_of(text);
    if chars.len() == 0 || width == 0 {
        let r: Vec<String> = Vec::new();
        proof {
            assert(strs(r@) =~= wrapped_text(text@, width as nat));
        }
        return r;
    }
    let mut cells: Vec<Cell> = Vec::new();
    let mut i: usize = 0;
    while i < chars.len()
        invariant
            i <= chars@.len(),
            cells@ == plain_cells(chars@.subrange(0, i as int)),
        decreases chars.len() - i,
    {
        cells.push((chars[i], RichStyle::Plain));
        i += 1;
        proof {
            assert(cells@ =~= plain_cells(chars@.subrange(0, i as int)));
        }
    }
    proof {
        assert(chars@.subrange(0, chars@.len() as int) =~= chars@);
    }
    let lines = wrap_cells_exec(&cells, width);
    let mut out: Vec<String> = Vec::new();
    let mut k: usize = 0;
    while k < lines.len()
        invariant
            k <= lines@.len(),
            out@.len() == k,
            forall|j: int| 0 <= j < k ==> #[trigger] out@[j]@ == cell_chars(lines@[j]@),
        decreases lines.len() - k,
    {
        let cs = cells_to_chars(&lines[k]);
        out.push(string_of(cs.as_slice()));
        k += 1;
    }
    proof {
        let target = wrapped_text(text@, width as nat);
        assert(target == seqs(lines@).map_values(|l: Seq<Cell>| cell_chars(l)));
        assert forall|j: int| 0 <= j < out@.len() implies #[trigger] strs(out@)[j] == target[j] by {
            assert(seqs(lines@)[j] == lines@[j]@);
        }
        assert(strs(out@) =~= target);
    }
    out
}

/// The cells of a styled line: each character with its span's style.
fn expand_to_styled_chars(line: &RichLine) -> (r: Vec<Cell>)
    ensures
        r@ == cells_of(line_view(line@)),
{
    let mut out: Vec<Cell> = Vec::new();
    let mut i: usize = 0;
    proof {
        assert(line_view(line@).subrange(0, 0) =~= Seq::<SpanV>::empty());
    }
    while i < line.len()
        invariant
            i <= line@.len(),
            out@ == cells_of(line_view(line@).subrange(0, i as int)),
        decreases line.len() - i,
    {
        let span = &line[i];
        let cs = chars_of(span.text.as_str());
        let ghost base = out@;
        let mut k: usize = 0;
        while k < cs.len()
            invariant
                k <= cs@.len(),
                cs@ == span.text@,
                out@ == base + cs@.subrange(0, k as int).map_values(|c: char| (c, span.style)),
            decreases cs.len() - k,
        {
            out.push((cs[k], span.style));
            k += 1;
            proof {
                assert(out@ =~= base + cs@.subrange(0, k as int).map_values(|c: char| (c, span.style)));
            }
        }
        proof {
            assert(cs@.subrange(0, cs@.len() as int) =~= cs@);
            let p = line_view(line@).subrange(0, i + 1);
            assert(p.drop_last() =~= line_view(line@).subrange(0, i as int));
            assert(p.last() == span@);
        }
        i += 1;
    }
    proof {
        assert(line_view(line@).subrange(0, line@.len() as int) =~= line_view(line@));
    }
    out
}

/// The views of a list of styled lines.
pub open spec fn lines_view(v: Seq<RichLine>) -> Seq<Seq<SpanV>> {
    v.map_values(|l: RichLine| line_view(l@))
}

/// Greedy word-wrap of a styled line, with the same rules as `wrap_text`: every
/// character keeps its span's style across breaks, the joining space is plain,
/// and adjacent characters of one style share a span.
pub fn wrap_rich(line: &RichLine, width: usize) -> (r: Vec<RichLine>)
    ensures
        lines_view(r@) == wrapped_rich(line_view(line@), width as nat),
{
    if line.len() == 0 || width == 0 {
        let r: Vec<RichLine> = Vec::new();
        proof {
            assert(lines_view(r@) =~= wrapped_rich(line_view(line@), width as nat));
        }
        return r;
    }
    let cells = expand_to_styled_chars(line);
    let lines = wrap_cells_exec(&cells, width);
    let mut out: Vec<RichLine> = Vec::new();
    let mut k: usize = 0;
    while k < lines.len()
        invariant
            k <= lines@.len(),
            out@.len() == k,
            forall|j: int| 0 <= j < k ==> #[trigger] line_view(out@[j]@) == spans_of(lines@[j]@),
        decreases lines.len() - k,
    {
        out.push(line_from_cells(&lines[k]));
        k += 1;
    }
    proof {
        let target = wrapped_rich(line_view(line@), width as nat);
        assert forall|j: int| 0 <= j < out@.len() implies #[trigger] lines_view(out@)[j] == target[j] by {
            assert(seqs(lines@)[j] == lines@[j]@);
        }
        assert(lines_view(out@) =~= target);
    }
    out
}

} // verus!
