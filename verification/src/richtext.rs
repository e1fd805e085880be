//! Styled text: spans of text with an emphasis style, and the conversion of
//! task HTML into lines of such spans.

use vstd::prelude::*;
use crate::unicode::push_char;

verus! {

/// Emphasis kind of a text span.
#[derive(Debug, Clone, Copy, PartialEq, Eq, Structural)]
pub enum RichStyle {
    Plain,
    Bold,
    Italic,
    Code,
    Strike,
    Underline,
    /// Layout-emitted link affordance (asset rows).
    Link,
    /// Layout-emitted edit affordance on own-comment headers.
    EditAffordance,
    /// Layout-emitted delete affordance on own-comment headers.
    DeleteAffordance,
    /// Layout-emitted panel title over a panel's top-border label.
    PanelTitle,
}

/// A styled text fragment.
#[derive(Debug, Clone, PartialEq)]
pub struct RichSpan {
    pub text: String,
    pub style: RichStyle,
}

/// A span with its text as a character sequence.
pub struct SpanV {
    pub text: Seq<char>,
    pub style: RichStyle,
}

impl View for RichSpan {
    type V = SpanV;

    open spec fn view(&self) -> SpanV {
        SpanV { text: self.text@, style: self.style }
    }
}

/// A logical line composed of styled spans.
pub type RichLine = Vec<RichSpan>;

/// A character together with the style it is shown in.
pub type Cell = (char, RichStyle);

/// The spans of a line, viewed.
pub open spec fn line_view(l: Seq<RichSpan>) -> Seq<SpanV> {
    l.map_values(|s: RichSpan| s@)
}

/// Appending text of one style to a line: it joins the last span when that span
/// has the same style, and starts a new span otherwise. Empty text is ignored.
pub open spec fn push_text(l: Seq<SpanV>, t: Seq<char>, st: RichStyle) -> Seq<SpanV> {
    if t.len() == 0 {
        l
    } else if l.len() > 0 && l.last().style == st {
        l.update(l.len() - 1, SpanV { text: l.last().text + t, style: st })
    } else {
        l.push(SpanV { text: t, style: st })
    }
}

/// The line made of `cells`, adjacent cells of one style sharing a span.
pub open spec fn spans_of(cells: Seq<Cell>) -> Seq<SpanV>
    decreases cells.len(),
{
    if cells.len() == 0 {
        Seq::empty()
    } else {
        push_text(spans_of(cells.drop_last()), seq![cells.last().0], cells.last().1)
    }
}

/// The characters of a line, each with its span's style.
pub open spec fn cells_of(l: Seq<SpanV>) -> Seq<Cell>
    decreases l.len(),
{
    if l.len() == 0 {
        Seq::empty()
    } else {
        cells_of(l.drop_last()) + l.last().text.map_values(|c: char| (c, l.last().style))
    }
}

/// The plain text of a line.
pub open spec fn text_of(l: Seq<SpanV>) -> Seq<char>
    decreases l.len(),
{
    if l.len() == 0 {
        Seq::empty()
    } else {
        text_of(l.drop_last()) + l.last().text
    }
}

/// Appends one styled character to a line, joining the last span when styles agree.
pub fn push_cell(line: &mut RichLine, c: char, st: RichStyle)
    ensures
        line_view(final(line)@) == push_text(line_view(old(line)@), seq![c], st),
{
    let ghost old_l = line@;
    let n = line.len();
    if n > 0 && line[n - 1].style == st {
        let mut last = line.pop().unwrap();
        let ghost prev = last;
        push_char(&mut last.text, c);
        line.push(last);
        proof {
            assert(prev == old_l.last());
            assert(line_view(old_l).last() == prev@);
            assert(last.text@ =~= prev.text@ + seq![c]);
            assert(last@ == SpanV { text: prev@.text + seq![c], style: st });
            assert(line_view(line@) =~= line_view(old_l).update(n - 1, last@));
        }
    } else {
        let mut text = String::new();
        push_char(&mut text, c);
        line.push(RichSpan { text, style: st });
        proof {
            assert(line_view(line@) =~= push_text(line_view(old(line)@), seq![c], st));
        }
    }
}

/// The line whose spans are `cells` grouped by style.
pub fn line_from_cells(cells: &Vec<Cell>) -> (r: RichLine)
    ensures
        line_view(r@) == spans_of(cells@),
{
    let mut line: RichLine = Vec::new();
    let mut i: usize = 0;
    proof {
        assert(line_view(line@) =~= spans_of(cells@.subrange(0, 0)));
    }
    while i < cells.len()
        invariant
            i <= cells@.len(),
            line_view(line@) == spans_of(cells@.subrange(0, i as int)),
        decreases cells.len() - i,
    {
        let c = cells[i];
        push_cell(&mut line, c.0, c.1);
        proof {
            let p = cells@.subrange(0, i + 1);
            assert(p.drop_last() =~= cells@.subrange(0, i as int));
            assert(p.last() == c);
        }
        i += 1;
    }
    proof {
        assert(cells@.subrange(0, cells@.len() as int) =~= cells@);
    }
    line
}

} // verus!
