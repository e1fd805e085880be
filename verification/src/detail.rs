//! The task detail view of the interactive browser: the Details panel (an
//! aligned two-column table), the Description panel with its clickable links,
//! the Comments panel of nested cards with edit and delete affordances on the
//! user's own comments, and the attachment section, assembled line by line
//! with a parallel list of style runs.

use vstd::prelude::*;
use std::collections::HashMap;
use crate::textutil::{owned, decimal, i64_decimal, strs, pad_right, push_padded, spaces, push_repeat};
use crate::unicode::{chars_of, push_str, push_char, text_cols, cw};
use crate::i18n::{I18n, t, translated};
use crate::fields::{JsonField, field_i64, field_str, field_bool, date_field_text, fmt_date, as_i64, as_text, as_bool};
use crate::cli_render::{TaskFields, CommentFields, assignee_label, assignee_text, str_or_empty, text_or_empty,
    comment_author, extract_comment_author};
use crate::fields::{ts_text, fmt_ts};
use crate::render::{Asset, DetailContent};
use crate::assets::{extract_assets, task_assets, assets_view};
use crate::render::{boxed, panel_box, sat_sub, sat_add, panel_content_width, panel_box_rich, plain_texts, boxed_rich_runs,
    style_runs, StyleRun, fitted_header, panel_title_run, LocalAffordance, AffordanceKind};
use crate::wrap::{wrap_text, wrapped_text, wrap_rich, wrapped_rich, lines_view};
use crate::richtext::{RichLine, RichSpan, RichStyle, SpanV, line_view, text_of};
use crate::richparse::{rich_lines, structured_rich_with_links};
use crate::render::{link_spans, link_spans_exec, pairs, openable, is_openable_url, cols_prefix, sub_chars, sub_string,
    rich_line_plain, display_width};
use crate::scan::{links, find_links, at, at_exec};

verus! {

broadcast use vstd::std_specs::hash::group_hash_axioms;

pub open spec fn or_zero(o: Option<i64>) -> i64 {
    match o {
        Some(v) => v,
        None => 0,
    }
}

/// The Details table's (label, value) pairs: Task (`P-T`), Title, Project
/// (`(unknown)` when unnamed), Status, Assignee, then Start and Due when set,
/// then Estimate and Logged in hours.
pub open spec fn meta_pairs(lang: Seq<char>, entries: Seq<(String, String)>, task: TaskFields, users: Map<i64, String>) -> Seq<(Seq<char>, Seq<char>)> {
    let tr = |k: Seq<char>| translated(lang, entries, k);
    let project = match field_str(task.project_name) {
        Some(s) => if s.len() > 0 { s } else { tr("(unknown)"@) },
        None => tr("(unknown)"@),
    };
    let status = if field_bool(task.is_completed) == Some(true) { tr("Completed"@) } else { tr("Open"@) };
    let start = date_field_text(task.start_on);
    let due = date_field_text(task.due_on);
    seq![
        (tr("Task"@), decimal(or_zero(field_i64(task.project_id)) as int) + "-"@ + decimal(or_zero(field_i64(task.id)) as int)),
        (tr("Title"@), str_or_empty(task.name)),
        (tr("Project"@), project),
        (tr("Status"@), status),
        (tr("Assignee"@), assignee_label(lang, entries, task.assignee_id, users)),
    ]
        + (if start.len() > 0 { seq![(tr("Start"@), start)] } else { Seq::empty() })
        + (if due.len() > 0 { seq![(tr("Due"@), due)] } else { Seq::empty() })
        + seq![(tr("Estimate"@), task.estimate_hours@ + "h"@), (tr("Logged"@), task.logged_hours@ + "h"@)]
}

/// The widest label, in characters.
pub open spec fn label_col(pairs: Seq<(Seq<char>, Seq<char>)>) -> nat
    decreases pairs.len(),
{
    if pairs.len() == 0 {
        0
    } else {
        let m = label_col(pairs.drop_last());
        if pairs.last().0.len() > m { pairs.last().0.len() } else { m }
    }
}

/// One table row: the label padded to the label column and two spaces, then
/// the value wrapped to the columns left; continuation lines are indented to
/// the value column. No room for the value leaves the prefix alone.
pub open spec fn meta_row(label: Seq<char>, value: Seq<char>, lc: nat, cwidth: nat) -> Seq<Seq<char>> {
    let prefix = pad_right(label, lc) + "  "@;
    let vw = sat_sub(cwidth, prefix.len());
    if vw == 0 {
        seq![prefix]
    } else {
        let vl = wrapped_text(value, vw);
        if vl.len() == 0 {
            seq![prefix]
        } else {
            seq![prefix + vl[0]] + vl.drop_first().map_values(|c: Seq<char>| spaces(prefix.len()) + c)
        }
    }
}

pub open spec fn meta_rows(pairs: Seq<(Seq<char>, Seq<char>)>, lc: nat, cwidth: nat) -> Seq<Seq<char>>
    decreases pairs.len(),
{
    if pairs.len() == 0 {
        Seq::empty()
    } else {
        meta_rows(pairs.drop_last(), lc, cwidth) + meta_row(pairs.last().0, pairs.last().1, lc, cwidth)
    }
}

/// The Details panel: the table in a panel titled "Details".
pub open spec fn header_panel(lang: Seq<char>, entries: Seq<(String, String)>, task: TaskFields, users: Map<i64, String>, width: nat) -> Seq<Seq<char>> {
    let pairs = meta_pairs(lang, entries, task, users);
    boxed(translated(lang, entries, "Details"@), meta_rows(pairs, label_col(pairs), sat_sub(width, 4)), width)
}

pub open spec fn pairs_view(v: Seq<(String, String)>) -> Seq<(Seq<char>, Seq<char>)> {
    v.map_values(|p: (String, String)| (p.0@, p.1@))
}

fn push_pair(v: &mut Vec<(String, String)>, a: String, b: String)
    ensures
        pairs_view(final(v)@) == pairs_view(old(v)@).push((a@, b@)),
{
    v.push((a, b));
    proof { assert(pairs_view(final(v)@) =~= pairs_view(old(v)@).push((a@, b@))); }
}

/// The Details table's pairs for a task.
pub fn meta_field_pairs(task: &TaskFields, user_map: &HashMap<i64, String>, i18n: &I18n) -> (r: Vec<(String, String)>)
    ensures
        pairs_view(r@) == meta_pairs(i18n.language@, i18n.catalog.entries@, *task, user_map@),
{
    let pid = match as_i64(&task.project_id) { Some(v) => v, None => 0 };
    let tid = match as_i64(&task.id) { Some(v) => v, None => 0 };
    let mut ids = i64_decimal(pid);
    push_str(&mut ids, "-");
    push_str(&mut ids, i64_decimal(tid).as_str());
    let project = match as_text(&task.project_name) {
        Some(s) => if s.as_str().is_empty() { t(i18n, "(unknown)") } else { s },
        None => t(i18n, "(unknown)"),
    };
    let status = if as_bool(&task.is_completed) == Some(true) { t(i18n, "Completed") } else { t(i18n, "Open") };
    let start = fmt_date(&task.start_on);
    let due = fmt_date(&task.due_on);
    let mut est = task.estimate_hours.clone();
    push_str(&mut est, "h");
    let mut logged = task.logged_hours.clone();
    push_str(&mut logged, "h");
    let mut pairs: Vec<(String, String)> = Vec::new();
    push_pair(&mut pairs, t(i18n, "Task"), ids);
    push_pair(&mut pairs, t(i18n, "Title"), text_or_empty(&task.name));
    push_pair(&mut pairs, t(i18n, "Project"), project);
    push_pair(&mut pairs, t(i18n, "Status"), status);
    push_pair(&mut pairs, t(i18n, "Assignee"), assignee_text(&task.assignee_id, user_map, i18n));
    if !start.as_str().is_empty() {
        push_pair(&mut pairs, t(i18n, "Start"), start);
    }
    if !due.as_str().is_empty() {
        push_pair(&mut pairs, t(i18n, "Due"), due);
    }
    push_pair(&mut pairs, t(i18n, "Estimate"), est);
    push_pair(&mut pairs, t(i18n, "Logged"), logged);
    proof {
        reveal_strlit("-");
        reveal_strlit("h");
        assert(pairs_view(pairs@) =~= meta_pairs(i18n.language@, i18n.catalog.entries@, *task, user_map@));
    }
    pairs
}

/// The label column: the widest label in characters.
pub fn meta_label_col_width(pairs: &[(String, String)]) -> (r: usize)
    ensures
        r == label_col(pairs_view(pairs@)),
{
    let mut m: usize = 0;
    let mut i: usize = 0;
    while i < pairs.len()
        invariant
            i <= pairs@.len(),
            m == label_col(pairs_view(pairs@).subrange(0, i as int)),
        decreases pairs.len() - i,
    {
        proof {
            let p = pairs_view(pairs@).subrange(0, i + 1);
            assert(p.drop_last() =~= pairs_view(pairs@).subrange(0, i as int));
            assert(p.last() == (pairs@[i as int].0@, pairs@[i as int].1@));
        }
        let n = chars_of(pairs[i].0.as_str()).len();
        if n > m {
            m = n;
        }
        i += 1;
    }
    proof { assert(pairs_view(pairs@).subrange(0, pairs@.len() as int) =~= pairs_view(pairs@)); }
    m
}

/// One row of the Details table, wrapped.
pub fn format_meta_row(label: &str, value: &str, label_col: usize, content_width: usize) -> (r: Vec<String>)
    ensures
        strs(r@) == meta_row(label@, value@, label_col as nat, content_width as nat),
{
    let mut prefix = String::new();
    push_padded(&mut prefix, label, label_col);
    push_str(&mut prefix, "  ");
    proof { reveal_strlit("  "); }
    let plen = chars_of(prefix.as_str()).len();
    let vw: usize = if content_width >= plen { content_width - plen } else { 0 };
    let mut out: Vec<String> = Vec::new();
    if vw == 0 {
        out.push(prefix);
        proof { assert(strs(out@) =~= meta_row(label@, value@, label_col as nat, content_width as nat)); }
        return out;
    }
    let vl = wrap_text(value, vw);
    if vl.len() == 0 {
        out.push(prefix);
        proof { assert(strs(out@) =~= meta_row(label@, value@, label_col as nat, content_width as nat)); }
        return out;
    }
    let mut first = prefix.clone();
    push_str(&mut first, vl[0].as_str());
    out.push(first);
    let mut k: usize = 1;
    while k < vl.len()
        invariant
            1 <= k <= vl@.len(),
            plen == prefix@.len(),
            strs(out@) == seq![prefix@ + vl@[0]@] + strs(vl@).subrange(1, k as int).map_values(|c: Seq<char>| spaces(plen as nat) + c),
        decreases vl.len() - k,
    {
        let mut line = String::new();
        push_repeat(&mut line, ' ', plen);
        push_str(&mut line, vl[k].as_str());
        let ghost before = strs(out@);
        out.push(line);
        proof {
            assert(crate::textutil::repeat(' ', plen as nat) =~= spaces(plen as nat));
            assert(strs(out@) =~= before.push(line@));
            assert(strs(vl@).subrange(1, k + 1).map_values(|c: Seq<char>| spaces(plen as nat) + c)
                =~= strs(vl@).subrange(1, k as int).map_values(|c: Seq<char>| spaces(plen as nat) + c).push(spaces(plen as nat) + vl@[k as int]@));
        }
        k += 1;
    }
    proof {
        assert(strs(vl@).subrange(1, vl@.len() as int) =~= strs(vl@).drop_first());
        assert(strs(out@) =~= meta_row(label@, value@, label_col as nat, content_width as nat));
    }
    out
}

/// The Details table's rows for a task at a panel width.
pub fn build_meta_table_rows(task: &TaskFields, user_map: &HashMap<i64, String>, inner_width: usize, i18n: &I18n) -> (r: Vec<String>)
    ensures
        ({
            let pairs = meta_pairs(i18n.language@, i18n.catalog.entries@, *task, user_map@);
            strs(r@) == meta_rows(pairs, label_col(pairs), sat_sub(inner_width as nat, 4))
        }),
{
    let pairs = meta_field_pairs(task, user_map, i18n);
    let lc = meta_label_col_width(&pairs);
    let cwidth = panel_content_width(inner_width);
    let ghost pv = pairs_view(pairs@);
    let mut out: Vec<String> = Vec::new();
    let mut i: usize = 0;
    while i < pairs.len()
        invariant
            i <= pairs@.len(),
            pv == pairs_view(pairs@),
            strs(out@) == meta_rows(pv.subrange(0, i as int), lc as nat, cwidth as nat),
        decreases pairs.len() - i,
    {
        proof {
            let p = pv.subrange(0, i + 1);
            assert(p.drop_last() =~= pv.subrange(0, i as int));
            assert(p.last() == (pairs@[i as int].0@, pairs@[i as int].1@));
        }
        let rows = format_meta_row(pairs[i].0.as_str(), pairs[i].1.as_str(), lc, cwidth);
        let mut k: usize = 0;
        let ghost o0 = strs(out@);
        while k < rows.len()
            invariant
                k <= rows@.len(),
                strs(out@) == o0 + strs(rows@).subrange(0, k as int),
            decreases rows.len() - k,
        {
            let ghost before = strs(out@);
            out.push(rows[k].clone());
            proof {
                assert(strs(out@) =~= before.push(rows@[k as int]@));
                assert(strs(out@) =~= o0 + strs(rows@).subrange(0, k + 1));
            }
            k += 1;
        }
        proof { assert(strs(rows@).subrange(0, rows@.len() as int) =~= strs(rows@)); }
        i += 1;
    }
    proof { assert(pv.subrange(0, pairs@.len() as int) =~= pv); }
    out
}

/// The Details panel of the detail view.
pub fn build_header_lines(task: &TaskFields, user_map: &HashMap<i64, String>, inner_width: usize, i18n: &I18n) -> (r: Vec<String>)
    ensures
        strs(r@) == header_panel(i18n.language@, i18n.catalog.entries@, *task, user_map@, inner_width as nat),
{
    let rows = build_meta_table_rows(task, user_map, inner_width, i18n);
    let label = t(i18n, "Details");
    panel_box(label.as_str(), rows.as_slice(), inner_width)
}


// ---------------------------------------------------------------------------
// The Description panel.
// ---------------------------------------------------------------------------

/// A line of one plain span.
pub open spec fn plain_line(s: Seq<char>) -> Seq<SpanV> {
    seq![SpanV { text: s, style: RichStyle::Plain }]
}

/// Each styled line wrapped to the width, a line that wraps to nothing kept
/// as an empty line.
pub open spec fn wrapped_rows(rich: Seq<Seq<SpanV>>, width: nat) -> Seq<Seq<SpanV>>
    decreases rich.len(),
{
    if rich.len() == 0 {
        Seq::empty()
    } else {
        let f = wrapped_rich(rich.last(), width);
        wrapped_rows(rich.drop_last(), width) + (if f.len() == 0 { seq![Seq::<SpanV>::empty()] } else { f })
    }
}

/// Wrapped styled lines, or the "(no description)" line when there are none.
pub open spec fn rich_body_rows(lang: Seq<char>, entries: Seq<(String, String)>, rich: Seq<Seq<SpanV>>, width: nat) -> Seq<Seq<SpanV>> {
    let w = wrapped_rows(rich, width);
    if w.len() == 0 { seq![plain_line(translated(lang, entries, "(no description)"@))] } else { w }
}

/// The Description panel's content lines: the task body's styled lines
/// wrapped to the content width; an empty body gives "(no description)",
/// wrapped (or whole when that wraps to nothing).
pub open spec fn body_rows(lang: Seq<char>, entries: Seq<(String, String)>, html: Seq<char>, width: nat) -> Seq<Seq<SpanV>> {
    let rich = rich_lines(html);
    if rich.len() == 0 {
        let nd = translated(lang, entries, "(no description)"@);
        let fw = wrapped_text(nd, width);
        (if fw.len() == 0 { seq![nd] } else { fw }).map_values(|l: Seq<char>| plain_line(l))
    } else {
        rich_body_rows(lang, entries, rich, width)
    }
}

/// Plain lines as styled lines of one plain span each.
pub fn plain_lines_to_rich(lines: Vec<String>) -> (r: Vec<RichLine>)
    ensures
        lines_view(r@) == strs(lines@).map_values(|l: Seq<char>| plain_line(l)),
{
    let n = lines.len();
    let mut rest = lines;
    let ghost src = rest@;
    let mut out: Vec<RichLine> = Vec::new();
    let mut i: usize = 0;
    proof { assert(rest@ =~= src.subrange(0, n as int)); }
    while i < n
        invariant
            i <= n,
            n == src.len(),
            rest@ == src.subrange(i as int, n as int),
            lines_view(out@) == strs(src).subrange(0, i as int).map_values(|l: Seq<char>| plain_line(l)),
        decreases n - i,
    {
        let s = rest.remove(0);
        proof {
            assert(s == src[i as int]);
            assert(rest@ =~= src.subrange(i + 1, n as int));
        }
        let line: RichLine = vec![RichSpan { text: s, style: RichStyle::Plain }];
        let ghost before = lines_view(out@);
        out.push(line);
        proof {
            assert(line_view(line@) =~= plain_line(s@));
            assert(lines_view(out@) =~= before.push(plain_line(s@)));
            assert(strs(src).subrange(0, i + 1).map_values(|l: Seq<char>| plain_line(l))
                =~= strs(src).subrange(0, i as int).map_values(|l: Seq<char>| plain_line(l)).push(plain_line(s@)));
        }
        i += 1;
    }
    proof { assert(strs(src).subrange(0, n as int) =~= strs(src)); }
    out
}

/// Styled lines wrapped to the content width (see `rich_body_rows`).
pub fn build_rich_body_rows(rich_lines: Vec<RichLine>, content_width: usize, i18n: &I18n) -> (r: Vec<RichLine>)
    ensures
        lines_view(r@) == rich_body_rows(i18n.language@, i18n.catalog.entries@, lines_view(rich_lines@), content_width as nat),
{
    let ghost src = lines_view(rich_lines@);
    let mut wrapped: Vec<RichLine> = Vec::new();
    let mut i: usize = 0;
    while i < rich_lines.len()
        invariant
            i <= rich_lines@.len(),
            src == lines_view(rich_lines@),
            lines_view(wrapped@) == wrapped_rows(src.subrange(0, i as int), content_width as nat),
        decreases rich_lines.len() - i,
    {
        proof {
            let p = src.subrange(0, i + 1);
            assert(p.drop_last() =~= src.subrange(0, i as int));
            assert(p.last() == line_view(rich_lines@[i as int]@));
        }
        let mut frags = wrap_rich(&rich_lines[i], content_width);
        let ghost before = lines_view(wrapped@);
        if frags.len() == 0 {
            let empty: RichLine = Vec::new();
            wrapped.push(empty);
            proof {
                assert(line_view(empty@) =~= Seq::<SpanV>::empty());
                assert(lines_view(wrapped@) =~= before + seq![Seq::<SpanV>::empty()]);
            }
        } else {
            let ghost fv = lines_view(frags@);
            wrapped.append(&mut frags);
            proof { assert(lines_view(wrapped@) =~= before + fv); }
        }
        i += 1;
    }
    proof { assert(src.subrange(0, rich_lines@.len() as int) =~= src); }
    if wrapped.len() == 0 {
        let nd = t(i18n, "(no description)");
        let mut v: Vec<String> = Vec::new();
        v.push(nd);
        proof { assert(strs(v@) =~= seq![nd@]); }
        let r = plain_lines_to_rich(v);
        proof { assert(lines_view(r@) =~= seq![plain_line(nd@)]); }
        r
    } else {
        wrapped
    }
}

/// The Description panel's content lines for a task body.
pub fn body_rich_rows(body_html: &str, content_width: usize, i18n: &I18n) -> (r: Vec<RichLine>)
    ensures
        lines_view(r@) == body_rows(i18n.language@, i18n.catalog.entries@, body_html@, content_width as nat),
{
    let rich = structured_rich_with_links(body_html);
    if rich.len() == 0 {
        let nd = t(i18n, "(no description)");
        let mut fw = wrap_text(nd.as_str(), content_width);
        if fw.len() == 0 {
            fw.push(nd);
            proof { assert(strs(fw@) =~= seq![nd@]); }
        }
        plain_lines_to_rich(fw)
    } else {
        build_rich_body_rows(rich, content_width, i18n)
    }
}

/// A panel's style runs with its title run added to the first row.
pub open spec fn titled(runs: Seq<Seq<StyleRun>>, label: Seq<char>, width: nat) -> Seq<Seq<StyleRun>> {
    let fdw = text_cols(fitted_header(label, width));
    if width < 4 || fdw == 0 || runs.len() == 0 {
        runs
    } else {
        runs.update(0, runs[0].push(StyleRun { start: 2, len: fdw, style: RichStyle::PanelTitle }))
    }
}

/// Adds the panel title's run to the first row's runs.
pub fn seed_panel_title_run(line_styles: &mut Vec<Vec<StyleRun>>, label: &str, width: usize)
    ensures
        final(line_styles)@.len() == old(line_styles)@.len(),
        forall|k: int| 0 <= k < final(line_styles)@.len() ==> (#[trigger] final(line_styles)@[k])@
            == titled(old(line_styles)@.map_values(|v: Vec<StyleRun>| v@), label@, width as nat)[k],
{
    let ghost old_v = line_styles@.map_values(|v: Vec<StyleRun>| v@);
    match panel_title_run(label, width) {
        None => {},
        Some(run) => {
            if line_styles.len() > 0 {
                let mut first = line_styles.remove(0);
                first.push(run);
                line_styles.insert(0, first);
            }
        },
    }
}

/// The panel rows' texts and runs (see `boxed` and `boxed_rich_runs`).
pub open spec fn rich_runs(inner: Seq<Seq<SpanV>>, k: int) -> Seq<StyleRun> {
    if 2 <= k < 2 + inner.len() { style_runs(inner[k - 2], 2) } else { Seq::empty() }
}

pub open spec fn texts(inner: Seq<Seq<SpanV>>) -> Seq<Seq<char>> {
    inner.map_values(|l: Seq<SpanV>| text_of(l))
}

/// The rows of a rich panel, split into texts and runs, with the title run.
pub fn boxed_rich_titled(label: &str, inner: &[RichLine], width: usize) -> (r: (Vec<String>, Vec<Vec<StyleRun>>))
    ensures
        strs(r.0@) == boxed(label@, texts(lines_view(inner@)), width as nat),
        r.1@.len() == r.0@.len(),
        forall|k: int| 0 <= k < r.1@.len() ==> (#[trigger] r.1@[k])@ == titled(
            Seq::new(r.0@.len(), |j: int| rich_runs(lines_view(inner@), j)), label@, width as nat)[k],
{
    let (lines, mut styles) = boxed_rich_split(label, inner, width);
    proof {
        assert(styles@.map_values(|v: Vec<StyleRun>| v@) =~= runs_view(styles@));
    }
    seed_panel_title_run(&mut styles, label, width);
    (lines, styles)
}


// ---------------------------------------------------------------------------
// Links in the Description panel.
// ---------------------------------------------------------------------------

/// A link found in the body: the content line, the panel columns
/// `[start, end)` and the URL to open.
pub open spec fn aff_view(a: (usize, usize, usize, String)) -> (int, nat, nat, Seq<char>) {
    (a.0 as int, a.1 as nat, a.2 as nat, a.3@)
}

/// Net bracket depth: one up per `[`, one down per `]`.
pub open spec fn depth(s: Seq<char>) -> int
    decreases s.len(),
{
    if s.len() == 0 {
        0
    } else {
        depth(s.drop_last()) + (if s.last() == '[' { 1int } else if s.last() == ']' { -1int } else { 0int })
    }
}

/// Some web link of `s` ends exactly at column `edge`.
pub open spec fn raw_edge(s: Seq<char>, edge: nat) -> bool {
    exists|k: int| 0 <= k < links(s).len() && cols_prefix(s, #[trigger] links(s)[k].1) == edge
}

pub open spec fn total(f: Seq<nat>) -> nat
    decreases f.len(),
{
    if f.len() == 0 { 0 } else { total(f.drop_last()) + f.last() }
}

/// Joins the lines after `start` onto `joined` while a `[` stays open (at most
/// 20 more lines), stopping after a line narrower than the content width.
pub open spec fn bracket_group(p: Seq<Seq<char>>, start: int, width: nat, joined: Seq<char>, frags: Seq<nat>, consumed: int) -> (Seq<char>, Seq<nat>, int)
    decreases p.len() - start - consumed,
{
    if 0 <= start && 0 <= consumed && depth(joined) > 0 && start + 1 + consumed < p.len() && consumed < 20 {
        let c = consumed + 1;
        let np = p[start + c];
        let ndw = text_cols(np) as nat;
        if ndw < width {
            (joined + np, frags.push(ndw), c)
        } else {
            bracket_group(p, start, width, joined + np, frags.push(ndw), c)
        }
    } else {
        (joined, frags, consumed)
    }
}

/// Joins the lines after `start` onto `joined` while a web link ends at the
/// right edge of what is joined (at most 20 more lines), stopping after a line
/// narrower than the content width.
pub open spec fn raw_group(p: Seq<Seq<char>>, start: int, width: nat, joined: Seq<char>, frags: Seq<nat>, consumed: int) -> (Seq<char>, Seq<nat>, int)
    decreases p.len() - start - consumed,
{
    if 0 <= start && 0 <= consumed && raw_edge(joined, total(frags)) && start + 1 + consumed < p.len() && consumed < 20 {
        let c = consumed + 1;
        let np = p[start + c];
        let ndw = text_cols(np) as nat;
        if ndw < width {
            (joined + np, frags.push(ndw), c)
        } else {
            raw_group(p, start, width, joined + np, frags.push(ndw), c)
        }
    } else {
        (joined, frags, consumed)
    }
}

/// The group of lines starting at `i`: a full-width line with an open `[` is
/// joined with its continuations, a full-width line whose link ends at its
/// edge likewise; any other line stands alone.
pub open spec fn group_at(p: Seq<Seq<char>>, i: int, width: nat) -> (Seq<char>, Seq<nat>, int) {
    let plain = p[i];
    let dw = text_cols(plain) as nat;
    let full = dw == width && width > 0;
    if depth(plain) > 0 && full {
        bracket_group(p, i, width, plain, seq![dw], 0)
    } else if full && raw_edge(plain, dw) {
        raw_group(p, i, width, plain, seq![dw], 0)
    } else {
        (plain, seq![dw], 0)
    }
}

pub open spec fn mailto() -> Seq<char> {
    "mailto:"@
}

/// A bare e-mail address (an `@`, no `://`, no `mailto:` yet) gets `mailto:`.
pub open spec fn normalized_link(tok: Seq<char>) -> Seq<char> {
    if tok.contains('@') && !crate::render::contains_seq(tok, crate::render::scheme_sep()) && !at(tok, 0, mailto()) {
        mailto() + tok
    } else {
        tok
    }
}

pub open spec fn nat_max(a: nat, b: nat) -> nat { if a >= b { a } else { b } }

pub open spec fn nat_min(a: nat, b: nat) -> nat { if a <= b { a } else { b } }

/// The pieces of a link spanning joined columns `[us, ue)` on each fragment
/// line it overlaps, in that line's panel columns (content from column 2).
pub open spec fn frag_emit(us: nat, ue: nat, url: Seq<char>, f: Seq<nat>, start: int) -> Seq<(int, nat, nat, Seq<char>)>
    decreases f.len(),
{
    if f.len() == 0 {
        Seq::empty()
    } else {
        let k = f.len() - 1;
        let o = total(f.drop_last());
        let e = o + f.last();
        let os = nat_max(us, o);
        let oe = nat_min(ue, e);
        frag_emit(us, ue, url, f.drop_last(), start) + if os < oe {
            seq![(sat_add(start as nat, k as nat) as int, sat_add(2, (os - o) as nat), sat_add(2, (oe - o) as nat), url)]
        } else {
            Seq::empty()
        }
    }
}

/// The affordances of one group: for each link span that opens in a browser
/// (or is an e-mail address), its pieces on the group's lines.
pub open spec fn group_affs(j: Seq<char>, f: Seq<nat>, start: int, spans: Seq<(int, int)>) -> Seq<(int, nat, nat, Seq<char>)>
    decreases spans.len(),
{
    if spans.len() == 0 {
        Seq::empty()
    } else {
        let sp = spans.last();
        let inner = j.subrange(sp.0, sp.1);
        let url = normalized_link(inner);
        let us = cols_prefix(j, sp.0);
        group_affs(j, f, start, spans.drop_last()) + if openable(url) || at(url, 0, mailto()) {
            frag_emit(us, us + (text_cols(inner) as nat), url, f, start)
        } else {
            Seq::empty()
        }
    }
}

/// The body's link affordances from line `i` on, group by group.
pub open spec fn body_affs_from(p: Seq<Seq<char>>, width: nat, i: int) -> Seq<(int, nat, nat, Seq<char>)>
    decreases p.len() - i,
{
    if i < 0 || i >= p.len() {
        Seq::empty()
    } else {
        let g = group_at(p, i, width);
        let nxt = i + 1 + (if g.2 >= 0 { g.2 } else { 0 });
        group_affs(g.0, g.1, i, link_spans(g.0)) + body_affs_from(p, width, if nxt <= p.len() { nxt } else { p.len() as int })
    }
}

proof fn lemma_depth_app(a: Seq<char>, b: Seq<char>)
    ensures
        depth(a + b) == depth(a) + depth(b),
    decreases b.len(),
{
    if b.len() > 0 {
        assert((a + b).drop_last() =~= a + b.drop_last());
        lemma_depth_app(a, b.drop_last());
    } else {
        assert(a + b =~= a);
    }
}

fn depth_exec(cs: &Vec<char>) -> (r: i128)
    ensures
        r == depth(cs@),
{
    let mut d: i128 = 0;
    let mut i: usize = 0;
    let n = cs.len();
    while i < n
        invariant
            i <= n,
            n == cs@.len(),
            d == depth(cs@.subrange(0, i as int)),
            -(i as int) <= d <= i as int,
        decreases n - i,
    {
        proof { assert(cs@.subrange(0, i + 1).drop_last() =~= cs@.subrange(0, i as int)); }
        if cs[i] == '[' {
            d = d + 1;
        } else if cs[i] == ']' {
            d = d - 1;
        }
        i += 1;
    }
    proof { assert(cs@.subrange(0, n as int) =~= cs@); }
    d
}

/// Columns before position `k`, character by character, without a bound on
/// the length.
fn cols_before(cs: &Vec<char>, k: usize) -> (r: u128)
    requires
        k <= cs@.len(),
    ensures
        r == cols_prefix(cs@, k as int),
        r <= 3 * k,
{
    let mut acc: u128 = 0;
    let mut j: usize = 0;
    while j < k
        invariant
            j <= k <= cs@.len(),
            acc == cols_prefix(cs@, j as int),
            acc <= 3 * j,
        decreases k - j,
    {
        let w: usize = match crate::unicode::char_width(cs[j]) {
            Some(w) => w,
            None => 0,
        };
        acc = acc + w as u128;
        j += 1;
    }
    acc
}

fn raw_edge_exec(cs: &Vec<char>, edge: u128) -> (r: bool)
    ensures
        r == raw_edge(cs@, edge as nat),
{
    let ls = find_links(cs);
    let mut k: usize = 0;
    while k < ls.len()
        invariant
            k <= ls@.len(),
            ls@.len() == links(cs@).len(),
            forall|m: int| 0 <= m < ls@.len() ==> (#[trigger] ls@[m]).0 as int == links(cs@)[m].0 && ls@[m].1 as int == links(cs@)[m].1,
            forall|m: int| 0 <= m < ls@.len() ==> (#[trigger] ls@[m]).0 < ls@[m].1 <= cs@.len(),
            forall|m: int| 0 <= m < k ==> cols_prefix(cs@, #[trigger] links(cs@)[m].1) != edge,
        decreases ls.len() - k,
    {
        if cols_before(cs, ls[k].1) == edge {
            proof { assert(cols_prefix(cs@, links(cs@)[k as int].1) == edge); }
            return true;
        }
        k += 1;
    }
    false
}

fn total_exec(f: &Vec<usize>) -> (r: u128)
    ensures
        r == total(f@.map_values(|x: usize| x as nat)),
{
    let mut acc: u128 = 0;
    let mut i: usize = 0;
    let n = f.len();
    while i < n
        invariant
            i <= n,
            n == f@.len(),
            acc == total(f@.map_values(|x: usize| x as nat).subrange(0, i as int)),
            acc <= i * 18446744073709551615,
        decreases n - i,
    {
        proof {
            let m = f@.map_values(|x: usize| x as nat);
            assert(m.subrange(0, i + 1).drop_last() =~= m.subrange(0, i as int));
        }
        acc = acc + f[i] as u128;
        i += 1;
    }
    proof { assert(f@.map_values(|x: usize| x as nat).subrange(0, n as int) =~= f@.map_values(|x: usize| x as nat)); }
    acc
}


fn sat_add_exec(a: usize, b: usize) -> (r: usize)
    ensures
        r as nat == sat_add(a as nat, b as nat),
{
    if a <= usize::MAX - b { a + b } else { usize::MAX }
}

fn append_chars(dst: &mut Vec<char>, src: &Vec<char>)
    ensures
        final(dst)@ == old(dst)@ + src@,
{
    let mut i: usize = 0;
    while i < src.len()
        invariant
            i <= src@.len(),
            dst@ == old(dst)@ + src@.subrange(0, i as int),
        decreases src.len() - i,
    {
        dst.push(src[i]);
        i += 1;
        proof { assert(dst@ =~= old(dst)@ + src@.subrange(0, i as int)); }
    }
    proof { assert(src@.subrange(0, src@.len() as int) =~= src@); }
}

pub open spec fn frags_view(f: Seq<usize>) -> Seq<nat> {
    f.map_values(|x: usize| x as nat)
}

/// The plain lines of the panel content and their widths.
pub open spec fn widths_ok(p: Seq<Seq<char>>, pc: Seq<Vec<char>>, dws: Seq<usize>) -> bool {
    &&& pc.len() == p.len()
    &&& dws.len() == p.len()
    &&& forall|k: int| 0 <= k < p.len() ==> (#[trigger] pc[k])@ == p[k] && dws[k] == text_cols(p[k])
}

fn bracket_group_exec(pc: &Vec<Vec<char>>, dws: &Vec<usize>, start: usize, width: usize) -> (r: (Vec<char>, Vec<usize>, usize))
    requires
        start < pc@.len(),
        widths_ok(pc@.map_values(|v: Vec<char>| v@), pc@, dws@),
    ensures
        ({
            let p = pc@.map_values(|v: Vec<char>| v@);
            (r.0@, frags_view(r.1@), r.2 as int) == bracket_group(p, start as int, width as nat, p[start as int], seq![dws@[start as int] as nat], 0)
            && start + r.2 < pc@.len()
        }),
{
    let ghost p = pc@.map_values(|v: Vec<char>| v@);
    let ghost target = bracket_group(p, start as int, width as nat, p[start as int], seq![dws@[start as int] as nat], 0);
    let n = pc.len();
    let mut joined: Vec<char> = Vec::new();
    append_chars(&mut joined, &pc[start]);
    let mut frags: Vec<usize> = Vec::new();
    frags.push(dws[start]);
    let mut consumed: usize = 0;
    let mut stop = false;
    proof {
        assert(joined@ =~= p[start as int]);
        assert(frags_view(frags@) =~= seq![dws@[start as int] as nat]);
    }
    while !stop && depth_exec(&joined) > 0 && start + 1 + consumed < n && consumed < 20
        invariant
            n == pc@.len(),
            p == pc@.map_values(|v: Vec<char>| v@),
            widths_ok(p, pc@, dws@),
            start + consumed < n,
            consumed <= 20,
            !stop ==> target == bracket_group(p, start as int, width as nat, joined@, frags_view(frags@), consumed as int),
            stop ==> target == (joined@, frags_view(frags@), consumed as int),
        decreases n - consumed - start,
    {
        consumed += 1;
        let ndw = dws[start + consumed];
        let ghost j0 = joined@;
        let ghost f0 = frags_view(frags@);
        append_chars(&mut joined, &pc[start + consumed]);
        frags.push(ndw);
        proof {
            assert(frags_view(frags@) =~= f0.push(ndw as nat));
            assert(pc@[start + consumed]@ == p[start + consumed]);
        }
        if ndw < width {
            stop = true;
        }
    }
    (joined, frags, consumed)
}

fn raw_group_exec(pc: &Vec<Vec<char>>, dws: &Vec<usize>, start: usize, width: usize) -> (r: (Vec<char>, Vec<usize>, usize))
    requires
        start < pc@.len(),
        widths_ok(pc@.map_values(|v: Vec<char>| v@), pc@, dws@),
    ensures
        ({
            let p = pc@.map_values(|v: Vec<char>| v@);
            (r.0@, frags_view(r.1@), r.2 as int) == raw_group(p, start as int, width as nat, p[start as int], seq![dws@[start as int] as nat], 0)
            && start + r.2 < pc@.len()
        }),
{
    let ghost p = pc@.map_values(|v: Vec<char>| v@);
    let ghost target = raw_group(p, start as int, width as nat, p[start as int], seq![dws@[start as int] as nat], 0);
    let n = pc.len();
    let mut joined: Vec<char> = Vec::new();
    append_chars(&mut joined, &pc[start]);
    let mut frags: Vec<usize> = Vec::new();
    frags.push(dws[start]);
    let mut consumed: usize = 0;
    let mut stop = false;
    proof {
        assert(joined@ =~= p[start as int]);
        assert(frags_view(frags@) =~= seq![dws@[start as int] as nat]);
    }
    while !stop && raw_edge_exec(&joined, total_exec(&frags)) && start + 1 + consumed < n && consumed < 20
        invariant
            n == pc@.len(),
            p == pc@.map_values(|v: Vec<char>| v@),
            widths_ok(p, pc@, dws@),
            start + consumed < n,
            consumed <= 20,
            !stop ==> target == raw_group(p, start as int, width as nat, joined@, frags_view(frags@), consumed as int),
            stop ==> target == (joined@, frags_view(frags@), consumed as int),
        decreases n - consumed - start,
    {
        consumed += 1;
        let ndw = dws[start + consumed];
        let ghost f0 = frags_view(frags@);
        append_chars(&mut joined, &pc[start + consumed]);
        frags.push(ndw);
        proof {
            assert(frags_view(frags@) =~= f0.push(ndw as nat));
            assert(pc@[start + consumed]@ == p[start + consumed]);
        }
        if ndw < width {
            stop = true;
        }
    }
    (joined, frags, consumed)
}


fn mailto_chars() -> (r: Vec<char>)
    ensures
        r@ == mailto(),
{
    let v: Vec<char> = vec!['m', 'a', 'i', 'l', 't', 'o', ':'];
    proof { reveal_strlit("mailto:"); assert(v@ =~= mailto()); }
    v
}

fn has_char(cs: &Vec<char>, c: char) -> (r: bool)
    ensures
        r == cs@.contains(c),
{
    let mut i: usize = 0;
    while i < cs.len()
        invariant
            i <= cs@.len(),
            forall|k: int| 0 <= k < i ==> cs@[k] != c,
        decreases cs.len() - i,
    {
        if cs[i] == c {
            return true;
        }
        i += 1;
    }
    false
}

/// Prepends `mailto:` to a bare e-mail address.
pub fn normalize_link_url(token: &Vec<char>) -> (r: Vec<char>)
    ensures
        r@ == normalized_link(token@),
{
    let sep: Vec<char> = vec![':', '/', '/'];
    proof { assert(sep@ =~= crate::render::scheme_sep()); }
    let m = mailto_chars();
    if has_char(token, '@') && !crate::render::contains_seq_exec(token, &sep) && !at_exec(token, 0, &m) {
        let mut out = m;
        append_chars(&mut out, token);
        out
    } else {
        let mut out: Vec<char> = Vec::new();
        append_chars(&mut out, token);
        proof { assert(out@ =~= token@); }
        out
    }
}

pub open spec fn affs_view(v: Seq<(usize, usize, usize, String)>) -> Seq<(int, nat, nat, Seq<char>)> {
    v.map_values(|a: (usize, usize, usize, String)| aff_view(a))
}

fn push_aff(out: &mut Vec<(usize, usize, usize, String)>, a: (usize, usize, usize, String))
    ensures
        affs_view(final(out)@) == affs_view(old(out)@).push(aff_view(a)),
{
    out.push(a);
    proof { assert(affs_view(final(out)@) =~= affs_view(old(out)@).push(aff_view(a))); }
}

fn frag_emit_exec(us: u128, ue: u128, url: &String, f: &Vec<usize>, start: usize, out: &mut Vec<(usize, usize, usize, String)>)
    ensures
        affs_view(final(out)@) == affs_view(old(out)@) + frag_emit(us as nat, ue as nat, url@, frags_view(f@), start as int),
{
    let ghost fv = frags_view(f@);
    let mut o: u128 = 0;
    let mut k: usize = 0;
    let n = f.len();
    proof { assert(fv.subrange(0, 0) =~= Seq::<nat>::empty()); }
    while k < n
        invariant
            k <= n,
            n == f@.len(),
            fv == frags_view(f@),
            o == total(fv.subrange(0, k as int)),
            o <= k * 18446744073709551615,
            affs_view(out@) == affs_view(old(out)@) + frag_emit(us as nat, ue as nat, url@, fv.subrange(0, k as int), start as int),
        decreases n - k,
    {
        let fw = f[k];
        let e: u128 = o + fw as u128;
        let os: u128 = if us >= o { us } else { o };
        let oe: u128 = if ue <= e { ue } else { e };
        let ghost pre = affs_view(out@);
        proof {
            let sub = fv.subrange(0, k + 1);
            assert(sub.drop_last() =~= fv.subrange(0, k as int));
            assert(sub.last() == fw as nat);
        }
        if os < oe {
            let rs: usize = (os - o) as usize;
            let re: usize = (oe - o) as usize;
            let line = sat_add_exec(start, k);
            let a = (line, sat_add_exec(2, rs), sat_add_exec(2, re), url.clone());
            push_aff(out, a);
        }
        o = e;
        k += 1;
    }
    proof { assert(fv.subrange(0, n as int) =~= fv); }
}

fn group_affs_exec(j: &Vec<char>, f: &Vec<usize>, start: usize, out: &mut Vec<(usize, usize, usize, String)>)
    ensures
        affs_view(final(out)@) == affs_view(old(out)@) + group_affs(j@, frags_view(f@), start as int, link_spans(j@)),
{
    let spans = link_spans_exec(j);
    let ghost sv = pairs(spans@);
    let mut i: usize = 0;
    proof { assert(sv.subrange(0, 0) =~= Seq::<(int, int)>::empty()); }
    while i < spans.len()
        invariant
            i <= spans@.len(),
            sv == pairs(spans@),
            sv == link_spans(j@),
            forall|k: int| 0 <= k < spans@.len() ==> (#[trigger] spans@[k]).0 <= spans@[k].1 <= j@.len(),
            affs_view(out@) == affs_view(old(out)@) + group_affs(j@, frags_view(f@), start as int, sv.subrange(0, i as int)),
        decreases spans.len() - i,
    {
        let (a, b) = spans[i];
        proof {
            let sub = sv.subrange(0, i + 1);
            assert(sub.drop_last() =~= sv.subrange(0, i as int));
            assert(sub.last() == (a as int, b as int));
        }
        let inner = sub_chars(j, a, b);
        let url_chars = normalize_link_url(&inner);
        let url = crate::unicode::string_of(url_chars.as_slice());
        let m = mailto_chars();
        let keep = is_openable_url(url.as_str()) || at_exec(&url_chars, 0, &m);
        let ghost pre = affs_view(out@);
        if keep {
            let us = cols_before(j, a);
            let inner_s = crate::unicode::string_of(inner.as_slice());
            let ue: u128 = us + display_width(inner_s.as_str()) as u128;
            frag_emit_exec(us, ue, &url, f, start, out);
        }
        i += 1;
    }
    proof { assert(sv.subrange(0, spans@.len() as int) =~= sv); }
}

/// The Description panel's link affordances: `(content line, start column,
/// end column, URL)` for each piece of each link that opens in a browser or
/// is an e-mail address; links wrapped over several lines are found by
/// joining their lines first.
pub fn collect_body_url_affordances(body_rich: &[RichLine], content_width: usize) -> (r: Vec<(usize, usize, usize, String)>)
    ensures
        affs_view(r@) == body_affs_from(texts(lines_view(body_rich@)), content_width as nat, 0),
{
    let ghost p = texts(lines_view(body_rich@));
    let mut pc: Vec<Vec<char>> = Vec::new();
    let mut dws: Vec<usize> = Vec::new();
    let mut k: usize = 0;
    while k < body_rich.len()
        invariant
            k <= body_rich@.len(),
            p == texts(lines_view(body_rich@)),
            widths_ok(p.subrange(0, k as int), pc@, dws@),
        decreases body_rich.len() - k,
    {
        let plain = rich_line_plain(&body_rich[k]);
        let w = display_width(plain.as_str());
        let cv = chars_of(plain.as_str());
        proof {
            assert(lines_view(body_rich@)[k as int] == line_view(body_rich@[k as int]@));
            assert(p[k as int] == text_of(line_view(body_rich@[k as int]@)));
            assert(cv@ == p[k as int]);
        }
        let ghost pc0 = pc@;
        let ghost dws0 = dws@;
        pc.push(cv);
        dws.push(w);
        proof {
            assert forall|m: int| 0 <= m < k + 1 implies (#[trigger] pc@[m])@ == p.subrange(0, k + 1)[m]
                && dws@[m] == text_cols(p.subrange(0, k + 1)[m]) by {
                if m < k {
                    assert(pc@[m] == pc0[m]);
                    assert(dws@[m] == dws0[m]);
                    assert(pc0[m]@ == p.subrange(0, k as int)[m]);
                    assert(p.subrange(0, k as int)[m] == p.subrange(0, k + 1)[m]);
                }
            }
        }
        k += 1;
    }
    proof {
        assert(p.subrange(0, body_rich@.len() as int) =~= p);
        assert(pc@.map_values(|v: Vec<char>| v@) =~= p);
    }
    let n = pc.len();
    let mut out: Vec<(usize, usize, usize, String)> = Vec::new();
    let mut i: usize = 0;
    while i < n
        invariant
            n == pc@.len(),
            i <= n,
            p == pc@.map_values(|v: Vec<char>| v@),
            widths_ok(p, pc@, dws@),
            body_affs_from(p, content_width as nat, 0) == affs_view(out@) + body_affs_from(p, content_width as nat, i as int),
        decreases n - i,
    {
        let plain = &pc[i];
        let dw = dws[i];
        let full = dw == content_width && content_width > 0;
        let ghost g = group_at(p, i as int, content_width as nat);
        let (joined, frags, consumed) = if depth_exec(plain) > 0 && full {
            bracket_group_exec(&pc, &dws, i, content_width)
        } else if full && raw_edge_exec(plain, dw as u128) {
            raw_group_exec(&pc, &dws, i, content_width)
        } else {
            let mut j: Vec<char> = Vec::new();
            append_chars(&mut j, plain);
            let mut f: Vec<usize> = Vec::new();
            f.push(dw);
            proof {
                assert(j@ =~= p[i as int]);
                assert(frags_view(f@) =~= seq![dw as nat]);
            }
            (j, f, 0)
        };
        proof {
            assert((joined@, frags_view(frags@), consumed as int) == g);
        }
        let ghost before = affs_view(out@);
        group_affs_exec(&joined, &frags, i, &mut out);
        proof {
            assert(body_affs_from(p, content_width as nat, i as int)
                == group_affs(g.0, g.1, i as int, link_spans(g.0)) + body_affs_from(p, content_width as nat, i + 1 + consumed));
        }
        i = i + 1 + consumed;
    }
    out
}


/// What an affordance does, with its strings as character sequences.
pub enum KindV {
    Edit(i64),
    Delete(i64),
    OpenAsset(Seq<char>),
    OpenUrl(Seq<char>),
}

pub open spec fn kind_view(k: AffordanceKind) -> KindV {
    match k {
        AffordanceKind::Edit(id) => KindV::Edit(id),
        AffordanceKind::Delete(id) => KindV::Delete(id),
        AffordanceKind::OpenAsset(u) => KindV::OpenAsset(u@),
        AffordanceKind::OpenUrl(u) => KindV::OpenUrl(u@),
    }
}

pub open spec fn la_view(a: LocalAffordance) -> (int, nat, nat, KindV) {
    (a.line_idx as int, a.col_start as nat, a.col_end as nat, kind_view(a.kind))
}

pub open spec fn las_view(v: Seq<LocalAffordance>) -> Seq<(int, nat, nat, KindV)> {
    v.map_values(|a: LocalAffordance| la_view(a))
}

/// The body links as panel affordances: content line `k` is panel row `2 + k`.
pub open spec fn body_link_affs(affs: Seq<(int, nat, nat, Seq<char>)>) -> Seq<(int, nat, nat, KindV)> {
    affs.map_values(|a: (int, nat, nat, Seq<char>)| (sat_add(2, a.0 as nat) as int, a.1, a.2, KindV::OpenUrl(a.3)))
}

pub open spec fn runs_view(v: Seq<Vec<StyleRun>>) -> Seq<Seq<StyleRun>> {
    v.map_values(|r: Vec<StyleRun>| r@)
}

/// The Description panel: its rows, their style runs (with the title run),
/// and the link affordances.
pub open spec fn body_panel_lines(lang: Seq<char>, entries: Seq<(String, String)>, html: Seq<char>, width: nat) -> Seq<Seq<char>> {
    boxed(translated(lang, entries, "Description"@), texts(body_rows(lang, entries, html, sat_sub(width, 4))), width)
}

pub open spec fn body_panel_runs(lang: Seq<char>, entries: Seq<(String, String)>, html: Seq<char>, width: nat) -> Seq<Seq<StyleRun>> {
    let rows = body_rows(lang, entries, html, sat_sub(width, 4));
    titled(
        Seq::new(body_panel_lines(lang, entries, html, width).len(), |j: int| rich_runs(rows, j)),
        translated(lang, entries, "Description"@),
        width,
    )
}

pub open spec fn body_panel_affs(lang: Seq<char>, entries: Seq<(String, String)>, html: Seq<char>, width: nat) -> Seq<(int, nat, nat, KindV)> {
    let rows = body_rows(lang, entries, html, sat_sub(width, 4));
    body_link_affs(body_affs_from(texts(rows), sat_sub(width, 4), 0))
}

/// The Description panel of a task body.
pub fn build_body_lines(body_html: &str, inner_width: usize, i18n: &I18n) -> (r: (Vec<String>, Vec<Vec<StyleRun>>, Vec<LocalAffordance>))
    ensures
        strs(r.0@) == body_panel_lines(i18n.language@, i18n.catalog.entries@, body_html@, inner_width as nat),
        runs_view(r.1@) == body_panel_runs(i18n.language@, i18n.catalog.entries@, body_html@, inner_width as nat),
        las_view(r.2@) == body_panel_affs(i18n.language@, i18n.catalog.entries@, body_html@, inner_width as nat),
{
    let cwidth = panel_content_width(inner_width);
    let rows = body_rich_rows(body_html, cwidth, i18n);
    let raw = collect_body_url_affordances(rows.as_slice(), cwidth);
    let label = t(i18n, "Description");
    let (lines, styles) = boxed_rich_titled(label.as_str(), rows.as_slice(), inner_width);
    proof {
        assert(runs_view(styles@) =~= body_panel_runs(i18n.language@, i18n.catalog.entries@, body_html@, inner_width as nat));
    }
    let ghost rv = affs_view(raw@);
    let mut affs: Vec<LocalAffordance> = Vec::new();
    let mut i: usize = 0;
    while i < raw.len()
        invariant
            i <= raw@.len(),
            rv == affs_view(raw@),
            las_view(affs@) == body_link_affs(rv.subrange(0, i as int)),
        decreases raw.len() - i,
    {
        let a = &raw[i];
        let la = LocalAffordance {
            line_idx: sat_add_exec(2, a.0),
            col_start: a.1,
            col_end: a.2,
            kind: AffordanceKind::OpenUrl(a.3.clone()),
        };
        let ghost before = las_view(affs@);
        affs.push(la);
        proof {
            assert(las_view(affs@) =~= before.push(la_view(la)));
            assert(body_link_affs(rv.subrange(0, i + 1)) =~= body_link_affs(rv.subrange(0, i as int)).push(la_view(la)));
        }
        i += 1;
    }
    proof { assert(rv.subrange(0, raw@.len() as int) =~= rv); }
    (lines, styles, affs)
}


// ---------------------------------------------------------------------------
// Comment cards.
// ---------------------------------------------------------------------------

/// A column count capped at the largest `usize`.
pub open spec fn capped(n: nat) -> nat {
    if n <= usize::MAX { n } else { usize::MAX as nat }
}

/// The last position at or before `p` where `pat` occurs in `s`.
pub open spec fn last_at(s: Seq<char>, pat: Seq<char>, p: int) -> Option<int>
    decreases p + 1,
{
    if p < 0 {
        None
    } else if at(s, p, pat) {
        Some(p)
    } else {
        last_at(s, pat, p - 1)
    }
}

/// The display columns `[start, end)` of the rightmost occurrence of `tok`
/// in `line`.
pub open spec fn token_span(line: Seq<char>, tok: Seq<char>) -> Option<(nat, nat)> {
    if tok.len() == 0 || line.len() < tok.len() {
        None
    } else {
        match last_at(line, tok, line.len() - tok.len()) {
            Some(p) => Some((capped(cols_prefix(line, p)), capped(cols_prefix(line, p) + (text_cols(tok) as nat)))),
            None => None,
        }
    }
}

/// Locates a token in a line: the display-column span of its rightmost
/// occurrence.
pub fn find_token_span(line: &str, token: &str) -> (r: Option<(usize, usize)>)
    ensures
        match r {
            Some(sp) => token_span(line@, token@) == Some((sp.0 as nat, sp.1 as nat)),
            None => token_span(line@, token@) is None,
        },
{
    let cs = chars_of(line);
    let tk = chars_of(token);
    if tk.len() == 0 || cs.len() < tk.len() {
        return None;
    }
    let mut p: usize = cs.len() - tk.len() + 1;
    while p > 0
        invariant
            p <= cs@.len() - tk@.len() + 1,
            cs@ == line@,
            tk@ == token@,
            tk@.len() > 0,
            cs@.len() >= tk@.len(),
            last_at(line@, token@, line@.len() - token@.len()) == last_at(line@, token@, p - 1),
        decreases p,
    {
        if at_exec(&cs, p - 1, &tk) {
            let c = cols_before(&cs, p - 1);
            let w = display_width(token) as u128;
            let cs_cap: usize = if c <= usize::MAX as u128 { c as usize } else { usize::MAX };
            let ce_full: u128 = c + w;
            let ce_cap: usize = if ce_full <= usize::MAX as u128 { ce_full as usize } else { usize::MAX };
            return Some((cs_cap, ce_cap));
        }
        p -= 1;
    }
    None
}

/// A comment's body as styled lines: its non-empty plain-text body as one
/// plain line, else its HTML body's lines.
pub open spec fn comment_rich(c: CommentFields) -> Seq<Seq<SpanV>> {
    match field_str(c.body_plain_text) {
        Some(p) => if p.len() > 0 { seq![plain_line(p)] } else { rich_lines(str_or_empty(c.body)) },
        None => rich_lines(str_or_empty(c.body)),
    }
}

/// The card's content lines: the body wrapped to the card's content width, or
/// one empty line for an empty body.
pub open spec fn card_rows(lang: Seq<char>, entries: Seq<(String, String)>, c: CommentFields, card_width: nat) -> Seq<Seq<SpanV>> {
    let rich = comment_rich(c);
    if rich.len() == 0 {
        seq![plain_line(Seq::empty())]
    } else {
        rich_body_rows(lang, entries, rich, sat_sub(card_width, 4))
    }
}

pub open spec fn edit_token(lang: Seq<char>, entries: Seq<(String, String)>) -> Seq<char> {
    "["@ + translated(lang, entries, "edit"@) + "]"@
}

pub open spec fn delete_token(lang: Seq<char>, entries: Seq<(String, String)>) -> Seq<char> {
    "["@ + translated(lang, entries, "excluir"@) + "]"@
}

/// The card's label: author, a middle dot and the time; the user's own
/// comments add the edit and delete tokens.
pub open spec fn card_label(lang: Seq<char>, entries: Seq<(String, String)>, author: Seq<char>, when: Seq<char>, own: bool) -> Seq<char> {
    let base = author + seq![' ', crate::render::middot(), ' '] + when;
    if own { base + " "@ + edit_token(lang, entries) + " "@ + delete_token(lang, entries) } else { base }
}

/// A comment card as values.
pub struct CardV {
    pub lines: Seq<Seq<char>>,
    pub runs: Seq<Seq<StyleRun>>,
    pub edit: Option<(nat, nat)>,
    pub delete: Option<(nat, nat)>,
}

pub open spec fn span_run(sp: (nat, nat), style: RichStyle) -> StyleRun {
    StyleRun { start: sp.0 as usize, len: (sp.1 - sp.0) as usize, style }
}

/// One comment's card: its panel rows and their runs; on the user's own
/// comment the spans of the edit and delete tokens on the top border, each
/// also styled there.
pub open spec fn card_of(lang: Seq<char>, entries: Seq<(String, String)>, c: CommentFields, card_width: nat, own: bool) -> CardV {
    let rows = card_rows(lang, entries, c, card_width);
    let label = card_label(lang, entries, comment_author(lang, entries, c), ts_text(c.created_on), own);
    let lines = boxed(label, texts(rows), card_width);
    let runs0 = Seq::new(lines.len(), |j: int| rich_runs(rows, j));
    let es = if own && lines.len() > 0 { token_span(lines[0], edit_token(lang, entries)) } else { None };
    let ds = if own && lines.len() > 0 { token_span(lines[0], delete_token(lang, entries)) } else { None };
    let first_extra = (match es { Some(sp) => seq![span_run(sp, RichStyle::EditAffordance)], None => Seq::empty() })
        + (match ds { Some(sp) => seq![span_run(sp, RichStyle::DeleteAffordance)], None => Seq::empty() });
    CardV {
        lines,
        runs: if lines.len() > 0 { runs0.update(0, runs0[0] + first_extra) } else { runs0 },
        edit: es,
        delete: ds,
    }
}

/// A comment's body as styled lines (see `comment_rich`).
fn comment_rich_lines(c: &CommentFields) -> (r: Vec<RichLine>)
    ensures
        lines_view(r@) == comment_rich(*c),
{
    match as_text(&c.body_plain_text) {
        Some(p) => {
            if p.as_str().is_empty() {
                structured_rich_with_links(text_or_empty(&c.body).as_str())
            } else {
                let ghost pv = p@;
                let mut v: Vec<String> = Vec::new();
                v.push(p);
                proof { assert(strs(v@) =~= seq![pv]); }
                let r = plain_lines_to_rich(v);
                proof { assert(lines_view(r@) =~= seq![plain_line(pv)]); }
                r
            }
        },
        None => structured_rich_with_links(text_or_empty(&c.body).as_str()),
    }
}

fn card_rows_exec(c: &CommentFields, card_width: usize, i18n: &I18n) -> (r: Vec<RichLine>)
    ensures
        lines_view(r@) == card_rows(i18n.language@, i18n.catalog.entries@, *c, card_width as nat),
{
    let rich = comment_rich_lines(c);
    if rich.len() == 0 {
        let mut v: Vec<String> = Vec::new();
        v.push(String::new());
        proof { assert(strs(v@) =~= seq![Seq::<char>::empty()]); }
        let r = plain_lines_to_rich(v);
        proof { assert(lines_view(r@) =~= seq![plain_line(Seq::<char>::empty())]); }
        r
    } else {
        build_rich_body_rows(rich, panel_content_width(card_width), i18n)
    }
}

fn bracketed(i18n: &I18n, key: &str) -> (r: String)
    ensures
        r@ == "["@ + translated(i18n.language@, i18n.catalog.entries@, key@) + "]"@,
{
    let mut s = owned("[");
    push_str(&mut s, t(i18n, key).as_str());
    push_str(&mut s, "]");
    s
}

fn card_label_exec(c: &CommentFields, own: bool, et: &str, dt: &str, i18n: &I18n) -> (r: String)
    requires
        et@ == edit_token(i18n.language@, i18n.catalog.entries@),
        dt@ == delete_token(i18n.language@, i18n.catalog.entries@),
    ensures
        r@ == card_label(i18n.language@, i18n.catalog.entries@, comment_author(i18n.language@, i18n.catalog.entries@, *c), ts_text(c.created_on), own),
{
    let author = extract_comment_author(c, i18n);
    let when = fmt_ts(&c.created_on);
    let mut label = author;
    push_char(&mut label, ' ');
    push_char(&mut label, '\u{00B7}');
    push_char(&mut label, ' ');
    push_str(&mut label, when.as_str());
    if own {
        push_str(&mut label, " ");
        push_str(&mut label, et);
        push_str(&mut label, " ");
        push_str(&mut label, dt);
    }
    proof {
        reveal_strlit(" ");
        assert(label@ =~= card_label(i18n.language@, i18n.catalog.entries@, comment_author(i18n.language@, i18n.catalog.entries@, *c), ts_text(c.created_on), own));
    }
    label
}

/// Rows of a rich panel split into their texts and runs.
fn unzip_rows(rows: Vec<(String, Vec<StyleRun>)>) -> (r: (Vec<String>, Vec<Vec<StyleRun>>))
    ensures
        r.0@.len() == rows@.len(),
        r.1@.len() == rows@.len(),
        forall|k: int| 0 <= k < rows@.len() ==> (#[trigger] r.0@[k])@ == rows@[k].0@ && r.1@[k]@ == rows@[k].1@,
{
    let n = rows.len();
    let mut rest = rows;
    let ghost src = rest@;
    let mut lines: Vec<String> = Vec::new();
    let mut styles: Vec<Vec<StyleRun>> = Vec::new();
    let mut i: usize = 0;
    proof { assert(rest@ =~= src.subrange(0, n as int)); }
    while i < n
        invariant
            i <= n,
            n == src.len(),
            rest@ == src.subrange(i as int, n as int),
            lines@.len() == i,
            styles@.len() == i,
            forall|k: int| 0 <= k < i ==> (#[trigger] lines@[k])@ == src[k].0@ && styles@[k]@ == src[k].1@,
        decreases n - i,
    {
        let (l, st) = rest.remove(0);
        proof {
            assert((l, st) == src[i as int]);
            assert(rest@ =~= src.subrange(i + 1, n as int));
        }
        lines.push(l);
        styles.push(st);
        i += 1;
    }
    (lines, styles)
}

/// The rows of a rich panel and their runs (no title run).
fn boxed_rich_split(label: &str, inner: &[RichLine], width: usize) -> (r: (Vec<String>, Vec<Vec<StyleRun>>))
    ensures
        strs(r.0@) == boxed(label@, texts(lines_view(inner@)), width as nat),
        runs_view(r.1@) == Seq::new(r.0@.len(), |j: int| rich_runs(lines_view(inner@), j)),
{
    let rows = panel_box_rich(label, inner, width);
    proof { assert(plain_texts(inner@) =~= texts(lines_view(inner@))); }
    let ghost src = rows@;
    let (lines, styles) = unzip_rows(rows);
    proof {
        assert(strs(lines@) =~= boxed(label@, texts(lines_view(inner@)), width as nat));
        let want = Seq::new(lines@.len(), |j: int| rich_runs(lines_view(inner@), j));
        assert forall|j: int| 0 <= j < want.len() implies runs_view(styles@)[j] == want[j] by {
            assert(styles@[j]@ == src[j].1@);
            assert(src[j].1@ == boxed_rich_runs(inner@, width as nat, j));
            if 2 <= j < 2 + inner@.len() {
                assert(lines_view(inner@)[j - 2] == line_view(inner@[j - 2]@));
            }
        }
        assert(runs_view(styles@) =~= want);
    }
    (lines, styles)
}

fn add_first_runs(styles: &mut Vec<Vec<StyleRun>>, es: Option<(usize, usize)>, ds: Option<(usize, usize)>)
    requires
        es matches Some(sp) ==> sp.0 <= sp.1,
        ds matches Some(sp) ==> sp.0 <= sp.1,
    ensures
        runs_view(final(styles)@) == (if old(styles)@.len() > 0 {
            runs_view(old(styles)@).update(0, old(styles)@[0]@
                + (match es { Some(sp) => seq![span_run((sp.0 as nat, sp.1 as nat), RichStyle::EditAffordance)], None => Seq::empty() })
                + (match ds { Some(sp) => seq![span_run((sp.0 as nat, sp.1 as nat), RichStyle::DeleteAffordance)], None => Seq::empty() }))
        } else {
            runs_view(old(styles)@)
        }),
{
    if styles.len() == 0 {
        return;
    }
    let ghost s0 = runs_view(styles@);
    let ghost e1: Seq<StyleRun> = match es { Some(sp) => seq![span_run((sp.0 as nat, sp.1 as nat), RichStyle::EditAffordance)], None => Seq::empty() };
    let ghost e2: Seq<StyleRun> = match ds { Some(sp) => seq![span_run((sp.0 as nat, sp.1 as nat), RichStyle::DeleteAffordance)], None => Seq::empty() };
    let mut first = styles.remove(0);
    let ghost f0 = first@;
    proof { assert(f0 == s0[0]); }
    if let Some((a, b)) = es {
        first.push(StyleRun { start: a, len: b - a, style: RichStyle::EditAffordance });
    }
    proof { assert(first@ =~= f0 + e1); }
    if let Some((a, b)) = ds {
        first.push(StyleRun { start: a, len: b - a, style: RichStyle::DeleteAffordance });
    }
    proof { assert(first@ =~= f0 + e1 + e2); }
    styles.insert(0, first);
    proof {
        assert(runs_view(styles@) =~= s0.update(0, f0 + e1 + e2));
    }
}

/// The card of a comment.
pub fn build_comment_card(c: &CommentFields, card_width: usize, own: bool, i18n: &I18n) -> (r: (Vec<String>, Vec<Vec<StyleRun>>, Option<(usize, usize)>, Option<(usize, usize)>))
    ensures
        ({
            let cv = card_of(i18n.language@, i18n.catalog.entries@, *c, card_width as nat, own);
            &&& strs(r.0@) == cv.lines
            &&& runs_view(r.1@) == cv.runs
            &&& (match r.2 { Some(sp) => cv.edit == Some((sp.0 as nat, sp.1 as nat)), None => cv.edit is None })
            &&& (match r.3 { Some(sp) => cv.delete == Some((sp.0 as nat, sp.1 as nat)), None => cv.delete is None })
        }),
{
    let ghost lang = i18n.language@;
    let ghost entries = i18n.catalog.entries@;
    let rows = card_rows_exec(c, card_width, i18n);
    let et = bracketed(i18n, "edit");
    let dt = bracketed(i18n, "excluir");
    let label = card_label_exec(c, own, et.as_str(), dt.as_str(), i18n);
    let (lines, mut styles) = boxed_rich_split(label.as_str(), rows.as_slice(), card_width);
    let ghost cv = card_of(lang, entries, *c, card_width as nat, own);
    proof { assert(strs(lines@) == cv.lines); }
    let (es, ds) = if own && lines.len() > 0 {
        proof { assert(lines@[0]@ == cv.lines[0]); }
        (find_token_span(lines[0].as_str(), et.as_str()), find_token_span(lines[0].as_str(), dt.as_str()))
    } else {
        (None, None)
    };
    proof {
        assert(es matches Some(sp) ==> sp.0 <= sp.1) by {
            if own && lines@.len() > 0 {
                lemma_token_span_ordered(cv.lines[0], et@);
            }
        }
        assert(ds matches Some(sp) ==> sp.0 <= sp.1) by {
            if own && lines@.len() > 0 {
                lemma_token_span_ordered(cv.lines[0], dt@);
            }
        }
    }
    add_first_runs(&mut styles, es, ds);
    proof { assert(runs_view(styles@) =~= cv.runs); }
    (lines, styles, es, ds)
}

proof fn lemma_token_span_ordered(line: Seq<char>, tok: Seq<char>)
    ensures
        token_span(line, tok) matches Some(sp) ==> sp.0 <= sp.1,
{
}


// ---------------------------------------------------------------------------
// The Comments panel.
// ---------------------------------------------------------------------------

/// Whether the comment is the user's own: its author id is the user's.
pub open spec fn is_own(current: Option<i64>, c: CommentFields) -> bool {
    current matches Some(u) && field_i64(c.created_by_id) == Some(u)
}

/// Runs moved right by `cols` columns.
pub open spec fn indent_runs(rs: Seq<StyleRun>, cols: nat) -> Seq<StyleRun> {
    rs.map_values(|r: StyleRun| StyleRun { start: sat_add(r.start as nat, cols) as usize, len: r.len, style: r.style })
}

/// The cards stacked inside the Comments panel, as values.
pub struct NestedV {
    pub lines: Seq<Seq<char>>,
    pub styles: Seq<Seq<StyleRun>>,
    pub affs: Seq<(nat, nat, nat, KindV)>,
    pub ranges: Seq<(nat, nat)>,
}

/// The cards in order, a blank line between two cards, each card line
/// indented by one column; the edit and delete spans of own comments as
/// affordances on each card's first line; each card's (first line, count).
pub open spec fn nested(lang: Seq<char>, entries: Seq<(String, String)>, cs: Seq<CommentFields>, card_width: nat, current: Option<i64>) -> NestedV
    decreases cs.len(),
{
    if cs.len() == 0 {
        NestedV { lines: Seq::empty(), styles: Seq::empty(), affs: Seq::empty(), ranges: Seq::empty() }
    } else {
        let prev = nested(lang, entries, cs.drop_last(), card_width, current);
        let sep = cs.len() > 1;
        let l0 = if sep { prev.lines.push(Seq::empty()) } else { prev.lines };
        let s0 = if sep { prev.styles.push(Seq::empty()) } else { prev.styles };
        let c = cs.last();
        let card = card_of(lang, entries, c, card_width, is_own(current, c));
        let start = l0.len();
        let id = or_zero(field_i64(c.id));
        NestedV {
            lines: l0 + card.lines.map_values(|l: Seq<char>| seq![' '] + l),
            styles: s0 + card.runs.map_values(|r: Seq<StyleRun>| indent_runs(r, 1)),
            affs: prev.affs
                + (match card.edit { Some(sp) => seq![(start, sat_add(sp.0, 1), sat_add(sp.1, 1), KindV::Edit(id))], None => Seq::empty() })
                + (match card.delete { Some(sp) => seq![(start, sat_add(sp.0, 1), sat_add(sp.1, 1), KindV::Delete(id))], None => Seq::empty() }),
            ranges: prev.ranges.push((start, card.lines.len())),
        }
    }
}

pub open spec fn comments_label(lang: Seq<char>, entries: Seq<(String, String)>, n: nat) -> Seq<char> {
    translated(lang, entries, "Comments"@) + " ("@ + decimal(n as int) + ")"@
}

/// The Comments panel as values: rows, runs, affordances and card ranges.
pub struct CommentsV {
    pub lines: Seq<Seq<char>>,
    pub styles: Seq<Seq<StyleRun>>,
    pub affs: Seq<(int, nat, nat, KindV)>,
    pub ranges: Seq<(nat, nat)>,
}

/// The Comments panel: nothing without comments; else the cards in a panel
/// titled "Comments (n)", the content rows carrying the cards' runs moved
/// past the panel's left chrome, and the affordances and card ranges moved
/// to panel rows and columns.
pub open spec fn comments_panel(lang: Seq<char>, entries: Seq<(String, String)>, cs: Seq<CommentFields>, width: nat, current: Option<i64>) -> CommentsV {
    if cs.len() == 0 {
        CommentsV { lines: Seq::empty(), styles: Seq::empty(), affs: Seq::empty(), ranges: Seq::empty() }
    } else {
        let card_width = sat_sub(sat_sub(width, 4), 1);
        let nv = nested(lang, entries, cs, card_width, current);
        let label = comments_label(lang, entries, cs.len());
        let lines = boxed(label, nv.lines, width);
        let ce = sat_sub(lines.len(), 2);
        let merged = Seq::new(lines.len(), |i: int|
            if 2 <= i < ce && i - 2 < nv.styles.len() { indent_runs(nv.styles[i - 2], 2) } else { Seq::<StyleRun>::empty() });
        CommentsV {
            lines,
            styles: titled(merged, label, width),
            affs: nv.affs.map_values(|a: (nat, nat, nat, KindV)| (sat_add(2, a.0) as int, sat_add(a.1, 2), sat_add(a.2, 2), a.3)),
            ranges: nv.ranges.map_values(|r: (nat, nat)| (sat_add(2, r.0), r.1)),
        }
    }
}

// ---------------------------------------------------------------------------
// Every body link target lies on a row of the body.
// ---------------------------------------------------------------------------

proof fn lemma_bracket_group_span(p: Seq<Seq<char>>, start: int, width: nat, joined: Seq<char>, frags: Seq<nat>, consumed: int)
    requires
        0 <= start,
        0 <= consumed,
        start + consumed < p.len(),
        frags.len() == consumed + 1,
    ensures
        ({
            let g = bracket_group(p, start, width, joined, frags, consumed);
            g.1.len() == g.2 + 1 && consumed <= g.2 && start + g.2 < p.len()
        }),
    decreases p.len() - start - consumed,
{
    if depth(joined) > 0 && start + 1 + consumed < p.len() && consumed < 20 {
        let c = consumed + 1;
        let ndw = text_cols(p[start + c]) as nat;
        if ndw >= width {
            lemma_bracket_group_span(p, start, width, joined + p[start + c], frags.push(ndw), c);
        }
    }
}

proof fn lemma_raw_group_span(p: Seq<Seq<char>>, start: int, width: nat, joined: Seq<char>, frags: Seq<nat>, consumed: int)
    requires
        0 <= start,
        0 <= consumed,
        start + consumed < p.len(),
        frags.len() == consumed + 1,
    ensures
        ({
            let g = raw_group(p, start, width, joined, frags, consumed);
            g.1.len() == g.2 + 1 && consumed <= g.2 && start + g.2 < p.len()
        }),
    decreases p.len() - start - consumed,
{
    if raw_edge(joined, total(frags)) && start + 1 + consumed < p.len() && consumed < 20 {
        let c = consumed + 1;
        let ndw = text_cols(p[start + c]) as nat;
        if ndw >= width {
            lemma_raw_group_span(p, start, width, joined + p[start + c], frags.push(ndw), c);
        }
    }
}

proof fn lemma_group_at_span(p: Seq<Seq<char>>, i: int, width: nat)
    requires
        0 <= i < p.len(),
    ensures
        ({
            let g = group_at(p, i, width);
            g.1.len() == g.2 + 1 && 0 <= g.2 && i + g.2 < p.len()
        }),
{
    let plain = p[i];
    let dw = text_cols(plain) as nat;
    lemma_bracket_group_span(p, i, width, plain, seq![dw], 0);
    lemma_raw_group_span(p, i, width, plain, seq![dw], 0);
}

/// The pieces of a link over a group's lines sit on those lines.
proof fn lemma_frag_emit_rows(us: nat, ue: nat, url: Seq<char>, f: Seq<nat>, start: int)
    requires
        0 <= start,
        start + f.len() <= usize::MAX,
    ensures
        forall|m: int| 0 <= m < frag_emit(us, ue, url, f, start).len() ==>
            start <= (#[trigger] frag_emit(us, ue, url, f, start)[m]).0 < start + f.len(),
    decreases f.len(),
{
    if f.len() > 0 {
        lemma_frag_emit_rows(us, ue, url, f.drop_last(), start);
        let a = frag_emit(us, ue, url, f.drop_last(), start);
        let r = frag_emit(us, ue, url, f, start);
        assert forall|m: int| 0 <= m < r.len() implies start <= (#[trigger] r[m]).0 < start + f.len() by {
            if m < a.len() {
                assert(r[m] == a[m]);
            }
        }
    }
}

proof fn lemma_group_affs_rows(j: Seq<char>, f: Seq<nat>, start: int, spans: Seq<(int, int)>)
    requires
        0 <= start,
        start + f.len() <= usize::MAX,
    ensures
        forall|m: int| 0 <= m < group_affs(j, f, start, spans).len() ==>
            start <= (#[trigger] group_affs(j, f, start, spans)[m]).0 < start + f.len(),
    decreases spans.len(),
{
    if spans.len() > 0 {
        lemma_group_affs_rows(j, f, start, spans.drop_last());
        let sp = spans.last();
        let inner = j.subrange(sp.0, sp.1);
        let url = normalized_link(inner);
        let us = cols_prefix(j, sp.0);
        lemma_frag_emit_rows(us, us + (text_cols(inner) as nat), url, f, start);
        let a = group_affs(j, f, start, spans.drop_last());
        let r = group_affs(j, f, start, spans);
        assert forall|m: int| 0 <= m < r.len() implies start <= (#[trigger] r[m]).0 < start + f.len() by {
            if m < a.len() {
                assert(r[m] == a[m]);
            }
        }
    }
}

proof fn lemma_body_affs_rows(p: Seq<Seq<char>>, width: nat, i: int)
    requires
        0 <= i,
        p.len() <= usize::MAX,
    ensures
        forall|m: int| 0 <= m < body_affs_from(p, width, i).len() ==>
            i <= (#[trigger] body_affs_from(p, width, i)[m]).0 < p.len(),
    decreases p.len() - i,
{
    if i < p.len() {
        let g = group_at(p, i, width);
        lemma_group_at_span(p, i, width);
        let nxt = i + 1 + (if g.2 >= 0 { g.2 } else { 0 });
        let n2 = if nxt <= p.len() { nxt } else { p.len() as int };
        lemma_group_affs_rows(g.0, g.1, i, link_spans(g.0));
        lemma_body_affs_rows(p, width, n2);
        let a = group_affs(g.0, g.1, i, link_spans(g.0));
        let r = body_affs_from(p, width, i);
        assert forall|m: int| 0 <= m < r.len() implies i <= (#[trigger] r[m]).0 < p.len() by {
            if m < a.len() {
                assert(r[m] == a[m]);
            } else {
                assert(r[m] == body_affs_from(p, width, n2)[m - a.len()]);
            }
        }
    }
}

/// The Description panel's parts line up: one run list per row, and every
/// link target on a content row (for a panel at least 4 columns wide).
pub proof fn law_body_panel_indices(lang: Seq<char>, entries: Seq<(String, String)>, html: Seq<char>, width: nat)
    requires
        width >= 4,
        body_panel_lines(lang, entries, html, width).len() <= usize::MAX,
    ensures
        body_panel_runs(lang, entries, html, width).len() == body_panel_lines(lang, entries, html, width).len(),
        forall|m: int| 0 <= m < body_panel_affs(lang, entries, html, width).len() ==>
            2 <= (#[trigger] body_panel_affs(lang, entries, html, width)[m]).0
            < body_panel_lines(lang, entries, html, width).len() - 2,
{
    let rows = body_rows(lang, entries, html, sat_sub(width, 4));
    let p = texts(rows);
    lemma_boxed_len(translated(lang, entries, "Description"@), p, width);
    lemma_body_affs_rows(p, sat_sub(width, 4), 0);
    let raw = body_affs_from(p, sat_sub(width, 4), 0);
    let ba = body_panel_affs(lang, entries, html, width);
    assert forall|m: int| 0 <= m < ba.len() implies
        2 <= (#[trigger] ba[m]).0 < body_panel_lines(lang, entries, html, width).len() - 2 by {
        assert(0 <= raw[m].0 < p.len());
    }
}

/// A panel at least 4 columns wide has its content rows between two rows of
/// chrome above and two below.
pub proof fn lemma_boxed_len(label: Seq<char>, lines: Seq<Seq<char>>, width: nat)
    requires
        width >= 4,
    ensures
        boxed(label, lines, width).len() == lines.len() + 4,
{
}

proof fn lemma_nested_indices(lang: Seq<char>, entries: Seq<(String, String)>, cs: Seq<CommentFields>, card_width: nat, current: Option<i64>)
    ensures
        ({
            let nv = nested(lang, entries, cs, card_width, current);
            &&& nv.styles.len() == nv.lines.len()
            &&& nv.ranges.len() == cs.len()
            &&& forall|i: int| 0 <= i < nv.affs.len() ==> (#[trigger] nv.affs[i]).0 < nv.lines.len()
            &&& forall|i: int| 0 <= i < nv.ranges.len() ==> (#[trigger] nv.ranges[i]).0 + nv.ranges[i].1 <= nv.lines.len()
        }),
    decreases cs.len(),
{
    if cs.len() > 0 {
        let c0 = cs.drop_last();
        lemma_nested_indices(lang, entries, c0, card_width, current);
        let prev = nested(lang, entries, c0, card_width, current);
        let nv = nested(lang, entries, cs, card_width, current);
        let c = cs.last();
        let card = card_of(lang, entries, c, card_width, is_own(current, c));
        let sep = cs.len() > 1;
        let l0 = if sep { prev.lines.push(Seq::empty()) } else { prev.lines };
        let start = l0.len();
        assert(card.runs.len() == card.lines.len());
        assert(nv.lines.len() == l0.len() + card.lines.len());
        assert(card.edit is Some ==> card.lines.len() > 0);
        assert(card.delete is Some ==> card.lines.len() > 0);
        assert forall|i: int| 0 <= i < nv.affs.len() implies (#[trigger] nv.affs[i]).0 < nv.lines.len() by {
            if i < prev.affs.len() {
                assert(nv.affs[i] == prev.affs[i]);
            }
        }
        assert forall|i: int| 0 <= i < nv.ranges.len() implies (#[trigger] nv.ranges[i]).0 + nv.ranges[i].1 <= nv.lines.len() by {
            if i < prev.ranges.len() {
                assert(nv.ranges[i] == prev.ranges[i]);
            }
        }
    }
}

/// The Comments panel's parts line up: one run list per row, every
/// affordance on a content row, and every card's rows inside the content rows
/// (for a panel at least 4 columns wide; narrower panels show no rows).
pub proof fn law_comments_panel_indices(lang: Seq<char>, entries: Seq<(String, String)>, cs: Seq<CommentFields>, width: nat, current: Option<i64>)
    requires
        width >= 4,
        comments_panel(lang, entries, cs, width, current).lines.len() <= usize::MAX,
    ensures
        ({
            let cp = comments_panel(lang, entries, cs, width, current);
            &&& cp.styles.len() == cp.lines.len()
            &&& cp.ranges.len() == cs.len()
            &&& forall|i: int| 0 <= i < cp.affs.len() ==> 2 <= (#[trigger] cp.affs[i]).0 < cp.lines.len() - 2
            &&& forall|i: int| 0 <= i < cp.ranges.len() ==>
                2 <= (#[trigger] cp.ranges[i]).0 && cp.ranges[i].0 + cp.ranges[i].1 <= cp.lines.len() - 2
        }),
{
    if cs.len() > 0 {
        let card_width = sat_sub(sat_sub(width, 4), 1);
        let nv = nested(lang, entries, cs, card_width, current);
        lemma_nested_indices(lang, entries, cs, card_width, current);
        let cp = comments_panel(lang, entries, cs, width, current);
        let label = comments_label(lang, entries, cs.len());
        lemma_boxed_len(label, nv.lines, width);
        assert(cp.lines.len() == nv.lines.len() + 4);
        assert forall|i: int| 0 <= i < cp.affs.len() implies 2 <= (#[trigger] cp.affs[i]).0 < cp.lines.len() - 2 by {
            assert(nv.affs[i].0 < nv.lines.len());
        }
        assert forall|i: int| 0 <= i < cp.ranges.len() implies
            2 <= (#[trigger] cp.ranges[i]).0 && cp.ranges[i].0 + cp.ranges[i].1 <= cp.lines.len() - 2 by {
            assert(nv.ranges[i].0 + nv.ranges[i].1 <= nv.lines.len());
        }
    }
}

/// `k` is the edit or delete button of an own comment among `cs`.
pub open spec fn own_button(cs: Seq<CommentFields>, current: Option<i64>, k: KindV) -> bool {
    exists|j: int| 0 <= j < cs.len() && is_own(current, #[trigger] cs[j])
        && (k == KindV::Edit(or_zero(field_i64(cs[j].id))) || k == KindV::Delete(or_zero(field_i64(cs[j].id))))
}

proof fn lemma_nested_own(lang: Seq<char>, entries: Seq<(String, String)>, cs: Seq<CommentFields>, card_width: nat, current: Option<i64>)
    ensures
        forall|i: int| 0 <= i < nested(lang, entries, cs, card_width, current).affs.len() ==>
            own_button(cs, current, (#[trigger] nested(lang, entries, cs, card_width, current).affs[i]).3),
    decreases cs.len(),
{
    if cs.len() > 0 {
        let c0 = cs.drop_last();
        lemma_nested_own(lang, entries, c0, card_width, current);
        let prev = nested(lang, entries, c0, card_width, current);
        let nv = nested(lang, entries, cs, card_width, current);
        let c = cs.last();
        let card = card_of(lang, entries, c, card_width, is_own(current, c));
        let n = cs.len() - 1;
        assert(cs[n] == c);
        assert(card.edit is Some ==> is_own(current, c));
        assert(card.delete is Some ==> is_own(current, c));
        assert forall|i: int| 0 <= i < nv.affs.len() implies own_button(cs, current, (#[trigger] nv.affs[i]).3) by {
            if i < prev.affs.len() {
                assert(nv.affs[i] == prev.affs[i]);
                let j = choose|j: int| 0 <= j < c0.len() && is_own(current, #[trigger] c0[j])
                    && (prev.affs[i].3 == KindV::Edit(or_zero(field_i64(c0[j].id))) || prev.affs[i].3 == KindV::Delete(or_zero(field_i64(c0[j].id))));
                assert(cs[j] == c0[j]);
            } else {
                assert(is_own(current, cs[n]));
            }
        }
    }
}

/// Only the user's own comments get edit and delete buttons: every button of
/// the Comments panel edits or deletes an own comment, by its id; with no
/// current user there are none.
pub proof fn law_comment_buttons_are_own(lang: Seq<char>, entries: Seq<(String, String)>, cs: Seq<CommentFields>, width: nat, current: Option<i64>)
    ensures
        forall|i: int| 0 <= i < comments_panel(lang, entries, cs, width, current).affs.len() ==>
            own_button(cs, current, (#[trigger] comments_panel(lang, entries, cs, width, current).affs[i]).3),
        current is None ==> comments_panel(lang, entries, cs, width, current).affs.len() == 0,
{
    if cs.len() > 0 {
        let card_width = sat_sub(sat_sub(width, 4), 1);
        lemma_nested_own(lang, entries, cs, card_width, current);
        let nv = nested(lang, entries, cs, card_width, current);
        let cp = comments_panel(lang, entries, cs, width, current);
        assert forall|i: int| 0 <= i < cp.affs.len() implies own_button(cs, current, (#[trigger] cp.affs[i]).3) by {
            assert(cp.affs[i].3 == nv.affs[i].3);
        }
        if current is None {
            if cp.affs.len() > 0 {
                assert(own_button(cs, current, cp.affs[0].3));
            }
        }
    }
}

/// Moves every run right by `cols` columns.
pub fn indent_style_runs(runs: &Vec<StyleRun>, cols: usize) -> (r: Vec<StyleRun>)
    ensures
        r@ == indent_runs(runs@, cols as nat),
{
    let mut out: Vec<StyleRun> = Vec::new();
    let mut i: usize = 0;
    while i < runs.len()
        invariant
            i <= runs@.len(),
            out@ == indent_runs(runs@.subrange(0, i as int), cols as nat),
        decreases runs.len() - i,
    {
        let r = runs[i];
        out.push(StyleRun { start: sat_add_exec(r.start, cols), len: r.len, style: r.style });
        proof { assert(out@ =~= indent_runs(runs@.subrange(0, i + 1), cols as nat)); }
        i += 1;
    }
    proof { assert(runs@.subrange(0, runs@.len() as int) =~= runs@); }
    out
}

pub open spec fn naffs_view(v: Seq<(usize, usize, usize, AffordanceKind)>) -> Seq<(nat, nat, nat, KindV)> {
    v.map_values(|a: (usize, usize, usize, AffordanceKind)| (a.0 as nat, a.1 as nat, a.2 as nat, kind_view(a.3)))
}

pub open spec fn ranges_view(v: Seq<(usize, usize)>) -> Seq<(nat, nat)> {
    v.map_values(|r: (usize, usize)| (r.0 as nat, r.1 as nat))
}

fn push_card(
    card_lines: Vec<String>,
    card_runs: Vec<Vec<StyleRun>>,
    nl: &mut Vec<String>,
    ns: &mut Vec<Vec<StyleRun>>,
)
    requires
        card_lines@.len() == card_runs@.len(),
    ensures
        strs(final(nl)@) == strs(old(nl)@) + strs(card_lines@).map_values(|l: Seq<char>| seq![' '] + l),
        runs_view(final(ns)@) == runs_view(old(ns)@) + runs_view(card_runs@).map_values(|r: Seq<StyleRun>| indent_runs(r, 1)),
{
    let mut k: usize = 0;
    while k < card_lines.len()
        invariant
            k <= card_lines@.len(),
            card_lines@.len() == card_runs@.len(),
            strs(nl@) == strs(old(nl)@) + strs(card_lines@).subrange(0, k as int).map_values(|l: Seq<char>| seq![' '] + l),
            runs_view(ns@) == runs_view(old(ns)@) + runs_view(card_runs@).subrange(0, k as int).map_values(|r: Seq<StyleRun>| indent_runs(r, 1)),
        decreases card_lines.len() - k,
    {
        let mut line = owned(" ");
        push_str(&mut line, card_lines[k].as_str());
        proof {
            reveal_strlit(" ");
            assert(line@ =~= seq![' '] + card_lines@[k as int]@);
        }
        let ghost b1 = strs(nl@);
        let ghost b2 = runs_view(ns@);
        nl.push(line);
        ns.push(indent_style_runs(&card_runs[k], 1));
        proof {
            assert(strs(nl@) =~= b1.push(seq![' '] + card_lines@[k as int]@));
            assert(strs(card_lines@).subrange(0, k + 1).map_values(|l: Seq<char>| seq![' '] + l)
                =~= strs(card_lines@).subrange(0, k as int).map_values(|l: Seq<char>| seq![' '] + l).push(seq![' '] + card_lines@[k as int]@));
            assert(runs_view(ns@) =~= b2.push(indent_runs(card_runs@[k as int]@, 1)));
            assert(runs_view(card_runs@).subrange(0, k + 1).map_values(|r: Seq<StyleRun>| indent_runs(r, 1))
                =~= runs_view(card_runs@).subrange(0, k as int).map_values(|r: Seq<StyleRun>| indent_runs(r, 1)).push(indent_runs(card_runs@[k as int]@, 1)));
        }
        k += 1;
    }
    proof {
        assert(strs(card_lines@).subrange(0, card_lines@.len() as int) =~= strs(card_lines@));
        assert(runs_view(card_runs@).subrange(0, card_lines@.len() as int) =~= runs_view(card_runs@));
    }
}

/// The cards of the comments, stacked (see `nested`).
fn nested_cards(comments: &[CommentFields], card_width: usize, current_user_id: Option<i64>, i18n: &I18n)
    -> (r: (Vec<String>, Vec<Vec<StyleRun>>, Vec<(usize, usize, usize, AffordanceKind)>, Vec<(usize, usize)>))
    ensures
        ({
            let nv = nested(i18n.language@, i18n.catalog.entries@, comments@, card_width as nat, current_user_id);
            &&& strs(r.0@) == nv.lines
            &&& runs_view(r.1@) == nv.styles
            &&& naffs_view(r.2@) == nv.affs
            &&& ranges_view(r.3@) == nv.ranges
        }),
{
    let ghost lang = i18n.language@;
    let ghost entries = i18n.catalog.entries@;
    let mut nl: Vec<String> = Vec::new();
    let mut ns: Vec<Vec<StyleRun>> = Vec::new();
    let mut na: Vec<(usize, usize, usize, AffordanceKind)> = Vec::new();
    let mut nr: Vec<(usize, usize)> = Vec::new();
    let mut i: usize = 0;
    while i < comments.len()
        invariant
            i <= comments@.len(),
            ({
                let nv = nested(lang, entries, comments@.subrange(0, i as int), card_width as nat, current_user_id);
                &&& strs(nl@) == nv.lines
                &&& runs_view(ns@) == nv.styles
                &&& naffs_view(na@) == nv.affs
                &&& ranges_view(nr@) == nv.ranges
            }),
            lang == i18n.language@,
            entries == i18n.catalog.entries@,
        decreases comments.len() - i,
    {
        let ghost sub = comments@.subrange(0, i + 1);
        proof {
            assert(sub.drop_last() =~= comments@.subrange(0, i as int));
            assert(sub.last() == comments@[i as int]);
        }
        if i > 0 {
            let ghost b1 = strs(nl@);
            let ghost b2 = runs_view(ns@);
            nl.push(String::new());
            ns.push(Vec::new());
            proof {
                assert(strs(nl@) =~= b1.push(Seq::<char>::empty()));
                assert(runs_view(ns@) =~= b2.push(Seq::<StyleRun>::empty()));
            }
        }
        let c = &comments[i];
        let own = match (current_user_id, as_i64(&c.created_by_id)) {
            (Some(u), Some(cid)) => u == cid,
            _ => false,
        };
        let id = match as_i64(&c.id) { Some(v) => v, None => 0 };
        let (cl, cr, es, ds) = build_comment_card(c, card_width, own, i18n);
        let ghost cv = card_of(lang, entries, *c, card_width as nat, own);
        let start = nl.len();
        let count = cl.len();
        proof { assert(cl@.len() == cr@.len()) by { assert(strs(cl@).len() == cv.lines.len()); assert(runs_view(cr@).len() == cv.runs.len()); } }
        push_card(cl, cr, &mut nl, &mut ns);
        let ghost a0 = naffs_view(na@);
        if let Some((a, b)) = es {
            na.push((start, sat_add_exec(a, 1), sat_add_exec(b, 1), AffordanceKind::Edit(id)));
        }
        let ghost a1 = naffs_view(na@);
        if let Some((a, b)) = ds {
            na.push((start, sat_add_exec(a, 1), sat_add_exec(b, 1), AffordanceKind::Delete(id)));
        }
        let ghost r0 = ranges_view(nr@);
        nr.push((start, count));
        proof {
            assert(ranges_view(nr@) =~= r0.push((start as nat, count as nat)));
            assert(a1 =~= a0 + (match cv.edit { Some(sp) => seq![(start as nat, sat_add(sp.0, 1), sat_add(sp.1, 1), KindV::Edit(id))], None => Seq::empty() }));
            assert(naffs_view(na@) =~= a1 + (match cv.delete { Some(sp) => seq![(start as nat, sat_add(sp.0, 1), sat_add(sp.1, 1), KindV::Delete(id))], None => Seq::empty() }));
        }
        i += 1;
    }
    proof { assert(comments@.subrange(0, comments@.len() as int) =~= comments@); }
    (nl, ns, na, nr)
}


fn clone_strings(v: &Vec<String>) -> (r: Vec<String>)
    ensures
        strs(r@) == strs(v@),
{
    let mut out: Vec<String> = Vec::new();
    let mut i: usize = 0;
    while i < v.len()
        invariant
            i <= v@.len(),
            strs(out@) == strs(v@).subrange(0, i as int),
        decreases v.len() - i,
    {
        let ghost before = strs(out@);
        out.push(v[i].clone());
        proof {
            assert(strs(out@) =~= before.push(v@[i as int]@));
            assert(strs(v@).subrange(0, i + 1) =~= strs(v@).subrange(0, i as int).push(v@[i as int]@));
        }
        i += 1;
    }
    proof { assert(strs(v@).subrange(0, v@.len() as int) =~= strs(v@)); }
    out
}

proof fn lemma_plain_texts(ls: Seq<Seq<char>>)
    ensures
        texts(ls.map_values(|l: Seq<char>| plain_line(l))) == ls,
{
    let m = ls.map_values(|l: Seq<char>| plain_line(l));
    assert forall|k: int| 0 <= k < ls.len() implies texts(m)[k] == ls[k] by {
        let pl = plain_line(ls[k]);
        assert(pl.drop_last() =~= Seq::<SpanV>::empty());
        assert(text_of(pl) == text_of(pl.drop_last()) + pl.last().text);
    }
    assert(texts(m) =~= ls);
}

fn comments_label_exec(n: usize, i18n: &I18n) -> (r: String)
    ensures
        r@ == comments_label(i18n.language@, i18n.catalog.entries@, n as nat),
{
    let mut label = t(i18n, "Comments");
    push_str(&mut label, " (");
    push_str(&mut label, crate::textutil::u64_digits(n as u64).as_str());
    push_str(&mut label, ")");
    proof {
        reveal_strlit(" (");
        reveal_strlit(")");
        assert(decimal(n as int) == crate::textutil::digits(n as nat));
    }
    label
}

/// The Comments panel of the detail view, for the user `current_user_id`.
pub fn build_comment_lines(comments: &[CommentFields], inner_width: usize, current_user_id: Option<i64>, i18n: &I18n)
    -> (r: (Vec<String>, Vec<Vec<StyleRun>>, Vec<LocalAffordance>, Vec<(usize, usize)>))
    ensures
        ({
            let cp = comments_panel(i18n.language@, i18n.catalog.entries@, comments@, inner_width as nat, current_user_id);
            &&& strs(r.0@) == cp.lines
            &&& runs_view(r.1@) == cp.styles
            &&& las_view(r.2@) == cp.affs
            &&& ranges_view(r.3@) == cp.ranges
        }),
{
    let ghost lang = i18n.language@;
    let ghost entries = i18n.catalog.entries@;
    if comments.len() == 0 {
        let r: (Vec<String>, Vec<Vec<StyleRun>>, Vec<LocalAffordance>, Vec<(usize, usize)>) = (Vec::new(), Vec::new(), Vec::new(), Vec::new());
        proof {
            assert(strs(r.0@) =~= Seq::<Seq<char>>::empty());
            assert(runs_view(r.1@) =~= Seq::<Seq<StyleRun>>::empty());
            assert(las_view(r.2@) =~= Seq::<(int, nat, nat, KindV)>::empty());
            assert(ranges_view(r.3@) =~= Seq::<(nat, nat)>::empty());
        }
        return r;
    }
    let outer_content = panel_content_width(inner_width);
    let card_width: usize = if outer_content >= 1 { outer_content - 1 } else { 0 };
    let (nl, ns, na, nr) = nested_cards(comments, card_width, current_user_id, i18n);
    let ghost nv = nested(lang, entries, comments@, card_width as nat, current_user_id);
    let label = comments_label_exec(comments.len(), i18n);
    let copies = clone_strings(&nl);
    let outer_rich = plain_lines_to_rich(copies);
    proof { lemma_plain_texts(strs(nl@)); }
    let (lines, _box_runs) = boxed_rich_split(label.as_str(), outer_rich.as_slice(), inner_width);
    let ghost cp = comments_panel(lang, entries, comments@, inner_width as nat, current_user_id);
    proof { assert(strs(lines@) == cp.lines); }
    let n = lines.len();
    let ce: usize = if n >= 2 { n - 2 } else { 0 };
    let mut merged: Vec<Vec<StyleRun>> = Vec::new();
    let mut i: usize = 0;
    let ghost want = Seq::new(n as nat, |i: int|
        if 2 <= i < ce && i - 2 < nv.styles.len() { indent_runs(nv.styles[i - 2], 2) } else { Seq::<StyleRun>::empty() });
    while i < n
        invariant
            i <= n,
            runs_view(ns@) == nv.styles,
            want == Seq::new(n as nat, |i: int|
                if 2 <= i < ce && i - 2 < nv.styles.len() { indent_runs(nv.styles[i - 2], 2) } else { Seq::<StyleRun>::empty() }),
            runs_view(merged@) == want.subrange(0, i as int),
        decreases n - i,
    {
        let ghost before = runs_view(merged@);
        if 2 <= i && i < ce && i - 2 < ns.len() {
            merged.push(indent_style_runs(&ns[i - 2], 2));
        } else {
            merged.push(Vec::new());
        }
        proof {
            assert(runs_view(merged@) =~= before.push(want[i as int]));
            assert(want.subrange(0, i + 1) =~= want.subrange(0, i as int).push(want[i as int]));
        }
        i += 1;
    }
    proof { assert(want.subrange(0, n as int) =~= want); }
    seed_panel_title_run(&mut merged, label.as_str(), inner_width);
    proof { assert(runs_view(merged@) =~= cp.styles); }
    let mut affs: Vec<LocalAffordance> = Vec::new();
    let mut k: usize = 0;
    while k < na.len()
        invariant
            k <= na@.len(),
            naffs_view(na@) == nv.affs,
            las_view(affs@) == nv.affs.subrange(0, k as int).map_values(|a: (nat, nat, nat, KindV)| (sat_add(2, a.0) as int, sat_add(a.1, 2), sat_add(a.2, 2), a.3)),
        decreases na.len() - k,
    {
        let (li, cs0, ce0, kind) = &na[k];
        let la = LocalAffordance {
            line_idx: sat_add_exec(2, *li),
            col_start: sat_add_exec(*cs0, 2),
            col_end: sat_add_exec(*ce0, 2),
            kind: kind.duplicate(),
        };
        let ghost before = las_view(affs@);
        affs.push(la);
        proof {
            assert(las_view(affs@) =~= before.push(la_view(la)));
            assert(nv.affs[k as int] == naffs_view(na@)[k as int]);
            assert(nv.affs.subrange(0, k + 1).map_values(|a: (nat, nat, nat, KindV)| (sat_add(2, a.0) as int, sat_add(a.1, 2), sat_add(a.2, 2), a.3))
                =~= nv.affs.subrange(0, k as int).map_values(|a: (nat, nat, nat, KindV)| (sat_add(2, a.0) as int, sat_add(a.1, 2), sat_add(a.2, 2), a.3)).push(la_view(la)));
        }
        k += 1;
    }
    proof { assert(nv.affs.subrange(0, na@.len() as int) =~= nv.affs); }
    let mut ranges: Vec<(usize, usize)> = Vec::new();
    let mut j: usize = 0;
    while j < nr.len()
        invariant
            j <= nr@.len(),
            ranges_view(nr@) == nv.ranges,
            ranges_view(ranges@) == nv.ranges.subrange(0, j as int).map_values(|r: (nat, nat)| (sat_add(2, r.0), r.1)),
        decreases nr.len() - j,
    {
        let (st, cnt) = nr[j];
        let ghost before = ranges_view(ranges@);
        ranges.push((sat_add_exec(2, st), cnt));
        proof {
            assert(ranges_view(ranges@) =~= before.push((sat_add(2, st as nat), cnt as nat)));
            assert(nv.ranges[j as int] == ranges_view(nr@)[j as int]);
            assert(nv.ranges.subrange(0, j + 1).map_values(|r: (nat, nat)| (sat_add(2, r.0), r.1))
                =~= nv.ranges.subrange(0, j as int).map_values(|r: (nat, nat)| (sat_add(2, r.0), r.1)).push((sat_add(2, st as nat), cnt as nat)));
        }
        j += 1;
    }
    proof { assert(nv.ranges.subrange(0, nr@.len() as int) =~= nv.ranges); }
    (lines, merged, affs, ranges)
}


// ---------------------------------------------------------------------------
// The whole detail view.
// ---------------------------------------------------------------------------

/// A row of the attachment section as the asset panel lays it out: its text,
/// its runs, and the asset it shows, if any.
#[derive(Debug, Clone)]
pub struct AssetSectionRow {
    pub text: String,
    pub runs: Vec<StyleRun>,
    pub asset: Option<usize>,
}

/// The texts of one asset's rows in the attachment section (what
/// `asset_row_lines` gives for an asset named `name`).
pub open spec fn asset_row_texts(index: nat, name: Seq<char>, width: nat, lang: Seq<char>, entries: Seq<(String, String)>) -> Seq<Seq<char>> {
    let full = crate::render::asset_prefix(index) + crate::render::asset_label(name, lang, entries);
    if width == 0 || text_cols(full) <= width {
        seq![full]
    } else {
        crate::render::asset_row(crate::render::asset_prefix(index), crate::render::asset_label(name, lang, entries), width)
    }
}

/// A row of the attachment section as values.
pub struct SectionRowV {
    pub text: Seq<char>,
    pub runs: Seq<StyleRun>,
    pub asset: Option<usize>,
}

pub open spec fn row_v(r: AssetSectionRow) -> SectionRowV {
    SectionRowV { text: r.text@, runs: r.runs@, asset: r.asset }
}

pub open spec fn rows_v(v: Seq<AssetSectionRow>) -> Seq<SectionRowV> {
    v.map_values(|r: AssetSectionRow| row_v(r))
}

/// The rows of the asset numbered `index` (its entry `index - 1`): its
/// `[index] ↗ label` text wrapped to `width`, every row tied to the asset,
/// the first row carrying a link run over what follows the prefix.
pub open spec fn asset_rows(index: nat, name: Seq<char>, width: nat, lang: Seq<char>, entries: Seq<(String, String)>) -> Seq<SectionRowV> {
    let texts = asset_row_texts(index, name, width, lang, entries);
    let pw = text_cols(crate::render::asset_prefix(index));
    Seq::new(texts.len(), |j: int| SectionRowV {
        text: texts[j],
        runs: if j == 0 && text_cols(texts[j]) > pw {
            seq![StyleRun { start: pw, len: (text_cols(texts[j]) - pw) as usize, style: RichStyle::Link }]
        } else {
            Seq::empty()
        },
        asset: Some((index - 1) as usize),
    })
}

/// The attachment section: each asset's rows in order, the `k`-th asset
/// (from zero) numbered `k + 1`.
pub open spec fn section_rows(assets: Seq<(Seq<char>, Seq<char>)>, width: nat, lang: Seq<char>, entries: Seq<(String, String)>) -> Seq<SectionRowV>
    decreases assets.len(),
{
    if assets.len() == 0 {
        Seq::empty()
    } else {
        section_rows(assets.drop_last(), width, lang, entries) + asset_rows(assets.len() as nat, assets.last().0, width, lang, entries)
    }
}

proof fn lemma_section_rows_assets(assets: Seq<(Seq<char>, Seq<char>)>, width: nat, lang: Seq<char>, entries: Seq<(String, String)>)
    ensures
        forall|i: int| 0 <= i < section_rows(assets, width, lang, entries).len() ==>
            ((#[trigger] section_rows(assets, width, lang, entries)[i]).asset matches Some(k) && k < assets.len()),
    decreases assets.len(),
{
    if assets.len() > 0 {
        let d = assets.drop_last();
        lemma_section_rows_assets(d, width, lang, entries);
        let a = section_rows(d, width, lang, entries);
        let b = asset_rows(assets.len() as nat, assets.last().0, width, lang, entries);
        assert forall|i: int| 0 <= i < (a + b).len() implies ((#[trigger] (a + b)[i]).asset matches Some(k) && k < assets.len()) by {
            if i < a.len() {
                assert((a + b)[i] == a[i]);
            } else {
                assert((a + b)[i] == b[i - a.len()]);
            }
        }
    }
}

/// The attachment section for the detail view: each asset's rows (its
/// `[n] ↗ label` line, wrapped to `width`), every row tied to its asset, the
/// first row of each asset carrying a link run over the label.
pub fn asset_section_rows(assets: &[Asset], width: usize, i18n: &I18n) -> (r: Vec<AssetSectionRow>)
    ensures
        rows_v(r@) == section_rows(assets_view(assets@), width as nat, i18n.language@, i18n.catalog.entries@),
        forall|i: int| 0 <= i < r@.len() ==> ((#[trigger] r@[i]).asset matches Some(k) && k < assets@.len()),
{
    let ghost lang = i18n.language@;
    let ghost entries = i18n.catalog.entries@;
    let ghost av = assets_view(assets@);
    let mut out: Vec<AssetSectionRow> = Vec::new();
    let mut k: usize = 0;
    proof { assert(rows_v(out@) =~= section_rows(av.subrange(0, 0), width as nat, lang, entries)); }
    while k < assets.len()
        invariant
            k <= assets@.len(),
            lang == i18n.language@,
            entries == i18n.catalog.entries@,
            av == assets_view(assets@),
            rows_v(out@) == section_rows(av.subrange(0, k as int), width as nat, lang, entries),
        decreases assets.len() - k,
    {
        let rows = crate::render::asset_row_lines(k + 1, &assets[k], width, i18n);
        let prefix = crate::render::asset_prefix_exec(k + 1);
        let pw = crate::render::display_width(prefix.as_str());
        let ghost before = rows_v(out@);
        let ghost target = asset_rows((k + 1) as nat, assets@[k as int].name@, width as nat, lang, entries);
        proof {
            assert(strs(rows@) == asset_row_texts((k + 1) as nat, assets@[k as int].name@, width as nat, lang, entries));
            assert(target.len() == rows@.len());
        }
        let mut j: usize = 0;
        while j < rows.len()
            invariant
                j <= rows@.len(),
                k < assets@.len(),
                target.len() == rows@.len(),
                pw == text_cols(crate::render::asset_prefix((k + 1) as nat)),
                strs(rows@) == asset_row_texts((k + 1) as nat, assets@[k as int].name@, width as nat, lang, entries),
                target == asset_rows((k + 1) as nat, assets@[k as int].name@, width as nat, lang, entries),
                rows_v(out@) == before + target.subrange(0, j as int),
            decreases rows.len() - j,
        {
            let text = rows[j].clone();
            proof { assert(text@ == strs(rows@)[j as int]); }
            let w = crate::render::display_width(text.as_str());
            let mut runs: Vec<StyleRun> = Vec::new();
            if j == 0 && w > pw {
                runs.push(StyleRun { start: pw, len: w - pw, style: RichStyle::Link });
            }
            let row = AssetSectionRow { text, runs, asset: Some(k) };
            let ghost prev = rows_v(out@);
            out.push(row);
            proof {
                assert(row_v(row) == target[j as int]);
                assert(rows_v(out@) =~= prev.push(row_v(row)));
                assert(target.subrange(0, j + 1) =~= target.subrange(0, j as int).push(target[j as int]));
            }
            j += 1;
        }
        proof {
            let sub = av.subrange(0, k + 1);
            assert(sub.drop_last() =~= av.subrange(0, k as int));
            assert(sub.last() == av[k as int]);
            assert(av[k as int].0 == assets@[k as int].name@);
            assert(target.subrange(0, target.len() as int) =~= target);
            assert(rows_v(out@) == section_rows(sub, width as nat, lang, entries));
        }
        k += 1;
    }
    proof {
        assert(av.subrange(0, assets@.len() as int) =~= av);
        lemma_section_rows_assets(av, width as nat, lang, entries);
        assert forall|i: int| 0 <= i < out@.len() implies ((#[trigger] out@[i]).asset matches Some(q) && q < assets@.len()) by {
            assert(rows_v(out@)[i] == row_v(out@[i]));
        }
    }
    out
}

/// The first run in the link style.
pub open spec fn first_link(runs: Seq<StyleRun>) -> Option<StyleRun>
    decreases runs.len(),
{
    if runs.len() == 0 {
        None
    } else if runs[0].style == RichStyle::Link {
        Some(runs[0])
    } else {
        first_link(runs.drop_first())
    }
}

/// The section's open-asset affordances: each row showing an asset whose
/// runs hold a link run becomes a target over that run, opening the asset's
/// URL (rows counted from line `base`).
pub open spec fn asset_affs(section: Seq<SectionRowV>, assets: Seq<(Seq<char>, Seq<char>)>, base: nat) -> Seq<(int, nat, nat, KindV)>
    decreases section.len(),
{
    if section.len() == 0 {
        Seq::empty()
    } else {
        let k = section.len() - 1;
        let row = section.last();
        asset_affs(section.drop_last(), assets, base) + match (row.asset, first_link(row.runs)) {
            (Some(ai), Some(run)) => seq![(sat_add(base, k as nat) as int, run.start as nat, sat_add(run.start as nat, run.len as nat),
                KindV::OpenAsset(assets[ai as int].1))],
            _ => Seq::empty(),
        }
    }
}

pub open spec fn shift_affs(affs: Seq<(int, nat, nat, KindV)>, base: nat) -> Seq<(int, nat, nat, KindV)> {
    affs.map_values(|a: (int, nat, nat, KindV)| (sat_add(base, a.0 as nat) as int, a.1, a.2, a.3))
}

pub open spec fn shift_ranges(rs: Seq<(nat, nat)>, base: nat) -> Seq<(nat, nat)> {
    rs.map_values(|r: (nat, nat)| (sat_add(base, r.0), r.1))
}

/// The detail view as values.
pub struct DetailV {
    pub lines: Seq<Seq<char>>,
    pub styles: Seq<Seq<StyleRun>>,
    pub affs: Seq<(int, nat, nat, KindV)>,
    pub spans: Seq<(nat, nat)>,
}

/// The detail view: the Details panel, a blank line, the Description panel;
/// with comments, a blank line and the Comments panel; with assets, a blank
/// line and the attachment section. Styles run parallel to the lines; the
/// affordances and comment ranges are moved to the lines they land on.
pub open spec fn detail_view(
    lang: Seq<char>,
    entries: Seq<(String, String)>,
    task: TaskFields,
    comments: Seq<CommentFields>,
    users: Map<i64, String>,
    width: nat,
    current: Option<i64>,
) -> DetailV {
    let hdr = header_panel(lang, entries, task, users, width);
    let hs = titled(Seq::new(hdr.len(), |j: int| Seq::<StyleRun>::empty()), translated(lang, entries, "Details"@), width);
    let l1 = hdr.push(Seq::empty());
    let s1 = hs.push(Seq::empty());
    let html = str_or_empty(task.body);
    let l2 = l1 + body_panel_lines(lang, entries, html, width);
    let s2 = s1 + body_panel_runs(lang, entries, html, width);
    let a2 = shift_affs(body_panel_affs(lang, entries, html, width), l1.len());
    let cp = comments_panel(lang, entries, comments, width, current);
    let l3 = if comments.len() > 0 { l2.push(Seq::empty()) } else { l2 };
    let s3 = if comments.len() > 0 { s2.push(Seq::empty()) } else { s2 };
    let l4 = l3 + cp.lines;
    let s4 = s3 + cp.styles;
    let a4 = a2 + shift_affs(cp.affs, l3.len());
    let sp4 = shift_ranges(cp.ranges, l3.len());
    let assets = task_assets(task, comments, false);
    if assets.len() > 0 {
        let l5 = l4.push(Seq::empty());
        let s5 = s4.push(Seq::empty());
        let section = section_rows(assets, width, lang, entries);
        DetailV {
            lines: l5 + section.map_values(|r: SectionRowV| r.text),
            styles: s5 + section.map_values(|r: SectionRowV| r.runs),
            affs: a4 + asset_affs(section, assets, l5.len()),
            spans: sp4,
        }
    } else {
        DetailV { lines: l4, styles: s4, affs: a4, spans: sp4 }
    }
}

proof fn lemma_asset_affs_rows(section: Seq<SectionRowV>, assets: Seq<(Seq<char>, Seq<char>)>, base: nat)
    requires
        base + section.len() <= usize::MAX,
    ensures
        forall|m: int| 0 <= m < asset_affs(section, assets, base).len() ==>
            base <= (#[trigger] asset_affs(section, assets, base)[m]).0 < base + section.len(),
    decreases section.len(),
{
    if section.len() > 0 {
        lemma_asset_affs_rows(section.drop_last(), assets, base);
        let a = asset_affs(section.drop_last(), assets, base);
        let r = asset_affs(section, assets, base);
        assert forall|m: int| 0 <= m < r.len() implies base <= (#[trigger] r[m]).0 < base + section.len() by {
            if m < a.len() {
                assert(r[m] == a[m]);
            }
        }
    }
}

proof fn lemma_titled_len(runs: Seq<Seq<StyleRun>>, label: Seq<char>, width: nat)
    ensures
        titled(runs, label, width).len() == runs.len(),
{
}

/// The detail view's parts line up: one run list per line, every affordance
/// on one of its lines, and one range per comment, each inside the view (for
/// panels at least 4 columns wide).
#[verifier::rlimit(60)]
pub proof fn law_detail_view_indices(
    lang: Seq<char>,
    entries: Seq<(String, String)>,
    task: TaskFields,
    comments: Seq<CommentFields>,
    users: Map<i64, String>,
    width: nat,
    current: Option<i64>,
)
    requires
        width >= 4,
        detail_view(lang, entries, task, comments, users, width, current).lines.len() <= usize::MAX,
    ensures
        ({
            let dv = detail_view(lang, entries, task, comments, users, width, current);
            &&& dv.styles.len() == dv.lines.len()
            &&& forall|m: int| 0 <= m < dv.affs.len() ==> 0 <= (#[trigger] dv.affs[m]).0 < dv.lines.len()
            &&& dv.spans.len() == comments.len()
            &&& forall|m: int| 0 <= m < dv.spans.len() ==> (#[trigger] dv.spans[m]).0 + dv.spans[m].1 <= dv.lines.len()
        }),
{
    let dv = detail_view(lang, entries, task, comments, users, width, current);
    let hdr = header_panel(lang, entries, task, users, width);
    lemma_titled_len(Seq::new(hdr.len(), |j: int| Seq::<StyleRun>::empty()), translated(lang, entries, "Details"@), width);
    let html = str_or_empty(task.body);
    let bl = body_panel_lines(lang, entries, html, width);
    let l1 = hdr.push(Seq::empty());
    let l2 = l1 + bl;
    let cp = comments_panel(lang, entries, comments, width, current);
    let l3 = if comments.len() > 0 { l2.push(Seq::empty()) } else { l2 };
    let l4 = l3 + cp.lines;
    assert(dv.lines.len() >= l4.len());
    law_body_panel_indices(lang, entries, html, width);
    law_comments_panel_indices(lang, entries, comments, width, current);
    let ba = body_panel_affs(lang, entries, html, width);
    let a2 = shift_affs(ba, l1.len());
    let a4 = a2 + shift_affs(cp.affs, l3.len());
    assert forall|m: int| 0 <= m < a4.len() implies 0 <= (#[trigger] a4[m]).0 < l4.len() by {
        if m < a2.len() {
            assert(2 <= ba[m].0 < bl.len() - 2);
        } else {
            let k = m - a2.len();
            assert(a4[m] == shift_affs(cp.affs, l3.len())[k]);
            assert(2 <= cp.affs[k].0 < cp.lines.len() - 2);
        }
    }
    let sp4 = shift_ranges(cp.ranges, l3.len());
    assert forall|m: int| 0 <= m < sp4.len() implies (#[trigger] sp4[m]).0 + sp4[m].1 <= l4.len() by {
        assert(cp.ranges[m].0 + cp.ranges[m].1 <= cp.lines.len() - 2);
    }
    let assets = task_assets(task, comments, false);
    if assets.len() > 0 {
        let l5 = l4.push(Seq::empty());
        let section = section_rows(assets, width, lang, entries);
        lemma_asset_affs_rows(section, assets, l5.len());
        let aa = asset_affs(section, assets, l5.len());
        assert(dv.affs == a4 + aa);
        assert forall|m: int| 0 <= m < dv.affs.len() implies 0 <= (#[trigger] dv.affs[m]).0 < dv.lines.len() by {
            if m < a4.len() {
                assert(dv.affs[m] == a4[m]);
            } else {
                assert(dv.affs[m] == aa[m - a4.len()]);
            }
        }
    }
}

fn push_line_runs(lines: &mut Vec<String>, styles: &mut Vec<Vec<StyleRun>>, l: String, r: Vec<StyleRun>)
    ensures
        strs(final(lines)@) == strs(old(lines)@).push(l@),
        runs_view(final(styles)@) == runs_view(old(styles)@).push(r@),
{
    lines.push(l);
    styles.push(r);
    proof {
        assert(strs(final(lines)@) =~= strs(old(lines)@).push(l@));
        assert(runs_view(final(styles)@) =~= runs_view(old(styles)@).push(r@));
    }
}

fn extend_lines_runs(lines: &mut Vec<String>, styles: &mut Vec<Vec<StyleRun>>, ls: Vec<String>, rs: Vec<Vec<StyleRun>>)
    ensures
        strs(final(lines)@) == strs(old(lines)@) + strs(ls@),
        runs_view(final(styles)@) == runs_view(old(styles)@) + runs_view(rs@),
{
    let ghost lv = strs(ls@);
    let ghost rv = runs_view(rs@);
    let mut a = ls;
    let mut b = rs;
    lines.append(&mut a);
    styles.append(&mut b);
    proof {
        assert(strs(final(lines)@) =~= strs(old(lines)@) + lv);
        assert(runs_view(final(styles)@) =~= runs_view(old(styles)@) + rv);
    }
}

fn push_shifted(out: &mut Vec<LocalAffordance>, affs: &Vec<LocalAffordance>, base: usize)
    ensures
        las_view(final(out)@) == las_view(old(out)@) + shift_affs(las_view(affs@), base as nat),
{
    let mut i: usize = 0;
    while i < affs.len()
        invariant
            i <= affs@.len(),
            las_view(out@) == las_view(old(out)@) + shift_affs(las_view(affs@).subrange(0, i as int), base as nat),
        decreases affs.len() - i,
    {
        let a = &affs[i];
        let la = LocalAffordance {
            line_idx: sat_add_exec(base, a.line_idx),
            col_start: a.col_start,
            col_end: a.col_end,
            kind: a.kind.duplicate(),
        };
        let ghost before = las_view(out@);
        out.push(la);
        proof {
            assert(las_view(out@) =~= before.push(la_view(la)));
            assert(shift_affs(las_view(affs@).subrange(0, i + 1), base as nat)
                =~= shift_affs(las_view(affs@).subrange(0, i as int), base as nat).push(la_view(la)));
        }
        i += 1;
    }
    proof { assert(las_view(affs@).subrange(0, affs@.len() as int) =~= las_view(affs@)); }
}

fn find_link_run(runs: &Vec<StyleRun>) -> (r: Option<StyleRun>)
    ensures
        r == first_link(runs@),
{
    let mut i: usize = 0;
    proof { assert(runs@.skip(0) =~= runs@); }
    while i < runs.len()
        invariant
            i <= runs@.len(),
            first_link(runs@) == first_link(runs@.skip(i as int)),
        decreases runs.len() - i,
    {
        proof {
            assert(runs@.skip(i as int)[0] == runs@[i as int]);
            assert(runs@.skip(i as int).drop_first() =~= runs@.skip(i + 1));
        }
        if runs[i].style == RichStyle::Link {
            return Some(runs[i]);
        }
        i += 1;
    }
    None
}

fn empty_runs(n: usize) -> (r: Vec<Vec<StyleRun>>)
    ensures
        runs_view(r@) == Seq::new(n as nat, |j: int| Seq::<StyleRun>::empty()),
{
    let mut hs: Vec<Vec<StyleRun>> = Vec::new();
    let mut k: usize = 0;
    while k < n
        invariant
            k <= n,
            runs_view(hs@) == Seq::new(k as nat, |j: int| Seq::<StyleRun>::empty()),
        decreases n - k,
    {
        let ghost before = runs_view(hs@);
        hs.push(Vec::new());
        proof {
            assert(runs_view(hs@) =~= before.push(Seq::<StyleRun>::empty()));
            assert(runs_view(hs@) =~= Seq::new((k + 1) as nat, |j: int| Seq::<StyleRun>::empty()));
        }
        k += 1;
    }
    hs
}

/// The Details panel's rows and their runs (only the title run).
fn header_section(task: &TaskFields, user_map: &HashMap<i64, String>, inner_width: usize, i18n: &I18n) -> (r: (Vec<String>, Vec<Vec<StyleRun>>))
    ensures
        ({
            let hdr = header_panel(i18n.language@, i18n.catalog.entries@, *task, user_map@, inner_width as nat);
            &&& strs(r.0@) == hdr
            &&& runs_view(r.1@) == titled(Seq::new(hdr.len(), |j: int| Seq::<StyleRun>::empty()),
                translated(i18n.language@, i18n.catalog.entries@, "Details"@), inner_width as nat)
        }),
{
    let header = build_header_lines(task, user_map, inner_width, i18n);
    let mut hs = empty_runs(header.len());
    let details = t(i18n, "Details");
    let ghost h0 = runs_view(hs@);
    seed_panel_title_run(&mut hs, details.as_str(), inner_width);
    proof {
        assert(runs_view(hs@) =~= titled(h0, details@, inner_width as nat));
    }
    (header, hs)
}

fn shift_ranges_exec(rs: &Vec<(usize, usize)>, base: usize) -> (r: Vec<(usize, usize)>)
    ensures
        ranges_view(r@) == shift_ranges(ranges_view(rs@), base as nat),
{
    let mut spans: Vec<(usize, usize)> = Vec::new();
    let mut j: usize = 0;
    while j < rs.len()
        invariant
            j <= rs@.len(),
            ranges_view(spans@) == shift_ranges(ranges_view(rs@).subrange(0, j as int), base as nat),
        decreases rs.len() - j,
    {
        let (st, cnt) = rs[j];
        let ghost before = ranges_view(spans@);
        spans.push((sat_add_exec(base, st), cnt));
        proof {
            assert(ranges_view(spans@) =~= before.push((sat_add(base as nat, st as nat), cnt as nat)));
            assert(shift_ranges(ranges_view(rs@).subrange(0, j + 1), base as nat)
                =~= shift_ranges(ranges_view(rs@).subrange(0, j as int), base as nat).push((sat_add(base as nat, st as nat), cnt as nat)));
        }
        j += 1;
    }
    proof { assert(ranges_view(rs@).subrange(0, rs@.len() as int) =~= ranges_view(rs@)); }
    spans
}

/// Appends the attachment section's rows (counted from line `base`, the
/// current line count) and their open-asset affordances.
fn splice_asset_section(
    assets: &Vec<Asset>,
    section: &[AssetSectionRow],
    lines: &mut Vec<String>,
    line_styles: &mut Vec<Vec<StyleRun>>,
    affordances: &mut Vec<LocalAffordance>,
)
    requires
        forall|k: int| 0 <= k < section@.len() ==> ((#[trigger] section@[k]).asset matches Some(ai) ==> ai < assets@.len()),
    ensures
        strs(final(lines)@) == strs(old(lines)@) + rows_v(section@).map_values(|r: SectionRowV| r.text),
        runs_view(final(line_styles)@) == runs_view(old(line_styles)@) + rows_v(section@).map_values(|r: SectionRowV| r.runs),
        las_view(final(affordances)@) == las_view(old(affordances)@) + asset_affs(rows_v(section@), assets_view(assets@), old(lines)@.len() as nat),
{
    let base = lines.len();
    let ghost av = assets_view(assets@);
    let ghost l0 = strs(lines@);
    let ghost s0 = runs_view(line_styles@);
    let ghost a0 = las_view(affordances@);
    let mut i: usize = 0;
    while i < section.len()
        invariant
            i <= section@.len(),
            base == l0.len(),
            av == assets_view(assets@),
            forall|k: int| 0 <= k < section@.len() ==> ((#[trigger] section@[k]).asset matches Some(ai) ==> ai < assets@.len()),
            strs(lines@) == l0 + rows_v(section@.subrange(0, i as int)).map_values(|r: SectionRowV| r.text),
            runs_view(line_styles@) == s0 + rows_v(section@.subrange(0, i as int)).map_values(|r: SectionRowV| r.runs),
            las_view(affordances@) == a0 + asset_affs(rows_v(section@.subrange(0, i as int)), av, base as nat),
        decreases section.len() - i,
    {
        let row = &section[i];
        proof {
            let sub = section@.subrange(0, i + 1);
            assert(rows_v(sub).drop_last() =~= rows_v(section@.subrange(0, i as int)));
            assert(rows_v(sub).last() == row_v(section@[i as int]));
        }
        let ghost abefore = las_view(affordances@);
        if let Some(ai) = row.asset {
            if let Some(run) = find_link_run(&row.runs) {
                let url = assets[ai].url.clone();
                proof { assert(av[ai as int].1 == assets@[ai as int].url@); }
                let la = LocalAffordance {
                    line_idx: sat_add_exec(base, i),
                    col_start: run.start,
                    col_end: sat_add_exec(run.start, run.len),
                    kind: AffordanceKind::OpenAsset(url),
                };
                affordances.push(la);
                proof { assert(las_view(affordances@) =~= abefore.push(la_view(la))); }
            }
        }
        let ghost lb = strs(lines@);
        let ghost sb = runs_view(line_styles@);
        lines.push(row.text.clone());
        line_styles.push(row.runs.clone());
        proof {
            assert(strs(lines@) =~= lb.push(row.text@));
            assert(runs_view(line_styles@) =~= sb.push(row.runs@));
            assert(rows_v(section@.subrange(0, i + 1)).map_values(|r: SectionRowV| r.text)
                =~= rows_v(section@.subrange(0, i as int)).map_values(|r: SectionRowV| r.text).push(row.text@));
            assert(rows_v(section@.subrange(0, i + 1)).map_values(|r: SectionRowV| r.runs)
                =~= rows_v(section@.subrange(0, i as int)).map_values(|r: SectionRowV| r.runs).push(row.runs@));
        }
        i += 1;
    }
    proof { assert(section@.subrange(0, section@.len() as int) =~= section@); }
}

/// The task detail view, laid out for a panel `inner_width` columns wide, for
/// the user `current_user_id`, the task's assets listed at the end.
#[verifier::rlimit(30)]
pub fn build_detail_content(
    task: &TaskFields,
    comments: &[CommentFields],
    user_map: &HashMap<i64, String>,
    inner_width: usize,
    current_user_id: Option<i64>,
    i18n: &I18n,
) -> (r: DetailContent)
    ensures
        ({
            let dv = detail_view(i18n.language@, i18n.catalog.entries@, *task, comments@, user_map@, inner_width as nat, current_user_id);
            &&& strs(r.lines@) == dv.lines
            &&& runs_view(r.line_styles@) == dv.styles
            &&& las_view(r.affordances@) == dv.affs
            &&& ranges_view(r.comment_spans@) == dv.spans
        }),
{
    let mut lines: Vec<String> = Vec::new();
    let mut line_styles: Vec<Vec<StyleRun>> = Vec::new();
    let mut affordances: Vec<LocalAffordance> = Vec::new();
    let (header, hs) = header_section(task, user_map, inner_width, i18n);
    extend_lines_runs(&mut lines, &mut line_styles, header, hs);
    push_line_runs(&mut lines, &mut line_styles, String::new(), Vec::new());
    let body_start = lines.len();
    let body_html = text_or_empty(&task.body);
    let (bl, bs, ba) = build_body_lines(body_html.as_str(), inner_width, i18n);
    push_shifted(&mut affordances, &ba, body_start);
    extend_lines_runs(&mut lines, &mut line_styles, bl, bs);
    let (cl, cs, ca, cr) = build_comment_lines(comments, inner_width, current_user_id, i18n);
    if comments.len() > 0 {
        push_line_runs(&mut lines, &mut line_styles, String::new(), Vec::new());
    }
    let comment_start = lines.len();
    push_shifted(&mut affordances, &ca, comment_start);
    let spans = shift_ranges_exec(&cr, comment_start);
    extend_lines_runs(&mut lines, &mut line_styles, cl, cs);
    let assets = extract_assets(task, comments);
    if assets.len() > 0 {
        push_line_runs(&mut lines, &mut line_styles, String::new(), Vec::new());
        let section = asset_section_rows(assets.as_slice(), inner_width, i18n);
        splice_asset_section(&assets, section.as_slice(), &mut lines, &mut line_styles, &mut affordances);
    }
    DetailContent { lines, line_styles, affordances, comment_spans: spans }
}


/// The detail view's style runs stay index-aligned with its lines: there is
/// exactly one list of runs per line.
pub proof fn law_detail_styles_aligned(
    lang: Seq<char>,
    entries: Seq<(String, String)>,
    task: TaskFields,
    comments: Seq<CommentFields>,
    users: Map<i64, String>,
    width: nat,
    current: Option<i64>,
)
    ensures
        detail_view(lang, entries, task, comments, users, width, current).lines.len()
            == detail_view(lang, entries, task, comments, users, width, current).styles.len(),
{
    let hdr = header_panel(lang, entries, task, users, width);
    let html = str_or_empty(task.body);
    let cp = comments_panel(lang, entries, comments, width, current);
    assert(body_panel_runs(lang, entries, html, width).len() == body_panel_lines(lang, entries, html, width).len());
    assert(cp.styles.len() == cp.lines.len());
}

} // verus!
