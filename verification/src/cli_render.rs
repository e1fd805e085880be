//! The plain-text task view of the non-interactive commands: the metadata
//! block, the comments, and the whole task.

use vstd::prelude::*;
use std::collections::HashMap;
use crate::textutil::{decimal, digits, i64_decimal, u64_digits, join, join_strings, strs, owned};
use crate::unicode::{push_char, push_str, chars_of, string_of};
use crate::i18n::{I18n, t, translated};
use crate::fields::{JsonField, json_text, field_i64, field_str, field_bool, date_field_text, ts_text, fmt_date, fmt_ts, field_json, as_i64, as_text, as_bool};
use crate::htmltext::{html_text, html_to_text};
use crate::render::split_lines;

verus! {

broadcast use vstd::std_specs::hash::group_hash_axioms;

/// The fields of a task record that the task views read.
#[derive(Debug, Clone)]
pub struct TaskFields {
    pub id: JsonField,
    pub task_number: JsonField,
    pub name: JsonField,
    pub body: JsonField,
    pub is_completed: JsonField,
    pub assignee_id: JsonField,
    pub start_on: JsonField,
    pub due_on: JsonField,
    pub project_id: JsonField,
    pub project_name: JsonField,
    /// The estimate in hours as shown (a whole number without a fraction).
    pub estimate_hours: String,
    /// The logged time in hours as shown.
    pub logged_hours: String,
    /// The attachment records, when the task has an `attachments` array.
    pub attachments: Option<Vec<crate::assets::AttachmentFields>>,
}

/// The fields of a comment record that the task views read.
#[derive(Debug, Clone)]
pub struct CommentFields {
    pub id: JsonField,
    pub created_by_name: JsonField,
    pub created_by_id: JsonField,
    pub created_on: JsonField,
    pub body_plain_text: JsonField,
    pub body: JsonField,
}

/// The string of a field, or the empty text.
pub open spec fn str_or_empty(f: JsonField) -> Seq<char> {
    match field_str(f) {
        Some(s) => s,
        None => Seq::empty(),
    }
}

pub fn text_or_empty(f: &JsonField) -> (r: String)
    ensures
        r@ == str_or_empty(*f),
{
    match as_text(f) {
        Some(s) => s,
        None => String::new(),
    }
}

/// `str::lines`: the text cut at line feeds, a `\r` before a line feed
/// dropped, and no empty last line after a final line feed.
pub open spec fn text_lines(s: Seq<char>) -> Seq<Seq<char>> {
    let parts = split_lines(s);
    let k = if parts.last().len() == 0 { parts.len() - 1 } else { parts.len() as int };
    Seq::new(
        k as nat,
        |i: int|
            if i < parts.len() - 1 && parts[i].len() > 0 && parts[i].last() == '\r' {
                parts[i].drop_last()
            } else {
                parts[i]
            },
    )
}

pub(crate) fn lines_of(s: &str) -> (r: Vec<String>)
    ensures
        strs(r@) == text_lines(s@),
{
    let (parts, _styles) = crate::render::compose_block_lines(s);
    proof { crate::render::lemma_split_lines_nonempty(s@); }
    let n = parts.len();
    let last_empty = parts[n - 1].as_str().is_empty();
    let k = if last_empty { n - 1 } else { n };
    let ghost want = text_lines(s@);
    let mut out: Vec<String> = Vec::new();
    let mut i: usize = 0;
    while i < k
        invariant
            strs(parts@) == split_lines(s@),
            n == parts@.len(),
            n >= 1,
            k <= n,
            k as int == want.len(),
            want == text_lines(s@),
            i <= k,
            strs(out@) == want.subrange(0, i as int),
        decreases k - i,
    {
        let cs = chars_of(parts[i].as_str());
        let ghost before = strs(out@);
        let line = if i + 1 < n && cs.len() > 0 && cs[cs.len() - 1] == '\r' {
            string_of(&cs.as_slice()[0..cs.len() - 1])
        } else {
            parts[i].clone()
        };
        proof {
            assert(strs(parts@)[i as int] == parts@[i as int]@);
            if i + 1 < n && cs@.len() > 0 && cs@[cs@.len() - 1] == '\r' {
                assert(cs@.subrange(0, cs@.len() - 1) =~= cs@.drop_last());
            }
            assert(line@ == want[i as int]);
        }
        out.push(line);
        proof {
            assert(strs(out@) =~= before.push(want[i as int]));
            assert(want.subrange(0, i + 1) =~= want.subrange(0, i as int).push(want[i as int]));
        }
        i += 1;
    }
    proof { assert(want.subrange(0, k as int) =~= want); }
    out
}

/// `name (id)` for a known user, `(id)` for an unknown one.
pub open spec fn assignee_label(lang: Seq<char>, entries: Seq<(String, String)>, f: JsonField, users: Map<i64, String>) -> Seq<char> {
    match field_i64(f) {
        None => translated(lang, entries, "(unassigned)"@),
        Some(id) => if users.contains_key(id) {
            users[id]@ + " ("@ + decimal(id as int) + ")"@
        } else {
            "("@ + decimal(id as int) + ")"@
        },
    }
}

/// The metadata block: assignee, start and due dates (when set), estimate and
/// logged hours, one per line.
pub open spec fn meta_text(lang: Seq<char>, entries: Seq<(String, String)>, task: TaskFields, users: Map<i64, String>) -> Seq<char> {
    let tr = |k: Seq<char>| translated(lang, entries, k);
    let start = date_field_text(task.start_on);
    let due = date_field_text(task.due_on);
    let lines = seq![tr("Assignee"@) + ":  "@ + assignee_label(lang, entries, task.assignee_id, users)]
        + (if start.len() > 0 { seq![tr("Start"@) + ":     "@ + start] } else { Seq::empty() })
        + (if due.len() > 0 { seq![tr("Due"@) + ":       "@ + due] } else { Seq::empty() })
        + seq![
            tr("Estimate"@) + ":  "@ + task.estimate_hours@ + "h"@,
            tr("Logged"@) + ":    "@ + task.logged_hours@ + "h"@,
        ];
    join(lines, seq!['\n'])
}

fn labelled(i18n: &I18n, key: &str, sep: &str, value: &str) -> (r: String)
    ensures
        r@ == translated(i18n.language@, i18n.catalog.entries@, key@) + sep@ + value@,
{
    let mut s = t(i18n, key);
    push_str(&mut s, sep);
    push_str(&mut s, value);
    s
}

fn push_line(lines: &mut Vec<String>, line: String)
    ensures
        strs(final(lines)@) == strs(old(lines)@).push(line@),
{
    lines.push(line);
    proof { assert(strs(final(lines)@) =~= strs(old(lines)@).push(line@)); }
}

/// The assignee as shown: the directory name and the id, the id alone when
/// the directory lacks it, or "(unassigned)".
pub fn assignee_text(f: &JsonField, user_map: &HashMap<i64, String>, i18n: &I18n) -> (r: String)
    ensures
        r@ == assignee_label(i18n.language@, i18n.catalog.entries@, *f, user_map@),
{
    match as_i64(f) {
        None => t(i18n, "(unassigned)"),
        Some(id) => {
            let ids = i64_decimal(id);
            match user_map.get(&id) {
                Some(name) => {
                    let mut s = name.clone();
                    push_str(&mut s, " (");
                    push_str(&mut s, ids.as_str());
                    push_str(&mut s, ")");
                    s
                },
                None => {
                    let mut s = owned("(");
                    push_str(&mut s, ids.as_str());
                    push_str(&mut s, ")");
                    s
                },
            }
        },
    }
}

/// The metadata block of a task.
pub fn render_meta_to_str(task: &TaskFields, user_map: &HashMap<i64, String>, i18n: &I18n) -> (r: String)
    ensures
        r@ == meta_text(i18n.language@, i18n.catalog.entries@, *task, user_map@),
{
    let label = assignee_text(&task.assignee_id, user_map, i18n);
    let mut lines: Vec<String> = Vec::new();
    push_line(&mut lines, labelled(i18n, "Assignee", ":  ", label.as_str()));
    let start = fmt_date(&task.start_on);
    if !start.as_str().is_empty() {
        push_line(&mut lines, labelled(i18n, "Start", ":     ", start.as_str()));
    }
    let due = fmt_date(&task.due_on);
    if !due.as_str().is_empty() {
        push_line(&mut lines, labelled(i18n, "Due", ":       ", due.as_str()));
    }
    let mut est = labelled(i18n, "Estimate", ":  ", task.estimate_hours.as_str());
    push_str(&mut est, "h");
    push_line(&mut lines, est);
    let mut logged = labelled(i18n, "Logged", ":    ", task.logged_hours.as_str());
    push_str(&mut logged, "h");
    push_line(&mut lines, logged);
    proof {
        let lang = i18n.language@;
        let entries = i18n.catalog.entries@;
        let tr = |k: Seq<char>| translated(lang, entries, k);
        let startv = date_field_text(task.start_on);
        let duev = date_field_text(task.due_on);
        let want = seq![tr("Assignee"@) + ":  "@ + assignee_label(lang, entries, task.assignee_id, user_map@)]
            + (if startv.len() > 0 { seq![tr("Start"@) + ":     "@ + startv] } else { Seq::empty() })
            + (if duev.len() > 0 { seq![tr("Due"@) + ":       "@ + duev] } else { Seq::empty() })
            + seq![
                tr("Estimate"@) + ":  "@ + task.estimate_hours@ + "h"@,
                tr("Logged"@) + ":    "@ + task.logged_hours@ + "h"@,
            ];
        assert(strs(lines@) =~= want);
    }
    let nl = owned("\n");
    proof { reveal_strlit("\n"); assert(nl@ =~= seq!['\n']); }
    join_strings(&lines, nl.as_str())
}

/// Who wrote a comment: the author's name when it is a non-empty string, else
/// the author id's JSON text unless it is empty or `null`, else "(unknown)".
pub open spec fn comment_author(lang: Seq<char>, entries: Seq<(String, String)>, c: CommentFields) -> Seq<char> {
    let by_id = match c.created_by_id {
        JsonField::Absent => None,
        f => if json_text(f).len() > 0 && json_text(f) != "null"@ { Some(json_text(f)) } else { None },
    };
    match field_str(c.created_by_name) {
        Some(n) if n.len() > 0 => n,
        _ => match by_id {
            Some(j) => j,
            None => translated(lang, entries, "(unknown)"@),
        },
    }
}

/// A comment's text: its plain-text body when non-empty, else its HTML body
/// as text.
pub open spec fn comment_body_text(c: CommentFields) -> Seq<char> {
    match field_str(c.body_plain_text) {
        Some(p) if p.len() > 0 => p,
        _ => html_text(str_or_empty(c.body)),
    }
}

/// The lines of one comment: a header `\n  [n] author — time` and the body's
/// lines indented by two spaces.
pub open spec fn comment_lines(lang: Seq<char>, entries: Seq<(String, String)>, c: CommentFields, n: nat) -> Seq<Seq<char>> {
    seq!["\n  ["@ + digits(n) + "] "@ + comment_author(lang, entries, c) + " \u{2014} "@ + ts_text(c.created_on)]
        + text_lines(comment_body_text(c)).map_values(|l: Seq<char>| "  "@ + l)
}

pub open spec fn comments_lines(lang: Seq<char>, entries: Seq<(String, String)>, cs: Seq<CommentFields>) -> Seq<Seq<char>>
    decreases cs.len(),
{
    if cs.len() == 0 {
        Seq::empty()
    } else {
        comments_lines(lang, entries, cs.drop_last()) + comment_lines(lang, entries, cs.last(), cs.len())
    }
}

/// The comments section: empty without comments, else a `Comments (n):`
/// heading and each comment.
pub open spec fn comments_text(lang: Seq<char>, entries: Seq<(String, String)>, cs: Seq<CommentFields>) -> Seq<char> {
    if cs.len() == 0 {
        Seq::empty()
    } else {
        join(
            seq!["\n"@ + translated(lang, entries, "Comments"@) + " ("@ + digits(cs.len()) + "):"@]
                + comments_lines(lang, entries, cs),
            seq!['\n'],
        )
    }
}

pub fn extract_comment_author(c: &CommentFields, i18n: &I18n) -> (r: String)
    ensures
        r@ == comment_author(i18n.language@, i18n.catalog.entries@, *c),
{
    if let Some(n) = as_text(&c.created_by_name) {
        if !n.as_str().is_empty() {
            return n;
        }
    }
    match &c.created_by_id {
        JsonField::Absent => {},
        f => {
            let j = field_json(f);
            let jc = chars_of(j.as_str());
            let null: Vec<char> = vec!['n', 'u', 'l', 'l'];
            proof { reveal_strlit("null"); assert(null@ =~= "null"@); }
            if jc.len() > 0 && !crate::textutil::chars_eq(&jc, &null) {
                return j;
            }
        },
    }
    t(i18n, "(unknown)")
}

fn body_text_exec(c: &CommentFields) -> (r: String)
    ensures
        r@ == comment_body_text(*c),
{
    if let Some(p) = as_text(&c.body_plain_text) {
        if !p.as_str().is_empty() {
            return p;
        }
    }
    let html = text_or_empty(&c.body);
    html_to_text(html.as_str())
}

/// The comments section of the task view.
pub fn render_comments_to_str(comments: &[CommentFields], i18n: &I18n) -> (r: String)
    ensures
        r@ == comments_text(i18n.language@, i18n.catalog.entries@, comments@),
{
    let ghost lang = i18n.language@;
    let ghost entries = i18n.catalog.entries@;
    if comments.len() == 0 {
        return String::new();
    }
    let mut head = owned("\n");
    let c = t(i18n, "Comments");
    push_str(&mut head, c.as_str());
    push_str(&mut head, " (");
    let count = u64_digits(comments.len() as u64);
    push_str(&mut head, count.as_str());
    push_str(&mut head, "):");
    let mut lines: Vec<String> = vec![head];
    let ghost h = seq!["\n"@ + translated(lang, entries, "Comments"@) + " ("@ + digits(comments@.len()) + "):"@];
    proof {
        assert(strs(lines@) =~= h + comments_lines(lang, entries, comments@.subrange(0, 0)));
    }
    let mut i: usize = 0;
    while i < comments.len()
        invariant
            i <= comments@.len(),
            lang == i18n.language@,
            entries == i18n.catalog.entries@,
            h == seq!["\n"@ + translated(lang, entries, "Comments"@) + " ("@ + digits(comments@.len()) + "):"@],
            strs(lines@) == h + comments_lines(lang, entries, comments@.subrange(0, i as int)),
        decreases comments.len() - i,
    {
        let c = &comments[i];
        let ghost before = strs(lines@);
        let mut header = owned("\n  [");
        let num = u64_digits((i + 1) as u64);
        push_str(&mut header, num.as_str());
        push_str(&mut header, "] ");
        let author = extract_comment_author(c, i18n);
        push_str(&mut header, author.as_str());
        push_str(&mut header, " \u{2014} ");
        let when = fmt_ts(&c.created_on);
        push_str(&mut header, when.as_str());
        push_line(&mut lines, header);
        let body = body_text_exec(c);
        let ls = lines_of(body.as_str());
        let ghost mid = strs(lines@);
        let mut k: usize = 0;
        while k < ls.len()
            invariant
                k <= ls@.len(),
                strs(lines@) == mid + strs(ls@).subrange(0, k as int).map_values(|l: Seq<char>| "  "@ + l),
            decreases ls.len() - k,
        {
            let mut line = owned("  ");
            push_str(&mut line, ls[k].as_str());
            let ghost b2 = strs(lines@);
            push_line(&mut lines, line);
            proof {
                assert(strs(ls@)[k as int] == ls@[k as int]@);
                assert(strs(ls@).subrange(0, k + 1).map_values(|l: Seq<char>| "  "@ + l)
                    =~= strs(ls@).subrange(0, k as int).map_values(|l: Seq<char>| "  "@ + l).push("  "@ + ls@[k as int]@));
                assert(strs(lines@) =~= mid + strs(ls@).subrange(0, k + 1).map_values(|l: Seq<char>| "  "@ + l));
            }
            k += 1;
        }
        proof {
            let sub = comments@.subrange(0, i + 1);
            assert(sub.drop_last() =~= comments@.subrange(0, i as int));
            assert(sub.last() == comments@[i as int]);
            assert(strs(ls@).subrange(0, ls@.len() as int) =~= strs(ls@));
            assert(comments_lines(lang, entries, sub) == comments_lines(lang, entries, comments@.subrange(0, i as int))
                + comment_lines(lang, entries, comments@[i as int], (i + 1) as nat));
            assert(strs(lines@) =~= h + comments_lines(lang, entries, sub));
        }
        i += 1;
    }
    proof { assert(comments@.subrange(0, comments@.len() as int) =~= comments@); }
    let nl = owned("\n");
    proof { reveal_strlit("\n"); assert(nl@ =~= seq!['\n']); }
    join_strings(&lines, nl.as_str())
}

/// The number a task is shown under: its task number when set (not null),
/// else its id; a number in decimal, a string as is, else empty.
pub open spec fn task_num_text(task: TaskFields) -> Seq<char> {
    let f = match task.task_number {
        JsonField::Absent => task.id,
        JsonField::Null => task.id,
        other => other,
    };
    match f {
        JsonField::Int(i) => decimal(i as int),
        JsonField::Text { value, json } => value@,
        _ => Seq::empty(),
    }
}

/// The whole task view: number, name, status, metadata, description and
/// (unless left out) the comments.
pub open spec fn task_text(
    lang: Seq<char>,
    entries: Seq<(String, String)>,
    task: TaskFields,
    comments: Seq<CommentFields>,
    no_comments: bool,
    users: Map<i64, String>,
) -> Seq<char> {
    let tr = |k: Seq<char>| translated(lang, entries, k);
    let status = if field_bool(task.is_completed) == Some(true) { tr("Completed"@) } else { tr("Open"@) };
    let text = html_text(str_or_empty(task.body));
    let description = if text.len() == 0 { tr("(no description)"@) } else { text };
    let cs = comments_text(lang, entries, comments);
    let base = seq![
        tr("Task"@) + ":      "@ + task_num_text(task),
        tr("Name"@) + ":      "@ + str_or_empty(task.name),
        tr("Status"@) + ":    "@ + status,
        meta_text(lang, entries, task, users),
        Seq::empty(),
        tr("Description"@) + ":"@,
        description,
    ];
    join(if !no_comments && cs.len() > 0 { base.push(cs) } else { base }, seq!['\n'])
}

fn task_num_exec(task: &TaskFields) -> (r: String)
    ensures
        r@ == task_num_text(*task),
{
    let f = match &task.task_number {
        JsonField::Absent | JsonField::Null => &task.id,
        other => other,
    };
    match f {
        JsonField::Int(i) => i64_decimal(*i),
        JsonField::Text { value, json: _ } => value.clone(),
        _ => String::new(),
    }
}

/// The task view of the `get` and `current` commands.
pub fn render_task_to_str(
    task: &TaskFields,
    comments: &[CommentFields],
    no_comments: bool,
    user_map: &HashMap<i64, String>,
    i18n: &I18n,
) -> (r: String)
    ensures
        r@ == task_text(i18n.language@, i18n.catalog.entries@, *task, comments@, no_comments, user_map@),
{
    let status = if as_bool(&task.is_completed) == Some(true) {
        t(i18n, "Completed")
    } else {
        t(i18n, "Open")
    };
    let num = task_num_exec(task);
    let name = text_or_empty(&task.name);
    let body = text_or_empty(&task.body);
    let text = html_to_text(body.as_str());
    let description = if text.as_str().is_empty() { t(i18n, "(no description)") } else { text };
    let meta = render_meta_to_str(task, user_map, i18n);
    let mut lines: Vec<String> = Vec::new();
    push_line(&mut lines, labelled(i18n, "Task", ":      ", num.as_str()));
    push_line(&mut lines, labelled(i18n, "Name", ":      ", name.as_str()));
    push_line(&mut lines, labelled(i18n, "Status", ":    ", status.as_str()));
    push_line(&mut lines, meta);
    push_line(&mut lines, String::new());
    push_line(&mut lines, labelled(i18n, "Description", ":", ""));
    push_line(&mut lines, description);
    let ghost lang = i18n.language@;
    let ghost entries = i18n.catalog.entries@;
    let ghost tr = |k: Seq<char>| translated(lang, entries, k);
    let ghost want_base = seq![
        tr("Task"@) + ":      "@ + task_num_text(*task),
        tr("Name"@) + ":      "@ + str_or_empty(task.name),
        tr("Status"@) + ":    "@ + (if field_bool(task.is_completed) == Some(true) { tr("Completed"@) } else { tr("Open"@) }),
        meta_text(lang, entries, *task, user_map@),
        Seq::<char>::empty(),
        tr("Description"@) + ":"@,
        (if html_text(str_or_empty(task.body)).len() == 0 { tr("(no description)"@) } else { html_text(str_or_empty(task.body)) }),
    ];
    proof {
        assert(""@ =~= Seq::<char>::empty()) by { reveal_strlit(""); }
        assert(tr("Description"@) + ":"@ + ""@ =~= tr("Description"@) + ":"@);
        assert(strs(lines@) =~= want_base);
    }
    if !no_comments {
        let cs = render_comments_to_str(comments, i18n);
        if !cs.as_str().is_empty() {
            push_line(&mut lines, cs);
        }
    }
    proof {
        let cst = comments_text(lang, entries, comments@);
        if !no_comments && cst.len() > 0 {
            assert(strs(lines@) =~= want_base.push(cst));
        } else {
            assert(strs(lines@) =~= want_base);
        }
    }
    let nl = owned("\n");
    proof { reveal_strlit("\n"); assert(nl@ =~= seq!['\n']); }
    join_strings(&lines, nl.as_str())
}

/// The third line of the printed task is its status: `Status:    ` then the
/// translation of `Completed` when the task's `is_completed` is `true`, and of
/// `Open` otherwise (the lines before it — task number and name — hold no
/// line feed).
pub proof fn law_task_status_line(
    lang: Seq<char>,
    entries: Seq<(String, String)>,
    task: TaskFields,
    comments: Seq<CommentFields>,
    no_comments: bool,
    users: Map<i64, String>,
)
    requires
        !(translated(lang, entries, "Task"@) + ":      "@ + task_num_text(task)).contains('\n'),
        !(translated(lang, entries, "Name"@) + ":      "@ + str_or_empty(task.name)).contains('\n'),
        !translated(lang, entries, "Status"@).contains('\n'),
        !translated(lang, entries, "Completed"@).contains('\n'),
        !translated(lang, entries, "Open"@).contains('\n'),
    ensures
        split_lines(task_text(lang, entries, task, comments, no_comments, users)).len() >= 3,
        field_bool(task.is_completed) == Some(true) ==> split_lines(task_text(lang, entries, task, comments, no_comments, users))[2]
            == translated(lang, entries, "Status"@) + ":    "@ + translated(lang, entries, "Completed"@),
        field_bool(task.is_completed) != Some(true) ==> split_lines(task_text(lang, entries, task, comments, no_comments, users))[2]
            == translated(lang, entries, "Status"@) + ":    "@ + translated(lang, entries, "Open"@),
{
    let tr = |k: Seq<char>| translated(lang, entries, k);
    let status = if field_bool(task.is_completed) == Some(true) { tr("Completed"@) } else { tr("Open"@) };
    let text = html_text(str_or_empty(task.body));
    let description = if text.len() == 0 { tr("(no description)"@) } else { text };
    let cs = comments_text(lang, entries, comments);
    let base = seq![
        tr("Task"@) + ":      "@ + task_num_text(task),
        tr("Name"@) + ":      "@ + str_or_empty(task.name),
        tr("Status"@) + ":    "@ + status,
        meta_text(lang, entries, task, users),
        Seq::empty(),
        tr("Description"@) + ":"@,
        description,
    ];
    let ls = if !no_comments && cs.len() > 0 { base.push(cs) } else { base };
    assert(task_text(lang, entries, task, comments, no_comments, users) == join(ls, seq!['\n']));
    reveal_strlit(":    ");
    let sl = tr("Status"@) + ":    "@ + status;
    assert(!sl.contains('\n')) by {
        if sl.contains('\n') {
            let i = choose|i: int| 0 <= i < sl.len() && sl[i] == '\n';
            let a = tr("Status"@);
            if i < a.len() {
                assert(sl[i] == a[i]);
            } else if i < a.len() + 5 {
                assert(sl[i] == ":    "@[i - a.len()]);
            } else {
                assert(sl[i] == status[i - a.len() - 5]);
            }
        }
    }
    assert(ls[0] == base[0] && ls[1] == base[1] && ls[2] == sl);
    crate::render::lemma_split_join_prefix(ls, 2);
}

} // verus!
