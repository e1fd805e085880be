//! The decisions of the non-interactive commands (`comment`, `time log`,
//! `task set`, `get`, `current`, `mine`, `setup ...`, `skill`): what each one
//! validates, which call it makes next, and what it reports for each answer.
//! The shell performs the calls and prints what these functions return.

use vstd::prelude::*;
use std::collections::HashMap;
use crate::i18n::{I18n, t, translated};
use crate::resolve::{CliError, Instance, resolve_task_ref_for_comment, task_ref_ids,
    cannot_parse_msg, branch_ids, no_ref_no_branch_msg, branch_mismatch_msg, parse_branch_ref, names_of};
use crate::client::{CommentWriteOutcome, TimeWriteOutcome, TaskWriteOutcome, JobType, default_job_type,
    pick_default_job_type};
use crate::textutil::{owned, decimal, i64_decimal, str_eq, strs, join, join_strings, pad_right, push_padded,
    ascii_digit, is_ascii_digit};
use crate::unicode::{chars_of, push_str};
use crate::richparse::{trim_by, is_ws, trim_ws};
use crate::sanitize::{stripped, strip_control_chars};
use crate::projects::parse_i64_text;
use crate::resolve::parse_i64;

verus! {

broadcast use vstd::std_specs::hash::group_hash_axioms;

pub open spec fn tr(i18n: I18n, s: Seq<char>) -> Seq<char> {
    translated(i18n.language@, i18n.catalog.entries@, s)
}

fn err2(i18n: &I18n, msg: &str) -> (r: CliError)
    ensures
        r.code == 2,
        r.message@ == tr(*i18n, msg@),
{
    CliError { code: 2, message: t(i18n, msg) }
}

// ---------------------------------------------------------------------------
// ASCII case.
// ---------------------------------------------------------------------------

pub open spec fn ascii_lower(c: char) -> char {
    if 'A' <= c && c <= 'Z' { ((c as u32) + 32) as char } else { c }
}

pub open spec fn lower_ascii(s: Seq<char>) -> Seq<char> {
    s.map_values(|c: char| ascii_lower(c))
}

/// `str::eq_ignore_ascii_case`.
pub open spec fn eq_ignore_ascii_case(a: Seq<char>, b: Seq<char>) -> bool {
    lower_ascii(a) == lower_ascii(b)
}

fn lower_char(c: char) -> (r: char)
    ensures
        r == ascii_lower(c),
{
    match c {
        'A' => 'a',
        'B' => 'b',
        'C' => 'c',
        'D' => 'd',
        'E' => 'e',
        'F' => 'f',
        'G' => 'g',
        'H' => 'h',
        'I' => 'i',
        'J' => 'j',
        'K' => 'k',
        'L' => 'l',
        'M' => 'm',
        'N' => 'n',
        'O' => 'o',
        'P' => 'p',
        'Q' => 'q',
        'R' => 'r',
        'S' => 's',
        'T' => 't',
        'U' => 'u',
        'V' => 'v',
        'W' => 'w',
        'X' => 'x',
        'Y' => 'y',
        'Z' => 'z',
        _ => c,
    }
}

pub(crate) fn ascii_case_eq(a: &str, b: &str) -> (r: bool)
    ensures
        r == eq_ignore_ascii_case(a@, b@),
{
    let x = chars_of(a);
    let y = chars_of(b);
    if x.len() != y.len() {
        proof { assert(lower_ascii(a@).len() != lower_ascii(b@).len()); }
        return false;
    }
    let mut i: usize = 0;
    while i < x.len()
        invariant
            x@ == a@,
            y@ == b@,
            x@.len() == y@.len(),
            i <= x@.len(),
            forall|k: int| 0 <= k < i ==> ascii_lower(x@[k]) == ascii_lower(y@[k]),
        decreases x.len() - i,
    {
        if lower_char(x[i]) != lower_char(y[i]) {
            proof { assert(lower_ascii(a@)[i as int] != lower_ascii(b@)[i as int]); }
            return false;
        }
        i += 1;
    }
    proof { assert(lower_ascii(a@) =~= lower_ascii(b@)); }
    true
}

// ---------------------------------------------------------------------------
// Shared messages.
// ---------------------------------------------------------------------------

pub open spec fn reauth_text() -> Seq<char> {
    "Token invalid or revoked — run `ac setup add` to re-authenticate."@
}

/// The re-authentication message shown when the API reports the stored token
/// invalid or revoked.
pub fn reauth_message(i18n: &I18n) -> (r: String)
    ensures
        r@ == tr(*i18n, reauth_text()),
{
    t(i18n, "Token invalid or revoked — run `ac setup add` to re-authenticate.")
}

/// The line a failed write prints on standard error.
pub fn failure_line(reason: &str) -> (r: String)
    ensures
        r@ == "Error: "@ + reason@,
{
    let mut s = owned("Error: ");
    push_str(&mut s, reason);
    s
}

pub open spec fn ids_text(project_id: i64, task_id: i64) -> Seq<char> {
    decimal(project_id as int) + "/"@ + decimal(task_id as int)
}

fn ids_string(project_id: i64, task_id: i64) -> (r: String)
    ensures
        r@ == ids_text(project_id, task_id),
{
    let mut s = i64_decimal(project_id);
    push_str(&mut s, "/");
    push_str(&mut s, i64_decimal(task_id).as_str());
    s
}

/// The result of a write as the command reports it.
#[derive(Debug, Clone)]
pub enum WriteReport {
    /// Written; the id of what was created (0 when the answer carried none).
    Written(i64),
    /// Not written, for this reason.
    Failed(String),
}

// ---------------------------------------------------------------------------
// comment
// ---------------------------------------------------------------------------

pub open spec fn comment_success(comment_id: i64, task_id: i64, project_id: i64) -> Seq<char> {
    "Comment posted (comment_id="@ + decimal(comment_id as int) + ", task "@ + ids_text(project_id, task_id) + ")."@
}

/// The line a posted comment reports.
pub fn comment_success_text(comment_id: i64, task_id: i64, project_id: i64, i18n: &I18n) -> (r: String)
    ensures
        r@ == tr(*i18n, comment_success(comment_id, task_id, project_id)),
{
    let c = i64_decimal(comment_id);
    let ids = ids_string(project_id, task_id);
    let mut s = owned("Comment posted (comment_id=");
    push_str(&mut s, c.as_str());
    push_str(&mut s, ", task ");
    push_str(&mut s, ids.as_str());
    push_str(&mut s, ").");
    proof {
        reveal_strlit("Comment posted (comment_id=");
        reveal_strlit(", task ");
        reveal_strlit(").");
        assert(s@ =~= comment_success(comment_id, task_id, project_id));
    }
    t(i18n, s.as_str())
}

/// Before posting a comment: a blank body is a usage error (status 2), then
/// the task comes from the reference or the branch.
pub fn comment_target(body: &str, task_ref: Option<&str>, branch: Option<&str>, i18n: &I18n) -> (r: Result<(i64, i64), CliError>)
    ensures
        trim_by(body@, is_ws()).len() == 0 ==> (r matches Err(e) && e.code == 2 && e.message@ == tr(*i18n, "no comment body"@)),
        trim_by(body@, is_ws()).len() > 0 ==> as_target(r) == task_target(task_ref, branch, *i18n),
{
    let b = chars_of(body);
    if trim_ws(&b).len() == 0 {
        return Err(err2(i18n, "no comment body"));
    }
    resolve_task_ref_for_comment(task_ref, branch, i18n)
}

/// The task a write goes to: the reference's ids, else the branch's; a usage
/// error (status 2) with its message when neither gives one.
pub open spec fn task_target(task_ref: Option<&str>, branch: Option<&str>, i18n: I18n) -> Result<(i64, i64), (i32, Seq<char>)> {
    match task_ref {
        Some(s) => match task_ref_ids(s@) {
            Some(ids) => Ok(ids),
            None => Err((2, tr(i18n, cannot_parse_msg(s@)))),
        },
        None => match branch {
            None => Err((2, tr(i18n, no_ref_no_branch_msg()))),
            Some(b) => match branch_ids(b@) {
                Some(ids) => Ok(ids),
                None => Err((2, tr(i18n, branch_mismatch_msg(b@)))),
            },
        },
    }
}

pub open spec fn as_target(r: Result<(i64, i64), CliError>) -> Result<(i64, i64), (i32, Seq<char>)> {
    match r {
        Ok(ids) => Ok(ids),
        Err(e) => Err((e.code, e.message@)),
    }
}

/// What a comment post comes to: the id of the posted comment, or why not.
pub fn comment_write_report(outcome: CommentWriteOutcome, project_id: i64, task_id: i64, i18n: &I18n) -> (r: WriteReport)
    ensures
        match outcome {
            CommentWriteOutcome::Success(id) => r matches WriteReport::Written(c) && c == (match id { Some(v) => v, None => 0 }),
            CommentWriteOutcome::Unauthorized => r matches WriteReport::Failed(m) && m@ == tr(*i18n, reauth_text()),
            CommentWriteOutcome::Failed(status) => r matches WriteReport::Failed(m)
                && m@ == "HTTP "@ + decimal(status as int) + " posting comment to task "@ + ids_text(project_id, task_id),
        },
{
    match outcome {
        CommentWriteOutcome::Success(id) => WriteReport::Written(match id { Some(v) => v, None => 0 }),
        CommentWriteOutcome::Unauthorized => WriteReport::Failed(reauth_message(i18n)),
        CommentWriteOutcome::Failed(status) => {
            let st = i64_decimal(status as i64);
            let ids = ids_string(project_id, task_id);
            let mut m = owned("HTTP ");
            push_str(&mut m, st.as_str());
            push_str(&mut m, " posting comment to task ");
            push_str(&mut m, ids.as_str());
            proof {
                reveal_strlit("HTTP ");
                reveal_strlit(" posting comment to task ");
                assert(m@ =~= "HTTP "@ + decimal(status as int) + " posting comment to task "@ + ids_text(project_id, task_id));
            }
            WriteReport::Failed(m)
        },
    }
}


// ---------------------------------------------------------------------------
// time log
// ---------------------------------------------------------------------------

/// Before logging time: hours that are not positive are a usage error
/// (status 2), then the task comes from the reference or the branch.
pub fn time_log_target(hours_positive: bool, task_ref: Option<&str>, branch: Option<&str>, i18n: &I18n) -> (r: Result<(i64, i64), CliError>)
    ensures
        !hours_positive ==> (r matches Err(e) && e.code == 2 && e.message@ == tr(*i18n, "hours must be a positive number"@)),
        hours_positive ==> as_target(r) == task_target(task_ref, branch, *i18n),
{
    if !hours_positive {
        return Err(err2(i18n, "hours must be a positive number"));
    }
    resolve_task_ref_for_comment(task_ref, branch, i18n)
}

/// The job type a `--job-type` argument names: the first whose id, in decimal,
/// is the argument or whose name equals it ignoring ASCII case.
pub open spec fn job_type_named(v: Seq<JobType>, arg: Seq<char>) -> Option<i64>
    decreases v.len(),
{
    if v.len() == 0 {
        None
    } else if decimal(v[0].id as int) == arg || eq_ignore_ascii_case(v[0].name@, arg) {
        Some(v[0].id)
    } else {
        job_type_named(v.drop_first(), arg)
    }
}

/// The job type a time record uses: the one `--job-type` names, else the
/// instance default; `None` when neither gives one.
pub fn resolve_job_type_id(job_types: &[JobType], job_type_arg: Option<&str>) -> (r: Option<i64>)
    ensures
        r == (match job_type_arg {
            Some(a) => job_type_named(job_types@, a@),
            None => default_job_type(job_types@),
        }),
{
    match job_type_arg {
        None => pick_default_job_type(job_types),
        Some(arg) => {
            let mut i: usize = 0;
            proof { assert(job_types@.skip(0) =~= job_types@); }
            while i < job_types.len()
                invariant
                    i <= job_types@.len(),
                    job_type_arg == Some(arg),
                    job_type_named(job_types@, arg@) == job_type_named(job_types@.skip(i as int), arg@),
                decreases job_types.len() - i,
            {
                proof {
                    assert(job_types@.skip(i as int)[0] == job_types@[i as int]);
                    assert(job_types@.skip(i as int).drop_first() =~= job_types@.skip(i + 1));
                }
                let id_text = i64_decimal(job_types[i].id);
                let by_id = str_eq(id_text.as_str(), arg);
                let by_name = ascii_case_eq(job_types[i].name.as_str(), arg);
                if by_id || by_name {
                    proof {
                        let v = job_types@.skip(i as int);
                        assert(decimal(v[0].id as int) == arg@ || eq_ignore_ascii_case(v[0].name@, arg@));
                    }
                    return Some(job_types[i].id);
                }
                i += 1;
            }
            None
        },
    }
}

/// Why a time record cannot be written when no job type resolves.
pub fn no_job_type_reason(i18n: &I18n) -> (r: String)
    ensures
        r@ == tr(*i18n, "no job type available; configure job types on this instance or pass --job-type"@),
{
    t(i18n, "no job type available; configure job types on this instance or pass --job-type")
}

/// The record date: the `--date` given, verbatim, else today.
pub fn resolve_record_date(date: Option<&str>, today: &str) -> (r: String)
    ensures
        r@ == (match date { Some(d) => d@, None => today@ }),
{
    match date {
        Some(d) => owned(d),
        None => owned(today),
    }
}

pub open spec fn time_success(record_id: i64, hours: Seq<char>, task_id: i64, project_id: i64) -> Seq<char> {
    "Time logged (time_record_id="@ + decimal(record_id as int) + ", "@ + hours + " hours, task "@
        + ids_text(project_id, task_id) + ")."@
}

/// The line a logged time record reports (`hours` as the hours print).
pub fn time_success_text(record_id: i64, hours: &str, task_id: i64, project_id: i64, i18n: &I18n) -> (r: String)
    ensures
        r@ == tr(*i18n, time_success(record_id, hours@, task_id, project_id)),
{
    let c = i64_decimal(record_id);
    let ids = ids_string(project_id, task_id);
    let mut s = owned("Time logged (time_record_id=");
    push_str(&mut s, c.as_str());
    push_str(&mut s, ", ");
    push_str(&mut s, hours);
    push_str(&mut s, " hours, task ");
    push_str(&mut s, ids.as_str());
    push_str(&mut s, ").");
    proof {
        reveal_strlit("Time logged (time_record_id=");
        reveal_strlit(", ");
        reveal_strlit(" hours, task ");
        reveal_strlit(").");
        assert(s@ =~= time_success(record_id, hours@, task_id, project_id));
    }
    t(i18n, s.as_str())
}

/// What a time-record post comes to: the id of the record, or why not.
pub fn time_write_report(outcome: TimeWriteOutcome, project_id: i64, task_id: i64, i18n: &I18n) -> (r: WriteReport)
    ensures
        match outcome {
            TimeWriteOutcome::Success(id) => r matches WriteReport::Written(c) && c == (match id { Some(v) => v, None => 0 }),
            TimeWriteOutcome::Unauthorized => r matches WriteReport::Failed(m) && m@ == tr(*i18n, reauth_text()),
            TimeWriteOutcome::Failed(status) => r matches WriteReport::Failed(m)
                && m@ == "HTTP "@ + decimal(status as int) + " posting time record to task "@ + ids_text(project_id, task_id),
        },
{
    match outcome {
        TimeWriteOutcome::Success(id) => WriteReport::Written(match id { Some(v) => v, None => 0 }),
        TimeWriteOutcome::Unauthorized => WriteReport::Failed(reauth_message(i18n)),
        TimeWriteOutcome::Failed(status) => {
            let st = i64_decimal(status as i64);
            let ids = ids_string(project_id, task_id);
            let mut m = owned("HTTP ");
            push_str(&mut m, st.as_str());
            push_str(&mut m, " posting time record to task ");
            push_str(&mut m, ids.as_str());
            proof {
                reveal_strlit("HTTP ");
                reveal_strlit(" posting time record to task ");
                assert(m@ =~= "HTTP "@ + decimal(status as int) + " posting time record to task "@ + ids_text(project_id, task_id));
            }
            WriteReport::Failed(m)
        },
    }
}

// ---------------------------------------------------------------------------
// task set
// ---------------------------------------------------------------------------

/// A `--status` value as the completion flag: `complete`, `completed`,
/// `done`, `closed` are true and `open`, `reopen`, `todo` false, ignoring
/// ASCII case; anything else is not recognised.
pub open spec fn completion(value: Seq<char>) -> Option<bool> {
    let v = lower_ascii(value);
    if v == "complete"@ || v == "completed"@ || v == "done"@ || v == "closed"@ {
        Some(true)
    } else if v == "open"@ || v == "reopen"@ || v == "todo"@ {
        Some(false)
    } else {
        None
    }
}

fn lowered(s: &str) -> (r: String)
    ensures
        r@ == lower_ascii(s@),
{
    let cs = chars_of(s);
    let mut out = String::new();
    let mut i: usize = 0;
    while i < cs.len()
        invariant
            cs@ == s@,
            i <= cs@.len(),
            out@ == lower_ascii(s@).subrange(0, i as int),
        decreases cs.len() - i,
    {
        crate::unicode::push_char(&mut out, lower_char(cs[i]));
        proof { assert(out@ =~= lower_ascii(s@).subrange(0, i + 1)); }
        i += 1;
    }
    proof { assert(lower_ascii(s@).subrange(0, cs@.len() as int) =~= lower_ascii(s@)); }
    out
}

/// Parses a `--status` value.
pub fn parse_completion(value: &str) -> (r: Option<bool>)
    ensures
        r == completion(value@),
{
    let v = lowered(value);
    let s = v.as_str();
    proof {
        reveal_strlit("complete");
        reveal_strlit("completed");
        reveal_strlit("done");
        reveal_strlit("closed");
        reveal_strlit("open");
        reveal_strlit("reopen");
        reveal_strlit("todo");
    }
    if str_eq(s, "complete") || str_eq(s, "completed") || str_eq(s, "done") || str_eq(s, "closed") {
        Some(true)
    } else if str_eq(s, "open") || str_eq(s, "reopen") || str_eq(s, "todo") {
        Some(false)
    } else {
        None
    }
}

/// How an `--assignee` argument resolved.
#[derive(Debug, Clone, Copy, PartialEq, Eq, Structural)]
pub enum AssigneeResolution {
    /// A single user id, passed directly or matched by name.
    Id(i64),
    /// No user matched the name.
    NotFound,
    /// More than one user matched the name.
    Ambiguous,
}

/// The ids in the directory whose name equals the argument, ignoring ASCII
/// case.
pub open spec fn name_matches(dir: Seq<(i64, Seq<char>)>, arg: Seq<char>) -> Seq<i64>
    decreases dir.len(),
{
    if dir.len() == 0 {
        Seq::empty()
    } else if eq_ignore_ascii_case(dir.last().1, arg) {
        name_matches(dir.drop_last(), arg).push(dir.last().0)
    } else {
        name_matches(dir.drop_last(), arg)
    }
}

/// Matches an `--assignee` name against the user directory (`entries`: the
/// directory as (id, name) pairs): the users whose name equals it ignoring
/// ASCII case; one is that user's id, none is `NotFound`, more `Ambiguous`.
pub fn match_assignee_name(arg: &str, entries: &[(i64, String)]) -> (r: AssigneeResolution)
    ensures
        ({
            let hits = name_matches(crate::client::pairs_view(entries@), arg@);
            &&& hits.len() == 0 ==> r == AssigneeResolution::NotFound
            &&& hits.len() == 1 ==> r == AssigneeResolution::Id(hits[0])
            &&& hits.len() > 1 ==> r == AssigneeResolution::Ambiguous
        }),
{
    let ghost pv = crate::client::pairs_view(entries@);
    let mut found: Vec<i64> = Vec::new();
    let mut i: usize = 0;
    while i < entries.len()
        invariant
            i <= entries@.len(),
            pv == crate::client::pairs_view(entries@),
            found@ == name_matches(pv.subrange(0, i as int), arg@),
        decreases entries.len() - i,
    {
        proof {
            let sub = pv.subrange(0, i + 1);
            assert(sub.drop_last() =~= pv.subrange(0, i as int));
            assert(sub.last() == (entries@[i as int].0, entries@[i as int].1@));
        }
        if ascii_case_eq(entries[i].1.as_str(), arg) {
            found.push(entries[i].0);
        }
        i += 1;
    }
    proof { assert(pv.subrange(0, entries@.len() as int) =~= pv); }
    if found.len() == 1 {
        AssigneeResolution::Id(found[0])
    } else if found.len() == 0 {
        AssigneeResolution::NotFound
    } else {
        AssigneeResolution::Ambiguous
    }
}

/// What an `--assignee` argument needs: an all-digits argument that parses is
/// the id itself, with no directory fetch; anything else is matched by name.
pub open spec fn assignee_direct_id(arg: Seq<char>) -> Option<i64> {
    if arg.len() > 0 && (forall|i: int| 0 <= i < arg.len() ==> ascii_digit(#[trigger] arg[i])) {
        parse_i64(arg)
    } else {
        None
    }
}

/// The id an all-digits `--assignee` gives directly, if any.
pub fn assignee_id_from_digits(arg: &str) -> (r: Option<i64>)
    ensures
        r == assignee_direct_id(arg@),
{
    let cs = chars_of(arg);
    if cs.len() == 0 {
        return None;
    }
    let mut i: usize = 0;
    while i < cs.len()
        invariant
            cs@ == arg@,
            i <= cs@.len(),
            forall|k: int| 0 <= k < i ==> ascii_digit(#[trigger] cs@[k]),
        decreases cs.len() - i,
    {
        if !is_ascii_digit(cs[i]) {
            return None;
        }
        i += 1;
    }
    parse_i64_text(arg)
}

/// The usage error an assignee that did not resolve to one user gives.
pub fn assignee_error(resolution: AssigneeResolution, arg: &str, i18n: &I18n) -> (r: Result<i64, CliError>)
    ensures
        match resolution {
            AssigneeResolution::Id(id) => r == Ok::<i64, CliError>(id),
            AssigneeResolution::NotFound => r matches Err(e) && e.code == 2
                && e.message@ == tr(*i18n, "Error: no user matches assignee '"@ + arg@ + "'."@),
            AssigneeResolution::Ambiguous => r matches Err(e) && e.code == 2
                && e.message@ == tr(*i18n, "Error: assignee '"@ + arg@ + "' matches more than one user; use the numeric id instead."@),
        },
{
    match resolution {
        AssigneeResolution::Id(id) => Ok(id),
        AssigneeResolution::NotFound => {
            let mut m = owned("Error: no user matches assignee '");
            push_str(&mut m, arg);
            push_str(&mut m, "'.");
            Err(CliError { code: 2, message: t(i18n, m.as_str()) })
        },
        AssigneeResolution::Ambiguous => {
            let mut m = owned("Error: assignee '");
            push_str(&mut m, arg);
            push_str(&mut m, "' matches more than one user; use the numeric id instead.");
            Err(CliError { code: 2, message: t(i18n, m.as_str()) })
        },
    }
}

/// What `task set` will do once its arguments are checked.
#[derive(Debug, Clone)]
pub struct TaskSetPlan {
    pub project_id: i64,
    pub task_id: i64,
    /// The completion flag to set, if `--status` was given.
    pub completed: Option<bool>,
}

pub open spec fn bad_status_msg(v: Seq<char>) -> Seq<char> {
    "Error: unrecognized --status value '"@ + v
        + "'. Use complete, completed, done, closed, open, reopen, or todo."@
}

/// The checks `task set` makes before any call, in order: at least one of
/// `--status`, `--assignee`, `--estimate` (`estimate`: given, and whether it
/// is negative); the estimate not negative; the task from the reference or
/// the branch; the status recognised. Each failure is a usage error (status 2).
pub fn task_set_plan(
    task_ref: Option<&str>,
    branch: Option<&str>,
    status: Option<&str>,
    has_assignee: bool,
    estimate_negative: Option<bool>,
    i18n: &I18n,
) -> (r: Result<TaskSetPlan, CliError>)
    ensures
        status is None && !has_assignee && estimate_negative is None ==> (r matches Err(e) && e.code == 2
            && e.message@ == tr(*i18n, "Error: at least one of --status, --assignee, or --estimate is required."@)),
        !(status is None && !has_assignee && estimate_negative is None) && estimate_negative == Some(true) ==>
            (r matches Err(e) && e.code == 2 && e.message@ == tr(*i18n, "Error: estimate must be zero or a positive number."@)),
        !(status is None && !has_assignee && estimate_negative is None) && estimate_negative != Some(true) ==> {
            match task_target(task_ref, branch, *i18n) {
                Err(x) => r matches Err(e) && (e.code, e.message@) == x,
                Ok(ids) => match status {
                    Some(v) => match completion(v@) {
                        None => r matches Err(e) && e.code == 2 && e.message@ == tr(*i18n, bad_status_msg(v@)),
                        Some(c) => r matches Ok(p) && p.project_id == ids.0 && p.task_id == ids.1 && p.completed == Some(c),
                    },
                    None => r matches Ok(p) && p.project_id == ids.0 && p.task_id == ids.1 && p.completed is None,
                },
            }
        },
{
    if status.is_none() && !has_assignee && estimate_negative.is_none() {
        return Err(err2(i18n, "Error: at least one of --status, --assignee, or --estimate is required."));
    }
    if estimate_negative == Some(true) {
        return Err(err2(i18n, "Error: estimate must be zero or a positive number."));
    }
    let (project_id, task_id) = match resolve_task_ref_for_comment(task_ref, branch, i18n) {
        Ok(ids) => ids,
        Err(e) => return Err(e),
    };
    let completed = match status {
        Some(v) => match parse_completion(v) {
            Some(c) => Some(c),
            None => {
                let mut m = owned("Error: unrecognized --status value '");
                push_str(&mut m, v);
                push_str(&mut m, "'. Use complete, completed, done, closed, open, reopen, or todo.");
                proof {
                    reveal_strlit("Error: unrecognized --status value '");
                    reveal_strlit("'. Use complete, completed, done, closed, open, reopen, or todo.");
                    assert(m@ =~= bad_status_msg(v@));
                }
                return Err(CliError { code: 2, message: t(i18n, m.as_str()) });
            },
        },
        None => None,
    };
    Ok(TaskSetPlan { project_id, task_id, completed })
}

/// The API path (under `/api/v1/`) that sets a task's completion.
pub open spec fn completion_path(completed: bool, task_id: i64) -> Seq<char> {
    (if completed { "complete/task/"@ } else { "open/task/"@ }) + decimal(task_id as int)
}

/// The API path (under `/api/v1/`) that updates a task's fields.
pub open spec fn task_update_path(project_id: i64, task_id: i64) -> Seq<char> {
    "projects/"@ + decimal(project_id as int) + "/tasks/"@ + decimal(task_id as int)
}

impl TaskSetPlan {
    /// The writes the plan makes, in order: the completion path when a status
    /// was given, then the update path when an assignee or estimate was given.
    pub fn write_paths(&self, updates_fields: bool) -> (r: (Option<String>, Option<String>))
        ensures
            match self.completed {
                Some(c) => r.0 matches Some(p) && p@ == completion_path(c, self.task_id),
                None => r.0 is None,
            },
            updates_fields ==> (r.1 matches Some(p) && p@ == task_update_path(self.project_id, self.task_id)),
            !updates_fields ==> r.1 is None,
    {
        let first = match self.completed {
            Some(c) => {
                let mut p = if c { owned("complete/task/") } else { owned("open/task/") };
                let d = i64_decimal(self.task_id);
                push_str(&mut p, d.as_str());
                proof {
                    reveal_strlit("complete/task/");
                    reveal_strlit("open/task/");
                    assert(p@ =~= completion_path(c, self.task_id));
                }
                Some(p)
            },
            None => None,
        };
        let second = if updates_fields {
            let mut p = owned("projects/");
            let dp = i64_decimal(self.project_id);
            push_str(&mut p, dp.as_str());
            push_str(&mut p, "/tasks/");
            let dt = i64_decimal(self.task_id);
            push_str(&mut p, dt.as_str());
            proof {
                reveal_strlit("projects/");
                reveal_strlit("/tasks/");
                assert(p@ =~= task_update_path(self.project_id, self.task_id));
            }
            Some(p)
        } else {
            None
        };
        (first, second)
    }
}

/// Why a task write failed, or nothing when it succeeded.
pub fn task_write_failure(outcome: TaskWriteOutcome, project_id: i64, task_id: i64, i18n: &I18n) -> (r: Option<String>)
    ensures
        match outcome {
            TaskWriteOutcome::Success(_) => r is None,
            TaskWriteOutcome::Unauthorized => r matches Some(m) && m@ == tr(*i18n, reauth_text()),
            TaskWriteOutcome::Failed(status) => r matches Some(m)
                && m@ == "HTTP "@ + decimal(status as int) + " updating task "@ + ids_text(project_id, task_id),
        },
{
    match outcome {
        TaskWriteOutcome::Success(_) => None,
        TaskWriteOutcome::Unauthorized => Some(reauth_message(i18n)),
        TaskWriteOutcome::Failed(status) => {
            let st = i64_decimal(status as i64);
            let ids = ids_string(project_id, task_id);
            let mut m = owned("HTTP ");
            push_str(&mut m, st.as_str());
            push_str(&mut m, " updating task ");
            push_str(&mut m, ids.as_str());
            proof {
                reveal_strlit("HTTP ");
                reveal_strlit(" updating task ");
                assert(m@ =~= "HTTP "@ + decimal(status as int) + " updating task "@ + ids_text(project_id, task_id));
            }
            Some(m)
        },
    }
}

/// The fields `task set` applied, e.g. `": status=completed, estimate=8"`, or
/// nothing when none did (`estimate`: the estimate as it prints).
pub open spec fn changes_suffix(completed: Option<bool>, assignee_id: Option<i64>, estimate: Option<Seq<char>>) -> Seq<char> {
    let parts = (match completed {
            Some(c) => seq!["status="@ + (if c { "completed"@ } else { "open"@ })],
            None => Seq::empty(),
        })
        + (match assignee_id { Some(a) => seq!["assignee_id="@ + decimal(a as int)], None => Seq::empty() })
        + (match estimate { Some(e) => seq!["estimate="@ + e], None => Seq::empty() });
    if parts.len() == 0 { Seq::empty() } else { ": "@ + join(parts, ", "@) }
}

pub open spec fn opt_str(o: Option<&str>) -> Option<Seq<char>> {
    match o {
        Some(s) => Some(s@),
        None => None,
    }
}

/// The suffix naming the applied fields.
pub fn task_changes_suffix(completed: Option<bool>, assignee_id: Option<i64>, estimate: Option<&str>) -> (r: String)
    ensures
        r@ == changes_suffix(completed, assignee_id, opt_str(estimate)),
{
    let mut parts: Vec<String> = Vec::new();
    if let Some(c) = completed {
        let mut p = owned("status=");
        push_str(&mut p, if c { "completed" } else { "open" });
        parts.push(p);
    }
    if let Some(a) = assignee_id {
        let mut p = owned("assignee_id=");
        push_str(&mut p, i64_decimal(a).as_str());
        parts.push(p);
    }
    if let Some(e) = estimate {
        let mut p = owned("estimate=");
        push_str(&mut p, e);
        parts.push(p);
    }
    proof {
        let want = (match completed {
                Some(c) => seq!["status="@ + (if c { "completed"@ } else { "open"@ })],
                None => Seq::<Seq<char>>::empty(),
            })
            + (match assignee_id { Some(a) => seq!["assignee_id="@ + decimal(a as int)], None => Seq::<Seq<char>>::empty() })
            + (match opt_str(estimate) { Some(e) => seq!["estimate="@ + e], None => Seq::<Seq<char>>::empty() });
        assert(strs(parts@) =~= want);
    }
    if parts.len() == 0 {
        String::new()
    } else {
        let mut s = owned(": ");
        push_str(&mut s, join_strings(&parts, ", ").as_str());
        s
    }
}

pub open spec fn task_success(task_id: i64, project_id: i64, changes: Seq<char>) -> Seq<char> {
    "Task updated (task "@ + ids_text(project_id, task_id) + ")"@ + changes + "."@
}

/// The line an applied `task set` reports.
pub fn task_success_text(task_id: i64, project_id: i64, completed: Option<bool>, assignee_id: Option<i64>, estimate: Option<&str>, i18n: &I18n) -> (r: String)
    ensures
        r@ == tr(*i18n, task_success(task_id, project_id, changes_suffix(completed, assignee_id, opt_str(estimate)))),
{
    let ids = ids_string(project_id, task_id);
    let changes = task_changes_suffix(completed, assignee_id, estimate);
    let mut s = owned("Task updated (task ");
    push_str(&mut s, ids.as_str());
    push_str(&mut s, ")");
    push_str(&mut s, changes.as_str());
    push_str(&mut s, ".");
    proof {
        reveal_strlit("Task updated (task ");
        reveal_strlit(")");
        reveal_strlit(".");
        assert(s@ =~= task_success(task_id, project_id, changes@));
    }
    t(i18n, s.as_str())
}


// ---------------------------------------------------------------------------
// get / current
// ---------------------------------------------------------------------------

/// The task `current` shows: the ids in the git branch; no branch, or one not
/// named like a task branch, is a usage error (status 2).
pub fn current_task_ids(branch: Option<&str>, i18n: &I18n) -> (r: Result<(i64, i64), CliError>)
    ensures
        match branch {
            None => r matches Err(e) && e.code == 2
                && e.message@ == tr(*i18n, "Error: not in a git repository or HEAD is detached."@),
            Some(b) => match branch_ids(b@) {
                Some(ids) => r == Ok::<(i64, i64), CliError>(ids),
                None => r matches Err(e) && e.code == 2 && e.message@ == tr(*i18n, current_mismatch_msg(b@)),
            },
        },
{
    match branch {
        None => Err(err2(i18n, "Error: not in a git repository or HEAD is detached.")),
        Some(b) => match parse_branch_ref(b) {
            Some(ids) => Ok(ids),
            None => {
                let mut m = owned("Error: branch '");
                push_str(&mut m, b);
                push_str(&mut m, "' does not match expected pattern (feature|hotfix|fix)/PROJECT_ID-TASK_ID (e.g. feature/665-75159).");
                proof {
                    reveal_strlit("Error: branch '");
                    reveal_strlit("' does not match expected pattern (feature|hotfix|fix)/PROJECT_ID-TASK_ID (e.g. feature/665-75159).");
                    assert(m@ =~= current_mismatch_msg(b@));
                }
                Err(CliError { code: 2, message: t(i18n, m.as_str()) })
            },
        },
    }
}

pub open spec fn current_mismatch_msg(b: Seq<char>) -> Seq<char> {
    "Error: branch '"@ + b + "' does not match expected pattern (feature|hotfix|fix)/PROJECT_ID-TASK_ID (e.g. feature/665-75159)."@
}

/// Why loading a task failed, from the fetch's status: nothing on 200, the
/// re-authentication message on 401, else "not found" with the status.
pub fn task_fetch_error(status: u16, project_id: i64, task_id: i64, i18n: &I18n) -> (r: Option<String>)
    ensures
        status == 200 ==> r is None,
        status == 401 ==> (r matches Some(m) && m@ == tr(*i18n, reauth_text())),
        status != 200 && status != 401 ==> (r matches Some(m) && m@ == tr(*i18n,
            "Error: task "@ + ids_text(project_id, task_id) + " not found (HTTP "@ + decimal(status as int) + ")."@)),
{
    if status == 401 {
        return Some(reauth_message(i18n));
    }
    if status == 200 {
        return None;
    }
    let ids = ids_string(project_id, task_id);
    let st = i64_decimal(status as i64);
    let mut m = owned("Error: task ");
    push_str(&mut m, ids.as_str());
    push_str(&mut m, " not found (HTTP ");
    push_str(&mut m, st.as_str());
    push_str(&mut m, ").");
    proof {
        reveal_strlit("Error: task ");
        reveal_strlit(" not found (HTTP ");
        reveal_strlit(").");
        assert(m@ =~= "Error: task "@ + ids_text(project_id, task_id) + " not found (HTTP "@ + decimal(status as int) + ")."@);
    }
    Some(t(i18n, m.as_str()))
}

/// Where a loaded task comes from: the cache when neither a refresh nor JSON
/// output was asked for and the cache holds the task, else the network (JSON
/// output always reads the API).
pub fn serve_from_cache(refresh: bool, json: bool, cache_hit: bool) -> (r: bool)
    ensures
        r == (!refresh && !json && cache_hit),
{
    !refresh && !json && cache_hit
}

/// How `get` and `current` print a loaded task.
#[derive(Debug, Clone, Copy, PartialEq, Eq, Structural)]
pub enum TaskOutput {
    Json,
    Short,
    Full,
}

/// Flags threaded from the command line into `get` and `current`.
#[derive(Debug, Clone)]
pub struct DisplayFlags {
    pub json: bool,
    pub short: bool,
    pub refresh: bool,
    pub no_comments: bool,
    pub download_attachments: bool,
    pub attachments_dir: Option<String>,
}

/// JSON wins over the one-line form, which wins over the full view.
pub fn task_output(flags: &DisplayFlags) -> (r: TaskOutput)
    ensures
        r == (if flags.json { TaskOutput::Json } else if flags.short { TaskOutput::Short } else { TaskOutput::Full }),
{
    if flags.json {
        TaskOutput::Json
    } else if flags.short {
        TaskOutput::Short
    } else {
        TaskOutput::Full
    }
}

/// The one-line form: `P/T`, a tab, and the task's name without control
/// characters.
pub fn short_line(project_id: i64, task_id: i64, name: &str) -> (r: String)
    ensures
        r@ == ids_text(project_id, task_id) + seq!['\t'] + stripped(name@),
{
    let mut s = ids_string(project_id, task_id);
    push_str(&mut s, "\t");
    push_str(&mut s, strip_control_chars(name).as_str());
    proof { reveal_strlit("\t"); }
    s
}

// ---------------------------------------------------------------------------
// mine
// ---------------------------------------------------------------------------

/// How `mine` answers once its instances are known.
#[derive(Debug, Clone, Copy, PartialEq, Eq, Structural)]
pub enum MineMode {
    /// Open the interactive list (a terminal, no `--json`).
    Tui,
    /// Print the JSON object.
    Json,
    /// Print the plain table.
    Table,
}

pub fn mine_mode(json: bool, is_tty: bool) -> (r: MineMode)
    ensures
        r == (if is_tty && !json { MineMode::Tui } else if json { MineMode::Json } else { MineMode::Table }),
{
    if is_tty && !json {
        MineMode::Tui
    } else if json {
        MineMode::Json
    } else {
        MineMode::Table
    }
}

pub open spec fn filtered_instances(v: Seq<Instance>, name: Seq<char>) -> Seq<Instance>
    decreases v.len(),
{
    if v.len() == 0 {
        Seq::empty()
    } else if v.last().name@ == name {
        filtered_instances(v.drop_last(), name).push(v.last())
    } else {
        filtered_instances(v.drop_last(), name)
    }
}

/// The instances `mine` reads: all of them, or those named by the filter.
/// None configured, or none matching the filter, is a usage error (status 2).
pub fn mine_targets(instances: Vec<Instance>, filter: Option<&str>, i18n: &I18n) -> (r: Result<Vec<Instance>, CliError>)
    ensures
        instances@.len() == 0 ==> (r matches Err(e) && e.code == 2
            && e.message@ == tr(*i18n, "Error: no instances configured. Run: active_collab.py setup add"@)),
        instances@.len() > 0 ==> match filter {
            None => r matches Ok(v) && v@ == instances@,
            Some(n) => {
                let m = filtered_instances(instances@, n@);
                if m.len() == 0 {
                    r matches Err(e) && e.code == 2 && e.message@ == tr(*i18n,
                        "Error: instance '"@ + n@ + "' not found. Known: "@ + join(names_of(instances@), ", "@))
                } else {
                    r matches Ok(v) && v@ == m
                }
            },
        },
{
    if instances.len() == 0 {
        return Err(err2(i18n, "Error: no instances configured. Run: active_collab.py setup add"));
    }
    match filter {
        None => Ok(instances),
        Some(name) => {
            let mut names: Vec<String> = Vec::new();
            let mut matches: Vec<Instance> = Vec::new();
            let mut i: usize = 0;
            while i < instances.len()
                invariant
                    i <= instances@.len(),
                    matches@ == filtered_instances(instances@.subrange(0, i as int), name@),
                    strs(names@) == names_of(instances@.subrange(0, i as int)),
                decreases instances.len() - i,
            {
                proof {
                    let sub = instances@.subrange(0, i + 1);
                    assert(sub.drop_last() =~= instances@.subrange(0, i as int));
                    assert(sub.last() == instances@[i as int]);
                }
                let ghost before = strs(names@);
                names.push(instances[i].name.clone());
                proof { assert(strs(names@) =~= before.push(instances@[i as int].name@)); }
                if str_eq(instances[i].name.as_str(), name) {
                    matches.push(instances[i].duplicate());
                }
                i += 1;
            }
            proof { assert(instances@.subrange(0, instances@.len() as int) =~= instances@); }
            if matches.len() == 0 {
                let known = join_strings(&names, ", ");
                let mut m = owned("Error: instance '");
                push_str(&mut m, name);
                push_str(&mut m, "' not found. Known: ");
                push_str(&mut m, known.as_str());
                proof {
                    reveal_strlit("Error: instance '");
                    reveal_strlit("' not found. Known: ");
                    assert(m@ =~= "Error: instance '"@ + name@ + "' not found. Known: "@ + join(names_of(instances@), ", "@));
                }
                return Err(CliError { code: 2, message: t(i18n, m.as_str()) });
            }
            Ok(matches)
        },
    }
}

/// One instance's answer to the open-task listing, as `mine` sees it.
#[derive(Debug)]
pub enum ListingResult {
    /// The open tasks it listed.
    Listed(Vec<crate::groups::MineTask>),
    /// It answered 401.
    Unauthorized,
    /// It could not be reached or answered otherwise unusably.
    Unavailable,
}

pub open spec fn listing_unauthorized(rs: Seq<ListingResult>) -> bool {
    exists|i: int| 0 <= i < rs.len() && rs[i] is Unauthorized
}

pub open spec fn listed_rows(rs: Seq<ListingResult>) -> Seq<crate::groups::MineTask>
    decreases rs.len(),
{
    if rs.len() == 0 {
        Seq::empty()
    } else {
        listed_rows(rs.drop_last()) + match rs.last() {
            ListingResult::Listed(v) => v@,
            _ => Seq::empty(),
        }
    }
}

/// The open tasks of all instances, in instance order; an instance that
/// answered 401 makes the whole listing `Unauthorized`, one that could not be
/// read is skipped.
pub fn mine_tasks(results: Vec<ListingResult>) -> (r: Result<Vec<crate::groups::MineTask>, crate::client::Unauthorized>)
    ensures
        listing_unauthorized(results@) <==> r is Err,
        r matches Ok(v) ==> v@ == listed_rows(results@),
{
    let n = results.len();
    let ghost src = results@;
    let mut rest = results;
    let mut out: Vec<crate::groups::MineTask> = Vec::new();
    let mut unauthorized = false;
    let mut i: usize = 0;
    proof { assert(rest@ =~= src.subrange(0, n as int)); }
    while i < n && !unauthorized
        invariant
            i <= n,
            n == src.len(),
            rest@ == src.subrange(i as int, n as int),
            unauthorized ==> listing_unauthorized(src),
            !unauthorized ==> !listing_unauthorized(src.subrange(0, i as int)),
            !unauthorized ==> out@ == listed_rows(src.subrange(0, i as int)),
        decreases n - i,
    {
        let entry = rest.remove(0);
        proof {
            assert(entry == src[i as int]);
            assert(rest@ =~= src.subrange(i + 1, n as int));
            let sub = src.subrange(0, i + 1);
            assert(sub.drop_last() =~= src.subrange(0, i as int));
            assert(sub.last() == entry);
        }
        match entry {
            ListingResult::Listed(tasks) => {
                let mut k: usize = 0;
                let ghost o0 = out@;
                while k < tasks.len()
                    invariant
                        k <= tasks@.len(),
                        out@ == o0 + tasks@.subrange(0, k as int),
                    decreases tasks.len() - k,
                {
                    out.push(tasks[k].clone_task());
                    proof { assert(out@ =~= o0 + tasks@.subrange(0, k + 1)); }
                    k += 1;
                }
                proof {
                    assert(tasks@.subrange(0, tasks@.len() as int) =~= tasks@);
                    let sub = src.subrange(0, i + 1);
                    assert forall|j: int| 0 <= j < sub.len() implies !(sub[j] is Unauthorized) by {
                        if j < i {
                            assert(sub[j] == src.subrange(0, i as int)[j]);
                        }
                    }
                }
            },
            ListingResult::Unauthorized => {
                proof { assert(src[i as int] is Unauthorized); }
                unauthorized = true;
            },
            ListingResult::Unavailable => {
                proof {
                    let sub = src.subrange(0, i + 1);
                    assert forall|j: int| 0 <= j < sub.len() implies !(sub[j] is Unauthorized) by {
                        if j < i {
                            assert(sub[j] == src.subrange(0, i as int)[j]);
                        }
                    }
                }
            },
        }
        i += 1;
    }
    if unauthorized {
        return Err(crate::client::Unauthorized);
    }
    proof { assert(src.subrange(0, n as int) =~= src); }
    Ok(out)
}


/// The table rows of open tasks, in order (see `mine_task_to_row`).
pub fn rows_from_tasks(tasks: &[crate::groups::MineTask]) -> (r: Vec<crate::render::MineTableRow>)
    ensures
        r@.len() == tasks@.len(),
        forall|i: int| 0 <= i < r@.len() ==> {
            &&& (#[trigger] r@[i]).instance@ == tasks@[i].instance_name@
            &&& r@[i].project_id == crate::groups::task_pid(tasks@[i])
            &&& r@[i].task_number == (match tasks@[i].task_number {
                Some(n) => if n != 0 { n } else { tasks@[i].id },
                None => tasks@[i].id,
            })
            &&& r@[i].task_id == tasks@[i].id
            &&& r@[i].name@ == tasks@[i].name@
            &&& r@[i].due_on is None
            &&& r@[i].project_name is None
        },
{
    let mut out: Vec<crate::render::MineTableRow> = Vec::new();
    let mut i: usize = 0;
    while i < tasks.len()
        invariant
            i <= tasks@.len(),
            out@.len() == i,
            forall|k: int| 0 <= k < i ==> {
                &&& (#[trigger] out@[k]).instance@ == tasks@[k].instance_name@
                &&& out@[k].project_id == crate::groups::task_pid(tasks@[k])
                &&& out@[k].task_number == (match tasks@[k].task_number {
                    Some(n) => if n != 0 { n } else { tasks@[k].id },
                    None => tasks@[k].id,
                })
                &&& out@[k].task_id == tasks@[k].id
                &&& out@[k].name@ == tasks@[k].name@
                &&& out@[k].due_on is None
                &&& out@[k].project_name is None
            },
        decreases tasks.len() - i,
    {
        out.push(crate::groups::mine_task_to_row(&tasks[i]));
        i += 1;
    }
    out
}

/// What `mine` prints as a table: a note when there are no rows, else the
/// table.
pub fn mine_table_output(rows: &[crate::render::MineTableRow], i18n: &I18n) -> (r: String)
    ensures
        rows@.len() == 0 ==> r@ == tr(*i18n, "No open tasks assigned to you."@),
        rows@.len() > 0 ==> r@ == crate::render::mine_table(i18n.language@, i18n.catalog.entries@, rows@),
{
    if rows.len() == 0 {
        t(i18n, "No open tasks assigned to you.")
    } else {
        crate::render::render_mine_table(rows, i18n)
    }
}

// ---------------------------------------------------------------------------
// setup
// ---------------------------------------------------------------------------

/// The instance listing's header, rule and one line per instance: name, URL
/// and email padded to 20, 40 and 30 characters, then the user id (empty when
/// unknown).
pub open spec fn setup_row_line(name: Seq<char>, url: Seq<char>, email: Seq<char>, uid: Option<i64>) -> Seq<char> {
    pad_right(name, 20) + " "@ + pad_right(url, 40) + " "@ + pad_right(email, 30) + " "@
        + (match uid { Some(u) => decimal(u as int), None => Seq::empty() })
}

pub open spec fn setup_list_text(i18n: I18n, rows: Seq<(String, String, String, Option<i64>)>) -> Seq<Seq<char>> {
    if rows.len() == 0 {
        seq![tr(i18n, "No instances configured. Run: active_collab.py setup add"@)]
    } else {
        seq![setup_row_line("NAME"@, "URL"@, "EMAIL"@, None).take(93) + "USER_ID"@, crate::textutil::repeat('-', 100)]
            + rows.map_values(|r: (String, String, String, Option<i64>)| setup_row_line(r.0@, r.1@, r.2@, r.3))
    }
}

fn setup_row_exec(name: &str, url: &str, email: &str, uid: Option<i64>) -> (r: String)
    ensures
        r@ == setup_row_line(name@, url@, email@, uid),
{
    let mut s = String::new();
    push_padded(&mut s, name, 20);
    push_str(&mut s, " ");
    push_padded(&mut s, url, 40);
    push_str(&mut s, " ");
    push_padded(&mut s, email, 30);
    push_str(&mut s, " ");
    match uid {
        Some(u) => push_str(&mut s, i64_decimal(u).as_str()),
        None => {},
    }
    proof {
        reveal_strlit(" ");
        assert(s@ =~= setup_row_line(name@, url@, email@, uid));
    }
    s
}

/// The lines `setup list` prints for the configured instances (name, URL,
/// email, user id).
pub fn setup_list_lines(rows: &[(String, String, String, Option<i64>)], i18n: &I18n) -> (r: Vec<String>)
    ensures
        strs(r@) == setup_list_text(*i18n, rows@),
{
    let mut out: Vec<String> = Vec::new();
    if rows.len() == 0 {
        out.push(t(i18n, "No instances configured. Run: active_collab.py setup add"));
        proof { assert(strs(out@) =~= setup_list_text(*i18n, rows@)); }
        return out;
    }
    let mut header = String::new();
    push_padded(&mut header, "NAME", 20);
    push_str(&mut header, " ");
    push_padded(&mut header, "URL", 40);
    push_str(&mut header, " ");
    push_padded(&mut header, "EMAIL", 30);
    push_str(&mut header, " USER_ID");
    proof {
        reveal_strlit("NAME");
        reveal_strlit("URL");
        reveal_strlit("EMAIL");
        reveal_strlit(" ");
        reveal_strlit(" USER_ID");
        reveal_strlit("USER_ID");
        let full = setup_row_line("NAME"@, "URL"@, "EMAIL"@, None);
        assert(full.len() == 93);
        assert(full.take(93) =~= full);
        assert(header@ =~= full.take(93) + "USER_ID"@);
    }
    out.push(header);
    let mut rule = String::new();
    crate::textutil::push_repeat(&mut rule, '-', 100);
    out.push(rule);
    let mut i: usize = 0;
    proof {
        assert(strs(out@) =~= setup_list_text(*i18n, rows@).subrange(0, 2));
    }
    while i < rows.len()
        invariant
            rows@.len() > 0,
            i <= rows@.len(),
            strs(out@) == setup_list_text(*i18n, rows@).subrange(0, i + 2),
        decreases rows.len() - i,
    {
        let line = setup_row_exec(rows[i].0.as_str(), rows[i].1.as_str(), rows[i].2.as_str(), rows[i].3);
        let ghost before = strs(out@);
        out.push(line);
        proof {
            assert(strs(out@) =~= before.push(line@));
            assert(setup_list_text(*i18n, rows@)[i + 2] == line@);
            assert(setup_list_text(*i18n, rows@).subrange(0, i + 3) =~= setup_list_text(*i18n, rows@).subrange(0, i + 2).push(line@));
        }
        i += 1;
    }
    proof { assert(setup_list_text(*i18n, rows@).subrange(0, rows@.len() as int + 2) =~= setup_list_text(*i18n, rows@)); }
    out
}

/// What `setup remove` reports after deleting `deleted` rows for `name`: no
/// row is a usage error (status 2), else the removal notice.
pub fn setup_remove_report(deleted: usize, name: &str, i18n: &I18n) -> (r: Result<String, CliError>)
    ensures
        deleted == 0 ==> (r matches Err(e) && e.code == 2 && e.message@ == tr(*i18n, "Error: instance '"@ + name@ + "' not found."@)),
        deleted > 0 ==> (r matches Ok(m) && m@ == tr(*i18n, "Instance '"@ + name@ + "' removed."@)),
{
    if deleted == 0 {
        let mut m = owned("Error: instance '");
        push_str(&mut m, name);
        push_str(&mut m, "' not found.");
        return Err(CliError { code: 2, message: t(i18n, m.as_str()) });
    }
    let mut m = owned("Instance '");
    push_str(&mut m, name);
    push_str(&mut m, "' removed.");
    Ok(t(i18n, m.as_str()))
}

/// `setup test` for a name no instance has: a usage error (status 2).
pub fn instance_not_found_error(name: &str, i18n: &I18n) -> (r: CliError)
    ensures
        r.code == 2,
        r.message@ == tr(*i18n, "Error: instance '"@ + name@ + "' not found."@),
{
    let mut m = owned("Error: instance '");
    push_str(&mut m, name);
    push_str(&mut m, "' not found.");
    CliError { code: 2, message: t(i18n, m.as_str()) }
}

/// What `setup language` does.
#[derive(Debug, Clone)]
pub enum LanguageStep {
    /// Print this line (the language in effect).
    Show(String),
    /// Store this code, then print the line.
    Save(String, String),
}

pub open spec fn supported(code: Seq<char>) -> bool {
    code == "en"@ || code == "pt_BR"@
}

/// `setup language`: with no code, the stored language (`en` when none) is
/// shown; an unsupported code is a usage error (status 2); a supported one
/// is stored and confirmed.
pub fn setup_language(code: Option<&str>, stored: Option<&str>, i18n: &I18n) -> (r: Result<LanguageStep, CliError>)
    ensures
        match code {
            None => r matches Ok(LanguageStep::Show(m))
                && m@ == tr(*i18n, "Current language: "@ + (match stored { Some(s) => s@, None => "en"@ })),
            Some(c) => if supported(c@) {
                r matches Ok(LanguageStep::Save(k, m)) && k@ == c@ && m@ == tr(*i18n, "Language set to '"@ + c@ + "'."@)
            } else {
                r matches Err(e) && e.code == 2
                    && e.message@ == tr(*i18n, "Error: unsupported language '"@ + c@ + "'. Supported: en, pt_BR."@)
            },
        },
{
    proof {
        reveal_strlit("en");
        reveal_strlit("pt_BR");
    }
    match code {
        None => {
            let current = match stored {
                Some(s) => owned(s),
                None => owned("en"),
            };
            let mut m = owned("Current language: ");
            push_str(&mut m, current.as_str());
            Ok(LanguageStep::Show(t(i18n, m.as_str())))
        },
        Some(c) => {
            if !(str_eq(c, "en") || str_eq(c, "pt_BR")) {
                let mut m = owned("Error: unsupported language '");
                push_str(&mut m, c);
                push_str(&mut m, "'. Supported: en, pt_BR.");
                return Err(CliError { code: 2, message: t(i18n, m.as_str()) });
            }
            let mut m = owned("Language set to '");
            push_str(&mut m, c);
            push_str(&mut m, "'.");
            Ok(LanguageStep::Save(owned(c), t(i18n, m.as_str())))
        },
    }
}

/// How a connectivity check (a projects listing) was answered.
#[derive(Debug, Clone)]
pub enum ConnectivityResult {
    Status(u16),
    /// The request failed, with the error's text.
    Error(String),
}

/// `setup test`'s line for one instance, and whether it failed: OK only on a
/// 200.
pub fn setup_test_line(name: &str, result: &ConnectivityResult, i18n: &I18n) -> (r: (String, bool))
    ensures
        match result {
            ConnectivityResult::Status(st) => if *st == 200 {
                r.0@ == "  "@ + name@ + ": "@ + tr(*i18n, "OK (200)"@) && !r.1
            } else {
                r.0@ == "  "@ + name@ + ": "@ + tr(*i18n, "FAILED (HTTP "@ + decimal(*st as int) + ")"@) && r.1
            },
            ConnectivityResult::Error(e) => r.0@ == "  "@ + name@ + ": "@ + tr(*i18n, "FAILED ("@ + e@ + ")"@) && r.1,
        },
{
    let mut line = owned("  ");
    push_str(&mut line, name);
    push_str(&mut line, ": ");
    match result {
        ConnectivityResult::Status(st) => {
            if *st == 200 {
                push_str(&mut line, t(i18n, "OK (200)").as_str());
                (line, false)
            } else {
                let mut m = owned("FAILED (HTTP ");
                push_str(&mut m, i64_decimal(*st as i64).as_str());
                push_str(&mut m, ")");
                push_str(&mut line, t(i18n, m.as_str()).as_str());
                (line, true)
            }
        },
        ConnectivityResult::Error(e) => {
            let mut m = owned("FAILED (");
            push_str(&mut m, e.as_str());
            push_str(&mut m, ")");
            push_str(&mut line, t(i18n, m.as_str()).as_str());
            (line, true)
        },
    }
}

/// The line the check after `setup add` prints.
pub fn connectivity_line(result: &ConnectivityResult, i18n: &I18n) -> (r: String)
    ensures
        match result {
            ConnectivityResult::Status(st) => if *st == 200 {
                r@ == tr(*i18n, "Connectivity: OK"@)
            } else {
                r@ == tr(*i18n, "Connectivity: FAILED (HTTP "@ + decimal(*st as int) + ")"@)
            },
            ConnectivityResult::Error(e) => r@ == tr(*i18n, "Connectivity: FAILED ("@ + e@ + ")"@),
        },
{
    match result {
        ConnectivityResult::Status(st) => {
            if *st == 200 {
                t(i18n, "Connectivity: OK")
            } else {
                let mut m = owned("Connectivity: FAILED (HTTP ");
                push_str(&mut m, i64_decimal(*st as i64).as_str());
                push_str(&mut m, ")");
                t(i18n, m.as_str())
            }
        },
        ConnectivityResult::Error(e) => {
            let mut m = owned("Connectivity: FAILED (");
            push_str(&mut m, e.as_str());
            push_str(&mut m, ")");
            t(i18n, m.as_str())
        },
    }
}

/// The fields `setup add` resolved from flags or prompts.
#[derive(Debug, Clone)]
pub struct SetupAddFields {
    pub name: Option<String>,
    pub url: Option<String>,
    pub email: Option<String>,
}

/// An instance to be added: name, base URL (without trailing slashes), email
/// and password.
#[derive(Debug, Clone)]
pub struct SetupAddInput {
    pub name: String,
    pub base_url: String,
    pub email: String,
    pub password: String,
}

pub open spec fn nonempty(o: Option<String>) -> bool {
    o matches Some(s) && s@.len() > 0
}

/// `s` without its trailing `/` characters (`trim_end_matches('/')`).
pub open spec fn trim_slashes(s: Seq<char>) -> Seq<char>
    decreases s.len(),
{
    if s.len() > 0 && s.last() == '/' { trim_slashes(s.drop_last()) } else { s }
}

pub(crate) fn trim_trailing_slashes(s: &str) -> (r: String)
    ensures
        r@ == trim_slashes(s@),
{
    let cs = chars_of(s);
    let mut n = cs.len();
    proof { assert(cs@.subrange(0, n as int) =~= cs@); }
    while n > 0 && cs[n - 1] == '/'
        invariant
            n <= cs@.len(),
            cs@ == s@,
            trim_slashes(s@) == trim_slashes(cs@.subrange(0, n as int)),
        decreases n,
    {
        proof { assert(cs@.subrange(0, n as int).drop_last() =~= cs@.subrange(0, n - 1)); }
        n -= 1;
    }
    let mut out = String::new();
    let mut i: usize = 0;
    while i < n
        invariant
            n <= cs@.len(),
            i <= n,
            out@ == cs@.subrange(0, i as int),
        decreases n - i,
    {
        crate::unicode::push_char(&mut out, cs[i]);
        proof { assert(out@ =~= cs@.subrange(0, i + 1)); }
        i += 1;
    }
    out
}

/// `setup add`'s checks before any call: name, URL and email all given and
/// not empty, then a non-empty password; each missing one is a usage error
/// (status 2). The URL loses its trailing slashes.
pub fn setup_add_input(fields: SetupAddFields, password: Option<String>, i18n: &I18n) -> (r: Result<SetupAddInput, CliError>)
    ensures
        !(nonempty(fields.name) && nonempty(fields.url) && nonempty(fields.email)) ==> (r matches Err(e) && e.code == 2
            && e.message@ == tr(*i18n, "Error: --name, --url and --email are required."@)),
        (nonempty(fields.name) && nonempty(fields.url) && nonempty(fields.email)) && !nonempty(password) ==>
            (r matches Err(e) && e.code == 2 && e.message@ == tr(*i18n, "Error: password is required."@)),
        (nonempty(fields.name) && nonempty(fields.url) && nonempty(fields.email)) && nonempty(password) ==>
            (r matches Ok(inp) && fields.name == Some(inp.name) && fields.email == Some(inp.email)
                && password == Some(inp.password) && inp.base_url@ == trim_slashes(fields.url.unwrap()@)),
{
    let (name, url, email) = match (fields.name, fields.url, fields.email) {
        (Some(n), Some(u), Some(e)) => {
            if n.as_str().is_empty() || u.as_str().is_empty() || e.as_str().is_empty() {
                return Err(err2(i18n, "Error: --name, --url and --email are required."));
            }
            (n, u, e)
        },
        _ => return Err(err2(i18n, "Error: --name, --url and --email are required.")),
    };
    let password = match password {
        Some(p) => {
            if p.as_str().is_empty() {
                return Err(err2(i18n, "Error: password is required."));
            }
            p
        },
        None => return Err(err2(i18n, "Error: password is required.")),
    };
    let base_url = trim_trailing_slashes(url.as_str());
    Ok(SetupAddInput { name, base_url, email, password })
}

/// What the token exchange answered.
#[derive(Debug, Clone, PartialEq, Eq)]
pub enum TokenExchange {
    /// The answer carried a token.
    Issued(String),
    /// A 200 answer without a token (not `is_ok`, or no token text), with its
    /// `message` when it has one.
    Refused(Option<String>),
    /// Any status other than 200.
    Rejected,
}

/// What a token-exchange answer gives: a token only for a 200 answer with
/// `is_ok` true and a token string; any other 200 answer is refused with its
/// message (if any); any other status is rejected.
pub fn token_exchange_result(status: u16, is_ok: &crate::fields::JsonField, token: &crate::fields::JsonField,
    message: &crate::fields::JsonField) -> (r: TokenExchange)
    ensures
        status != 200 ==> r == TokenExchange::Rejected,
        status == 200 && crate::fields::field_bool(*is_ok) == Some(true) && crate::fields::field_str(*token) is Some
            ==> (r matches TokenExchange::Issued(tk) && crate::fields::field_str(*token) == Some(tk@)),
        status == 200 && !(crate::fields::field_bool(*is_ok) == Some(true) && crate::fields::field_str(*token) is Some)
            ==> (r matches TokenExchange::Refused(m)
            && (match m { Some(x) => crate::fields::field_str(*message) == Some(x@), None => crate::fields::field_str(*message) is None })),
{
    if status != 200 {
        return TokenExchange::Rejected;
    }
    if crate::fields::as_bool(is_ok) == Some(true) {
        if let Some(tk) = crate::fields::as_text(token) {
            return TokenExchange::Issued(tk);
        }
    }
    TokenExchange::Refused(crate::fields::as_text(message))
}

/// The token, or the error a failed exchange reports (status 1): the answer's
/// message when it has one, else "token exchange failed".
pub fn token_or_error(exchange: TokenExchange, i18n: &I18n) -> (r: Result<String, CliError>)
    ensures
        match exchange {
            TokenExchange::Issued(tk) => r matches Ok(x) && x@ == tk@,
            TokenExchange::Refused(Some(m)) => r matches Err(e) && e.code == 1 && e.message@ == tr(*i18n, "Error: "@ + m@),
            _ => r matches Err(e) && e.code == 1 && e.message@ == tr(*i18n, "Error: token exchange failed"@),
        },
{
    match exchange {
        TokenExchange::Issued(tk) => Ok(tk),
        TokenExchange::Refused(Some(m)) => {
            let mut s = owned("Error: ");
            push_str(&mut s, m.as_str());
            Err(CliError { code: 1, message: t(i18n, s.as_str()) })
        },
        _ => Err(CliError { code: 1, message: t(i18n, "Error: token exchange failed") }),
    }
}

/// The confirmation `setup add` prints once the instance is saved.
pub fn instance_saved_text(name: &str, i18n: &I18n) -> (r: String)
    ensures
        r@ == tr(*i18n, "Instance '"@ + name@ + "' saved."@),
{
    let mut m = owned("Instance '");
    push_str(&mut m, name);
    push_str(&mut m, "' saved.");
    t(i18n, m.as_str())
}

// ---------------------------------------------------------------------------
// skill
// ---------------------------------------------------------------------------

/// A registered agent skill: its name, one-line description and body.
#[derive(Debug, Clone)]
pub struct SkillEntry {
    pub name: String,
    pub description: String,
    pub body: String,
}

/// What `skill` prints and the status it exits with.
#[derive(Debug, Clone)]
pub struct SkillOutput {
    pub out: Vec<String>,
    pub err: Vec<String>,
    pub code: i32,
}

pub open spec fn skill_index(skills: Seq<SkillEntry>, n: Seq<char>) -> Option<int>
    decreases skills.len(),
{
    if skills.len() == 0 {
        None
    } else {
        match skill_index(skills.drop_last(), n) {
            Some(k) => Some(k),
            None => if skills.last().name@ == n { Some(skills.len() - 1) } else { None },
        }
    }
}

pub open spec fn skill_listing(skills: Seq<SkillEntry>) -> Seq<Seq<char>> {
    skills.map_values(|s: SkillEntry| s.name@ + seq!['\t'] + s.description@)
}

/// `skill list` lists the registry; a registered name prints that skill's
/// body; an unknown name is an error (status 2) naming the known ones; no
/// name prints the only skill, or the list when there are several.
pub open spec fn skill_result(skills: Seq<SkillEntry>, name: Option<Seq<char>>) -> (Seq<Seq<char>>, Seq<Seq<char>>, i32) {
    match name {
        Some(n) => if n == "list"@ {
            (skill_listing(skills), Seq::empty(), 0)
        } else {
            match skill_index(skills, n) {
                Some(k) => (seq![skills[k].body@], Seq::empty(), 0),
                None => (Seq::empty(), seq!["unknown skill '"@ + n + "'"@,
                    "known: "@ + join(skills.map_values(|s: SkillEntry| s.name@), ", "@)], 2),
            }
        },
        None => if skills.len() == 1 {
            (seq![skills[0].body@], Seq::empty(), 0)
        } else {
            (skill_listing(skills), Seq::empty(), 0)
        },
    }
}

fn skill_list_lines(skills: &[SkillEntry]) -> (r: Vec<String>)
    ensures
        strs(r@) == skill_listing(skills@),
{
    let mut out: Vec<String> = Vec::new();
    let mut i: usize = 0;
    while i < skills.len()
        invariant
            i <= skills@.len(),
            strs(out@) == skill_listing(skills@).subrange(0, i as int),
        decreases skills.len() - i,
    {
        let mut line = skills[i].name.clone();
        push_str(&mut line, "\t");
        push_str(&mut line, skills[i].description.as_str());
        proof { reveal_strlit("\t"); }
        let ghost before = strs(out@);
        out.push(line);
        proof {
            assert(strs(out@) =~= before.push(line@));
            assert(line@ == skill_listing(skills@)[i as int]);
            assert(skill_listing(skills@).subrange(0, i + 1) =~= skill_listing(skills@).subrange(0, i as int).push(line@));
        }
        i += 1;
    }
    proof { assert(skill_listing(skills@).subrange(0, skills@.len() as int) =~= skill_listing(skills@)); }
    out
}

/// Prints an embedded agent skill, or the registry listing.
pub fn skill_output(name: Option<&str>, skills: &[SkillEntry]) -> (r: SkillOutput)
    ensures
        (strs(r.out@), strs(r.err@), r.code) == skill_result(skills@, crate::i18n::opt_view(name)),
{
    match name {
        Some(n) => {
            proof { reveal_strlit("list"); }
            if str_eq(n, "list") {
                return SkillOutput { out: skill_list_lines(skills), err: Vec::new(), code: 0 };
            }
            let mut i: usize = 0;
            while i < skills.len()
                invariant
                    i <= skills@.len(),
                    name == Some(n),
                    n@ != "list"@,
                    skill_index(skills@.subrange(0, i as int), n@) is None,
                decreases skills.len() - i,
            {
                proof {
                    let sub = skills@.subrange(0, i + 1);
                    assert(sub.drop_last() =~= skills@.subrange(0, i as int));
                }
                if str_eq(skills[i].name.as_str(), n) {
                    proof { lemma_skill_index_prefix(skills@, n@, i + 1); }
                    let mut out: Vec<String> = Vec::new();
                    out.push(skills[i].body.clone());
                    let err: Vec<String> = Vec::new();
                    proof {
                        assert(strs(out@) =~= seq![skills@[i as int].body@]);
                        assert(strs(err@) =~= Seq::<Seq<char>>::empty());
                    }
                    return SkillOutput { out, err, code: 0 };
                }
                i += 1;
            }
            proof { assert(skills@.subrange(0, skills@.len() as int) =~= skills@); }
            let mut names: Vec<String> = Vec::new();
            let mut k: usize = 0;
            while k < skills.len()
                invariant
                    k <= skills@.len(),
                    strs(names@) == skills@.subrange(0, k as int).map_values(|s: SkillEntry| s.name@),
                decreases skills.len() - k,
            {
                let ghost before = strs(names@);
                names.push(skills[k].name.clone());
                proof {
                    assert(strs(names@) =~= before.push(skills@[k as int].name@));
                    assert(skills@.subrange(0, k + 1).map_values(|s: SkillEntry| s.name@)
                        =~= skills@.subrange(0, k as int).map_values(|s: SkillEntry| s.name@).push(skills@[k as int].name@));
                }
                k += 1;
            }
            proof { assert(skills@.subrange(0, skills@.len() as int) =~= skills@); }
            let mut l1 = owned("unknown skill '");
            push_str(&mut l1, n);
            push_str(&mut l1, "'");
            let mut l2 = owned("known: ");
            push_str(&mut l2, join_strings(&names, ", ").as_str());
            let mut err: Vec<String> = Vec::new();
            err.push(l1);
            err.push(l2);
            let out: Vec<String> = Vec::new();
            proof {
                reveal_strlit("unknown skill '");
                reveal_strlit("'");
                reveal_strlit("known: ");
                assert(strs(err@) =~= seq!["unknown skill '"@ + n@ + "'"@,
                    "known: "@ + join(skills@.map_values(|s: SkillEntry| s.name@), ", "@)]);
                assert(strs(out@) =~= Seq::<Seq<char>>::empty());
            }
            SkillOutput { out, err, code: 2 }
        },
        None => {
            if skills.len() == 1 {
                let mut out: Vec<String> = Vec::new();
                out.push(skills[0].body.clone());
                let err: Vec<String> = Vec::new();
                proof {
                    assert(strs(out@) =~= seq![skills@[0].body@]);
                    assert(strs(err@) =~= Seq::<Seq<char>>::empty());
                }
                SkillOutput { out, err, code: 0 }
            } else {
                let err: Vec<String> = Vec::new();
                proof { assert(strs(err@) =~= Seq::<Seq<char>>::empty()); }
                SkillOutput { out: skill_list_lines(skills), err, code: 0 }
            }
        },
    }
}

proof fn lemma_skill_index_prefix(v: Seq<SkillEntry>, n: Seq<char>, k: int)
    requires
        0 <= k <= v.len(),
        skill_index(v.subrange(0, k), n) is Some,
    ensures
        skill_index(v, n) == skill_index(v.subrange(0, k), n),
    decreases v.len() - k,
{
    if k < v.len() {
        assert(v.subrange(0, k + 1).drop_last() =~= v.subrange(0, k));
        lemma_skill_index_prefix(v, n, k + 1);
    } else {
        assert(v.subrange(0, k) =~= v);
    }
}

} // verus!
