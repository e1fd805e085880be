//! What the ActiveCollab client decides from plain values: how a write
//! response is classified, which job type a time record defaults to, how a
//! plain-text comment becomes HTML, how a user is named, and which listed tasks
//! are open.

use vstd::prelude::*;
use crate::textutil::{owned, strs, join, join_strings};
use crate::unicode::{chars_of, encode_text, push_str, string_of, text_escaped};
use crate::render::{split_lines, split_newlines};
use crate::richparse::{trim_by, is_ws, trim_ws};
use crate::groups::MineTask;

verus! {

/// The status the API answers with when the stored token is invalid.
pub const HTTP_UNAUTHORIZED: u16 = 401;

/// The error a listing call reports when the server answers 401.
#[derive(Debug, Clone, Copy)]
pub struct Unauthorized;

impl Unauthorized {
    /// The error's text.
    pub fn message(&self) -> (r: String)
        ensures
            r@ == "HTTP 401 Unauthorized"@,
    {
        owned("HTTP 401 Unauthorized")
    }
}

/// How a comment write (create, update, delete) was answered.
#[derive(Debug, Clone, Copy, PartialEq, Eq, Structural)]
pub enum CommentWriteOutcome {
    /// A 2xx answer, with the `id` its body carries, if any.
    Success(Option<i64>),
    /// HTTP 401.
    Unauthorized,
    /// Any other status.
    Failed(u16),
}

/// How a time-record write was answered.
#[derive(Debug, Clone, Copy, PartialEq, Eq, Structural)]
pub enum TimeWriteOutcome {
    /// A 2xx answer, with the `id` its body carries, if any.
    Success(Option<i64>),
    /// HTTP 401.
    Unauthorized,
    /// Any other status.
    Failed(u16),
}

/// How a task write (completion or field update) was answered.
#[derive(Debug, Clone, Copy, PartialEq, Eq, Structural)]
pub enum TaskWriteOutcome {
    /// A 2xx answer, with the `id` its body carries, if any.
    Success(Option<i64>),
    /// HTTP 401.
    Unauthorized,
    /// Any other status.
    Failed(u16),
}

/// The three buckets every write response falls into.
#[derive(Debug, Clone, Copy, PartialEq, Eq, Structural)]
pub enum WriteStatus {
    Success,
    Unauthorized,
    Failed(u16),
}

pub open spec fn write_status(status: u16) -> WriteStatus {
    if 200 <= status <= 299 {
        WriteStatus::Success
    } else if status == 401 {
        WriteStatus::Unauthorized
    } else {
        WriteStatus::Failed(status)
    }
}

/// 2xx is success, 401 is an invalid token, anything else a failure.
pub fn classify_write_status(status: u16) -> (r: WriteStatus)
    ensures
        r == write_status(status),
{
    if 200 <= status && status <= 299 {
        return WriteStatus::Success;
    }
    if status == HTTP_UNAUTHORIZED {
        return WriteStatus::Unauthorized;
    }
    WriteStatus::Failed(status)
}

/// A comment-write answer: 2xx carries the body's id, 401 is `Unauthorized`,
/// any other status `Failed`.
pub fn classify_comment_write(status: u16, body_id: Option<i64>) -> (r: CommentWriteOutcome)
    ensures
        r == (match write_status(status) {
            WriteStatus::Success => CommentWriteOutcome::Success(body_id),
            WriteStatus::Unauthorized => CommentWriteOutcome::Unauthorized,
            WriteStatus::Failed(s) => CommentWriteOutcome::Failed(s),
        }),
{
    match classify_write_status(status) {
        WriteStatus::Success => CommentWriteOutcome::Success(body_id),
        WriteStatus::Unauthorized => CommentWriteOutcome::Unauthorized,
        WriteStatus::Failed(s) => CommentWriteOutcome::Failed(s),
    }
}

/// A time-record answer, classified as a comment write is.
pub fn classify_time_write(status: u16, body_id: Option<i64>) -> (r: TimeWriteOutcome)
    ensures
        r == (match write_status(status) {
            WriteStatus::Success => TimeWriteOutcome::Success(body_id),
            WriteStatus::Unauthorized => TimeWriteOutcome::Unauthorized,
            WriteStatus::Failed(s) => TimeWriteOutcome::Failed(s),
        }),
{
    match classify_write_status(status) {
        WriteStatus::Success => TimeWriteOutcome::Success(body_id),
        WriteStatus::Unauthorized => TimeWriteOutcome::Unauthorized,
        WriteStatus::Failed(s) => TimeWriteOutcome::Failed(s),
    }
}

/// A task-write answer, classified as a comment write is.
pub fn classify_task_write(status: u16, body_id: Option<i64>) -> (r: TaskWriteOutcome)
    ensures
        r == (match write_status(status) {
            WriteStatus::Success => TaskWriteOutcome::Success(body_id),
            WriteStatus::Unauthorized => TaskWriteOutcome::Unauthorized,
            WriteStatus::Failed(s) => TaskWriteOutcome::Failed(s),
        }),
{
    match classify_write_status(status) {
        WriteStatus::Success => TaskWriteOutcome::Success(body_id),
        WriteStatus::Unauthorized => TaskWriteOutcome::Unauthorized,
        WriteStatus::Failed(s) => TaskWriteOutcome::Failed(s),
    }
}

// ---------------------------------------------------------------------------
// Job types.
// ---------------------------------------------------------------------------

/// A job type of an instance (`/api/v1/job-types`).
#[derive(Debug, Clone)]
pub struct JobType {
    pub id: i64,
    pub name: String,
    pub is_default: bool,
}

/// The index of the first job type flagged default.
pub open spec fn first_default(v: Seq<JobType>) -> Option<int>
    decreases v.len(),
{
    if v.len() == 0 {
        None
    } else {
        match first_default(v.drop_last()) {
            Some(k) => Some(k),
            None => if v.last().is_default { Some(v.len() - 1) } else { None },
        }
    }
}

/// The default job type's id: the first one flagged default, else the first
/// one listed; none when the list is empty.
pub open spec fn default_job_type(v: Seq<JobType>) -> Option<i64> {
    match first_default(v) {
        Some(k) => Some(v[k].id),
        None => if v.len() > 0 { Some(v[0].id) } else { None },
    }
}

/// The id of the instance's default job type, falling back to the first entry
/// when none is flagged default.
pub fn pick_default_job_type(job_types: &[JobType]) -> (r: Option<i64>)
    ensures
        r == default_job_type(job_types@),
{
    let mut i: usize = 0;
    while i < job_types.len()
        invariant
            i <= job_types@.len(),
            first_default(job_types@.subrange(0, i as int)) is None,
        decreases job_types.len() - i,
    {
        proof {
            let sub = job_types@.subrange(0, i + 1);
            assert(sub.drop_last() =~= job_types@.subrange(0, i as int));
        }
        if job_types[i].is_default {
            proof { lemma_first_default_prefix(job_types@, i + 1); }
            return Some(job_types[i].id);
        }
        i += 1;
    }
    proof { assert(job_types@.subrange(0, job_types@.len() as int) =~= job_types@); }
    if job_types.len() > 0 {
        Some(job_types[0].id)
    } else {
        None
    }
}

proof fn lemma_first_default_prefix(v: Seq<JobType>, k: int)
    requires
        0 <= k <= v.len(),
        first_default(v.subrange(0, k)) is Some,
    ensures
        first_default(v) == first_default(v.subrange(0, k)),
    decreases v.len() - k,
{
    if k < v.len() {
        assert(v.subrange(0, k + 1).drop_last() =~= v.subrange(0, k));
        lemma_first_default_prefix(v, k + 1);
    } else {
        assert(v.subrange(0, k) =~= v);
    }
}

// ---------------------------------------------------------------------------
// Comment bodies.
// ---------------------------------------------------------------------------

/// A line is blank when nothing but white space is left after trimming.
pub open spec fn blank(l: Seq<char>) -> bool {
    trim_by(l, is_ws()).len() == 0
}

/// The paragraphs gathered so far and the lines of the one still open.
pub open spec fn para_state(lines: Seq<Seq<char>>) -> (Seq<Seq<Seq<char>>>, Seq<Seq<char>>)
    decreases lines.len(),
{
    if lines.len() == 0 {
        (Seq::empty(), Seq::empty())
    } else {
        let (ps, cur) = para_state(lines.drop_last());
        let l = lines.last();
        if blank(l) {
            if cur.len() > 0 { (ps.push(cur), Seq::empty()) } else { (ps, cur) }
        } else {
            (ps, cur.push(l))
        }
    }
}

/// Blank-line separated runs of lines.
pub open spec fn paragraphs(lines: Seq<Seq<char>>) -> Seq<Seq<Seq<char>>> {
    let (ps, cur) = para_state(lines);
    if cur.len() > 0 { ps.push(cur) } else { ps }
}

pub open spec fn paragraph_html(p: Seq<Seq<char>>) -> Seq<char> {
    "<p>"@ + join(p, "<br>"@) + "</p>"@
}

pub open spec fn concat(parts: Seq<Seq<char>>) -> Seq<char>
    decreases parts.len(),
{
    if parts.len() == 0 { Seq::empty() } else { concat(parts.drop_last()) + parts.last() }
}

/// A plain-text comment as the HTML ActiveCollab expects: the text escaped,
/// each blank-line separated paragraph a `<p>` block, and the line breaks
/// inside a paragraph `<br>`.
pub open spec fn comment_html(body: Seq<char>) -> Seq<char> {
    concat(paragraphs(split_lines(text_escaped(body))).map_values(|p: Seq<Seq<char>>| paragraph_html(p)))
}

fn is_blank_line(line: &str) -> (r: bool)
    ensures
        r == blank(line@),
{
    let cs = chars_of(line);
    let t = trim_ws(&cs);
    t.len() == 0
}

fn paragraph_html_exec(lines: &Vec<String>) -> (r: String)
    ensures
        r@ == paragraph_html(strs(lines@)),
{
    let mut s = owned("<p>");
    let inner = join_strings(lines, "<br>");
    push_str(&mut s, inner.as_str());
    push_str(&mut s, "</p>");
    s
}

/// Encodes a plain-text comment body as HTML.
pub fn encode_comment_body(body: &str) -> (r: String)
    ensures
        r@ == comment_html(body@),
{
    let escaped = encode_text(body);
    let lines = split_newlines(escaped.as_str());
    let ghost ls = strs(lines@);
    let mut out = String::new();
    let mut cur: Vec<String> = Vec::new();
    let mut i: usize = 0;
    proof {
        assert(ls.subrange(0, 0) =~= Seq::<Seq<char>>::empty());
        assert(para_state(ls.subrange(0, 0)).0.map_values(|p: Seq<Seq<char>>| paragraph_html(p)) =~= Seq::<Seq<char>>::empty());
    }
    while i < lines.len()
        invariant
            i <= lines@.len(),
            ls == strs(lines@),
            ({
                let st = para_state(ls.subrange(0, i as int));
                &&& out@ == concat(st.0.map_values(|p: Seq<Seq<char>>| paragraph_html(p)))
                &&& strs(cur@) == st.1
            }),
        decreases lines.len() - i,
    {
        let ghost pre = ls.subrange(0, i as int);
        let ghost st = para_state(pre);
        proof {
            let sub = ls.subrange(0, i + 1);
            assert(sub.drop_last() =~= pre);
            assert(sub.last() == lines@[i as int]@);
        }
        if is_blank_line(lines[i].as_str()) {
            if cur.len() > 0 {
                let p = paragraph_html_exec(&cur);
                push_str(&mut out, p.as_str());
                cur = Vec::new();
                proof {
                    let ps2 = st.0.push(st.1);
                    let m2 = ps2.map_values(|q: Seq<Seq<char>>| paragraph_html(q));
                    assert(m2.drop_last() =~= st.0.map_values(|q: Seq<Seq<char>>| paragraph_html(q)));
                    assert(strs(cur@) =~= Seq::<Seq<char>>::empty());
                }
            }
        } else {
            cur.push(lines[i].clone());
            proof { assert(strs(cur@) =~= st.1.push(lines@[i as int]@)); }
        }
        i += 1;
    }
    proof { assert(ls.subrange(0, lines@.len() as int) =~= ls); }
    if cur.len() > 0 {
        let ghost st = para_state(ls);
        let p = paragraph_html_exec(&cur);
        push_str(&mut out, p.as_str());
        proof {
            let ps2 = st.0.push(st.1);
            let m2 = ps2.map_values(|q: Seq<Seq<char>>| paragraph_html(q));
            assert(m2.drop_last() =~= st.0.map_values(|q: Seq<Seq<char>>| paragraph_html(q)));
        }
    }
    out
}

// ---------------------------------------------------------------------------
// Users.
// ---------------------------------------------------------------------------

/// The fields of a `/api/v1/users` entry that naming reads: each present when
/// the entry holds it with the expected JSON type.
#[derive(Debug, Clone)]
pub struct UserRecord {
    pub id: Option<i64>,
    pub display_name: Option<String>,
    pub first_name: Option<String>,
    pub last_name: Option<String>,
    pub email: Option<String>,
}

pub open spec fn text_or_empty(o: Option<String>) -> Seq<char> {
    match o {
        Some(s) => s@,
        None => Seq::empty(),
    }
}

/// First and last name, trimmed, the non-empty ones joined by a space.
pub open spec fn full_name(u: UserRecord) -> Seq<char> {
    let first = trim_by(text_or_empty(u.first_name), is_ws());
    let last = trim_by(text_or_empty(u.last_name), is_ws());
    if first.len() > 0 && last.len() > 0 {
        first + seq![' '] + last
    } else if first.len() > 0 {
        first
    } else {
        last
    }
}

/// A user's name: a non-empty display name, else the full name when not
/// empty, else the email (empty when absent).
pub open spec fn display_name(u: UserRecord) -> Seq<char> {
    match u.display_name {
        Some(n) if n@.len() > 0 => n@,
        _ => if full_name(u).len() > 0 { full_name(u) } else { text_or_empty(u.email) },
    }
}

fn trimmed_text(o: &Option<String>) -> (r: Vec<char>)
    ensures
        r@ == trim_by(text_or_empty(*o), is_ws()),
{
    match o {
        Some(s) => trim_ws(&chars_of(s.as_str())),
        None => {
            let v: Vec<char> = Vec::new();
            proof { assert(trim_by(Seq::<char>::empty(), is_ws()) =~= Seq::<char>::empty()); }
            v
        },
    }
}

/// The name a user is shown under.
pub fn resolve_display_name(user: &UserRecord) -> (r: String)
    ensures
        r@ == display_name(*user),
{
    if let Some(name) = &user.display_name {
        if !name.as_str().is_empty() {
            return name.clone();
        }
    }
    let first = trimmed_text(&user.first_name);
    let last = trimmed_text(&user.last_name);
    let full = if first.len() > 0 && last.len() > 0 {
        let mut s = string_of(first.as_slice());
        push_str(&mut s, " ");
        push_str(&mut s, string_of(last.as_slice()).as_str());
        proof { reveal_strlit(" "); }
        s
    } else if first.len() > 0 {
        string_of(first.as_slice())
    } else {
        string_of(last.as_slice())
    };
    if !full.as_str().is_empty() {
        return full;
    }
    match &user.email {
        Some(e) => e.clone(),
        None => String::new(),
    }
}

/// The user directory as (id, name) pairs in listing order, skipping entries
/// without an integer id.
pub open spec fn directory(users: Seq<UserRecord>) -> Seq<(i64, Seq<char>)>
    decreases users.len(),
{
    if users.len() == 0 {
        Seq::empty()
    } else {
        let rest = directory(users.drop_last());
        match users.last().id {
            Some(id) => rest.push((id, display_name(users.last()))),
            None => rest,
        }
    }
}

pub open spec fn pairs_view(v: Seq<(i64, String)>) -> Seq<(i64, Seq<char>)> {
    v.map_values(|p: (i64, String)| (p.0, p.1@))
}

/// Each listed user with an integer id, paired with the name they are shown
/// under; the map the client keeps is built from these pairs in order, a
/// later entry for the same id replacing an earlier one.
pub fn user_directory(users: &[UserRecord]) -> (r: Vec<(i64, String)>)
    ensures
        pairs_view(r@) == directory(users@),
{
    let mut out: Vec<(i64, String)> = Vec::new();
    let mut i: usize = 0;
    while i < users.len()
        invariant
            i <= users@.len(),
            pairs_view(out@) == directory(users@.subrange(0, i as int)),
        decreases users.len() - i,
    {
        proof {
            let sub = users@.subrange(0, i + 1);
            assert(sub.drop_last() =~= users@.subrange(0, i as int));
            assert(sub.last() == users@[i as int]);
        }
        if let Some(id) = users[i].id {
            let name = resolve_display_name(&users[i]);
            let ghost before = pairs_view(out@);
            out.push((id, name));
            proof { assert(pairs_view(out@) =~= before.push((id, name@))); }
        }
        i += 1;
    }
    proof { assert(users@.subrange(0, users@.len() as int) =~= users@); }
    out
}

/// The lower-case form of a string as `str::to_lowercase` gives it.
pub uninterp spec fn lowercased(s: Seq<char>) -> Seq<char>;

/// Calls `str::to_lowercase`, which std documents as the Unicode `Lowercase`
/// mapping of every character; the mapping itself is not restated here.
#[verifier::external_body]
fn to_lowercase(s: &str) -> (r: String)
    ensures
        r@ == lowercased(s@),
{
    s.to_lowercase()
}

/// The index of the first user whose email equals `email`, compared in lower
/// case (a missing email counts as empty).
pub open spec fn first_email_match(users: Seq<UserRecord>, email: Seq<char>) -> Option<int>
    decreases users.len(),
{
    if users.len() == 0 {
        None
    } else {
        match first_email_match(users.drop_last(), email) {
            Some(k) => Some(k),
            None => if lowercased(text_or_empty(users.last().email)) == lowercased(email) { Some(users.len() - 1) } else { None },
        }
    }
}

/// The user id for an email from the users listing: nothing unless the
/// status is 200; else the id of the first user with that email, compared
/// case-insensitively (none when that user has no integer id, or no user has
/// the email).
pub open spec fn user_id_for(status: u16, users: Seq<UserRecord>, email: Seq<char>) -> Option<i64> {
    if status != 200 {
        None
    } else {
        match first_email_match(users, email) {
            Some(k) => users[k].id,
            None => None,
        }
    }
}

/// The user id a setup resolves for its email.
pub fn resolve_user_id(status: u16, users: &[UserRecord], email: &str) -> (r: Option<i64>)
    ensures
        r == user_id_for(status, users@, email@),
{
    if status != 200 {
        return None;
    }
    let target = to_lowercase(email);
    let mut i: usize = 0;
    while i < users.len()
        invariant
            i <= users@.len(),
            status == 200,
            target@ == lowercased(email@),
            first_email_match(users@.subrange(0, i as int), email@) is None,
        decreases users.len() - i,
    {
        proof {
            let sub = users@.subrange(0, i + 1);
            assert(sub.drop_last() =~= users@.subrange(0, i as int));
            assert(sub.last() == users@[i as int]);
        }
        let e = match &users[i].email {
            Some(e) => to_lowercase(e.as_str()),
            None => to_lowercase(""),
        };
        proof {
            if users@[i as int].email is None {
                assert(""@ =~= Seq::<char>::empty()) by { reveal_strlit(""); }
            }
        }
        if crate::textutil::str_eq(e.as_str(), target.as_str()) {
            proof { lemma_first_email_prefix(users@, email@, i + 1); }
            return users[i].id;
        }
        i += 1;
    }
    proof { assert(users@.subrange(0, users@.len() as int) =~= users@); }
    None
}

proof fn lemma_first_email_prefix(v: Seq<UserRecord>, email: Seq<char>, k: int)
    requires
        0 <= k <= v.len(),
        first_email_match(v.subrange(0, k), email) is Some,
    ensures
        first_email_match(v, email) == first_email_match(v.subrange(0, k), email),
    decreases v.len() - k,
{
    if k < v.len() {
        assert(v.subrange(0, k + 1).drop_last() =~= v.subrange(0, k));
        lemma_first_email_prefix(v, email, k + 1);
    } else {
        assert(v.subrange(0, k) =~= v);
    }
}

// ---------------------------------------------------------------------------
// The token's origin gate.
// ---------------------------------------------------------------------------

/// A URL's origin: scheme and host in lower case, and the port (or the
/// scheme's default); none when the URL does not parse or has no host.
pub open spec fn origin(s: Seq<char>) -> Option<(Seq<char>, Seq<char>, Option<u16>)> {
    match (crate::unicode::url_scheme_of(s), crate::unicode::url_host_of(s), crate::unicode::url_port_of(s)) {
        (Some(sc), Some(h), Some(p)) => Some((lowercased(sc), lowercased(h), p)),
        _ => None,
    }
}

/// Whether the API token may go with a request to `url`: only when its
/// origin and the instance's both parse and agree in scheme and host
/// (ignoring ASCII case) and in port.
pub open spec fn token_allowed(url: Seq<char>, base: Seq<char>) -> bool {
    match (origin(url), origin(base)) {
        (Some(a), Some(b)) => crate::commands::eq_ignore_ascii_case(a.0, b.0)
            && crate::commands::eq_ignore_ascii_case(a.1, b.1) && a.2 == b.2,
        _ => false,
    }
}

fn origin_of(url: &str) -> (r: Option<(String, String, Option<u16>)>)
    ensures
        match r {
            Some(o) => origin(url@) == Some((o.0@, o.1@, o.2)),
            None => origin(url@) is None,
        },
{
    let scheme = crate::unicode::parse_url_scheme(url);
    let host = crate::unicode::parse_url_host(url);
    let port = crate::unicode::parse_url_port(url);
    match (scheme, host, port) {
        (Some(sc), Some(h), Some(p)) => Some((to_lowercase(sc.as_str()), to_lowercase(h.as_str()), p)),
        _ => None,
    }
}

/// Whether the token header goes with a request to `url` for the instance at
/// `instance_base_url`.
pub fn origin_gated_token(url: &str, instance_base_url: &str) -> (r: bool)
    ensures
        r == token_allowed(url@, instance_base_url@),
{
    let req = match origin_of(url) {
        Some(o) => o,
        None => return false,
    };
    let inst = match origin_of(instance_base_url) {
        Some(o) => o,
        None => return false,
    };
    if !crate::commands::ascii_case_eq(req.0.as_str(), inst.0.as_str()) {
        return false;
    }
    if !crate::commands::ascii_case_eq(req.1.as_str(), inst.1.as_str()) {
        return false;
    }
    req.2 == inst.2
}

/// The token never goes to another origin: when it is attached, the request
/// and the instance agree in scheme, host and port.
pub proof fn law_token_stays_on_instance_origin(url: Seq<char>, base: Seq<char>)
    requires
        token_allowed(url, base),
    ensures
        origin(url) is Some && origin(base) is Some,
        crate::commands::eq_ignore_ascii_case(origin(url).unwrap().0, origin(base).unwrap().0),
        crate::commands::eq_ignore_ascii_case(origin(url).unwrap().1, origin(base).unwrap().1),
        origin(url).unwrap().2 == origin(base).unwrap().2,
{
}

// ---------------------------------------------------------------------------
// Open tasks.
// ---------------------------------------------------------------------------

/// The listed tasks that are neither completed nor trashed, in order.
pub open spec fn open_only(ts: Seq<MineTask>) -> Seq<MineTask>
    decreases ts.len(),
{
    if ts.len() == 0 {
        Seq::empty()
    } else if !ts.last().is_completed && !ts.last().is_trashed {
        open_only(ts.drop_last()).push(ts.last())
    } else {
        open_only(ts.drop_last())
    }
}

/// What listing a user's open tasks comes to: no user id (or 0) lists
/// nothing without a call; a 401 is `Unauthorized`; another non-200 status
/// lists nothing; a 200 lists the open tasks of the answer.
pub open spec fn open_tasks_result(user_id: Option<i64>, status: u16, listed: Seq<MineTask>) -> Result<Seq<MineTask>, ()> {
    match user_id {
        Some(uid) if uid != 0 => {
            if status == 401 {
                Err(())
            } else if status != 200 {
                Ok(Seq::empty())
            } else {
                Ok(open_only(listed))
            }
        },
        _ => Ok(Seq::empty()),
    }
}

/// Whether the open-task listing needs a call: only with a user id other than 0.
pub fn needs_task_listing(user_id: Option<i64>) -> (r: bool)
    ensures
        r == (user_id matches Some(uid) && uid != 0),
{
    match user_id {
        Some(uid) => uid != 0,
        None => false,
    }
}

/// The open tasks from a listing answer (status and the tasks it holds).
pub fn open_tasks_from_listing(user_id: Option<i64>, status: u16, listed: Vec<MineTask>) -> (r: Result<Vec<MineTask>, Unauthorized>)
    ensures
        match r {
            Ok(v) => open_tasks_result(user_id, status, listed@) == Ok::<Seq<MineTask>, ()>(v@),
            Err(_) => open_tasks_result(user_id, status, listed@) is Err,
        },
{
    if !needs_task_listing(user_id) {
        return Ok(Vec::new());
    }
    if status == HTTP_UNAUTHORIZED {
        return Err(Unauthorized);
    }
    if status != 200 {
        return Ok(Vec::new());
    }
    let n = listed.len();
    let mut rest = listed;
    let mut out: Vec<MineTask> = Vec::new();
    let mut i: usize = 0;
    proof { assert(rest@ =~= listed@.subrange(0, n as int)); }
    while i < n
        invariant
            i <= n,
            n == listed@.len(),
            rest@ == listed@.subrange(i as int, n as int),
            out@ == open_only(listed@.subrange(0, i as int)),
        decreases n - i,
    {
        let ghost rest0 = rest@;
        let t = rest.remove(0);
        proof {
            assert(t == listed@[i as int]);
            assert(rest@ =~= listed@.subrange(i + 1, n as int));
            let sub = listed@.subrange(0, i + 1);
            assert(sub.drop_last() =~= listed@.subrange(0, i as int));
            assert(sub.last() == t);
        }
        if !t.is_completed && !t.is_trashed {
            out.push(t);
        }
        i += 1;
    }
    proof { assert(listed@.subrange(0, n as int) =~= listed@); }
    Ok(out)
}

} // verus!
