//! The machine-readable task, browse and mine objects for agents: every
//! field's value, derived with the same helpers the human views use. The
//! shell writes them out as JSON.

use vstd::prelude::*;
use std::collections::HashMap;
use crate::cli_render::{TaskFields, CommentFields, str_or_empty, text_or_empty};
use crate::fields::{JsonField, field_i64, field_str, field_bool, date_field_text, ts_text, fmt_date, fmt_ts, as_i64, as_text, as_bool};
use crate::htmltext::{html_text, html_to_text};
use crate::render::Asset;
use crate::assets::{extract_assets, task_assets, assets_view};
use crate::textutil::{decimal, i64_decimal, owned};
use crate::unicode::push_str;
use crate::commands::{trim_slashes, trim_trailing_slashes};
use crate::detail::or_zero;

verus! {

broadcast use vstd::std_specs::hash::group_hash_axioms;

/// A comment for agents.
#[derive(Debug, Clone)]
pub struct CommentSummary {
    pub author: Option<String>,
    pub author_id: Option<i64>,
    pub created_on: String,
    pub body: String,
}

/// A task for agents.
#[derive(Debug, Clone)]
pub struct TaskSummary {
    /// `P/T`.
    pub reference: String,
    pub instance: String,
    pub project_id: i64,
    pub task_id: i64,
    pub name: String,
    /// `completed` or `open`.
    pub status: String,
    pub assignee: Option<String>,
    pub assignee_id: Option<i64>,
    pub project_name: String,
    pub start_on: Option<String>,
    pub due_on: Option<String>,
    pub estimate_hours: String,
    pub logged_hours: String,
    pub url: String,
    pub description: String,
    pub assets: Vec<Asset>,
    pub comments: Vec<CommentSummary>,
}

/// `P/T` for a project and task id.
pub open spec fn ref_text(project_id: i64, task_id: i64) -> Seq<char> {
    decimal(project_id as int) + "/"@ + decimal(task_id as int)
}

/// The `P/T` reference of a task.
pub fn task_ref(project_id: i64, task_id: i64) -> (r: String)
    ensures
        r@ == ref_text(project_id, task_id),
{
    let mut s = i64_decimal(project_id);
    push_str(&mut s, "/");
    push_str(&mut s, i64_decimal(task_id).as_str());
    s
}

/// The task's web address: the instance base without trailing slashes, then
/// `/projects/P/tasks/T`.
pub open spec fn task_url(base: Seq<char>, project_id: i64, task_id: i64) -> Seq<char> {
    trim_slashes(base) + "/projects/"@ + decimal(project_id as int) + "/tasks/"@ + decimal(task_id as int)
}

pub fn build_task_url(instance_base: &str, project_id: i64, task_id: i64) -> (r: String)
    ensures
        r@ == task_url(instance_base@, project_id, task_id),
{
    let mut s = trim_trailing_slashes(instance_base);
    push_str(&mut s, "/projects/");
    push_str(&mut s, i64_decimal(project_id).as_str());
    push_str(&mut s, "/tasks/");
    push_str(&mut s, i64_decimal(task_id).as_str());
    s
}

/// A date as agents see it: none when it formats to nothing.
pub open spec fn date_or_none(f: JsonField) -> Option<Seq<char>> {
    if date_field_text(f).len() == 0 { None } else { Some(date_field_text(f)) }
}

pub open spec fn opt_string(o: Option<String>) -> Option<Seq<char>> {
    match o {
        Some(s) => Some(s@),
        None => None,
    }
}

fn date_or_null(f: &JsonField) -> (r: Option<String>)
    ensures
        opt_string(r) == date_or_none(*f),
{
    let s = fmt_date(f);
    if s.as_str().is_empty() { None } else { Some(s) }
}

/// A comment's author for agents: its non-empty author name, else its author
/// id in decimal, else none.
pub open spec fn comment_author_value(c: CommentFields) -> Option<Seq<char>> {
    match field_str(c.created_by_name) {
        Some(n) => if n.len() > 0 { Some(n) } else {
            match field_i64(c.created_by_id) { Some(id) => Some(decimal(id as int)), None => None }
        },
        None => match field_i64(c.created_by_id) { Some(id) => Some(decimal(id as int)), None => None },
    }
}

/// A comment for agents: author, author id, time and body as text.
pub fn shape_comment(c: &CommentFields) -> (r: CommentSummary)
    ensures
        opt_string(r.author) == comment_author_value(*c),
        r.author_id == field_i64(c.created_by_id),
        r.created_on@ == ts_text(c.created_on),
        r.body@ == html_text(str_or_empty(c.body)),
{
    let author_id = as_i64(&c.created_by_id);
    let by_id = match author_id {
        Some(id) => Some(i64_decimal(id)),
        None => None,
    };
    let author = match as_text(&c.created_by_name) {
        Some(n) => if n.as_str().is_empty() { by_id } else { Some(n) },
        None => by_id,
    };
    CommentSummary {
        author,
        author_id,
        created_on: fmt_ts(&c.created_on),
        body: html_to_text(text_or_empty(&c.body).as_str()),
    }
}

/// The task object for agents: ids and `P/T` reference, name, status,
/// assignee (by directory name, none when unknown), project name, dates, hours,
/// web address, description as text, assets, and the comments unless left out.
pub fn task_object(task: &TaskFields, comments: &[CommentFields], user_map: &HashMap<i64, String>, instance: &str, no_comments: bool) -> (r: TaskSummary)
    ensures
        r.project_id == or_zero(field_i64(task.project_id)),
        r.task_id == or_zero(field_i64(task.id)),
        r.reference@ == ref_text(r.project_id, r.task_id),
        r.instance@ == instance@,
        r.name@ == str_or_empty(task.name),
        r.status@ == (if field_bool(task.is_completed) == Some(true) { "completed"@ } else { "open"@ }),
        r.assignee_id == field_i64(task.assignee_id),
        opt_string(r.assignee) == (match field_i64(task.assignee_id) {
            Some(id) => if user_map@.contains_key(id) { Some(user_map@[id]@) } else { None },
            None => None,
        }),
        r.project_name@ == str_or_empty(task.project_name),
        opt_string(r.start_on) == date_or_none(task.start_on),
        opt_string(r.due_on) == date_or_none(task.due_on),
        r.estimate_hours@ == task.estimate_hours@,
        r.logged_hours@ == task.logged_hours@,
        r.url@ == task_url(instance@, r.project_id, r.task_id),
        r.description@ == html_text(str_or_empty(task.body)),
        assets_view(r.assets@) == task_assets(*task, comments@, false),
        no_comments ==> r.comments@.len() == 0,
        !no_comments ==> r.comments@.len() == comments@.len() && forall|i: int| 0 <= i < comments@.len() ==> {
            &&& opt_string((#[trigger] r.comments@[i]).author) == comment_author_value(comments@[i])
            &&& r.comments@[i].author_id == field_i64(comments@[i].created_by_id)
            &&& r.comments@[i].created_on@ == ts_text(comments@[i].created_on)
            &&& r.comments@[i].body@ == html_text(str_or_empty(comments@[i].body))
        },
{
    let project_id = match as_i64(&task.project_id) { Some(v) => v, None => 0 };
    let task_id = match as_i64(&task.id) { Some(v) => v, None => 0 };
    let assignee_id = as_i64(&task.assignee_id);
    let assignee = match assignee_id {
        Some(id) => match user_map.get(&id) {
            Some(n) => Some(n.clone()),
            None => None,
        },
        None => None,
    };
    let status = if as_bool(&task.is_completed) == Some(true) { owned("completed") } else { owned("open") };
    let mut shaped: Vec<CommentSummary> = Vec::new();
    if !no_comments {
        let mut i: usize = 0;
        while i < comments.len()
            invariant
                i <= comments@.len(),
                shaped@.len() == i,
                forall|k: int| 0 <= k < i ==> {
                    &&& opt_string((#[trigger] shaped@[k]).author) == comment_author_value(comments@[k])
                    &&& shaped@[k].author_id == field_i64(comments@[k].created_by_id)
                    &&& shaped@[k].created_on@ == ts_text(comments@[k].created_on)
                    &&& shaped@[k].body@ == html_text(str_or_empty(comments@[k].body))
                },
            decreases comments.len() - i,
        {
            shaped.push(shape_comment(&comments[i]));
            i += 1;
        }
    }
    TaskSummary {
        reference: task_ref(project_id, task_id),
        instance: owned(instance),
        project_id,
        task_id,
        name: text_or_empty(&task.name),
        status,
        assignee,
        assignee_id,
        project_name: text_or_empty(&task.project_name),
        start_on: date_or_null(&task.start_on),
        due_on: date_or_null(&task.due_on),
        estimate_hours: task.estimate_hours.clone(),
        logged_hours: task.logged_hours.clone(),
        url: build_task_url(instance, project_id, task_id),
        description: html_to_text(text_or_empty(&task.body).as_str()),
        assets: extract_assets(task, comments),
        comments: shaped,
    }
}

} // verus!
