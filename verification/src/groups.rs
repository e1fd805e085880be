//! The browse list: open tasks grouped by project, groups ordered by project
//! name (then instance), tasks in each group by task number; and the records
//! the API lists.

use vstd::prelude::*;
use crate::app::{ProjectGroup, TaskRow, Task};
use crate::textutil::{decimal, i64_decimal, owned};
use crate::unicode::{chars_of, push_str};
use crate::render::MineTableRow;

verus! {

broadcast use vstd::seq_lib::group_to_multiset_ensures;

/// An open task as the `/users/{id}/tasks` endpoint lists it, with the name of
/// the instance it came from.
#[derive(Debug, Clone)]
pub struct MineTask {
    pub id: i64,
    pub task_number: Option<i64>,
    pub name: String,
    pub is_completed: bool,
    pub is_trashed: bool,
    pub project_id: Option<i64>,
    pub instance_name: String,
}

/// The fields of a `/users/{id}/tasks` entry the client reads (all absent
/// when the entry is not an object).
#[derive(Debug, Clone)]
pub struct MineTaskFields {
    pub id: crate::fields::JsonField,
    pub task_number: crate::fields::JsonField,
    pub name: crate::fields::JsonField,
    pub is_completed: crate::fields::JsonField,
    pub is_trashed: crate::fields::JsonField,
    pub project_id: crate::fields::JsonField,
}

impl MineTask {
    /// The task an entry describes: a missing id is 0, a missing name empty,
    /// missing flags false; the instance name is the one given.
    pub fn from_api(data: &MineTaskFields, instance_name: &str) -> (r: MineTask)
        ensures
            r.id == (match crate::fields::field_i64(data.id) { Some(v) => v, None => 0 }),
            r.task_number == crate::fields::field_i64(data.task_number),
            r.name@ == crate::cli_render::str_or_empty(data.name),
            r.is_completed == (crate::fields::field_bool(data.is_completed) == Some(true)),
            r.is_trashed == (crate::fields::field_bool(data.is_trashed) == Some(true)),
            r.project_id == crate::fields::field_i64(data.project_id),
            r.instance_name@ == instance_name@,
    {
        MineTask {
            id: match crate::fields::as_i64(&data.id) { Some(v) => v, None => 0 },
            task_number: crate::fields::as_i64(&data.task_number),
            name: crate::cli_render::text_or_empty(&data.name),
            is_completed: crate::fields::as_bool(&data.is_completed) == Some(true),
            is_trashed: crate::fields::as_bool(&data.is_trashed) == Some(true),
            project_id: crate::fields::as_i64(&data.project_id),
            instance_name: owned(instance_name),
        }
    }

    /// A copy of the task.
    pub fn clone_task(&self) -> (r: MineTask)
        ensures
            r == *self,
    {
        MineTask {
            id: self.id,
            task_number: self.task_number,
            name: self.name.clone(),
            is_completed: self.is_completed,
            is_trashed: self.is_trashed,
            project_id: self.project_id,
            instance_name: self.instance_name.clone(),
        }
    }
}

/// A project from the projects list endpoint.
#[derive(Debug, Clone)]
pub struct Project {
    pub id: i64,
    pub name: String,
    pub is_trashed: bool,
}

/// A task row as values.
pub struct RowS {
    pub task_id: i64,
    pub task_number: i64,
    pub name: Seq<char>,
    pub instance: Seq<char>,
}

/// A project group as values, with the instance it belongs to.
pub struct GroupS {
    pub project_id: i64,
    pub instance: Seq<char>,
    pub name: Seq<char>,
    pub rows: Seq<RowS>,
}

pub open spec fn row_s(r: TaskRow) -> RowS {
    RowS { task_id: r.task_id, task_number: r.task_number, name: r.name@, instance: r.instance@ }
}

pub open spec fn rows_s(v: Seq<TaskRow>) -> Seq<RowS> {
    v.map_values(|r: TaskRow| row_s(r))
}

/// A result group read as values (the instance is that of its rows).
pub open spec fn group_s(g: ProjectGroup, inst: Seq<char>) -> GroupS {
    GroupS { project_id: g.project_id, instance: inst, name: g.project_name@, rows: rows_s(g.tasks@) }
}

/// The name a project is shown under: the first matching entry of the
/// project-name map of its instance, else its id in decimal.
pub open spec fn project_label(names: Seq<(String, i64, String)>, inst: Seq<char>, pid: i64) -> Seq<char>
    decreases names.len(),
{
    if names.len() == 0 {
        decimal(pid as int)
    } else if names[0].0@ == inst && names[0].1 == pid {
        names[0].2@
    } else {
        project_label(names.drop_first(), inst, pid)
    }
}

pub open spec fn task_pid(t: MineTask) -> i64 {
    match t.project_id {
        Some(p) => p,
        None => 0,
    }
}

/// A task's row: its number when set, else its id.
pub open spec fn task_row_s(t: MineTask) -> RowS {
    RowS {
        task_id: t.id,
        task_number: match t.task_number {
            Some(n) => n,
            None => t.id,
        },
        name: t.name@,
        instance: t.instance_name@,
    }
}

/// The index of the group of `(inst, pid)`, if any.
pub open spec fn group_index(gs: Seq<GroupS>, inst: Seq<char>, pid: i64) -> Option<int>
    decreases gs.len(),
{
    if gs.len() == 0 {
        None
    } else {
        match group_index(gs.drop_last(), inst, pid) {
            Some(k) => Some(k),
            None => if gs.last().instance == inst && gs.last().project_id == pid { Some(gs.len() - 1) } else { None },
        }
    }
}

/// Tasks grouped by instance and project, groups in order of first appearance,
/// rows in input order.
pub open spec fn grouped(ts: Seq<MineTask>, names: Seq<(String, i64, String)>) -> Seq<GroupS>
    decreases ts.len(),
{
    if ts.len() == 0 {
        Seq::empty()
    } else {
        let gs = grouped(ts.drop_last(), names);
        let t = ts.last();
        let pid = task_pid(t);
        match group_index(gs, t.instance_name@, pid) {
            Some(k) => gs.update(k, GroupS { rows: gs[k].rows.push(task_row_s(t)), ..gs[k] }),
            None => gs.push(GroupS {
                project_id: pid,
                instance: t.instance_name@,
                name: project_label(names, t.instance_name@, pid),
                rows: seq![task_row_s(t)],
            }),
        }
    }
}

/// `a` precedes or equals `b` in code-point order (as `String`'s order does).
pub open spec fn lex_le(a: Seq<char>, b: Seq<char>) -> bool
    decreases a.len(),
{
    if a.len() == 0 {
        true
    } else if b.len() == 0 {
        false
    } else if a[0] != b[0] {
        (a[0] as int) < (b[0] as int)
    } else {
        lex_le(a.drop_first(), b.drop_first())
    }
}

/// Group order: by project name, then by instance.
pub open spec fn group_le(a: GroupS, b: GroupS) -> bool {
    if a.name != b.name { lex_le(a.name, b.name) } else { lex_le(a.instance, b.instance) }
}

/// `x` inserted before the first element that must come after it (stable).
pub open spec fn ins_group(s: Seq<GroupS>, x: GroupS) -> Seq<GroupS>
    decreases s.len(),
{
    if s.len() == 0 {
        seq![x]
    } else if !group_le(s[0], x) {
        seq![x] + s
    } else {
        seq![s[0]] + ins_group(s.drop_first(), x)
    }
}

/// Stable insertion sort of groups.
pub open spec fn sort_groups(s: Seq<GroupS>) -> Seq<GroupS>
    decreases s.len(),
{
    if s.len() == 0 { Seq::empty() } else { ins_group(sort_groups(s.drop_last()), s.last()) }
}

pub open spec fn ins_row(s: Seq<RowS>, x: RowS) -> Seq<RowS>
    decreases s.len(),
{
    if s.len() == 0 {
        seq![x]
    } else if s[0].task_number > x.task_number {
        seq![x] + s
    } else {
        seq![s[0]] + ins_row(s.drop_first(), x)
    }
}

/// Stable insertion sort of rows by task number.
pub open spec fn sort_rows(s: Seq<RowS>) -> Seq<RowS>
    decreases s.len(),
{
    if s.len() == 0 { Seq::empty() } else { ins_row(sort_rows(s.drop_last()), s.last()) }
}

/// The browse groups: grouped, groups sorted, each group's rows sorted.
pub open spec fn browse_groups(ts: Seq<MineTask>, names: Seq<(String, i64, String)>) -> Seq<GroupS> {
    sort_groups(grouped(ts, names)).map_values(|g: GroupS| GroupS { rows: sort_rows(g.rows), ..g })
}

// ---------------------------------------------------------------------------
// Executable grouping and sorting.
// ---------------------------------------------------------------------------

fn str_lex_le(a: &str, b: &str) -> (r: bool)
    ensures
        r == lex_le(a@, b@),
{
    let x = chars_of(a);
    let y = chars_of(b);
    let mut i: usize = 0;
    proof {
        assert(x@.skip(0) =~= x@);
        assert(y@.skip(0) =~= y@);
    }
    while i < x.len() && i < y.len() && x[i] == y[i]
        invariant
            i <= x@.len(),
            i <= y@.len(),
            lex_le(x@, y@) == lex_le(x@.skip(i as int), y@.skip(i as int)),
        decreases x.len() - i,
    {
        proof {
            assert(x@.skip(i as int).drop_first() =~= x@.skip(i + 1));
            assert(y@.skip(i as int).drop_first() =~= y@.skip(i + 1));
        }
        i += 1;
    }
    proof {
        if i < x@.len() && i < y@.len() {
            assert(x@.skip(i as int)[0] == x@[i as int]);
            assert(y@.skip(i as int)[0] == y@[i as int]);
        }
    }
    if i == x.len() {
        proof { assert(x@.skip(i as int).len() == 0); }
        true
    } else if i == y.len() {
        proof { assert(y@.skip(i as int).len() == 0); }
        false
    } else {
        x[i] < y[i]
    }
}

fn lookup_name(names: &[(String, i64, String)], inst: &str, pid: i64) -> (r: String)
    ensures
        r@ == project_label(names@, inst@, pid),
{
    let mut i: usize = 0;
    proof { assert(names@.skip(0) =~= names@); }
    while i < names.len()
        invariant
            i <= names@.len(),
            project_label(names@, inst@, pid) == project_label(names@.skip(i as int), inst@, pid),
        decreases names.len() - i,
    {
        proof {
            assert(names@.skip(i as int)[0] == names@[i as int]);
            assert(names@.skip(i as int).drop_first() =~= names@.skip(i + 1));
        }
        if names[i].1 == pid && crate::textutil::str_eq(names[i].0.as_str(), inst) {
            return names[i].2.clone();
        }
        i += 1;
    }
    i64_decimal(pid)
}

fn copy_row(r: &TaskRow) -> (o: TaskRow)
    ensures
        row_s(o) == row_s(*r),
{
    TaskRow { task_id: r.task_id, task_number: r.task_number, name: r.name.clone(), instance: r.instance.clone() }
}

/// Groups with their instances, as values.
pub open spec fn pairs_s(v: Seq<(ProjectGroup, String)>) -> Seq<GroupS> {
    v.map_values(|p: (ProjectGroup, String)| group_s(p.0, p.1@))
}

fn find_group(gs: &Vec<(ProjectGroup, String)>, inst: &str, pid: i64) -> (r: Option<usize>)
    ensures
        match r {
            Some(k) => group_index(pairs_s(gs@), inst@, pid) == Some(k as int) && k < gs@.len(),
            None => group_index(pairs_s(gs@), inst@, pid) is None,
        },
{
    let mut i: usize = 0;
    while i < gs.len()
        invariant
            i <= gs@.len(),
            group_index(pairs_s(gs@).subrange(0, i as int), inst@, pid) is None,
        decreases gs.len() - i,
    {
        proof {
            let sub = pairs_s(gs@).subrange(0, i + 1);
            assert(sub.drop_last() =~= pairs_s(gs@).subrange(0, i as int));
        }
        if gs[i].0.project_id == pid && crate::textutil::str_eq(gs[i].1.as_str(), inst) {
            proof {
                let sub = pairs_s(gs@).subrange(0, i + 1);
                assert(sub.last() == pairs_s(gs@)[i as int]);
                lemma_group_index_prefix(pairs_s(gs@), inst@, pid, i + 1);
            }
            return Some(i);
        }
        i += 1;
    }
    proof { assert(pairs_s(gs@).subrange(0, gs@.len() as int) =~= pairs_s(gs@)); }
    None
}

proof fn lemma_group_index_prefix(gs: Seq<GroupS>, inst: Seq<char>, pid: i64, k: int)
    requires
        0 <= k <= gs.len(),
        group_index(gs.subrange(0, k), inst, pid) is Some,
    ensures
        group_index(gs, inst, pid) == group_index(gs.subrange(0, k), inst, pid),
    decreases gs.len() - k,
{
    if k < gs.len() {
        let nxt = gs.subrange(0, k + 1);
        assert(nxt.drop_last() =~= gs.subrange(0, k));
        lemma_group_index_prefix(gs, inst, pid, k + 1);
    } else {
        assert(gs.subrange(0, k) =~= gs);
    }
}

fn group_tasks(tasks: &[MineTask], names: &[(String, i64, String)]) -> (r: Vec<(ProjectGroup, String)>)
    ensures
        pairs_s(r@) == grouped(tasks@, names@),
{
    let mut gs: Vec<(ProjectGroup, String)> = Vec::new();
    let mut i: usize = 0;
    while i < tasks.len()
        invariant
            i <= tasks@.len(),
            pairs_s(gs@) == grouped(tasks@.subrange(0, i as int), names@),
        decreases tasks.len() - i,
    {
        let t = &tasks[i];
        let pid = match t.project_id {
            Some(p) => p,
            None => 0,
        };
        let row = TaskRow {
            task_id: t.id,
            task_number: match t.task_number {
                Some(n) => n,
                None => t.id,
            },
            name: t.name.clone(),
            instance: t.instance_name.clone(),
        };
        let ghost before = pairs_s(gs@);
        proof {
            let sub = tasks@.subrange(0, i + 1);
            assert(sub.drop_last() =~= tasks@.subrange(0, i as int));
            assert(sub.last() == tasks@[i as int]);
            assert(row_s(row) == task_row_s(tasks@[i as int]));
        }
        match find_group(&gs, t.instance_name.as_str(), pid) {
            Some(k) => {
                let mut entry = gs.remove(k);
                let ghost g0 = group_s(entry.0, entry.1@);
                entry.0.tasks.push(row);
                proof {
                    assert(rows_s(entry.0.tasks@) =~= g0.rows.push(row_s(row)));
                }
                gs.insert(k, entry);
                proof {
                    assert(pairs_s(gs@) =~= before.update(k as int, GroupS { rows: before[k as int].rows.push(task_row_s(tasks@[i as int])), ..before[k as int] }));
                }
            },
            None => {
                let name = lookup_name(names, t.instance_name.as_str(), pid);
                let g = ProjectGroup { project_id: pid, project_name: name, tasks: vec![row] };
                let inst = t.instance_name.clone();
                proof { assert(rows_s(g.tasks@) =~= seq![row_s(row)]); }
                gs.push((g, inst));
                proof { assert(pairs_s(gs@) =~= before.push(group_s(g, inst@))); }
            },
        }
        i += 1;
    }
    proof { assert(tasks@.subrange(0, tasks@.len() as int) =~= tasks@); }
    gs
}

fn group_le_exec(a: &(ProjectGroup, String), b: &(ProjectGroup, String)) -> (r: bool)
    ensures
        r == group_le(group_s(a.0, a.1@), group_s(b.0, b.1@)),
{
    if crate::textutil::str_eq(a.0.project_name.as_str(), b.0.project_name.as_str()) {
        str_lex_le(a.1.as_str(), b.1.as_str())
    } else {
        str_lex_le(a.0.project_name.as_str(), b.0.project_name.as_str())
    }
}

proof fn lemma_ins_group_index(s: Seq<GroupS>, x: GroupS, k: int)
    requires
        0 <= k <= s.len(),
        forall|j: int| 0 <= j < k ==> group_le(#[trigger] s[j], x),
        k == s.len() || !group_le(s[k], x),
    ensures
        ins_group(s, x) == s.subrange(0, k) + seq![x] + s.subrange(k, s.len() as int),
    decreases k,
{
    if k == 0 {
        if s.len() == 0 {
            assert(ins_group(s, x) =~= seq![x]);
        }
        assert(s.subrange(0, 0) + seq![x] + s.subrange(0, s.len() as int) =~= seq![x] + s);
    } else {
        assert forall|j: int| 0 <= j < k - 1 implies group_le(#[trigger] s.drop_first()[j], x) by {
            assert(s.drop_first()[j] == s[j + 1]);
        }
        if k < s.len() {
            assert(s.drop_first()[k - 1] == s[k]);
        }
        lemma_ins_group_index(s.drop_first(), x, k - 1);
        assert(seq![s[0]] + (s.drop_first().subrange(0, k - 1) + seq![x] + s.drop_first().subrange(k - 1, s.len() - 1))
            =~= s.subrange(0, k) + seq![x] + s.subrange(k, s.len() as int));
    }
}

fn sort_group_pairs(gs: Vec<(ProjectGroup, String)>) -> (r: Vec<(ProjectGroup, String)>)
    ensures
        pairs_s(r@) == sort_groups(pairs_s(gs@)),
{
    let ghost src = pairs_s(gs@);
    let mut out: Vec<(ProjectGroup, String)> = Vec::new();
    let mut rest = gs;
    let n = rest.len();
    let mut i: usize = 0;
    proof {
        assert(pairs_s(out@) =~= sort_groups(src.subrange(0, 0)));
        assert(pairs_s(rest@) =~= src.subrange(0, n as int));
    }
    while i < n
        invariant
            i <= n,
            src.len() == n,
            pairs_s(rest@) == src.subrange(i as int, n as int),
            pairs_s(out@) == sort_groups(src.subrange(0, i as int)),
        decreases n - i,
    {
        let ghost rest0 = rest@;
        proof { assert(pairs_s(rest0).len() == n - i); }
        let x = rest.remove(0);
        proof {
            assert(pairs_s(rest0)[0] == src[i as int]);
            assert(pairs_s(rest@) =~= src.subrange(i + 1, n as int)) by {
                assert(rest@ =~= rest0.subrange(1, rest0.len() as int));
                assert forall|j: int| 0 <= j < pairs_s(rest@).len() implies pairs_s(rest@)[j] == src.subrange(i + 1, n as int)[j] by {
                    assert(pairs_s(rest0)[j + 1] == src[i + 1 + j]);
                }
            }
        }
        let ghost xs = group_s(x.0, x.1@);
        proof {
            let sub = src.subrange(0, i + 1);
            assert(sub.drop_last() =~= src.subrange(0, i as int));
            assert(sub.last() == xs);
        }
        let mut k: usize = 0;
        while k < out.len() && group_le_exec(&out[k], &x)
            invariant
                k <= out@.len(),
                forall|j: int| 0 <= j < k ==> group_le(#[trigger] pairs_s(out@)[j], xs),
                xs == group_s(x.0, x.1@),
            decreases out.len() - k,
        {
            k += 1;
        }
        let ghost before = pairs_s(out@);
        proof { lemma_ins_group_index(before, xs, k as int); }
        out.insert(k, x);
        proof {
            assert(pairs_s(out@) =~= before.subrange(0, k as int) + seq![xs] + before.subrange(k as int, before.len() as int));
        }
        i += 1;
    }
    proof { assert(src.subrange(0, n as int) =~= src); }
    out
}

proof fn lemma_ins_row_index(s: Seq<RowS>, x: RowS, k: int)
    requires
        0 <= k <= s.len(),
        forall|j: int| 0 <= j < k ==> (#[trigger] s[j]).task_number <= x.task_number,
        k == s.len() || s[k].task_number > x.task_number,
    ensures
        ins_row(s, x) == s.subrange(0, k) + seq![x] + s.subrange(k, s.len() as int),
    decreases k,
{
    if k == 0 {
        if s.len() == 0 {
            assert(ins_row(s, x) =~= seq![x]);
        }
        assert(s.subrange(0, 0) + seq![x] + s.subrange(0, s.len() as int) =~= seq![x] + s);
    } else {
        assert forall|j: int| 0 <= j < k - 1 implies (#[trigger] s.drop_first()[j]).task_number <= x.task_number by {
            assert(s.drop_first()[j] == s[j + 1]);
        }
        if k < s.len() {
            assert(s.drop_first()[k - 1] == s[k]);
        }
        lemma_ins_row_index(s.drop_first(), x, k - 1);
        assert(seq![s[0]] + (s.drop_first().subrange(0, k - 1) + seq![x] + s.drop_first().subrange(k - 1, s.len() - 1))
            =~= s.subrange(0, k) + seq![x] + s.subrange(k, s.len() as int));
    }
}

fn sort_task_rows(rows: &Vec<TaskRow>) -> (r: Vec<TaskRow>)
    ensures
        rows_s(r@) == sort_rows(rows_s(rows@)),
{
    let ghost src = rows_s(rows@);
    let mut out: Vec<TaskRow> = Vec::new();
    let mut i: usize = 0;
    proof { assert(rows_s(out@) =~= sort_rows(src.subrange(0, 0))); }
    while i < rows.len()
        invariant
            i <= rows@.len(),
            src == rows_s(rows@),
            rows_s(out@) == sort_rows(src.subrange(0, i as int)),
        decreases rows.len() - i,
    {
        let x = copy_row(&rows[i]);
        let ghost xs = row_s(x);
        proof {
            let sub = src.subrange(0, i + 1);
            assert(sub.drop_last() =~= src.subrange(0, i as int));
            assert(sub.last() == xs);
        }
        let mut k: usize = 0;
        while k < out.len() && out[k].task_number <= x.task_number
            invariant
                k <= out@.len(),
                forall|j: int| 0 <= j < k ==> (#[trigger] rows_s(out@)[j]).task_number <= xs.task_number,
                xs == row_s(x),
            decreases out.len() - k,
        {
            k += 1;
        }
        let ghost before = rows_s(out@);
        proof { lemma_ins_row_index(before, xs, k as int); }
        out.insert(k, x);
        proof {
            assert(rows_s(out@) =~= before.subrange(0, k as int) + seq![xs] + before.subrange(k as int, before.len() as int));
        }
        i += 1;
    }
    proof { assert(src.subrange(0, rows@.len() as int) =~= src); }
    out
}

/// Open tasks grouped by instance and project for the browse list: each group
/// named from the project-name map of its instance (else the project id);
/// groups ordered by project name, then instance; rows by task number, ties in
/// input order. Each result group is paired with its instance.
pub fn build_groups(tasks: &[MineTask], project_names: &[(String, i64, String)]) -> (r: Vec<(ProjectGroup, String)>)
    ensures
        pairs_s(r@) == browse_groups(tasks@, project_names@),
{
    let gs = group_tasks(tasks, project_names);
    let sorted = sort_group_pairs(gs);
    let ghost ss = pairs_s(sorted@);
    let mut out: Vec<(ProjectGroup, String)> = Vec::new();
    let mut i: usize = 0;
    let ghost want = browse_groups(tasks@, project_names@);
    while i < sorted.len()
        invariant
            i <= sorted@.len(),
            ss == pairs_s(sorted@),
            ss == sort_groups(grouped(tasks@, project_names@)),
            want == ss.map_values(|g: GroupS| GroupS { rows: sort_rows(g.rows), ..g }),
            pairs_s(out@) == want.subrange(0, i as int),
        decreases sorted.len() - i,
    {
        let rows = sort_task_rows(&sorted[i].0.tasks);
        let name = sorted[i].0.project_name.clone();
        let inst = sorted[i].1.clone();
        let g = ProjectGroup { project_id: sorted[i].0.project_id, project_name: name, tasks: rows };
        let ghost before = pairs_s(out@);
        out.push((g, inst));
        proof {
            assert(pairs_s(out@) =~= before.push(want[i as int]));
            assert(want.subrange(0, i + 1) =~= want.subrange(0, i as int).push(want[i as int]));
        }
        i += 1;
    }
    proof { assert(want.subrange(0, sorted@.len() as int) =~= want); }
    out
}

/// Every group of the browse list is in order after the one before it.
pub proof fn law_groups_sorted(tasks: Seq<MineTask>, names: Seq<(String, i64, String)>)
    ensures
        ({
            let r = browse_groups(tasks, names);
            forall|i: int| 0 <= i < r.len() - 1 ==> group_le(#[trigger] r[i], r[i + 1])
        }),
{
    let g = grouped(tasks, names);
    lemma_sort_groups_sorted(g);
    let s = sort_groups(g);
    let r = browse_groups(tasks, names);
    assert forall|i: int| 0 <= i < r.len() - 1 implies group_le(#[trigger] r[i], r[i + 1]) by {
        assert(r[i].name == s[i].name && r[i].instance == s[i].instance);
        assert(r[i + 1].name == s[i + 1].name && r[i + 1].instance == s[i + 1].instance);
    }
}

proof fn lemma_lex_total(a: Seq<char>, b: Seq<char>)
    ensures
        lex_le(a, b) || lex_le(b, a),
        lex_le(a, b) && lex_le(b, a) ==> a == b,
    decreases a.len(),
{
    if a.len() == 0 && b.len() == 0 {
        assert(a =~= b);
    } else if a.len() == 0 || b.len() == 0 {
    } else if a[0] != b[0] {
        assert((a[0] as int) != (b[0] as int));
    } else {
        lemma_lex_total(a.drop_first(), b.drop_first());
        if a.drop_first() == b.drop_first() {
            assert(a =~= seq![a[0]] + a.drop_first());
            assert(b =~= seq![b[0]] + b.drop_first());
        }
    }
}

proof fn lemma_group_total(a: GroupS, b: GroupS)
    ensures
        group_le(a, b) || group_le(b, a),
{
    lemma_lex_total(a.name, b.name);
    lemma_lex_total(a.instance, b.instance);
}

proof fn lemma_sort_groups_sorted(s: Seq<GroupS>)
    ensures
        forall|i: int| 0 <= i < sort_groups(s).len() - 1 ==> group_le(#[trigger] sort_groups(s)[i], sort_groups(s)[i + 1]),
        sort_groups(s).len() == s.len(),
    decreases s.len(),
{
    if s.len() > 0 {
        lemma_sort_groups_sorted(s.drop_last());
        lemma_ins_group_sorted(sort_groups(s.drop_last()), s.last());
    }
}

/// Inserting keeps adjacent pairs in order.
proof fn lemma_ins_group_sorted(s: Seq<GroupS>, x: GroupS)
    requires
        forall|i: int| 0 <= i < s.len() - 1 ==> group_le(#[trigger] s[i], s[i + 1]),
    ensures
        forall|i: int| 0 <= i < ins_group(s, x).len() - 1 ==> group_le(#[trigger] ins_group(s, x)[i], ins_group(s, x)[i + 1]),
        ins_group(s, x).len() == s.len() + 1,
        s.len() > 0 ==> ins_group(s, x)[0] == s[0] || ins_group(s, x)[0] == x,
    decreases s.len(),
{
    if s.len() == 0 {
    } else if !group_le(s[0], x) {
        lemma_group_total(s[0], x);
        let r = seq![x] + s;
        assert forall|i: int| 0 <= i < r.len() - 1 implies group_le(#[trigger] r[i], r[i + 1]) by {
            if i > 0 {
                assert(r[i] == s[i - 1] && r[i + 1] == s[i]);
            }
        }
    } else {
        let t = s.drop_first();
        assert forall|i: int| 0 <= i < t.len() - 1 implies group_le(#[trigger] t[i], t[i + 1]) by {
            assert(t[i] == s[i + 1] && t[i + 1] == s[i + 2]);
        }
        lemma_ins_group_sorted(t, x);
        let it = ins_group(t, x);
        let r = seq![s[0]] + it;
        assert forall|i: int| 0 <= i < r.len() - 1 implies group_le(#[trigger] r[i], r[i + 1]) by {
            if i == 0 {
                if t.len() > 0 && it[0] == t[0] {
                    assert(t[0] == s[1]);
                }
            } else {
                assert(r[i] == it[i - 1] && r[i + 1] == it[i]);
            }
        }
    }
}

// ---------------------------------------------------------------------------
// The browse groups partition the tasks.
// ---------------------------------------------------------------------------

/// `t` belongs to instance `inst` and project `pid`.
pub open spec fn task_in(t: MineTask, inst: Seq<char>, pid: i64) -> bool {
    t.instance_name@ == inst && task_pid(t) == pid
}

/// The rows of the tasks of one instance and project, in input order.
pub open spec fn rows_for(ts: Seq<MineTask>, inst: Seq<char>, pid: i64) -> Seq<RowS>
    decreases ts.len(),
{
    if ts.len() == 0 {
        Seq::empty()
    } else if task_in(ts.last(), inst, pid) {
        rows_for(ts.drop_last(), inst, pid).push(task_row_s(ts.last()))
    } else {
        rows_for(ts.drop_last(), inst, pid)
    }
}

pub open spec fn same_key(a: GroupS, b: GroupS) -> bool {
    a.instance == b.instance && a.project_id == b.project_id
}

/// No two groups share an instance and a project.
pub open spec fn keys_unique(gs: Seq<GroupS>) -> bool {
    forall|i: int, j: int| 0 <= i < j < gs.len() ==> !same_key(#[trigger] gs[i], #[trigger] gs[j])
}

pub open spec fn has_key(gs: Seq<GroupS>, inst: Seq<char>, pid: i64) -> bool {
    exists|i: int| 0 <= i < gs.len() && (#[trigger] gs[i]).instance == inst && gs[i].project_id == pid
}

proof fn lemma_group_index_spec(gs: Seq<GroupS>, inst: Seq<char>, pid: i64)
    ensures
        match group_index(gs, inst, pid) {
            Some(k) => 0 <= k < gs.len() && gs[k].instance == inst && gs[k].project_id == pid,
            None => !has_key(gs, inst, pid),
        },
    decreases gs.len(),
{
    if gs.len() > 0 {
        let g0 = gs.drop_last();
        lemma_group_index_spec(g0, inst, pid);
        if group_index(g0, inst, pid) is None {
            if has_key(gs, inst, pid) {
                let i = choose|i: int| 0 <= i < gs.len() && (#[trigger] gs[i]).instance == inst && gs[i].project_id == pid;
                if i < g0.len() {
                    assert(g0[i] == gs[i]);
                }
            }
        }
    }
}

proof fn lemma_rows_for_none(ts: Seq<MineTask>, inst: Seq<char>, pid: i64)
    requires
        forall|k: int| 0 <= k < ts.len() ==> !task_in(#[trigger] ts[k], inst, pid),
    ensures
        rows_for(ts, inst, pid) == Seq::<RowS>::empty(),
    decreases ts.len(),
{
    if ts.len() > 0 {
        let t0 = ts.drop_last();
        assert forall|k: int| 0 <= k < t0.len() implies !task_in(#[trigger] t0[k], inst, pid) by {
            assert(t0[k] == ts[k]);
        }
        lemma_rows_for_none(t0, inst, pid);
        assert(!task_in(ts[ts.len() - 1], inst, pid));
    }
}

/// Grouping in order of first appearance: keys are unique, each group holds
/// exactly the rows of its key's tasks in input order, and every task's key
/// has a group.
#[verifier::rlimit(40)]
proof fn lemma_grouped_partition(ts: Seq<MineTask>, names: Seq<(String, i64, String)>)
    ensures
        keys_unique(grouped(ts, names)),
        forall|i: int| 0 <= i < grouped(ts, names).len() ==>
            (#[trigger] grouped(ts, names)[i]).rows == rows_for(ts, grouped(ts, names)[i].instance, grouped(ts, names)[i].project_id)
            && grouped(ts, names)[i].rows.len() > 0,
        forall|k: int| 0 <= k < ts.len() ==> has_key(grouped(ts, names), (#[trigger] ts[k]).instance_name@, task_pid(ts[k])),
    decreases ts.len(),
{
    if ts.len() > 0 {
        let t0 = ts.drop_last();
        let t = ts.last();
        let inst = t.instance_name@;
        let pid = task_pid(t);
        lemma_grouped_partition(t0, names);
        let g0 = grouped(t0, names);
        let g = grouped(ts, names);
        lemma_group_index_spec(g0, inst, pid);
        assert(ts[ts.len() - 1] == t);
        assert forall|k: int| 0 <= k < t0.len() implies ts[k] == #[trigger] t0[k] by {}
        match group_index(g0, inst, pid) {
            Some(m) => {
                assert(g == g0.update(m, GroupS { rows: g0[m].rows.push(task_row_s(t)), ..g0[m] }));
                assert forall|i: int, j: int| 0 <= i < j < g.len() implies !same_key(#[trigger] g[i], #[trigger] g[j]) by {
                    assert(same_key(g[i], g[j]) == same_key(g0[i], g0[j]));
                }
                assert forall|i: int| 0 <= i < g.len() implies
                    (#[trigger] g[i]).rows == rows_for(ts, g[i].instance, g[i].project_id) && g[i].rows.len() > 0 by {
                    if i != m {
                        assert(g[i] == g0[i]);
                        assert(!same_key(g0[i], g0[m])) by {
                            if i < m { assert(!same_key(g0[i], g0[m])); } else { assert(!same_key(g0[m], g0[i])); }
                        }
                    }
                }
                assert forall|k: int| 0 <= k < ts.len() implies has_key(g, (#[trigger] ts[k]).instance_name@, task_pid(ts[k])) by {
                    if k < t0.len() {
                        assert(has_key(g0, t0[k].instance_name@, task_pid(t0[k])));
                        let w = choose|w: int| 0 <= w < g0.len() && (#[trigger] g0[w]).instance == t0[k].instance_name@ && g0[w].project_id == task_pid(t0[k]);
                        assert(g[w].instance == g0[w].instance && g[w].project_id == g0[w].project_id);
                    } else {
                        assert(g[m].instance == inst && g[m].project_id == pid);
                    }
                }
            },
            None => {
                let ng = GroupS { project_id: pid, instance: inst, name: project_label(names, inst, pid), rows: seq![task_row_s(t)] };
                assert(g == g0.push(ng));
                assert forall|k: int| 0 <= k < t0.len() implies !task_in(#[trigger] t0[k], inst, pid) by {
                    assert(has_key(g0, t0[k].instance_name@, task_pid(t0[k])));
                }
                lemma_rows_for_none(t0, inst, pid);
                assert(rows_for(ts, inst, pid) =~= seq![task_row_s(t)]);
                assert forall|i: int, j: int| 0 <= i < j < g.len() implies !same_key(#[trigger] g[i], #[trigger] g[j]) by {
                    if j == g0.len() {
                        assert(g[i] == g0[i]);
                        assert(!(g0[i].instance == inst && g0[i].project_id == pid));
                    } else {
                        assert(g[i] == g0[i] && g[j] == g0[j]);
                    }
                }
                assert forall|i: int| 0 <= i < g.len() implies
                    (#[trigger] g[i]).rows == rows_for(ts, g[i].instance, g[i].project_id) && g[i].rows.len() > 0 by {
                    if i < g0.len() {
                        assert(g[i] == g0[i]);
                        assert(!(g0[i].instance == inst && g0[i].project_id == pid));
                    }
                }
                assert forall|k: int| 0 <= k < ts.len() implies has_key(g, (#[trigger] ts[k]).instance_name@, task_pid(ts[k])) by {
                    if k < t0.len() {
                        assert(has_key(g0, t0[k].instance_name@, task_pid(t0[k])));
                        let w = choose|w: int| 0 <= w < g0.len() && (#[trigger] g0[w]).instance == t0[k].instance_name@ && g0[w].project_id == task_pid(t0[k]);
                        assert(g[w] == g0[w]);
                    } else {
                        assert(g[g0.len() as int] == ng);
                    }
                }
            },
        }
    }
}

proof fn lemma_ins_group_insert(s: Seq<GroupS>, x: GroupS)
    ensures
        exists|k: int| 0 <= k <= s.len() && ins_group(s, x) == s.insert(k, x),
    decreases s.len(),
{
    if s.len() == 0 {
        assert(ins_group(s, x) =~= s.insert(0, x));
    } else if !group_le(s[0], x) {
        assert(ins_group(s, x) =~= s.insert(0, x));
    } else {
        let t = s.drop_first();
        lemma_ins_group_insert(t, x);
        let k = choose|k: int| 0 <= k <= t.len() && ins_group(t, x) == t.insert(k, x);
        assert(ins_group(s, x) =~= s.insert(k + 1, x));
    }
}

proof fn lemma_ins_row_insert(s: Seq<RowS>, x: RowS)
    ensures
        exists|k: int| 0 <= k <= s.len() && ins_row(s, x) == s.insert(k, x),
    decreases s.len(),
{
    if s.len() == 0 {
        assert(ins_row(s, x) =~= s.insert(0, x));
    } else if s[0].task_number > x.task_number {
        assert(ins_row(s, x) =~= s.insert(0, x));
    } else {
        let t = s.drop_first();
        lemma_ins_row_insert(t, x);
        let k = choose|k: int| 0 <= k <= t.len() && ins_row(t, x) == t.insert(k, x);
        assert(ins_row(s, x) =~= s.insert(k + 1, x));
    }
}

proof fn lemma_sort_rows_multiset(s: Seq<RowS>)
    ensures
        sort_rows(s).to_multiset() == s.to_multiset(),
    decreases s.len(),
{
    if s.len() > 0 {
        lemma_sort_rows_multiset(s.drop_last());
        let p = sort_rows(s.drop_last());
        lemma_ins_row_insert(p, s.last());
        let k = choose|k: int| 0 <= k <= p.len() && ins_row(p, s.last()) == p.insert(k, s.last());
        assert(s =~= s.drop_last().push(s.last()));
    }
}

/// Sorting the groups only reorders them and keeps keys unique.
proof fn lemma_sort_groups_perm(s: Seq<GroupS>)
    requires
        keys_unique(s),
    ensures
        sort_groups(s).to_multiset() == s.to_multiset(),
        keys_unique(sort_groups(s)),
    decreases s.len(),
{
    if s.len() > 0 {
        let s0 = s.drop_last();
        let x = s.last();
        assert forall|i: int, j: int| 0 <= i < j < s0.len() implies !same_key(#[trigger] s0[i], #[trigger] s0[j]) by {
            assert(s0[i] == s[i] && s0[j] == s[j]);
        }
        lemma_sort_groups_perm(s0);
        let p = sort_groups(s0);
        lemma_ins_group_insert(p, x);
        let k = choose|k: int| 0 <= k <= p.len() && ins_group(p, x) == p.insert(k, x);
        assert(s =~= s0.push(x));
        let r = p.insert(k, x);
        assert forall|m: int| 0 <= m < p.len() implies !same_key(#[trigger] p[m], x) by {
            assert(p.contains(p[m]));
            assert(p.to_multiset().count(p[m]) > 0);
            assert(s0.contains(p[m]));
            let w = choose|w: int| 0 <= w < s0.len() && s0[w] == p[m];
            assert(s[w] == p[m]);
            assert(!same_key(s[w], s[s.len() - 1]));
        }
        assert forall|i: int, j: int| 0 <= i < j < r.len() implies !same_key(#[trigger] r[i], #[trigger] r[j]) by {
            if i < k {
                assert(r[i] == p[i]);
                if j == k {
                    assert(r[j] == x);
                } else if j < k {
                    assert(r[j] == p[j]);
                } else {
                    assert(r[j] == p[j - 1]);
                }
            } else if i == k {
                assert(r[i] == x);
                assert(r[j] == p[j - 1]);
                assert(!same_key(p[j - 1], x));
            } else {
                assert(r[i] == p[i - 1] && r[j] == p[j - 1]);
            }
        }
    }
}

/// The browse list partitions the tasks: no two groups share an instance and
/// a project; each group holds exactly the tasks of its instance and project
/// (as rows, with their multiplicities) and at least one; and every task's
/// instance and project has a group.
pub proof fn law_groups_partition(tasks: Seq<MineTask>, names: Seq<(String, i64, String)>)
    ensures
        keys_unique(browse_groups(tasks, names)),
        forall|i: int| 0 <= i < browse_groups(tasks, names).len() ==> {
            let g = #[trigger] browse_groups(tasks, names)[i];
            &&& g.rows.to_multiset() == rows_for(tasks, g.instance, g.project_id).to_multiset()
            &&& g.rows.len() > 0
        },
        forall|k: int| 0 <= k < tasks.len() ==>
            has_key(browse_groups(tasks, names), (#[trigger] tasks[k]).instance_name@, task_pid(tasks[k])),
{
    let g = grouped(tasks, names);
    lemma_grouped_partition(tasks, names);
    lemma_sort_groups_perm(g);
    let s = sort_groups(g);
    let r = browse_groups(tasks, names);
    assert(r.len() == s.len());
    assert forall|i: int| 0 <= i < r.len() implies r[i].instance == s[i].instance && r[i].project_id == s[i].project_id
        && r[i].rows == sort_rows(s[i].rows) by {}
    assert forall|i: int, j: int| 0 <= i < j < r.len() implies !same_key(#[trigger] r[i], #[trigger] r[j]) by {
        assert(!same_key(s[i], s[j]));
    }
    assert forall|i: int| 0 <= i < r.len() implies {
        let gi = #[trigger] r[i];
        &&& gi.rows.to_multiset() == rows_for(tasks, gi.instance, gi.project_id).to_multiset()
        &&& gi.rows.len() > 0
    } by {
        assert(s.contains(s[i]));
        assert(s.to_multiset().count(s[i]) > 0);
        assert(g.contains(s[i]));
        let w = choose|w: int| 0 <= w < g.len() && g[w] == s[i];
        assert(g[w].rows == rows_for(tasks, g[w].instance, g[w].project_id));
        lemma_sort_rows_multiset(s[i].rows);
        assert(sort_rows(s[i].rows).to_multiset().len() == s[i].rows.to_multiset().len());
        assert(sort_rows(s[i].rows).len() == s[i].rows.len());
    }
    assert forall|k: int| 0 <= k < tasks.len() implies
        has_key(r, (#[trigger] tasks[k]).instance_name@, task_pid(tasks[k])) by {
        assert(has_key(g, tasks[k].instance_name@, task_pid(tasks[k])));
        let w = choose|w: int| 0 <= w < g.len() && (#[trigger] g[w]).instance == tasks[k].instance_name@ && g[w].project_id == task_pid(tasks[k]);
        assert(g.contains(g[w]));
        assert(g.to_multiset().count(g[w]) > 0);
        assert(s.contains(g[w]));
        let v = choose|v: int| 0 <= v < s.len() && s[v] == g[w];
        assert(r[v].instance == s[v].instance && r[v].project_id == s[v].project_id);
    }
}

/// The rows a table of open tasks shows in the flat list: the project id, the
/// task number (as `u32`), and `instance  name`.
pub open spec fn flat_task(r: MineTableRow) -> (Seq<char>, u32, Seq<char>) {
    (decimal(r.project_id as int), r.task_number as u32, r.instance@ + seq![' ', ' '] + r.name@)
}

pub fn mine_rows_to_tasks(rows: &[MineTableRow]) -> (r: Vec<Task>)
    ensures
        r@.len() == rows@.len(),
        forall|i: int| 0 <= i < r@.len() ==> ((#[trigger] r@[i]).project@, r@[i].id, r@[i].name@) == flat_task(rows@[i]),
{
    let mut out: Vec<Task> = Vec::new();
    let mut i: usize = 0;
    while i < rows.len()
        invariant
            i <= rows@.len(),
            out@.len() == i,
            forall|k: int| 0 <= k < i ==> ((#[trigger] out@[k]).project@, out@[k].id, out@[k].name@) == flat_task(rows@[k]),
        decreases rows.len() - i,
    {
        let row = &rows[i];
        let mut name = row.instance.clone();
        push_str(&mut name, "  ");
        push_str(&mut name, row.name.as_str());
        proof { reveal_strlit("  "); assert(name@ =~= row.instance@ + seq![' ', ' '] + row.name@); }
        out.push(Task { project: i64_decimal(row.project_id), id: row.task_number as u32, name });
        i += 1;
    }
    out
}

/// A mine task as a table row: the task number when set and not zero, else
/// the id; no project id gives 0; no project name yet.
pub fn mine_task_to_row(task: &MineTask) -> (r: MineTableRow)
    ensures
        r.instance@ == task.instance_name@,
        r.project_id == task_pid(*task),
        r.task_number == (match task.task_number {
            Some(n) => if n != 0 { n } else { task.id },
            None => task.id,
        }),
        r.task_id == task.id,
        r.name@ == task.name@,
        r.due_on is None,
        r.project_name is None,
{
    let task_number = match task.task_number {
        Some(n) => if n != 0 { n } else { task.id },
        None => task.id,
    };
    MineTableRow {
        instance: task.instance_name.clone(),
        project_id: match task.project_id {
            Some(p) => p,
            None => 0,
        },
        task_number,
        task_id: task.id,
        name: task.name.clone(),
        due_on: None,
        project_name: None,
    }
}

} // verus!
