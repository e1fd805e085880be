//! The browse state machine: a stack of screens (projects, tasks, task detail)
//! driven by key and mouse messages. `update` is a pure transition from a model
//! and a message to the next model and the effects the shell must run.

use vstd::prelude::*;
use crate::render::Asset;

verus! {

/// A row in the task list.
#[derive(Debug, Clone, PartialEq)]
pub struct TaskRow {
    pub task_id: i64,
    pub task_number: i64,
    pub name: String,
    pub instance: String,
}

impl TaskRow {
    pub fn copy(&self) -> (r: TaskRow)
        ensures
            r == *self,
    {
        TaskRow {
            task_id: self.task_id,
            task_number: self.task_number,
            name: self.name.clone(),
            instance: self.instance.clone(),
        }
    }
}

/// A project and the open tasks that belong to it.
#[derive(Debug, Clone, PartialEq)]
pub struct ProjectGroup {
    pub project_id: i64,
    pub project_name: String,
    pub tasks: Vec<TaskRow>,
}

/// An effect the shell performs after a pure update.
#[derive(Debug, Clone, PartialEq)]
pub enum Cmd {
    LoadTasksByProject,
    LoadDetail { instance: String, project_id: i64, task_id: i64, refresh: bool },
    OpenAsset { instance: String, url: String },
    DownloadAsset { instance: String, url: String, name: String },
}

/// A screen on the navigation stack.
#[derive(Debug, Clone, PartialEq)]
pub enum Screen {
    Projects { groups: Vec<ProjectGroup>, selected: usize, loading: bool },
    Tasks { project_name: String, tasks: Vec<TaskRow>, selected: usize, loading: bool },
    Detail {
        instance: String,
        project_id: i64,
        task_id: i64,
        lines: Vec<String>,
        assets: Vec<Asset>,
        offset: usize,
        loading: bool,
        pending_download: bool,
    },
}

/// The browse model: the screen stack and whether the shell should exit.
#[derive(Debug)]
pub struct Model {
    pub stack: Vec<Screen>,
    pub should_quit: bool,
}

/// Every message `update` understands.
#[derive(Debug)]
pub enum Msg {
    Up,
    Down,
    ScrollUp,
    ScrollDown,
    PageUp,
    PageDown,
    Click(usize),
    Select,
    Back,
    Quit,
    Refresh,
    LoadedTasksByProject(Vec<ProjectGroup>),
    LoadedDetail(Vec<String>, Vec<Asset>),
    /// A digit key on the detail screen: open (or, when armed, download) that asset.
    AssetOpen(char),
    AssetActionResult(String),
    /// Arm or disarm download for the next digit key on the detail screen.
    TogglePendingDownload,
}

/// Lines moved by PageUp / PageDown on the detail screen.
pub const PAGE_SIZE: usize = 10;

// ---------------------------------------------------------------------------
// Abstract views of the screens, over which the transition is stated.
// ---------------------------------------------------------------------------

/// A project group with its task list as a sequence.
pub struct GroupV {
    pub project_id: i64,
    pub project_name: String,
    pub tasks: Seq<TaskRow>,
}

/// A screen with its vectors as sequences.
pub enum ScreenV {
    Projects { groups: Seq<GroupV>, selected: usize, loading: bool },
    Tasks { project_name: String, tasks: Seq<TaskRow>, selected: usize, loading: bool },
    Detail {
        instance: String,
        project_id: i64,
        task_id: i64,
        lines: Seq<String>,
        assets: Seq<Asset>,
        offset: usize,
        loading: bool,
        pending_download: bool,
    },
}

impl View for ProjectGroup {
    type V = GroupV;

    open spec fn view(&self) -> GroupV {
        GroupV { project_id: self.project_id, project_name: self.project_name, tasks: self.tasks@ }
    }
}

pub open spec fn groups_view(g: Seq<ProjectGroup>) -> Seq<GroupV> {
    g.map_values(|x: ProjectGroup| x@)
}

impl View for Screen {
    type V = ScreenV;

    open spec fn view(&self) -> ScreenV {
        match *self {
            Screen::Projects { groups, selected, loading } => ScreenV::Projects {
                groups: groups_view(groups@),
                selected,
                loading,
            },
            Screen::Tasks { project_name, tasks, selected, loading } => ScreenV::Tasks {
                project_name,
                tasks: tasks@,
                selected,
                loading,
            },
            Screen::Detail {
                instance,
                project_id,
                task_id,
                lines,
                assets,
                offset,
                loading,
                pending_download,
            } => ScreenV::Detail {
                instance,
                project_id,
                task_id,
                lines: lines@,
                assets: assets@,
                offset,
                loading,
                pending_download,
            },
        }
    }
}

pub open spec fn stack_view(v: Seq<Screen>) -> Seq<ScreenV> {
    v.map_values(|s: Screen| s@)
}

// ---------------------------------------------------------------------------
// The transition, stated over the screen views.
// ---------------------------------------------------------------------------

pub open spec fn row_count(s: ScreenV) -> nat {
    match s {
        ScreenV::Projects { groups, .. } => groups.len(),
        ScreenV::Tasks { tasks, .. } => tasks.len(),
        ScreenV::Detail { .. } => 0,
    }
}

pub open spec fn selected_of(s: ScreenV) -> usize {
    match s {
        ScreenV::Projects { selected, .. } => selected,
        ScreenV::Tasks { selected, .. } => selected,
        ScreenV::Detail { .. } => 0,
    }
}

pub open spec fn with_selected(s: ScreenV, v: usize) -> ScreenV {
    match s {
        ScreenV::Projects { groups, loading, .. } => ScreenV::Projects { groups, selected: v, loading },
        ScreenV::Tasks { project_name, tasks, loading, .. } => ScreenV::Tasks {
            project_name,
            tasks,
            selected: v,
            loading,
        },
        ScreenV::Detail { .. } => s,
    }
}

pub open spec fn loading_of(s: ScreenV) -> bool {
    match s {
        ScreenV::Projects { loading, .. } => loading,
        ScreenV::Tasks { loading, .. } => loading,
        ScreenV::Detail { loading, .. } => loading,
    }
}

pub open spec fn sat_sub(a: usize, b: usize) -> usize {
    if a >= b { (a - b) as usize } else { 0 }
}

pub open spec fn min_int(a: int, b: int) -> int {
    if a <= b { a } else { b }
}

/// The detail screen with its scroll offset replaced.
pub open spec fn with_offset(s: ScreenV, v: usize) -> ScreenV {
    match s {
        ScreenV::Detail { instance, project_id, task_id, lines, assets, loading, pending_download, .. } =>
            ScreenV::Detail {
            instance,
            project_id,
            task_id,
            lines,
            assets,
            offset: v,
            loading,
            pending_download,
        },
        _ => s,
    }
}

/// Largest scroll offset of a detail screen: its last line.
pub open spec fn max_offset(s: ScreenV) -> int {
    match s {
        ScreenV::Detail { lines, .. } => if lines.len() >= 1 { lines.len() - 1 } else { 0 },
        _ => 0,
    }
}

pub open spec fn offset_of(s: ScreenV) -> usize {
    match s {
        ScreenV::Detail { offset, .. } => offset,
        _ => 0,
    }
}

pub open spec fn move_up(s: ScreenV) -> ScreenV {
    match s {
        ScreenV::Detail { .. } => with_offset(s, sat_sub(offset_of(s), 1)),
        _ => with_selected(s, sat_sub(selected_of(s), 1)),
    }
}

pub open spec fn move_down(s: ScreenV) -> ScreenV {
    match s {
        ScreenV::Detail { .. } => with_offset(s, min_int(offset_of(s) + 1, max_offset(s)) as usize),
        _ => if row_count(s) > 0 {
            with_selected(s, min_int(selected_of(s) + 1, row_count(s) - 1) as usize)
        } else {
            s
        },
    }
}

pub open spec fn page_up(s: ScreenV) -> ScreenV {
    match s {
        ScreenV::Detail { .. } => with_offset(s, sat_sub(offset_of(s), PAGE_SIZE)),
        _ => s,
    }
}

pub open spec fn page_down(s: ScreenV) -> ScreenV {
    match s {
        ScreenV::Detail { .. } => with_offset(
            s,
            min_int(offset_of(s) + PAGE_SIZE, max_offset(s)) as usize,
        ),
        _ => s,
    }
}

pub open spec fn click(s: ScreenV, row: usize) -> ScreenV {
    match s {
        ScreenV::Detail { .. } => s,
        _ => if row_count(s) > 0 {
            with_selected(s, min_int(row as int, row_count(s) - 1) as usize)
        } else {
            s
        },
    }
}

/// The stack with its top screen replaced by `f(top)` (unchanged when empty).
pub open spec fn map_top(stack: Seq<ScreenV>, f: spec_fn(ScreenV) -> ScreenV) -> Seq<ScreenV> {
    if stack.len() == 0 {
        stack
    } else {
        stack.update(stack.len() - 1, f(stack.last()))
    }
}

/// The project id of the nearest projects screen (from the top) whose selection
/// names a group; 0 when there is none.
pub open spec fn project_id_below(stack: Seq<ScreenV>) -> i64
    decreases stack.len(),
{
    if stack.len() == 0 {
        0
    } else {
        match stack.last() {
            ScreenV::Projects { groups, selected, .. } => if selected < groups.len() {
                groups[selected as int].project_id
            } else {
                project_id_below(stack.drop_last())
            },
            _ => project_id_below(stack.drop_last()),
        }
    }
}

/// Select: open the selected project's tasks, or request the selected task's detail.
pub open spec fn select_step(stack: Seq<ScreenV>) -> (Seq<ScreenV>, Seq<Cmd>) {
    if stack.len() == 0 {
        (stack, seq![])
    } else {
        match stack.last() {
            ScreenV::Projects { groups, selected, .. } => if selected < groups.len() {
                let g = groups[selected as int];
                (
                    stack.push(
                        ScreenV::Tasks {
                            project_name: g.project_name,
                            tasks: g.tasks,
                            selected: 0,
                            loading: false,
                        },
                    ),
                    seq![],
                )
            } else {
                (stack, seq![])
            },
            ScreenV::Tasks { tasks, selected, .. } => if selected < tasks.len() {
                let row = tasks[selected as int];
                let pid = project_id_below(stack);
                (
                    stack.push(
                        ScreenV::Detail {
                            instance: row.instance,
                            project_id: pid,
                            task_id: row.task_id,
                            lines: Seq::empty(),
                            assets: Seq::empty(),
                            offset: 0,
                            loading: true,
                            pending_download: false,
                        },
                    ),
                    seq![
                        Cmd::LoadDetail {
                            instance: row.instance,
                            project_id: pid,
                            task_id: row.task_id,
                            refresh: false,
                        },
                    ],
                )
            } else {
                (stack, seq![])
            },
            ScreenV::Detail { .. } => (stack, seq![]),
        }
    }
}

pub open spec fn refresh_step(stack: Seq<ScreenV>) -> (Seq<ScreenV>, Seq<Cmd>) {
    if stack.len() == 0 || loading_of(stack.last()) {
        (stack, seq![])
    } else {
        match stack.last() {
            ScreenV::Detail { instance, project_id, task_id, lines, assets, pending_download, .. } =>
                (
                stack.update(
                    stack.len() - 1,
                    ScreenV::Detail {
                        instance,
                        project_id,
                        task_id,
                        lines,
                        assets,
                        offset: 0,
                        loading: true,
                        pending_download,
                    },
                ),
                seq![Cmd::LoadDetail { instance, project_id, task_id, refresh: true }],
            ),
            ScreenV::Projects { groups, selected, .. } => (
                stack.update(stack.len() - 1, ScreenV::Projects { groups, selected, loading: true }),
                seq![Cmd::LoadTasksByProject],
            ),
            ScreenV::Tasks { project_name, tasks, selected, .. } => (
                stack.update(
                    stack.len() - 1,
                    ScreenV::Tasks { project_name, tasks, selected, loading: true },
                ),
                seq![Cmd::LoadTasksByProject],
            ),
        }
    }
}

/// Digits 1-9 name assets 0-8; anything else names none.
pub open spec fn digit_index(c: char) -> Option<usize> {
    if '1' <= c && c <= '9' {
        Some((c as u32 - '1' as u32) as usize)
    } else {
        None
    }
}

pub open spec fn asset_cmds(stack: Seq<ScreenV>, digit: char) -> Seq<Cmd> {
    if stack.len() == 0 {
        seq![]
    } else {
        match stack.last() {
            ScreenV::Detail { instance, assets, pending_download, .. } => match digit_index(digit) {
                Some(idx) => if idx < assets.len() {
                    let a = assets[idx as int];
                    if pending_download {
                        seq![Cmd::DownloadAsset { instance, url: a.url, name: a.name }]
                    } else {
                        seq![Cmd::OpenAsset { instance, url: a.url }]
                    }
                } else {
                    seq![]
                },
                None => seq![],
            },
            _ => seq![],
        }
    }
}

pub open spec fn with_pending(s: ScreenV, v: bool) -> ScreenV {
    match s {
        ScreenV::Detail { instance, project_id, task_id, lines, assets, offset, loading, .. } =>
            ScreenV::Detail {
            instance,
            project_id,
            task_id,
            lines,
            assets,
            offset,
            loading,
            pending_download: v,
        },
        _ => s,
    }
}

pub open spec fn pending_of(s: ScreenV) -> bool {
    match s {
        ScreenV::Detail { pending_download, .. } => pending_download,
        _ => false,
    }
}

pub open spec fn loaded_groups(s: ScreenV, new_groups: Seq<GroupV>) -> ScreenV {
    match s {
        ScreenV::Projects { selected, .. } => ScreenV::Projects {
            groups: new_groups,
            selected,
            loading: false,
        },
        _ => s,
    }
}

pub open spec fn loaded_detail(s: ScreenV, new_lines: Seq<String>, new_assets: Seq<Asset>) -> ScreenV {
    match s {
        ScreenV::Detail { instance, project_id, task_id, offset, pending_download, .. } =>
            ScreenV::Detail {
            instance,
            project_id,
            task_id,
            lines: new_lines,
            assets: new_assets,
            offset,
            loading: false,
            pending_download,
        },
        _ => s,
    }
}

/// The whole transition: next stack, next quit flag, and the effects.
pub open spec fn step(stack: Seq<ScreenV>, quit: bool, msg: Msg) -> (Seq<ScreenV>, bool, Seq<Cmd>) {
    match msg {
        Msg::Up | Msg::ScrollUp => (map_top(stack, |s: ScreenV| move_up(s)), quit, seq![]),
        Msg::Down | Msg::ScrollDown => (map_top(stack, |s: ScreenV| move_down(s)), quit, seq![]),
        Msg::PageUp => (map_top(stack, |s: ScreenV| page_up(s)), quit, seq![]),
        Msg::PageDown => (map_top(stack, |s: ScreenV| page_down(s)), quit, seq![]),
        Msg::Click(row) => (map_top(stack, |s: ScreenV| click(s, row)), quit, seq![]),
        Msg::Select => {
            let r = select_step(stack);
            (r.0, quit, r.1)
        },
        Msg::Back => if stack.len() <= 1 {
            (stack, true, seq![])
        } else {
            (stack.drop_last(), quit, seq![])
        },
        Msg::Quit => (stack, true, seq![]),
        Msg::Refresh => {
            let r = refresh_step(stack);
            (r.0, quit, r.1)
        },
        Msg::LoadedTasksByProject(groups) => (
            map_top(stack, |s: ScreenV| loaded_groups(s, groups_view(groups@))),
            quit,
            seq![],
        ),
        Msg::LoadedDetail(lines, assets) => (
            map_top(stack, |s: ScreenV| loaded_detail(s, lines@, assets@)),
            quit,
            seq![],
        ),
        Msg::AssetOpen(digit) => (
            map_top(stack, |s: ScreenV| with_pending(s, false)),
            quit,
            asset_cmds(stack, digit),
        ),
        Msg::TogglePendingDownload => (
            map_top(stack, |s: ScreenV| with_pending(s, !pending_of(s))),
            quit,
            seq![],
        ),
        Msg::AssetActionResult(_) => (stack, quit, seq![]),
    }
}


// ---------------------------------------------------------------------------
// Executable transition.
// ---------------------------------------------------------------------------

pub proof fn lemma_replace_top(old: Seq<Screen>, s: Screen)
    requires
        old.len() > 0,
    ensures
        stack_view(old.drop_last().push(s)) == stack_view(old).update(old.len() - 1, s@),
        stack_view(old).last() == old.last()@,
{
    assert(stack_view(old.drop_last().push(s)) =~= stack_view(old).update(old.len() - 1, s@));
}

pub proof fn lemma_push_view(old: Seq<Screen>, s: Screen)
    ensures
        stack_view(old.push(s)) == stack_view(old).push(s@),
{
    assert(stack_view(old.push(s)) =~= stack_view(old).push(s@));
}

pub proof fn lemma_drop_view(old: Seq<Screen>)
    requires
        old.len() > 0,
    ensures
        stack_view(old.drop_last()) == stack_view(old).drop_last(),
{
    assert(stack_view(old.drop_last()) =~= stack_view(old).drop_last());
}

impl Screen {
    fn row_count(&self) -> (r: usize)
        ensures
            r == row_count(self@),
    {
        match self {
            Screen::Projects { groups, .. } => groups.len(),
            Screen::Tasks { tasks, .. } => tasks.len(),
            Screen::Detail { .. } => 0,
        }
    }

    fn selected(&self) -> (r: usize)
        ensures
            r == selected_of(self@),
    {
        match self {
            Screen::Projects { selected, .. } => *selected,
            Screen::Tasks { selected, .. } => *selected,
            Screen::Detail { .. } => 0,
        }
    }

    fn set_selected(self, value: usize) -> (r: Screen)
        ensures
            r@ == with_selected(self@, value),
    {
        match self {
            Screen::Projects { groups, loading, .. } => Screen::Projects { groups, selected: value, loading },
            Screen::Tasks { project_name, tasks, loading, .. } => Screen::Tasks {
                project_name,
                tasks,
                selected: value,
                loading,
            },
            Screen::Detail { .. } => self,
        }
    }

    fn is_loading(&self) -> (r: bool)
        ensures
            r == loading_of(self@),
    {
        match self {
            Screen::Projects { loading, .. } => *loading,
            Screen::Tasks { loading, .. } => *loading,
            Screen::Detail { loading, .. } => *loading,
        }
    }

    fn set_offset(self, value: usize) -> (r: Screen)
        ensures
            r@ == with_offset(self@, value),
    {
        match self {
            Screen::Detail { instance, project_id, task_id, lines, assets, loading, pending_download, .. } =>
                Screen::Detail {
                instance,
                project_id,
                task_id,
                lines,
                assets,
                offset: value,
                loading,
                pending_download,
            },
            _ => self,
        }
    }

    fn max_offset(&self) -> (r: usize)
        ensures
            r == max_offset(self@),
    {
        match self {
            Screen::Detail { lines, .. } => if lines.len() >= 1 { lines.len() - 1 } else { 0 },
            _ => 0,
        }
    }

    fn offset(&self) -> (r: usize)
        ensures
            r == offset_of(self@),
    {
        match self {
            Screen::Detail { offset, .. } => *offset,
            _ => 0,
        }
    }

    fn is_detail(&self) -> (r: bool)
        ensures
            r == (self@ is Detail),
    {
        match self {
            Screen::Detail { .. } => true,
            _ => false,
        }
    }

    fn set_pending(self, v: bool) -> (r: Screen)
        ensures
            r@ == with_pending(self@, v),
    {
        match self {
            Screen::Detail { instance, project_id, task_id, lines, assets, offset, loading, .. } =>
                Screen::Detail {
                instance,
                project_id,
                task_id,
                lines,
                assets,
                offset,
                loading,
                pending_download: v,
            },
            _ => self,
        }
    }

    fn pending(&self) -> (r: bool)
        ensures
            r == pending_of(self@),
    {
        match self {
            Screen::Detail { pending_download, .. } => *pending_download,
            _ => false,
        }
    }
}

fn sat_sub_exec(a: usize, b: usize) -> (r: usize)
    ensures
        r == sat_sub(a, b),
{
    if a >= b { a - b } else { 0 }
}

/// `min(a + b, cap)` computed without overflow (`cap` bounds the result).
fn add_capped(a: usize, b: usize, cap: usize) -> (r: usize)
    ensures
        r as int == min_int(a + b, cap as int),
{
    if a > cap || b > cap - a { cap } else { a + b }
}

fn move_up_exec(s: Screen) -> (r: Screen)
    ensures
        r@ == move_up(s@),
{
    if s.is_detail() {
        let o = s.offset();
        s.set_offset(sat_sub_exec(o, 1))
    } else {
        let sel = s.selected();
        s.set_selected(sat_sub_exec(sel, 1))
    }
}

fn move_down_exec(s: Screen) -> (r: Screen)
    ensures
        r@ == move_down(s@),
{
    if s.is_detail() {
        let o = s.offset();
        let m = s.max_offset();
        s.set_offset(add_capped(o, 1, m))
    } else {
        let count = s.row_count();
        if count > 0 {
            let sel = s.selected();
            s.set_selected(add_capped(sel, 1, count - 1))
        } else {
            s
        }
    }
}

fn page_up_exec(s: Screen) -> (r: Screen)
    ensures
        r@ == page_up(s@),
{
    if s.is_detail() {
        let o = s.offset();
        s.set_offset(sat_sub_exec(o, PAGE_SIZE))
    } else {
        s
    }
}

fn page_down_exec(s: Screen) -> (r: Screen)
    ensures
        r@ == page_down(s@),
{
    if s.is_detail() {
        let o = s.offset();
        let m = s.max_offset();
        s.set_offset(add_capped(o, PAGE_SIZE, m))
    } else {
        s
    }
}

fn click_exec(s: Screen, row: usize) -> (r: Screen)
    ensures
        r@ == click(s@, row),
{
    if s.is_detail() {
        s
    } else {
        let count = s.row_count();
        if count > 0 {
            let v = if row <= count - 1 { row } else { count - 1 };
            s.set_selected(v)
        } else {
            s
        }
    }
}

fn loaded_groups_exec(s: Screen, new_groups: Vec<ProjectGroup>) -> (r: Screen)
    ensures
        r@ == loaded_groups(s@, groups_view(new_groups@)),
{
    match s {
        Screen::Projects { selected, .. } => Screen::Projects { groups: new_groups, selected, loading: false },
        _ => s,
    }
}

fn loaded_detail_exec(s: Screen, new_lines: Vec<String>, new_assets: Vec<Asset>) -> (r: Screen)
    ensures
        r@ == loaded_detail(s@, new_lines@, new_assets@),
{
    match s {
        Screen::Detail { instance, project_id, task_id, offset, pending_download, .. } => Screen::Detail {
            instance,
            project_id,
            task_id,
            lines: new_lines,
            assets: new_assets,
            offset,
            loading: false,
            pending_download,
        },
        _ => s,
    }
}

/// Digit keys 1-9 on the detail screen name assets 0-8.
fn digit_to_asset_index(c: char) -> (r: Option<usize>)
    ensures
        r == digit_index(c),
{
    if '1' <= c && c <= '9' {
        Some((c as u32 - '1' as u32) as usize)
    } else {
        None
    }
}

fn copy_rows(v: &Vec<TaskRow>) -> (r: Vec<TaskRow>)
    ensures
        r@ == v@,
{
    let mut out: Vec<TaskRow> = Vec::new();
    let mut i: usize = 0;
    while i < v.len()
        invariant
            i <= v@.len(),
            out@ == v@.subrange(0, i as int),
        decreases v.len() - i,
    {
        out.push(v[i].copy());
        i += 1;
        proof {
            assert(out@ =~= v@.subrange(0, i as int));
        }
    }
    proof {
        assert(v@.subrange(0, v@.len() as int) =~= v@);
    }
    out
}

/// What Select does on the top screen.
enum SelectAction {
    PushTasks { project_name: String, tasks: Vec<TaskRow> },
    PushDetail { instance: String, project_id: i64, task_id: i64 },
}

/// Walks the stack from the top to find the selected project's id.
fn resolve_project_id(stack: &Vec<Screen>) -> (r: i64)
    ensures
        r == project_id_below(stack_view(stack@)),
{
    let mut i: usize = stack.len();
    proof {
        assert(stack@.subrange(0, stack@.len() as int) =~= stack@);
    }
    while i > 0
        invariant
            i <= stack@.len(),
            project_id_below(stack_view(stack@)) == project_id_below(
                stack_view(stack@.subrange(0, i as int)),
            ),
        decreases i,
    {
        proof {
            let sub = stack@.subrange(0, i as int);
            assert(stack_view(sub).last() == sub.last()@);
            assert(stack_view(sub).drop_last() =~= stack_view(stack@.subrange(0, i - 1)));
        }
        match &stack[i - 1] {
            Screen::Projects { groups, selected, .. } => {
                if *selected < groups.len() {
                    return groups[*selected].project_id;
                }
            },
            _ => {},
        }
        i -= 1;
    }
    0
}

fn select_action(stack: &Vec<Screen>) -> (r: Option<SelectAction>)
    ensures
        stack@.len() > 0 ==> match stack@.last()@ {
            ScreenV::Projects { groups, selected, .. } => if selected < groups.len() {
                r == Some(
                    SelectAction::PushTasks {
                        project_name: groups[selected as int].project_name,
                        tasks: r->Some_0->tasks,
                    },
                ) && r->Some_0->tasks@ == groups[selected as int].tasks
            } else {
                r is None
            },
            ScreenV::Tasks { tasks, selected, .. } => if selected < tasks.len() {
                r == Some(
                    SelectAction::PushDetail {
                        instance: tasks[selected as int].instance,
                        project_id: project_id_below(stack_view(stack@)),
                        task_id: tasks[selected as int].task_id,
                    },
                )
            } else {
                r is None
            },
            ScreenV::Detail { .. } => r is None,
        },
        stack@.len() == 0 ==> r is None,
{
    if stack.len() == 0 {
        return None;
    }
    let n = stack.len();
    match &stack[n - 1] {
        Screen::Projects { groups, selected, .. } => {
            if *selected < groups.len() {
                let g = &groups[*selected];
                Some(SelectAction::PushTasks { project_name: g.project_name.clone(), tasks: copy_rows(&g.tasks) })
            } else {
                None
            }
        },
        Screen::Tasks { tasks, selected, .. } => {
            if *selected < tasks.len() {
                let row = &tasks[*selected];
                let project_id = resolve_project_id(stack);
                Some(SelectAction::PushDetail { instance: row.instance.clone(), project_id, task_id: row.task_id })
            } else {
                None
            }
        },
        Screen::Detail { .. } => None,
    }
}

impl Model {
    /// The initial browse model: one projects screen, loading.
    pub fn browse() -> (r: Model)
        ensures
            r.stack@.len() == 1,
            r.stack@[0]@ == (ScreenV::Projects { groups: Seq::empty(), selected: 0, loading: true }),
            !r.should_quit,
    {
        let mut stack: Vec<Screen> = Vec::new();
        stack.push(Screen::Projects { groups: Vec::new(), selected: 0, loading: true });
        proof {
            assert(groups_view(Seq::<ProjectGroup>::empty()) =~= Seq::<GroupV>::empty());
        }
        Model { stack, should_quit: false }
    }
}

/// The browse model at start-up together with the first effect: load the tasks.
pub fn init_browse() -> (r: (Model, Vec<Cmd>))
    ensures
        r.0.stack@.len() == 1,
        r.0.stack@[0]@ == (ScreenV::Projects { groups: Seq::empty(), selected: 0, loading: true }),
        !r.0.should_quit,
        r.1@ == seq![Cmd::LoadTasksByProject],
{
    let model = Model::browse();
    let mut cmds: Vec<Cmd> = Vec::new();
    cmds.push(Cmd::LoadTasksByProject);
    (model, cmds)
}

/// Replace the top screen by `f(top)`, given the exec counterpart of `f`.
fn apply_top_up(stack: &mut Vec<Screen>)
    ensures
        stack_view(final(stack)@) == map_top(stack_view(old(stack)@), |s: ScreenV| move_up(s)),
{
    let ghost old_stack = stack@;
    match stack.pop() {
        None => {},
        Some(top) => {
            let t = move_up_exec(top);
            stack.push(t);
            proof { lemma_replace_top(old_stack, t); }
        },
    }
}

fn apply_top_down(stack: &mut Vec<Screen>)
    ensures
        stack_view(final(stack)@) == map_top(stack_view(old(stack)@), |s: ScreenV| move_down(s)),
{
    let ghost old_stack = stack@;
    match stack.pop() {
        None => {},
        Some(top) => {
            let t = move_down_exec(top);
            stack.push(t);
            proof { lemma_replace_top(old_stack, t); }
        },
    }
}

fn apply_top_page_up(stack: &mut Vec<Screen>)
    ensures
        stack_view(final(stack)@) == map_top(stack_view(old(stack)@), |s: ScreenV| page_up(s)),
{
    let ghost old_stack = stack@;
    match stack.pop() {
        None => {},
        Some(top) => {
            let t = page_up_exec(top);
            stack.push(t);
            proof { lemma_replace_top(old_stack, t); }
        },
    }
}

fn apply_top_page_down(stack: &mut Vec<Screen>)
    ensures
        stack_view(final(stack)@) == map_top(stack_view(old(stack)@), |s: ScreenV| page_down(s)),
{
    let ghost old_stack = stack@;
    match stack.pop() {
        None => {},
        Some(top) => {
            let t = page_down_exec(top);
            stack.push(t);
            proof { lemma_replace_top(old_stack, t); }
        },
    }
}

fn apply_top_click(stack: &mut Vec<Screen>, row: usize)
    ensures
        stack_view(final(stack)@) == map_top(stack_view(old(stack)@), |s: ScreenV| click(s, row)),
{
    let ghost old_stack = stack@;
    match stack.pop() {
        None => {},
        Some(top) => {
            let t = click_exec(top, row);
            stack.push(t);
            proof { lemma_replace_top(old_stack, t); }
        },
    }
}

fn apply_top_pending(stack: &mut Vec<Screen>, toggle: bool)
    ensures
        toggle ==> stack_view(final(stack)@) == map_top(
            stack_view(old(stack)@),
            |s: ScreenV| with_pending(s, !pending_of(s)),
        ),
        !toggle ==> stack_view(final(stack)@) == map_top(
            stack_view(old(stack)@),
            |s: ScreenV| with_pending(s, false),
        ),
{
    let ghost old_stack = stack@;
    match stack.pop() {
        None => {},
        Some(top) => {
            let v = if toggle { !top.pending() } else { false };
            let t = top.set_pending(v);
            stack.push(t);
            proof { lemma_replace_top(old_stack, t); }
        },
    }
}

fn asset_cmds_exec(stack: &Vec<Screen>, digit: char) -> (r: Vec<Cmd>)
    ensures
        r@ == asset_cmds(stack_view(stack@), digit),
{
    let mut cmds: Vec<Cmd> = Vec::new();
    if stack.len() == 0 {
        return cmds;
    }
    proof {
        assert(stack_view(stack@).last() == stack@.last()@);
    }
    let n = stack.len();
    match &stack[n - 1] {
        Screen::Detail { instance, assets, pending_download, .. } => {
            match digit_to_asset_index(digit) {
                Some(idx) => {
                    if idx < assets.len() {
                        let a = &assets[idx];
                        if *pending_download {
                            cmds.push(Cmd::DownloadAsset { instance: instance.clone(), url: a.url.clone(), name: a.name.clone() });
                        } else {
                            cmds.push(Cmd::OpenAsset { instance: instance.clone(), url: a.url.clone() });
                        }
                    }
                },
                None => {},
            }
        },
        _ => {},
    }
    cmds
}

fn refresh_exec(stack: &mut Vec<Screen>) -> (r: Vec<Cmd>)
    ensures
        stack_view(final(stack)@) == refresh_step(stack_view(old(stack)@)).0,
        r@ == refresh_step(stack_view(old(stack)@)).1,
{
    let ghost old_stack = stack@;
    let mut cmds: Vec<Cmd> = Vec::new();
    if stack.len() == 0 {
        return cmds;
    }
    proof {
        assert(stack_view(old_stack).last() == old_stack.last()@);
    }
    let n = stack.len();
    if stack[n - 1].is_loading() {
        return cmds;
    }
    let top = stack.pop().unwrap();
    let t = match top {
        Screen::Detail { instance, project_id, task_id, lines, assets, pending_download, .. } => {
            cmds.push(Cmd::LoadDetail { instance: instance.clone(), project_id, task_id, refresh: true });
            Screen::Detail { instance, project_id, task_id, lines, assets, offset: 0, loading: true, pending_download }
        },
        Screen::Projects { groups, selected, .. } => {
            cmds.push(Cmd::LoadTasksByProject);
            Screen::Projects { groups, selected, loading: true }
        },
        Screen::Tasks { project_name, tasks, selected, .. } => {
            cmds.push(Cmd::LoadTasksByProject);
            Screen::Tasks { project_name, tasks, selected, loading: true }
        },
    };
    stack.push(t);
    proof { lemma_replace_top(old_stack, t); }
    cmds
}

/// The pure update: the next model and the effects the shell must run.
pub fn update(model: Model, msg: Msg) -> (r: (Model, Vec<Cmd>))
    ensures
        ({
            let s = step(stack_view(model.stack@), model.should_quit, msg);
            &&& stack_view(r.0.stack@) == s.0
            &&& r.0.should_quit == s.1
            &&& r.1@ == s.2
        }),
{
    let mut model = model;
    let ghost old_stack = model.stack@;
    let mut cmds: Vec<Cmd> = Vec::new();
    match msg {
        Msg::Up | Msg::ScrollUp => apply_top_up(&mut model.stack),
        Msg::Down | Msg::ScrollDown => apply_top_down(&mut model.stack),
        Msg::PageUp => apply_top_page_up(&mut model.stack),
        Msg::PageDown => apply_top_page_down(&mut model.stack),
        Msg::Click(row) => apply_top_click(&mut model.stack, row),
        Msg::Select => {
            proof {
                if old_stack.len() > 0 {
                    assert(stack_view(old_stack).last() == old_stack.last()@);
                }
            }
            match select_action(&model.stack) {
                Some(SelectAction::PushTasks { project_name, tasks }) => {
                    let t = Screen::Tasks { project_name, tasks, selected: 0, loading: false };
                    model.stack.push(t);
                    proof { lemma_push_view(old_stack, t); }
                },
                Some(SelectAction::PushDetail { instance, project_id, task_id }) => {
                    cmds.push(Cmd::LoadDetail { instance: instance.clone(), project_id, task_id, refresh: false });
                    let t = Screen::Detail {
                        instance,
                        project_id,
                        task_id,
                        lines: Vec::new(),
                        assets: Vec::new(),
                        offset: 0,
                        loading: true,
                        pending_download: false,
                    };
                    model.stack.push(t);
                    proof {
                        lemma_push_view(old_stack, t);
                        assert(t@ == (ScreenV::Detail {
                            instance: t->Detail_instance,
                            project_id,
                            task_id,
                            lines: Seq::empty(),
                            assets: Seq::empty(),
                            offset: 0,
                            loading: true,
                            pending_download: false,
                        }));
                    }
                },
                None => {},
            }
        },
        Msg::Back => {
            if model.stack.len() <= 1 {
                model.should_quit = true;
            } else {
                model.stack.pop();
                proof { lemma_drop_view(old_stack); }
            }
        },
        Msg::Quit => {
            model.should_quit = true;
        },
        Msg::Refresh => {
            cmds = refresh_exec(&mut model.stack);
        },
        Msg::LoadedTasksByProject(groups) => {
            match model.stack.pop() {
                None => {},
                Some(top) => {
                    let t = loaded_groups_exec(top, groups);
                    model.stack.push(t);
                    proof { lemma_replace_top(old_stack, t); }
                },
            }
        },
        Msg::LoadedDetail(lines, assets) => {
            match model.stack.pop() {
                None => {},
                Some(top) => {
                    let t = loaded_detail_exec(top, lines, assets);
                    model.stack.push(t);
                    proof { lemma_replace_top(old_stack, t); }
                },
            }
        },
        Msg::AssetOpen(digit) => {
            cmds = asset_cmds_exec(&model.stack, digit);
            apply_top_pending(&mut model.stack, false);
        },
        Msg::TogglePendingDownload => apply_top_pending(&mut model.stack, true),
        Msg::AssetActionResult(_) => {},
    }
    (model, cmds)
}


// ---------------------------------------------------------------------------
// Laws of the browse state machine.
// ---------------------------------------------------------------------------

/// Back leaves a nested screen by removing exactly the top screen; on the last
/// screen it asks the shell to quit and leaves the stack as it is.
pub proof fn law_back_pops_top(stack: Seq<ScreenV>, quit: bool)
    ensures
        stack.len() > 1 ==> step(stack, quit, Msg::Back) == (stack.drop_last(), quit, Seq::<Cmd>::empty()),
        stack.len() <= 1 ==> step(stack, quit, Msg::Back) == (stack, true, Seq::<Cmd>::empty()),
{
}

/// No message empties a non-empty screen stack.
pub proof fn law_stack_never_empties(stack: Seq<ScreenV>, quit: bool, msg: Msg)
    requires
        stack.len() > 0,
    ensures
        step(stack, quit, msg).0.len() > 0,
{
}

/// On a non-empty list, moving down or clicking any row leaves the selection on
/// an existing row.
pub proof fn law_selection_in_range(stack: Seq<ScreenV>, quit: bool, row: usize)
    requires
        stack.len() > 0,
        !(stack.last() is Detail),
        row_count(stack.last()) > 0,
    ensures
        selected_of(step(stack, quit, Msg::Down).0.last()) < row_count(stack.last()),
        selected_of(step(stack, quit, Msg::Click(row)).0.last()) < row_count(stack.last()),
        row_count(step(stack, quit, Msg::Down).0.last()) == row_count(stack.last()),
        row_count(step(stack, quit, Msg::Click(row)).0.last()) == row_count(stack.last()),
{
}

/// On the detail screen, scrolling up undoes a scroll down that moved the view.
pub proof fn law_up_undoes_down(stack: Seq<ScreenV>, quit: bool)
    requires
        stack.len() > 0,
        stack.last() is Detail,
        offset_of(stack.last()) < max_offset(stack.last()),
        max_offset(stack.last()) <= usize::MAX,
    ensures
        step(step(stack, quit, Msg::Down).0, quit, Msg::Up).0 == stack,
{
    let s = stack.last();
    let d = move_down(s);
    match s {
        ScreenV::Detail { instance, project_id, task_id, lines, assets, offset, loading, pending_download } => {
            assert(d == ScreenV::Detail { instance, project_id, task_id, lines, assets, offset: (offset + 1) as usize, loading, pending_download });
            assert(move_up(d) == s);
        },
        _ => {},
    }
    assert(step(stack, quit, Msg::Down).0 == stack.update(stack.len() - 1, d));
    assert(stack.update(stack.len() - 1, d).update(stack.len() - 1, move_up(d)) =~= stack);
}

/// Scrolling never moves the detail view past its last line.
pub proof fn law_scroll_bounded(stack: Seq<ScreenV>, quit: bool, msg: Msg)
    requires
        stack.len() > 0,
        stack.last() is Detail,
        offset_of(stack.last()) <= max_offset(stack.last()),
        msg is Up || msg is Down || msg is ScrollUp || msg is ScrollDown || msg is PageUp
            || msg is PageDown,
    ensures
        offset_of(step(stack, quit, msg).0.last()) <= max_offset(stack.last()),
        max_offset(step(stack, quit, msg).0.last()) == max_offset(stack.last()),
{
}

/// A refresh while the top screen is loading is dropped: nothing changes and no
/// effect is requested (one load in flight at a time).
pub proof fn law_refresh_single_flight(stack: Seq<ScreenV>, quit: bool)
    requires
        stack.len() > 0,
        loading_of(stack.last()),
    ensures
        step(stack, quit, Msg::Refresh) == (stack, quit, Seq::<Cmd>::empty()),
{
}

/// A refresh that is not dropped marks the top screen loading and requests
/// exactly one load.
pub proof fn law_refresh_requests_one_load(stack: Seq<ScreenV>, quit: bool)
    requires
        stack.len() > 0,
        !loading_of(stack.last()),
    ensures
        step(stack, quit, Msg::Refresh).2.len() == 1,
        loading_of(step(stack, quit, Msg::Refresh).0.last()),
        step(stack, quit, Msg::Refresh).0.len() == stack.len(),
{
}

/// Quit sets the quit flag and touches nothing else.
pub proof fn law_quit(stack: Seq<ScreenV>, quit: bool)
    ensures
        step(stack, quit, Msg::Quit) == (stack, true, Seq::<Cmd>::empty()),
{
}

/// Messages other than Back and Quit never set the quit flag.
pub proof fn law_only_back_or_quit_quits(stack: Seq<ScreenV>, msg: Msg)
    requires
        !(msg is Back),
        !(msg is Quit),
    ensures
        !step(stack, false, msg).1,
{
}

/// Opening an asset always disarms the pending-download flag, and a digit
/// that names no asset requests nothing.
pub proof fn law_asset_open_disarms(stack: Seq<ScreenV>, quit: bool, digit: char)
    requires
        stack.len() > 0,
        stack.last() is Detail,
    ensures
        !pending_of(step(stack, quit, Msg::AssetOpen(digit)).0.last()),
        digit_index(digit) is None ==> step(stack, quit, Msg::AssetOpen(digit)).2.len() == 0,
{
}


// ---------------------------------------------------------------------------
// The flat task list used by the `mine` view.
// ---------------------------------------------------------------------------

/// A task in the flat `mine` list.
#[derive(Debug, Clone, PartialEq)]
pub struct Task {
    pub project: String,
    pub id: u32,
    pub name: String,
}

/// The flat list model: tasks, the selected row and the quit flag.
#[derive(Debug)]
pub struct FlatModel {
    pub tasks: Vec<Task>,
    pub selected: usize,
    pub should_quit: bool,
}

/// Messages of the flat list.
#[derive(Debug)]
pub enum FlatMsg {
    Up,
    Down,
    ScrollUp,
    ScrollDown,
    Click(usize),
    Quit,
}

impl FlatModel {
    /// A model over `tasks` with the first row selected.
    pub fn with_tasks(tasks: Vec<Task>) -> (r: FlatModel)
        ensures
            r.tasks@ == tasks@,
            r.selected == 0,
            !r.should_quit,
    {
        FlatModel { tasks, selected: 0, should_quit: false }
    }
}

/// The selection after a flat-list message over `n` rows.
pub open spec fn flat_selected(selected: usize, n: nat, msg: FlatMsg) -> usize {
    match msg {
        FlatMsg::Up | FlatMsg::ScrollUp => sat_sub(selected, 1),
        FlatMsg::Down | FlatMsg::ScrollDown => if n > 0 {
            min_int(selected + 1, n - 1) as usize
        } else {
            selected
        },
        FlatMsg::Click(row) => if n > 0 {
            min_int(row as int, n - 1) as usize
        } else {
            selected
        },
        FlatMsg::Quit => selected,
    }
}

/// Pure update of the flat list: moves the selection within the list, or quits.
pub fn update_flat(model: FlatModel, msg: FlatMsg) -> (r: FlatModel)
    ensures
        r.tasks@ == model.tasks@,
        r.selected == flat_selected(model.selected, model.tasks@.len(), msg),
        r.should_quit == (model.should_quit || msg is Quit),
{
    let mut model = model;
    let n = model.tasks.len();
    match msg {
        FlatMsg::Up | FlatMsg::ScrollUp => {
            model.selected = sat_sub_exec(model.selected, 1);
        },
        FlatMsg::Down | FlatMsg::ScrollDown => {
            if n > 0 {
                model.selected = add_capped(model.selected, 1, n - 1);
            }
        },
        FlatMsg::Click(row) => {
            if n > 0 {
                model.selected = if row <= n - 1 { row } else { n - 1 };
            }
        },
        FlatMsg::Quit => {
            model.should_quit = true;
        },
    }
    model
}

/// In a non-empty flat list every move keeps the selection on an existing row.
pub proof fn law_flat_selection_in_range(selected: usize, n: nat, msg: FlatMsg)
    requires
        n > 0,
        selected < n,
    ensures
        flat_selected(selected, n, msg) < n,
{
}

} // verus!
