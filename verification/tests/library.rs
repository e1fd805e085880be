use std::collections::HashMap;
use unicode_width::{UnicodeWidthChar, UnicodeWidthStr};
use active_collab::render::box_inner_content;

use active_collab::agent::{build_task_url, shape_comment, task_object, task_ref};
use active_collab::app::{init_browse, update, update_flat, Cmd, FlatModel, FlatMsg, Msg, ProjectGroup, Screen, Task, TaskRow};
use active_collab::assets::{extract_assets, AttachmentFields};
use active_collab::richparse::structured_rich_with_links;
use active_collab::cli_render::{CommentFields, TaskFields};
use active_collab::client::{
    classify_comment_write, classify_task_write, classify_time_write, classify_write_status, encode_comment_body,
    needs_task_listing, open_tasks_from_listing, origin_gated_token, pick_default_job_type, resolve_display_name,
    resolve_user_id, user_directory, CommentWriteOutcome, JobType, TaskWriteOutcome, TimeWriteOutcome, Unauthorized,
    UserRecord, WriteStatus,
};
use active_collab::dates::{format_date, format_iso, format_minute, secs_to_utc_parts};
use active_collab::detail::{
    build_body_lines, build_comment_lines, build_detail_content, build_header_lines, find_token_span, format_meta_row,
    meta_label_col_width,
};
use active_collab::downloads::{
    asset_fetch_check, batch_file_names, directory_failures, download_outcome, file_name_check, open_asset,
    sanitize_attachment_filename, unique_filename,
};
use active_collab::fields::JsonField;
use active_collab::groups::{build_groups, MineTask, MineTaskFields};
use active_collab::htmltext::html_to_text;
use active_collab::i18n::{resolve_language, t, Catalog, I18n};
use active_collab::keys::{
    find_instance, map_browse_key_event, map_browse_mouse_event, map_flat_key_event, map_flat_mouse_event,
    opener_result, opener_step, Key, Mouse, OpenerStep,
};
use active_collab::projects::{
    attach_project_names, cached_user_map, stored_names_by_id, is_fresh, names_by_id, parse_i64_text, project_name_from_cache, project_name_from_response,
    project_names_from_listing, row_instance_names, tasks_by_project, InstanceTasks, ProjectEntry,
    PROJECT_NAMES_TTL_SECS,
};
use active_collab::render::{
    compose_block_lines, display_width, truncate_to_display_width, url_at, is_openable_url, link_segments, panel_box, render_mine_table, rich_line_plain, AffordanceKind,
    Asset, MineTableRow,
};
use active_collab::resolve::{parse_branch_ref, parse_task_ref, pick_instance, Instance};
use active_collab::cli::normalize_argv;
use active_collab::richtext::{RichSpan, RichStyle};
use active_collab::wrap::{wrap_rich, wrap_text};

fn en() -> I18n {
    I18n { language: String::from("en"), catalog: Catalog { entries: vec![] } }
}

fn text(s: &str) -> JsonField {
    JsonField::Text { value: String::from(s), json: format!("{s:?}") }
}

fn base_task() -> TaskFields {
    TaskFields {
        id: JsonField::Int(75159),
        task_number: JsonField::Int(12),
        name: text("Fix login"),
        body: text("<p>See https://example.com/x</p>"),
        is_completed: JsonField::Bool(false),
        assignee_id: JsonField::Int(7),
        start_on: JsonField::Null,
        due_on: JsonField::Null,
        project_id: JsonField::Int(665),
        project_name: text("Website"),
        estimate_hours: String::from("3"),
        logged_hours: String::from("0"),
        attachments: None,
    }
}

fn comment(id: i64, author_id: i64, body: &str) -> CommentFields {
    CommentFields {
        id: JsonField::Int(id),
        created_by_name: text("Ana"),
        created_by_id: JsonField::Int(author_id),
        created_on: JsonField::Int(0),
        body_plain_text: text(body),
        body: JsonField::Absent,
    }
}

fn mine(id: i64, number: Option<i64>, name: &str, pid: Option<i64>) -> MineTask {
    MineTask {
        id,
        task_number: number,
        name: String::from(name),
        is_completed: false,
        is_trashed: false,
        project_id: pid,
        instance_name: String::new(),
    }
}

fn row(instance: &str, pid: i64, tid: i64) -> MineTableRow {
    MineTableRow {
        instance: String::from(instance),
        project_id: pid,
        task_number: tid,
        task_id: tid,
        name: format!("task {tid}"),
        due_on: None,
        project_name: None,
    }
}

// ---------------------------------------------------------------------------
// Browse state machine.
// ---------------------------------------------------------------------------

fn group(pid: i64, name: &str, n: i64) -> ProjectGroup {
    ProjectGroup {
        project_id: pid,
        project_name: String::from(name),
        tasks: (1..=n)
            .map(|k| TaskRow { task_id: k, task_number: k, name: format!("t{k}"), instance: String::from("work") })
            .collect(),
    }
}

#[test]
fn browse_starts_loading_projects() {
    let (model, cmds) = init_browse();
    assert_eq!(model.stack.len(), 1);
    assert!(!model.should_quit);
    assert_eq!(cmds, vec![Cmd::LoadTasksByProject]);
}

#[test]
fn browse_select_drills_down_and_back_pops() {
    let (model, _) = init_browse();
    let (model, _) = update(model, Msg::LoadedTasksByProject(vec![group(1, "A", 2), group(2, "B", 3)]));
    let (model, _) = update(model, Msg::Down);
    let (model, cmds) = update(model, Msg::Select);
    assert!(cmds.is_empty());
    assert_eq!(model.stack.len(), 2);
    match model.stack.last().unwrap() {
        Screen::Tasks { project_name, tasks, selected, .. } => {
            assert_eq!(project_name, "B");
            assert_eq!(tasks.len(), 3);
            assert_eq!(*selected, 0);
        }
        other => panic!("unexpected {other:?}"),
    }
    let (model, cmds) = update(model, Msg::Select);
    assert_eq!(model.stack.len(), 3);
    assert_eq!(
        cmds,
        vec![Cmd::LoadDetail { instance: String::from("work"), project_id: 2, task_id: 1, refresh: false }]
    );
    let (model, _) = update(model, Msg::Back);
    assert_eq!(model.stack.len(), 2);
    let (model, _) = update(model, Msg::Back);
    let (model, _) = update(model, Msg::Back);
    assert_eq!(model.stack.len(), 1);
    assert!(model.should_quit);
}

#[test]
fn browse_selection_stays_in_range() {
    let (model, _) = init_browse();
    let (mut model, _) = update(model, Msg::LoadedTasksByProject(vec![group(1, "A", 1), group(2, "B", 1)]));
    for _ in 0..5 {
        model = update(model, Msg::Down).0;
    }
    match &model.stack[0] {
        Screen::Projects { selected, .. } => assert_eq!(*selected, 1),
        other => panic!("unexpected {other:?}"),
    }
    let (model, _) = update(model, Msg::Up);
    match &model.stack[0] {
        Screen::Projects { selected, .. } => assert_eq!(*selected, 0),
        other => panic!("unexpected {other:?}"),
    }
}

#[test]
fn browse_down_then_up_restores_selection() {
    let (model, _) = init_browse();
    let (model, _) = update(model, Msg::LoadedTasksByProject(vec![group(1, "A", 1), group(2, "B", 1), group(3, "C", 1)]));
    let (model, _) = update(model, Msg::Down);
    let (model, _) = update(model, Msg::Down);
    let (model, _) = update(model, Msg::Up);
    match &model.stack[0] {
        Screen::Projects { selected, .. } => assert_eq!(*selected, 1),
        other => panic!("unexpected {other:?}"),
    }
}

#[test]
fn browse_refresh_is_single_flight() {
    let (model, _) = init_browse();
    let (model, cmds) = update(model, Msg::Refresh);
    assert!(cmds.is_empty());
    let (model, _) = update(model, Msg::LoadedTasksByProject(vec![group(1, "A", 1)]));
    let (model, cmds) = update(model, Msg::Refresh);
    assert_eq!(cmds, vec![Cmd::LoadTasksByProject]);
    assert!(matches!(model.stack[0], Screen::Projects { loading: true, .. }));
    let (_, cmds) = update(model, Msg::Refresh);
    assert!(cmds.is_empty());
}

#[test]
fn browse_asset_keys_open_or_download_once() {
    let (model, _) = init_browse();
    let (model, _) = update(model, Msg::LoadedTasksByProject(vec![group(9, "A", 1)]));
    let (model, _) = update(model, Msg::Select);
    let (model, _) = update(model, Msg::Select);
    let asset = Asset { name: String::from("a.png"), url: String::from("https://ac.example.com/a.png") };
    let (model, _) = update(model, Msg::LoadedDetail(vec![String::from("line")], vec![asset]));
    let (model, _) = update(model, Msg::TogglePendingDownload);
    let (model, cmds) = update(model, Msg::AssetOpen('1'));
    assert_eq!(
        cmds,
        vec![Cmd::DownloadAsset {
            instance: String::from("work"),
            url: String::from("https://ac.example.com/a.png"),
            name: String::from("a.png"),
        }]
    );
    let (model, cmds) = update(model, Msg::AssetOpen('1'));
    assert_eq!(
        cmds,
        vec![Cmd::OpenAsset { instance: String::from("work"), url: String::from("https://ac.example.com/a.png") }]
    );
    let (_, cmds) = update(model, Msg::AssetOpen('x'));
    assert!(cmds.is_empty());
}

#[test]
fn browse_quit_sets_flag() {
    let (model, _) = init_browse();
    let (model, cmds) = update(model, Msg::Quit);
    assert!(model.should_quit);
    assert!(cmds.is_empty());
}

#[test]
fn flat_list_moves_and_quits() {
    let tasks = vec![
        Task { project: String::from("1"), id: 1, name: String::from("a") },
        Task { project: String::from("1"), id: 2, name: String::from("b") },
    ];
    let model = FlatModel::with_tasks(tasks);
    assert_eq!(model.selected, 0);
    let model = update_flat(model, FlatMsg::Down);
    let model = update_flat(model, FlatMsg::Down);
    assert_eq!(model.selected, 1);
    let model = update_flat(model, FlatMsg::Up);
    assert_eq!(model.selected, 0);
    let model = update_flat(model, FlatMsg::Quit);
    assert!(model.should_quit);
}

// ---------------------------------------------------------------------------
// Keys.
// ---------------------------------------------------------------------------

#[test]
fn browse_key_mapping() {
    assert!(matches!(map_browse_key_event(Key::Char('q'), false), Some(Msg::Quit)));
    assert!(matches!(map_browse_key_event(Key::Char('b'), false), Some(Msg::Back)));
    assert!(matches!(map_browse_key_event(Key::Esc, false), Some(Msg::Back)));
    assert!(matches!(map_browse_key_event(Key::Char('c'), true), Some(Msg::Quit)));
    assert!(map_browse_key_event(Key::Char('c'), false).is_none());
    assert!(matches!(map_browse_key_event(Key::Char('r'), false), Some(Msg::Refresh)));
    assert!(matches!(map_browse_key_event(Key::Char('d'), false), Some(Msg::TogglePendingDownload)));
    assert!(matches!(map_browse_key_event(Key::Char('3'), false), Some(Msg::AssetOpen('3'))));
    assert!(matches!(map_browse_key_event(Key::Char('k'), false), Some(Msg::Up)));
    assert!(matches!(map_browse_key_event(Key::Char('j'), false), Some(Msg::Down)));
    assert!(matches!(map_browse_key_event(Key::Enter, false), Some(Msg::Select)));
    assert!(matches!(map_browse_key_event(Key::PageDown, false), Some(Msg::PageDown)));
    assert!(map_browse_key_event(Key::Other, true).is_none());
    assert!(matches!(map_browse_mouse_event(Mouse::Press(4)), Some(Msg::Click(4))));
    assert!(matches!(map_browse_mouse_event(Mouse::ScrollDown), Some(Msg::ScrollDown)));
    assert!(map_browse_mouse_event(Mouse::Other).is_none());
}

#[test]
fn flat_key_mapping() {
    assert!(matches!(map_flat_key_event(Key::Esc, false), Some(FlatMsg::Quit)));
    assert!(matches!(map_flat_key_event(Key::Char('c'), true), Some(FlatMsg::Quit)));
    assert!(map_flat_key_event(Key::Char('r'), false).is_none());
    assert!(matches!(map_flat_key_event(Key::Up, false), Some(FlatMsg::Up)));
    assert!(matches!(map_flat_key_event(Key::Char('k'), false), Some(FlatMsg::Up)));
    assert!(matches!(map_flat_key_event(Key::Char('j'), false), Some(FlatMsg::Down)));
    assert!(matches!(map_flat_mouse_event(Mouse::Press(2)), Some(FlatMsg::Click(2))));
}

#[test]
fn opener_steps_and_instance_lookup() {
    let targets = vec![
        Instance { name: String::from("a"), base_url: String::new(), email: String::new(), token: String::new(), user_id: None },
        Instance { name: String::from("b"), base_url: String::new(), email: String::new(), token: String::new(), user_id: None },
    ];
    assert_eq!(find_instance(&targets, "b"), Some(1));
    assert_eq!(find_instance(&targets, "c"), None);
    match opener_step(false, "https://x.y", &en()) {
        OpenerStep::Report(m) => assert_eq!(m, "Error: instance not found"),
        other => panic!("unexpected {other:?}"),
    }
    assert!(matches!(opener_step(true, "https://x.y/a", &en()), OpenerStep::Start));
    match opener_step(true, "javascript:alert(1)", &en()) {
        OpenerStep::Report(m) => assert_eq!(m, "Error: non-http/https URL rejected: javascript:alert(1)"),
        other => panic!("unexpected {other:?}"),
    }
    assert_eq!(opener_result(Ok(()), "https://x.y/a", &en()), "Downloaded: https://x.y/a");
    assert_eq!(opener_result(Err(String::from("no opener")), "u", &en()), "Error: no opener");
}

// ---------------------------------------------------------------------------
// Client decisions.
// ---------------------------------------------------------------------------

#[test]
fn write_status_buckets() {
    assert_eq!(classify_write_status(200), WriteStatus::Success);
    assert_eq!(classify_write_status(299), WriteStatus::Success);
    assert_eq!(classify_write_status(401), WriteStatus::Unauthorized);
    assert_eq!(classify_write_status(300), WriteStatus::Failed(300));
    assert_eq!(classify_comment_write(201, Some(3)), CommentWriteOutcome::Success(Some(3)));
    assert_eq!(classify_time_write(401, Some(3)), TimeWriteOutcome::Unauthorized);
    assert_eq!(classify_task_write(500, None), TaskWriteOutcome::Failed(500));
    assert_eq!(Unauthorized.message(), "HTTP 401 Unauthorized");
}

#[test]
fn default_job_type_choice() {
    let jt = |id: i64, d: bool| JobType { id, name: format!("j{id}"), is_default: d };
    assert_eq!(pick_default_job_type(&[jt(1, false), jt(2, true), jt(3, true)]), Some(2));
    assert_eq!(pick_default_job_type(&[jt(4, false), jt(5, false)]), Some(4));
    assert_eq!(pick_default_job_type(&[]), None);
}

#[test]
fn comment_body_becomes_paragraphs() {
    assert_eq!(encode_comment_body("a\nb\n\nc"), "<p>a<br>b</p><p>c</p>");
    assert_eq!(encode_comment_body("x < y & z"), "<p>x &lt; y &amp; z</p>");
    assert_eq!(encode_comment_body("\n \n"), "");
    assert_eq!(encode_comment_body("one\n\n\n\ntwo\n"), "<p>one</p><p>two</p>");
}

fn user(id: Option<i64>, display: Option<&str>, first: Option<&str>, last: Option<&str>, email: Option<&str>) -> UserRecord {
    UserRecord {
        id,
        display_name: display.map(String::from),
        first_name: first.map(String::from),
        last_name: last.map(String::from),
        email: email.map(String::from),
    }
}

#[test]
fn display_name_fallbacks() {
    assert_eq!(resolve_display_name(&user(Some(1), Some("Ana S."), Some("Ana"), None, None)), "Ana S.");
    assert_eq!(resolve_display_name(&user(Some(1), Some(""), Some(" Ana "), Some(" Silva "), None)), "Ana Silva");
    assert_eq!(resolve_display_name(&user(Some(1), None, None, Some("Silva"), None)), "Silva");
    assert_eq!(resolve_display_name(&user(Some(1), None, Some(" "), None, Some("a@x.com"))), "a@x.com");
    assert_eq!(resolve_display_name(&user(Some(1), None, None, None, None)), "");
}

#[test]
fn directory_skips_entries_without_id() {
    let dir = user_directory(&[user(Some(1), Some("A"), None, None, None), user(None, Some("B"), None, None, None)]);
    assert_eq!(dir, vec![(1, String::from("A"))]);
}

#[test]
fn user_id_by_email_ignores_case() {
    let users = [
        user(Some(1), None, None, None, Some("other@x.com")),
        user(Some(2), None, None, None, Some("Me@Example.COM")),
    ];
    assert_eq!(resolve_user_id(200, &users, "me@example.com"), Some(2));
    assert_eq!(resolve_user_id(500, &users, "me@example.com"), None);
    assert_eq!(resolve_user_id(200, &users, "nobody@x.com"), None);
}

#[test]
fn token_only_to_instance_origin() {
    let base = "https://ac.example.com";
    assert!(origin_gated_token("https://ac.example.com/api/v1/users", base));
    assert!(origin_gated_token("https://AC.example.com:443/x", base));
    assert!(!origin_gated_token("http://ac.example.com/api", base));
    assert!(!origin_gated_token("https://ac.example.com:8443/api", base));
    assert!(!origin_gated_token("https://evil.example.com/api", base));
    assert!(!origin_gated_token("not a url", base));
}

#[test]
fn open_task_listing() {
    assert!(!needs_task_listing(None));
    assert!(!needs_task_listing(Some(0)));
    assert!(needs_task_listing(Some(5)));
    let mut done = mine(2, None, "done", Some(1));
    done.is_completed = true;
    let listed = vec![mine(1, None, "open", Some(1)), done];
    let open = open_tasks_from_listing(Some(5), 200, listed.clone()).unwrap();
    assert_eq!(open.len(), 1);
    assert_eq!(open[0].name, "open");
    assert!(open_tasks_from_listing(Some(5), 401, listed.clone()).is_err());
    assert!(open_tasks_from_listing(Some(5), 500, listed.clone()).unwrap().is_empty());
    assert!(open_tasks_from_listing(None, 200, listed).unwrap().is_empty());
}

#[test]
fn mine_task_from_api_defaults() {
    let fields = MineTaskFields {
        id: JsonField::Int(9),
        task_number: JsonField::Null,
        name: JsonField::Null,
        is_completed: JsonField::Absent,
        is_trashed: JsonField::Bool(true),
        project_id: JsonField::Int(3),
    };
    let t = MineTask::from_api(&fields, "work");
    assert_eq!((t.id, t.task_number, t.name.as_str(), t.is_completed, t.is_trashed), (9, None, "", false, true));
    assert_eq!((t.project_id, t.instance_name.as_str()), (Some(3), "work"));
}

// ---------------------------------------------------------------------------
// Project names and groups.
// ---------------------------------------------------------------------------

#[test]
fn cache_freshness() {
    assert!(is_fresh(1000, 1000 + PROJECT_NAMES_TTL_SECS - 1, PROJECT_NAMES_TTL_SECS));
    assert!(!is_fresh(1000, 1000 + PROJECT_NAMES_TTL_SECS, PROJECT_NAMES_TTL_SECS));
}

#[test]
fn cached_names_keyed_by_id() {
    assert_eq!(parse_i64_text("+12"), Some(12));
    assert_eq!(parse_i64_text("x"), None);
    let m = names_by_id(&[
        (String::from("1"), String::from("One")),
        (String::from("x"), String::from("Bad")),
        (String::from("2"), String::from("Two")),
        (String::from("01"), String::from("Uno")),
    ]);
    assert_eq!(m.len(), 2);
    assert_eq!(m.get(&1).map(String::as_str), Some("Uno"));
    assert_eq!(m.get(&2).map(String::as_str), Some("Two"));
}

#[test]
fn project_names_attach_per_instance() {
    let rows = vec![row("a", 1, 10), row("b", 1, 11), row("a", 2, 12)];
    assert_eq!(row_instance_names(&rows), vec![String::from("a"), String::from("b")]);
    let mut names_a = HashMap::new();
    names_a.insert(1, String::from("Alpha"));
    let caches = vec![(String::from("a"), Some(names_a)), (String::from("b"), None)];
    let out = attach_project_names(rows, &caches);
    assert_eq!(out[0].project_name.as_deref(), Some("Alpha"));
    assert_eq!(out[1].project_name, None);
    assert_eq!(out[2].project_name, None);
    let mut names_b = HashMap::new();
    names_b.insert(2, String::from("Beta"));
    let mut more = caches.clone();
    more.push((String::from("c"), Some(names_b)));
    let again = attach_project_names(vec![row("a", 1, 10), row("a", 2, 12)], &more);
    assert_eq!(again[0].project_name.as_deref(), Some("Alpha"));
    assert_eq!(again[1].project_name, None);
}

#[test]
fn project_name_fallbacks() {
    let mut names = HashMap::new();
    names.insert(5, String::from("Five"));
    assert_eq!(project_name_from_cache(Some(&names), 5, &en()), "Five");
    assert_eq!(project_name_from_cache(Some(&names), 6, &en()), "(unknown)");
    assert_eq!(project_name_from_cache(None, 5, &en()), "(unknown)");
    assert_eq!(project_name_from_response(200, &text("Site"), &text("Flat")).as_deref(), Some("Site"));
    assert_eq!(project_name_from_response(200, &JsonField::Absent, &text("Flat")).as_deref(), Some("Flat"));
    assert_eq!(project_name_from_response(200, &JsonField::Null, &text("Flat")), None);
    assert_eq!(project_name_from_response(200, &text(""), &text("Flat")), None);
    assert_eq!(project_name_from_response(404, &text("Site"), &text("Flat")), None);
}

#[test]
fn project_listing_names() {
    let entries = vec![
        ProjectEntry { id: Some(1), name: Some(String::from("One")) },
        ProjectEntry { id: None, name: Some(String::from("Skip")) },
        ProjectEntry { id: Some(2), name: None },
    ];
    assert_eq!(
        project_names_from_listing(200, &entries),
        vec![(1, String::from("One")), (2, String::new())]
    );
    assert!(project_names_from_listing(500, &entries).is_empty());
}

#[test]
fn groups_sorted_by_name_then_number() {
    let mut t1 = mine(1, Some(30), "c", Some(2));
    t1.instance_name = String::from("work");
    let mut t2 = mine(2, Some(10), "a", Some(2));
    t2.instance_name = String::from("work");
    let mut t3 = mine(3, None, "b", Some(1));
    t3.instance_name = String::from("work");
    let mut t4 = mine(4, Some(5), "z", None);
    t4.instance_name = String::from("work");
    let names = vec![(String::from("work"), 1, String::from("Zeta")), (String::from("work"), 2, String::from("Alpha"))];
    let groups = build_groups(&[t1, t2, t3, t4], &names);
    let labels: Vec<&str> = groups.iter().map(|g| g.0.project_name.as_str()).collect();
    assert_eq!(labels, vec!["0", "Alpha", "Zeta"]);
    let alpha = &groups[1].0;
    assert_eq!(alpha.tasks.iter().map(|t| t.task_number).collect::<Vec<_>>(), vec![10, 30]);
    assert_eq!(groups[2].0.tasks[0].task_number, 3);
}

#[test]
fn groups_partition_the_tasks() {
    let spec = [(1, "work", Some(7)), (2, "home", Some(7)), (3, "work", Some(7)), (4, "work", None), (5, "home", Some(8)), (6, "work", Some(7))];
    let tasks: Vec<MineTask> = spec
        .iter()
        .map(|&(id, inst, pid)| {
            let mut t = mine(id, Some(100 - id), "t", pid);
            t.instance_name = String::from(inst);
            t
        })
        .collect();
    let groups = build_groups(&tasks, &[]);
    assert_eq!(groups.len(), 4);
    let mut keys: Vec<(String, i64)> = groups.iter().map(|(g, inst)| (inst.clone(), g.project_id)).collect();
    keys.sort();
    keys.dedup();
    assert_eq!(keys.len(), groups.len());
    for t in &tasks {
        let pid = t.project_id.unwrap_or(0);
        let holders: Vec<_> = groups
            .iter()
            .filter(|(g, inst)| g.tasks.iter().any(|r| r.task_id == t.id && r.instance == t.instance_name) && *inst == t.instance_name)
            .collect();
        assert_eq!(holders.len(), 1);
        assert_eq!(holders[0].0.project_id, pid);
    }
    let total: usize = groups.iter().map(|(g, _)| g.tasks.len()).sum();
    assert_eq!(total, tasks.len());
}

#[test]
fn browse_groups_across_instances() {
    let per = vec![
        InstanceTasks { instance: String::from("b"), tasks: vec![mine(1, Some(1), "x", Some(9))], project_names: vec![(9, String::from("Same"))] },
        InstanceTasks { instance: String::from("a"), tasks: vec![mine(2, Some(2), "y", Some(9))], project_names: vec![(9, String::from("Same"))] },
    ];
    let groups = tasks_by_project(per);
    assert_eq!(groups.len(), 2);
    assert_eq!(groups[0].1, "a");
    assert_eq!(groups[1].1, "b");
    assert_eq!(groups[0].0.tasks[0].instance, "a");
}

// ---------------------------------------------------------------------------
// References and text.
// ---------------------------------------------------------------------------

#[test]
fn task_refs_parse() {
    assert_eq!(parse_task_ref("https://ac.example.com/projects/665/tasks/75159", &en()).unwrap(), (665, 75159));
    assert_eq!(parse_task_ref("665/75159", &en()).unwrap(), (665, 75159));
    let e = parse_task_ref("abc", &en()).unwrap_err();
    assert_eq!(e.code, 2);
    assert_eq!(e.message, "Error: cannot parse task ref 'abc'. Use URL or PROJECT_ID/TASK_ID (e.g. 665/75159).");
    assert_eq!(parse_branch_ref("feature/665-75159"), Some((665, 75159)));
    assert_eq!(parse_branch_ref("feature/665-75159-x"), None);
}

#[test]
fn branch_refs_need_a_known_prefix_and_two_ids() {
    assert_eq!(parse_branch_ref("hotfix/1-2"), Some((1, 2)));
    assert_eq!(parse_branch_ref("fix/12-34"), Some((12, 34)));
    assert_eq!(parse_branch_ref("main"), None);
    assert_eq!(parse_branch_ref("feature/1-2-3"), None);
    assert_eq!(parse_branch_ref("feature/-2"), None);
    assert_eq!(parse_branch_ref("feature/1-"), None);
    assert_eq!(parse_branch_ref("bugfix/1-2"), None);
    assert_eq!(parse_branch_ref("feature/99999999999999999999-2"), None);
}

#[test]
fn mine_table_has_a_line_per_row_after_the_header() {
    let rows = vec![row("work", 1, 2), row("home", 3, 4), row("x", 5, 6)];
    let out = render_mine_table(&rows, &en());
    let lines: Vec<&str> = out.split('\n').collect();
    assert_eq!(lines.len(), rows.len() + 2);
    assert_eq!(lines[0], format!("{:<15} {:<10} {:<8} {:<10} {}", "INSTANCE", "PROJECT", "TASK#", "TASK_ID", "NAME"));
    assert_eq!(lines[1], "-".repeat(80));
    assert_eq!(lines[2], format!("{:<15} {:<10} {:<8} {:<10} {}", "work", 1, 2, 2, "task 2"));
    assert_eq!(lines[4], format!("{:<15} {:<10} {:<8} {:<10} {}", "x", 5, 6, 6, "task 6"));
}

#[test]
fn wrapped_lines_fit_the_width() {
    let text = "the quick brown fox jumps over the lazy dog\nsupercalifragilistic 日本語のテキスト";
    for width in [1usize, 4, 7, 12] {
        let lines = wrap_text(text, width);
        assert!(!lines.is_empty());
        for line in &lines {
            assert!(display_width(line) <= width.max(2), "{line:?} wider than {width}");
            if width >= 2 {
                assert!(display_width(line) <= width, "{line:?} wider than {width}");
            }
        }
    }
    assert_eq!(wrap_text("aa bb cc", 5), vec!["aa bb", "cc"]);
    assert_eq!(wrap_text("abcdefg", 3), vec!["abc", "def", "g"]);
    assert_eq!(wrap_text("a\n\nb\n", 10), vec!["a", "", "b", ""]);
}

#[test]
fn wrapping_keeps_every_word_and_trims_lines() {
    let text = "  alpha   beta\tgamma \n\n delta epsilonzeta  ";
    let visible = |s: &str| s.chars().filter(|c| !c.is_ascii_whitespace()).collect::<String>();
    for width in [1usize, 3, 6, 11, 40] {
        let lines = wrap_text(text, width);
        for line in &lines {
            assert!(!line.starts_with(|c: char| c.is_ascii_whitespace()), "{line:?}");
            assert!(!line.ends_with(|c: char| c.is_ascii_whitespace()), "{line:?}");
        }
        assert_eq!(visible(&lines.concat()), visible(text));
    }
    assert!(wrap_text("", 5).is_empty());
    assert_eq!(wrap_text("  alpha   beta ", 40), vec!["alpha beta"]);
}

#[test]
fn rich_wrapping_keeps_styles_and_groups_spans() {
    let line = vec![
        RichSpan { text: String::from("bold words "), style: RichStyle::Bold },
        RichSpan { text: String::from("and plain"), style: RichStyle::Plain },
        RichSpan { text: String::from(" tail"), style: RichStyle::Plain },
    ];
    let styled = |ls: &[Vec<RichSpan>]| {
        ls.iter()
            .flat_map(|l| l.iter().flat_map(|s| s.text.chars().map(move |c| (c, s.style))))
            .filter(|p| !p.0.is_ascii_whitespace())
            .collect::<Vec<_>>()
    };
    for width in [2usize, 5, 9, 30] {
        let out = wrap_rich(&line, width);
        assert_eq!(styled(&out), styled(&[line.clone()]));
        for l in &out {
            assert!(l.iter().all(|s| !s.text.is_empty()));
            assert!(l.windows(2).all(|w| w[0].style != w[1].style));
        }
    }
    let out = wrap_rich(&line, 30);
    assert_eq!(out.len(), 1);
    let expect = vec![
        RichSpan { text: String::from("bold"), style: RichStyle::Bold },
        RichSpan { text: String::from(" "), style: RichStyle::Plain },
        RichSpan { text: String::from("words"), style: RichStyle::Bold },
        RichSpan { text: String::from(" and plain tail"), style: RichStyle::Plain },
    ];
    assert_eq!(out[0], expect);
}

#[test]
fn truncation_keeps_a_fitting_prefix() {
    assert_eq!(truncate_to_display_width("日本語", 5), "日本");
    assert_eq!(truncate_to_display_width("hello", 3), "hel");
    assert_eq!(truncate_to_display_width("hi", 10), "hi");
    assert_eq!(truncate_to_display_width("日x", 1), "");
}

#[test]
fn url_under_a_column_has_no_bracket() {
    assert_eq!(url_at("[https://a.io/x] b", 3), Some(String::from("https://a.io/x")));
    assert_eq!(url_at("go https://b.io/y]z", 5), Some(String::from("https://b.io/y")));
    assert_eq!(url_at("[plain note] b", 3), None);
    assert_eq!(url_at("[plain note] b", 13), None);
}

#[test]
fn compose_lines_rejoin_to_the_buffer() {
    for buffer in ["", "one", "one\ntwo", "a\n\nb\n"] {
        let (lines, styles) = compose_block_lines(buffer);
        assert_eq!(lines.join("\n"), buffer);
        assert_eq!(lines.len(), styles.len());
    }
}

#[test]
fn rich_lines_have_no_blank_edges() {
    let lines = structured_rich_with_links("<p></p><p>first</p><br><br><br><br><p>second</p><p></p>");
    let plain: Vec<String> = lines.iter().map(rich_line_plain).collect();
    assert!(!plain.is_empty());
    assert!(!plain[0].is_empty());
    assert!(!plain[plain.len() - 1].is_empty());
    for w in plain.windows(3) {
        assert!(!(w[0].is_empty() && w[1].is_empty() && w[2].is_empty()));
    }
}

#[test]
fn extracted_assets_never_repeat_a_url() {
    let mut task = base_task();
    task.body = text("<p><img src=\"https://ac.example.com/a.png\"><img src=\"https://ac.example.com/a.png\"></p>");
    task.attachments = Some(vec![AttachmentFields {
        url: text("https://ac.example.com/a.png"),
        download_url: JsonField::Absent,
        name: text("a.png"),
    }]);
    let found = extract_assets(&task, &[]);
    assert_eq!(found.len(), 1);
    assert_eq!(found[0].url, "https://ac.example.com/a.png");
}

#[test]
fn assets_keep_the_first_entry_of_each_url() {
    let mut task = base_task();
    task.body = text("<p><a href=\"https://ac.example.com/b.pdf\">first</a><img src=\"https://ac.example.com/a.png\"><a href=\"https://ac.example.com/b.pdf\">second</a></p>");
    task.attachments = Some(vec![
        AttachmentFields { url: text("https://ac.example.com/c.zip"), download_url: JsonField::Absent, name: text("c.zip") },
        AttachmentFields { url: text("https://ac.example.com/a.png"), download_url: JsonField::Absent, name: text("other.png") },
    ]);
    let found = extract_assets(&task, &[]);
    let urls: Vec<&str> = found.iter().map(|a| a.url.as_str()).collect();
    // The body's images come first, then its links, then the attachments.
    assert_eq!(urls, vec!["https://ac.example.com/a.png", "https://ac.example.com/b.pdf", "https://ac.example.com/c.zip"]);
    assert_eq!(found[0].name, "a.png");
}

#[test]
fn argv_routing_is_settled() {
    let v = |xs: &[&str]| xs.iter().map(|x| String::from(*x)).collect::<Vec<String>>();
    for (argv, branch) in [
        (v(&["665/75159"]), None),
        (v(&["mine"]), None),
        (v(&["--json", "x"]), None),
        (v(&[]), Some("feature/1-2")),
        (v(&[]), Some("main")),
    ] {
        let once = normalize_argv(&argv, branch);
        assert_eq!(normalize_argv(&once, branch), once);
        assert!(once.ends_with(&argv));
    }
    assert_eq!(normalize_argv(&v(&["665/75159"]), None), v(&["get", "665/75159"]));
    assert_eq!(normalize_argv(&v(&[]), Some("fix/3-4")), v(&["current"]));
}

#[test]
fn instance_choice_by_name_or_only() {
    let inst = |n: &str| Instance {
        name: String::from(n),
        base_url: String::from("https://x.io"),
        email: String::new(),
        token: String::new(),
        user_id: None,
    };
    let both = vec![inst("work"), inst("home"), inst("work")];
    assert_eq!(pick_instance(&both, Some("work"), &en()).unwrap(), 0);
    assert_eq!(pick_instance(&both, Some("home"), &en()).unwrap(), 1);
    assert_eq!(pick_instance(&both, Some("other"), &en()).unwrap_err().code, 2);
    assert_eq!(pick_instance(&both, None, &en()).unwrap_err().code, 2);
    assert_eq!(pick_instance(&[inst("solo")], None, &en()).unwrap(), 0);
    assert_eq!(pick_instance(&[], None, &en()).unwrap_err().code, 2);
}

#[test]
fn english_translation_is_identity() {
    let i18n = I18n {
        language: String::from("en"),
        catalog: Catalog { entries: vec![(String::from("Completed"), String::from("Concluída"))] },
    };
    assert_eq!(t(&i18n, "Completed"), "Completed");
    let pt = I18n { language: String::from("pt_BR"), catalog: i18n.catalog.clone() };
    assert_eq!(t(&pt, "Completed"), "Concluída");
}

#[test]
fn stored_maps_read_back_by_id() {
    let m = stored_names_by_id(r#"{"1":"Ana","x":"skip","2":"Bo"}"#).unwrap();
    assert_eq!(m.len(), 2);
    assert_eq!(m[&1], "Ana");
    assert_eq!(m[&2], "Bo");
    assert!(stored_names_by_id("[1,2]").is_none());
    assert!(stored_names_by_id(r#"{"1": 5}"#).is_none());
    assert!(cached_user_map(None).is_none());
    assert_eq!(cached_user_map(Some(r#"{"7":"Cy"}"#)).unwrap()[&7], "Cy");
}

#[test]
fn overflowing_task_ids_are_a_parse_error() {
    let e = parse_task_ref("https://x.io/projects/99999999999999999999/tasks/1", &en()).unwrap_err();
    assert_eq!(e.code, 2);
    assert!(e.message.starts_with("Error: cannot parse task ref"));
    assert!(parse_task_ref("99999999999999999999/1", &en()).is_err());
}

#[test]
fn language_resolution() {
    assert_eq!(resolve_language(Some("pt_BR.UTF-8"), None), "pt_BR");
    assert_eq!(resolve_language(Some("en_US"), Some("pt_BR")), "pt_BR");
    assert_eq!(resolve_language(None, None), "en");
    assert_eq!(resolve_language(Some("en"), Some("pt_BR")), "en");
    assert_eq!(resolve_language(Some("en.UTF-8"), Some("pt_BR")), "en");
    assert_eq!(resolve_language(Some(""), Some("pt_BR")), "pt_BR");
    assert_eq!(resolve_language(Some("fr_FR"), Some("en")), "en");
    assert_eq!(resolve_language(None, Some("de")), "en");
    let i = I18n {
        language: String::from("pt_BR"),
        catalog: Catalog { entries: vec![(String::from("Details"), String::from("Detalhes"))] },
    };
    assert_eq!(t(&i, "Details"), "Detalhes");
    assert_eq!(t(&i, "Other"), "Other");
    assert_eq!(t(&en(), "Details"), "Details");
}

#[test]
fn dates_format_in_utc() {
    assert_eq!(secs_to_utc_parts(0), (1970, 1, 1, 0, 0, 0));
    assert_eq!(format_date(1_700_000_000), "2023-11-14");
    assert_eq!(format_minute(1_700_000_000), "2023-11-14 22:13");
    assert_eq!(format_iso(951_782_400), "2000-02-29T00:00:00Z");
}

#[test]
fn html_entities_decode() {
    assert_eq!(html_to_text("a &amp; b"), "a & b");
}

#[test]
fn widths_and_links() {
    assert_eq!(display_width("日本"), 4);
    assert_eq!(display_width("abc"), 3);
    assert!(is_openable_url("https://example.com"));
    assert!(!is_openable_url("mailto:a@b.c"));
    let segs = link_segments("see [https://x.io] now");
    let linked: Vec<&str> = segs.iter().filter(|s| s.is_link).map(|s| s.text.as_str()).collect();
    assert_eq!(linked, vec!["https://x.io"]);
    assert_eq!(wrap_text("aaa bbb ccc", 7), vec![String::from("aaa bbb"), String::from("ccc")]);
}

#[test]
fn panel_box_shape() {
    let lines = panel_box("Details", &[String::from("hi")], 20);
    assert_eq!(lines.len(), 5);
    assert_eq!(lines[0], format!("┌─ Details {}┐", "─".repeat(8)));
    assert_eq!(lines[1], format!("│{}│", " ".repeat(18)));
    assert_eq!(lines[2], format!("│ hi{} │", " ".repeat(14)));
    assert_eq!(lines[4], format!("└{}┘", "─".repeat(18)));
    assert!(panel_box("x", &[], 3).is_empty());
}

#[test]
fn panel_lines_are_exactly_the_width() {
    for width in 4..12usize {
        for label in ["", "x", "Details", "A much longer label than fits"] {
            let lines = panel_box(label, &[String::from("hello world"), String::new()], width);
            assert_eq!(lines.len(), 6);
            for l in &lines {
                assert_eq!(display_width(l), width, "{l:?} at {width}");
            }
        }
    }
    assert_eq!(panel_box("", &[], 4), vec!["┌──┐", "│  │", "│  │", "└──┘"]);
    for width in 4..16usize {
        for label in ["日本語のラベル", "Descrição", "Ελληνικά", "한국어"] {
            let inner = [String::from("ação 日本 x"), String::from("Ünïcödé ГДЕ"), String::from("全角ＡＢＣ"), String::new()];
            for l in panel_box(label, &inner, width) {
                assert_eq!(display_width(&l), width, "{l:?} at {width}");
            }
        }
    }
}

#[test]
fn plain_characters_add_up() {
    let ranges = [
        (0x20u32, 0x7eu32), (0xa0, 0x52f), (0x1e00, 0x1eff), (0x2010, 0x2027), (0x2500, 0x257f),
        (0x3041, 0x30ff), (0x3400, 0x4dbf), (0x4e00, 0x9fff), (0xac00, 0xd7a3), (0xff01, 0xff60),
    ];
    let wide = [(0x3400u32, 0x4dbfu32), (0x4e00, 0x9fff), (0xac00, 0xd7a3), (0xff01, 0xff60)];
    let mut all: Vec<char> = Vec::new();
    for (a, b) in ranges {
        for cp in a..=b {
            if let Some(c) = char::from_u32(cp) {
                let w = UnicodeWidthChar::width(c);
                assert!(matches!(w, Some(0..=2)), "{cp:x}");
                if wide.iter().any(|&(x, y)| x <= cp && cp <= y) {
                    assert_eq!(w, Some(2), "{cp:x}");
                }
                all.push(c);
            }
        }
    }
    let sum = |cs: &[char]| cs.iter().map(|c| UnicodeWidthChar::width(*c).unwrap()).sum::<usize>();
    for chunk in all.chunks(97) {
        let s: String = chunk.iter().collect();
        assert_eq!(UnicodeWidthStr::width(s.as_str()), sum(chunk));
        let r: String = chunk.iter().rev().collect();
        assert_eq!(UnicodeWidthStr::width(r.as_str()), sum(chunk));
    }
    let s: String = all.iter().collect();
    assert_eq!(UnicodeWidthStr::width(s.as_str()), sum(&all));
}

#[test]
fn narrow_characters_are_one_column() {
    let mut all = String::new();
    let narrow = (0x20u32..=0x7e).chain(0x2500..=0x257f).chain([0x2026, 0xb7]);
    for cp in narrow {
        let c = char::from_u32(cp).unwrap();
        assert_eq!(UnicodeWidthChar::width(c), Some(1), "{cp:x}");
        all.push(c);
    }
    assert_eq!(UnicodeWidthStr::width(all.as_str()), all.chars().count());
    let rev: String = all.chars().rev().collect();
    assert_eq!(UnicodeWidthStr::width(rev.as_str()), rev.chars().count());
}

// ---------------------------------------------------------------------------
// Detail view.
// ---------------------------------------------------------------------------

#[test]
fn meta_rows_align_and_wrap() {
    let pairs = vec![(String::from("Task"), String::from("1-2")), (String::from("Assignee"), String::from("x"))];
    assert_eq!(meta_label_col_width(&pairs), 8);
    assert_eq!(format_meta_row("Task", "1-2", 8, 36), vec![String::from("Task      1-2")]);
    assert_eq!(
        format_meta_row("Title", "aaa bbb", 5, 10),
        vec![String::from("Title  aaa"), String::from("       bbb")]
    );
    assert_eq!(format_meta_row("Title", "x", 8, 5), vec![String::from("Title     ")]);
}

#[test]
fn header_panel_lists_fields() {
    let mut users = HashMap::new();
    users.insert(7, String::from("Ana"));
    let lines = build_header_lines(&base_task(), &users, 40, &en());
    assert_eq!(lines.len(), 11);
    assert!(lines[0].starts_with("┌─ Details "));
    assert!(lines[2].starts_with("│ Task      665-75159"));
    assert!(lines[3].starts_with("│ Title     Fix login"));
    assert!(lines[4].starts_with("│ Project   Website"));
    assert!(lines[5].starts_with("│ Status    Open"));
    assert!(lines[6].starts_with("│ Assignee  Ana (7)"));
    assert!(lines[7].starts_with("│ Estimate  3h"));
    assert!(lines.iter().all(|l| l.chars().count() == 40));
}

#[test]
fn body_links_become_affordances() {
    let (lines, styles, affs) = build_body_lines("<p>See https://example.com/x</p>", 40, &en());
    assert_eq!(lines.len(), styles.len());
    assert!(lines[0].starts_with("┌─ Description "));
    let url_affs: Vec<_> = affs
        .iter()
        .filter(|a| matches!(&a.kind, AffordanceKind::OpenUrl(u) if u == "https://example.com/x"))
        .collect();
    assert_eq!(url_affs.len(), 1);
    assert_eq!(url_affs[0].line_idx, 2);
    assert_eq!(url_affs[0].col_end - url_affs[0].col_start, 21);
}

#[test]
fn empty_body_says_no_description() {
    let (lines, _, affs) = build_body_lines("", 40, &en());
    assert!(lines[2].contains("(no description)"));
    assert!(affs.is_empty());
}

#[test]
fn token_span_is_rightmost() {
    assert_eq!(find_token_span("[edit] a [edit]", "[edit]"), Some((9, 15)));
    assert_eq!(find_token_span("abc", "[edit]"), None);
    assert_eq!(find_token_span("日[x]", "[x]"), Some((2, 5)));
}

#[test]
fn own_comments_get_edit_and_delete() {
    let comments = vec![comment(100, 7, "hello"), comment(101, 8, "other")];
    let (lines, styles, affs, ranges) = build_comment_lines(&comments, 60, Some(7), &en());
    assert_eq!(lines.len(), styles.len());
    assert!(lines[0].contains("Comments (2)"));
    assert_eq!(ranges.len(), 2);
    let kinds: Vec<&AffordanceKind> = affs.iter().map(|a| &a.kind).collect();
    assert_eq!(kinds, vec![&AffordanceKind::Edit(100), &AffordanceKind::Delete(100)]);
    assert_eq!(affs[0].line_idx, ranges[0].0);
    let first_card = &lines[ranges[0].0];
    assert!(first_card.contains("[edit]"));
    assert!(first_card.contains("[excluir]"));
    assert!(!lines[ranges[1].0].contains("[edit]"));
    assert!(styles[ranges[0].0].iter().any(|r| r.style == RichStyle::EditAffordance));
}

#[test]
fn detail_content_assembles_sections() {
    let mut task = base_task();
    task.attachments = Some(vec![AttachmentFields {
        url: text("https://ac.example.com/files/report.pdf"),
        download_url: JsonField::Absent,
        name: text("report.pdf"),
    }]);
    let comments = vec![comment(100, 7, "hello")];
    let dc = build_detail_content(&task, &comments, &HashMap::new(), 60, Some(7), &en());
    assert_eq!(dc.lines.len(), dc.line_styles.len());
    assert_eq!(dc.lines[11], "");
    let last = dc.lines.len() - 1;
    assert_eq!(dc.lines[last], "[1] ↗ report.pdf");
    assert_eq!(dc.lines[last - 1], "");
    assert!(dc.affordances.iter().any(|a| a.line_idx == last
        && a.kind == AffordanceKind::OpenAsset(String::from("https://ac.example.com/files/report.pdf"))
        && (a.col_start, a.col_end) == (6, 16)));
    assert!(dc.affordances.iter().any(|a| a.kind == AffordanceKind::Edit(100)));
    assert_eq!(dc.comment_spans.len(), 1);
    assert!(dc.lines[dc.comment_spans[0].0].contains("Ana"));
}

#[test]
fn detail_indices_stay_inside_the_view() {
    let mut task = base_task();
    task.body = text("<p>see https://example.com/a/very/long/path/that/wraps/over/the/line and [https://x.io/y] too</p>");
    let comments = vec![comment(100, 7, "hello https://c.io"), comment(101, 8, "other"), comment(102, 7, "third")];
    for width in [4usize, 9, 24, 60] {
        let dc = build_detail_content(&task, &comments, &HashMap::new(), width, Some(7), &en());
        assert_eq!(dc.lines.len(), dc.line_styles.len());
        assert!(dc.affordances.iter().all(|a| a.line_idx < dc.lines.len()), "width {width}");
        assert_eq!(dc.comment_spans.len(), comments.len());
        assert!(dc.comment_spans.iter().all(|&(s, n)| s + n <= dc.lines.len()), "width {width}");
        let (lines, styles, affs, ranges) = build_comment_lines(&comments, width, Some(7), &en());
        assert_eq!(lines.len(), styles.len());
        assert!(affs.iter().all(|a| 2 <= a.line_idx && a.line_idx < lines.len() - 2));
        assert!(ranges.iter().all(|&(s, n)| 2 <= s && s + n <= lines.len() - 2));
    }
}

// ---------------------------------------------------------------------------
// Downloads.
// ---------------------------------------------------------------------------

#[test]
fn fetch_checks() {
    assert!(asset_fetch_check(200, 10).is_ok());
    assert_eq!(asset_fetch_check(404, 10).unwrap_err(), "HTTP 404");
    assert_eq!(
        asset_fetch_check(200, 26_214_401).unwrap_err(),
        "attachment exceeds max size of 26214400 bytes"
    );
    assert!(file_name_check("a.txt").is_ok());
    assert_eq!(file_name_check("a/b").unwrap_err(), "unsafe file name: a/b");
    assert_eq!(file_name_check("").unwrap_err(), "unsafe file name: ");
    assert_eq!(file_name_check("a\\b").unwrap_err(), "unsafe file name: a\\b");
}

#[test]
fn batch_names_are_unique() {
    let assets = vec![
        Asset { name: String::from("a.txt"), url: String::from("u1") },
        Asset { name: String::from("a.txt"), url: String::from("u2") },
        Asset { name: String::from("../a.txt"), url: String::from("u3") },
    ];
    assert_eq!(batch_file_names(&assets), vec![String::from("a.txt"), String::from("a_2.txt"), String::from("a_3.txt")]);
    let mut used = vec![String::from("x")];
    assert_eq!(unique_filename(String::from("x"), &mut used), "x_2");
    assert_eq!(sanitize_attachment_filename("", 4), "asset_4");
}

#[test]
fn download_outcomes() {
    let assets = vec![Asset { name: String::from("r.pdf"), url: String::from("https://h/r.pdf") }];
    let fails = directory_failures(&assets, "denied");
    assert_eq!(fails[0].name, "r.pdf");
    assert_eq!(fails[0].error.as_deref(), Some("failed to create destination directory: denied"));
    let ok = download_outcome(String::from("r.pdf"), &assets[0], Ok(String::from("/tmp/r.pdf")));
    assert_eq!((ok.path.as_deref(), ok.error), (Some("/tmp/r.pdf"), None));
    assert_eq!(open_asset("file:///etc/passwd").unwrap_err(), "non-http/https URL rejected: file:///etc/passwd");
}

// ---------------------------------------------------------------------------
// Agent objects.
// ---------------------------------------------------------------------------

#[test]
fn agent_task_object_fields() {
    let mut users = HashMap::new();
    users.insert(7, String::from("Ana"));
    let obj = task_object(&base_task(), &[comment(1, 8, "hi")], &users, "https://ac.example.com/", false);
    assert_eq!(obj.reference, "665/75159");
    assert_eq!(obj.status, "open");
    assert_eq!(obj.assignee.as_deref(), Some("Ana"));
    assert_eq!(obj.url, "https://ac.example.com/projects/665/tasks/75159");
    assert_eq!(obj.description, "See https://example.com/x");
    assert_eq!(obj.comments.len(), 1);
    assert_eq!(obj.start_on, None);
    let none = task_object(&base_task(), &[comment(1, 8, "hi")], &HashMap::new(), "b", true);
    assert!(none.comments.is_empty());
    assert_eq!(none.assignee, None);
    assert_eq!(task_ref(1, 2), "1/2");
    assert_eq!(build_task_url("https://h//", 1, 2), "https://h/projects/1/tasks/2");
}

#[test]
fn agent_comment_author_falls_back_to_id() {
    let mut c = comment(1, 8, "hi");
    c.created_by_name = text("");
    c.body = text("<b>bold</b>");
    let s = shape_comment(&c);
    assert_eq!(s.author.as_deref(), Some("8"));
    assert_eq!(s.author_id, Some(8));
    assert_eq!(s.body, "bold");
    c.created_by_id = JsonField::Null;
    assert_eq!(shape_comment(&c).author, None);
}

#[test]
fn box_inner_content_needs_both_borders() {
    assert_eq!(box_inner_content("│ hi │"), Some("hi"));
    assert_eq!(box_inner_content("│  │"), Some(""));
    assert_eq!(box_inner_content("│ 日ab"), None);
    assert_eq!(box_inner_content("┌──────┐"), None);
    assert_eq!(box_inner_content("│ 日本 │"), Some("日本"));
}

#[test]
fn asset_section_rows_number_each_asset() {
    let found = vec![
        Asset { name: String::from("report.pdf"), url: String::from("https://ac.example.com/r.pdf") },
        Asset { name: String::new(), url: String::from("https://ac.example.com/x") },
    ];
    let rows = active_collab::detail::asset_section_rows(&found, 60, &en());
    assert_eq!(rows.len(), 2);
    assert_eq!(rows[0].text, "[1] ↗ report.pdf");
    assert_eq!(rows[0].asset, Some(0));
    assert_eq!(rows[0].runs.len(), 1);
    assert_eq!((rows[0].runs[0].start, rows[0].runs[0].len), (6, 10));
    assert_eq!(rows[1].asset, Some(1));
    assert!(rows[1].text.starts_with("[2] ↗ "));
}

#[test]
fn white_space_is_the_listed_code_points() {
    let listed = |u: u32| {
        (0x09..=0x0d).contains(&u)
            || [0x20, 0x85, 0xa0, 0x1680, 0x2028, 0x2029, 0x202f, 0x205f, 0x3000].contains(&u)
            || (0x2000..=0x200a).contains(&u)
    };
    for u in 0u32..0x11_0000 {
        if let Some(c) = char::from_u32(u) {
            assert_eq!(c.is_whitespace(), listed(u), "{u:x}");
        }
    }
}
