use active_collab::client::{CommentWriteOutcome, JobType, TaskWriteOutcome, TimeWriteOutcome};
use active_collab::commands::{
    assignee_error, assignee_id_from_digits, comment_success_text, comment_target, comment_write_report,
    connectivity_line, current_task_ids, failure_line, instance_not_found_error, instance_saved_text,
    match_assignee_name, mine_mode, mine_table_output, mine_targets, mine_tasks, parse_completion,
    reauth_message, resolve_job_type_id, resolve_record_date, rows_from_tasks, serve_from_cache,
    setup_add_input, setup_language, setup_list_lines, setup_remove_report, setup_test_line, short_line,
    skill_output, task_changes_suffix, task_fetch_error, task_output, task_set_plan, task_success_text,
    task_write_failure, time_log_target, time_success_text, time_write_report, token_exchange_result,
    token_or_error, AssigneeResolution, ConnectivityResult, DisplayFlags, LanguageStep, ListingResult,
    MineMode, SetupAddFields, SkillEntry, TaskOutput, TokenExchange, WriteReport,
};
use active_collab::fields::JsonField;
use active_collab::groups::MineTask;
use active_collab::i18n::{Catalog, I18n};
use active_collab::resolve::Instance;

fn en() -> I18n {
    I18n { language: String::from("en"), catalog: Catalog { entries: vec![] } }
}

fn pt() -> I18n {
    I18n {
        language: String::from("pt_BR"),
        catalog: Catalog {
            entries: vec![(String::from("no comment body"), String::from("comentário vazio"))],
        },
    }
}

fn inst(name: &str) -> Instance {
    Instance {
        name: String::from(name),
        base_url: format!("https://{name}.example.com"),
        email: String::from("me@example.com"),
        token: String::from("tok"),
        user_id: Some(7),
    }
}

fn task(id: i64, number: Option<i64>, name: &str, instance: &str) -> MineTask {
    MineTask {
        id,
        task_number: number,
        name: String::from(name),
        is_completed: false,
        is_trashed: false,
        project_id: Some(665),
        instance_name: String::from(instance),
    }
}

#[test]
fn comment_blank_body_is_usage_error() {
    let e = comment_target("  \n\t", Some("665/75159"), None, &en()).unwrap_err();
    assert_eq!(e.code, 2);
    assert_eq!(e.message, "no comment body");
}

#[test]
fn comment_blank_body_message_is_translated() {
    let e = comment_target("", None, None, &pt()).unwrap_err();
    assert_eq!(e.message, "comentário vazio");
}

#[test]
fn comment_target_uses_ref_then_branch() {
    assert_eq!(comment_target("hi", Some("665/75159"), None, &en()).unwrap(), (665, 75159));
    assert_eq!(comment_target("hi", None, Some("feature/12-34"), &en()).unwrap(), (12, 34));
    let e = comment_target("hi", None, None, &en()).unwrap_err();
    assert_eq!(e.code, 2);
    assert_eq!(e.message, "Error: no task ref given and not in a git repository or HEAD is detached.");
    let e = comment_target("hi", None, Some("main"), &en()).unwrap_err();
    assert_eq!(
        e.message,
        "Error: no task ref given and branch 'main' does not match expected pattern (feature|hotfix|fix)/PROJECT_ID-TASK_ID."
    );
}

#[test]
fn comment_write_reports_each_outcome() {
    match comment_write_report(CommentWriteOutcome::Success(Some(42)), 1, 2, &en()) {
        WriteReport::Written(id) => assert_eq!(id, 42),
        other => panic!("unexpected {other:?}"),
    }
    match comment_write_report(CommentWriteOutcome::Success(None), 1, 2, &en()) {
        WriteReport::Written(id) => assert_eq!(id, 0),
        other => panic!("unexpected {other:?}"),
    }
    match comment_write_report(CommentWriteOutcome::Unauthorized, 1, 2, &en()) {
        WriteReport::Failed(m) => assert_eq!(m, reauth_message(&en())),
        other => panic!("unexpected {other:?}"),
    }
    match comment_write_report(CommentWriteOutcome::Failed(500), 665, 75159, &en()) {
        WriteReport::Failed(m) => assert_eq!(m, "HTTP 500 posting comment to task 665/75159"),
        other => panic!("unexpected {other:?}"),
    }
}

#[test]
fn comment_success_line() {
    assert_eq!(
        comment_success_text(9, 75159, 665, &en()),
        "Comment posted (comment_id=9, task 665/75159)."
    );
}

#[test]
fn reauth_message_text() {
    assert_eq!(reauth_message(&en()), "Token invalid or revoked — run `ac setup add` to re-authenticate.");
    assert_eq!(failure_line("boom"), "Error: boom");
}

#[test]
fn time_log_rejects_non_positive_hours() {
    let e = time_log_target(false, Some("1/2"), None, &en()).unwrap_err();
    assert_eq!(e.code, 2);
    assert_eq!(e.message, "hours must be a positive number");
    assert_eq!(time_log_target(true, Some("1/2"), None, &en()).unwrap(), (1, 2));
}

const HUGE_REF: &str = "https://x.io/projects/99999999999999999999/tasks/1";

#[test]
fn flag_checks_come_before_an_overflowing_reference() {
    let e = time_log_target(false, Some(HUGE_REF), None, &en()).unwrap_err();
    assert_eq!((e.code, e.message.as_str()), (2, "hours must be a positive number"));
    let e = task_set_plan(Some(HUGE_REF), None, None, false, None, &en()).unwrap_err();
    assert_eq!(e.message, "Error: at least one of --status, --assignee, or --estimate is required.");
    let e = task_set_plan(Some(HUGE_REF), None, None, false, Some(true), &en()).unwrap_err();
    assert_eq!(e.message, "Error: estimate must be zero or a positive number.");
    let e = comment_target("  ", Some(HUGE_REF), None, &en()).unwrap_err();
    assert_eq!((e.code, e.message.as_str()), (2, "no comment body"));
    let e = task_set_plan(Some(HUGE_REF), None, Some("done"), false, None, &en()).unwrap_err();
    assert_eq!(e.code, 2);
    assert!(e.message.starts_with("Error: cannot parse task ref"));
}

fn job(id: i64, name: &str, is_default: bool) -> JobType {
    JobType { id, name: String::from(name), is_default }
}

#[test]
fn job_type_by_id_or_name_or_default() {
    let types = vec![job(1, "General", false), job(2, "Development", true), job(3, "Design", false)];
    assert_eq!(resolve_job_type_id(&types, Some("3")), Some(3));
    assert_eq!(resolve_job_type_id(&types, Some("design")), Some(3));
    assert_eq!(resolve_job_type_id(&types, Some("DEVELOPMENT")), Some(2));
    assert_eq!(resolve_job_type_id(&types, Some("nope")), None);
    assert_eq!(resolve_job_type_id(&types, None), Some(2));
    assert_eq!(resolve_job_type_id(&[], None), None);
}

#[test]
fn record_date_defaults_to_today() {
    assert_eq!(resolve_record_date(Some("2024-01-31"), "2025-02-02"), "2024-01-31");
    assert_eq!(resolve_record_date(None, "2025-02-02"), "2025-02-02");
}

#[test]
fn time_reports() {
    assert_eq!(
        time_success_text(11, "1.5", 75159, 665, &en()),
        "Time logged (time_record_id=11, 1.5 hours, task 665/75159)."
    );
    match time_write_report(TimeWriteOutcome::Failed(404), 665, 75159, &en()) {
        WriteReport::Failed(m) => assert_eq!(m, "HTTP 404 posting time record to task 665/75159"),
        other => panic!("unexpected {other:?}"),
    }
    match time_write_report(TimeWriteOutcome::Success(Some(5)), 1, 2, &en()) {
        WriteReport::Written(id) => assert_eq!(id, 5),
        other => panic!("unexpected {other:?}"),
    }
}

#[test]
fn completion_values() {
    for v in ["complete", "Completed", "DONE", "closed"] {
        assert_eq!(parse_completion(v), Some(true), "{v}");
    }
    for v in ["open", "Reopen", "TODO"] {
        assert_eq!(parse_completion(v), Some(false), "{v}");
    }
    assert_eq!(parse_completion("finished"), None);
    assert_eq!(parse_completion(""), None);
}

#[test]
fn assignee_matching() {
    let dir = vec![(1, String::from("Ana Silva")), (2, String::from("Bruno")), (3, String::from("bruno"))];
    assert_eq!(match_assignee_name("ana silva", &dir), AssigneeResolution::Id(1));
    assert_eq!(match_assignee_name("BRUNO", &dir), AssigneeResolution::Ambiguous);
    assert_eq!(match_assignee_name("Carla", &dir), AssigneeResolution::NotFound);
    assert_eq!(assignee_id_from_digits("42"), Some(42));
    assert_eq!(assignee_id_from_digits("4a"), None);
    assert_eq!(assignee_id_from_digits(""), None);
    assert_eq!(assignee_id_from_digits("99999999999999999999"), None);
}

#[test]
fn assignee_errors() {
    assert_eq!(assignee_error(AssigneeResolution::Id(5), "x", &en()).unwrap(), 5);
    let e = assignee_error(AssigneeResolution::NotFound, "Carla", &en()).unwrap_err();
    assert_eq!((e.code, e.message.as_str()), (2, "Error: no user matches assignee 'Carla'."));
    let e = assignee_error(AssigneeResolution::Ambiguous, "bruno", &en()).unwrap_err();
    assert_eq!(e.message, "Error: assignee 'bruno' matches more than one user; use the numeric id instead.");
}

#[test]
fn task_set_requires_a_field() {
    let e = task_set_plan(Some("1/2"), None, None, false, None, &en()).unwrap_err();
    assert_eq!(e.code, 2);
    assert_eq!(e.message, "Error: at least one of --status, --assignee, or --estimate is required.");
}

#[test]
fn task_set_rejects_negative_estimate_before_ref() {
    let e = task_set_plan(Some("bad ref"), None, None, false, Some(true), &en()).unwrap_err();
    assert_eq!(e.message, "Error: estimate must be zero or a positive number.");
}

#[test]
fn task_set_plan_checks_status() {
    let e = task_set_plan(Some("1/2"), None, Some("finished"), false, None, &en()).unwrap_err();
    assert_eq!(
        e.message,
        "Error: unrecognized --status value 'finished'. Use complete, completed, done, closed, open, reopen, or todo."
    );
    let p = task_set_plan(Some("1/2"), None, Some("done"), false, None, &en()).unwrap();
    assert_eq!((p.project_id, p.task_id, p.completed), (1, 2, Some(true)));
    let p = task_set_plan(None, Some("fix/3-4"), None, true, Some(false), &en()).unwrap();
    assert_eq!((p.project_id, p.task_id, p.completed), (3, 4, None));
}

#[test]
fn task_set_plan_names_its_writes() {
    let p = task_set_plan(Some("1/2"), None, Some("done"), true, None, &en()).unwrap();
    assert_eq!(p.write_paths(true), (Some(String::from("complete/task/2")), Some(String::from("projects/1/tasks/2"))));
    let p = task_set_plan(Some("665/75159"), None, Some("reopen"), false, None, &en()).unwrap();
    assert_eq!(p.write_paths(false), (Some(String::from("open/task/75159")), None));
    let p = task_set_plan(Some("3/4"), None, None, false, Some(false), &en()).unwrap();
    assert_eq!(p.write_paths(true), (None, Some(String::from("projects/3/tasks/4"))));
}

#[test]
fn task_write_failures() {
    assert_eq!(task_write_failure(TaskWriteOutcome::Success(None), 1, 2, &en()), None);
    assert_eq!(
        task_write_failure(TaskWriteOutcome::Failed(422), 665, 75159, &en()).unwrap(),
        "HTTP 422 updating task 665/75159"
    );
    assert_eq!(task_write_failure(TaskWriteOutcome::Unauthorized, 1, 2, &en()).unwrap(), reauth_message(&en()));
}

#[test]
fn task_changes_and_success_line() {
    assert_eq!(task_changes_suffix(None, None, None), "");
    assert_eq!(task_changes_suffix(Some(true), None, Some("8")), ": status=completed, estimate=8");
    assert_eq!(task_changes_suffix(Some(false), Some(12), None), ": status=open, assignee_id=12");
    assert_eq!(
        task_success_text(75159, 665, Some(true), None, Some("8"), &en()),
        "Task updated (task 665/75159): status=completed, estimate=8."
    );
    assert_eq!(task_success_text(2, 1, None, None, None, &en()), "Task updated (task 1/2).");
}

#[test]
fn current_needs_a_task_branch() {
    assert_eq!(current_task_ids(Some("hotfix/665-75159"), &en()).unwrap(), (665, 75159));
    let e = current_task_ids(None, &en()).unwrap_err();
    assert_eq!((e.code, e.message.as_str()), (2, "Error: not in a git repository or HEAD is detached."));
    let e = current_task_ids(Some("develop"), &en()).unwrap_err();
    assert_eq!(
        e.message,
        "Error: branch 'develop' does not match expected pattern (feature|hotfix|fix)/PROJECT_ID-TASK_ID (e.g. feature/665-75159)."
    );
}

#[test]
fn task_fetch_errors() {
    assert_eq!(task_fetch_error(200, 1, 2, &en()), None);
    assert_eq!(task_fetch_error(401, 1, 2, &en()).unwrap(), reauth_message(&en()));
    assert_eq!(task_fetch_error(404, 665, 75159, &en()).unwrap(), "Error: task 665/75159 not found (HTTP 404).");
}

#[test]
fn cache_is_used_unless_refreshing_or_json() {
    assert!(serve_from_cache(false, false, true));
    assert!(!serve_from_cache(true, false, true));
    assert!(!serve_from_cache(false, true, true));
    assert!(!serve_from_cache(false, false, false));
}

#[test]
fn output_mode_precedence() {
    let mut flags = DisplayFlags {
        json: true,
        short: true,
        refresh: false,
        no_comments: false,
        download_attachments: false,
        attachments_dir: None,
    };
    assert_eq!(task_output(&flags), TaskOutput::Json);
    flags.json = false;
    assert_eq!(task_output(&flags), TaskOutput::Short);
    flags.short = false;
    assert_eq!(task_output(&flags), TaskOutput::Full);
}

#[test]
fn short_line_strips_controls() {
    assert_eq!(short_line(665, 75159, "Fix\u{7}bug"), "665/75159\tFixbug");
}

#[test]
fn mine_modes() {
    assert_eq!(mine_mode(false, true), MineMode::Tui);
    assert_eq!(mine_mode(true, true), MineMode::Json);
    assert_eq!(mine_mode(false, false), MineMode::Table);
}

#[test]
fn mine_targets_filter_and_errors() {
    let e = mine_targets(vec![], None, &en()).unwrap_err();
    assert_eq!((e.code, e.message.as_str()), (2, "Error: no instances configured. Run: active_collab.py setup add"));
    let all = mine_targets(vec![inst("a"), inst("b")], None, &en()).unwrap();
    assert_eq!(all.len(), 2);
    let one = mine_targets(vec![inst("a"), inst("b")], Some("b"), &en()).unwrap();
    assert_eq!(one.len(), 1);
    assert_eq!(one[0].name, "b");
    let e = mine_targets(vec![inst("a"), inst("b")], Some("c"), &en()).unwrap_err();
    assert_eq!(e.message, "Error: instance 'c' not found. Known: a, b");
}

#[test]
fn mine_tasks_unauthorized_wins() {
    let ok = mine_tasks(vec![
        ListingResult::Listed(vec![task(1, Some(10), "one", "a")]),
        ListingResult::Unavailable,
        ListingResult::Listed(vec![task(2, None, "two", "b")]),
    ])
    .unwrap();
    assert_eq!(ok.len(), 2);
    assert_eq!(ok[0].name, "one");
    assert_eq!(ok[1].name, "two");
    assert!(mine_tasks(vec![ListingResult::Listed(vec![task(1, None, "x", "a")]), ListingResult::Unauthorized]).is_err());
}

#[test]
fn mine_rows_use_number_else_id() {
    let rows = rows_from_tasks(&[task(5, Some(0), "zero", "a"), task(6, Some(9), "nine", "b"), task(7, None, "none", "c")]);
    assert_eq!(rows.iter().map(|r| r.task_number).collect::<Vec<_>>(), vec![5, 9, 7]);
    assert_eq!(rows[1].project_id, 665);
    assert_eq!(mine_table_output(&[], &en()), "No open tasks assigned to you.");
    assert!(mine_table_output(&rows, &en()).contains("nine"));
}

#[test]
fn setup_list_formats_columns() {
    let lines = setup_list_lines(&[], &en());
    assert_eq!(lines, vec!["No instances configured. Run: active_collab.py setup add".to_string()]);
    let lines = setup_list_lines(
        &[(String::from("work"), String::from("https://ac.example.com"), String::from("me@x.com"), Some(7))],
        &en(),
    );
    assert_eq!(lines.len(), 3);
    assert_eq!(lines[0], format!("{:<20} {:<40} {:<30} USER_ID", "NAME", "URL", "EMAIL"));
    assert_eq!(lines[1], "-".repeat(100));
    assert_eq!(lines[2], format!("{:<20} {:<40} {:<30} {}", "work", "https://ac.example.com", "me@x.com", "7"));
    let lines = setup_list_lines(&[(String::from("w"), String::from("u"), String::from("e"), None)], &en());
    assert_eq!(lines[2], format!("{:<20} {:<40} {:<30} ", "w", "u", "e"));
}

#[test]
fn setup_remove_reports() {
    assert_eq!(setup_remove_report(1, "work", &en()).unwrap(), "Instance 'work' removed.");
    let e = setup_remove_report(0, "work", &en()).unwrap_err();
    assert_eq!((e.code, e.message.as_str()), (2, "Error: instance 'work' not found."));
    let e = instance_not_found_error("x", &en());
    assert_eq!((e.code, e.message.as_str()), (2, "Error: instance 'x' not found."));
}

#[test]
fn setup_language_steps() {
    match setup_language(None, None, &en()).unwrap() {
        LanguageStep::Show(m) => assert_eq!(m, "Current language: en"),
        other => panic!("unexpected {other:?}"),
    }
    match setup_language(None, Some("pt_BR"), &en()).unwrap() {
        LanguageStep::Show(m) => assert_eq!(m, "Current language: pt_BR"),
        other => panic!("unexpected {other:?}"),
    }
    match setup_language(Some("pt_BR"), None, &en()).unwrap() {
        LanguageStep::Save(code, m) => {
            assert_eq!(code, "pt_BR");
            assert_eq!(m, "Language set to 'pt_BR'.");
        }
        other => panic!("unexpected {other:?}"),
    }
    let e = setup_language(Some("fr"), None, &en()).unwrap_err();
    assert_eq!((e.code, e.message.as_str()), (2, "Error: unsupported language 'fr'. Supported: en, pt_BR."));
}

#[test]
fn setup_test_and_connectivity_lines() {
    assert_eq!(setup_test_line("work", &ConnectivityResult::Status(200), &en()), (String::from("  work: OK (200)"), false));
    assert_eq!(
        setup_test_line("work", &ConnectivityResult::Status(403), &en()),
        (String::from("  work: FAILED (HTTP 403)"), true)
    );
    assert_eq!(
        setup_test_line("work", &ConnectivityResult::Error(String::from("timeout")), &en()),
        (String::from("  work: FAILED (timeout)"), true)
    );
    assert_eq!(connectivity_line(&ConnectivityResult::Status(200), &en()), "Connectivity: OK");
    assert_eq!(connectivity_line(&ConnectivityResult::Status(500), &en()), "Connectivity: FAILED (HTTP 500)");
    assert_eq!(connectivity_line(&ConnectivityResult::Error(String::from("dns")), &en()), "Connectivity: FAILED (dns)");
}

#[test]
fn setup_add_validation() {
    let fields = |n: Option<&str>, u: Option<&str>, e: Option<&str>| SetupAddFields {
        name: n.map(String::from),
        url: u.map(String::from),
        email: e.map(String::from),
    };
    let err = setup_add_input(fields(Some("w"), None, Some("e")), Some(String::from("p")), &en()).unwrap_err();
    assert_eq!((err.code, err.message.as_str()), (2, "Error: --name, --url and --email are required."));
    let err = setup_add_input(fields(Some(""), Some("u"), Some("e")), Some(String::from("p")), &en()).unwrap_err();
    assert_eq!(err.message, "Error: --name, --url and --email are required.");
    let err = setup_add_input(fields(Some("w"), Some("u"), Some("e")), Some(String::new()), &en()).unwrap_err();
    assert_eq!((err.code, err.message.as_str()), (2, "Error: password is required."));
    let ok = setup_add_input(fields(Some("w"), Some("https://ac.example.com//"), Some("e")), Some(String::from("p")), &en())
        .unwrap();
    assert_eq!(ok.base_url, "https://ac.example.com");
    assert_eq!((ok.name.as_str(), ok.email.as_str(), ok.password.as_str()), ("w", "e", "p"));
}

fn text(s: &str) -> JsonField {
    JsonField::Text { value: String::from(s), json: format!("{s:?}") }
}

#[test]
fn token_exchange_outcomes() {
    assert_eq!(
        token_exchange_result(500, &JsonField::Bool(true), &text("t"), &JsonField::Absent),
        TokenExchange::Rejected
    );
    assert_eq!(
        token_exchange_result(200, &JsonField::Bool(false), &text("t"), &text("bad password")),
        TokenExchange::Refused(Some(String::from("bad password")))
    );
    assert_eq!(
        token_exchange_result(200, &JsonField::Bool(true), &text("abc"), &JsonField::Absent),
        TokenExchange::Issued(String::from("abc"))
    );
    assert_eq!(
        token_exchange_result(200, &JsonField::Bool(true), &JsonField::Null, &text("no token for you")),
        TokenExchange::Refused(Some(String::from("no token for you")))
    );
    let e = token_or_error(
        token_exchange_result(200, &JsonField::Bool(true), &JsonField::Absent, &text("locked")),
        &en(),
    )
    .unwrap_err();
    assert_eq!(e.message, "Error: locked");
    assert_eq!(token_or_error(TokenExchange::Issued(String::from("abc")), &en()).unwrap(), "abc");
    let e = token_or_error(TokenExchange::Refused(Some(String::from("bad password"))), &en()).unwrap_err();
    assert_eq!((e.code, e.message.as_str()), (1, "Error: bad password"));
    let e = token_or_error(TokenExchange::Rejected, &en()).unwrap_err();
    assert_eq!(e.message, "Error: token exchange failed");
    assert_eq!(instance_saved_text("work", &en()), "Instance 'work' saved.");
}

fn skill(name: &str) -> SkillEntry {
    SkillEntry { name: String::from(name), description: format!("{name} skill"), body: format!("# {name}") }
}

#[test]
fn skill_registry_output() {
    let one = vec![skill("ac-json")];
    let out = skill_output(None, &one);
    assert_eq!((out.out, out.code), (vec![String::from("# ac-json")], 0));
    let out = skill_output(Some("list"), &one);
    assert_eq!(out.out, vec![String::from("ac-json\tac-json skill")]);
    let out = skill_output(Some("ac-json"), &one);
    assert_eq!(out.out, vec![String::from("# ac-json")]);
    let out = skill_output(Some("nope"), &one);
    assert_eq!(out.code, 2);
    assert_eq!(out.err, vec![String::from("unknown skill 'nope'"), String::from("known: ac-json")]);
    let two = vec![skill("a"), skill("b")];
    assert_eq!(skill_output(None, &two).out.len(), 2);
}
