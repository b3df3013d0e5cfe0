use taskvigil::codec::{parse_all, parse_project, serialize_project, LoadError};
use taskvigil::lifecycle::{
    finish_task, finish_task_at, resume_task, resume_task_at, status_at, Outcome,
};
use taskvigil::model::{timestamps_in_range, Category, Project, Session, Task};

fn demo_project() -> Project {
    Project {
        name: "demo".to_string(),
        tasks: vec![Task {
            name: "Task1".to_string(),
            sessions: vec![Session {
                start_time: 100,
                end_time: None,
                state_changes: vec![(Category::Casual, Category::TimePass)],
            }],
            finished: false,
        }],
        tags: vec!["Misc".to_string()],
    }
}

fn fresh_task_project() -> Project {
    Project {
        name: "demo".to_string(),
        tasks: vec![Task {
            name: "Task1".to_string(),
            sessions: vec![Session {
                start_time: 10,
                end_time: Some(20),
                state_changes: vec![],
            }],
            finished: false,
        }],
        tags: vec![],
    }
}

#[test]
fn new_project_has_default_tag() {
    let p = Project::new("alpha".to_string(), None);
    assert_eq!(p.name, "alpha");
    assert!(p.tasks.is_empty());
    assert_eq!(p.tags, vec!["Misc".to_string()]);
}

#[test]
fn new_project_keeps_given_tags() {
    let p = Project::new("alpha".to_string(), Some(vec!["work".to_string(), "home".to_string()]));
    assert_eq!(p.tags, vec!["work".to_string(), "home".to_string()]);
}

#[test]
fn resume_not_found_is_noop() {
    let mut p = demo_project();
    let before = p.clone();
    let r = resume_task_at(&mut p, "Missing", 200);
    assert_eq!(r, Outcome::NotFound);
    assert_eq!(p, before);
}

#[test]
fn resume_open_session_is_noop() {
    let mut p = demo_project();
    let r = resume_task_at(&mut p, "Task1", 200);
    assert_eq!(r, Outcome::AlreadyInProgress);
    assert_eq!(p.tasks[0].sessions.len(), 1);
    assert_eq!(p.tasks[0].sessions[0].end_time, None);
}

#[test]
fn resume_closed_session_appends_open_session() {
    let mut p = fresh_task_project();
    let r = resume_task_at(&mut p, "Task1", 30);
    assert_eq!(r, Outcome::Resumed);
    assert_eq!(p.tasks[0].sessions.len(), 2);
    assert_eq!(p.tasks[0].sessions[1].start_time, 30);
    assert_eq!(p.tasks[0].sessions[1].end_time, None);
    assert!(!p.tasks[0].finished);
}

#[test]
fn resume_task_with_no_sessions_opens_one() {
    let mut p = demo_project();
    p.tasks[0].sessions.clear();
    let r = resume_task_at(&mut p, "Task1", 7);
    assert_eq!(r, Outcome::Resumed);
    assert_eq!(p.tasks[0].sessions.len(), 1);
    assert_eq!(p.tasks[0].sessions[0].start_time, 7);
    assert_eq!(p.tasks[0].sessions[0].end_time, None);
}

#[test]
fn resume_after_finish_clears_finished_flag() {
    let mut p = fresh_task_project();
    p.tasks[0].finished = true;
    let r = resume_task_at(&mut p, "Task1", 40);
    assert_eq!(r, Outcome::Resumed);
    assert!(!p.tasks[0].finished);
    assert_eq!(p.tasks[0].sessions.len(), 2);
}

#[test]
fn finish_not_found_is_noop() {
    let mut p = demo_project();
    let before = p.clone();
    let r = finish_task_at(&mut p, "Missing", 200);
    assert_eq!(r, Outcome::NotFound);
    assert_eq!(p, before);
}

#[test]
fn finish_closed_session_is_noop() {
    let mut p = fresh_task_project();
    let before = p.clone();
    let r = finish_task_at(&mut p, "Task1", 200);
    assert_eq!(r, Outcome::AlreadyFinished);
    assert_eq!(p, before);
    assert!(!p.tasks[0].finished);
}

#[test]
fn finish_open_session_example() {
    // project "demo" with task "Task1" holding one open session
    let mut p = demo_project();
    let r = finish_task_at(&mut p, "Task1", 500);
    assert_eq!(r, Outcome::Finished);
    assert_eq!(p.tasks[0].sessions[0].end_time, Some(500));
    assert!(p.tasks[0].finished);
    // a second finish is a no-op reporting "already finished"
    let r2 = finish_task_at(&mut p, "Task1", 900);
    assert_eq!(r2, Outcome::AlreadyFinished);
    assert_eq!(p.tasks[0].sessions[0].end_time, Some(500));
    assert!(p.tasks[0].finished);
}

#[test]
fn finish_never_ends_before_start() {
    let mut p = demo_project();
    let r = finish_task_at(&mut p, "Task1", 50);
    assert_eq!(r, Outcome::Finished);
    assert_eq!(p.tasks[0].sessions[0].end_time, Some(100));
}

#[test]
fn resume_then_finish_on_fresh_task() {
    let mut p = fresh_task_project();
    let n = p.tasks[0].sessions.len();
    let r1 = resume_task_at(&mut p, "Task1", 30);
    assert_eq!(r1, Outcome::Resumed);
    assert_eq!(p.tasks[0].sessions.len(), n + 1);
    let r2 = finish_task_at(&mut p, "Task1", 45);
    assert_eq!(r2, Outcome::Finished);
    assert_eq!(p.tasks[0].sessions.len(), n + 1);
    assert_eq!(p.tasks[0].sessions[n].end_time, Some(45));
    assert!(p.tasks[0].finished);
}

#[test]
fn clock_based_operations_keep_invariants() {
    let mut p = fresh_task_project();
    let r1 = resume_task(&mut p, "Task1");
    assert_eq!(r1, Outcome::Resumed);
    assert_eq!(p.tasks[0].sessions.len(), 2);
    assert_eq!(p.tasks[0].sessions[1].end_time, None);
    let r2 = finish_task(&mut p, "Task1");
    assert_eq!(r2, Outcome::Finished);
    assert!(p.tasks[0].sessions[1].end_time.is_some());
    assert!(p.tasks[0].finished);
}

#[test]
fn round_trip_rich_project() {
    let p = Project {
        name: "my project\nwith newline".to_string(),
        tasks: vec![
            Task {
                name: "".to_string(),
                sessions: vec![],
                finished: false,
            },
            Task {
                name: "t wo".to_string(),
                sessions: vec![
                    Session {
                        start_time: 0,
                        end_time: Some(253_402_300_799),
                        state_changes: vec![
                            (Category::Urgent, Category::TimeWaste),
                            (Category::Recreation, Category::Casual),
                        ],
                    },
                    Session {
                        start_time: 1_700_000_000,
                        end_time: None,
                        state_changes: vec![],
                    },
                ],
                finished: true,
            },
        ],
        tags: vec!["".to_string(), "a tag".to_string()],
    };
    let text = serialize_project(&p);
    let q = parse_project(&text).expect("round trip must parse");
    assert_eq!(q, p);
}

#[test]
fn round_trip_empty_project() {
    let p = Project::new("demo".to_string(), None);
    let text = serialize_project(&p);
    let q = parse_project(&text).expect("round trip must parse");
    assert_eq!(q, p);
}

#[test]
fn serialized_form_is_exact() {
    let p = Project::new("demo".to_string(), None);
    assert_eq!(serialize_project(&p), "4 demo\n1\n4 Misc\n0\n");
}

#[test]
fn serialized_timestamps_are_date_time_text() {
    let p = Project {
        name: "p".to_string(),
        tasks: vec![Task {
            name: "t".to_string(),
            sessions: vec![Session {
                start_time: 42,
                end_time: None,
                state_changes: vec![(Category::Casual, Category::TimePass)],
            }],
            finished: false,
        }],
        tags: vec![],
    };
    let text = serialize_project(&p);
    assert_eq!(text, "1 p\n0\n1\n1 t\n0\n1\n19 1970-01-01 00:00:42\n-\n1\nC T\n");
}

#[test]
fn parse_reads_date_time_text() {
    let text = "1 p\n0\n1\n1 t\n1\n1\n19 2024-01-02 03:04:05\n19 2024-01-02 04:04:05\n0\n";
    let p = parse_project(text).expect("well-formed text must parse");
    assert_eq!(p.name, "p");
    assert_eq!(p.tasks.len(), 1);
    assert!(p.tasks[0].finished);
    let s = &p.tasks[0].sessions[0];
    assert_eq!(s.start_time, 1_704_164_645);
    assert_eq!(s.end_time, Some(1_704_168_245));
}

#[test]
fn parse_rejects_malformed_text() {
    assert_eq!(parse_project("not a stored project"), Err(LoadError::ParseError));
    assert_eq!(parse_project(""), Err(LoadError::ParseError));
    assert_eq!(parse_project("4 demo\n1\n4 Misc\n"), Err(LoadError::ParseError));
}

#[test]
fn parse_rejects_trailing_text() {
    assert_eq!(parse_project("4 demo\n1\n4 Misc\n0\nx"), Err(LoadError::ParseError));
}

#[test]
fn parse_rejects_bad_category_letter() {
    let text = "1 p\n0\n1\n1 t\n0\n1\n19 1970-01-01 00:00:42\n-\n1\nX T\n";
    assert_eq!(parse_project(text), Err(LoadError::ParseError));
}

#[test]
fn parse_all_skips_malformed_entries() {
    let good = serialize_project(&demo_project());
    let contents = vec![good, "garbage that does not parse".to_string()];
    let projects = parse_all(&contents);
    assert_eq!(projects.len(), 1);
    assert_eq!(projects[0], demo_project());
}

#[test]
fn parse_all_yields_one_project_per_good_entry_in_order() {
    let first = demo_project();
    let second = Project::new("other".to_string(), None);
    let contents = vec![
        serialize_project(&first),
        "malformed".to_string(),
        serialize_project(&second),
    ];
    let projects = parse_all(&contents);
    assert_eq!(projects.len(), 2);
    assert_eq!(projects[0], first);
    assert_eq!(projects[1], second);
}

#[test]
fn status_reports_open_session_against_now() {
    let p = demo_project();
    let report = status_at(&p, 250);
    assert_eq!(report.len(), 1);
    assert_eq!(report[0].name, "Task1");
    assert!(!report[0].finished);
    let line = &report[0].sessions[0];
    assert_eq!(line.start_time, 100);
    assert_eq!(line.end_time, 250);
    assert!(line.open);
    assert_eq!(line.duration_secs, 150);
    assert_eq!(line.state_changes, vec![(Category::Casual, Category::TimePass)]);
}

#[test]
fn status_reports_closed_session_fixed_duration() {
    let mut p = demo_project();
    p.tasks[0].sessions[0].end_time = Some(180);
    p.tasks[0].finished = true;
    let report = status_at(&p, 9_999);
    let line = &report[0].sessions[0];
    assert_eq!(line.end_time, 180);
    assert!(!line.open);
    assert_eq!(line.duration_secs, 80);
    assert!(report[0].finished);
}

#[test]
fn status_duration_is_nonnegative_even_if_clock_ran_backwards() {
    let p = demo_project();
    let report = status_at(&p, 40);
    assert_eq!(report[0].sessions[0].duration_secs, 60);
}

#[test]
fn timestamps_in_range_checks_every_session() {
    assert!(timestamps_in_range(&demo_project()));
    let mut p = demo_project();
    p.tasks[0].sessions[0].start_time = -1;
    assert!(!timestamps_in_range(&p));
    let mut q = demo_project();
    q.tasks[0].sessions[0].end_time = Some(i64::MAX);
    assert!(!timestamps_in_range(&q));
}
