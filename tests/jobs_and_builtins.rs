use rush::builtins::{
    apply_export, apply_unset, builtin_kind, dispatch_builtin, echo_text, parse_job_id,
    split_assignment, Builtin,
};
use rush::env_vars::Environment;
use rush::executor::{
    pipeline_stages, runs_in_background, stage_sink, stage_source, stages_all_named, Sink, Source,
};
use rush::job_control::JobControl;
use rush::parser::parse_input;

#[test]
fn background_job_listed_until_foregrounded() {
    let mut jobs = JobControl::new();
    assert!(jobs.list_jobs().is_empty());
    let id = jobs.add_job(4242);
    assert_eq!(id, 1);
    assert_eq!(jobs.list_jobs(), vec![(1, 4242)]);
    assert_eq!(jobs.get_job(1), Some(4242));
    jobs.remove_job(1);
    assert!(jobs.list_jobs().is_empty());
    assert_eq!(jobs.get_job(1), None);
}

#[test]
fn job_handles_are_never_reused() {
    let mut jobs = JobControl::new();
    assert_eq!(jobs.add_job(10), 1);
    assert_eq!(jobs.add_job(20), 2);
    jobs.remove_job(2);
    assert_eq!(jobs.add_job(30), 3);
    assert_eq!(jobs.list_jobs(), vec![(1, 10), (3, 30)]);
    jobs.remove_job(7);
    assert_eq!(jobs.list_jobs(), vec![(1, 10), (3, 30)]);
}

#[test]
fn builtin_names() {
    assert_eq!(builtin_kind("cd"), Some(Builtin::Cd));
    assert_eq!(builtin_kind("fg"), Some(Builtin::Fg));
    assert_eq!(builtin_kind("help"), Some(Builtin::Help));
    assert_eq!(builtin_kind("exit"), Some(Builtin::Exit));
    assert_eq!(builtin_kind("ls"), None);
    assert_eq!(builtin_kind("cdx"), None);
    assert_eq!(builtin_kind(""), None);
}

#[test]
fn echo_joins_with_spaces() {
    assert_eq!(echo_text(&vec!["a".to_string(), "b c".to_string(), "d".to_string()]), "a b c d");
    assert_eq!(echo_text(&vec![]), "");
    assert_eq!(echo_text(&vec!["x".to_string()]), "x");
}

#[test]
fn assignment_splits_at_first_equals() {
    assert_eq!(split_assignment("A=b=c"), Some(("A".to_string(), "b=c".to_string())));
    assert_eq!(split_assignment("A="), Some(("A".to_string(), String::new())));
    assert_eq!(split_assignment("novalue"), None);
}

#[test]
fn job_handle_parsing() {
    assert_eq!(parse_job_id("1"), Some(1));
    assert_eq!(parse_job_id("+12"), Some(12));
    assert_eq!(parse_job_id("4294967295"), Some(4294967295));
    assert_eq!(parse_job_id("4294967296"), None);
    assert_eq!(parse_job_id(""), None);
    assert_eq!(parse_job_id("+"), None);
    assert_eq!(parse_job_id("-1"), None);
    assert_eq!(parse_job_id("1a"), None);
}

#[test]
fn pipeline_wiring() {
    let cmds = parse_input("printf abc | grep b > out | wc < in");
    let stages = pipeline_stages(&cmds[0]);
    assert_eq!(stages.len(), 3);
    assert_eq!(stages[1].name, "grep");
    assert_eq!(stage_source(0, stages[0]), Source::Inherit);
    assert_eq!(stage_sink(0, 3, stages[0]), Sink::Pipe(0));
    assert_eq!(stage_source(1, stages[1]), Source::Pipe(0));
    assert_eq!(stage_sink(1, 3, stages[1]), Sink::Truncate("out".to_string()));
    assert_eq!(stage_source(2, stages[2]), Source::File("in".to_string()));
    assert_eq!(stage_sink(2, 3, stages[2]), Sink::Inherit);

    let cmds = parse_input("echo bye >> f");
    let stages = pipeline_stages(&cmds[0]);
    assert_eq!(stages.len(), 1);
    assert_eq!(stage_sink(0, 1, stages[0]), Sink::Append("f".to_string()));
}

#[test]
fn builtins_match_by_name_alone() {
    let cmds = parse_input("echo hi");
    assert_eq!(dispatch_builtin(&cmds[0]), Some(Builtin::Echo));
    let cmds = parse_input("echo hi > f");
    assert_eq!(dispatch_builtin(&cmds[0]), Some(Builtin::Echo));
    let cmds = parse_input("export A=1 | cat");
    assert_eq!(dispatch_builtin(&cmds[0]), Some(Builtin::Export));
    let cmds = parse_input("fg 1 >> f");
    assert_eq!(dispatch_builtin(&cmds[0]), Some(Builtin::Fg));
    let cmds = parse_input("ls -l > f");
    assert_eq!(dispatch_builtin(&cmds[0]), None);
}

#[test]
fn lines_with_an_unnamed_stage_are_flagged() {
    assert!(stages_all_named(&parse_input("ls | wc & echo x")));
    assert!(!stages_all_named(&parse_input("ls |")));
    assert!(stages_all_named(&parse_input("")));
}

#[test]
fn export_and_unset_apply_in_order() {
    let mut env = Environment::new();
    let args = vec!["A=1".to_string(), "bad".to_string(), "B=x=y".to_string(), "A=2".to_string()];
    assert_eq!(apply_export(&mut env, &args), 1);
    assert_eq!(env.get_var("A").map(|s| s.as_str()), Some("2"));
    assert_eq!(env.get_var("B").map(|s| s.as_str()), Some("x=y"));
    apply_unset(&mut env, &vec!["A".to_string(), "Z".to_string()]);
    assert!(env.get_var("A").is_none());
    assert_eq!(env.get_var("B").map(|s| s.as_str()), Some("x=y"));
}

#[test]
fn background_decided_by_last_stage() {
    let cmds = parse_input("sleep 1 | cat &");
    assert!(runs_in_background(&pipeline_stages(&cmds[0])));
    let cmds = parse_input("sleep 1 | cat");
    assert!(!runs_in_background(&pipeline_stages(&cmds[0])));
    assert!(!runs_in_background(&vec![]));
}
