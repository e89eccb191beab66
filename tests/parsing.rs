use rush::command::{Command, Operator};
use rush::lexer::{split_fields, tokenize};
use rush::parser::parse_input;

fn strs(v: &[&str]) -> Vec<String> {
    v.iter().map(|s| s.to_string()).collect()
}

#[test]
fn plain_line_gives_one_command_with_all_arguments() {
    let cmds = parse_input("ls -l  /tmp\tfoo");
    assert_eq!(cmds.len(), 1);
    assert_eq!(cmds[0].name, "ls");
    assert_eq!(cmds[0].args, strs(&["-l", "/tmp", "foo"]));
    assert_eq!(cmds[0].operator, Operator::NoOp);
    assert!(cmds[0].next.is_none());
    assert!(!cmds[0].background);
    assert!(cmds[0].input_redirection.is_none());
    assert!(cmds[0].output_redirection.is_none());
}

#[test]
fn three_stage_pipeline_is_a_chain() {
    let cmds = parse_input("cat notes.txt | grep todo | wc -l");
    assert_eq!(cmds.len(), 1);
    let a = &cmds[0];
    assert_eq!(a.name, "cat");
    assert_eq!(a.args, strs(&["notes.txt"]));
    assert_eq!(a.operator, Operator::Pipe);
    let b = a.next.as_ref().unwrap();
    assert_eq!(b.name, "grep");
    assert_eq!(b.args, strs(&["todo"]));
    assert_eq!(b.operator, Operator::Pipe);
    let c = b.next.as_ref().unwrap();
    assert_eq!(c.name, "wc");
    assert_eq!(c.args, strs(&["-l"]));
    assert_eq!(c.operator, Operator::NoOp);
    assert!(c.next.is_none());
}

#[test]
fn last_stage_of_pipeline_may_run_in_background() {
    let cmds = parse_input("yes | head &");
    assert_eq!(cmds.len(), 1);
    let b = cmds[0].next.as_ref().unwrap();
    assert!(b.background);
    assert_eq!(b.operator, Operator::Background);
    assert!(!cmds[0].background);
}

#[test]
fn empty_and_blank_lines_parse_to_nothing() {
    assert!(parse_input("").is_empty());
    assert!(parse_input("  \t ").is_empty());
}

#[test]
fn operators_split_from_words() {
    assert_eq!(
        tokenize("ls|grep x>out"),
        strs(&["ls", "|", "grep", "x", ">", "out"])
    );
    assert_eq!(tokenize("a>>b<c&"), strs(&["a", ">>", "b", "<", "c", "&"]));
    assert_eq!(tokenize("a || b && c"), strs(&["a", "||", "b", "&", "&", "c"]));
    assert_eq!(tokenize("'x y'"), strs(&["'x", "y'"]));
    assert!(tokenize("").is_empty());
}

#[test]
fn double_bar_is_an_argument() {
    let cmds = parse_input("a || b");
    assert_eq!(cmds.len(), 1);
    assert_eq!(cmds[0].args, strs(&["||", "b"]));
}

#[test]
fn redirections_are_recorded() {
    let cmds = parse_input("sort < in.txt > out.txt");
    assert_eq!(cmds.len(), 1);
    assert_eq!(cmds[0].name, "sort");
    assert!(cmds[0].args.is_empty());
    assert_eq!(cmds[0].input_redirection.as_deref(), Some("in.txt"));
    assert_eq!(cmds[0].output_redirection.as_deref(), Some("out.txt"));
    assert!(!cmds[0].append_output);

    let cmds = parse_input("echo bye >> f");
    assert_eq!(cmds[0].output_redirection.as_deref(), Some("f"));
    assert!(cmds[0].append_output);
    assert_eq!(cmds[0].args, strs(&["bye"]));

    let cmds = parse_input("echo a >> f > g");
    assert_eq!(cmds[0].output_redirection.as_deref(), Some("g"));
    assert!(!cmds[0].append_output);
}

#[test]
fn missing_redirection_target_is_ignored() {
    let cmds = parse_input("echo hi >");
    assert_eq!(cmds.len(), 1);
    assert!(cmds[0].output_redirection.is_none());
    assert_eq!(cmds[0].args, strs(&["hi"]));
    let cmds = parse_input("cat <");
    assert!(cmds[0].input_redirection.is_none());
}

#[test]
fn background_marker_ends_a_command() {
    let cmds = parse_input("sleep 1 & echo done");
    assert_eq!(cmds.len(), 2);
    assert!(cmds[0].background);
    assert_eq!(cmds[0].operator, Operator::Background);
    assert_eq!(cmds[0].args, strs(&["1"]));
    assert_eq!(cmds[1].operator, Operator::NoOp);
    assert_eq!(cmds[1].name, "echo");
    assert_eq!(cmds[1].args, strs(&["done"]));
}

#[test]
fn pipe_at_end_gives_stage_with_empty_name() {
    let cmds = parse_input("ls |");
    let next = cmds[0].next.as_ref().unwrap();
    assert!(next.is_empty());
    assert!(!cmds[0].is_empty());
}

#[test]
fn command_from_words() {
    let c = Command::new("  grep -n  main ");
    assert_eq!(c.bin_path(), "grep");
    assert_eq!(c.args, strs(&["-n", "main"]));
    assert_eq!(c.iter(), strs(&["grep", "-n", "main"]));
    let c = Command::new("a|b");
    assert_eq!(c.bin_path(), "a|b");
    let c = Command::new("   ");
    assert!(c.is_empty());
    assert!(c.iter().is_empty());
    let c = Command::new("a\u{a0}b\u{3000}c\u{2009}d");
    assert_eq!(c.bin_path(), "a");
    assert_eq!(c.args, strs(&["b", "c", "d"]));
    assert_eq!(c.iter(), strs(&["a", "b", "c", "d"]));
    assert_eq!(split_fields(" x\ty \n"), strs(&["x", "y"]));
    assert_eq!(split_fields("\u{85}x\u{2028}y\u{200b}z"), strs(&["x", "y\u{200b}z"]));
    // the parser's lexer keeps to ASCII whitespace
    assert_eq!(tokenize("a\u{a0}b"), strs(&["a\u{a0}b"]));
}

#[test]
fn three_stage_pipeline_in_background() {
    let cmds = parse_input("sleep 5 | sort -r | uniq &");
    assert_eq!(cmds.len(), 1);
    let a = &cmds[0];
    assert_eq!(a.operator, Operator::Pipe);
    assert!(!a.background);
    let b = a.next.as_ref().unwrap();
    assert_eq!(b.name, "sort");
    assert_eq!(b.args, strs(&["-r"]));
    assert_eq!(b.operator, Operator::Pipe);
    let c = b.next.as_ref().unwrap();
    assert_eq!(c.name, "uniq");
    assert_eq!(c.operator, Operator::Background);
    assert!(c.background);
    assert!(c.next.is_none());
}
