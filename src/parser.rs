use vstd::prelude::*;

use crate::command::{Command, CommandModel, Operator, strings_view};
use crate::lexer::{lemma_tokens_space, tokenize, tokens};

verus! {

/// A stage that holds only its name.
pub open spec fn new_model(name: Seq<char>) -> CommandModel {
    CommandModel {
        name,
        args: seq![],
        operator: Operator::NoOp,
        next: None,
        input_redirection: None,
        output_redirection: None,
        append_output: false,
        background: false,
    }
}

/// The tokens that the parser acts on: pipe, redirections and background.
pub open spec fn is_control(t: Seq<char>) -> bool {
    t == seq!['|'] || t == seq!['<'] || t == seq!['>'] || t == seq!['>', '>'] || t == seq!['&']
}

/// Scans the rest of a stage from token `i`, with `c` built so far; returns
/// the stage and the index of the first token it did not consume.
pub open spec fn scan(t: Seq<Seq<char>>, i: int, c: CommandModel) -> (CommandModel, int)
    decreases t.len() - i, 0int,
{
    if i < 0 || i >= t.len() {
        (c, i)
    } else if t[i] == seq!['|'] {
        let (nx, j) = parse_stage(t, i + 1);
        (CommandModel { operator: Operator::Pipe, next: Some(Box::new(nx)), ..c }, j)
    } else if t[i] == seq!['<'] {
        if i + 1 < t.len() {
            scan(t, i + 2, CommandModel { input_redirection: Some(t[i + 1]), ..c })
        } else {
            (c, i + 1)
        }
    } else if t[i] == seq!['>'] || t[i] == seq!['>', '>'] {
        if i + 1 < t.len() {
            scan(
                t,
                i + 2,
                CommandModel {
                    output_redirection: Some(t[i + 1]),
                    append_output: t[i] == seq!['>', '>'],
                    ..c
                },
            )
        } else {
            (c, i + 1)
        }
    } else if t[i] == seq!['&'] {
        (CommandModel { operator: Operator::Background, background: true, ..c }, i + 1)
    } else {
        scan(t, i + 1, CommandModel { args: c.args.push(t[i]), ..c })
    }
}

/// Parses one stage from token `i`: its name is that token (empty where none
/// is left), and the stages that follow a pipe hang off it.
pub open spec fn parse_stage(t: Seq<Seq<char>>, i: int) -> (CommandModel, int)
    decreases t.len() - i, 1int,
{
    if 0 <= i < t.len() {
        scan(t, i + 1, new_model(t[i]))
    } else {
        scan(t, i, new_model(seq![]))
    }
}

/// The stages of a whole token sequence from token `i`: each one that does
/// not hang off a pipe starts a new top-level command.
pub open spec fn parse_all(t: Seq<Seq<char>>, i: int) -> Seq<CommandModel>
    decreases t.len() - i,
    via parse_all_decreases
{
    if 0 <= i < t.len() {
        seq![parse_stage(t, i).0] + parse_all(t, parse_stage(t, i).1)
    } else {
        seq![]
    }
}

/// The stages that a line parses into, after it is split into tokens.
pub open spec fn parse_line(s: Seq<char>) -> Seq<CommandModel> {
    parse_all(tokens(s), 0)
}

/// Scanning a stage never moves backwards nor past the end.
pub proof fn lemma_scan_bounds(t: Seq<Seq<char>>, i: int, c: CommandModel)
    requires
        0 <= i <= t.len(),
    ensures
        i <= scan(t, i, c).1 <= t.len(),
    decreases t.len() - i, 0int,
{
    if i < t.len() {
        if t[i] == seq!['|'] {
            lemma_stage_bounds(t, i + 1);
        } else if t[i] == seq!['<'] {
            if i + 1 < t.len() {
                lemma_scan_bounds(t, i + 2, CommandModel { input_redirection: Some(t[i + 1]), ..c });
            }
        } else if t[i] == seq!['>'] || t[i] == seq!['>', '>'] {
            if i + 1 < t.len() {
                lemma_scan_bounds(
                    t,
                    i + 2,
                    CommandModel {
                        output_redirection: Some(t[i + 1]),
                        append_output: t[i] == seq!['>', '>'],
                        ..c
                    },
                );
            }
        } else if t[i] == seq!['&'] {
        } else {
            lemma_scan_bounds(t, i + 1, CommandModel { args: c.args.push(t[i]), ..c });
        }
    }
}

/// Parsing a stage consumes at least its name, where one is left.
pub proof fn lemma_stage_bounds(t: Seq<Seq<char>>, i: int)
    requires
        0 <= i <= t.len(),
    ensures
        i <= parse_stage(t, i).1 <= t.len(),
        i < t.len() ==> i < parse_stage(t, i).1,
    decreases t.len() - i, 1int,
{
    if i < t.len() {
        lemma_scan_bounds(t, i + 1, new_model(t[i]));
    } else {
        lemma_scan_bounds(t, i, new_model(seq![]));
    }
}

#[via_fn]
proof fn parse_all_decreases(t: Seq<Seq<char>>, i: int) {
    if 0 <= i < t.len() {
        lemma_stage_bounds(t, i);
    }
}

/// Whether a token is the one-character operator `a`.
fn token_is(tok: &String, a: char) -> (r: bool)
    ensures
        r == (tok@ == seq![a]),
{
    let s = tok.as_str();
    if s.unicode_len() == 1 && s.get_char(0) == a {
        assert(tok@ =~= seq![a]);
        true
    } else {
        false
    }
}

/// Whether a token is `>>`.
fn token_is_append(tok: &String) -> (r: bool)
    ensures
        r == (tok@ == seq!['>', '>']),
{
    let s = tok.as_str();
    if s.unicode_len() == 2 && s.get_char(0) == '>' && s.get_char(1) == '>' {
        assert(tok@ =~= seq!['>', '>']);
        true
    } else {
        false
    }
}

/// Parses one stage from token `start`, the stages after a pipe included;
/// returns it with the index of the first token it did not consume.
pub fn parse_command(tokens: &Vec<String>, start: usize) -> (r: (Command, usize))
    requires
        start <= tokens.len(),
    ensures
        (r.0@, r.1 as int) == parse_stage(strings_view(tokens@), start as int),
    decreases tokens.len() - start, 1int,
{
    let ghost t = strings_view(tokens@);
    let mut k: usize = start;
    let name = if start < tokens.len() {
        k = start + 1;
        tokens[start].clone()
    } else {
        String::new()
    };
    let mut command = Command {
        name,
        args: Vec::new(),
        operator: Operator::NoOp,
        next: None,
        input_redirection: None,
        output_redirection: None,
        append_output: false,
        background: false,
    };
    assert(strings_view(command.args@) =~= seq![]);
    assert(command@ == new_model(if start < tokens.len() { t[start as int] } else { seq![] }));
    while k < tokens.len()
        invariant
            t == strings_view(tokens@),
            start <= k <= tokens.len(),
            start < tokens.len() ==> start < k,
            scan(t, k as int, command@) == parse_stage(t, start as int),
        decreases tokens.len() - k,
    {
        let tok = &tokens[k];
        let ghost c = command@;
        if token_is(tok, '|') {
            let (nx, j) = parse_command(tokens, k + 1);
            command.operator = Operator::Pipe;
            command.next = Some(Box::new(nx));
            assert(command@ == CommandModel { operator: Operator::Pipe, next: Some(Box::new(nx@)), ..c });
            return (command, j);
        } else if token_is(tok, '<') {
            k = k + 1;
            if k < tokens.len() {
                command.input_redirection = Some(tokens[k].clone());
                k = k + 1;
                assert(command@ == CommandModel { input_redirection: Some(t[k - 1]), ..c });
            } else {
                return (command, k);
            }
        } else if token_is(tok, '>') || token_is_append(tok) {
            let append = token_is_append(tok);
            k = k + 1;
            if k < tokens.len() {
                command.output_redirection = Some(tokens[k].clone());
                command.append_output = append;
                k = k + 1;
                assert(command@ == CommandModel {
                    output_redirection: Some(t[k - 1]),
                    append_output: t[k - 2] == seq!['>', '>'],
                    ..c
                });
            } else {
                return (command, k);
            }
        } else if token_is(tok, '&') {
            command.operator = Operator::Background;
            command.background = true;
            assert(command@ == CommandModel { operator: Operator::Background, background: true, ..c });
            return (command, k + 1);
        } else {
            command.args.push(tok.clone());
            assert(strings_view(command.args@) =~= c.args.push(t[k as int]));
            assert(command@ == CommandModel { args: c.args.push(t[k as int]), ..c });
            k = k + 1;
        }
    }
    (command, k)
}

/// Splits a line into tokens and parses them into top-level commands, the
/// stages after a pipe hanging off the stage before it.
pub fn parse_input(input: &str) -> (r: Vec<Command>)
    ensures
        r@.map_values(|c: Command| c@) == parse_line(input@),
{
    let toks = tokenize(input);
    let ghost t = strings_view(toks@);
    assert(t == tokens(input@));
    let mut commands: Vec<Command> = Vec::new();
    let mut k: usize = 0;
    while k < toks.len()
        invariant
            t == strings_view(toks@),
            t == tokens(input@),
            k <= toks.len(),
            commands@.map_values(|c: Command| c@) + parse_all(t, k as int) == parse_all(t, 0),
        decreases toks.len() - k,
    {
        let ghost before = commands@.map_values(|c: Command| c@);
        let (command, j) = parse_command(&toks, k);
        proof {
            lemma_stage_bounds(t, k as int);
        }
        commands.push(command);
        assert(commands@.map_values(|c: Command| c@) =~= before.push(parse_stage(t, k as int).0));
        assert(before.push(parse_stage(t, k as int).0) + parse_all(t, j as int) =~= before + parse_all(t, k as int));
        k = j;
    }
    assert(commands@.map_values(|c: Command| c@) + seq![] =~= commands@.map_values(|c: Command| c@));
    commands
}

/// Tokens that are not pipe, redirection or background operators, from `i`
/// up to `k`, only add arguments to the stage being scanned.
pub proof fn lemma_scan_plain(t: Seq<Seq<char>>, i: int, k: int, c: CommandModel)
    requires
        0 <= i <= k <= t.len(),
        forall|j: int| i <= j < k ==> !is_control(#[trigger] t[j]),
    ensures
        scan(t, i, c) == scan(t, k, CommandModel { args: c.args + t.subrange(i, k), ..c }),
    decreases k - i,
{
    if i == k {
        assert(c.args + t.subrange(i, k) =~= c.args);
    } else {
        let c1 = CommandModel { args: c.args.push(t[i]), ..c };
        lemma_scan_plain(t, i + 1, k, c1);
        assert(c1.args + t.subrange(i + 1, k) =~= c.args + t.subrange(i, k));
    }
}

/// The stage that a run of plain tokens `t[i..k]` forms, where `t[k]` is the
/// first operator or `k` is the end.
pub open spec fn plain_stage(t: Seq<Seq<char>>, i: int, k: int) -> CommandModel {
    CommandModel { args: t.subrange(i + 1, k), ..new_model(t[i]) }
}

/// A line whose tokens hold no pipe, redirection or background operator
/// parses into exactly one command: its first token is the name and all the
/// others, in order, are the arguments.
pub proof fn lemma_plain_line(s: Seq<char>)
    requires
        tokens(s).len() > 0,
        forall|j: int| 0 <= j < tokens(s).len() ==> !is_control(#[trigger] tokens(s)[j]),
    ensures
        parse_line(s) == seq![plain_stage(tokens(s), 0, tokens(s).len() as int)],
        parse_line(s)[0].name == tokens(s)[0],
        parse_line(s)[0].args == tokens(s).skip(1),
{
    let t = tokens(s);
    lemma_scan_plain(t, 1, t.len() as int, new_model(t[0]));
    assert(seq![] + t.subrange(1, t.len() as int) =~= t.subrange(1, t.len() as int));
    assert(t.subrange(1, t.len() as int) =~= t.skip(1));
    assert(parse_all(t, t.len() as int) == Seq::<CommandModel>::empty());
    assert(parse_all(t, 0) =~= seq![plain_stage(t, 0, t.len() as int)]);
}

/// Whether `w` is a command made of plain tokens only.
pub open spec fn is_plain_command(w: Seq<Seq<char>>) -> bool {
    w.len() > 0 && forall|j: int| 0 <= j < w.len() ==> !is_control(#[trigger] w[j])
}

/// The stage that the plain command `w` forms, ended by `operator`, with
/// `rest` after it.
pub open spec fn plain_model(
    w: Seq<Seq<char>>,
    operator: Operator,
    background: bool,
    rest: Option<Box<CommandModel>>,
) -> CommandModel {
    CommandModel { args: w.skip(1), operator, background, next: rest, ..new_model(w[0]) }
}

/// The terminator of the last stage: `&`, or nothing.
pub open spec fn terminator(background: bool) -> Seq<Seq<char>> {
    if background {
        seq![seq!['&']]
    } else {
        seq![]
    }
}

/// A line of the form `A | B | C` (or `A | B | C &`), with plain commands
/// `A`, `B` and `C`, parses into one chain of three stages linked through
/// `next`: the first two end in a pipe, the last in its own terminator,
/// `Background` after `&` and no operator otherwise.
pub proof fn lemma_three_stage_pipeline(
    s: Seq<char>,
    a: Seq<Seq<char>>,
    b: Seq<Seq<char>>,
    c: Seq<Seq<char>>,
    background: bool,
)
    requires
        is_plain_command(a),
        is_plain_command(b),
        is_plain_command(c),
        tokens(s) == a + seq![seq!['|']] + b + seq![seq!['|']] + c + terminator(background),
    ensures
        parse_line(s) == seq![
            plain_model(
                a,
                Operator::Pipe,
                false,
                Some(
                    Box::new(
                        plain_model(
                            b,
                            Operator::Pipe,
                            false,
                            Some(
                                Box::new(
                                    plain_model(
                                        c,
                                        if background { Operator::Background } else { Operator::NoOp },
                                        background,
                                        None,
                                    ),
                                ),
                            ),
                        ),
                    ),
                ),
            ),
        ],
{
    let t = tokens(s);
    let la = a.len() as int;
    let lb = b.len() as int;
    let lc = c.len() as int;
    let p2 = la + 1 + lb;
    let e = p2 + 1 + lc;
    let n = t.len() as int;
    assert(n == e + if background { 1int } else { 0int });
    assert forall|j: int| 0 <= j < la implies t[j] == a[j] by {}
    assert forall|j: int| 0 <= j < lb implies t[la + 1 + j] == b[j] by {}
    assert forall|j: int| 0 <= j < lc implies t[p2 + 1 + j] == c[j] by {}
    assert(t[la] == seq!['|']);
    assert(t[p2] == seq!['|']);
    assert(background ==> t[e] == seq!['&']);
    assert forall|j: int| 1 <= j < la implies !is_control(#[trigger] t[j]) by {
        assert(t[j] == a[j]);
    }
    assert forall|j: int| la + 2 <= j < p2 implies !is_control(#[trigger] t[j]) by {
        assert(t[j] == b[j - la - 1]);
    }
    assert forall|j: int| p2 + 2 <= j < e implies !is_control(#[trigger] t[j]) by {
        assert(t[j] == c[j - p2 - 1]);
    }
    // the last stage
    lemma_scan_plain(t, p2 + 2, e, new_model(t[p2 + 1]));
    assert(seq![] + t.subrange(p2 + 2, e) =~= c.skip(1));
    let sc = plain_model(c, if background { Operator::Background } else { Operator::NoOp }, background, None);
    let ce = CommandModel { args: seq![] + t.subrange(p2 + 2, e), ..new_model(t[p2 + 1]) };
    if background {
        let amp: Seq<char> = seq!['&'];
        assert(amp[0] == '&');
        assert(t[e] != seq!['|']) by { assert(seq!['|'][0] == '|'); }
        assert(t[e] != seq!['<']) by { assert(seq!['<'][0] == '<'); }
        assert(t[e] != seq!['>']) by { assert(seq!['>'][0] == '>'); }
        assert(t[e] != seq!['>', '>']) by { assert(seq!['>', '>'].len() == 2); }
        assert(scan(t, e, ce) == (CommandModel { operator: Operator::Background, background: true, ..ce }, e + 1));
    } else {
        assert(scan(t, e, ce) == (ce, e));
    }
    assert(parse_stage(t, p2 + 1) == (sc, n));
    // the middle stage
    lemma_scan_plain(t, la + 2, p2, new_model(t[la + 1]));
    assert(seq![] + t.subrange(la + 2, p2) =~= b.skip(1));
    let sb = plain_model(b, Operator::Pipe, false, Some(Box::new(sc)));
    assert(parse_stage(t, la + 1) == (sb, n));
    // the first stage
    lemma_scan_plain(t, 1, la, new_model(t[0]));
    assert(seq![] + t.subrange(1, la) =~= a.skip(1));
    let sa = plain_model(a, Operator::Pipe, false, Some(Box::new(sb)));
    assert(parse_stage(t, 0) == (sa, n));
    assert(parse_all(t, n) == Seq::<CommandModel>::empty());
    assert(parse_all(t, 0) =~= seq![sa]);
}

/// The text that ends the last stage: ` &`, or nothing.
pub open spec fn terminator_text(background: bool) -> Seq<char> {
    if background {
        seq![' ', '&']
    } else {
        seq![]
    }
}

/// The same law on the text itself: the line `A | B | C` (or `A | B | C &`),
/// where each of `A`, `B` and `C` splits into plain tokens, parses into one
/// chain of three stages with those tokens as names and arguments.
pub proof fn lemma_three_stage_pipeline_text(
    a: Seq<char>,
    b: Seq<char>,
    c: Seq<char>,
    background: bool,
)
    requires
        is_plain_command(tokens(a)),
        is_plain_command(tokens(b)),
        is_plain_command(tokens(c)),
    ensures
        parse_line(a + seq![' ', '|', ' '] + b + seq![' ', '|', ' '] + c + terminator_text(background))
            == seq![
            plain_model(
                tokens(a),
                Operator::Pipe,
                false,
                Some(
                    Box::new(
                        plain_model(
                            tokens(b),
                            Operator::Pipe,
                            false,
                            Some(
                                Box::new(
                                    plain_model(
                                        tokens(c),
                                        if background { Operator::Background } else { Operator::NoOp },
                                        background,
                                        None,
                                    ),
                                ),
                            ),
                        ),
                    ),
                ),
            ),
        ],
{
    let s = a + seq![' ', '|', ' '] + b + seq![' ', '|', ' '] + c + terminator_text(background);
    let pipe: Seq<char> = seq!['|'];
    let amp: Seq<char> = seq!['&'];
    let e: Seq<char> = seq![];
    assert(tokens(pipe) =~= seq![seq!['|']]) by {
        assert(tokens(pipe) == seq![pipe.take(1)] + tokens(pipe.skip(1)));
        assert(pipe.skip(1) =~= e);
        assert(pipe.take(1) =~= seq!['|']);
    }
    assert(tokens(amp) =~= seq![seq!['&']]) by {
        assert(tokens(amp) == seq![amp.take(1)] + tokens(amp.skip(1)));
        assert(amp.skip(1) =~= e);
        assert(amp.take(1) =~= seq!['&']);
    }
    let tail = c + terminator_text(background);
    if background {
        assert(tail =~= c + seq![' '] + amp);
        lemma_tokens_space(c, amp);
    } else {
        assert(tail =~= c);
    }
    assert(tokens(tail) == tokens(c) + terminator(background));
    let r2 = pipe + seq![' '] + tail;
    lemma_tokens_space(pipe, tail);
    let r1 = b + seq![' '] + r2;
    lemma_tokens_space(b, r2);
    let r0 = pipe + seq![' '] + r1;
    lemma_tokens_space(pipe, r1);
    lemma_tokens_space(a, r0);
    assert(s =~= a + seq![' '] + r0);
    assert(tokens(s) =~= tokens(a) + seq![seq!['|']] + tokens(b) + seq![seq!['|']] + tokens(c) + terminator(
        background,
    ));
    lemma_three_stage_pipeline(s, tokens(a), tokens(b), tokens(c), background);
}

} // verus!
