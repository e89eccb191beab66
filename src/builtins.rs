use vstd::prelude::*;

use crate::command::{strings_view, Command};
use crate::env_vars::Environment;

verus! {

/// The commands that the shell runs itself.
#[derive(Debug, Clone, Copy, PartialEq, Eq, Structural)]
pub enum Builtin {
    Cd,
    Pwd,
    Echo,
    Export,
    Unset,
    History,
    Clear,
    Exit,
    Jobs,
    Fg,
    Help,
}

/// The built-in command that `name` names, if any.
pub open spec fn builtin_of(name: Seq<char>) -> Option<Builtin> {
    if name == "cd"@ {
        Some(Builtin::Cd)
    } else if name == "pwd"@ {
        Some(Builtin::Pwd)
    } else if name == "echo"@ {
        Some(Builtin::Echo)
    } else if name == "export"@ {
        Some(Builtin::Export)
    } else if name == "unset"@ {
        Some(Builtin::Unset)
    } else if name == "history"@ {
        Some(Builtin::History)
    } else if name == "clear"@ {
        Some(Builtin::Clear)
    } else if name == "exit"@ {
        Some(Builtin::Exit)
    } else if name == "jobs"@ {
        Some(Builtin::Jobs)
    } else if name == "fg"@ {
        Some(Builtin::Fg)
    } else if name == "help"@ {
        Some(Builtin::Help)
    } else {
        None
    }
}

/// Whether `s` and `t` hold the same characters.
fn same_text(s: &str, t: &str) -> (r: bool)
    ensures
        r == (s@ == t@),
{
    let n = s.unicode_len();
    if n != t.unicode_len() {
        return false;
    }
    let mut i: usize = 0;
    while i < n
        invariant
            n == s@.len(),
            n == t@.len(),
            i <= n,
            forall|k: int| 0 <= k < i ==> s@[k] == t@[k],
        decreases n - i,
    {
        if s.get_char(i) != t.get_char(i) {
            return false;
        }
        i = i + 1;
    }
    assert(s@ =~= t@);
    true
}

/// The built-in command that `name` names, if any.
pub fn builtin_kind(name: &str) -> (r: Option<Builtin>)
    ensures
        r == builtin_of(name@),
{
    proof {
        reveal_strlit("cd");
        reveal_strlit("pwd");
        reveal_strlit("echo");
        reveal_strlit("export");
        reveal_strlit("unset");
        reveal_strlit("history");
        reveal_strlit("clear");
        reveal_strlit("exit");
        reveal_strlit("jobs");
        reveal_strlit("fg");
        reveal_strlit("help");
    }
    if same_text(name, "cd") {
        Some(Builtin::Cd)
    } else if same_text(name, "pwd") {
        Some(Builtin::Pwd)
    } else if same_text(name, "echo") {
        Some(Builtin::Echo)
    } else if same_text(name, "export") {
        Some(Builtin::Export)
    } else if same_text(name, "unset") {
        Some(Builtin::Unset)
    } else if same_text(name, "history") {
        Some(Builtin::History)
    } else if same_text(name, "clear") {
        Some(Builtin::Clear)
    } else if same_text(name, "exit") {
        Some(Builtin::Exit)
    } else if same_text(name, "jobs") {
        Some(Builtin::Jobs)
    } else if same_text(name, "fg") {
        Some(Builtin::Fg)
    } else if same_text(name, "help") {
        Some(Builtin::Help)
    } else {
        None
    }
}

/// The built-in that the shell runs for `command` itself, matched by its
/// name alone.
pub fn dispatch_builtin(command: &Command) -> (r: Option<Builtin>)
    ensures
        r == builtin_of(command@.name),
{
    builtin_kind(command.name.as_str())
}

/// The words joined with one space between each two.
pub open spec fn join_words(w: Seq<Seq<char>>) -> Seq<char>
    decreases w.len(),
{
    if w.len() == 0 {
        seq![]
    } else if w.len() == 1 {
        w[0]
    } else {
        join_words(w.drop_last()) + seq![' '] + w.last()
    }
}

/// What `echo` prints: its arguments joined with single spaces.
pub fn echo_text(args: &Vec<String>) -> (r: String)
    ensures
        r@ == join_words(strings_view(args@)),
{
    let mut out = String::new();
    let mut i: usize = 0;
    proof {
        reveal_strlit(" ");
    }
    while i < args.len()
        invariant
            i <= args@.len(),
            out@ == join_words(strings_view(args@).take(i as int)),
        decreases args@.len() - i,
    {
        proof {
            let w = strings_view(args@).take(i + 1);
            assert(w.drop_last() =~= strings_view(args@).take(i as int));
            assert(w.last() == args@[i as int]@);
            if i == 0 {
                assert(w =~= seq![args@[0]@]);
            }
        }
        let ghost before = out@;
        if i > 0 {
            proof {
                reveal_strlit(" ");
                assert(" "@ =~= seq![' ']);
            }
            out.append(" ");
            assert(out@ =~= before + seq![' ']);
        }
        out.append(args[i].as_str());
        proof {
            let w = strings_view(args@).take(i + 1);
            if i > 0 {
                assert(out@ =~= join_words(w.drop_last()) + seq![' '] + w.last());
            } else {
                assert(out@ =~= w[0]);
            }
        }
        i = i + 1;
    }
    assert(strings_view(args@).take(i as int) =~= strings_view(args@));
    out
}

/// The index of the first `=` in `s`, or its length where it has none.
pub open spec fn eq_pos(s: Seq<char>) -> nat
    decreases s.len(),
{
    if s.len() == 0 || s[0] == '=' {
        0
    } else {
        1 + eq_pos(s.drop_first())
    }
}

proof fn lemma_eq_pos(s: Seq<char>, i: int)
    requires
        0 <= i <= s.len(),
        forall|k: int| 0 <= k < i ==> s[k] != '=',
        i == s.len() || s[i] == '=',
    ensures
        eq_pos(s) == i,
    decreases i,
{
    if i > 0 {
        lemma_eq_pos(s.drop_first(), i - 1);
    }
}

/// Splits an `export` argument `NAME=value` at its first `=`; `None` where
/// it holds no `=`.
pub fn split_assignment(arg: &str) -> (r: Option<(String, String)>)
    ensures
        eq_pos(arg@) <= arg@.len(),
        r is None <==> eq_pos(arg@) == arg@.len(),
        match r {
            Some((name, value)) => name@ == arg@.take(eq_pos(arg@) as int) && value@ == arg@.skip(
                eq_pos(arg@) + 1int,
            ),
            None => true,
        },
{
    let n = arg.unicode_len();
    let mut i: usize = 0;
    while i < n
        invariant
            n == arg@.len(),
            i <= n,
            forall|k: int| 0 <= k < i ==> arg@[k] != '=',
        decreases n - i,
    {
        if arg.get_char(i) == '=' {
            proof {
                lemma_eq_pos(arg@, i as int);
            }
            let name = arg.substring_char(0, i).to_owned();
            let value = arg.substring_char(i + 1, n).to_owned();
            assert(name@ =~= arg@.take(i as int));
            assert(value@ =~= arg@.skip(i + 1));
            return Some((name, value));
        }
        i = i + 1;
    }
    proof {
        lemma_eq_pos(arg@, n as int);
    }
    None
}

/// The variables after `export` with arguments `args`, applied in order:
/// each `NAME=value` binds `NAME`, and one without `=` changes nothing.
pub open spec fn exported(m: Map<Seq<char>, Seq<char>>, args: Seq<Seq<char>>) -> Map<Seq<char>, Seq<char>>
    decreases args.len(),
{
    if args.len() == 0 {
        m
    } else {
        let before = exported(m, args.drop_last());
        let a = args.last();
        if eq_pos(a) < a.len() {
            before.insert(a.take(eq_pos(a) as int), a.skip(eq_pos(a) + 1int))
        } else {
            before
        }
    }
}

/// How many of `args` hold no `=`.
pub open spec fn malformed_count(args: Seq<Seq<char>>) -> nat
    decreases args.len(),
{
    if args.len() == 0 {
        0
    } else {
        malformed_count(args.drop_last()) + if eq_pos(args.last()) == args.last().len() {
            1nat
        } else {
            0nat
        }
    }
}

/// Runs `export` over its arguments; returns how many were malformed.
pub fn apply_export(env: &mut Environment, args: &Vec<String>) -> (r: usize)
    ensures
        final(env)@ == exported(old(env)@, strings_view(args@)),
        old(env).wf() ==> final(env).wf(),
        r == malformed_count(strings_view(args@)),
{
    let ghost a = strings_view(args@);
    let mut bad: usize = 0;
    let mut i: usize = 0;
    while i < args.len()
        invariant
            a == strings_view(args@),
            i <= args@.len(),
            env@ == exported(old(env)@, a.take(i as int)),
            old(env).wf() ==> env.wf(),
            bad == malformed_count(a.take(i as int)),
            bad <= i,
        decreases args@.len() - i,
    {
        proof {
            assert(a.take(i + 1).drop_last() =~= a.take(i as int));
            assert(a.take(i + 1).last() == args@[i as int]@);
        }
        let ghost w = a[i as int];
        assert(exported(old(env)@, a.take(i + 1)) == if eq_pos(w) < w.len() {
            exported(old(env)@, a.take(i as int)).insert(w.take(eq_pos(w) as int), w.skip(eq_pos(w) + 1int))
        } else {
            exported(old(env)@, a.take(i as int))
        });
        assert(w == args@[i as int]@);
        let ghost prev = env@;
        match split_assignment(args[i].as_str()) {
            Some((name, value)) => {
                env.set_var(name.as_str(), value.as_str());
                assert(env@ == prev.insert(w.take(eq_pos(w) as int), w.skip(eq_pos(w) + 1int)));
            },
            None => {
                bad = bad + 1;
            },
        }
        i = i + 1;
    }
    assert(a.take(i as int) =~= a);
    bad
}

/// The variables after `unset` with arguments `args`.
pub open spec fn unset_all(m: Map<Seq<char>, Seq<char>>, args: Seq<Seq<char>>) -> Map<Seq<char>, Seq<char>>
    decreases args.len(),
{
    if args.len() == 0 {
        m
    } else {
        unset_all(m, args.drop_last()).remove(args.last())
    }
}

/// Runs `unset` over its arguments.
pub fn apply_unset(env: &mut Environment, args: &Vec<String>)
    ensures
        final(env)@ == unset_all(old(env)@, strings_view(args@)),
        old(env).wf() ==> final(env).wf(),
{
    let ghost a = strings_view(args@);
    let mut i: usize = 0;
    while i < args.len()
        invariant
            a == strings_view(args@),
            i <= args@.len(),
            env@ == unset_all(old(env)@, a.take(i as int)),
            old(env).wf() ==> env.wf(),
        decreases args@.len() - i,
    {
        proof {
            assert(a.take(i + 1).drop_last() =~= a.take(i as int));
            assert(a.take(i + 1).last() == args@[i as int]@);
        }
        env.remove_var(args[i].as_str());
        i = i + 1;
    }
    assert(a.take(i as int) =~= a);
}

/// The value of a run of decimal digits.
pub open spec fn digits_value(s: Seq<char>) -> nat
    decreases s.len(),
{
    if s.len() == 0 {
        0
    } else {
        digits_value(s.drop_last()) * 10 + (s.last() as nat - '0' as nat) as nat
    }
}

/// A decimal digit.
pub open spec fn is_digit(c: char) -> bool {
    '0' <= c && c <= '9'
}

/// What follows an optional leading `+`.
pub open spec fn unsigned_part(s: Seq<char>) -> Seq<char> {
    if s.len() > 0 && s[0] == '+' {
        s.drop_first()
    } else {
        s
    }
}

/// Whether `d` is one or more decimal digits.
pub open spec fn all_digits(d: Seq<char>) -> bool {
    d.len() > 0 && forall|k: int| 0 <= k < d.len() ==> is_digit(#[trigger] d[k])
}

/// Reads the job handle that `fg` is given: a decimal number that fits in
/// 32 bits, with an optional leading `+`.
pub fn parse_job_id(s: &str) -> (r: Option<u32>)
    ensures
        r is Some <==> (all_digits(unsigned_part(s@)) && digits_value(unsigned_part(s@)) <= u32::MAX),
        r is Some ==> r->0 == digits_value(unsigned_part(s@)),
{
    let n = s.unicode_len();
    let ghost d = unsigned_part(s@);
    let start: usize = if n > 0 && s.get_char(0) == '+' { 1 } else { 0 };
    assert(d =~= s@.skip(start as int));
    if start == n {
        return None;
    }
    let mut value: u64 = 0;
    let mut i: usize = start;
    while i < n
        invariant
            n == s@.len(),
            start <= i <= n,
            d =~= s@.skip(start as int),
            d == unsigned_part(s@),
            forall|k: int| start <= k < i ==> is_digit(#[trigger] s@[k]),
            value == digits_value(s@.subrange(start as int, i as int)),
            value <= u32::MAX,
        decreases n - i,
    {
        let c = s.get_char(i);
        if !('0' <= c && c <= '9') {
            assert(d[i - start] == s@[i as int]);
            assert(!is_digit(d[i - start]));
            assert(!all_digits(d));
            return None;
        }
        proof {
            assert(s@.subrange(start as int, i + 1).drop_last() =~= s@.subrange(start as int, i as int));
        }
        let digit = (c as u64) - ('0' as u64);
        value = value * 10 + digit;
        if value > 4294967295u64 {
            proof {
                assert(d.take(i + 1 - start) =~= s@.subrange(start as int, i + 1));
                lemma_digits_grow(d, i + 1 - start);
            }
            return None;
        }
        i = i + 1;
    }
    assert(s@.subrange(start as int, n as int) =~= d);
    Some(value as u32)
}

/// Further digits never make a number smaller.
proof fn lemma_digits_grow(d: Seq<char>, j: int)
    requires
        0 <= j <= d.len(),
    ensures
        digits_value(d.take(j)) <= digits_value(d),
    decreases d.len() - j,
{
    if j < d.len() {
        lemma_digits_grow(d, j + 1);
        assert(d.take(j + 1).drop_last() =~= d.take(j));
    } else {
        assert(d.take(j) =~= d);
    }
}

} // verus!
