use vstd::prelude::*;

use crate::env_vars::Environment;

verus! {

/// A character that may start a variable name.
pub open spec fn is_name_start(c: char) -> bool {
    ('A' <= c && c <= 'Z') || ('a' <= c && c <= 'z') || c == '_'
}

/// A character that may continue a variable name.
pub open spec fn is_name_char(c: char) -> bool {
    is_name_start(c) || ('0' <= c && c <= '9')
}

/// Length of the run of name characters at the front of `s`.
pub open spec fn name_len(s: Seq<char>) -> nat
    decreases s.len(),
{
    if s.len() == 0 || !is_name_char(s[0]) {
        0
    } else {
        1 + name_len(s.drop_first())
    }
}

/// What a reference to `name` stands for: its value, or nothing if unbound.
pub open spec fn value_of(env: Map<Seq<char>, Seq<char>>, name: Seq<char>) -> Seq<char> {
    if env.contains_key(name) {
        env[name]
    } else {
        seq![]
    }
}

/// Whether `s` starts with a reference: `$` followed by a name.
pub open spec fn starts_reference(s: Seq<char>) -> bool {
    s.len() >= 2 && s[0] == '$' && is_name_start(s[1])
}

/// The text with every reference `$NAME` (the longest name that follows the
/// `$`) replaced by its value, in one pass from left to right; all other text
/// is kept as it is.
pub open spec fn expand(s: Seq<char>, env: Map<Seq<char>, Seq<char>>) -> Seq<char>
    decreases s.len(),
    via expand_decreases
{
    if s.len() == 0 {
        seq![]
    } else if starts_reference(s) {
        let n = name_len(s.drop_first()) as int;
        value_of(env, s.subrange(1, n + 1)) + expand(s.skip(n + 1), env)
    } else {
        seq![s[0]] + expand(s.drop_first(), env)
    }
}

/// A name is no longer than the text it starts.
pub proof fn lemma_name_len_bound(s: Seq<char>)
    ensures
        name_len(s) <= s.len(),
        s.len() > 0 && is_name_char(s[0]) ==> name_len(s) >= 1,
    decreases s.len(),
{
    if s.len() > 0 && is_name_char(s[0]) {
        lemma_name_len_bound(s.drop_first());
    }
}

#[via_fn]
proof fn expand_decreases(s: Seq<char>, env: Map<Seq<char>, Seq<char>>) {
    if starts_reference(s) {
        lemma_name_len_bound(s.drop_first());
    }
}

/// Whether `c` may start a variable name.
fn name_start_char(c: char) -> (r: bool)
    ensures
        r == is_name_start(c),
{
    ('A' <= c && c <= 'Z') || ('a' <= c && c <= 'z') || c == '_'
}

/// Whether `c` may continue a variable name.
fn name_char(c: char) -> (r: bool)
    ensures
        r == is_name_char(c),
{
    name_start_char(c) || ('0' <= c && c <= '9')
}

/// Replaces each reference `$NAME` in `input` by the variable's value from
/// `env`, or by nothing where the variable is unbound.
pub fn expand_variables(input: &str, env: &Environment) -> (r: String)
    ensures
        r@ == expand(input@, env@),
{
    let ghost s = input@;
    let ghost m = env@;
    let n = input.unicode_len();
    let mut out = String::new();
    let mut i: usize = 0;
    assert(s.skip(0) =~= s);
    while i < n
        invariant
            n == s.len(),
            s == input@,
            m == env@,
            i <= n,
            out@ + expand(s.skip(i as int), m) == expand(s, m),
        decreases n - i,
    {
        let ghost rest = s.skip(i as int);
        if input.get_char(i) == '$' && i + 1 < n && name_start_char(input.get_char(i + 1)) {
            let mut j: usize = i + 2;
            proof {
                assert(rest.drop_first() =~= s.skip(i + 1));
                assert(s.skip(i + 1).drop_first() =~= s.skip(i + 2));
            }
            while j < n && name_char(input.get_char(j))
                invariant
                    n == s.len(),
                    s == input@,
                    i + 2 <= j <= n,
                    name_len(s.skip(i + 1)) == (j - i - 1) + name_len(s.skip(j as int)),
                decreases n - j,
            {
                proof {
                    assert(s.skip(j as int).drop_first() =~= s.skip(j + 1));
                }
                j = j + 1;
            }
            proof {
                assert(rest.subrange(1, j - i) =~= s.subrange(i + 1, j as int));
                assert(rest.skip(j - i) =~= s.skip(j as int));
            }
            let name = input.substring_char(i + 1, j);
            match env.get_var(name) {
                Some(v) => {
                    out.append(v.as_str());
                },
                None => {},
            }
            assert((out@ + expand(s.skip(j as int), m)) == expand(s, m)) by {
                assert(expand(rest, m) == value_of(m, s.subrange(i + 1, j as int)) + expand(
                    s.skip(j as int),
                    m,
                ));
            }
            i = j;
        } else {
            proof {
                assert(rest.drop_first() =~= s.skip(i + 1));
                assert(expand(rest, m) == seq![s[i as int]] + expand(s.skip(i + 1), m));
            }
            let ghost before = out@;
            out.append(input.substring_char(i, i + 1));
            assert(out@ =~= before + seq![s[i as int]]);
            assert(out@ + expand(s.skip(i + 1), m) =~= before + expand(rest, m));
            i = i + 1;
        }
    }
    assert(s.skip(n as int) =~= Seq::<char>::empty());
    assert(out@ + seq![] =~= out@);
    out
}

/// Text with no `$` in it comes out of expansion unchanged, so expanding it
/// again changes nothing either.
pub proof fn lemma_expand_without_dollar(s: Seq<char>, env: Map<Seq<char>, Seq<char>>)
    requires
        forall|j: int| 0 <= j < s.len() ==> s[j] != '$',
    ensures
        expand(s, env) == s,
        expand(expand(s, env), env) == expand(s, env),
    decreases s.len(),
{
    if s.len() > 0 {
        lemma_expand_without_dollar(s.drop_first(), env);
        assert(seq![s[0]] + s.drop_first() =~= s);
    }
}

proof fn lemma_name_len_of_name(name: Seq<char>, rest: Seq<char>)
    requires
        forall|j: int| 0 <= j < name.len() ==> is_name_char(#[trigger] name[j]),
        rest.len() == 0 || !is_name_char(rest[0]),
    ensures
        name_len(name + rest) == name.len(),
    decreases name.len(),
{
    if name.len() == 0 {
        assert(name + rest =~= rest);
    } else {
        lemma_name_len_of_name(name.drop_first(), rest);
        assert((name + rest).drop_first() =~= name.drop_first() + rest);
    }
}

/// A reference `$NAME` that is followed by no name character becomes the
/// value of `NAME` wherever it stands, and nothing at all where `NAME` is
/// unbound; the text after it is expanded in the same way.
pub proof fn lemma_expand_reference(name: Seq<char>, rest: Seq<char>, env: Map<Seq<char>, Seq<char>>)
    requires
        name.len() > 0,
        is_name_start(name[0]),
        forall|j: int| 0 <= j < name.len() ==> is_name_char(#[trigger] name[j]),
        rest.len() == 0 || !is_name_char(rest[0]),
    ensures
        expand(seq!['$'] + name + rest, env) == value_of(env, name) + expand(rest, env),
        env.contains_key(name) ==> expand(seq!['$'] + name + rest, env) == env[name] + expand(rest, env),
        !env.contains_key(name) ==> expand(seq!['$'] + name + rest, env) == expand(rest, env),
{
    let s = seq!['$'] + name + rest;
    assert(s.drop_first() =~= name + rest);
    lemma_name_len_of_name(name, rest);
    let n = name.len() as int;
    assert(s.subrange(1, n + 1) =~= name);
    assert(s.skip(n + 1) =~= rest);
    assert(seq![] + expand(rest, env) =~= expand(rest, env));
}

proof fn lemma_name_len_stop(x: Seq<char>, y: Seq<char>)
    requires
        y.len() == 0 || !is_name_char(y[0]),
    ensures
        name_len(x + y) == name_len(x),
    decreases x.len(),
{
    if x.len() == 0 {
        assert(x + y =~= y);
    } else if is_name_char(x[0]) {
        assert((x + y).drop_first() =~= x.drop_first() + y);
        lemma_name_len_stop(x.drop_first(), y);
    }
}

/// Expansion works piece by piece wherever the second piece cannot continue
/// a name that the first one ends with.
pub proof fn lemma_expand_concat(x: Seq<char>, y: Seq<char>, env: Map<Seq<char>, Seq<char>>)
    requires
        y.len() == 0 || !is_name_char(y[0]),
    ensures
        expand(x + y, env) == expand(x, env) + expand(y, env),
    decreases x.len(),
{
    let z = x + y;
    if x.len() == 0 {
        assert(z =~= y);
        assert(expand(x, env) + expand(y, env) =~= expand(y, env));
    } else if starts_reference(x) {
        assert(starts_reference(z));
        assert(z.drop_first() =~= x.drop_first() + y);
        lemma_name_len_stop(x.drop_first(), y);
        lemma_name_len_bound(x.drop_first());
        let n = name_len(x.drop_first()) as int;
        assert(z.subrange(1, n + 1) =~= x.subrange(1, n + 1));
        assert(z.skip(n + 1) =~= x.skip(n + 1) + y);
        lemma_expand_concat(x.skip(n + 1), y, env);
        assert(expand(z, env) =~= expand(x, env) + expand(y, env));
    } else {
        if y.len() == 0 {
            assert(z =~= x);
            assert(expand(x, env) + expand(y, env) =~= expand(x, env));
        } else {
            assert(!starts_reference(z));
            assert(z.drop_first() =~= x.drop_first() + y);
            lemma_expand_concat(x.drop_first(), y, env);
            assert(expand(z, env) =~= expand(x, env) + expand(y, env));
        }
    }
}

/// The pieces joined with `sep` between each two.
pub open spec fn join_with(parts: Seq<Seq<char>>, sep: Seq<char>) -> Seq<char>
    decreases parts.len(),
{
    if parts.len() <= 1 {
        if parts.len() == 0 {
            seq![]
        } else {
            parts[0]
        }
    } else {
        join_with(parts.drop_last(), sep) + sep + parts.last()
    }
}

/// A line that holds any number of references to one name, each followed by
/// no name character, with `$`-free text around them, expands to that text
/// with every reference replaced by the same value (nothing where the name
/// is unbound).
pub proof fn lemma_expand_every_reference(
    parts: Seq<Seq<char>>,
    name: Seq<char>,
    env: Map<Seq<char>, Seq<char>>,
)
    requires
        parts.len() >= 1,
        name.len() > 0,
        is_name_start(name[0]),
        forall|j: int| 0 <= j < name.len() ==> is_name_char(#[trigger] name[j]),
        forall|i: int, j: int| 0 <= i < parts.len() && 0 <= j < parts[i].len() ==> #[trigger] parts[i][j] != '$',
        forall|i: int| 1 <= i < parts.len() ==> (#[trigger] parts[i]).len() == 0 || !is_name_char(parts[i][0]),
    ensures
        expand(join_with(parts, seq!['$'] + name), env) == join_with(parts, value_of(env, name)),
    decreases parts.len(),
{
    let r = seq!['$'] + name;
    if parts.len() == 1 {
        lemma_expand_without_dollar(parts[0], env);
    } else {
        let front = parts.drop_last();
        let last = parts.last();
        lemma_expand_every_reference(front, name, env);
        let j = join_with(front, r);
        lemma_expand_without_dollar(last, env);
        lemma_expand_concat(j + r, last, env);
        assert(r[0] == '$');
        lemma_expand_concat(j, r, env);
        lemma_expand_reference(name, seq![], env);
        assert(seq!['$'] + name + seq![] =~= r);
        assert(expand(seq![], env) == Seq::<char>::empty());
        assert(value_of(env, name) + seq![] =~= value_of(env, name));
    }
}

/// Every reference to one name, each followed by no name character, becomes
/// the same value (nothing where the name is unbound), whatever text stands
/// between them, other references included; that text is expanded as it
/// would be on its own.
pub proof fn lemma_expand_references_anywhere(
    parts: Seq<Seq<char>>,
    name: Seq<char>,
    env: Map<Seq<char>, Seq<char>>,
)
    requires
        parts.len() >= 1,
        name.len() > 0,
        is_name_start(name[0]),
        forall|j: int| 0 <= j < name.len() ==> is_name_char(#[trigger] name[j]),
        forall|i: int| 1 <= i < parts.len() ==> (#[trigger] parts[i]).len() == 0 || !is_name_char(parts[i][0]),
    ensures
        expand(join_with(parts, seq!['$'] + name), env) == join_with(
            parts.map_values(|p: Seq<char>| expand(p, env)),
            value_of(env, name),
        ),
    decreases parts.len(),
{
    let r = seq!['$'] + name;
    let ex = parts.map_values(|p: Seq<char>| expand(p, env));
    if parts.len() == 1 {
        assert(ex.len() == 1);
    } else {
        let front = parts.drop_last();
        let last = parts.last();
        lemma_expand_references_anywhere(front, name, env);
        assert(front.map_values(|p: Seq<char>| expand(p, env)) =~= ex.drop_last());
        let j = join_with(front, r);
        lemma_expand_concat(j + r, last, env);
        assert(r[0] == '$');
        lemma_expand_concat(j, r, env);
        lemma_expand_reference(name, seq![], env);
        assert(seq!['$'] + name + seq![] =~= r);
        assert(expand(seq![], env) == Seq::<char>::empty());
        assert(value_of(env, name) + seq![] =~= value_of(env, name));
        assert(ex.last() == expand(last, env));
    }
}

} // verus!
