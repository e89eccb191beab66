use vstd::prelude::*;

verus! {

/// The whitespace that separates words: space, tab, newline, carriage return,
/// form feed and vertical tab.
pub open spec fn is_space(c: char) -> bool {
    c == ' ' || c == '\t' || c == '\n' || c == '\r' || c == '\x0C' || c == '\x0B'
}

/// The characters that start an operator token.
pub open spec fn is_op_char(c: char) -> bool {
    c == '|' || c == '&' || c == '>' || c == '<'
}

/// Length of the run of word characters at the front of `s`.
pub open spec fn word_len(s: Seq<char>) -> nat
    decreases s.len(),
{
    if s.len() == 0 || is_space(s[0]) || is_op_char(s[0]) {
        0
    } else {
        1 + word_len(s.drop_first())
    }
}

/// Length of the operator at the front of `s` (`||` and `>>` are doubled,
/// every other operator is a single character).
pub open spec fn op_len(s: Seq<char>) -> nat {
    if s.len() >= 2 && (s[0] == '|' || s[0] == '>') && s[1] == s[0] {
        2
    } else {
        1
    }
}

/// Length of the token at the front of `s`, which starts with a non-space.
pub open spec fn token_len(s: Seq<char>) -> nat {
    if is_op_char(s[0]) {
        op_len(s)
    } else {
        word_len(s)
    }
}

/// The tokens of a line, left to right: whitespace separates them and is
/// dropped, and each of `|`, `||`, `&`, `>`, `>>`, `<` is a token of its own
/// even where it touches a word.
pub open spec fn tokens(s: Seq<char>) -> Seq<Seq<char>>
    decreases s.len(),
    via tokens_decreases
{
    if s.len() == 0 {
        seq![]
    } else if is_space(s[0]) {
        tokens(s.drop_first())
    } else {
        seq![s.take(token_len(s) as int)] + tokens(s.skip(token_len(s) as int))
    }
}

/// A word is no longer than the text it starts.
pub proof fn lemma_word_len_bound(s: Seq<char>)
    ensures
        word_len(s) <= s.len(),
    decreases s.len(),
{
    if s.len() > 0 && !is_space(s[0]) && !is_op_char(s[0]) {
        lemma_word_len_bound(s.drop_first());
    }
}

#[via_fn]
proof fn tokens_decreases(s: Seq<char>) {
    if s.len() > 0 && !is_space(s[0]) {
        lemma_word_len_bound(s);
        assert(1 <= token_len(s) <= s.len());
    }
}

proof fn lemma_word_len_space(x: Seq<char>, y: Seq<char>)
    ensures
        word_len(x + seq![' '] + y) == word_len(x),
    decreases x.len(),
{
    let z = x + seq![' '] + y;
    if x.len() > 0 && !is_space(x[0]) && !is_op_char(x[0]) {
        assert(z.drop_first() =~= x.drop_first() + seq![' '] + y);
        lemma_word_len_space(x.drop_first(), y);
    }
}

/// A space always ends a token: the tokens of `x`, a space and `y` are
/// those of `x` followed by those of `y`.
pub proof fn lemma_tokens_space(x: Seq<char>, y: Seq<char>)
    ensures
        tokens(x + seq![' '] + y) == tokens(x) + tokens(y),
    decreases x.len(),
{
    let z = x + seq![' '] + y;
    if x.len() == 0 {
        assert(z.drop_first() =~= y);
        assert(tokens(x) + tokens(y) =~= tokens(y));
    } else if is_space(x[0]) {
        assert(z.drop_first() =~= x.drop_first() + seq![' '] + y);
        lemma_tokens_space(x.drop_first(), y);
        assert(tokens(x) == tokens(x.drop_first()));
    } else {
        lemma_word_len_space(x, y);
        lemma_word_len_bound(x);
        let n = token_len(x) as int;
        assert(token_len(z) == n);
        assert(1 <= n <= x.len());
        assert(z.take(n) =~= x.take(n));
        assert(z.skip(n) =~= x.skip(n) + seq![' '] + y);
        lemma_tokens_space(x.skip(n), y);
        assert(tokens(z) =~= tokens(x) + tokens(y));
    }
}

/// Whether `c` separates words.
pub fn is_space_char(c: char) -> (r: bool)
    ensures
        r == is_space(c),
{
    c == ' ' || c == '\t' || c == '\n' || c == '\r' || c == '\x0C' || c == '\x0B'
}

/// Whether `c` starts an operator token.
pub fn is_operator_char(c: char) -> (r: bool)
    ensures
        r == is_op_char(c),
{
    c == '|' || c == '&' || c == '>' || c == '<'
}

proof fn lemma_tokens_step(s: Seq<char>, i: int)
    requires
        0 <= i < s.len(),
    ensures
        is_space(s[i]) ==> tokens(s.skip(i)) == tokens(s.skip(i + 1)),
        !is_space(s[i]) ==> {
            let t = s.skip(i);
            let n = token_len(t) as int;
            &&& 1 <= n <= t.len()
            &&& tokens(t) == seq![s.subrange(i, i + n)] + tokens(s.skip(i + n))
        },
{
    let t = s.skip(i);
    assert(t.drop_first() =~= s.skip(i + 1));
    if !is_space(s[i]) {
        lemma_word_len_bound(t);
        let n = token_len(t) as int;
        assert(t.take(n) =~= s.subrange(i, i + n));
        assert(t.skip(n) =~= s.skip(i + n));
    }
}

/// Splits a line into its tokens.
pub fn tokenize(input: &str) -> (r: Vec<String>)
    ensures
        r@.map_values(|t: String| t@) == tokens(input@),
{
    let ghost s = input@;
    let n = input.unicode_len();
    let mut out: Vec<String> = Vec::new();
    let mut i: usize = 0;
    assert(s.skip(0) =~= s);
    while i < n
        invariant
            n == s.len(),
            s == input@,
            i <= n,
            out@.map_values(|t: String| t@) + tokens(s.skip(i as int)) == tokens(s),
        decreases n - i,
    {
        let c = input.get_char(i);
        proof {
            lemma_tokens_step(s, i as int);
        }
        if is_space_char(c) {
            i = i + 1;
        } else {
            let mut j: usize = i + 1;
            if is_operator_char(c) {
                if i + 1 < n && (c == '|' || c == '>') && input.get_char(i + 1) == c {
                    j = i + 2;
                }
            } else {
                proof {
                    assert(s.skip(i as int).drop_first() =~= s.skip(i + 1));
                }
                while j < n && !is_space_char(input.get_char(j)) && !is_operator_char(
                    input.get_char(j),
                )
                    invariant
                        n == s.len(),
                        s == input@,
                        i < j <= n,
                        !is_space(s[i as int]),
                        !is_op_char(s[i as int]),
                        word_len(s.skip(i as int)) == (j - i) + word_len(s.skip(j as int)),
                    decreases n - j,
                {
                    proof {
                        assert(s.skip(j as int).drop_first() =~= s.skip(j + 1));
                    }
                    j = j + 1;
                }
            }
            let tok = input.substring_char(i, j).to_owned();
            let ghost before = out@.map_values(|t: String| t@);
            out.push(tok);
            assert(out@.map_values(|t: String| t@) =~= before.push(s.subrange(i as int, j as int)));
            i = j;
        }
    }
    assert(s.skip(n as int) =~= Seq::<char>::empty());
    assert(out@.map_values(|t: String| t@) + seq![] =~= out@.map_values(|t: String| t@));
    out
}

/// The characters that `char::is_whitespace` accepts: those of Unicode's
/// White_Space property.
pub open spec fn is_unicode_space(c: char) -> bool {
    ('\u{9}' <= c && c <= '\u{d}') || c == ' ' || c == '\u{85}' || c == '\u{a0}' || c == '\u{1680}'
        || ('\u{2000}' <= c && c <= '\u{200a}') || c == '\u{2028}' || c == '\u{2029}'
        || c == '\u{202f}' || c == '\u{205f}' || c == '\u{3000}'
}

/// Whether `c` is Unicode whitespace.
pub fn is_unicode_space_char(c: char) -> (r: bool)
    ensures
        r == is_unicode_space(c),
{
    ('\u{9}' <= c && c <= '\u{d}') || c == ' ' || c == '\u{85}' || c == '\u{a0}' || c == '\u{1680}'
        || ('\u{2000}' <= c && c <= '\u{200a}') || c == '\u{2028}' || c == '\u{2029}'
        || c == '\u{202f}' || c == '\u{205f}' || c == '\u{3000}'
}

/// Length of the run of non-whitespace characters at the front of `s`.
pub open spec fn field_len(s: Seq<char>) -> nat
    decreases s.len(),
{
    if s.len() == 0 || is_unicode_space(s[0]) {
        0
    } else {
        1 + field_len(s.drop_first())
    }
}

/// A field is no longer than the text it starts, and not empty where the
/// text starts with a non-space.
pub proof fn lemma_field_len_bound(s: Seq<char>)
    ensures
        field_len(s) <= s.len(),
        s.len() > 0 && !is_unicode_space(s[0]) ==> field_len(s) >= 1,
    decreases s.len(),
{
    if s.len() > 0 && !is_unicode_space(s[0]) {
        lemma_field_len_bound(s.drop_first());
    }
}

/// The words of a line separated by Unicode whitespace, operators included.
pub open spec fn fields(s: Seq<char>) -> Seq<Seq<char>>
    decreases s.len(),
    via fields_decreases
{
    if s.len() == 0 {
        seq![]
    } else if is_unicode_space(s[0]) {
        fields(s.drop_first())
    } else {
        seq![s.take(field_len(s) as int)] + fields(s.skip(field_len(s) as int))
    }
}

#[via_fn]
proof fn fields_decreases(s: Seq<char>) {
    lemma_field_len_bound(s);
}

/// Splits a line at Unicode whitespace only, as `str::split_whitespace` does.
pub fn split_fields(input: &str) -> (r: Vec<String>)
    ensures
        r@.map_values(|t: String| t@) == fields(input@),
{
    let ghost s = input@;
    let n = input.unicode_len();
    let mut out: Vec<String> = Vec::new();
    let mut i: usize = 0;
    assert(s.skip(0) =~= s);
    while i < n
        invariant
            n == s.len(),
            s == input@,
            i <= n,
            out@.map_values(|t: String| t@) + fields(s.skip(i as int)) == fields(s),
        decreases n - i,
    {
        let ghost rest = s.skip(i as int);
        assert(rest.drop_first() =~= s.skip(i + 1));
        if is_unicode_space_char(input.get_char(i)) {
            i = i + 1;
        } else {
            let mut j: usize = i + 1;
            while j < n && !is_unicode_space_char(input.get_char(j))
                invariant
                    n == s.len(),
                    s == input@,
                    i < j <= n,
                    !is_unicode_space(s[i as int]),
                    field_len(rest) == (j - i) + field_len(s.skip(j as int)),
                    rest == s.skip(i as int),
                decreases n - j,
            {
                proof {
                    assert(s.skip(j as int).drop_first() =~= s.skip(j + 1));
                }
                j = j + 1;
            }
            proof {
                assert(rest.take(j - i) =~= s.subrange(i as int, j as int));
                assert(rest.skip(j - i) =~= s.skip(j as int));
            }
            let tok = input.substring_char(i, j).to_owned();
            let ghost before = out@.map_values(|t: String| t@);
            out.push(tok);
            assert(out@.map_values(|t: String| t@) =~= before.push(s.subrange(i as int, j as int)));
            i = j;
        }
    }
    assert(s.skip(n as int) =~= Seq::<char>::empty());
    assert(out@.map_values(|t: String| t@) + seq![] =~= out@.map_values(|t: String| t@));
    out
}

} // verus!
