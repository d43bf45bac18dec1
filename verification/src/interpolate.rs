//! Command templates: substitution of `{{vars.NAME}}` and `{{TASK.output}}`
//! tokens, and removal of whatever `{{…}}` token is left.

use crate::text::{
    extend, from_chars, lemma_replaced_absent, lemma_replaced_first, matches_at, replace_all, replaced,
    to_chars, trim, trimmed,
};
use vstd::prelude::*;

verus! {

/// The name-to-text bindings of `v`, in order.
pub open spec fn bindings(v: Seq<(String, String)>) -> Seq<(Seq<char>, Seq<char>)> {
    Seq::new(v.len(), |k: int| (v[k].0@, v[k].1@))
}

/// The token that stands for the variable `name`.
pub open spec fn var_token(name: Seq<char>) -> Seq<char> {
    "{{vars."@ + name + "}}"@
}

/// The token for the variable `name`, with the tolerated space before the closing braces.
pub open spec fn var_token_spaced(name: Seq<char>) -> Seq<char> {
    "{{vars."@ + name + " }}"@
}

/// The token that stands for the captured output of `task`.
pub open spec fn output_token(task: Seq<char>) -> Seq<char> {
    "{{"@ + task + ".output}}"@
}

/// The token for the output of `task`, with the tolerated space before the closing braces.
pub open spec fn output_token_spaced(task: Seq<char>) -> Seq<char> {
    "{{"@ + task + ".output }}"@
}

/// `s` with both tokens of one variable replaced by its value.
pub open spec fn with_var(s: Seq<char>, name: Seq<char>, value: Seq<char>) -> Seq<char> {
    replaced(replaced(s, var_token(name), value), var_token_spaced(name), value)
}

/// `s` with both tokens of one task replaced by its trimmed output.
pub open spec fn with_output(s: Seq<char>, task: Seq<char>, output: Seq<char>) -> Seq<char> {
    replaced(
        replaced(s, output_token(task), trimmed(output)),
        output_token_spaced(task),
        trimmed(output),
    )
}

/// `s` after the variables were substituted one after the other, in order.
pub open spec fn with_vars(s: Seq<char>, vars: Seq<(Seq<char>, Seq<char>)>) -> Seq<char>
    decreases vars.len(),
{
    if vars.len() == 0 {
        s
    } else {
        with_var(with_vars(s, vars.drop_last()), vars.last().0, vars.last().1)
    }
}

/// `s` after the task outputs were substituted one after the other, in order.
pub open spec fn with_outputs(s: Seq<char>, outputs: Seq<(Seq<char>, Seq<char>)>) -> Seq<char>
    decreases outputs.len(),
{
    if outputs.len() == 0 {
        s
    } else {
        with_output(with_outputs(s, outputs.drop_last()), outputs.last().0, outputs.last().1)
    }
}

/// The template after all known substitutions: variables first, then outputs.
pub open spec fn substituted(
    template: Seq<char>,
    outputs: Seq<(Seq<char>, Seq<char>)>,
    vars: Seq<(Seq<char>, Seq<char>)>,
) -> Seq<char> {
    with_outputs(with_vars(template, vars), outputs)
}

/// `{{` stands at position `i`.
pub open spec fn open_at(s: Seq<char>, i: int) -> bool {
    0 <= i && i + 1 < s.len() && s[i] == '{' && s[i + 1] == '{'
}

/// `}}` stands at position `j`.
pub open spec fn close_at(s: Seq<char>, j: int) -> bool {
    0 <= j && j + 1 < s.len() && s[j] == '}' && s[j + 1] == '}'
}

/// The first position at or after `from` where `}}` stands, or -1.
pub open spec fn find_close(s: Seq<char>, from: int) -> int
    decreases s.len() - from,
{
    if from < 0 || from + 1 >= s.len() {
        -1
    } else if close_at(s, from) {
        from
    } else {
        find_close(s, from + 1)
    }
}

/// The length of the token that starts `s`, or 0. A token is `{{`, then as
/// few characters as possible, then `}}`.
pub open spec fn token_len(s: Seq<char>) -> int {
    if open_at(s, 0) && find_close(s, 2) >= 0 {
        find_close(s, 2) + 2
    } else {
        0
    }
}

/// `s` without its tokens, taken from the left.
pub open spec fn stripped(s: Seq<char>) -> Seq<char>
    decreases s.len(),
{
    if s.len() == 0 {
        s
    } else if 0 < token_len(s) <= s.len() {
        stripped(s.skip(token_len(s)))
    } else {
        seq![s[0]] + stripped(s.skip(1))
    }
}

/// Somewhere in `s` a `{{` is followed by a `}}`.
pub open spec fn has_token(s: Seq<char>) -> bool {
    exists|i: int, j: int| open_at(s, i) && close_at(s, j) && j >= i + 2
}

/// What `find_close` finds is the first `}}` at or after `from`.
pub proof fn lemma_find_close(s: Seq<char>, from: int)
    requires
        0 <= from,
    ensures
        find_close(s, from) >= 0 ==> from <= find_close(s, from) && close_at(
            s,
            find_close(s, from),
        ),
        forall|j: int| from <= j && close_at(s, j) ==> 0 <= find_close(s, from) <= j,
        find_close(s, from) >= -1,
    decreases s.len() - from,
{
    if from + 1 < s.len() && !close_at(s, from) {
        lemma_find_close(s, from + 1);
    }
}

/// Searching in a suffix is searching in the whole from further on.
pub proof fn lemma_find_close_skip(s: Seq<char>, i: int, from: int)
    requires
        0 <= i <= s.len(),
        0 <= from,
    ensures
        find_close(s.skip(i), from) == if find_close(s, i + from) >= 0 {
            find_close(s, i + from) - i
        } else {
            -1
        },
{
    let u = s.skip(i);
    lemma_find_close(u, from);
    lemma_find_close(s, i + from);
    let a = find_close(u, from);
    let b = find_close(s, i + from);
    if a >= 0 {
        assert(close_at(s, i + a));
    }
    if b >= 0 {
        assert(close_at(u, b - i));
    }
}

/// A text in which no `}}` stands at or after position 2 has no token to strip.
pub proof fn lemma_stripped_unclosed(s: Seq<char>)
    requires
        forall|j: int| j >= 2 ==> !close_at(s, j),
    ensures
        stripped(s) == s,
    decreases s.len(),
{
    if s.len() > 0 {
        lemma_find_close(s, 2);
        let u = s.skip(1);
        assert forall|j: int| j >= 2 implies !close_at(u, j) by {
            if close_at(u, j) {
                assert(close_at(s, j + 1));
            }
        }
        lemma_stripped_unclosed(u);
        assert(seq![s[0]] + u =~= s);
    }
}

/// No token is left after stripping.
pub proof fn lemma_stripped_free(s: Seq<char>)
    ensures
        !has_token(stripped(s)),
    decreases s.len(),
{
    if s.len() == 0 {
    } else if 0 < token_len(s) <= s.len() {
        lemma_stripped_free(s.skip(token_len(s)));
    } else {
        let u = s.skip(1);
        let t1 = stripped(u);
        let t = seq![s[0]] + t1;
        lemma_stripped_free(u);
        lemma_find_close(s, 2);
        if has_token(t) {
            let (i, j) = choose|i: int, j: int| open_at(t, i) && close_at(t, j) && j >= i + 2;
            assert(t[j] == t1[j - 1] && t[j + 1] == t1[j]);
            if i >= 1 {
                assert(t[i] == t1[i - 1] && t[i + 1] == t1[i]);
                assert(open_at(t1, i - 1) && close_at(t1, j - 1));
            } else {
                assert(t[1] == t1[0]);
                assert(u.len() > 0);
                if s[1] == '{' {
                    assert(open_at(s, 0));
                    assert(find_close(s, 2) < 0);
                    assert forall|m: int| m >= 2 implies !close_at(u, m) by {
                        if close_at(u, m) {
                            assert(close_at(s, m + 1));
                        }
                    }
                    lemma_stripped_unclosed(u);
                    assert(close_at(u, j - 1));
                    assert(close_at(s, j));
                } else {
                    assert(u[0] == s[1]);
                    assert(!open_at(u, 0));
                    assert(t1 == seq![u[0]] + stripped(u.skip(1)));
                    assert(t1[0] == u[0]);
                }
            }
        }
    }
}

/// The first position at or after `from` where `}}` stands.
fn find_close_from(s: &Vec<char>, from: usize) -> (r: Option<usize>)
    ensures
        match r {
            Some(j) => find_close(s@, from as int) == j && j + 1 < s.len(),
            None => find_close(s@, from as int) == -1,
        },
{
    let mut j: usize = from;
    while j < s.len() && j + 1 < s.len()
        invariant
            from <= j,
            find_close(s@, j as int) == find_close(s@, from as int),
        decreases s.len() - j,
    {
        if s[j] == '}' && s[j + 1] == '}' {
            return Some(j);
        }
        j += 1;
    }
    None
}

/// Removes every token from `s`, scanning from the left.
pub fn strip_chars(s: &Vec<char>) -> (r: Vec<char>)
    ensures
        r@ == stripped(s@),
        !has_token(r@),
{
    let mut out: Vec<char> = Vec::new();
    let mut i: usize = 0;
    let mut closable = true;
    proof {
        assert(s@.skip(0) =~= s@);
        assert(Seq::<char>::empty() + stripped(s@) =~= stripped(s@));
    }
    while i < s.len()
        invariant
            i <= s.len(),
            out@ + stripped(s@.skip(i as int)) == stripped(s@),
            !closable ==> find_close(s@, i as int) == -1,
        decreases s.len() - i,
    {
        let ghost rest = s@.skip(i as int);
        let ghost acc = out@;
        let mut end: usize = 0;
        if closable && i + 1 < s.len() && s[i] == '{' && s[i + 1] == '{' {
            match find_close_from(s, i + 2) {
                Some(j) => {
                    end = j + 2;
                },
                None => {
                    closable = false;
                },
            }
        }
        proof {
            lemma_find_close_skip(s@, i as int, 2);
            lemma_find_close(s@, i as int);
            lemma_find_close(s@, i + 2);
            lemma_find_close(s@, i + 1);
            assert(open_at(rest, 0) == (i + 1 < s.len() && s[i as int] == '{' && s[i + 1] == '{'));
            assert(token_len(rest) == if end > 0 {
                end - i
            } else {
                0
            });
        }
        if end > 0 {
            i = end;
            proof {
                assert(rest.skip(token_len(rest)) =~= s@.skip(i as int));
            }
        } else {
            out.push(s[i]);
            i += 1;
            proof {
                assert(rest.skip(1) =~= s@.skip(i as int));
                assert(out@ + stripped(s@.skip(i as int)) =~= acc + (seq![rest[0]] + stripped(
                    rest.skip(1),
                )));
            }
        }
    }
    proof {
        assert(s@.skip(s.len() as int) =~= Seq::<char>::empty());
        assert(out@ + Seq::<char>::empty() =~= out@);
        lemma_stripped_free(s@);
    }
    out
}

/// Whether a `{{` in `s` is followed by a `}}`.
pub fn contains_token(s: &Vec<char>) -> (r: bool)
    ensures
        r == has_token(s@),
{
    let mut i: usize = 0;
    while i < s.len() && i + 1 < s.len()
        invariant
            forall|k: int| 0 <= k < i ==> !open_at(s@, k),
        decreases s.len() - i,
    {
        if s[i] == '{' && s[i + 1] == '{' {
            let close = find_close_from(s, i + 2);
            proof {
                lemma_find_close(s@, i + 2);
                if close is Some {
                    assert(open_at(s@, i as int) && close_at(s@, close->0 as int));
                } else {
                    assert forall|a: int, b: int|
                        open_at(s@, a) && close_at(s@, b) implies !(b >= a + 2) by {}
                }
            }
            return close.is_some();
        }
        i += 1;
    }
    false
}

/// Removes every `{{…}}` token from `text`, scanning from the left; a token
/// runs from `{{` to the first `}}` after it.
pub fn strip_tokens(text: &str) -> (r: String)
    ensures
        r@ == stripped(text@),
        !has_token(r@),
{
    let chars = to_chars(text);
    let out = strip_chars(&chars);
    from_chars(&out)
}

/// The characters of `prefix`, `name` and `suffix`, one after the other.
fn token(prefix: &str, name: &String, suffix: &str) -> (r: Vec<char>)
    ensures
        r@ == prefix@ + name@ + suffix@,
{
    let mut out = to_chars(prefix);
    let middle = to_chars(name.as_str());
    let tail = to_chars(suffix);
    extend(&mut out, &middle);
    extend(&mut out, &tail);
    out
}

/// Substitutes the variables into `s`, one after the other, in order.
pub fn substitute_vars(s: Vec<char>, vars: &Vec<(String, String)>) -> (r: Vec<char>)
    ensures
        r@ == with_vars(s@, bindings(vars@)),
{
    let ghost all = bindings(vars@);
    let ghost start = s@;
    let mut acc = s;
    let mut i: usize = 0;
    assert(all.take(0) =~= Seq::empty());
    while i < vars.len()
        invariant
            i <= vars.len(),
            all == bindings(vars@),
            acc@ == with_vars(start, all.take(i as int)),
        decreases vars.len() - i,
    {
        let plain = token("{{vars.", &vars[i].0, "}}");
        let spaced = token("{{vars.", &vars[i].0, " }}");
        let value = to_chars(vars[i].1.as_str());
        let once = replace_all(&acc, &plain, &value);
        acc = replace_all(&once, &spaced, &value);
        proof {
            assert(all.take(i + 1).drop_last() =~= all.take(i as int));
            assert(all.take(i + 1).last() == all[i as int]);
        }
        i += 1;
    }
    assert(all.take(vars.len() as int) =~= all);
    acc
}

/// Substitutes the trimmed task outputs into `s`, one after the other, in order.
pub fn substitute_outputs(s: Vec<char>, outputs: &Vec<(String, String)>) -> (r: Vec<char>)
    ensures
        r@ == with_outputs(s@, bindings(outputs@)),
{
    let ghost all = bindings(outputs@);
    let ghost start = s@;
    let mut acc = s;
    let mut i: usize = 0;
    assert(all.take(0) =~= Seq::empty());
    while i < outputs.len()
        invariant
            i <= outputs.len(),
            all == bindings(outputs@),
            acc@ == with_outputs(start, all.take(i as int)),
        decreases outputs.len() - i,
    {
        let plain = token("{{", &outputs[i].0, ".output}}");
        let spaced = token("{{", &outputs[i].0, ".output }}");
        let raw = to_chars(outputs[i].1.as_str());
        let value = trim(&raw);
        let once = replace_all(&acc, &plain, &value);
        acc = replace_all(&once, &spaced, &value);
        proof {
            assert(all.take(i + 1).drop_last() =~= all.take(i as int));
            assert(all.take(i + 1).last() == all[i as int]);
        }
        i += 1;
    }
    assert(all.take(outputs.len() as int) =~= all);
    acc
}

/// The template with every known token replaced: the variables first, then
/// the task outputs, each in the order of its list.
pub fn substitute(template: &str, outputs: &Vec<(String, String)>, vars: &Vec<(String, String)>) -> (r:
    String)
    ensures
        r@ == substituted(template@, bindings(outputs@), bindings(vars@)),
{
    let chars = to_chars(template);
    let with_v = substitute_vars(chars, vars);
    let with_o = substitute_outputs(with_v, outputs);
    from_chars(&with_o)
}

/// The regular expression of a token on one line.
pub const TOKEN_PATTERN: &'static str = r"\{\{.*?\}\}";

/// What the `regex` crate makes of `text` when every match of `pattern` is
/// replaced by `with`; `None` where it does not accept `pattern`.
pub uninterp spec fn regex_replaced(pattern: Seq<char>, text: Seq<char>, with: Seq<char>) -> Option<Seq<char>>;

/// Compiles `pattern` with `regex::Regex::new` and replaces all its matches in
/// `text` by `with` with `Regex::replace_all`. The contract gives the outcome a
/// name and claims nothing more: the same three texts always give the same
/// outcome, `None` when the pattern is refused.
#[verifier::external_body]
fn regex_replace_all(pattern: &str, text: &str, with: &str) -> (r: Option<String>)
    ensures
        regex_replaced(pattern@, text@, with@) == match r {
            Some(t) => Some(t@),
            None => None,
        },
{
    match regex::Regex::new(pattern) {
        Ok(re) => Some(re.replace_all(text, with).into_owned()),
        Err(_) => None,
    }
}

/// `s` after the regular-expression sweep for tokens.
pub open spec fn swept(s: Seq<char>) -> Seq<char> {
    match regex_replaced(TOKEN_PATTERN@, s, Seq::<char>::empty()) {
        Some(t) => t,
        None => s,
    }
}

/// What `interpolate_command` returns. A substituted template without a
/// token is the command as it stands. One that holds a token is swept by
/// the regular expression, and the tokens that the sweep leaves are removed.
pub open spec fn interpolated(
    template: Seq<char>,
    outputs: Seq<(Seq<char>, Seq<char>)>,
    vars: Seq<(Seq<char>, Seq<char>)>,
) -> Seq<char> {
    let filled = substituted(template, outputs, vars);
    if has_token(filled) {
        stripped(swept(filled))
    } else {
        filled
    }
}

/// Prepares a command template for the shell. `{{vars.NAME}}` becomes the
/// value of the variable, `{{TASK.output}}` the trimmed output of the task (a
/// space before the closing braces is tolerated), and no `{{…}}` token is left
/// in the result, whatever the template and the values hold.
pub fn interpolate_command(
    template: &str,
    outputs: &Vec<(String, String)>,
    vars: &Vec<(String, String)>,
) -> (r: String)
    ensures
        r@ == interpolated(template@, bindings(outputs@), bindings(vars@)),
        !has_token(r@),
{
    let chars = to_chars(template);
    let with_v = substitute_vars(chars, vars);
    let filled = substitute_outputs(with_v, outputs);
    if !contains_token(&filled) {
        return from_chars(&filled);
    }
    let text = from_chars(&filled);
    proof {
        reveal_strlit("");
        assert(""@ =~= Seq::<char>::empty());
    }
    match regex_replace_all(TOKEN_PATTERN, text.as_str(), "") {
        Some(cleaned) => strip_tokens(cleaned.as_str()),
        None => strip_tokens(text.as_str()),
    }
}

/// No `{` stands in `s`.
pub open spec fn brace_free(s: Seq<char>) -> bool {
    forall|k: int| 0 <= k < s.len() ==> s[k] != '{'
}

/// A template that holds the output token of one task between two texts
/// without braces becomes, where the trimmed output holds no brace either,
/// the two texts with the trimmed output between them.
pub proof fn law_output_substituted(
    pre: Seq<char>,
    post: Seq<char>,
    task: Seq<char>,
    output: Seq<char>,
)
    requires
        brace_free(pre),
        brace_free(post),
        brace_free(trimmed(output)),
    ensures
        substituted(pre + output_token(task) + post, seq![(task, output)], Seq::empty()) == pre
            + trimmed(output) + post,
        interpolated(pre + output_token(task) + post, seq![(task, output)], Seq::empty()) == pre
            + trimmed(output) + post,
{
    reveal_strlit("{{");
    let plain = output_token(task);
    let spaced = output_token_spaced(task);
    let value = trimmed(output);
    let template = pre + plain + post;
    assert(plain[0] == '{');
    assert(spaced[0] == '{');
    assert forall|i: int| 0 <= i < pre.len() implies !matches_at(template, i, plain) by {
        if matches_at(template, i, plain) {
            assert(template.subrange(i, i + plain.len())[0] == template[i]);
        }
    }
    lemma_replaced_first(pre, plain, post, value);
    lemma_replaced_absent(post, plain, value);
    let once = pre + value + post;
    lemma_replaced_absent(once, spaced, value);
    let outputs = seq![(task, output)];
    assert(outputs.drop_last() =~= Seq::empty());
    assert(with_vars(template, Seq::empty()) == template);
    assert(with_outputs(template, outputs) == with_output(
        with_outputs(template, outputs.drop_last()),
        task,
        output,
    ));
    assert(!has_token(once)) by {
        if has_token(once) {
            let (i, j) = choose|i: int, j: int| open_at(once, i) && close_at(once, j) && j >= i + 2;
            assert(once[i] == '{');
        }
    }
}

} // verus!
