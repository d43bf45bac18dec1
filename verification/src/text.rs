//! Character-level helpers shared by the string-processing parts of the crate.
//!
//! Strings are viewed as `Seq<char>`; the algorithms work on `Vec<char>` and
//! convert at the edges.

use vstd::prelude::*;

verus! {

/// `String::push` appends one character to the end of the string.
pub assume_specification[ String::push ](s: &mut String, c: char)
    ensures
        final(s)@ == old(s)@.push(c),
;

/// The characters of `s`, in order.
pub fn to_chars(s: &str) -> (r: Vec<char>)
    ensures
        r@ == s@,
{
    let mut out: Vec<char> = Vec::new();
    for c in it: s.chars()
        invariant
            out@ == it.seq().take(it.index() as int),
            it.seq() == s@,
    {
        out.push(c);
    }
    out
}

/// The string made of the characters of `v`, in order.
pub fn from_chars(v: &Vec<char>) -> (r: String)
    ensures
        r@ == v@,
{
    let mut out = String::new();
    let mut i: usize = 0;
    while i < v.len()
        invariant
            i <= v.len(),
            out@ == v@.take(i as int),
        decreases v.len() - i,
    {
        out.push(v[i]);
        i += 1;
    }
    out
}

/// Appends the characters of `src` to `out`.
pub fn extend(out: &mut Vec<char>, src: &Vec<char>)
    ensures
        final(out)@ == old(out)@ + src@,
{
    let mut i: usize = 0;
    while i < src.len()
        invariant
            i <= src.len(),
            out@ == old(out)@ + src@.take(i as int),
        decreases src.len() - i,
    {
        out.push(src[i]);
        i += 1;
    }
    assert(src@.take(src.len() as int) =~= src@);
}

/// `pat` stands in `s` at position `i`.
pub open spec fn matches_at(s: Seq<char>, i: int, pat: Seq<char>) -> bool {
    &&& 0 <= i
    &&& i + pat.len() <= s.len()
    &&& s.subrange(i, i + pat.len()) == pat
}

/// Whether `pat` stands in `s` at position `i`.
pub fn is_match_at(s: &Vec<char>, i: usize, pat: &Vec<char>) -> (r: bool)
    ensures
        r == matches_at(s@, i as int, pat@),
{
    if pat.len() > s.len() || i > s.len() - pat.len() {
        return false;
    }
    let mut k: usize = 0;
    while k < pat.len()
        invariant
            k <= pat.len(),
            i + pat.len() <= s.len(),
            forall|m: int| 0 <= m < k ==> s[i + m] == pat[m],
        decreases pat.len() - k,
    {
        if s[i + k] != pat[k] {
            assert(s@.subrange(i as int, i + pat.len())[k as int] == s[i + k]);
            return false;
        }
        k += 1;
    }
    assert(s@.subrange(i as int, i + pat.len()) =~= pat@);
    true
}

/// `s` with every occurrence of the non-empty `pat` replaced by `with`,
/// occurrences taken from the left and never overlapping. An empty `pat`
/// occurs nowhere.
pub open spec fn replaced(s: Seq<char>, pat: Seq<char>, with: Seq<char>) -> Seq<char>
    decreases s.len(),
{
    if pat.len() == 0 || s.len() == 0 {
        s
    } else if matches_at(s, 0, pat) {
        with + replaced(s.skip(pat.len() as int), pat, with)
    } else {
        seq![s[0]] + replaced(s.skip(1), pat, with)
    }
}

/// A text without the first character of `pat` holds no occurrence of it.
pub proof fn lemma_replaced_absent(s: Seq<char>, pat: Seq<char>, with: Seq<char>)
    requires
        pat.len() > 0,
        forall|k: int| 0 <= k < s.len() ==> s[k] != pat[0],
    ensures
        replaced(s, pat, with) == s,
    decreases s.len(),
{
    if s.len() > 0 {
        if matches_at(s, 0, pat) {
            assert(s.subrange(0, pat.len() as int)[0] == pat[0]);
        }
        lemma_replaced_absent(s.skip(1), pat, with);
        assert(seq![s[0]] + s.skip(1) =~= s);
    }
}

/// Where `pat` first occurs right behind `pre`, that occurrence is replaced
/// and the replacing goes on behind it.
pub proof fn lemma_replaced_first(pre: Seq<char>, pat: Seq<char>, post: Seq<char>, with: Seq<char>)
    requires
        pat.len() > 0,
        forall|i: int| 0 <= i < pre.len() ==> !matches_at(pre + pat + post, i, pat),
    ensures
        replaced(pre + pat + post, pat, with) == pre + with + replaced(post, pat, with),
    decreases pre.len(),
{
    let s = pre + pat + post;
    if pre.len() == 0 {
        assert(s.subrange(0, pat.len() as int) =~= pat);
        assert(s.skip(pat.len() as int) =~= post);
        assert(pre + with + replaced(post, pat, with) =~= with + replaced(post, pat, with));
    } else {
        let rest = pre.skip(1);
        assert(s.skip(1) =~= rest + pat + post);
        assert forall|i: int| 0 <= i < rest.len() implies !matches_at(rest + pat + post, i, pat) by {
            assert(!matches_at(s, i + 1, pat));
            if matches_at(rest + pat + post, i, pat) {
                assert((rest + pat + post).subrange(i, i + pat.len()) =~= s.subrange(
                    i + 1,
                    i + 1 + pat.len(),
                ));
            }
        }
        lemma_replaced_first(rest, pat, post, with);
        assert(!matches_at(s, 0, pat));
        assert(seq![s[0]] + (rest + with + replaced(post, pat, with)) =~= pre + with + replaced(
            post,
            pat,
            with,
        ));
    }
}

/// Replaces every occurrence of `pat` in `s` by `with`.
pub fn replace_all(s: &Vec<char>, pat: &Vec<char>, with: &Vec<char>) -> (r: Vec<char>)
    ensures
        r@ == replaced(s@, pat@, with@),
{
    let mut out: Vec<char> = Vec::new();
    if pat.len() == 0 {
        extend(&mut out, s);
        return out;
    }
    let mut i: usize = 0;
    assert(s@.skip(0) =~= s@);
    assert(Seq::<char>::empty() + replaced(s@, pat@, with@) =~= replaced(s@, pat@, with@));
    while i < s.len()
        invariant
            i <= s.len(),
            pat.len() > 0,
            out@ + replaced(s@.skip(i as int), pat@, with@) == replaced(s@, pat@, with@),
        decreases s.len() - i,
    {
        let ghost rest = s@.skip(i as int);
        let ghost acc = out@;
        let hit = is_match_at(s, i, pat);
        proof {
            if i + pat.len() <= s.len() {
                assert(rest.subrange(0, pat.len() as int) =~= s@.subrange(
                    i as int,
                    i + pat.len(),
                ));
            }
            assert(hit == matches_at(rest, 0, pat@));
        }
        if hit {
            extend(&mut out, with);
            i += pat.len();
            proof {
                assert(rest.skip(pat.len() as int) =~= s@.skip(i as int));
                assert(out@ + replaced(s@.skip(i as int), pat@, with@) =~= acc + (with@ + replaced(
                    rest.skip(pat.len() as int),
                    pat@,
                    with@,
                )));
            }
        } else {
            out.push(s[i]);
            i += 1;
            proof {
                assert(rest.skip(1) =~= s@.skip(i as int));
                assert(out@ + replaced(s@.skip(i as int), pat@, with@) =~= acc + (seq![rest[0]]
                    + replaced(rest.skip(1), pat@, with@)));
            }
        }
    }
    assert(s@.skip(s.len() as int) =~= Seq::<char>::empty());
    assert(out@ + Seq::<char>::empty() =~= out@);
    out
}

/// The ASCII whitespace characters: space, tab, line feed, form feed, carriage return.
pub open spec fn is_space(c: char) -> bool {
    c == ' ' || c == '\t' || c == '\n' || c == '\x0C' || c == '\r'
}

/// `s` without its leading ASCII whitespace.
pub open spec fn trim_start(s: Seq<char>) -> Seq<char>
    decreases s.len(),
{
    if s.len() > 0 && is_space(s[0]) {
        trim_start(s.skip(1))
    } else {
        s
    }
}

/// `s` without its trailing ASCII whitespace.
pub open spec fn trim_end(s: Seq<char>) -> Seq<char>
    decreases s.len(),
{
    if s.len() > 0 && is_space(s.last()) {
        trim_end(s.drop_last())
    } else {
        s
    }
}

/// `s` without leading and trailing ASCII whitespace.
pub open spec fn trimmed(s: Seq<char>) -> Seq<char> {
    trim_end(trim_start(s))
}

/// Whether `c` is ASCII whitespace.
pub fn is_space_char(c: char) -> (r: bool)
    ensures
        r == is_space(c),
{
    c == ' ' || c == '\t' || c == '\n' || c == '\x0C' || c == '\r'
}

/// `s` without leading and trailing ASCII whitespace.
pub fn trim(s: &Vec<char>) -> (r: Vec<char>)
    ensures
        r@ == trimmed(s@),
{
    let mut a: usize = 0;
    assert(s@.skip(0) =~= s@);
    while a < s.len() && is_space_char(s[a])
        invariant
            a <= s.len(),
            trim_start(s@.skip(a as int)) == trim_start(s@),
        decreases s.len() - a,
    {
        assert(s@.skip(a as int).skip(1) =~= s@.skip(a + 1));
        a += 1;
    }
    assert(s@.skip(a as int) == trim_start(s@));
    let ghost t = s@.skip(a as int);
    let mut b: usize = s.len();
    assert(t.take(s.len() - a) =~= t);
    while b > a && is_space_char(s[b - 1])
        invariant
            a <= b <= s.len(),
            t == s@.skip(a as int),
            trim_end(t.take(b - a)) == trim_end(t),
        decreases b,
    {
        assert(t.take(b - a).drop_last() =~= t.take(b - 1 - a));
        b -= 1;
    }
    proof {
        assert(t.take(t.len() as int) =~= t);
        assert(t.take(b - a) == trim_end(t));
    }
    let mut out: Vec<char> = Vec::new();
    let mut i: usize = a;
    while i < b
        invariant
            a <= i <= b <= s.len(),
            out@ == s@.subrange(a as int, i as int),
        decreases b - i,
    {
        out.push(s[i]);
        i += 1;
    }
    assert(s@.subrange(a as int, b as int) =~= t.take(b - a));
    out
}

/// The character of the decimal digit `d`.
pub open spec fn digit_char(d: int) -> char {
    if d == 0 {
        '0'
    } else if d == 1 {
        '1'
    } else if d == 2 {
        '2'
    } else if d == 3 {
        '3'
    } else if d == 4 {
        '4'
    } else if d == 5 {
        '5'
    } else if d == 6 {
        '6'
    } else if d == 7 {
        '7'
    } else if d == 8 {
        '8'
    } else {
        '9'
    }
}

/// `n` written in decimal digits, without leading zeros.
pub open spec fn decimal(n: nat) -> Seq<char>
    decreases n,
{
    if n < 10 {
        seq![digit_char(n as int)]
    } else {
        decimal(n / 10).push(digit_char((n % 10) as int))
    }
}

/// The character of the decimal digit `d`.
fn digit_of(d: u128) -> (c: char)
    requires
        d < 10,
    ensures
        c == digit_char(d as int),
{
    if d == 0 {
        '0'
    } else if d == 1 {
        '1'
    } else if d == 2 {
        '2'
    } else if d == 3 {
        '3'
    } else if d == 4 {
        '4'
    } else if d == 5 {
        '5'
    } else if d == 6 {
        '6'
    } else if d == 7 {
        '7'
    } else if d == 8 {
        '8'
    } else {
        '9'
    }
}

/// `n` written in decimal digits.
pub fn decimal_chars(n: u128) -> (r: Vec<char>)
    ensures
        r@ == decimal(n as nat),
{
    let mut out: Vec<char> = Vec::new();
    let mut m: u128 = n;
    while m >= 10
        invariant
            decimal(n as nat) == decimal(m as nat) + out@,
        decreases m,
    {
        let c = digit_of(m % 10);
        let ghost tail = out@;
        out.insert(0, c);
        proof {
            assert(decimal(m as nat) == decimal((m / 10) as nat).push(c));
            assert(decimal((m / 10) as nat).push(c) + tail =~= decimal((m / 10) as nat) + out@);
        }
        m = m / 10;
    }
    let c = digit_of(m);
    let ghost tail = out@;
    out.insert(0, c);
    assert(seq![c] + tail =~= out@);
    out
}

/// `n` written in decimal digits.
pub fn decimal_string(n: u128) -> (r: String)
    ensures
        r@ == decimal(n as nat),
{
    let chars = decimal_chars(n);
    from_chars(&chars)
}

/// The texts one after the other.
pub fn concat(parts: &Vec<&str>) -> (r: String)
    ensures
        r@ == joined(parts@),
{
    let mut out: Vec<char> = Vec::new();
    let mut i: usize = 0;
    assert(parts@.take(0) =~= Seq::empty());
    while i < parts.len()
        invariant
            i <= parts.len(),
            out@ == joined(parts@.take(i as int)),
        decreases parts.len() - i,
    {
        let piece = to_chars(parts[i]);
        extend(&mut out, &piece);
        proof {
            assert(parts@.take(i + 1).drop_last() =~= parts@.take(i as int));
        }
        i += 1;
    }
    assert(parts@.take(parts.len() as int) =~= parts@);
    from_chars(&out)
}

/// The texts of `parts` one after the other.
pub open spec fn joined(parts: Seq<&str>) -> Seq<char>
    decreases parts.len(),
{
    if parts.len() == 0 {
        Seq::empty()
    } else {
        joined(parts.drop_last()) + parts.last()@
    }
}

} // verus!
