use vstd::prelude::*;

use crate::text::{chars_of, is_ascii_digit, is_digit, is_white, is_whitespace, string_of};

verus! {

/// A digit or one of the two decimal separators.
pub open spec fn is_number_char(c: char) -> bool {
    is_digit(c) || c == '.' || c == ','
}

pub fn is_number_or_decimal_separator(c: char) -> (r: bool)
    ensures
        r == is_number_char(c),
{
    is_ascii_digit(c) || c == '.' || c == ','
}

/// The characters of `s` that are not whitespace, in order.
pub open spec fn without_white(s: Seq<char>) -> Seq<char>
    decreases s.len(),
{
    if s.len() == 0 {
        s
    } else {
        let r = without_white(s.drop_last());
        if is_white(s.last()) {
            r
        } else {
            r.push(s.last())
        }
    }
}

/// A leading minus gets a zero in front of it.
pub open spec fn zero_prefixed(t: Seq<char>) -> Seq<char> {
    if t.len() > 0 && t[0] == '-' {
        seq!['0'] + t
    } else {
        t
    }
}

/// Length of the run of number characters that starts at `j`.
pub open spec fn number_run(t: Seq<char>, j: int) -> nat
    decreases t.len() - j,
{
    if 0 <= j < t.len() && is_number_char(t[j]) {
        1 + number_run(t, j + 1)
    } else {
        0
    }
}

/// The closing parentheses appended at the end: one fewer than the count of
/// groups opened by `(-` and not closed.
pub open spec fn closers(open: int) -> Seq<char> {
    if open > 1 {
        Seq::new((open - 1) as nat, |k: int| ')')
    } else {
        Seq::empty()
    }
}

/// Whether an `E`/`e` at `i` starts a scientific exponent.
pub open spec fn starts_exponent(t: Seq<char>, i: int, prev: char) -> bool {
    &&& 0 <= i && i + 1 < t.len()
    &&& (t[i] == 'E' || t[i] == 'e')
    &&& is_number_char(prev)
    &&& (t[i + 1] == '+' || t[i + 1] == '-' || is_digit(t[i + 1]))
}

/// The rewriting of `t` from position `i` on; `prev` is the character last
/// read at the outer level and `open` the count of unclosed groups.
pub open spec fn rewrite_from(t: Seq<char>, i: int, prev: char, open: int) -> Seq<char>
    decreases t.len() - i,
    via rewrite_from_decreases
{
    if i < 0 || i >= t.len() {
        closers(open)
    } else {
        let c = t[i];
        if c == '^' && i + 1 < t.len() && t[i + 1] == '-' {
            let end = i + 2 + number_run(t, i + 2);
            seq!['^', '(', '0', '-'] + t.subrange(i + 2, end) + seq![')'] + rewrite_from(
                t,
                end,
                c,
                open,
            )
        } else if c == '(' && i + 1 < t.len() && t[i + 1] == '-' {
            seq!['(', '0'] + rewrite_from(t, i + 1, c, open + 1)
        } else if starts_exponent(t, i, prev) {
            let start = if t[i + 1] == '+' || t[i + 1] == '-' {
                i + 2
            } else {
                i + 1
            };
            let end = start + number_run(t, start);
            seq!['*', '1', '0', '^', '(', '0'] + t.subrange(i + 1, end) + seq![')'] + rewrite_from(
                t,
                end,
                c,
                open,
            )
        } else if c == ')' {
            seq![c] + rewrite_from(t, i + 1, c, open - 1)
        } else {
            seq![c] + rewrite_from(t, i + 1, c, open)
        }
    }
}

/// A run of number characters stays inside the text.
pub proof fn lemma_number_run_bound(t: Seq<char>, j: int)
    requires
        0 <= j,
    ensures
        j + number_run(t, j) <= if j <= t.len() { t.len() as int } else { j },
    decreases t.len() - j,
{
    if 0 <= j < t.len() && is_number_char(t[j]) {
        lemma_number_run_bound(t, j + 1);
    }
}

#[via_fn]
proof fn rewrite_from_decreases(t: Seq<char>, i: int, prev: char, open: int) {
    if 0 <= i < t.len() {
        lemma_number_run_bound(t, i + 1);
        lemma_number_run_bound(t, i + 2);
    }
}

/// The normal form of a formula: no whitespace, no unary minus, no scientific
/// notation.
pub open spec fn normalized(s: Seq<char>) -> Seq<char> {
    rewrite_from(zero_prefixed(without_white(s)), 0, ' ', 0)
}

/// A formula in which none of the rewrites applies: no leading `-`, no `^-`,
/// no `(-` and no scientific exponent.
pub open spec fn needs_no_rewrite(t: Seq<char>) -> bool {
    &&& !(t.len() > 0 && t[0] == '-')
    &&& forall|i: int|
        0 <= i && i + 1 < t.len() ==> !((t[i] == '^' || t[i] == '(') && #[trigger] t[i + 1] == '-')
    &&& forall|i: int| 0 < i && i + 1 < t.len() ==> !#[trigger] starts_exponent(t, i, t[i - 1])
}

proof fn lemma_plain_rewrite(t: Seq<char>, i: int, prev: char, open: int)
    requires
        needs_no_rewrite(t),
        0 <= i <= t.len(),
        open <= 0,
        i == 0 ==> !is_number_char(prev),
        i > 0 ==> prev == t[i - 1],
    ensures
        rewrite_from(t, i, prev, open) == t.subrange(i, t.len() as int),
    decreases t.len() - i,
{
    if i < t.len() {
        if i > 0 {
            assert(!starts_exponent(t, i, t[i - 1]));
        }
        if i + 1 < t.len() {
            assert(!((t[i] == '^' || t[i] == '(') && t[i + 1] == '-'));
        }
        let c = t[i];
        if c == ')' {
            lemma_plain_rewrite(t, i + 1, c, open - 1);
        } else {
            lemma_plain_rewrite(t, i + 1, c, open);
        }
        assert(rewrite_from(t, i, prev, open) =~= t.subrange(i, t.len() as int));
    } else {
        assert(rewrite_from(t, i, prev, open) =~= t.subrange(i, t.len() as int));
    }
}

/// A formula that needs none of the rewrites is only stripped of its whitespace.
pub proof fn normalize_keeps_plain_formula(s: Seq<char>)
    requires
        needs_no_rewrite(without_white(s)),
    ensures
        normalized(s) == without_white(s),
{
    let t = without_white(s);
    lemma_plain_rewrite(t, 0, ' ', 0);
    assert(t.subrange(0, t.len() as int) =~= t);
}

/// The characters of `cs` without whitespace, with a zero before a leading minus.
fn prepare(cs: &Vec<char>) -> (t: Vec<char>)
    ensures
        t@ == zero_prefixed(without_white(cs@)),
{
    let ghost s = cs@;
    let mut t: Vec<char> = Vec::new();
    let mut i: usize = 0;
    while i < cs.len()
        invariant
            cs@ == s,
            i <= cs@.len(),
            t@ == without_white(cs@.take(i as int)),
        decreases cs.len() - i,
    {
        let c = cs[i];
        assert(cs@.take(i + 1).drop_last() =~= cs@.take(i as int));
        if !is_whitespace(c) {
            t.push(c);
        }
        i = i + 1;
    }
    assert(cs@.take(cs@.len() as int) =~= cs@);
    if t.len() > 0 && t[0] == '-' {
        t.insert(0, '0');
        assert(t@ =~= seq!['0'] + without_white(s));
    }
    t
}

/// Copies the run of number characters that starts at `start`.
fn copy_number_run(t: &Vec<char>, start: usize, out: &mut Vec<char>) -> (end: usize)
    requires
        start <= t@.len(),
    ensures
        end == start + number_run(t@, start as int),
        end <= t@.len(),
        final(out)@ == old(out)@ + t@.subrange(start as int, end as int),
{
    let mut j: usize = start;
    while j < t.len() && is_number_or_decimal_separator(t[j])
        invariant
            start <= j <= t@.len(),
            number_run(t@, start as int) == (j - start) + number_run(t@, j as int),
            out@ == old(out)@ + t@.subrange(start as int, j as int),
        decreases t.len() - j,
    {
        out.push(t[j]);
        j = j + 1;
        assert(out@ =~= old(out)@ + t@.subrange(start as int, j as int));
    }
    j
}

/// Rewrites a formula into the form the tokenizer reads: whitespace removed,
/// `0` put before a leading `-`, `^-x` turned into `^(0-x)`, `(-` into `(0-`,
/// and `aEb` into `a*10^(0b)`; at the end one fewer `)` than the count of
/// groups opened by `(-` and left open is appended.
pub fn normalize(s: &str) -> (r: String)
    ensures
        r@ == normalized(s@),
{
    string_of(&normalize_chars(&chars_of(s)))
}

/// [`normalize`] on a sequence of characters.
pub fn normalize_chars(s: &Vec<char>) -> (r: Vec<char>)
    ensures
        r@ == normalized(s@),
{
    let t = prepare(s);
    let ghost tv = t@;
    let mut out: Vec<char> = Vec::new();
    let mut i: usize = 0;
    let mut prev: char = ' ';
    let mut opens: usize = 0;
    let mut closes: usize = 0;
    while i < t.len()
        invariant
            tv == t@,
            i <= t@.len(),
            opens <= i,
            closes <= i,
            out@ + rewrite_from(tv, i as int, prev, opens - closes) == rewrite_from(tv, 0, ' ', 0),
        decreases t.len() - i,
    {
        let ghost before = out@;
        let c = t[i];
        if c == '^' && i + 1 < t.len() && t[i + 1] == '-' {
            out.push('^');
            out.push('(');
            out.push('0');
            out.push('-');
            let end = copy_number_run(&t, i + 2, &mut out);
            out.push(')');
            assert(out@ =~= before + seq!['^', '(', '0', '-'] + tv.subrange(i + 2, end as int)
                + seq![')']);
            i = end;
        } else if c == '(' && i + 1 < t.len() && t[i + 1] == '-' {
            out.push('(');
            out.push('0');
            assert(out@ =~= before + seq!['(', '0']);
            opens = opens + 1;
            i = i + 1;
        } else if (c == 'E' || c == 'e') && is_number_or_decimal_separator(prev) && i + 1 < t.len()
            && (t[i + 1] == '+' || t[i + 1] == '-' || is_ascii_digit(t[i + 1])) {
            out.push('*');
            out.push('1');
            out.push('0');
            out.push('^');
            out.push('(');
            out.push('0');
            let start = if t[i + 1] == '+' || t[i + 1] == '-' {
                out.push(t[i + 1]);
                i + 2
            } else {
                i + 1
            };
            let ghost mid = out@;
            let end = copy_number_run(&t, start, &mut out);
            out.push(')');
            assert(out@ =~= before + seq!['*', '1', '0', '^', '(', '0'] + tv.subrange(
                i + 1,
                end as int,
            ) + seq![')']);
            i = end;
        } else if c == ')' {
            out.push(c);
            assert(out@ =~= before + seq![c]);
            closes = closes + 1;
            i = i + 1;
        } else {
            out.push(c);
            assert(out@ =~= before + seq![c]);
            i = i + 1;
        }
        prev = c;
    }
    if opens > closes {
        let mut k: usize = 1;
        let ghost before = out@;
        while k < opens - closes
            invariant
                1 <= k <= opens - closes,
                out@ == before + Seq::new((k - 1) as nat, |n: int| ')'),
            decreases opens - closes - k,
        {
            out.push(')');
            k = k + 1;
            assert(out@ =~= before + Seq::new((k - 1) as nat, |n: int| ')'));
        }
    }
    assert(out@ =~= rewrite_from(tv, 0, ' ', 0));
    out
}

} // verus!
