use vstd::prelude::*;

use crate::expr::MathFunction;
use crate::normalizer::{is_number_char, is_number_or_decimal_separator, number_run};
use crate::text::{is_alpha, is_ascii_alpha, is_ascii_digit, is_digit, same_chars};

verus! {

/// One of `+ - * / ( ) ^`.
pub open spec fn is_operator_char(c: char) -> bool {
    c == '+' || c == '-' || c == '/' || c == '*' || c == '(' || c == ')' || c == '^'
}

pub fn is_operator(c: char) -> (r: bool)
    ensures
        r == is_operator_char(c),
{
    c == '+' || c == '-' || c == '/' || c == '*' || c == '(' || c == ')' || c == '^'
}

/// A character that may continue a name: a letter, a digit, `_` or `,`.
pub open spec fn is_name_char(c: char) -> bool {
    is_alpha(c) || is_digit(c) || c == '_' || c == ','
}

pub fn is_valid_formula_char(c: char) -> (r: bool)
    ensures
        r == is_name_char(c),
{
    is_ascii_alpha(c) || is_ascii_digit(c) || c == '_' || c == ','
}

/// Length of the run of name characters that starts at `j`.
pub open spec fn name_run(u: Seq<char>, j: int) -> nat
    decreases u.len() - j,
{
    if 0 <= j < u.len() && is_name_char(u[j]) {
        1 + name_run(u, j + 1)
    } else {
        0
    }
}

/// The position after the first `]` at or after `j`, or the end of `u`.
pub open spec fn comment_end(u: Seq<char>, j: int) -> int
    decreases u.len() - j,
{
    if j < 0 || j >= u.len() {
        u.len() as int
    } else if u[j] == ']' {
        j + 1
    } else {
        comment_end(u, j + 1)
    }
}

/// The position of the `)` that closes a group open `depth` levels deep at `j`.
pub open spec fn closing_paren(u: Seq<char>, j: int, depth: nat) -> Option<int>
    decreases u.len() - j,
{
    if j < 0 || j >= u.len() {
        None
    } else if u[j] == ')' {
        if depth == 0 {
            Some(j)
        } else {
            closing_paren(u, j + 1, (depth - 1) as nat)
        }
    } else if u[j] == '(' {
        closing_paren(u, j + 1, depth + 1)
    } else {
        closing_paren(u, j + 1, depth)
    }
}

/// The function a lower-case name stands for.
pub open spec fn function_named(name: Seq<char>) -> Option<MathFunction> {
    if name == seq!['s', 'q', 'r', 't'] {
        Some(MathFunction::Sqrt)
    } else if name == seq!['a', 'b', 's'] {
        Some(MathFunction::Abs)
    } else if name == seq!['s', 'i', 'n'] {
        Some(MathFunction::Sin)
    } else if name == seq!['c', 'o', 's'] {
        Some(MathFunction::Cos)
    } else if name == seq!['t', 'a', 'n'] {
        Some(MathFunction::Tan)
    } else if name == seq!['a', 'c', 'o', 's'] {
        Some(MathFunction::Acos)
    } else if name == seq!['a', 's', 'i', 'n'] {
        Some(MathFunction::Asin)
    } else if name == seq!['a', 't', 'a', 'n'] {
        Some(MathFunction::Atan)
    } else if name == seq!['l', 'o', 'g'] {
        Some(MathFunction::Log)
    } else if name == seq!['l', 'o', 'g', '1', '0'] {
        Some(MathFunction::Log10)
    } else {
        None
    }
}

/// Number of decimal separators in `w`.
pub open spec fn separators(w: Seq<char>) -> nat
    decreases w.len(),
{
    if w.len() == 0 {
        0
    } else {
        separators(w.drop_last()) + if w.last() == '.' || w.last() == ',' {
            1nat
        } else {
            0nat
        }
    }
}

/// A run of digits and separators that reads as a decimal number: at least one
/// digit and at most one separator.
pub open spec fn is_decimal(w: Seq<char>) -> bool {
    separators(w) <= 1 && exists|k: int| 0 <= k < w.len() && is_digit(#[trigger] w[k])
}

/// The run with `.` as its decimal separator.
pub open spec fn decimal_text(w: Seq<char>) -> Seq<char> {
    w.map_values(|c: char|
        if c == ',' {
            '.'
        } else {
            c
        })
}

pub proof fn lemma_name_run_bound(u: Seq<char>, j: int)
    requires
        0 <= j,
    ensures
        j + name_run(u, j) <= if j <= u.len() { u.len() as int } else { j },
    decreases u.len() - j,
{
    if 0 <= j < u.len() && is_name_char(u[j]) {
        lemma_name_run_bound(u, j + 1);
    }
}

pub proof fn lemma_comment_end_bound(u: Seq<char>, j: int)
    requires
        0 <= j <= u.len(),
    ensures
        j <= comment_end(u, j) <= u.len(),
    decreases u.len() - j,
{
    if j < u.len() && u[j] != ']' {
        lemma_comment_end_bound(u, j + 1);
    }
}

pub proof fn lemma_closing_paren_bound(u: Seq<char>, j: int, depth: nat)
    requires
        0 <= j,
    ensures
        closing_paren(u, j, depth) matches Some(m) ==> j <= m < u.len(),
    decreases u.len() - j,
{
    if 0 <= j < u.len() {
        if u[j] == ')' {
            if depth > 0 {
                lemma_closing_paren_bound(u, j + 1, (depth - 1) as nat);
            }
        } else if u[j] == '(' {
            lemma_closing_paren_bound(u, j + 1, depth + 1);
        } else {
            lemma_closing_paren_bound(u, j + 1, depth);
        }
    }
}

/// The end of the run of number characters that starts at `start`.
pub fn number_end(u: &Vec<char>, start: usize) -> (end: usize)
    requires
        start <= u@.len(),
    ensures
        end == start + number_run(u@, start as int),
        end <= u@.len(),
{
    let mut j: usize = start;
    while j < u.len() && is_number_or_decimal_separator(u[j])
        invariant
            start <= j <= u@.len(),
            number_run(u@, start as int) == (j - start) + number_run(u@, j as int),
        decreases u.len() - j,
    {
        j = j + 1;
    }
    j
}

/// The end of the run of name characters that starts at `start`.
pub fn name_end(u: &Vec<char>, start: usize) -> (end: usize)
    requires
        start <= u@.len(),
    ensures
        end == start + name_run(u@, start as int),
        end <= u@.len(),
{
    let mut j: usize = start;
    while j < u.len() && is_valid_formula_char(u[j])
        invariant
            start <= j <= u@.len(),
            name_run(u@, start as int) == (j - start) + name_run(u@, j as int),
        decreases u.len() - j,
    {
        j = j + 1;
    }
    j
}

/// The position after the comment that starts before `start`.
pub fn skip_comment(u: &Vec<char>, start: usize) -> (end: usize)
    requires
        start <= u@.len(),
    ensures
        end == comment_end(u@, start as int),
        start <= end <= u@.len(),
{
    let mut j: usize = start;
    while j < u.len() && u[j] != ']'
        invariant
            start <= j <= u@.len(),
            comment_end(u@, start as int) == comment_end(u@, j as int),
        decreases u.len() - j,
    {
        j = j + 1;
    }
    if j < u.len() {
        j + 1
    } else {
        j
    }
}

/// The position of the `)` that closes the group opened just before `start`.
pub fn find_closing(u: &Vec<char>, start: usize) -> (r: Option<usize>)
    requires
        start <= u@.len(),
    ensures
        r matches Some(m) ==> closing_paren(u@, start as int, 0) == Some(m as int),
        r matches Some(m) ==> start <= m < u@.len(),
        r is None ==> closing_paren(u@, start as int, 0) is None,
{
    let mut j: usize = start;
    let mut depth: usize = 0;
    while j < u.len()
        invariant
            start <= j <= u@.len(),
            depth <= j,
            closing_paren(u@, start as int, 0) == closing_paren(u@, j as int, depth as nat),
        decreases u.len() - j,
    {
        if u[j] == ')' {
            if depth == 0 {
                proof {
                    lemma_closing_paren_bound(u@, start as int, 0);
                }
                return Some(j);
            }
            depth = depth - 1;
        } else if u[j] == '(' {
            depth = depth + 1;
        }
        j = j + 1;
    }
    None
}

/// The characters of `u` from `from` up to `to`.
pub fn slice_chars(u: &Vec<char>, from: usize, to: usize) -> (r: Vec<char>)
    requires
        from <= to <= u@.len(),
    ensures
        r@ == u@.subrange(from as int, to as int),
{
    let mut r: Vec<char> = Vec::new();
    let mut j: usize = from;
    while j < to
        invariant
            from <= j <= to <= u@.len(),
            r@ == u@.subrange(from as int, j as int),
        decreases to - j,
    {
        r.push(u[j]);
        j = j + 1;
        assert(r@ =~= u@.subrange(from as int, j as int));
    }
    r
}

/// Whether a run of digits and separators reads as a decimal number, and its
/// text with `.` as separator.
pub fn decimal_of(w: &Vec<char>) -> (r: (bool, Vec<char>))
    ensures
        r.0 == is_decimal(w@),
        r.1@ == decimal_text(w@),
{
    let mut out: Vec<char> = Vec::new();
    let mut seps: usize = 0;
    let mut digit = false;
    let mut j: usize = 0;
    while j < w.len()
        invariant
            j <= w@.len(),
            seps == separators(w@.take(j as int)),
            seps <= j,
            digit == exists|k: int| 0 <= k < j && is_digit(#[trigger] w@[k]),
            out@ == decimal_text(w@.take(j as int)),
        decreases w.len() - j,
    {
        let c = w[j];
        assert(w@.take(j + 1).drop_last() =~= w@.take(j as int));
        if c == '.' || c == ',' {
            seps = seps + 1;
            out.push('.');
        } else {
            out.push(c);
        }
        if is_ascii_digit(c) {
            digit = true;
        }
        j = j + 1;
        assert(out@ =~= decimal_text(w@.take(j as int)));
    }
    assert(w@.take(w@.len() as int) =~= w@);
    (seps <= 1 && digit, out)
}

/// The function a lower-case name stands for.
pub fn math_function(name: &Vec<char>) -> (r: Option<MathFunction>)
    ensures
        r == function_named(name@),
{
    if same_chars(name, &vec!['s', 'q', 'r', 't']) {
        Some(MathFunction::Sqrt)
    } else if same_chars(name, &vec!['a', 'b', 's']) {
        Some(MathFunction::Abs)
    } else if same_chars(name, &vec!['s', 'i', 'n']) {
        Some(MathFunction::Sin)
    } else if same_chars(name, &vec!['c', 'o', 's']) {
        Some(MathFunction::Cos)
    } else if same_chars(name, &vec!['t', 'a', 'n']) {
        Some(MathFunction::Tan)
    } else if same_chars(name, &vec!['a', 'c', 'o', 's']) {
        Some(MathFunction::Acos)
    } else if same_chars(name, &vec!['a', 's', 'i', 'n']) {
        Some(MathFunction::Asin)
    } else if same_chars(name, &vec!['a', 't', 'a', 'n']) {
        Some(MathFunction::Atan)
    } else if same_chars(name, &vec!['l', 'o', 'g']) {
        Some(MathFunction::Log)
    } else if same_chars(name, &vec!['l', 'o', 'g', '1', '0']) {
        Some(MathFunction::Log10)
    } else {
        None
    }
}

} // verus!
