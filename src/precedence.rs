use vstd::prelude::*;

use crate::evaluator::{is_binary_operator, postfix, tree_of, tree_of_postfix, well_formed};
use crate::equation_handler::{formula_value, join, prepend, tokens_from};
use crate::expr::{rank, FormulaError, Term, Token};
use crate::normalizer::{
    is_number_char, needs_no_rewrite, number_run, normalize_keeps_plain_formula, normalized, starts_exponent, without_white,
};
use crate::notation::{close_group, drain, evaluation_order, flush_for, shunt, yields_to};
use crate::scanner::{decimal_text, is_decimal};
use crate::text::{is_digit, is_white, lower_of};

verus! {

/// Infix syntax over `+ - * / ^` with parentheses, before precedence is applied.
pub enum Syntax<T> {
    Operand(Term<T>),
    Group(Box<Syntax<T>>),
    Apply(char, Box<Syntax<T>>, Box<Syntax<T>>),
}

/// The factors in which the syntax is written.
pub open spec fn written<T>(s: Syntax<T>) -> Seq<Token<T>>
    decreases s,
{
    match s {
        Syntax::Operand(e) => seq![Token::Operand(e)],
        Syntax::Group(x) => seq![Token::Operator('(')] + written(*x) + seq![Token::Operator(')')],
        Syntax::Apply(op, l, r) => written(*l) + seq![Token::Operator(op)] + written(*r),
    }
}

/// The expression the syntax denotes.
pub open spec fn meaning<T>(s: Syntax<T>) -> Term<T>
    decreases s,
{
    match s {
        Syntax::Operand(e) => e,
        Syntax::Group(x) => meaning(*x),
        Syntax::Apply(op, l, r) => Term::Binary(op, Box::new(meaning(*l)), Box::new(meaning(*r))),
    }
}

/// The operator applied last, unless the syntax is an operand or a group.
pub open spec fn top_operator<T>(s: Syntax<T>) -> Option<char> {
    match s {
        Syntax::Apply(op, _, _) => Some(op),
        _ => None,
    }
}

/// Whether `l` may stand ungrouped left of `op`: it binds tighter, or as
/// tight and `op` is left-associative.
pub open spec fn left_fits<T>(op: char, l: Syntax<T>) -> bool {
    match top_operator(l) {
        Some(p) => rank(p) > rank(op) || (rank(p) == rank(op) && op != '^'),
        None => true,
    }
}

/// Whether `r` may stand ungrouped right of `op`: it binds tighter, or both
/// are the right-associative `^`.
pub open spec fn right_fits<T>(op: char, r: Syntax<T>) -> bool {
    match top_operator(r) {
        Some(p) => rank(p) > rank(op) || (p == '^' && op == '^'),
        None => true,
    }
}

/// Syntax whose ungrouped parts read as written under the usual precedence
/// of `^` over `* /` over `+ -`, with `^` grouping to the right and the
/// others to the left.
pub open spec fn well_written<T>(s: Syntax<T>) -> bool
    decreases s,
{
    match s {
        Syntax::Operand(e) => !(e is Binary),
        Syntax::Group(x) => well_written(*x),
        Syntax::Apply(op, l, r) => is_binary_operator(op) && well_written(*l) && well_written(*r)
            && left_fits(op, *l) && right_fits(op, *r),
    }
}

/// The lowest rank of an operator outside any group.
pub open spec fn floor<T>(s: Syntax<T>) -> nat
    decreases s,
{
    match s {
        Syntax::Apply(op, l, r) => {
            let a = rank(op) as nat;
            let b = floor(*l);
            let c = floor(*r);
            let m = if a < b {
                a
            } else {
                b
            };
            if m < c {
                m
            } else {
                c
            }
        },
        _ => 4,
    }
}

/// Operators left waiting on the stack once the syntax has been read: the
/// ungrouped right spine, bottom first.
pub open spec fn pending<T>(s: Syntax<T>) -> Seq<char>
    decreases s,
{
    match s {
        Syntax::Apply(op, l, r) => seq![op] + pending(*r),
        _ => Seq::empty(),
    }
}

/// What reading the syntax sends to the output.
pub open spec fn emitted<T>(s: Syntax<T>) -> Seq<Token<T>>
    decreases s,
{
    match s {
        Syntax::Operand(e) => seq![Token::Operand(e)],
        Syntax::Group(x) => postfix(meaning(*x)),
        Syntax::Apply(op, l, r) => postfix(meaning(*l)) + emitted(*r),
    }
}

/// Operators popped off a stack, top first.
pub open spec fn popped<T>(p: Seq<char>) -> Seq<Token<T>>
    decreases p.len(),
{
    if p.len() == 0 {
        Seq::empty()
    } else {
        seq![Token::Operator(p.last())] + popped(p.drop_last())
    }
}

/// No operator outside the groups of `s` sends `g` off the stack.
pub open spec fn shields<T>(g: char, s: Syntax<T>) -> bool {
    floor(s) > rank(g) || (g == '^' && floor(s) >= 3)
}

proof fn lemma_floor<T>(s: Syntax<T>)
    requires
        well_written(s),
    ensures
        floor(s) == match top_operator(s) {
            Some(p) => rank(p) as nat,
            None => 4nat,
        },
        forall|k: int| 0 <= k < pending(s).len() ==> rank(#[trigger] pending(s)[k]) >= floor(s),
        forall|k: int| 0 <= k < pending(s).len() ==> is_binary_operator(#[trigger] pending(s)[k]),
        well_formed(meaning(s)),
        postfix(meaning(s)) == emitted(s) + popped::<T>(pending(s)),
    decreases s,
{
    match s {
        Syntax::Apply(op, l, r) => {
            lemma_floor(*l);
            lemma_floor(*r);
            let pr = pending(*r);
            assert(pending(s) == seq![op] + pr);
            assert forall|k: int| 0 <= k < pending(s).len() implies rank(#[trigger] pending(s)[k])
                >= floor(s) by {
                if k > 0 {
                    assert(pending(s)[k] == pr[k - 1]);
                }
            }
            assert forall|k: int| 0 <= k < pending(s).len() implies is_binary_operator(
                #[trigger] pending(s)[k],
            ) by {
                if k > 0 {
                    assert(pending(s)[k] == pr[k - 1]);
                }
            }
            lemma_popped_prefix::<T>(op, pr);
            assert(postfix(meaning(s)) =~= emitted(s) + popped::<T>(pending(s)));
        },
        Syntax::Group(x) => {
            lemma_floor(*x);
            assert(popped::<T>(pending(s)) =~= Seq::<Token<T>>::empty());
            assert(postfix(meaning(s)) =~= emitted(s) + popped::<T>(pending(s)));
        },
        Syntax::Operand(e) => {
            assert(popped::<T>(pending(s)) =~= Seq::<Token<T>>::empty());
            assert(postfix(meaning(s)) =~= emitted(s) + popped::<T>(pending(s)));
        },
    }
}

proof fn lemma_drain_step<T>(p: Seq<char>, out: Seq<Token<T>>, c: char)
    requires
        p.len() > 0,
        c == p.last(),
    ensures
        drain(p, out) == drain(p.drop_last(), out.push(Token::Operator(c))),
{
}

proof fn lemma_flush_step<T>(f: char, p: Seq<char>, out: Seq<Token<T>>, c: char)
    requires
        p.len() > 0,
        c == p.last(),
        yields_to(f, c),
    ensures
        flush_for(f, p, out) == flush_for(f, p.drop_last(), out.push(Token::Operator(c))),
{
}

proof fn lemma_close_step<T>(p: Seq<char>, out: Seq<Token<T>>, c: char)
    requires
        p.len() > 0,
        c == p.last(),
        c != '(',
    ensures
        close_group(p, out) == close_group(p.drop_last(), out.push(Token::Operator(c))),
{
}

proof fn lemma_popped_step<T>(p: Seq<char>, c: char)
    requires
        p.len() > 0,
        c == p.last(),
    ensures
        popped::<T>(p) == seq![Token::<T>::Operator(c)] + popped::<T>(p.drop_last()),
{
}

proof fn lemma_popped_prefix<T>(op: char, p: Seq<char>)
    ensures
        popped::<T>(seq![op] + p) == popped::<T>(p) + seq![Token::<T>::Operator(op)],
    decreases p.len(),
{
    if p.len() == 0 {
        assert(seq![op] + p =~= seq![op]);
        assert(seq![op].drop_last() =~= Seq::<char>::empty());
        assert(popped::<T>(Seq::<char>::empty()) == Seq::<Token<T>>::empty());
        lemma_popped_step::<T>(seq![op], op);
        assert(popped::<T>(seq![op]) =~= seq![Token::<T>::Operator(op)]);
        assert(popped::<T>(p) + seq![Token::<T>::Operator(op)] =~= seq![Token::<T>::Operator(op)]);
    } else {
        let q = seq![op] + p;
        assert(q.drop_last() =~= seq![op] + p.drop_last());
        assert(q.last() == p.last());
        lemma_popped_prefix::<T>(op, p.drop_last());
        lemma_popped_step::<T>(q, p.last());
        lemma_popped_step::<T>(p, p.last());
        let x = Token::<T>::Operator(p.last());
        let rest = popped::<T>(p.drop_last());
        assert(popped::<T>(q) == seq![x] + (rest + seq![Token::<T>::Operator(op)]));
        lemma_concat_assoc(seq![x], rest, seq![Token::<T>::Operator(op)]);
    }
}

proof fn lemma_push_popped<T>(out: Seq<Token<T>>, p: Seq<char>)
    requires
        p.len() > 0,
    ensures
        out.push(Token::Operator(p.last())) + popped::<T>(p.drop_last()) == out + popped::<T>(p),
{
    let x = Token::<T>::Operator(p.last());
    let pd = popped::<T>(p.drop_last());
    lemma_concat_push(out, x, pd);
    lemma_popped_step::<T>(p, p.last());
}

proof fn lemma_concat_assoc<A>(a: Seq<A>, b: Seq<A>, c: Seq<A>)
    ensures
        a + (b + c) == (a + b) + c,
{
    assert(a + (b + c) =~= (a + b) + c);
}

proof fn lemma_concat_push<A>(out: Seq<A>, x: A, rest: Seq<A>)
    ensures
        out.push(x) + rest == out + (seq![x] + rest),
{
    assert(out.push(x) + rest =~= out + (seq![x] + rest));
}

proof fn lemma_flush_pending<T>(f: char, base: Seq<char>, p: Seq<char>, out: Seq<Token<T>>)
    requires
        forall|k: int| 0 <= k < p.len() ==> yields_to(f, #[trigger] p[k]),
        base.len() > 0 ==> !yields_to(f, base.last()),
    ensures
        flush_for(f, base + p, out) == (base, out + popped::<T>(p)),
    decreases p.len(),
{
    if p.len() == 0 {
        assert(base + p =~= base);
        assert(popped::<T>(p) == Seq::<Token<T>>::empty());
        assert(out + popped::<T>(p) =~= out);
    } else {
        assert((base + p).drop_last() =~= base + p.drop_last());
        assert((base + p).last() == p.last());
        assert(yields_to(f, p[p.len() - 1]));
        lemma_flush_step(f, base + p, out, p.last());
        lemma_flush_pending(f, base, p.drop_last(), out.push(Token::Operator(p.last())));
        lemma_push_popped(out, p);
    }
}

proof fn lemma_close_pending<T>(base: Seq<char>, p: Seq<char>, out: Seq<Token<T>>)
    requires
        forall|k: int| 0 <= k < p.len() ==> #[trigger] p[k] != '(',
    ensures
        close_group(base.push('(') + p, out) == (base, out + popped::<T>(p)),
    decreases p.len(),
{
    if p.len() == 0 {
        assert(base.push('(') + p =~= base.push('('));
        assert(base.push('(').drop_last() =~= base);
        assert(popped::<T>(p) == Seq::<Token<T>>::empty());
        assert(out + popped::<T>(p) =~= out);
    } else {
        assert((base.push('(') + p).drop_last() =~= base.push('(') + p.drop_last());
        assert((base.push('(') + p).last() == p.last());
        assert(p[p.len() - 1] != '(');
        lemma_close_step(base.push('(') + p, out, p.last());
        lemma_close_pending(base, p.drop_last(), out.push(Token::Operator(p.last())));
        lemma_push_popped(out, p);
    }
}

proof fn lemma_drain_pending<T>(p: Seq<char>, out: Seq<Token<T>>)
    ensures
        drain(p, out) == out + popped::<T>(p),
    decreases p.len(),
{
    if p.len() == 0 {
        assert(popped::<T>(p) == Seq::<Token<T>>::empty());
        assert(out + popped::<T>(p) =~= out);
    } else {
        lemma_drain_step(p, out, p.last());
        lemma_drain_pending::<T>(p.drop_last(), out.push(Token::Operator(p.last())));
        lemma_push_popped::<T>(out, p);
    }
}

proof fn lemma_sub_written<T>(ts: Seq<Token<T>>, i: int, a: Seq<Token<T>>, off: int, b: Seq<Token<T>>)
    requires
        0 <= i,
        0 <= off,
        off + b.len() <= a.len(),
        i + a.len() <= ts.len(),
        ts.subrange(i, i + a.len()) == a,
        a.subrange(off, off + b.len()) == b,
    ensures
        ts.subrange(i + off, i + off + b.len()) == b,
{
    assert forall|x: int| 0 <= x < b.len() implies ts.subrange(i + off, i + off + b.len())[x]
        == b[x] by {
        assert(ts.subrange(i, i + a.len())[off + x] == a[off + x]);
        assert(a.subrange(off, off + b.len())[x] == b[x]);
    }
    assert(ts.subrange(i + off, i + off + b.len()) =~= b);
}

proof fn lemma_shunt_written<T>(
    ts: Seq<Token<T>>,
    i: int,
    s: Syntax<T>,
    stack: Seq<char>,
    out: Seq<Token<T>>,
)
    requires
        well_written(s),
        0 <= i,
        i + written(s).len() <= ts.len(),
        ts.subrange(i, i + written(s).len()) == written(s),
        stack.len() > 0 ==> shields(stack.last(), s),
    ensures
        shunt(ts, i, stack, out) == shunt(
            ts,
            i + written(s).len(),
            stack + pending(s),
            out + emitted(s),
        ),
    decreases s,
{
    let w = written(s);
    assert(ts[i] == w[0]) by {
        assert(ts.subrange(i, i + w.len())[0] == w[0]);
    }
    match s {
        Syntax::Operand(e) => {
            assert(stack + pending(s) =~= stack);
            assert(out.push(ts[i]) =~= out + emitted(s));
        },
        Syntax::Group(x) => {
            let wx = written(*x);
            let j = i + 1 + wx.len();
            assert(w.subrange(1, 1 + wx.len() as int) =~= wx);
            lemma_sub_written(ts, i, w, 1, wx);
            assert(ts[j] == w[j - i]) by {
                assert(ts.subrange(i, i + w.len())[j - i] == w[j - i]);
            }
            let s1 = stack.push('(');
            lemma_floor(*x);
            assert(s1.last() == '(');
            lemma_shunt_written(ts, i + 1, *x, s1, out);
            lemma_close_pending(stack, pending(*x), out + emitted(*x));
            assert(out + emitted(*x) + popped::<T>(pending(*x)) =~= out + emitted(s));
            assert(stack + pending(s) =~= stack);
        },
        Syntax::Apply(op, l, r) => {
            let wl = written(*l);
            let wr = written(*r);
            let j = i + wl.len();
            let k = j + 1;
            assert(w.subrange(0, wl.len() as int) =~= wl);
            lemma_sub_written(ts, i, w, 0, wl);
            let off: int = wl.len() as int + 1;
            assert(w.subrange(off, off + wr.len() as int) =~= wr);
            lemma_sub_written(ts, i, w, off, wr);
            assert(ts[j] == w[j - i]) by {
                assert(ts.subrange(i, i + w.len())[j - i] == w[j - i]);
            }
            lemma_floor(s);
            lemma_floor(*l);
            lemma_floor(*r);
            lemma_shunt_written(ts, i, *l, stack, out);
            let o1 = out + emitted(*l);
            let pl = pending(*l);
            assert forall|q: int| 0 <= q < pl.len() implies yields_to(op, #[trigger] pl[q]) by {
                assert(rank(pl[q]) >= floor(*l));
            }
            lemma_flush_pending(op, stack, pl, o1);
            let o2 = o1 + popped::<T>(pl);
            assert(o2 =~= out + postfix(meaning(*l)));
            let s2 = stack.push(op);
            lemma_shunt_written(ts, k, *r, s2, o2);
            assert(s2 + pending(*r) =~= stack + pending(s));
            assert(o2 + emitted(*r) =~= out + emitted(s));
        },
    }
}

/// Every well-written infix expression over `+ - * / ^` with balanced
/// parentheses is put in the postfix order of what it denotes under the usual
/// precedence, and the operand stack reads back exactly that expression.
pub proof fn shunting_yard_applies_precedence<T>(s: Syntax<T>)
    requires
        well_written(s),
    ensures
        evaluation_order(written(s)) == postfix(meaning(s)),
        tree_of(evaluation_order(written(s))) == Some(meaning(s)),
{
    let w = written(s);
    assert(w.subrange(0, w.len() as int) =~= w);
    lemma_shunt_written(w, 0, s, Seq::empty(), Seq::empty());
    lemma_drain_pending::<T>(Seq::<char>::empty() + pending(s), Seq::empty() + emitted(s));
    lemma_floor(s);
    assert(Seq::<char>::empty() + pending(s) =~= pending(s));
    assert(Seq::<Token<T>>::empty() + emitted(s) =~= emitted(s));
    tree_of_postfix(meaning(s));
}

} // verus!

verus! {

/// A decimal literal as written: digits and at most one `.`, with at least one digit.
pub open spec fn plain_decimal(w: Seq<char>) -> bool {
    &&& w.len() > 0
    &&& forall|k: int| 0 <= k < w.len() ==> is_digit(#[trigger] w[k]) || w[k] == '.'
    &&& is_decimal(w)
}

/// Syntax whose every operand is a decimal literal.
pub open spec fn literal_operands<T>(s: Syntax<T>) -> bool
    decreases s,
{
    match s {
        Syntax::Operand(e) => match e {
            Term::Number(w) => plain_decimal(w),
            _ => false,
        },
        Syntax::Group(x) => literal_operands(*x),
        Syntax::Apply(op, l, r) => literal_operands(*l) && literal_operands(*r),
    }
}

/// The text of syntax over decimal literals.
pub open spec fn text_of<T>(s: Syntax<T>) -> Seq<char>
    decreases s,
{
    match s {
        Syntax::Operand(e) => match e {
            Term::Number(w) => w,
            _ => Seq::empty(),
        },
        Syntax::Group(x) => seq!['('] + text_of(*x) + seq![')'],
        Syntax::Apply(op, l, r) => text_of(*l) + seq![op] + text_of(*r),
    }
}

/// A character of formula text over decimal literals.
pub open spec fn literal_char(c: char) -> bool {
    is_digit(c) || c == '.' || c == '(' || c == ')' || is_binary_operator(c)
}

proof fn lemma_text_shape<T>(s: Syntax<T>)
    requires
        literal_operands(s),
        well_written(s),
    ensures
        text_of(s).len() > 0,
        is_digit(text_of(s)[0]) || text_of(s)[0] == '.' || text_of(s)[0] == '(',
        is_digit(text_of(s).last()) || text_of(s).last() == '.' || text_of(s).last() == ')',
        forall|k: int| 0 <= k < text_of(s).len() ==> literal_char(#[trigger] text_of(s)[k]),
        forall|k: int|
            0 < k < text_of(s).len() && #[trigger] text_of(s)[k] == '-' ==> (is_digit(
                text_of(s)[k - 1],
            ) || text_of(s)[k - 1] == '.' || text_of(s)[k - 1] == ')'),
    decreases s,
{
    let t = text_of(s);
    match s {
        Syntax::Operand(e) => {},
        Syntax::Group(x) => {
            lemma_text_shape(*x);
            let tx = text_of(*x);
            assert forall|k: int| 0 <= k < t.len() implies literal_char(#[trigger] t[k]) by {
                if 0 < k && k <= tx.len() {
                    assert(t[k] == tx[k - 1]);
                }
            }
            assert forall|k: int| 0 < k < t.len() && #[trigger] t[k] == '-' implies (is_digit(
                t[k - 1],
            ) || t[k - 1] == '.' || t[k - 1] == ')') by {
                if k == 1 {
                    assert(t[1] == tx[0]);
                } else if k <= tx.len() {
                    assert(t[k - 1] == tx[k - 2]);
                    assert(t[k] == tx[k - 1]);
                } else {
                    assert(t[k] == ')');
                }
            }
        },
        Syntax::Apply(op, l, r) => {
            lemma_text_shape(*l);
            lemma_text_shape(*r);
            let tl = text_of(*l);
            let tr = text_of(*r);
            let n = tl.len();
            assert(t[0] == tl[0]);
            assert(t.last() == tr.last());
            assert forall|k: int| 0 <= k < t.len() implies literal_char(#[trigger] t[k]) by {
                if k < n {
                    assert(t[k] == tl[k]);
                } else if k > n {
                    assert(t[k] == tr[k - n - 1]);
                }
            }
            assert forall|k: int| 0 < k < t.len() && #[trigger] t[k] == '-' implies (is_digit(
                t[k - 1],
            ) || t[k - 1] == '.' || t[k - 1] == ')') by {
                if k < n {
                    assert(t[k - 1] == tl[k - 1]);
                    assert(t[k] == tl[k]);
                } else if k == n {
                    assert(t[k - 1] == tl[n - 1]);
                } else if k == n + 1 {
                    assert(t[k] == tr[0]);
                } else {
                    assert(t[k - 1] == tr[k - n - 2]);
                    assert(t[k] == tr[k - n - 1]);
                }
            }
        },
    }
}

proof fn lemma_no_white(t: Seq<char>)
    requires
        forall|k: int| 0 <= k < t.len() ==> !is_white(#[trigger] t[k]),
    ensures
        without_white(t) == t,
    decreases t.len(),
{
    if t.len() > 0 {
        lemma_no_white(t.drop_last());
        assert(!is_white(t[t.len() - 1]));
        assert(t.drop_last().push(t.last()) =~= t);
    }
}

/// The text of a well-written formula over decimal literals is already in
/// normal form.
pub proof fn literal_text_is_normal<T>(s: Syntax<T>)
    requires
        literal_operands(s),
        well_written(s),
    ensures
        normalized(text_of(s)) == text_of(s),
{
    let t = text_of(s);
    lemma_text_shape(s);
    assert forall|k: int| 0 <= k < t.len() implies !is_white(#[trigger] t[k]) by {
        assert(literal_char(t[k]));
    }
    lemma_no_white(t);
    assert forall|i: int|
        0 <= i && i + 1 < t.len() implies !((t[i] == '^' || t[i] == '(') && #[trigger] t[i + 1]
        == '-') by {
        if t[i + 1] == '-' {
            assert(t[(i + 1) - 1] == t[i]);
        }
    }
    assert forall|i: int| 0 < i && i + 1 < t.len() implies !#[trigger] starts_exponent(
        t,
        i,
        t[i - 1],
    ) by {
        assert(literal_char(t[i]));
    }
    normalize_keeps_plain_formula(t);
}

} // verus!

verus! {

proof fn lemma_number_run_exact(u: Seq<char>, i: int, w: Seq<char>)
    requires
        0 <= i,
        i + w.len() <= u.len(),
        u.subrange(i, i + w.len()) == w,
        forall|k: int| 0 <= k < w.len() ==> is_number_char(#[trigger] w[k]),
        i + w.len() == u.len() || !is_number_char(u[i + w.len()]),
    ensures
        number_run(u, i) == w.len(),
    decreases w.len(),
{
    if w.len() > 0 {
        assert(u[i] == u.subrange(i, i + w.len())[0]);
        let rest = w.drop_first();
        assert(u.subrange(i + 1, i + 1 + rest.len()) =~= rest) by {
            assert forall|k: int| 0 <= k < rest.len() implies u.subrange(
                i + 1,
                i + 1 + rest.len(),
            )[k] == rest[k] by {
                assert(u.subrange(i, i + w.len())[k + 1] == w[k + 1]);
            }
        }
        assert forall|k: int| 0 <= k < rest.len() implies is_number_char(#[trigger] rest[k]) by {
            assert(rest[k] == w[k + 1]);
        }
        lemma_number_run_exact(u, i + 1, rest);
    } else {
        if i < u.len() {
            assert(!is_number_char(u[i]));
        }
    }
}

proof fn lemma_join_join<T>(a: Seq<Token<T>>, b: Seq<Token<T>>, r: Result<Seq<Token<T>>, FormulaError>)
    ensures
        join(a, join(b, r)) == join(a + b, r),
{
    match r {
        Ok(x) => {
            assert(a + (b + x) =~= (a + b) + x);
        },
        Err(_) => {},
    }
}

proof fn lemma_sub_chars(u: Seq<char>, i: int, a: Seq<char>, off: int, b: Seq<char>)
    requires
        0 <= i,
        0 <= off,
        off + b.len() <= a.len(),
        i + a.len() <= u.len(),
        u.subrange(i, i + a.len()) == a,
        a.subrange(off, off + b.len()) == b,
    ensures
        u.subrange(i + off, i + off + b.len()) == b,
{
    assert forall|x: int| 0 <= x < b.len() implies u.subrange(i + off, i + off + b.len())[x]
        == b[x] by {
        assert(u.subrange(i, i + a.len())[off + x] == a[off + x]);
        assert(a.subrange(off, off + b.len())[x] == b[x]);
    }
    assert(u.subrange(i + off, i + off + b.len()) =~= b);
}

proof fn lemma_tokens_written<T>(
    u: Seq<char>,
    i: int,
    s: Syntax<T>,
    vars: Map<Seq<char>, T>,
    depth: nat,
)
    requires
        literal_operands(s),
        well_written(s),
        0 <= i,
        i + text_of(s).len() <= u.len(),
        u.subrange(i, i + text_of(s).len()) == text_of(s),
        i + text_of(s).len() == u.len() || !is_number_char(u[i + text_of(s).len()]),
    ensures
        tokens_from(u, i, vars, depth) == join(
            written(s),
            tokens_from(u, i + text_of(s).len(), vars, depth),
        ),
    decreases s,
{
    let t = text_of(s);
    let n = t.len();
    match s {
        Syntax::Operand(e) => {
            let w = t;
            assert(u[i] == w[0]) by {
                assert(u.subrange(i, i + n)[0] == w[0]);
            }
            assert(is_digit(w[0]) || w[0] == '.');
            assert forall|k: int| 0 <= k < w.len() implies is_number_char(#[trigger] w[k]) by {
                assert(is_digit(w[k]) || w[k] == '.');
            }
            lemma_number_run_exact(u, i, w);
            assert(decimal_text(w) =~= w) by {
                assert forall|k: int| 0 <= k < w.len() implies decimal_text(w)[k] == w[k] by {
                    assert(is_digit(w[k]) || w[k] == '.');
                }
            }
            assert(e == Term::<T>::Number(w));
            assert(u.subrange(i, i + number_run(u, i)) == w);
            let rest = tokens_from(u, i + n, vars, depth);
            assert(tokens_from(u, i, vars, depth) == prepend(
                Token::Operand(Term::Number(decimal_text(w))),
                rest,
            ));
            match rest {
                Ok(x) => {
                    assert(seq![Token::Operand(e)] + x =~= written(s) + x);
                },
                Err(_) => {},
            }
        },
        Syntax::Group(x) => {
            let tx = text_of(*x);
            assert(u[i] == t[0]) by {
                assert(u.subrange(i, i + n)[0] == t[0]);
            }
            assert(t.subrange(1, 1 + tx.len() as int) =~= tx);
            lemma_sub_chars(u, i, t, 1, tx);
            let j = i + 1 + tx.len();
            assert(u[j] == t[j - i]) by {
                assert(u.subrange(i, i + n)[j - i] == t[j - i]);
            }
            lemma_tokens_written(u, i + 1, *x, vars, depth);
            let rest = tokens_from(u, i + n, vars, depth);
            lemma_join_join(written(*x), seq![Token::<T>::Operator(')')], rest);
            lemma_join_join(
                seq![Token::<T>::Operator('(')],
                written(*x) + seq![Token::<T>::Operator(')')],
                rest,
            );
            assert(seq![Token::<T>::Operator('(')] + (written(*x) + seq![Token::<T>::Operator(')')])
                =~= written(s));
        },
        Syntax::Apply(op, l, r) => {
            let tl = text_of(*l);
            let tr = text_of(*r);
            let j = i + tl.len();
            assert(t.subrange(0, tl.len() as int) =~= tl);
            lemma_sub_chars(u, i, t, 0, tl);
            let off: int = tl.len() as int + 1;
            assert(t.subrange(off, off + tr.len() as int) =~= tr);
            lemma_sub_chars(u, i, t, off, tr);
            assert(u[j] == t[j - i]) by {
                assert(u.subrange(i, i + n)[j - i] == t[j - i]);
            }
            assert(u[j] == op);
            lemma_tokens_written(u, i, *l, vars, depth);
            lemma_tokens_written(u, j + 1, *r, vars, depth);
            let rest = tokens_from(u, i + n, vars, depth);
            lemma_join_join(seq![Token::<T>::Operator(op)], written(*r), rest);
            lemma_join_join(written(*l), seq![Token::<T>::Operator(op)] + written(*r), rest);
            assert(written(*l) + (seq![Token::<T>::Operator(op)] + written(*r)) =~= written(s));
        },
    }
}

/// The text of a well-written formula over decimal literals is left as it is
/// by the normalizer, splits into exactly its written factors, and these
/// reduce to the expression it denotes under the usual precedence; so, as far
/// as lower-casing leaves the text alone, that expression is its value.
pub proof fn literal_formula_reads_by_precedence<T>(
    s: Syntax<T>,
    vars: Map<Seq<char>, T>,
    depth: nat,
)
    requires
        literal_operands(s),
        well_written(s),
    ensures
        normalized(text_of(s)) == text_of(s),
        tokens_from(text_of(s), 0, vars, depth) == Ok::<Seq<Token<T>>, FormulaError>(written(s)),
        tree_of(evaluation_order(written(s))) == Some(meaning(s)),
        lower_of(text_of(s)) == text_of(s) ==> formula_value(text_of(s), vars, depth) == Ok::<
            Term<T>,
            FormulaError,
        >(meaning(s)),
{
    let t = text_of(s);
    literal_text_is_normal(s);
    assert(t.subrange(0, t.len() as int) =~= t);
    lemma_tokens_written(t, 0, s, vars, depth);
    assert(written(s) + Seq::<Token<T>>::empty() =~= written(s));
    shunting_yard_applies_precedence(s);
}

} // verus!
