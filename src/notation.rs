use vstd::prelude::*;

use crate::evaluator::{postfix, tree_of, tree_of_postfix, well_formed};
use crate::expr::{operator_rank, rank, tokens_of, Factor, Term, Token};

verus! {

/// Whether operator `top` on the stack leaves for the output before `f` is
/// pushed: its rank is at least that of `f`, unless both are `^`, which makes
/// `^` right-associative.
pub open spec fn yields_to(f: char, top: char) -> bool {
    rank(f) <= rank(top) && !(f == '^' && top == '^')
}

/// Moves the operators that yield to `f` from the stack to the output.
pub open spec fn flush_for<T>(f: char, stack: Seq<char>, out: Seq<Token<T>>) -> (Seq<char>, Seq<Token<T>>)
    decreases stack.len(),
{
    if stack.len() > 0 && yields_to(f, stack.last()) {
        flush_for(f, stack.drop_last(), out.push(Token::Operator(stack.last())))
    } else {
        (stack, out)
    }
}

/// Moves operators to the output until a `(` is popped and dropped, or the
/// stack is empty.
pub open spec fn close_group<T>(stack: Seq<char>, out: Seq<Token<T>>) -> (Seq<char>, Seq<Token<T>>)
    decreases stack.len(),
{
    if stack.len() == 0 {
        (stack, out)
    } else if stack.last() == '(' {
        (stack.drop_last(), out)
    } else {
        close_group(stack.drop_last(), out.push(Token::Operator(stack.last())))
    }
}

/// Moves every operator left on the stack to the output, top first.
pub open spec fn drain<T>(stack: Seq<char>, out: Seq<Token<T>>) -> Seq<Token<T>>
    decreases stack.len(),
{
    if stack.len() == 0 {
        out
    } else {
        drain(stack.drop_last(), out.push(Token::Operator(stack.last())))
    }
}

/// The shunting-yard pass over `ts` from position `i` on.
pub open spec fn shunt<T>(ts: Seq<Token<T>>, i: int, stack: Seq<char>, out: Seq<Token<T>>) -> Seq<
    Token<T>,
>
    decreases ts.len() - i,
{
    if i < 0 || i >= ts.len() {
        drain(stack, out)
    } else {
        match ts[i] {
            Token::Operand(_) => shunt(ts, i + 1, stack, out.push(ts[i])),
            Token::Operator(c) => if c == '(' {
                shunt(ts, i + 1, stack.push(c), out)
            } else if c == ')' {
                let (s2, o2) = close_group(stack, out);
                shunt(ts, i + 1, s2, o2)
            } else {
                let (s2, o2) = flush_for(c, stack, out);
                shunt(ts, i + 1, s2.push(c), o2)
            },
        }
    }
}

/// Infix factors reordered into evaluation (postfix) order.
pub open spec fn evaluation_order<T>(ts: Seq<Token<T>>) -> Seq<Token<T>> {
    shunt(ts, 0, Seq::empty(), Seq::empty())
}

proof fn lemma_push_token<T>(out: Seq<Factor<T>>, f: Factor<T>)
    ensures
        tokens_of(out.push(f)) == tokens_of(out).push(f.token()),
{
    assert(tokens_of(out.push(f)) =~= tokens_of(out).push(f.token()));
}

fn yields(f: char, top: char) -> (r: bool)
    ensures
        r == yields_to(f, top),
{
    operator_rank(f) <= operator_rank(top) && !(f == '^' && top == '^')
}

fn pop_operator<T>(stack: &mut Vec<char>, out: &mut Vec<Factor<T>>)
    requires
        old(stack)@.len() > 0,
    ensures
        final(stack)@ == old(stack)@.drop_last(),
        tokens_of(final(out)@) == tokens_of(old(out)@).push(Token::Operator(old(stack)@.last())),
{
    let top = stack.pop().unwrap();
    proof {
        lemma_push_token(out@, Factor::<T>::Operator(top));
    }
    out.push(Factor::Operator(top));
}

fn flush_stack<T>(f: char, stack: &mut Vec<char>, out: &mut Vec<Factor<T>>)
    ensures
        (final(stack)@, tokens_of(final(out)@)) == flush_for(f, old(stack)@, tokens_of(old(out)@)),
{
    loop
        invariant_except_break
            flush_for(f, stack@, tokens_of(out@)) == flush_for(f, old(stack)@, tokens_of(old(out)@)),
        ensures
            (stack@, tokens_of(out@)) == flush_for(f, old(stack)@, tokens_of(old(out)@)),
        decreases stack.len(),
    {
        if stack.len() > 0 && yields(f, stack[stack.len() - 1]) {
            pop_operator(stack, out);
        } else {
            assert(flush_for(f, stack@, tokens_of(out@)) == (stack@, tokens_of(out@)));
            break;
        }
    }
}

fn close_stack<T>(stack: &mut Vec<char>, out: &mut Vec<Factor<T>>)
    ensures
        (final(stack)@, tokens_of(final(out)@)) == close_group(old(stack)@, tokens_of(old(out)@)),
{
    loop
        invariant_except_break
            close_group(stack@, tokens_of(out@)) == close_group(old(stack)@, tokens_of(old(out)@)),
        ensures
            (stack@, tokens_of(out@)) == close_group(old(stack)@, tokens_of(old(out)@)),
        decreases stack.len(),
    {
        if stack.len() == 0 {
            break;
        } else if stack[stack.len() - 1] == '(' {
            stack.pop();
            break;
        } else {
            pop_operator(stack, out);
        }
    }
}

/// Reorders infix factors into evaluation (postfix) order with the
/// shunting-yard algorithm: operands go straight to the output, operators wait
/// on a stack until an operator that does not yield to them, a `)` or the end
/// of the input sends them on.
pub fn to_evaluation_order<T>(factors: Vec<Factor<T>>) -> (r: Vec<Factor<T>>)
    ensures
        tokens_of(r@) == evaluation_order(tokens_of(factors@)),
{
    let ghost fv = factors@;
    let ghost ts = tokens_of(factors@);
    let mut stack: Vec<char> = Vec::new();
    let mut out: Vec<Factor<T>> = Vec::new();
    assert(tokens_of(out@) =~= Seq::<Token<T>>::empty());
    assert(stack@ =~= Seq::<char>::empty());
    for f in iter: factors
        invariant
            iter.seq() == fv,
            ts == tokens_of(fv),
            0 <= iter.index() <= ts.len(),
            shunt(ts, iter.index(), stack@, tokens_of(out@)) == evaluation_order(ts),
    {
        assert(ts[iter.index()] == f.token());
        match f {
            Factor::Operand(e) => {
                proof {
                    lemma_push_token(out@, Factor::Operand(e));
                }
                out.push(Factor::Operand(e));
            },
            Factor::Operator(c) => {
                if c == '(' {
                    stack.push(c);
                } else if c == ')' {
                    close_stack(&mut stack, &mut out);
                } else {
                    flush_stack(c, &mut stack, &mut out);
                    stack.push(c);
                }
            },
        }
    }
    while stack.len() > 0
        invariant
            drain(stack@, tokens_of(out@)) == evaluation_order(ts),
        decreases stack.len(),
    {
        pop_operator(&mut stack, &mut out);
    }
    out
}

} // verus!

verus! {

/// The infix factors of an expression with every operation in parentheses.
pub open spec fn parenthesized<T>(e: Term<T>) -> Seq<Token<T>>
    decreases e,
{
    match e {
        Term::Binary(op, l, r) => seq![Token::Operator('(')] + parenthesized(*l) + seq![
            Token::Operator(op),
        ] + parenthesized(*r) + seq![Token::Operator(')')],
        _ => seq![Token::Operand(e)],
    }
}

proof fn lemma_shunt_parenthesized<T>(
    ts: Seq<Token<T>>,
    i: int,
    e: Term<T>,
    stack: Seq<char>,
    out: Seq<Token<T>>,
)
    requires
        well_formed(e),
        0 <= i,
        i + parenthesized(e).len() <= ts.len(),
        ts.subrange(i, i + parenthesized(e).len()) == parenthesized(e),
    ensures
        shunt(ts, i, stack, out) == shunt(ts, i + parenthesized(e).len(), stack, out + postfix(e)),
    decreases e,
{
    let p = parenthesized(e);
    assert(ts[i] == p[0]);
    match e {
        Term::Binary(op, l, r) => {
            let pl = parenthesized(*l);
            let pr = parenthesized(*r);
            let j = i + 1 + pl.len();
            let k = j + 1 + pr.len();
            assert(p.len() == k - i + 1);
            assert(ts.subrange(i + 1, j) =~= pl) by {
                assert forall|x: int| 0 <= x < pl.len() implies ts.subrange(i + 1, j)[x] == pl[x] by {
                    assert(ts[i + 1 + x] == p[1 + x]);
                }
            }
            assert(ts.subrange(j + 1, k) =~= pr) by {
                assert forall|x: int| 0 <= x < pr.len() implies ts.subrange(j + 1, k)[x] == pr[x] by {
                    assert(ts[j + 1 + x] == p[j + 1 + x - i]);
                }
            }
            assert(ts[j] == p[j - i]);
            assert(ts[k] == p[k - i]);
            let s1 = stack.push('(');
            lemma_shunt_parenthesized(ts, i + 1, *l, s1, out);
            let o1 = out + postfix(*l);
            assert(flush_for(op, s1, o1) == (s1, o1));
            let s2 = s1.push(op);
            lemma_shunt_parenthesized(ts, j + 1, *r, s2, o1);
            let o2 = o1 + postfix(*r);
            assert(s2.drop_last() == s1);
            assert(s1.drop_last() == stack);
            assert(close_group(s1, o2.push(Token::Operator(op))) == (stack, o2.push(
                Token::Operator(op),
            )));
            assert(close_group(s2, o2) == (stack, o2.push(Token::Operator(op))));
            assert(o2.push(Token::Operator(op)) =~= out + postfix(e));
        },
        _ => {
            assert(out.push(ts[i]) =~= out + postfix(e));
        },
    }
}

/// A fully parenthesized expression over `+ - * / ^` is put in postfix order,
/// so the operand stack reads back exactly that expression.
pub proof fn parenthesized_reads_back<T>(e: Term<T>)
    requires
        well_formed(e),
    ensures
        evaluation_order(parenthesized(e)) == postfix(e),
        tree_of(evaluation_order(parenthesized(e))) == Some(e),
{
    let p = parenthesized(e);
    assert(p.subrange(0, p.len() as int) =~= p);
    lemma_shunt_parenthesized(p, 0, e, Seq::empty(), Seq::empty());
    assert(Seq::<Token<T>>::empty() + postfix(e) =~= postfix(e));
    tree_of_postfix(e);
}

/// `a ^ b ^ c` groups as `a ^ (b ^ c)`, while `a * b * c` groups as
/// `(a * b) * c`.
pub proof fn power_groups_to_the_right<T>(a: Term<T>, b: Term<T>, c: Term<T>)
    requires
        !(a is Binary),
        !(b is Binary),
        !(c is Binary),
    ensures
        tree_of(
            evaluation_order(
                seq![
                    Token::Operand(a),
                    Token::Operator('^'),
                    Token::Operand(b),
                    Token::Operator('^'),
                    Token::Operand(c),
                ],
            ),
        ) == Some(Term::Binary('^', Box::new(a), Box::new(Term::Binary('^', Box::new(b), Box::new(c))))),
        tree_of(
            evaluation_order(
                seq![
                    Token::Operand(a),
                    Token::Operator('*'),
                    Token::Operand(b),
                    Token::Operator('*'),
                    Token::Operand(c),
                ],
            ),
        ) == Some(Term::Binary('*', Box::new(Term::Binary('*', Box::new(a), Box::new(b))), Box::new(c))),
{
    let e1 = Term::Binary('^', Box::new(a), Box::new(Term::Binary('^', Box::new(b), Box::new(c))));
    let e2 = Term::Binary('*', Box::new(Term::Binary('*', Box::new(a), Box::new(b))), Box::new(c));
    let ta = Token::Operand(a);
    let tb = Token::Operand(b);
    let tc = Token::Operand(c);
    let e: Seq<char> = Seq::empty();
    let o: Seq<Token<T>> = Seq::empty();
    let ts1 = seq![ta, Token::Operator('^'), tb, Token::Operator('^'), tc];
    assert(shunt(ts1, 0, e, o) == shunt(ts1, 1, e, o.push(ta)));
    assert(flush_for('^', e, o.push(ta)) == (e, o.push(ta)));
    assert(shunt(ts1, 1, e, o.push(ta)) == shunt(ts1, 2, e.push('^'), o.push(ta)));
    assert(shunt(ts1, 2, e.push('^'), o.push(ta)) == shunt(ts1, 3, e.push('^'), o.push(ta).push(tb)));
    assert(flush_for('^', e.push('^'), o.push(ta).push(tb)) == (e.push('^'), o.push(ta).push(tb)));
    assert(shunt(ts1, 3, e.push('^'), o.push(ta).push(tb)) == shunt(
        ts1,
        4,
        e.push('^').push('^'),
        o.push(ta).push(tb),
    ));
    assert(shunt(ts1, 4, e.push('^').push('^'), o.push(ta).push(tb)) == shunt(
        ts1,
        5,
        e.push('^').push('^'),
        o.push(ta).push(tb).push(tc),
    ));
    assert(e.push('^').push('^').drop_last() == e.push('^'));
    assert(e.push('^').drop_last() == e);
    reveal_with_fuel(drain, 3);
    assert(postfix(a) == seq![ta]);
    assert(postfix(b) == seq![tb]);
    assert(postfix(c) == seq![tc]);
    let bc = Term::Binary('^', Box::new(b), Box::new(c));
    assert(postfix(bc) =~= seq![tb, tc, Token::Operator('^')]);
    assert(postfix(e1) =~= seq![ta, tb, tc, Token::Operator('^'), Token::Operator('^')]);
    assert(drain(e.push('^').push('^'), o.push(ta).push(tb).push(tc)) =~= postfix(e1));
    let ts2 = seq![ta, Token::Operator('*'), tb, Token::Operator('*'), tc];
    assert(shunt(ts2, 0, e, o) == shunt(ts2, 1, e, o.push(ta)));
    assert(flush_for('*', e, o.push(ta)) == (e, o.push(ta)));
    assert(shunt(ts2, 1, e, o.push(ta)) == shunt(ts2, 2, e.push('*'), o.push(ta)));
    assert(shunt(ts2, 2, e.push('*'), o.push(ta)) == shunt(ts2, 3, e.push('*'), o.push(ta).push(tb)));
    assert(e.push('*').drop_last() == e);
    assert(flush_for('*', e, o.push(ta).push(tb).push(Token::Operator('*'))) == (e, o.push(ta).push(tb).push(
        Token::Operator('*'),
    )));
    assert(flush_for('*', e.push('*'), o.push(ta).push(tb)) == (e, o.push(ta).push(tb).push(
        Token::Operator('*'),
    )));
    assert(shunt(ts2, 3, e.push('*'), o.push(ta).push(tb)) == shunt(
        ts2,
        4,
        e.push('*'),
        o.push(ta).push(tb).push(Token::Operator('*')),
    ));
    assert(shunt(ts2, 4, e.push('*'), o.push(ta).push(tb).push(Token::Operator('*'))) == shunt(
        ts2,
        5,
        e.push('*'),
        o.push(ta).push(tb).push(Token::Operator('*')).push(tc),
    ));
    let ab = Term::Binary('*', Box::new(a), Box::new(b));
    assert(postfix(ab) =~= seq![ta, tb, Token::Operator('*')]);
    assert(postfix(e2) =~= seq![ta, tb, Token::Operator('*'), tc, Token::Operator('*')]);
    assert(drain(e.push('*'), o.push(ta).push(tb).push(Token::Operator('*')).push(tc))
        =~= postfix(e2));
    assert(well_formed(a) && well_formed(b) && well_formed(c));
    assert(well_formed(bc) && well_formed(ab));
    assert(well_formed(e1) && well_formed(e2));
    tree_of_postfix(e1);
    tree_of_postfix(e2);
}

} // verus!
