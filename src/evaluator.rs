use vstd::prelude::*;

use crate::expr::{tokens_of, Expr, Factor, FormulaError, Term, Token};

verus! {

/// One of the binary operators `+ - * / ^`.
pub open spec fn is_binary_operator(c: char) -> bool {
    c == '+' || c == '-' || c == '*' || c == '/' || c == '^'
}

/// An expression whose every inner node applies a binary operator.
pub open spec fn well_formed<T>(e: Term<T>) -> bool
    decreases e,
{
    match e {
        Term::Binary(op, l, r) => is_binary_operator(op) && well_formed(*l) && well_formed(*r),
        _ => true,
    }
}

/// The factors of an expression in postfix order: both operands, then the operator.
pub open spec fn postfix<T>(e: Term<T>) -> Seq<Token<T>>
    decreases e,
{
    match e {
        Term::Binary(op, l, r) => postfix(*l) + postfix(*r) + seq![Token::Operator(op)],
        _ => seq![Token::Operand(e)],
    }
}

/// One step of the operand-stack machine: an operand is pushed; a binary
/// operator takes the two top entries, the later one as its right operand.
pub open spec fn step<T>(t: Token<T>, stack: Seq<Term<T>>) -> Option<Seq<Term<T>>> {
    match t {
        Token::Operand(e) => if e is Binary {
            None
        } else {
            Some(stack.push(e))
        },
        Token::Operator(c) => if is_binary_operator(c) && stack.len() >= 2 {
            let n = stack.len();
            Some(
                stack.subrange(0, n - 2).push(
                    Term::Binary(c, Box::new(stack[n - 2]), Box::new(stack[n - 1])),
                ),
            )
        } else {
            None
        },
    }
}

/// The operand stack after the whole of `q`, if no step fails.
pub open spec fn run_stack<T>(q: Seq<Token<T>>, stack: Seq<Term<T>>) -> Option<Seq<Term<T>>>
    decreases q.len(),
{
    if q.len() == 0 {
        Some(stack)
    } else {
        match step(q[0], stack) {
            Some(s) => run_stack(q.drop_first(), s),
            None => None,
        }
    }
}

/// The expression that a postfix sequence reduces to: the stack machine must
/// end with exactly one entry.
pub open spec fn tree_of<T>(q: Seq<Token<T>>) -> Option<Term<T>> {
    match run_stack(q, Seq::empty()) {
        Some(s) => if s.len() == 1 {
            Some(s[0])
        } else {
            None
        },
        None => None,
    }
}

/// The postfix factors of every stack entry, bottom first.
pub open spec fn flatten<T>(s: Seq<Term<T>>) -> Seq<Token<T>>
    decreases s.len(),
{
    if s.len() == 0 {
        Seq::empty()
    } else {
        flatten(s.drop_last()) + postfix(s.last())
    }
}

proof fn lemma_run_concat<T>(a: Seq<Token<T>>, b: Seq<Token<T>>, s: Seq<Term<T>>)
    ensures
        run_stack(a + b, s) == match run_stack(a, s) {
            Some(s2) => run_stack(b, s2),
            None => None,
        },
    decreases a.len(),
{
    if a.len() == 0 {
        assert(a + b =~= b);
    } else {
        assert((a + b).drop_first() =~= a.drop_first() + b);
        assert((a + b)[0] == a[0]);
        match step(a[0], s) {
            Some(s2) => lemma_run_concat(a.drop_first(), b, s2),
            None => {},
        }
    }
}

proof fn lemma_run_postfix<T>(e: Term<T>, s: Seq<Term<T>>)
    requires
        well_formed(e),
    ensures
        run_stack(postfix(e), s) == Some(s.push(e)),
    decreases e,
{
    match e {
        Term::Binary(op, l, r) => {
            let tail = seq![Token::<T>::Operator(op)];
            assert(postfix(e) =~= postfix(*l) + (postfix(*r) + tail));
            lemma_run_postfix(*l, s);
            lemma_run_concat(postfix(*l), postfix(*r) + tail, s);
            lemma_run_postfix(*r, s.push(*l));
            lemma_run_concat(postfix(*r), tail, s.push(*l));
            let s2 = s.push(*l).push(*r);
            assert(s2.subrange(0, s2.len() - 2) =~= s);
            assert(s2[s2.len() - 2] == *l);
            assert(s2[s2.len() - 1] == *r);
            assert(tail.drop_first() =~= Seq::<Token<T>>::empty());
            assert(step(tail[0], s2) == Some(s.push(e)));
            assert(run_stack(tail.drop_first(), s.push(e)) == Some(s.push(e)));
            assert(run_stack(tail, s2) == Some(s.push(e)));
            assert(run_stack(postfix(*r) + tail, s.push(*l)) == run_stack(tail, s2));
            assert(run_stack(postfix(*l) + (postfix(*r) + tail), s) == run_stack(
                postfix(*r) + tail,
                s.push(*l),
            ));
        },
        _ => {
            assert(postfix(e).drop_first() =~= Seq::<Token<T>>::empty());
            assert(step(postfix(e)[0], s) == Some(s.push(e)));
            assert(run_stack(postfix(e).drop_first(), s.push(e)) == Some(s.push(e)));
        },
    }
}

proof fn lemma_run_flattens<T>(q: Seq<Token<T>>, s: Seq<Term<T>>)
    requires
        forall|k: int| 0 <= k < s.len() ==> well_formed(#[trigger] s[k]),
        run_stack(q, s) is Some,
    ensures
        flatten(run_stack(q, s)->0) == flatten(s) + q,
        forall|k: int|
            0 <= k < run_stack(q, s)->0.len() ==> well_formed(#[trigger] run_stack(q, s)->0[k]),
    decreases q.len(),
{
    if q.len() == 0 {
        assert(flatten(s) + q =~= flatten(s));
    } else {
        let s2 = step(q[0], s)->0;
        match q[0] {
            Token::Operand(e) => {
                assert(s2.drop_last() =~= s);
                assert(flatten(s2) == flatten(s) + seq![q[0]]);
            },
            Token::Operator(c) => {
                let n = s.len();
                let base = s.subrange(0, n - 2);
                assert(s2.drop_last() =~= base);
                assert(s.drop_last().drop_last() =~= base);
                assert(s.drop_last().last() == s[n - 2]);
                assert(flatten(s) == flatten(s.drop_last()) + postfix(s.last()));
                assert(flatten(s.drop_last()) == flatten(base) + postfix(s[n - 2]));
                assert(flatten(s2) == flatten(base) + postfix(s2.last()));
                assert(flatten(s2) =~= flatten(s) + seq![q[0]]);
                assert forall|k: int| 0 <= k < s2.len() implies well_formed(#[trigger] s2[k]) by {
                    if k < n - 2 {
                        assert(s2[k] == s[k]);
                    }
                }
            },
        }
        lemma_run_flattens(q.drop_first(), s2);
        assert(seq![q[0]] + q.drop_first() =~= q);
        assert(flatten(s) + seq![q[0]] + q.drop_first() =~= flatten(s) + q);
    }
}

/// The stack machine reads back every well-formed expression from its postfix form.
pub proof fn tree_of_postfix<T>(e: Term<T>)
    requires
        well_formed(e),
    ensures
        tree_of(postfix(e)) == Some(e),
{
    lemma_run_postfix(e, Seq::empty());
}

/// What the stack machine reduces a sequence to is a well-formed expression
/// whose postfix form is that sequence.
pub proof fn postfix_of_tree<T>(q: Seq<Token<T>>)
    requires
        tree_of(q) is Some,
    ensures
        postfix(tree_of(q)->0) == q,
        well_formed(tree_of(q)->0),
{
    lemma_run_flattens(q, Seq::empty());
    let s = run_stack(q, Seq::empty())->0;
    assert(s.drop_last() =~= Seq::<Term<T>>::empty());
    assert(flatten(Seq::<Term<T>>::empty()) + q =~= q);
    assert(flatten(s) =~= postfix(s[0]));
}

/// The expression value of a result.
pub open spec fn result_term<T>(r: Result<Expr<T>, FormulaError>) -> Result<Term<T>, FormulaError> {
    match r {
        Ok(e) => Ok(e.term()),
        Err(x) => Err(x),
    }
}

proof fn lemma_terms_push<T>(s: Seq<Expr<T>>, e: Expr<T>)
    ensures
        s.push(e).map_values(|x: Expr<T>| x.term()) == s.map_values(|x: Expr<T>| x.term()).push(
            e.term(),
        ),
{
    assert(s.push(e).map_values(|x: Expr<T>| x.term()) =~= s.map_values(|x: Expr<T>| x.term()).push(
        e.term(),
    ));
}

/// Reduces factors in evaluation order to one expression with an operand
/// stack. Fails when an operator finds fewer than two operands, when a
/// parenthesis is left over, or when the stack does not end with exactly one
/// entry.
pub fn evaluate_ordered<T>(queue: Vec<Factor<T>>) -> (r: Result<Expr<T>, FormulaError>)
    ensures
        result_term(r) == match tree_of(tokens_of(queue@)) {
            Some(e) => Ok(e),
            None => Err(FormulaError::Malformed),
        },
{
    let ghost qv = queue@;
    let ghost q = tokens_of(queue@);
    let mut stack: Vec<Expr<T>> = Vec::new();
    assert(stack@.map_values(|x: Expr<T>| x.term()) =~= Seq::<Term<T>>::empty());
    assert(q.skip(0) =~= q);
    for f in iter: queue
        invariant
            iter.seq() == qv,
            q == tokens_of(qv),
            0 <= iter.index() <= q.len(),
            run_stack(q, Seq::empty()) == run_stack(
                q.skip(iter.index()),
                stack@.map_values(|x: Expr<T>| x.term()),
            ),
    {
        let ghost i = iter.index();
        let ghost terms = stack@.map_values(|x: Expr<T>| x.term());
        assert(q.skip(i)[0] == f.token());
        assert(q.skip(i).drop_first() =~= q.skip(i + 1));
        match f {
            Factor::Operand(e) => {
                if let Expr::Binary(_, _, _) = e {
                    return Err(FormulaError::Malformed);
                }
                proof {
                    lemma_terms_push(stack@, e);
                }
                stack.push(e);
            },
            Factor::Operator(c) => {
                if !(c == '+' || c == '-' || c == '*' || c == '/' || c == '^') || stack.len() < 2 {
                    return Err(FormulaError::Malformed);
                }
                let ghost n = stack@.len();
                let ghost before = stack@;
                let right = stack.pop().unwrap();
                let left = stack.pop().unwrap();
                proof {
                    assert(stack@ =~= before.subrange(0, n - 2));
                    assert(stack@.map_values(|x: Expr<T>| x.term()) =~= terms.subrange(0, n - 2));
                    assert(left.term() == terms[n - 2]);
                    assert(right.term() == terms[n - 1]);
                }
                let node = Expr::Binary(c, Box::new(left), Box::new(right));
                proof {
                    lemma_terms_push(stack@, node);
                }
                stack.push(node);
            },
        }
    }
    if stack.len() == 1 {
        Ok(stack.pop().unwrap())
    } else {
        Err(FormulaError::Malformed)
    }
}

} // verus!

verus! {

/// An operator with no operands reduces to nothing.
pub proof fn lone_operator_has_no_value<T>(c: char)
    ensures
        tree_of(seq![Token::<T>::Operator(c)]) is None,
{
    let q = seq![Token::<T>::Operator(c)];
    assert(step(q[0], Seq::<Term<T>>::empty()) is None);
}

} // verus!
