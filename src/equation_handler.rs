use vstd::prelude::*;

use crate::evaluator::{evaluate_ordered, result_term, tree_of};
use crate::expr::{tokens_of, Expr, Factor, FormulaError, Term, Token};
use crate::normalizer::{
    is_number_char, is_number_or_decimal_separator, lemma_number_run_bound, normalize,
    normalize_chars, normalized, number_run,
};
use crate::notation::{evaluation_order, to_evaluation_order};
use crate::scanner::{
    closing_paren, comment_end, decimal_of, decimal_text, find_closing, function_named, is_decimal,
    is_operator, is_operator_char, lemma_closing_paren_bound, lemma_comment_end_bound,
    lemma_name_run_bound, math_function, name_end, name_run, number_end, skip_comment, slice_chars,
};
use crate::text::{chars_of, is_alpha, is_ascii_alpha, lower_of, lowercase, string_of};
use crate::variables::VariableStore;

verus! {

/// How deep function calls may nest inside one another.
pub const MAX_DEPTH: usize = 64;

/// `t` in front of the factors of `r`, if `r` holds any.
pub open spec fn prepend<T>(t: Token<T>, r: Result<Seq<Token<T>>, FormulaError>) -> Result<
    Seq<Token<T>>,
    FormulaError,
> {
    match r {
        Ok(s) => Ok(seq![t] + s),
        Err(x) => Err(x),
    }
}

/// `p` in front of the factors of `r`, if `r` holds any.
pub open spec fn join<T>(p: Seq<Token<T>>, r: Result<Seq<Token<T>>, FormulaError>) -> Result<
    Seq<Token<T>>,
    FormulaError,
> {
    match r {
        Ok(s) => Ok(p + s),
        Err(x) => Err(x),
    }
}

/// The factors of the lower-case, normalized text `u` from position `i` on.
/// A `[...]` comment is skipped; a run of digits and separators is a number
/// if it reads as one and is dropped otherwise; a name followed by `(` that
/// names a function is a call whose argument, up to the matching `)`, is
/// evaluated as a formula of its own (a call never closed ends the text, and
/// a call whose argument has no value is dropped); any other name is a
/// variable when `vars` holds it and is dropped otherwise; an operator
/// character is an operator; anything else is skipped. `depth` is how many
/// more levels of calls may be followed.
pub open spec fn tokens_from<T>(u: Seq<char>, i: int, vars: Map<Seq<char>, T>, depth: nat) -> Result<
    Seq<Token<T>>,
    FormulaError,
>
    decreases depth, 0nat, u.len() - i,
    via tokens_from_decreases::<T>
{
    if i < 0 || i >= u.len() {
        Ok(Seq::empty())
    } else {
        let c = u[i];
        if c == '[' {
            tokens_from(u, comment_end(u, i + 1), vars, depth)
        } else if is_number_char(c) {
            let end = i + number_run(u, i);
            let w = u.subrange(i, end);
            let rest = tokens_from(u, end, vars, depth);
            if is_decimal(w) {
                prepend(Token::Operand(Term::Number(decimal_text(w))), rest)
            } else {
                rest
            }
        } else if is_alpha(c) {
            let end = i + name_run(u, i);
            let name = u.subrange(i, end);
            if end < u.len() && u[end] == '(' && function_named(name) is Some {
                match closing_paren(u, end + 1, 0) {
                    None => Ok(Seq::empty()),
                    Some(m) => {
                        let rest = tokens_from(u, m + 1, vars, depth);
                        if depth == 0 {
                            Err(FormulaError::TooDeep)
                        } else {
                            match formula_value(
                                u.subrange(end + 1, m),
                                vars,
                                (depth - 1) as nat,
                            ) {
                                Ok(e) => prepend(
                                    Token::Operand(
                                        Term::Call(function_named(name)->0, Box::new(e)),
                                    ),
                                    rest,
                                ),
                                Err(FormulaError::Malformed) => rest,
                                Err(FormulaError::TooDeep) => Err(FormulaError::TooDeep),
                            }
                        }
                    },
                }
            } else {
                let rest = tokens_from(u, end, vars, depth);
                if vars.contains_key(name) {
                    prepend(Token::Operand(Term::Variable(vars[name])), rest)
                } else {
                    rest
                }
            }
        } else if is_operator_char(c) {
            prepend(Token::Operator(c), tokens_from(u, i + 1, vars, depth))
        } else {
            tokens_from(u, i + 1, vars, depth)
        }
    }
}

#[via_fn]
proof fn tokens_from_decreases<T>(u: Seq<char>, i: int, vars: Map<Seq<char>, T>, depth: nat) {
    if 0 <= i < u.len() {
        lemma_comment_end_bound(u, i + 1);
        lemma_number_run_bound(u, i);
        lemma_name_run_bound(u, i);
        let end = i + name_run(u, i);
        if end < u.len() {
            lemma_closing_paren_bound(u, end + 1, 0);
        }
    }
}

/// The expression a formula stands for: normalized, lower-cased, split into
/// factors, put in evaluation order and reduced on an operand stack.
pub open spec fn formula_value<T>(s: Seq<char>, vars: Map<Seq<char>, T>, depth: nat) -> Result<
    Term<T>,
    FormulaError,
>
    decreases depth, 1nat, 0nat,
{
    match tokens_from(lower_of(normalized(s)), 0, vars, depth) {
        Err(x) => Err(x),
        Ok(ts) => match tree_of(evaluation_order(ts)) {
            Some(e) => Ok(e),
            None => Err(FormulaError::Malformed),
        },
    }
}

/// The mapping that a list of name and value pairs sets up, names lower-cased;
/// a later pair wins.
pub open spec fn map_of_pairs<T>(ps: Seq<(String, T)>) -> Map<Seq<char>, T>
    decreases ps.len(),
{
    if ps.len() == 0 {
        Map::empty()
    } else {
        map_of_pairs(ps.drop_last()).insert(lower_of(ps.last().0@), ps.last().1)
    }
}

/// Evaluates formulas against a registry of variables whose names are
/// compared without regard to case.
pub struct EquationHandler<T> {
    variables: VariableStore<T>,
}

fn lower_chars(s: &str) -> (r: Vec<char>)
    ensures
        r@ == lower_of(s@),
{
    let l = lowercase(s);
    chars_of(l.as_str())
}

proof fn lemma_join_push<T>(p: Seq<Token<T>>, t: Token<T>, r: Result<Seq<Token<T>>, FormulaError>)
    ensures
        join(p, prepend(t, r)) == join(p.push(t), r),
{
    match r {
        Ok(s) => {
            assert(p + (seq![t] + s) =~= p.push(t) + s);
        },
        Err(_) => {},
    }
}

proof fn lemma_push_factor<T>(v: Seq<Factor<T>>, f: Factor<T>)
    ensures
        tokens_of(v.push(f)) == tokens_of(v).push(f.token()),
{
    assert(tokens_of(v.push(f)) =~= tokens_of(v).push(f.token()));
}

impl<T: Copy> EquationHandler<T> {
    /// The variables, by lower-case name.
    pub closed spec fn view(&self) -> Map<Seq<char>, T> {
        self.variables.view()
    }

    pub closed spec fn wf(&self) -> bool {
        self.variables.wf()
    }

    pub fn new() -> (r: Self)
        ensures
            r.wf(),
            r.view() == Map::<Seq<char>, T>::empty(),
    {
        EquationHandler { variables: VariableStore::new() }
    }

    /// Adds a variable unless its lower-case name is already set; tells
    /// whether it was added.
    pub fn add_variable(&mut self, name: &str, value: T) -> (r: bool)
        requires
            old(self).wf(),
        ensures
            final(self).wf(),
            r == !old(self).view().contains_key(lower_of(name@)),
            final(self).view() == if r {
                old(self).view().insert(lower_of(name@), value)
            } else {
                old(self).view()
            },
    {
        let key = lower_chars(name);
        if !self.variables.contains(&key) {
            self.variables.set(key, value);
            true
        } else {
            false
        }
    }

    pub fn variable_is_set(&self, name: &str) -> (r: bool)
        requires
            self.wf(),
        ensures
            r == self.view().contains_key(lower_of(name@)),
    {
        self.variables.contains(&lower_chars(name))
    }

    pub fn clear_variables(&mut self)
        ensures
            final(self).wf(),
            final(self).view() == Map::<Seq<char>, T>::empty(),
    {
        self.variables.clear()
    }

    /// Replaces all variables with the given pairs.
    pub fn set_variables(&mut self, variables: Vec<(String, T)>)
        ensures
            final(self).wf(),
            final(self).view() == map_of_pairs(variables@),
    {
        self.variables.clear();
        let mut i: usize = 0;
        while i < variables.len()
            invariant
                i <= variables@.len(),
                self.wf(),
                self.view() == map_of_pairs(variables@.take(i as int)),
            decreases variables.len() - i,
        {
            assert(variables@.take(i + 1).drop_last() =~= variables@.take(i as int));
            self.set_variable(variables[i].0.as_str(), variables[i].1);
            i = i + 1;
        }
        assert(variables@.take(variables@.len() as int) =~= variables@);
    }

    pub fn get_variable(&self, name: &str) -> (r: Option<T>)
        requires
            self.wf(),
        ensures
            r == (if self.view().contains_key(lower_of(name@)) {
                Some(self.view()[lower_of(name@)])
            } else {
                None
            }),
    {
        self.variables.get(&lower_chars(name))
    }

    /// Sets a variable, replacing any value under the same lower-case name.
    pub fn set_variable(&mut self, name: &str, value: T)
        requires
            old(self).wf(),
        ensures
            final(self).wf(),
            final(self).view() == old(self).view().insert(lower_of(name@), value),
    {
        self.variables.set(lower_chars(name), value)
    }

    pub fn remove_variable(&mut self, name: &str)
        requires
            old(self).wf(),
        ensures
            final(self).wf(),
            final(self).view() == old(self).view().remove(lower_of(name@)),
    {
        self.variables.remove(&lower_chars(name))
    }

    /// The expression that `formula` stands for with the current variables,
    /// ready to be evaluated; an error when it is malformed or nests function
    /// calls deeper than [`MAX_DEPTH`].
    pub fn formula_expression(&self, formula: &str) -> (r: Result<Expr<T>, FormulaError>)
        requires
            self.wf(),
        ensures
            result_term(r) == formula_value(formula@, self.view(), MAX_DEPTH as nat),
    {
        self.formula_at(&chars_of(formula), MAX_DEPTH)
    }

    /// Rewrites a formula into the form the tokenizer reads (see [`normalize`]).
    pub fn handle_string_formatting(s: &str) -> (r: String)
        ensures
            r@ == normalized(s@),
    {
        normalize(s)
    }

    /// The factors of a normalized formula, read without regard to case.
    pub fn populate_lists_streaming(&self, formula: &str) -> (r: Result<Vec<Factor<T>>, FormulaError>)
        requires
            self.wf(),
        ensures
            match r {
                Ok(v) => tokens_from(lower_of(formula@), 0, self.view(), MAX_DEPTH as nat) == Ok::<
                    Seq<Token<T>>,
                    FormulaError,
                >(tokens_of(v@)),
                Err(x) => tokens_from(lower_of(formula@), 0, self.view(), MAX_DEPTH as nat) == Err::<
                    Seq<Token<T>>,
                    FormulaError,
                >(x),
            },
    {
        let lowered = lowercase(formula);
        self.factors_of_lowercase(lowered.as_str())
    }

    /// The factors of a normalized formula that is already in lower case.
    pub fn factors_of_lowercase(&self, lowered: &str) -> (r: Result<Vec<Factor<T>>, FormulaError>)
        requires
            self.wf(),
        ensures
            match r {
                Ok(v) => tokens_from(lowered@, 0, self.view(), MAX_DEPTH as nat) == Ok::<
                    Seq<Token<T>>,
                    FormulaError,
                >(tokens_of(v@)),
                Err(x) => tokens_from(lowered@, 0, self.view(), MAX_DEPTH as nat) == Err::<
                    Seq<Token<T>>,
                    FormulaError,
                >(x),
            },
    {
        self.tokens_at(&chars_of(lowered), MAX_DEPTH)
    }

    fn formula_at(&self, s: &Vec<char>, depth: usize) -> (r: Result<Expr<T>, FormulaError>)
        requires
            self.wf(),
        ensures
            result_term(r) == formula_value(s@, self.view(), depth as nat),
        decreases depth, 1usize, 0usize,
    {
        let n = normalize_chars(s);
        let u = lower_chars(string_of(&n).as_str());
        match self.tokens_at(&u, depth) {
            Ok(factors) => evaluate_ordered(to_evaluation_order(factors)),
            Err(x) => Err(x),
        }
    }

    /// Splits lower-case, normalized text into factors.
    fn tokens_at(&self, u: &Vec<char>, depth: usize) -> (r: Result<Vec<Factor<T>>, FormulaError>)
        requires
            self.wf(),
        ensures
            match r {
                Ok(v) => tokens_from(u@, 0, self.view(), depth as nat) == Ok::<
                    Seq<Token<T>>,
                    FormulaError,
                >(tokens_of(v@)),
                Err(x) => tokens_from(u@, 0, self.view(), depth as nat) == Err::<
                    Seq<Token<T>>,
                    FormulaError,
                >(x),
            },
        decreases depth, 0usize, 0usize,
    {
        let ghost vars = self.view();
        let ghost whole = tokens_from(u@, 0, vars, depth as nat);
        let mut out: Vec<Factor<T>> = Vec::new();
        let mut i: usize = 0;
        assert(tokens_of(out@) =~= Seq::<Token<T>>::empty());
        assert(join(tokens_of(out@), whole) == whole) by {
            match whole {
                Ok(s) => {
                    assert(Seq::<Token<T>>::empty() + s =~= s);
                },
                Err(_) => {},
            }
        }
        while i < u.len()
            invariant
                self.wf(),
                vars == self.view(),
                i <= u@.len(),
                whole == tokens_from(u@, 0, vars, depth as nat),
                whole == join(tokens_of(out@), tokens_from(u@, i as int, vars, depth as nat)),
            decreases u.len() - i,
        {
            let c = u[i];
            if c == '[' {
                i = skip_comment(u, i + 1);
            } else if is_number_or_decimal_separator(c) {
                let end = number_end(u, i);
                let w = slice_chars(u, i, end);
                let (ok, text) = decimal_of(&w);
                if ok {
                    let f = Factor::Operand(Expr::Number(string_of(&text)));
                    proof {
                        lemma_join_push(
                            tokens_of(out@),
                            f.token(),
                            tokens_from(u@, end as int, vars, depth as nat),
                        );
                        lemma_push_factor(out@, f);
                    }
                    out.push(f);
                }
                i = end;
            } else if is_ascii_alpha(c) {
                let end = name_end(u, i);
                let name = slice_chars(u, i, end);
                let func = if end < u.len() && u[end] == '(' {
                    math_function(&name)
                } else {
                    None
                };
                match func {
                    Some(fun) => {
                        match find_closing(u, end + 1) {
                            None => {
                                assert(whole == Ok::<Seq<Token<T>>, FormulaError>(
                                    tokens_of(out@),
                                )) by {
                                    assert(tokens_of(out@) + Seq::<Token<T>>::empty()
                                        =~= tokens_of(out@));
                                }
                                return Ok(out);
                            },
                            Some(m) => {
                                if depth == 0 {
                                    return Err(FormulaError::TooDeep);
                                }
                                let arg = slice_chars(u, end + 1, m);
                                let sub = self.formula_at(&arg, depth - 1);
                                proof {
                                    assert(name@ == u@.subrange(i as int, end as int));
                                    assert(function_named(name@) == Some(fun));
                                    assert(closing_paren(u@, end + 1, 0) == Some(m as int));
                                    assert(result_term(sub) == formula_value(
                                        u@.subrange(end + 1, m as int),
                                        vars,
                                        (depth - 1) as nat,
                                    ));
                                }
                                match sub {
                                    Ok(e) => {
                                        let f = Factor::Operand(Expr::Call(fun, Box::new(e)));
                                        proof {
                                            lemma_join_push(
                                                tokens_of(out@),
                                                f.token(),
                                                tokens_from(u@, m + 1, vars, depth as nat),
                                            );
                                            lemma_push_factor(out@, f);
                                        }
                                        out.push(f);
                                    },
                                    Err(FormulaError::Malformed) => {},
                                    Err(FormulaError::TooDeep) => {
                                        return Err(FormulaError::TooDeep);
                                    },
                                }
                                i = m + 1;
                            },
                        }
                    },
                    None => {
                        match self.variables.get(&name) {
                            Some(v) => {
                                let f = Factor::Operand(Expr::Variable(v));
                                proof {
                                    lemma_join_push(
                                        tokens_of(out@),
                                        f.token(),
                                        tokens_from(u@, end as int, vars, depth as nat),
                                    );
                                    lemma_push_factor(out@, f);
                                }
                                out.push(f);
                            },
                            None => {},
                        }
                        i = end;
                    },
                }
            } else if is_operator(c) {
                let f = Factor::Operator(c);
                proof {
                    lemma_join_push(
                        tokens_of(out@),
                        f.token(),
                        tokens_from(u@, i + 1, vars, depth as nat),
                    );
                    lemma_push_factor(out@, f);
                }
                out.push(f);
                i = i + 1;
            } else {
                i = i + 1;
            }
        }
        assert(tokens_of(out@) + Seq::<Token<T>>::empty() =~= tokens_of(out@));
        Ok(out)
    }
}

} // verus!
