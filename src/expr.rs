use vstd::prelude::*;

verus! {

/// The named functions a formula may call.
#[derive(Clone, Copy, Debug, PartialEq, Eq, Structural)]
pub enum MathFunction {
    Sqrt,
    Abs,
    Sin,
    Cos,
    Tan,
    Acos,
    Asin,
    Atan,
    Log,
    Log10,
}

/// The kind of a factor of a formula; `Empty` stands for no factor.
#[derive(Clone, Copy, Debug, PartialEq, Eq, Structural)]
pub enum FactorType {
    Number,
    Variable,
    Operator,
    Empty,
}

/// An evaluation-ready expression. A number keeps its decimal text with `.`
/// as separator; a variable holds the value it was resolved to.
#[derive(Debug)]
pub enum Expr<T> {
    Number(String),
    Variable(T),
    Call(MathFunction, Box<Expr<T>>),
    Binary(char, Box<Expr<T>>, Box<Expr<T>>),
}

/// The mathematical value of an [`Expr`].
pub enum Term<T> {
    Number(Seq<char>),
    Variable(T),
    Call(MathFunction, Box<Term<T>>),
    Binary(char, Box<Term<T>>, Box<Term<T>>),
}

/// One factor of a formula: an operand or one of `+ - * / ^ ( )`.
#[derive(Debug)]
pub enum Factor<T> {
    Operand(Expr<T>),
    Operator(char),
}

/// The mathematical value of a [`Factor`].
pub enum Token<T> {
    Operand(Term<T>),
    Operator(char),
}

/// Why a formula has no value.
#[derive(Clone, Copy, Debug, PartialEq, Eq, Structural)]
pub enum FormulaError {
    /// The operands and operators do not reduce to exactly one value.
    Malformed,
    /// Function calls are nested deeper than the evaluator follows.
    TooDeep,
}

impl<T> Expr<T> {
    pub open spec fn term(&self) -> Term<T>
        decreases self,
    {
        match self {
            Expr::Number(s) => Term::Number(s@),
            Expr::Variable(v) => Term::Variable(*v),
            Expr::Call(f, e) => Term::Call(*f, Box::new(e.term())),
            Expr::Binary(op, l, r) => Term::Binary(*op, Box::new(l.term()), Box::new(r.term())),
        }
    }
}

impl<T> Factor<T> {
    pub open spec fn token(&self) -> Token<T> {
        match self {
            Factor::Operand(e) => Token::Operand(e.term()),
            Factor::Operator(c) => Token::Operator(*c),
        }
    }

    /// The kind of this factor; the value of a function call counts as a number.
    pub fn factor_type(&self) -> (r: FactorType)
        ensures
            r == factor_type_of(self.token()),
    {
        match self {
            Factor::Operand(Expr::Variable(_)) => FactorType::Variable,
            Factor::Operand(_) => FactorType::Number,
            Factor::Operator(_) => FactorType::Operator,
        }
    }

    /// Precedence rank: 0 for parentheses, 1 for `+ -`, 2 for `* /`, 3 otherwise.
    pub fn get_operand_value(&self) -> (r: u8)
        ensures
            r == token_rank(self.token()),
    {
        match self {
            Factor::Operator(c) => operator_rank(*c),
            Factor::Operand(_) => 3,
        }
    }
}

pub open spec fn factor_type_of<T>(t: Token<T>) -> FactorType {
    match t {
        Token::Operand(Term::Variable(_)) => FactorType::Variable,
        Token::Operand(_) => FactorType::Number,
        Token::Operator(_) => FactorType::Operator,
    }
}

pub open spec fn rank(c: char) -> u8 {
    if c == '(' || c == ')' {
        0
    } else if c == '+' || c == '-' {
        1
    } else if c == '*' || c == '/' {
        2
    } else {
        3
    }
}

pub open spec fn token_rank<T>(t: Token<T>) -> u8 {
    match t {
        Token::Operator(c) => rank(c),
        Token::Operand(_) => 3,
    }
}

pub fn operator_rank(c: char) -> (r: u8)
    ensures
        r == rank(c),
{
    if c == '(' || c == ')' {
        0
    } else if c == '+' || c == '-' {
        1
    } else if c == '*' || c == '/' {
        2
    } else {
        3
    }
}

/// The factors' values, in order.
pub open spec fn tokens_of<T>(v: Seq<Factor<T>>) -> Seq<Token<T>> {
    v.map_values(|f: Factor<T>| f.token())
}

} // verus!
