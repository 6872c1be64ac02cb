use vpcalc::equation_handler::EquationHandler;
use vpcalc::expr::{Expr, FactorType, FormulaError, MathFunction};

fn value(e: &Expr<f64>) -> f64 {
    match e {
        Expr::Number(t) => t.parse::<f64>().unwrap(),
        Expr::Variable(v) => *v,
        Expr::Call(f, a) => {
            let x = value(a);
            match f {
                MathFunction::Sqrt => x.sqrt(),
                MathFunction::Abs => x.abs(),
                MathFunction::Sin => x.sin(),
                MathFunction::Cos => x.cos(),
                MathFunction::Tan => x.tan(),
                MathFunction::Acos => x.acos(),
                MathFunction::Asin => x.asin(),
                MathFunction::Atan => x.atan(),
                MathFunction::Log => x.ln(),
                MathFunction::Log10 => x.log10(),
            }
        }
        Expr::Binary(op, l, r) => {
            let (a, b) = (value(l), value(r));
            match op {
                '+' => a + b,
                '-' => a - b,
                '*' => a * b,
                '/' => a / b,
                '^' => a.powf(b),
                _ => panic!("not a binary operator: {}", op),
            }
        }
    }
}

fn calc(h: &EquationHandler<f64>, s: &str) -> Option<f64> {
    h.formula_expression(s).ok().map(|e| value(&e))
}

fn fmt(s: &str) -> String {
    EquationHandler::<f64>::handle_string_formatting(s)
}

#[test]
fn equation_handler() {
    let mut equation_handler = EquationHandler::new();
    equation_handler.add_variable("x", 1.0);
    equation_handler.add_variable("y", 1.0);
    assert_eq!(equation_handler.add_variable("x", 1.0), false);
    assert_eq!(calc(&equation_handler, "x+y"), Some(2.0));
}

fn test_list_population(s: &str, expected: usize) {
    let mut equation_handler = EquationHandler::new();
    equation_handler.add_variable("TESTI", 1.0);
    let factors = equation_handler
        .populate_lists_streaming(EquationHandler::<f64>::handle_string_formatting(s).as_str())
        .unwrap();
    assert_eq!(factors.len(), expected);
}

#[test]
fn list_population() {
    test_list_population("(TESTI*2E-005)+TESTI", 15);
    test_list_population("sin(50)", 1);
    test_list_population("sin(50*2+100/4+TESTI)", 1);
}

#[test]
fn string_formatter() {
    assert_eq!(fmt("5 +5*15"), "5+5*15");
    assert_eq!(fmt("5+5*15-50"), "5+5*15-50");
    assert_eq!(fmt("5+5* ( 15+15)"), "5+5*(15+15)");
    assert_eq!(fmt("( 5+5)  *1 5"), "(5+5)*15");
    assert_eq!(fmt("-5+5*15"), "0-5+5*15");
    assert_eq!(fmt("-5+ 5*15 *(-15 )*1 0^ -5"), "0-5+5*15*(0-15)*10^(0-5)");
    assert_eq!(fmt("-5+5*15*(-15)*10^-5^-5"), "0-5+5*15*(0-15)*10^(0-5)^(0-5)");
    assert_eq!(fmt("-5+5*15*(-15)*10^-5+5"), "0-5+5*15*(0-15)*10^(0-5)+5");
    assert_eq!(fmt("5+5*(-15)"), "5+5*(0-15)");
    assert_eq!(fmt("5+5*(-15+5)"), "5+5*(0-15+5)");
    assert_eq!(fmt("5+5^2*(-15)"), "5+5^2*(0-15)");
    assert_eq!(fmt("5+5*10^3*(-15)"), "5+5*10^3*(0-15)");
    assert_eq!(fmt("5+5*(-15)^2"), "5+5*(0-15)^2");
    assert_eq!(fmt("5/5*(-15)"), "5/5*(0-15)");
    assert_eq!(fmt("5+(5*(-15))"), "5+(5*(0-15))");
    assert_eq!(fmt("TESTI*2"), "TESTI*2");
    assert_eq!(fmt("TESTI*2E5"), "TESTI*2*10^(05)");
    assert_eq!(fmt("TESTI*2E5+TESTI"), "TESTI*2*10^(05)+TESTI");
    assert_eq!(fmt("(TESTI*2E5)+TESTI"), "(TESTI*2*10^(05))+TESTI");
    assert_eq!(fmt("(TESTI*2E+5)+TESTI"), "(TESTI*2*10^(0+5))+TESTI");
    assert_eq!(fmt("(TESTI*2E-5)+TESTI"), "(TESTI*2*10^(0-5))+TESTI");
    assert_eq!(fmt("(TESTI*2E-005)+TESTI"), "(TESTI*2*10^(0-005))+TESTI");
    assert_eq!(fmt("TESTI*(2E5+TESTI)"), "TESTI*(2*10^(05)+TESTI)");
    assert_eq!(fmt("TESTI*(2E+5+TESTI)"), "TESTI*(2*10^(0+5)+TESTI)");
    assert_eq!(fmt("TESTI*(2E-5+TESTI)"), "TESTI*(2*10^(0-5)+TESTI)");
    assert_eq!(fmt("TESTI*(2E-005+TESTI)"), "TESTI*(2*10^(0-005)+TESTI)");
    assert_eq!(fmt("3,49199E-06"), "3,49199*10^(0-06)");
}

#[test]
fn equations() {
    let mut equation_handler = EquationHandler::new();
    equation_handler.add_variable("TESTI", 10.0);
    let h = &equation_handler;
    assert_eq!(calc(h, "5 +5*15"), Some(80.0));
    assert_eq!(calc(h, "5+5*15-50"), Some(30.0));
    assert_eq!(calc(h, "5+5* ( 15+15)"), Some(155.0));
    assert_eq!(calc(h, "( 5+5)  *1 5"), Some(150.0));
    assert_eq!(calc(h, "-5+5*15"), Some(70.0));
    assert_eq!(calc(h, "-5+ 5*15 *(-15 )*1 0^ -5"), Some(-5.01125));
    assert!((calc(h, "-5+5*15*(-15)*10^-5^-5").unwrap().abs() - 1129.1713746) < 0.0001);
    assert!((calc(h, "-5+5*15*(-15)*10^-5+5").unwrap().abs() - 0.01125) < 0.01);
    assert!((calc(h, "5+5*(-15)").unwrap().abs() - 70.0) < 0.1);
    assert!((calc(h, "5+5*(-15+5)").unwrap().abs() - 45.0) < 0.1);
    assert!((calc(h, "5+5^2*(-15)").unwrap().abs() - 370.0) < 0.1);
    assert!((calc(h, "5+5*10^3*(-15)").unwrap().abs() - 74995.0) < 0.1);
    assert!((calc(h, "5+5*(-15)^2").unwrap().abs() - 1130.0) < 0.1);
    assert!((calc(h, "5/5*(-15)").unwrap().abs() - 15.0) < 0.1);
    assert!((calc(h, "5+(5*(-15))").unwrap().abs() - 70.0) < 0.1);
    assert!((calc(h, "TESTI*2").unwrap().abs() - 20.0) < 0.1);
    assert!((calc(h, "TESTI*2E5").unwrap().abs() - 2000000.0) < 0.1);
    assert!((calc(h, "TESTI*2E5+TESTI").unwrap().abs() - 2000010.0) < 0.1);
    assert!((calc(h, "(TESTI*2E5)+TESTI").unwrap().abs() - 2000010.0) < 0.1);
    assert!((calc(h, "(TESTI*2E+5)+TESTI").unwrap().abs() - 2000010.0) < 0.1);
    assert!((calc(h, "(TESTI*2E-5)+TESTI").unwrap().abs() - 10.0002) < 0.0001);
    assert!((calc(h, "(TESTI*2E-005)+TESTI").unwrap().abs() - 10.0002) < 0.0001);
    assert!((calc(h, "TESTI*(2E5+TESTI)").unwrap().abs() - 2000100.0) < 0.1);
    assert!((calc(h, "TESTI*(2E+5+TESTI)").unwrap().abs() - 2000100.0) < 0.1);
    assert!((calc(h, "TESTI*(2E-5+TESTI)").unwrap().abs() - 100.0002) < 0.00001);
    assert!((calc(h, "TESTI*(2E-005+TESTI)").unwrap().abs() - 100.0002) < 0.00001);
    assert!((calc(h, "3,49199E-06").unwrap().abs() - 0.00000349199) < 0.00001);
}

#[test]
fn normalize_leaves_plain_formula() {
    assert_eq!(fmt("5 + x * (3 - 2) ^ 2"), "5+x*(3-2)^2");
    assert_eq!(fmt("a/b"), "a/b");
}

#[test]
fn normalize_leading_minus() {
    assert_eq!(fmt("-5+5*15"), "0-5+5*15");
    assert_eq!(fmt("  -5"), "0-5");
}

#[test]
fn normalize_group_minus() {
    assert_eq!(fmt("5+5*(-15)"), "5+5*(0-15)");
}

#[test]
fn normalize_exponent() {
    assert_eq!(fmt("TESTI*2E5"), "TESTI*2*10^(05)");
    assert_eq!(fmt("3,49199E-06"), "3,49199*10^(0-06)");
    assert_eq!(fmt("2e"), "2e");
    assert_eq!(fmt("xe5"), "xe5");
}

#[test]
fn normalize_closes_one_fewer_group() {
    assert_eq!(fmt("(-1*(-2"), "(0-1*(0-2)");
    assert_eq!(fmt("(-1"), "(0-1");
    assert_eq!(fmt("^-5"), "^(0-5)");
}

#[test]
fn evaluate_sum_and_product() {
    let h: EquationHandler<f64> = EquationHandler::new();
    assert_eq!(calc(&h, "5+5*15"), Some(80.0));
}

#[test]
fn evaluate_with_variable() {
    let mut h = EquationHandler::new();
    h.add_variable("TESTI", 10.0);
    assert_eq!(calc(&h, "TESTI*2"), Some(20.0));
    assert_eq!(calc(&h, "testi*2"), Some(20.0));
}

#[test]
fn power_is_right_associative() {
    let h: EquationHandler<f64> = EquationHandler::new();
    let e = h.formula_expression("2^3^2").unwrap();
    match &e {
        Expr::Binary('^', l, r) => {
            assert!(matches!(&**l, Expr::Number(t) if t == "2"));
            assert!(matches!(&**r, Expr::Binary('^', _, _)));
        }
        _ => panic!("expected a power"),
    }
    assert_eq!(value(&e), 512.0);
    let five = calc(&h, "5^5^5").unwrap();
    assert_eq!(five, 5f64.powf(5f64.powf(5.0)));
    assert_ne!(five, 5f64.powf(5.0).powf(5.0));
}

#[test]
fn function_call_is_evaluated() {
    let h: EquationHandler<f64> = EquationHandler::new();
    let e = h.formula_expression("sin(50)").unwrap();
    match &e {
        Expr::Call(MathFunction::Sin, a) => {
            assert!(matches!(&**a, Expr::Number(t) if t == "50"));
        }
        _ => panic!("expected a call"),
    }
    assert_eq!(value(&e), 50f64.sin());
    assert_eq!(calc(&h, "SQRT(16)+log10(100)"), Some(6.0));
    assert_eq!(calc(&h, "abs(-3)"), Some(3.0));
}

#[test]
fn add_variable_ignores_case() {
    let mut h = EquationHandler::new();
    assert!(h.add_variable("X", 1.0));
    assert!(!h.add_variable("x", 2.0));
    assert_eq!(h.get_variable("x"), Some(1.0));
    assert_eq!(h.get_variable("X"), Some(1.0));
}

#[test]
fn variable_registry_operations() {
    let mut h = EquationHandler::new();
    h.set_variable("Alpha", 3.0);
    assert!(h.variable_is_set("alpha"));
    h.set_variable("ALPHA", 4.0);
    assert_eq!(h.get_variable("alpha"), Some(4.0));
    h.remove_variable("alpha");
    assert!(!h.variable_is_set("alpha"));
    assert_eq!(h.get_variable("alpha"), None);
    h.set_variables(vec![("A".to_string(), 1.0), ("b".to_string(), 2.0), ("a".to_string(), 5.0)]);
    assert_eq!(h.get_variable("a"), Some(5.0));
    assert_eq!(h.get_variable("b"), Some(2.0));
    assert_eq!(calc(&h, "a+b"), Some(7.0));
    h.clear_variables();
    assert!(!h.variable_is_set("a"));
    assert_eq!(calc(&h, "a+b"), None);
}

#[test]
fn malformed_formulas_have_no_value() {
    let h: EquationHandler<f64> = EquationHandler::new();
    assert_eq!(h.formula_expression("+").err(), Some(FormulaError::Malformed));
    assert_eq!(h.formula_expression("5+").err(), Some(FormulaError::Malformed));
    assert_eq!(h.formula_expression("5(5)").err(), Some(FormulaError::Malformed));
    assert_eq!(h.formula_expression("").err(), Some(FormulaError::Malformed));
    assert_eq!(h.formula_expression("(5").err(), Some(FormulaError::Malformed));
}

#[test]
fn single_number_is_its_own_value() {
    let h: EquationHandler<f64> = EquationHandler::new();
    assert_eq!(calc(&h, "15"), Some(15.0));
    assert_eq!(calc(&h, "(15)"), Some(15.0));
}

#[test]
fn comments_and_unknown_names_are_skipped() {
    let h: EquationHandler<f64> = EquationHandler::new();
    assert_eq!(calc(&h, "10[kN]*5[m]"), Some(50.0));
    assert_eq!(calc(&h, "10*5[m"), Some(50.0));
    assert_eq!(calc(&h, "unknown+2"), None);
    assert_eq!(calc(&h, "1.2.3+2"), None);
    assert_eq!(calc(&h, "2+3!"), Some(5.0));
}

#[test]
fn unreadable_call_argument_drops_the_call() {
    let h: EquationHandler<f64> = EquationHandler::new();
    let factors = h.populate_lists_streaming("sin(+)+2").unwrap();
    assert_eq!(factors.len(), 2);
    assert_eq!(factors[0].factor_type(), FactorType::Operator);
    assert_eq!(factors[1].factor_type(), FactorType::Number);
    assert_eq!(calc(&h, "sqrt(9"), None);
}

#[test]
fn deep_nesting_is_refused() {
    let h: EquationHandler<f64> = EquationHandler::new();
    let mut s = String::new();
    for _ in 0..100 {
        s.push_str("abs(");
    }
    s.push('1');
    for _ in 0..100 {
        s.push(')');
    }
    assert_eq!(h.formula_expression(&s).err(), Some(FormulaError::TooDeep));
    assert_eq!(calc(&h, "abs(abs(abs(-2)))"), Some(2.0));
}

#[test]
fn factor_kinds_and_ranks() {
    let mut h = EquationHandler::new();
    h.add_variable("v", 2.0);
    let factors = h.populate_lists_streaming("v*(3+1)^2").unwrap();
    let kinds: Vec<FactorType> = factors.iter().map(|f| f.factor_type()).collect();
    assert_eq!(kinds[0], FactorType::Variable);
    assert_eq!(kinds[1], FactorType::Operator);
    assert_eq!(kinds[3], FactorType::Number);
    let ranks: Vec<u8> = factors.iter().map(|f| f.get_operand_value()).collect();
    assert_eq!(ranks, vec![3, 2, 0, 3, 1, 3, 0, 3, 3]);
}

#[test]
fn factors_of_lowercase_text() {
    let mut h = EquationHandler::new();
    h.add_variable("Rate", 4.0);
    let factors = h.factors_of_lowercase("rate*2").unwrap();
    assert_eq!(factors.len(), 3);
    assert_eq!(factors[0].factor_type(), FactorType::Variable);
    let upper = h.factors_of_lowercase("RATE*2").unwrap();
    assert_eq!(upper.len(), 2);
    let lowered = h.populate_lists_streaming("RATE*2").unwrap();
    assert_eq!(lowered.len(), 3);
}

struct Reference<'a> {
    s: &'a [u8],
    i: usize,
}

impl<'a> Reference<'a> {
    fn expr(&mut self) -> f64 {
        let mut v = self.term();
        while self.i < self.s.len() && (self.s[self.i] == b'+' || self.s[self.i] == b'-') {
            let op = self.s[self.i];
            self.i += 1;
            let r = self.term();
            v = if op == b'+' { v + r } else { v - r };
        }
        v
    }

    fn term(&mut self) -> f64 {
        let mut v = self.factor();
        while self.i < self.s.len() && (self.s[self.i] == b'*' || self.s[self.i] == b'/') {
            let op = self.s[self.i];
            self.i += 1;
            let r = self.factor();
            v = if op == b'*' { v * r } else { v / r };
        }
        v
    }

    fn factor(&mut self) -> f64 {
        let base = self.primary();
        if self.i < self.s.len() && self.s[self.i] == b'^' {
            self.i += 1;
            let e = self.factor();
            return base.powf(e);
        }
        base
    }

    fn primary(&mut self) -> f64 {
        if self.s[self.i] == b'(' {
            self.i += 1;
            let v = self.expr();
            self.i += 1;
            return v;
        }
        let start = self.i;
        while self.i < self.s.len() && (self.s[self.i].is_ascii_digit() || self.s[self.i] == b'.') {
            self.i += 1;
        }
        std::str::from_utf8(&self.s[start..self.i]).unwrap().parse().unwrap()
    }
}

fn reference(s: &str) -> f64 {
    Reference { s: s.as_bytes(), i: 0 }.expr()
}

#[test]
fn matches_reference_evaluation() {
    let h: EquationHandler<f64> = EquationHandler::new();
    let cases = [
        "1+2*3",
        "(1+2)*3",
        "2^3^2",
        "8/4/2",
        "10-4-3",
        "2*(3+4)^2/7",
        "1.5*4-0.5",
        "((2))",
        "7-(2-1)",
        "2^(0-1)",
        "3-2^2*5+(6/3-1)^3",
        "0.1+0.2*(0.3-0.4)/0.5",
    ];
    for case in cases {
        let expected = reference(case);
        let got = calc(&h, case).unwrap();
        assert!(
            (got - expected).abs() <= 1e-9 * expected.abs().max(1.0),
            "{}: {} against {}",
            case,
            got,
            expected
        );
    }
}
