use topdown::formula::{
    apply_binop, evaluate, parse, tokenize, Arithmetic, BinaryOp, ExprOf, FormulaError, TokenOf,
};
use topdown::name_map::NameMap;

fn evaluate_floats(expr: &str, vars: &NameMap<f64>) -> Result<f64, FormulaError> {
    let arithmetic = Arithmetic {
        literal: |text: &str| text.parse::<f64>().unwrap(),
        negate: |v: f64| -v,
        binary: |op: BinaryOp, a: f64, b: f64| match op {
            BinaryOp::Add => a + b,
            BinaryOp::Subtract => a - b,
            BinaryOp::Multiply => a * b,
            _ => a / b,
        },
        is_zero: |v: f64| v == 0.0,
        to_integer: |v: f64| v as i64,
        from_integer: |n: i64| n as f64,
        undefined: f64::NAN,
    };
    evaluate(expr, vars, &arithmetic)
}

fn eval(expr: &str) -> f64 {
    evaluate_floats(expr, &NameMap::new()).unwrap()
}

fn eval_vars(expr: &str, vars: &[(&str, f64)]) -> f64 {
    let mut map = NameMap::new();
    for (name, value) in vars {
        map.insert(name.to_string(), *value);
    }
    evaluate_floats(expr, &map).unwrap()
}

fn fault(expr: &str) -> String {
    evaluate_floats(expr, &NameMap::new()).unwrap_err().message()
}

#[test]
fn test_basic_arithmetic() {
    assert!((eval("2 + 3") - 5.0).abs() < 1e-9);
    assert!((eval("10 - 4") - 6.0).abs() < 1e-9);
    assert!((eval("3 * 4") - 12.0).abs() < 1e-9);
    assert!((eval("10 / 4") - 2.5).abs() < 1e-9);
}

#[test]
fn test_precedence() {
    assert!((eval("2 + 3 * 4") - 14.0).abs() < 1e-9);
    assert!((eval("(2 + 3) * 4") - 20.0).abs() < 1e-9);
}

#[test]
fn test_unary_minus() {
    assert!((eval("-5") - (-5.0)).abs() < 1e-9);
    assert!((eval("-(2 + 3)") - (-5.0)).abs() < 1e-9);
}

#[test]
fn test_shift() {
    assert!((eval("1 << 3") - 8.0).abs() < 1e-9);
    assert!((eval("16 >> 2") - 4.0).abs() < 1e-9);
}

#[test]
fn test_division_by_zero() {
    assert!(eval("1 / 0").is_nan());
}

#[test]
fn test_variables() {
    let result = eval_vars(
        "(STALL_SLOT_BACKEND - 5 * IMP_WFX_CLOCK_CYCLES) / (5 * (CPU_CYCLES - IMP_WFX_CLOCK_CYCLES)) * 100",
        &[
            ("STALL_SLOT_BACKEND", 500.0),
            ("IMP_WFX_CLOCK_CYCLES", 10.0),
            ("CPU_CYCLES", 1000.0),
        ],
    );
    // (500 - 50) / (5 * 990) * 100 = 450/4950*100 = 9.0909...
    assert!((result - 9.090909090909092).abs() < 1e-6);
}

#[test]
fn test_undefined_variable() {
    let result = evaluate_floats("X + 1", &NameMap::new());
    assert!(result.is_err());
}

#[test]
fn instructions_by_cycles_is_fifty_percent() {
    let result = eval_vars(
        "INST_RETIRED / CPU_CYCLES * 100",
        &[("CPU_CYCLES", 1000.0), ("INST_RETIRED", 500.0)],
    );
    assert!((result - 50.0).abs() < 1e-9);
}

#[test]
fn operators_of_one_level_group_from_the_left() {
    assert_eq!(eval("10 - 4 - 3"), 3.0);
    assert_eq!(eval("16 / 4 / 2"), 2.0);
    assert_eq!(eval("1 << 2 << 3"), 32.0);
    assert_eq!(eval("1 + 1 << 2"), 8.0);
    assert_eq!(eval("1 << 2 + 1"), 8.0);
}

#[test]
fn minus_binds_tightest() {
    assert_eq!(eval("-2 * 3"), -6.0);
    assert_eq!(eval("2 * -3"), -6.0);
    assert_eq!(eval("--4"), 4.0);
    assert_eq!(eval("2 - -3"), 5.0);
}

#[test]
fn shifts_use_integer_parts_and_count_modulo_the_width() {
    assert_eq!(eval("3.9 << 1.9"), 6.0);
    assert_eq!(eval("1 << 64"), 1.0);
    assert_eq!(eval("1 << 65"), 2.0);
    assert_eq!(eval("-8 >> 1"), -4.0);
}

#[test]
fn numbers_have_points_and_exponents() {
    assert_eq!(eval("1.5"), 1.5);
    assert_eq!(eval(".5"), 0.5);
    assert_eq!(eval("5."), 5.0);
    assert_eq!(eval("2e3"), 2000.0);
    assert_eq!(eval("2E3"), 2000.0);
}

#[test]
fn blanks_do_not_matter() {
    assert_eq!(eval(" 1\t+\n2\r"), 3.0);
}

#[test]
fn what_follows_the_expression_is_not_looked_at() {
    assert_eq!(eval("1 + 2 3"), 3.0);
    assert_eq!(eval("1 )"), 1.0);
}

#[test]
fn undefined_stays_undefined() {
    assert!(eval("1 / 0 + 5").is_nan());
    assert!(eval("0 / 0 * 0").is_nan());
    assert_eq!(eval("0 / 5"), 0.0);
}

#[test]
fn faults_are_named() {
    assert_eq!(fault("1 ? 2"), "unexpected character: '?'");
    assert_eq!(fault("1 < 2"), "unexpected character: '<'");
    assert_eq!(fault("1 > 2"), "unexpected character: '>'");
    assert_eq!(fault(""), "unexpected end of expression");
    assert_eq!(fault("1 +"), "unexpected end of expression");
    assert_eq!(fault("X"), "undefined variable: 'X'");
    assert_eq!(fault("* 2"), "unexpected token: Star");
    assert_eq!(fault("+ 2"), "unexpected token: Plus");
    assert_eq!(fault("/ 2"), "unexpected token: Slash");
    assert_eq!(fault("<< 2"), "unexpected token: LShift");
    assert_eq!(fault(">> 2"), "unexpected token: RShift");
    assert_eq!(fault(")"), "unexpected token: RParen");
    assert_eq!(fault("(1"), "unexpected token: expected ')'");
    assert_eq!(fault("1.2.3"), "unexpected token: 1.2.3");
    assert_eq!(fault("1e"), "unexpected token: 1e");
    assert_eq!(fault("."), "unexpected token: .");
}

#[test]
fn a_bad_character_is_found_before_a_bad_variable() {
    assert_eq!(fault("X + #"), "unexpected character: '#'");
}

#[test]
fn tokens_are_cut_at_the_longest_match() {
    let tokens = tokenize("a1_b<<2e1").unwrap();
    assert_eq!(tokens.len(), 3);
    assert!(matches!(&tokens[0], TokenOf::Ident(name) if name == "a1_b"));
    assert!(matches!(&tokens[1], TokenOf::LShift));
    assert!(matches!(&tokens[2], TokenOf::Number(text) if text == "2e1"));
}

#[test]
fn a_bracketed_expression_is_read_back() {
    let mut vars = NameMap::new();
    vars.insert("X".to_string(), 0u8);
    let tree = parse("(X) - (-(2))", &vars).unwrap();
    match tree {
        ExprOf::Binary(BinaryOp::Subtract, lhs, rhs) => {
            assert!(matches!(*lhs, ExprOf::Variable(name) if name == "X"));
            match *rhs {
                ExprOf::Negate(inner) => {
                    assert!(matches!(*inner, ExprOf::Number(text) if text == "2"))
                }
                _ => panic!("not a negation"),
            }
        }
        _ => panic!("not a difference"),
    }
}

#[test]
fn other_number_types_can_be_used() {
    let arithmetic = Arithmetic {
        literal: |text: &str| text.parse::<i64>().unwrap_or(0),
        negate: |v: i64| v.wrapping_neg(),
        binary: |op: BinaryOp, a: i64, b: i64| match op {
            BinaryOp::Add => a.wrapping_add(b),
            BinaryOp::Subtract => a.wrapping_sub(b),
            BinaryOp::Multiply => a.wrapping_mul(b),
            _ => a.wrapping_div(b),
        },
        is_zero: |v: i64| v == 0,
        to_integer: |v: i64| v,
        from_integer: |n: i64| n,
        undefined: i64::MIN,
    };
    assert_eq!(apply_binop(&arithmetic, BinaryOp::Divide, 7, 2), 3);
    assert_eq!(apply_binop(&arithmetic, BinaryOp::Divide, 7, 0), i64::MIN);
    assert_eq!(evaluate("7 * (2 - 9)", &NameMap::new(), &arithmetic).unwrap(), -49);
}
