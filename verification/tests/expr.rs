use parsekit::expr::{compile, ExprTree, ParseError};

/// A variable with its value, as the callers of the compiler hold them.
struct Variable<'a> {
    name: &'a str,
    value: f64,
}

fn eval(tree: &ExprTree, variables: &[Variable<'_>]) -> f64 {
    match tree {
        ExprTree::Constant(text) => text.parse::<f64>().unwrap(),
        ExprTree::Variable { index, .. } => variables[*index].value,
        ExprTree::Add(a, b) => eval(a, variables) + eval(b, variables),
        ExprTree::Subtract(a, b) => eval(a, variables) - eval(b, variables),
        ExprTree::Multiply(a, b) => eval(a, variables) * eval(b, variables),
        ExprTree::Divide(a, b) => eval(a, variables) / eval(b, variables),
        ExprTree::Negate(a) => -eval(a, variables),
    }
}

fn evaluate(expression: &str, variables: &[Variable<'_>]) -> Result<f64, ParseError> {
    let names: Vec<&str> = variables.iter().map(|v| v.name).collect();
    compile(expression, &names).map(|tree| eval(&tree, variables))
}

fn error_position(expression: &str, variables: &[Variable<'_>]) -> usize {
    match evaluate(expression, variables) {
        Ok(_) => 0,
        Err(e) => e.position,
    }
}

#[test]
fn evaluates_arithmetic_with_precedence() {
    assert_eq!(evaluate("1 + 2 * 3", &[]), Ok(7.0));
    assert_eq!(evaluate("(1 + 2) * 3", &[]), Ok(9.0));
}

#[test]
fn evaluates_variables_and_unary_minus() {
    let variables = [Variable { name: "x", value: 4.0 }];
    assert_eq!(evaluate("-x + 10", &variables), Ok(6.0));
}

#[test]
fn reports_unknown_variable_position() {
    assert_eq!(
        evaluate("1 + missing", &[]),
        Err(ParseError { position: 5, message: "unknown variable".to_owned() })
    );
}

#[test]
fn compatibility_interprets_arithmetic_with_variables() {
    let variables = [Variable { name: "x", value: 4.0 }];
    assert_eq!(evaluate("1 + x * 2", &variables), Ok(9.0));
    assert_eq!(error_position("1 + x * 2", &variables), 0);
}

#[test]
fn compatibility_preserves_parentheses_and_unary_minus() {
    let variables = [Variable { name: "x", value: 4.0 }];
    assert_eq!(evaluate("-(x + 2) * 3", &variables), Ok(-18.0));
    assert_eq!(error_position("-(x + 2) * 3", &variables), 0);
}

#[test]
fn compatibility_reports_error_position_through_out_param() {
    assert!(compile("1 + missing", &[]).is_err());
    assert_eq!(error_position("1 + missing", &[]), 5);
}

#[test]
fn compiler_keeps_structure_and_reports_each_error() {
    let tree = compile("8 - 2 - 1 / +y", &["x", "y", "y"]).unwrap();
    assert_eq!(
        tree,
        ExprTree::Subtract(
            Box::new(ExprTree::Subtract(
                Box::new(ExprTree::Constant("8".to_string())),
                Box::new(ExprTree::Constant("2".to_string())),
            )),
            Box::new(ExprTree::Divide(
                Box::new(ExprTree::Constant("1".to_string())),
                Box::new(ExprTree::Variable { name: "y".to_string(), index: 1 }),
            )),
        )
    );
    let err = |e: &str| compile(e, &["x"]).map(|_| ()).unwrap_err();
    assert_eq!(err("1 2"), ParseError { position: 3, message: "unexpected trailing input".to_string() });
    assert_eq!(err("(1 + 2"), ParseError { position: 7, message: "expected ')'".to_string() });
    assert_eq!(err("1 + *"), ParseError { position: 5, message: "expected expression".to_string() });
    assert_eq!(err("1.2.3"), ParseError { position: 6, message: "invalid number".to_string() });
    assert_eq!(err("é + z"), ParseError { position: 1, message: "expected expression".to_string() });
    assert_eq!(err("x + é"), ParseError { position: 5, message: "expected expression".to_string() });
    assert_eq!(evaluate(".5 + 1.", &[]), Ok(1.5));
}
