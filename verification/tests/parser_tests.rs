use opendefalgsplitting::first_order::models::Model;
use opendefalgsplitting::parser::{
    c_input, parse_defop, parse_defrel, parse_model_lines, parse_tuple, parse_universe, preprocess_targets,
    ParseError,
};

fn lines(text: &str) -> Vec<String> {
    text.lines().map(|l| l.to_string()).collect()
}

fn parse(text: &str) -> Result<Model, ParseError> {
    parse_model_lines(&lines(text), Some("m.model".to_string()))
}

fn fail(text: &str) -> ParseError {
    match parse(text) {
        Ok(_) => panic!("expected a parse error"),
        Err(e) => e,
    }
}

fn message(e: ParseError) -> (usize, String) {
    match e {
        ParseError::Parse { line, message, .. } => (line, message),
    }
}

#[test]
fn parse_empty_target_relation() {
    let m = parse("0 1\n\nT_empty 0 2\n").expect("parse empty target");
    let m = preprocess_targets(m);
    let r = m.relations.iter().find(|r| r.sym == "T_empty").expect("T_empty");
    assert!(r.r.is_empty());
    assert_eq!(r.arity, 2);
}

#[test]
fn parse_formula_defined_target() {
    let m = parse("0 1\nf 2\n0 0 0\n0 1 1\n1 0 1\n1 1 0\nT0(x,y) eq(x,y)\n").expect("parse");
    assert_eq!(m.universe, vec![0, 1]);
    assert_eq!(m.operations.len(), 1);
    assert_eq!(m.operations[0].call(&[1, 1]), Some(0));
    let t = m.relations.iter().find(|r| r.sym == "T0").expect("T0");
    assert_eq!(t.arity, 2);
    let mut rows = t.r.clone();
    rows.sort();
    assert_eq!(rows, vec![vec![0, 0], vec![1, 1]]);
}

#[test]
fn parse_formula_with_operation_term() {
    let m = parse("0 1\nf 2\n0 0 0\n0 1 1\n1 0 1\n1 1 0\nT1(x,y) eq(f(x,y),x)\n").expect("parse");
    let t = m.relations.iter().find(|r| r.sym == "T1").expect("T1");
    let mut rows = t.r.clone();
    rows.sort();
    assert_eq!(rows, vec![vec![0, 0], vec![1, 0]]);
}

#[test]
fn parse_relation_table_and_preprocess() {
    let m = parse("# a model\n0 1 2\nT 3 2\n0 0\n1 2\n2 1\nR 1 1\n2\n").expect("parse");
    assert_eq!(m.relations.len(), 2);
    let m = preprocess_targets(m);
    assert!(m.relations.iter().any(|r| r.sym == "R"));
    assert!(!m.relations.iter().any(|r| r.sym == "T"));
    assert!(m.relations.iter().all(|r| !r.sym.starts_with('T') || r.pattern.is_some()));
    assert_eq!(m.relations.iter().filter(|r| r.sym.starts_with('T')).count(), 2);
}

#[test]
fn rejects_zero_arity_relation() {
    let (line, msg) = message(fail("0 1\nR 1 0\n"));
    assert_eq!(line, 2);
    assert!(msg.contains("0-arity"));
}

#[test]
fn rejects_double_equals_in_formula() {
    let (_, msg) = message(fail("0 1\nT(x) x==x\n"));
    assert!(msg.contains("eq") && msg.contains("=="));
}

#[test]
fn rejects_repeated_variables_in_formula() {
    let (_, msg) = message(fail("0 1\nT(x,x) eq(x,x)\n"));
    assert_eq!(msg, "Repeated variables in declaration");
}

#[test]
fn rejects_unknown_operation_in_term() {
    let (_, msg) = message(fail("0 1\nT(x) eq(g(x),x)\n"));
    assert_eq!(msg, "Unknown operation g with arity 1");
}

#[test]
fn missing_tuples_and_universe_errors() {
    let (line, msg) = message(fail("0 1\nR 2 1\n0\n"));
    assert_eq!(line, 3);
    assert_eq!(msg, "Missing tuples for relation R");
    let (_, msg) = message(fail("0 1\nf 1\n0 1\n"));
    assert_eq!(msg, "Missing tuples for operation");
    let (line, msg) = message(fail("\n# only comments\n"));
    assert_eq!(line, 2);
    assert_eq!(msg, "Universe not defined");
}

#[test]
fn error_carries_path() {
    match fail("0 1\nR 1 1\n5\n") {
        ParseError::Parse { line, path, message } => {
            assert_eq!(line, 3);
            assert_eq!(path.as_deref(), Some("m.model"));
            assert_eq!(message, "5 not in universe [0, 1]");
        }
    }
}

#[test]
fn line_helpers() {
    assert_eq!(c_input("  1 2 # comment "), "1 2");
    assert_eq!(c_input("# all comment"), "");
    assert_eq!(parse_universe("0 a 1 -2"), vec![0, 1, -2]);
    assert_eq!(parse_defrel("T 3 2").unwrap(), ("T".to_string(), 3, 2));
    assert_eq!(parse_defrel("T x 2").unwrap_err(), "Invalid ntuples");
    assert_eq!(parse_defop("f 2").unwrap(), ("f".to_string(), 2));
    assert_eq!(parse_defop("f 2 3").unwrap_err(), "Operation declaration needs SYM ARITY");
    assert_eq!(parse_tuple("0 1", &[0, 1]).unwrap(), vec![0, 1]);
    assert_eq!(parse_tuple("0 z", &[0, 1]).unwrap_err(), "Invalid number: z");
}
