//! Tests of the boolean expression language.
use veridex::boolexpr::{parse_boolean_expr, BooleanExpr};

fn kw(s: &str) -> Vec<u8> {
    s.as_bytes().to_vec()
}

#[test]
fn test_parse_single_keyword() {
    let expr = parse_boolean_expr(&kw("rust")).unwrap();
    match expr {
        BooleanExpr::Keyword(k) => assert_eq!(k, kw("rust")),
        _ => panic!("expected a keyword"),
    }
}

#[test]
fn test_parse_and() {
    let expr = parse_boolean_expr(&kw("rust AND storage")).unwrap();
    assert!(matches!(expr, BooleanExpr::And(_, _)));
}

#[test]
fn test_parse_or() {
    let expr = parse_boolean_expr(&kw("rust OR python")).unwrap();
    assert!(matches!(expr, BooleanExpr::Or(_, _)));
}

#[test]
fn test_parse_not() {
    let expr = parse_boolean_expr(&kw("NOT rust")).unwrap();
    assert!(matches!(expr, BooleanExpr::Not(_)));
}

#[test]
fn test_parse_complex() {
    let expr = parse_boolean_expr(&kw("(rust OR python) AND storage")).unwrap();
    assert!(matches!(expr, BooleanExpr::And(_, _)));
}

#[test]
fn test_parse_with_parens() {
    let expr = parse_boolean_expr(&kw("(rust AND storage) OR (python AND database)")).unwrap();
    assert!(matches!(expr, BooleanExpr::Or(_, _)));
}

#[test]
fn test_get_keywords() {
    let expr = parse_boolean_expr(&kw("(rust OR python) AND storage")).unwrap();
    let keywords = expr.get_keywords();
    assert_eq!(keywords.len(), 3);
    assert!(keywords.contains(&kw("rust")));
    assert!(keywords.contains(&kw("python")));
    assert!(keywords.contains(&kw("storage")));
}

#[test]
fn test_evaluate_and() {
    let expr = parse_boolean_expr(&kw("rust AND storage")).unwrap();
    let results = vec![
        (kw("rust"), vec![kw("file1"), kw("file2")]),
        (kw("storage"), vec![kw("file2"), kw("file3")]),
    ];
    let result = expr.evaluate(&results);
    assert_eq!(result.len(), 1);
    assert!(result.contains(&kw("file2")));
}

#[test]
fn test_evaluate_or() {
    let expr = parse_boolean_expr(&kw("rust OR python")).unwrap();
    let results = vec![
        (kw("rust"), vec![kw("file1")]),
        (kw("python"), vec![kw("file2")]),
    ];
    let result = expr.evaluate(&results);
    assert_eq!(result.len(), 2);
    assert!(result.contains(&kw("file1")));
    assert!(result.contains(&kw("file2")));
}

#[test]
fn test_case_insensitive_operators() {
    assert!(parse_boolean_expr(&kw("rust and storage")).is_ok());
    assert!(parse_boolean_expr(&kw("rust or python")).is_ok());
    assert!(parse_boolean_expr(&kw("not rust")).is_ok());
}

#[test]
fn test_parse_error_reported() {
    assert!(parse_boolean_expr(&kw("rust AND")).is_err());
    assert!(parse_boolean_expr(&kw("(rust OR python")).is_err());
    assert!(parse_boolean_expr(&kw("AND rust")).is_err());
}

#[test]
fn test_not_evaluates_to_empty() {
    let expr = parse_boolean_expr(&kw("NOT rust")).unwrap();
    let results = vec![(kw("rust"), vec![kw("file1")])];
    assert!(expr.evaluate(&results).is_empty());
}

#[test]
fn test_to_string_roundtrips_shape() {
    let expr = parse_boolean_expr(&kw("rust AND (storage OR distributed)")).unwrap();
    let text = expr.to_string();
    assert_eq!(text, kw("(rust AND (storage OR distributed))"));
}

#[test]
fn test_boolean_query_scenario() {
    // Four files with keyword sets; queries and expected answers.
    let results = vec![
        (kw("rust"), vec![kw("file1"), kw("file2"), kw("file4")]),
        (kw("distributed"), vec![kw("file1"), kw("file4")]),
        (kw("storage"), vec![kw("file2"), kw("file3"), kw("file4")]),
        (kw("python"), vec![kw("file3")]),
    ];

    let q1 = parse_boolean_expr(&kw("rust AND storage")).unwrap();
    let mut r1 = q1.evaluate(&results);
    r1.sort();
    assert_eq!(r1, vec![kw("file2"), kw("file4")]);

    let q2 = parse_boolean_expr(&kw("rust OR python")).unwrap();
    let mut r2 = q2.evaluate(&results);
    r2.sort();
    assert_eq!(r2, vec![kw("file1"), kw("file2"), kw("file3"), kw("file4")]);

    let q3 = parse_boolean_expr(&kw("(rust OR python) AND storage")).unwrap();
    let mut r3 = q3.evaluate(&results);
    r3.sort();
    assert_eq!(r3, vec![kw("file2"), kw("file3"), kw("file4")]);

    let q4 = parse_boolean_expr(&kw("rust AND (storage OR distributed)")).unwrap();
    let mut r4 = q4.evaluate(&results);
    r4.sort();
    assert_eq!(r4, vec![kw("file1"), kw("file2"), kw("file4")]);
}
