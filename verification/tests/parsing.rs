use category_netlist::ast::Statement;
use category_netlist::parser::{
    parse_assert_commute, parse_category_file, parse_morphism, parse_object, parse_statement,
};

#[test]
fn test_parse_object() {
    match parse_object("object A") {
        Some((rest, Statement::Object(name))) => {
            assert_eq!(rest, "");
            assert_eq!(name, "A".to_string());
        }
        other => panic!("unexpected parse result: {:?}", other),
    }
}

#[test]
fn test_parse_morphism() {
    match parse_morphism("morphism f: A -> B") {
        Some((rest, Statement::Morphism { name, from, to })) => {
            assert_eq!(rest, "");
            assert_eq!(name, "f".to_string());
            assert_eq!(from, "A".to_string());
            assert_eq!(to, "B".to_string());
        }
        other => panic!("unexpected parse result: {:?}", other),
    }
}

#[test]
fn test_parse_assert_commute() {
    match parse_assert_commute("assert commute: g ∘ f == h") {
        Some((rest, Statement::AssertCommute { lhs, rhs })) => {
            assert_eq!(rest, "");
            assert_eq!(lhs, vec!["g".to_string(), "f".to_string()]);
            assert_eq!(rhs, vec!["h".to_string()]);
        }
        other => panic!("unexpected parse result: {:?}", other),
    }
}

#[test]
fn parse_object_rejects_missing_space() {
    assert!(parse_object("objectA").is_none());
    assert!(parse_object("object 1bad").is_none());
}

#[test]
fn parse_morphism_rejects_space_before_colon() {
    assert!(parse_morphism("morphism f : A -> B").is_none());
}

#[test]
fn parse_statement_skips_leading_whitespace() {
    match parse_statement("  \n object A\n") {
        Some((rest, Statement::Object(name))) => {
            assert_eq!(rest, "");
            assert_eq!(name, "A".to_string());
        }
        other => panic!("unexpected parse result: {:?}", other),
    }
}

#[test]
fn parse_statement_consumes_trailing_whitespace() {
    match parse_object("object A   \nrest") {
        Some((rest, Statement::Object(name))) => {
            assert_eq!(rest, "rest");
            assert_eq!(name, "A".to_string());
        }
        other => panic!("unexpected parse result: {:?}", other),
    }
}

#[test]
fn parse_identifier_with_underscore_and_digits() {
    match parse_object("object _a1_b2") {
        Some((rest, Statement::Object(name))) => {
            assert_eq!(rest, "");
            assert_eq!(name, "_a1_b2".to_string());
        }
        other => panic!("unexpected parse result: {:?}", other),
    }
}

#[test]
fn parse_commute_single_names() {
    match parse_assert_commute("assert commute: f == g") {
        Some((rest, Statement::AssertCommute { lhs, rhs })) => {
            assert_eq!(rest, "");
            assert_eq!(lhs, vec!["f".to_string()]);
            assert_eq!(rhs, vec!["g".to_string()]);
        }
        other => panic!("unexpected parse result: {:?}", other),
    }
}

#[test]
fn parse_category_file_single_statement() {
    // A statement swallows its trailing newlines, so the line-ending
    // separator that must follow it never matches: the file parser
    // stops after the first statement and hands the rest back.
    match parse_category_file("object A\nobject B") {
        Some((rest, ast)) => {
            assert_eq!(rest, "object B");
            assert_eq!(ast.statements.len(), 1);
            match &ast.statements[0] {
                Statement::Object(name) => assert_eq!(name, "A"),
                other => panic!("unexpected statement: {:?}", other),
            }
        }
        None => panic!("expected a parse"),
    }
}

#[test]
fn parse_category_file_rejects_garbage() {
    assert!(parse_category_file("neither fish nor fowl").is_none());
}
