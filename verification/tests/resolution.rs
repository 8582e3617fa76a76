//! End-to-end behaviour of expression resolution against the two-layer
//! symbol table, with the real external evaluator linked.

use atmos_calc::resolver::ResolveError;
use atmos_calc::table::SymbolTable;

fn table_with_constants(pairs: &[(&str, &str)]) -> SymbolTable {
    let mut t = SymbolTable::new();
    let items: Vec<(String, String)> =
        pairs.iter().map(|(n, d)| (n.to_string(), d.to_string())).collect();
    t.replace_constants(items);
    t
}

#[test]
fn plain_expression_is_passed_through() {
    let t = SymbolTable::new();
    assert_eq!(t.resolve("2 + 2"), Ok("4".to_string()));
}

#[test]
fn plain_expression_ignores_unrelated_symbols() {
    let mut t = table_with_constants(&[("C", "5")]);
    t.upsert_variable("D", "8");
    assert_eq!(t.resolve("2 + 2"), Ok("4".to_string()));
}

#[test]
fn evaluator_really_computes() {
    let t = SymbolTable::new();
    assert_eq!(t.resolve("3 * 4"), Ok("12".to_string()));
    assert_eq!(t.resolve("0.5 + 0.25"), Ok("0.75".to_string()));
    assert_eq!(t.resolve("1e3 + 1"), Ok("1001".to_string()));
}

#[test]
fn constant_substitution_computes() {
    let t = table_with_constants(&[("C", "5")]);
    assert_eq!(t.resolve("C + 2"), Ok("7".to_string()));
}

#[test]
fn variable_defined_through_another_resolves() {
    let mut t = SymbolTable::new();
    t.upsert_variable("A", "B * 2");
    t.upsert_variable("B", "3");
    assert_eq!(t.resolve("A + 1"), Ok("7".to_string()));
}

#[test]
fn variable_defined_through_constant_resolves() {
    let mut t = table_with_constants(&[("G", "10")]);
    t.upsert_variable("H", "G + 1");
    assert_eq!(t.resolve("H"), Ok("11".to_string()));
}

#[test]
fn self_referential_variable_fails_closed() {
    let mut t = SymbolTable::new();
    t.upsert_variable("A", "A + 1");
    assert_eq!(
        t.resolve("A + 1"),
        Err(ResolveError::CyclicOrUnbounded("A".to_string()))
    );
}

#[test]
fn mutually_cyclic_variables_fail_closed() {
    let mut t = SymbolTable::new();
    t.upsert_variable("A", "B + 1");
    t.upsert_variable("B", "A + 1");
    match t.resolve("A") {
        Err(ResolveError::CyclicOrUnbounded(_)) => {}
        other => panic!("expected a cycle diagnosis, got {:?}", other),
    }
}

#[test]
fn undefined_name_is_reported() {
    let t = SymbolTable::new();
    assert_eq!(
        t.resolve("X + 1"),
        Err(ResolveError::UnknownSymbol("X".to_string()))
    );
}

#[test]
fn word_boundary_is_respected() {
    let mut t = SymbolTable::new();
    t.upsert_variable("R", "9");
    assert_eq!(
        t.resolve("ROOM + 1"),
        Err(ResolveError::UnknownSymbol("ROOM".to_string()))
    );
}

#[test]
fn symbol_matches_as_whole_word_everywhere() {
    let mut t = SymbolTable::new();
    t.upsert_variable("R", "9");
    assert_eq!(t.resolve("R + R * R"), Ok("90".to_string()));
}

#[test]
fn deleted_variable_becomes_unknown() {
    let mut t = SymbolTable::new();
    t.upsert_variable("X", "4");
    assert_eq!(t.resolve("X + 1"), Ok("5".to_string()));
    t.remove_variable("X");
    assert_eq!(
        t.resolve("X + 1"),
        Err(ResolveError::UnknownSymbol("X".to_string()))
    );
}

#[test]
fn variable_overrides_constant_of_same_name() {
    let mut t = table_with_constants(&[("C", "5")]);
    t.upsert_variable("C", "7");
    assert_eq!(t.resolve("C"), Ok("7".to_string()));
}

#[test]
fn suffixed_definition_is_normalized() {
    let t = table_with_constants(&[("K", "230f")]);
    assert_eq!(t.resolve("K * 2"), Ok("460".to_string()));
}

#[test]
fn suffixed_expression_is_normalized() {
    let t = SymbolTable::new();
    assert_eq!(t.resolve("5f + 2"), Ok("7".to_string()));
}

#[test]
fn non_numeric_definition_is_malformed() {
    let mut t = SymbolTable::new();
    t.upsert_variable("A", "1 > 0");
    assert_eq!(
        t.resolve("A + 1"),
        Err(ResolveError::MalformedLiteral("1 > 0".to_string()))
    );
}

#[test]
fn evaluator_rejection_is_surfaced() {
    let t = SymbolTable::new();
    match t.resolve("2 +") {
        Err(ResolveError::EvaluationFailed(_)) => {}
        other => panic!("expected an evaluation failure, got {:?}", other),
    }
}

#[test]
fn division_by_zero_is_surfaced() {
    let t = SymbolTable::new();
    match t.resolve("1 / 0") {
        Err(ResolveError::EvaluationFailed(_)) => {}
        Ok(v) => assert_eq!(v, "inf".to_string()),
        other => panic!("unexpected diagnosis {:?}", other),
    }
}

#[test]
fn expansion_yields_numeric_text() {
    let mut t = table_with_constants(&[("C", "5")]);
    t.upsert_variable("A", "C * 2");
    assert_eq!(t.expand_text("A + C"), Ok("10 + 5".to_string()));
}

#[test]
fn negative_definition_substitutes() {
    let t = table_with_constants(&[("TMIN", "-273.15")]);
    assert_eq!(t.resolve("TMIN + 273.15"), Ok("0".to_string()));
}

#[test]
fn unknown_inside_longer_token_is_not_corrupted() {
    let t = SymbolTable::new();
    assert_eq!(
        t.resolve("x2f + 1"),
        Err(ResolveError::UnknownSymbol("x2f".to_string()))
    );
}
