//! Behaviour of the symbol table operations and of suffix normalization on
//! their own.

use atmos_calc::normalize_text;
use atmos_calc::table::SymbolTable;

#[test]
fn normalization_strips_float_markers() {
    assert_eq!(normalize_text("1.5f + 2e3f"), "1.5 + 2e3".to_string());
    assert_eq!(normalize_text("30f*2"), "30*2".to_string());
    assert_eq!(normalize_text("0.25f"), "0.25".to_string());
}

#[test]
fn normalization_leaves_identifiers_alone() {
    assert_eq!(normalize_text("x2f + ROOMf"), "x2f + ROOMf".to_string());
    assert_eq!(normalize_text("f + 1"), "f + 1".to_string());
}

#[test]
fn normalization_requires_word_boundary_after_marker() {
    assert_eq!(normalize_text("5ff"), "5ff".to_string());
    assert_eq!(normalize_text("1f5"), "1f5".to_string());
}

#[test]
fn normalization_is_idempotent() {
    let once = normalize_text("1.5f + 2e3f + x2f + 7f");
    let twice = normalize_text(once.as_str());
    assert_eq!(once, twice);
}

#[test]
fn lookup_prefers_variables() {
    let mut t = SymbolTable::new();
    t.replace_constants(vec![("C".to_string(), "5".to_string())]);
    t.upsert_variable("C", "7");
    assert_eq!(t.lookup("C"), Some("7".to_string()));
}

#[test]
fn lookup_falls_back_to_constants() {
    let mut t = SymbolTable::new();
    t.replace_constants(vec![("C".to_string(), "5".to_string())]);
    assert_eq!(t.lookup("C"), Some("5".to_string()));
    assert_eq!(t.lookup("D"), None);
}

#[test]
fn upsert_overwrites_in_place() {
    let mut t = SymbolTable::new();
    t.upsert_variable("A", "1");
    t.upsert_variable("A", "2");
    assert_eq!(t.lookup("A"), Some("2".to_string()));
    assert_eq!(t.variables_list().len(), 1);
}

#[test]
fn upsert_rejects_empty_name() {
    let mut t = SymbolTable::new();
    t.upsert_variable("", "1");
    assert_eq!(t.variables_list().len(), 0);
}

#[test]
fn upsert_rejects_non_identifier_name() {
    let mut t = SymbolTable::new();
    t.upsert_variable("a b", "1");
    t.upsert_variable("2x", "1");
    assert_eq!(t.variables_list().len(), 0);
}

#[test]
fn remove_is_idempotent() {
    let mut t = SymbolTable::new();
    t.upsert_variable("A", "1");
    t.remove_variable("A");
    t.remove_variable("A");
    assert_eq!(t.lookup("A"), None);
    assert_eq!(t.variables_list().len(), 0);
}

#[test]
fn replace_constants_swaps_wholesale() {
    let mut t = SymbolTable::new();
    t.replace_constants(vec![("A".to_string(), "1".to_string())]);
    t.replace_constants(vec![("B".to_string(), "2".to_string())]);
    assert_eq!(t.lookup("A"), None);
    assert_eq!(t.lookup("B"), Some("2".to_string()));
    assert_eq!(t.constants_list().len(), 1);
}

#[test]
fn replace_constants_keeps_later_duplicate() {
    let mut t = SymbolTable::new();
    t.replace_constants(vec![
        ("A".to_string(), "1".to_string()),
        ("A".to_string(), "2".to_string()),
    ]);
    assert_eq!(t.lookup("A"), Some("2".to_string()));
    assert_eq!(t.constants_list().len(), 1);
}

#[test]
fn replace_constants_does_not_touch_variables() {
    let mut t = SymbolTable::new();
    t.upsert_variable("V", "9");
    t.replace_constants(vec![("A".to_string(), "1".to_string())]);
    assert_eq!(t.lookup("V"), Some("9".to_string()));
}

#[test]
fn constants_sort_ascending_and_descending() {
    let pairs = vec![
        ("GAMMA".to_string(), "3".to_string()),
        ("ALPHA".to_string(), "1".to_string()),
        ("BETA".to_string(), "2".to_string()),
    ];
    let asc = atmos_calc::sorted_by_name(&pairs, true);
    let names: Vec<String> = asc.iter().map(|p| p.0.clone()).collect();
    assert_eq!(names, vec!["ALPHA".to_string(), "BETA".to_string(), "GAMMA".to_string()]);
    let desc = atmos_calc::sorted_by_name(&pairs, false);
    let names: Vec<String> = desc.iter().map(|p| p.0.clone()).collect();
    assert_eq!(names, vec!["GAMMA".to_string(), "BETA".to_string(), "ALPHA".to_string()]);
}

#[test]
fn search_is_case_insensitive_on_names_and_values() {
    let pairs = vec![
        ("Alpha".to_string(), "one".to_string()),
        ("Beta".to_string(), "TWO".to_string()),
        ("Gamma".to_string(), "three".to_string()),
    ];
    let hit = atmos_calc::search_pairs(&pairs, "ALPHA");
    assert_eq!(hit.len(), 1);
    assert_eq!(hit[0].0, "Alpha".to_string());
    let by_value = atmos_calc::search_pairs(&pairs, "two");
    assert_eq!(by_value.len(), 1);
    assert_eq!(by_value[0].0, "Beta".to_string());
}

#[test]
fn empty_search_keeps_everything() {
    let pairs = vec![
        ("A".to_string(), "1".to_string()),
        ("B".to_string(), "2".to_string()),
    ];
    assert_eq!(atmos_calc::search_pairs(&pairs, "").len(), 2);
}

#[test]
fn search_misses_return_nothing() {
    let pairs = vec![("A".to_string(), "1".to_string())];
    assert_eq!(atmos_calc::search_pairs(&pairs, "zz").len(), 0);
}
