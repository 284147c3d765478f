use i18n_audit::analyzer::{analyze, unused_basis_points, AnalysisResult};
use i18n_audit::config::Config;
use i18n_audit::parser::DefinedKey;
use i18n_audit::scanner::UsedKey;

fn config(ignore_pattern: Option<&str>) -> Config {
    Config {
        project_path: ".".to_string(),
        src_dir: "src".to_string(),
        locales_dir: "locales".to_string(),
        threshold_basis_points: 2000,
        ignore_pattern: ignore_pattern.map(|p| p.to_string()),
        ignore_todo_files: true,
        verbose: false,
    }
}

fn used(key: &str, is_literal: bool, line_number: usize) -> UsedKey {
    UsedKey { key: key.to_string(), is_literal, file_path: "src/main.rs".to_string(), line_number }
}

fn defined(key: &str, language: &str, value: &str) -> DefinedKey {
    DefinedKey {
        key: key.to_string(),
        language: language.to_string(),
        value: value.to_string(),
        file_path: format!("locales/{}.yml", language),
    }
}

fn unused_of(result: &AnalysisResult, language: &str) -> Vec<String> {
    result
        .unused_keys
        .iter()
        .filter(|group| group.language == language)
        .flat_map(|group| group.keys.iter().map(|k| k.key.clone()))
        .collect()
}

#[test]
fn unused_missing_and_dynamic_keys_are_told_apart() {
    let used_keys = vec![used("a.used", true, 3), used("b.missing", true, 7), used("dyn.value", false, 9)];
    let defined_keys = vec![
        defined("a.used", "en", "A"),
        defined("a.dead", "en", "D"),
        defined("a.used", "de", "A"),
        defined("b.missing", "de", "B"),
    ];
    let result = analyze(&used_keys, &defined_keys, &config(None));

    assert_eq!(result.unused_keys.len(), 1);
    assert_eq!(result.unused_keys[0].language, "en");
    assert_eq!(unused_of(&result, "en"), vec!["a.dead"]);
    assert_eq!(result.unused_keys[0].keys[0].value, "D");
    assert_eq!(result.unused_keys[0].keys[0].file_path, "locales/en.yml");

    assert_eq!(result.missing_keys.len(), 1);
    assert_eq!(result.missing_keys[0].key, "b.missing");
    assert_eq!(result.missing_keys[0].missing_languages, vec!["en"]);
    assert_eq!(result.missing_keys[0].file_path, "src/main.rs");
    assert_eq!(result.missing_keys[0].line_number, 7);

    assert_eq!(result.dynamic_keys.len(), 1);
    assert_eq!(result.dynamic_keys[0].pattern, "dyn.value");
    assert_eq!(result.dynamic_keys[0].line_number, 9);

    assert_eq!(result.total_keys, 4);
    assert_eq!(result.total_unused, 1);
    assert_eq!(result.total_missing, 1);
    assert_eq!(result.total_dynamic, 1);
    assert_eq!(result.unused_basis_points, 2500);
}

#[test]
fn key_missing_from_all_languages_lists_every_language() {
    let used_keys = vec![used("nowhere", true, 1)];
    let defined_keys = vec![defined("x", "en", "X"), defined("y", "de", "Y"), defined("z", "fr", "Z")];
    let result = analyze(&used_keys, &defined_keys, &config(None));
    assert_eq!(result.missing_keys.len(), 1);
    assert_eq!(result.missing_keys[0].missing_languages, vec!["en", "de", "fr"]);
}

#[test]
fn without_catalogs_nothing_is_missing_and_the_share_is_zero() {
    let used_keys = vec![used("a", true, 1)];
    let result = analyze(&used_keys, &vec![], &config(None));
    assert!(result.missing_keys.is_empty());
    assert!(result.unused_keys.is_empty());
    assert_eq!(result.total_keys, 0);
    assert_eq!(result.unused_basis_points, 0);
    assert!(!result.exceeds_threshold(0));
    assert!(result.exceeds_threshold(-1));
}

#[test]
fn dynamic_key_covers_by_prefix() {
    let used_keys = vec![used("menu.", false, 1)];
    let defined_keys = vec![defined("menu.file", "en", "File"), defined("other", "en", "O")];
    let result = analyze(&used_keys, &defined_keys, &config(None));
    assert_eq!(unused_of(&result, "en"), vec!["other"]);
}

#[test]
fn dynamic_key_covers_by_placeholder_anywhere_in_the_key() {
    let used_keys = vec![used("item.{}.name", false, 1)];
    let defined_keys = vec![
        defined("item.7.name", "en", "seven"),
        defined("shop.item.9.name.long", "en", "found by search"),
        defined("item..name", "en", "nothing between the dots"),
        defined("item.name", "en", "no placeholder part"),
    ];
    let result = analyze(&used_keys, &defined_keys, &config(None));
    assert_eq!(unused_of(&result, "en"), vec!["item..name", "item.name"]);
}

#[test]
fn placeholder_pattern_that_is_no_expression_covers_nothing() {
    let used_keys = vec![used("item.({}", false, 1)];
    let defined_keys = vec![defined("item.(x", "en", "X")];
    let result = analyze(&used_keys, &defined_keys, &config(None));
    assert_eq!(unused_of(&result, "en"), vec!["item.(x"]);
}

#[test]
fn literal_key_does_not_cover_by_prefix() {
    let used_keys = vec![used("menu", true, 1)];
    let defined_keys = vec![defined("menu.file", "en", "File")];
    let result = analyze(&used_keys, &defined_keys, &config(None));
    assert_eq!(unused_of(&result, "en"), vec!["menu.file"]);
}

#[test]
fn ignore_pattern_keeps_keys_from_counting_as_unused() {
    let defined_keys = vec![defined("legal.terms", "en", "T"), defined("dead", "en", "D")];
    let result = analyze(&vec![], &defined_keys, &config(Some("^legal\\.")));
    assert_eq!(unused_of(&result, "en"), vec!["dead"]);
    assert_eq!(result.total_unused, 1);
    assert_eq!(result.unused_basis_points, 5000);
}

#[test]
fn ignore_pattern_that_does_not_compile_ignores_nothing() {
    let defined_keys = vec![defined("legal.terms", "en", "T"), defined("dead", "en", "D")];
    let result = analyze(&vec![], &defined_keys, &config(Some("legal(")));
    assert_eq!(unused_of(&result, "en"), vec!["legal.terms", "dead"]);
    assert_eq!(result.unused_basis_points, 10000);
}

#[test]
fn of_two_definitions_of_a_key_in_a_language_the_last_counts() {
    let defined_keys = vec![defined("a", "en", "first"), defined("b", "en", "B"), defined("a", "en", "second")];
    let result = analyze(&vec![], &defined_keys, &config(None));
    assert_eq!(unused_of(&result, "en"), vec!["b", "a"]);
    assert_eq!(result.unused_keys[0].keys[1].value, "second");
    assert_eq!(result.total_keys, 3);
    assert_eq!(result.total_unused, 2);
    assert_eq!(result.unused_basis_points, 6666);
}

#[test]
fn languages_keep_the_order_of_their_first_definition() {
    let defined_keys = vec![defined("x", "zh-CN", "1"), defined("x", "en", "2"), defined("y", "zh-CN", "3")];
    let result = analyze(&vec![], &defined_keys, &config(None));
    let languages: Vec<&str> = result.unused_keys.iter().map(|g| g.language.as_str()).collect();
    assert_eq!(languages, vec!["zh-CN", "en"]);
    assert_eq!(unused_of(&result, "zh-CN"), vec!["x", "y"]);
}

#[test]
fn no_literal_key_is_unused_and_every_missing_key_is_literal() {
    let used_keys = vec![used("a", true, 1), used("b", true, 2), used("c.{}", false, 3), used("d", false, 4)];
    let defined_keys = vec![
        defined("a", "en", "A"),
        defined("d", "en", "D"),
        defined("e", "en", "E"),
        defined("b", "de", "B"),
        defined("c.x", "de", "CX"),
        defined("f", "de", "F"),
    ];
    let result = analyze(&used_keys, &defined_keys, &config(None));
    let literal: Vec<&str> = used_keys.iter().filter(|k| k.is_literal).map(|k| k.key.as_str()).collect();
    for group in &result.unused_keys {
        assert!(!group.keys.is_empty());
        for key in &group.keys {
            assert_eq!(key.language, group.language);
            assert!(!literal.contains(&key.key.as_str()));
        }
    }
    for missing in &result.missing_keys {
        assert!(literal.contains(&missing.key.as_str()));
        for language in &missing.missing_languages {
            assert!(!unused_of(&result, language).contains(&missing.key));
        }
    }
    assert_eq!(unused_of(&result, "en"), vec!["e"]);
    assert_eq!(unused_of(&result, "de"), vec!["f"]);
    assert_eq!(result.missing_keys.len(), 2);
    assert!(result.total_unused <= result.total_keys);
    assert!(result.unused_basis_points <= 10000);
}

#[test]
fn share_is_exact_in_hundredths_of_a_percent() {
    assert_eq!(unused_basis_points(0, 0), 0);
    assert_eq!(unused_basis_points(0, 5), 0);
    assert_eq!(unused_basis_points(1, 3), 3333);
    assert_eq!(unused_basis_points(2, 3), 6666);
    assert_eq!(unused_basis_points(1, 4), 2500);
    assert_eq!(unused_basis_points(7, 7), 10000);
    assert_eq!(unused_basis_points(usize::MAX, usize::MAX), 10000);
}

#[test]
fn threshold_is_compared_without_rounding() {
    let defined_keys = vec![defined("a", "en", "A"), defined("b", "en", "B"), defined("c", "en", "C")];
    let result = analyze(&vec![used("a", true, 1), used("b", true, 1)], &defined_keys, &config(None));
    assert_eq!(result.total_unused, 1);
    assert_eq!(result.unused_basis_points, 3333);
    assert!(result.exceeds_threshold(3333));
    assert!(!result.exceeds_threshold(3334));
    assert!(result.exceeds_threshold(2000));
    assert!(!result.exceeds_threshold(10000));
}
