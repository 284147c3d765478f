use i18n_audit::config::Config;
use i18n_audit::error::AuditError;
use i18n_audit::parser::{
    extract_language_from_path, is_catalog_file, parse_json, parse_toml, parse_translation_files,
    parse_yaml, CatalogFile, DefinedKey,
};

fn config() -> Config {
    Config {
        project_path: "proj".to_string(),
        src_dir: "src".to_string(),
        locales_dir: "locales".to_string(),
        threshold_basis_points: 2000,
        ignore_pattern: None,
        ignore_todo_files: true,
        verbose: false,
    }
}

fn pairs(defined: &[DefinedKey]) -> Vec<(String, String)> {
    defined.iter().map(|d| (d.key.clone(), d.value.clone())).collect()
}

fn pair(key: &str, value: &str) -> (String, String) {
    (key.to_string(), value.to_string())
}

#[test]
fn json_is_flattened_with_dotted_keys() {
    let mut defined = Vec::new();
    parse_json(
        r#"{"common": {"ok": "OK", "count": 3, "on": true}, "title": "T"}"#,
        "en",
        "locales/en.json",
        &mut defined,
    )
    .unwrap();
    assert_eq!(
        pairs(&defined),
        vec![pair("common.count", "3"), pair("common.ok", "OK"), pair("common.on", "true"), pair("title", "T")]
    );
    assert_eq!(defined[0].language, "en");
    assert_eq!(defined[0].file_path, "locales/en.json");
}

#[test]
fn language_wrapper_is_transparent() {
    let mut defined = Vec::new();
    parse_yaml("en:\n  greetings:\n    hello: Hi\n", "en", "en.yml", &mut defined).unwrap();
    assert_eq!(pairs(&defined), vec![pair("greetings.hello", "Hi")]);
    let mut other = Vec::new();
    parse_yaml("en:\n  greetings:\n    hello: Hi\n", "de", "de.yml", &mut other).unwrap();
    assert_eq!(pairs(&other), vec![pair("en.greetings.hello", "Hi")]);
}

#[test]
fn wrapper_over_a_leaf_defines_nothing() {
    let mut defined = Vec::new();
    parse_json(r#"{"en": "hello"}"#, "en", "en.json", &mut defined).unwrap();
    assert!(defined.is_empty());
}

#[test]
fn toml_tables_and_dotted_keys() {
    let mut defined = Vec::new();
    parse_toml("common.ok = \"OK\"\n[login]\ntitle = \"Login\"\nretries = 2\n", "en", "en.toml", &mut defined)
        .unwrap();
    assert_eq!(pairs(&defined), vec![pair("common.ok", "OK"), pair("login.retries", "2"), pair("login.title", "Login")]);
}

#[test]
fn yaml_keys_that_are_no_strings_are_left_out() {
    let mut defined = Vec::new();
    parse_yaml("a: x\n5: y\nb:\n  c: z\n", "en", "en.yml", &mut defined).unwrap();
    assert_eq!(pairs(&defined), vec![pair("a", "x"), pair("b.c", "z")]);
}

#[test]
fn later_duplicate_key_wins() {
    let mut defined = Vec::new();
    parse_yaml("a.b: first\na:\n  b: second\n", "en", "en.yml", &mut defined).unwrap();
    assert_eq!(pairs(&defined), vec![pair("a.b", "second")]);
}

#[test]
fn malformed_text_is_a_parse_error() {
    let mut defined = vec![];
    let error = parse_json("{", "en", "en.json", &mut defined).unwrap_err();
    assert!(matches!(error, AuditError::Parse { ref file_path, .. } if file_path == "en.json"));
    assert!(defined.is_empty());
}

#[test]
fn root_that_is_no_table_is_an_error() {
    let mut defined = vec![];
    let error = parse_json("[1, 2]", "en", "en.json", &mut defined).unwrap_err();
    assert!(matches!(error, AuditError::RootNotTable { ref file_path } if file_path == "en.json"));
    let error = parse_yaml("just text", "en", "en.yml", &mut defined).unwrap_err();
    assert!(matches!(error, AuditError::RootNotTable { .. }));
}

#[test]
fn language_comes_from_the_file_name_or_its_directory() {
    assert_eq!(extract_language_from_path("proj/locales/en.yml", "proj/locales"), "en");
    assert_eq!(extract_language_from_path("proj/locales/zh-CN.json", "proj/locales"), "zh-CN");
    assert_eq!(extract_language_from_path("proj/locales/en/messages.yml", "proj/locales"), "en");
    assert_eq!(extract_language_from_path("proj/locales/messages.yml", "proj/locales"), "unknown");
    assert_eq!(extract_language_from_path("proj/locales/english/messages.yml", "proj/locales"), "unknown");
    assert_eq!(extract_language_from_path("elsewhere/en/messages.yml", "proj/locales"), "unknown");
    assert_eq!(extract_language_from_path("proj/locales/app/de/messages.yml", "proj/locales"), "de");
}

#[test]
fn todo_files_and_other_extensions_are_skipped() {
    assert!(is_catalog_file("locales/en.yml", true));
    assert!(is_catalog_file("locales/en.yaml", true));
    assert!(is_catalog_file("locales/en.json", true));
    assert!(is_catalog_file("locales/en.toml", true));
    assert!(!is_catalog_file("locales/en.txt", true));
    assert!(!is_catalog_file("locales/TODO.yml", true));
    assert!(!is_catalog_file("locales/ToDo-later.json", true));
    assert!(is_catalog_file("locales/TODO.yml", false));
    assert!(is_catalog_file("todo/en.yml", true));
}

#[test]
fn files_are_read_in_order_with_relative_paths() {
    let files = vec![
        CatalogFile { path: "proj/locales/en.json".to_string(), content: r#"{"a": "A"}"#.to_string() },
        CatalogFile { path: "proj/locales/readme.md".to_string(), content: "# not a catalog".to_string() },
        CatalogFile { path: "proj/locales/todo.yml".to_string(), content: "x: y".to_string() },
        CatalogFile { path: "proj/locales/de/messages.toml".to_string(), content: "a = \"B\"\n".to_string() },
    ];
    let defined = parse_translation_files(&config(), &files).unwrap();
    assert_eq!(defined.len(), 2);
    assert_eq!(defined[0].language, "en");
    assert_eq!(defined[0].file_path, "locales/en.json");
    assert_eq!(defined[1].language, "de");
    assert_eq!(defined[1].file_path, "locales/de/messages.toml");
    assert_eq!(defined[1].value, "B");
}

#[test]
fn one_unreadable_file_fails_the_whole_read() {
    let files = vec![
        CatalogFile { path: "proj/locales/en.json".to_string(), content: r#"{"a": "A"}"#.to_string() },
        CatalogFile { path: "proj/locales/de.json".to_string(), content: "{".to_string() },
    ];
    assert!(matches!(parse_translation_files(&config(), &files), Err(AuditError::Parse { .. })));
}
