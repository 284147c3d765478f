use i18n_audit::actions::{
    adjust_locales_path, collect_groups, detect_locales_dir, extract_definitions, format_definitions,
    literal_keys, run_audit_command, run_extract_command, run_format_command,
};
use i18n_audit::config::{default_true, join_paths, Config};
use i18n_audit::error::AuditError;
use i18n_audit::parser::{CatalogFile, DefinedKey};
use i18n_audit::paths::{has_extension, make_relative, path_components};
use i18n_audit::scanner::{SourceFile, UsedKey};
use i18n_audit::text::{contains_text, split_lines, split_text, starts_with, widen};

fn config() -> Config {
    Config {
        project_path: "app".to_string(),
        src_dir: "src".to_string(),
        locales_dir: "locales".to_string(),
        threshold_basis_points: 2000,
        ignore_pattern: None,
        ignore_todo_files: default_true(),
        verbose: false,
    }
}

fn source(path: &str, content: &str) -> SourceFile {
    SourceFile { path: path.to_string(), content: content.to_string() }
}

fn catalog(path: &str, content: &str) -> CatalogFile {
    CatalogFile { path: path.to_string(), content: content.to_string() }
}

fn defined(key: &str, language: &str, value: &str, file_path: &str) -> DefinedKey {
    DefinedKey {
        key: key.to_string(),
        language: language.to_string(),
        value: value.to_string(),
        file_path: file_path.to_string(),
    }
}

#[test]
fn paths_are_joined_as_directories() {
    assert_eq!(join_paths("proj", "src"), "proj/src");
    assert_eq!(join_paths("proj/", "src"), "proj/src");
    assert_eq!(join_paths("", "src"), "src");
    assert_eq!(join_paths("proj", "/abs/locales"), "/abs/locales");
    assert_eq!(config().src_path(), "app/src");
    assert_eq!(config().locales_path(), "app/locales");
}

#[test]
fn paths_are_taken_apart_by_components() {
    assert_eq!(path_components("a//b/./c/"), vec!["a", "b", "c"]);
    assert_eq!(path_components("./x"), vec!["x"]);
    assert!(path_components("").is_empty());
    assert_eq!(make_relative("app/locales/en.yml", "app"), "locales/en.yml");
    assert_eq!(make_relative("./locales/en.yml", "."), "locales/en.yml");
    assert_eq!(make_relative("other/locales/en.yml", "app"), "other/locales/en.yml");
    assert_eq!(make_relative("/app/locales/en.yml", "app"), "/app/locales/en.yml");
    assert_eq!(make_relative("app", "app"), "");
    assert!(has_extension("a/b.c/file.tar.gz", "gz"));
    assert!(!has_extension("a/b.c/file", "c/file"));
    assert!(!has_extension("..", ""));
    assert!(has_extension("name.", ""));
}

#[test]
fn text_helpers() {
    assert_eq!(split_text("a.b..c", '.'), vec!["a", "b", "", "c"]);
    assert_eq!(split_text("", '.'), vec![""]);
    assert_eq!(split_lines("a\r\nb\n\nc\r"), vec!["a", "b", "", "c\r"]);
    assert!(split_lines("").is_empty());
    assert_eq!(split_lines("\n"), vec![""]);
    assert!(contains_text("xrust_i18n::t!(", "rust_i18n::t!"));
    assert!(!contains_text("rust_i18n::t", "rust_i18n::t!"));
    assert!(contains_text("abc", ""));
    assert!(starts_with("menu.file", "menu."));
    assert!(!starts_with("menu", "menu."));
    assert_eq!(widen("a.{}.b.{}"), "a.(.+).b.(.+)");
    assert_eq!(widen("{{}}"), "{(.+)}");
    assert_eq!(widen("{ }"), "{ }");
}

#[test]
fn the_first_catalog_call_names_the_catalogs() {
    let sources = vec![
        source("src/none.rs", "fn main() {}"),
        source("src/readme.md", "i18n!(\"not/a/source\")"),
        source("src/lib.rs", "rust_i18n::i18n!(\"../locales\", fallback = \"en\");\ni18n!(\"second\");"),
        source("src/other.rs", "i18n!(\"later\");"),
    ];
    assert_eq!(detect_locales_dir(&sources).unwrap(), Some("../locales".to_string()));
    let mut adjusted = config();
    adjust_locales_path(&mut adjusted, &sources).unwrap();
    assert_eq!(adjusted.locales_dir, "../locales");
    assert_eq!(adjusted.src_dir, "src");

    let mut untouched = config();
    adjust_locales_path(&mut untouched, &vec![source("src/a.rs", "fn f() {}")]).unwrap();
    assert_eq!(untouched.locales_dir, "locales");
}

#[test]
fn literal_keys_leave_out_dynamic_uses() {
    let used = vec![
        UsedKey { key: "b".to_string(), is_literal: true, file_path: "f.rs".to_string(), line_number: 1 },
        UsedKey { key: "d".to_string(), is_literal: false, file_path: "f.rs".to_string(), line_number: 2 },
        UsedKey { key: "a".to_string(), is_literal: true, file_path: "f.rs".to_string(), line_number: 3 },
    ];
    assert_eq!(literal_keys(&used), vec!["b", "a"]);
}

#[test]
fn definitions_are_grouped_by_language_and_file() {
    let defined_keys = vec![
        defined("a", "en", "1", "locales/en.json"),
        defined("a", "de", "2", "locales/de.json"),
        defined("b", "en", "3", "locales/en.json"),
        defined("c", "en", "4", "locales/en/more.json"),
    ];
    let groups = collect_groups(&defined_keys);
    let found: Vec<(&str, &str)> = groups.iter().map(|g| (g.language.as_str(), g.file_path.as_str())).collect();
    assert_eq!(
        found,
        vec![("en", "locales/en.json"), ("de", "locales/de.json"), ("en", "locales/en/more.json")]
    );
}

#[test]
fn extraction_drops_keys_that_are_only_used_dynamically() {
    let defined_keys = vec![
        defined("a.b", "en", "X", "locales/en.json"),
        defined("a.c", "en", "Y", "locales/en.json"),
        defined("a.b", "en", "X2", "locales/en.json"),
    ];
    let written = extract_definitions("app", &defined_keys, &vec!["a.b".to_string()]).unwrap();
    assert_eq!(written.len(), 1);
    assert_eq!(written[0].path, "app/locales/en.json");
    assert_eq!(written[0].content, "{\n  \"a\": {\n    \"b\": \"X2\"\n  }\n}");
}

#[test]
fn formatting_a_file_without_a_known_extension_fails() {
    let defined_keys = vec![defined("a", "en", "1", "locales/en.ini")];
    let error = format_definitions("app", &defined_keys, &vec!["a".to_string()]).unwrap_err();
    assert!(matches!(error, AuditError::UnsupportedExtension { ref extension } if extension == "ini"));
}

#[test]
fn audit_runs_scan_parse_and_analysis() {
    let sources = vec![source("app/src/main.rs", "fn main() {\n    t!(\"used\");\n    t!(\"missing\");\n}")];
    let catalogs = vec![catalog("app/locales/en.json", r#"{"used": "U", "dead": "D", "gone": "G"}"#)];
    let outcome = run_audit_command(&config(), &sources, &catalogs).unwrap();
    assert_eq!(outcome.result.total_keys, 3);
    assert_eq!(outcome.result.total_unused, 2);
    assert_eq!(outcome.result.unused_basis_points, 6666);
    assert_eq!(outcome.result.total_missing, 1);
    assert_eq!(outcome.result.missing_keys[0].key, "missing");
    assert_eq!(outcome.result.missing_keys[0].line_number, 3);
    assert!(outcome.threshold_exceeded);

    let mut lenient = config();
    lenient.threshold_basis_points = 7000;
    assert!(!run_audit_command(&lenient, &sources, &catalogs).unwrap().threshold_exceeded);

    let broken = vec![catalog("app/locales/en.json", "{")];
    assert!(matches!(run_audit_command(&config(), &sources, &broken), Err(AuditError::Parse { .. })));
}

#[test]
fn extract_and_format_commands_rewrite_every_catalog() {
    let sources = vec![source("app/src/main.rs", "let k = \"dyn\";\nt!(\"b\");\nt!(\"a.x\");\nt!(k);")];
    let catalogs = vec![
        catalog("app/locales/en.json", r#"{"a": {"x": "AX", "y": "AY"}, "dyn": "D"}"#),
        catalog("app/locales/de.yml", "b: B\n"),
    ];
    let extracted = run_extract_command(&config(), &sources, &catalogs).unwrap();
    assert_eq!(extracted.len(), 2);
    assert_eq!(extracted[0].path, "app/locales/en.json");
    assert_eq!(extracted[0].content, "{\n  \"a\": {\n    \"x\": \"AX\"\n  }\n}");
    assert_eq!(extracted[1].path, "app/locales/de.yml");
    assert_eq!(extracted[1].content, "b: B\n");

    let formatted = run_format_command(&config(), &sources, &catalogs).unwrap();
    assert_eq!(formatted.len(), 2);
    assert_eq!(formatted[0].content, "{\n  \"a\": {\n    \"x\": \"AX\"\n  },\n  \"b\": \"\"\n}");
    assert_eq!(formatted[1].content, "a:\n  x: ''\nb: B\n");
}
