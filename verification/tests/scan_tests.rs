use i18n_audit::scanner::{
    dedup_used_keys, is_source_file, process_dynamic_key, scan_file_content, scan_source_code, SourceFile,
    UsedKey,
};

fn scan(content: &str) -> Vec<UsedKey> {
    let mut used_keys = Vec::new();
    scan_file_content(content, "file.rs", &mut used_keys).unwrap();
    used_keys
}

fn keys(used: &[UsedKey]) -> Vec<(&str, bool, usize)> {
    used.iter().map(|k| (k.key.as_str(), k.is_literal, k.line_number)).collect()
}

#[test]
fn two_literal_calls_in_one_file() {
    let used = scan("t!(\"greetings.hello\")\nt!(\"greetings.goodbye\")");
    assert_eq!(keys(&used), vec![("greetings.hello", true, 1), ("greetings.goodbye", true, 2)]);
    assert_eq!(used[0].file_path, "file.rs");
    assert_eq!(used[1].file_path, "file.rs");
}

#[test]
fn two_literal_calls_with_arguments_on_one_line() {
    let used = scan(r#"t!("first", a = 1); t!("second", b = 2);"#);
    assert_eq!(keys(&used), vec![("first", true, 1), ("second", true, 1)]);
}

#[test]
fn variable_resolves_to_the_bound_value() {
    let used = scan("let key = \"dynamic.key\"; t!(key);");
    assert!(used.is_empty(), "a binding on the line of the call is not above it");
    let used = scan("let key = \"dynamic.key\";\nt!(key);");
    assert_eq!(keys(&used), vec![("dynamic.key", false, 2)]);
}

#[test]
fn the_closest_binding_above_wins() {
    let used = scan("let key = \"far\";\nlet key = \"near\";\nlet other = \"x\";\nt!(key);\nlet key = \"below\";");
    assert_eq!(keys(&used), vec![("near", false, 4)]);
}

#[test]
fn a_binding_more_than_twenty_lines_above_is_not_found() {
    let mut content = String::from("let key = \"too.far\";\n");
    for _ in 0..20 {
        content.push_str("// filler\n");
    }
    content.push_str("t!(key);\n");
    assert!(scan(&content).is_empty());

    let mut content = String::from("let key = \"just.in.reach\";\n");
    for _ in 0..19 {
        content.push_str("// filler\n");
    }
    content.push_str("t!(key);\n");
    assert_eq!(keys(&scan(&content)), vec![("just.in.reach", false, 21)]);
}

#[test]
fn a_variable_without_a_binding_adds_nothing() {
    assert!(scan("fn f(key: &str) {\n    t!(key);\n}").is_empty());
}

#[test]
fn a_call_with_a_format_pattern_is_a_dynamic_key() {
    let used = scan(r#"let label = t!(&format!("item.{}.name", id));"#);
    assert_eq!(keys(&used), vec![("item.{}.name", false, 1)]);
    let used = scan(r#"let k = format!("menu.{}", id); let label = t!(k);"#);
    assert_eq!(keys(&used), vec![("menu.{}", false, 1)]);
}

#[test]
fn other_macros_are_no_calls() {
    assert!(scan(r#"let formatted_key = format!("content.{}.item.{}", section, id);"#).is_empty());
    assert!(scan(r#"print!("not a key"); assert!(ok); my_t!("neither");"#).is_empty());
}

#[test]
fn literal_then_variable_then_format_on_one_line() {
    let used = scan("let v = \"bound\";\nt!(v); t!(\"lit\", n = 1); format!(\"p.{}\", 1);");
    assert_eq!(keys(&used), vec![("lit", true, 2), ("bound", false, 2), ("p.{}", false, 2)]);
}

#[test]
fn namespaced_line_is_scanned_for_namespaced_calls_only() {
    let used = scan("let v = \"bound\";\nrust_i18n::t!(\"a.b\", x = 1); rust_i18n::t!(v); t!(\"plain\");");
    assert_eq!(keys(&used), vec![("a.b", true, 2), ("bound", false, 2)]);
}

#[test]
fn lines_end_at_line_feeds_and_carriage_returns_are_dropped() {
    let used = scan("t!(\"one\")\r\n\r\nt!(\"three\")\nt!(\"four\")");
    assert_eq!(keys(&used), vec![("one", true, 1), ("three", true, 3), ("four", true, 4)]);
}

#[test]
fn scanning_appends_and_keeps_duplicates() {
    let mut used_keys = vec![UsedKey {
        key: "before".to_string(),
        is_literal: true,
        file_path: "old.rs".to_string(),
        line_number: 9,
    }];
    scan_file_content("t!(\"a\");\nt!(\"a\");", "new.rs", &mut used_keys).unwrap();
    assert_eq!(keys(&used_keys), vec![("before", true, 9), ("a", true, 1), ("a", true, 2)]);
    assert_eq!(used_keys[1].file_path, "new.rs");
}

#[test]
fn process_dynamic_key_looks_above_the_call() {
    let lines: Vec<String> = vec!["let name = \"x.y\";", "let other = \"o\";", "t!(name)"]
        .into_iter()
        .map(|l| l.to_string())
        .collect();
    let mut used_keys = Vec::new();
    process_dynamic_key("name", &lines, 2, "f.rs", &mut used_keys).unwrap();
    assert_eq!(keys(&used_keys), vec![("x.y", false, 3)]);
    process_dynamic_key("name", &lines, 0, "f.rs", &mut used_keys).unwrap();
    assert_eq!(used_keys.len(), 1);
    let error = process_dynamic_key("na(me", &lines, 2, "f.rs", &mut used_keys);
    assert!(error.is_err());
    assert_eq!(used_keys.len(), 1);
    assert!(process_dynamic_key("na(me", &lines, 0, "f.rs", &mut used_keys).is_ok());
}

#[test]
fn of_each_key_the_first_use_stays() {
    let used = vec![
        UsedKey { key: "a".to_string(), is_literal: false, file_path: "1.rs".to_string(), line_number: 1 },
        UsedKey { key: "b".to_string(), is_literal: true, file_path: "1.rs".to_string(), line_number: 2 },
        UsedKey { key: "a".to_string(), is_literal: true, file_path: "2.rs".to_string(), line_number: 3 },
        UsedKey { key: "c".to_string(), is_literal: true, file_path: "2.rs".to_string(), line_number: 4 },
        UsedKey { key: "b".to_string(), is_literal: true, file_path: "3.rs".to_string(), line_number: 5 },
    ];
    let unique = dedup_used_keys(&used);
    assert_eq!(keys(&unique), vec![("a", false, 1), ("b", true, 2), ("c", true, 4)]);
    assert_eq!(unique[0].file_path, "1.rs");
}

#[test]
fn only_source_files_are_scanned() {
    assert!(is_source_file("src/main.rs"));
    assert!(is_source_file("a.b.rs"));
    assert!(!is_source_file("src/main.rs.bak"));
    assert!(!is_source_file("src/.rs"));
    assert!(!is_source_file("src/rs"));
    assert!(!is_source_file("notes.txt"));
    let files = vec![
        SourceFile { path: "src/a.rs".to_string(), content: "t!(\"x\");\nt!(\"y\");".to_string() },
        SourceFile { path: "src/notes.md".to_string(), content: "t!(\"not.scanned\")".to_string() },
        SourceFile { path: "src/b.rs".to_string(), content: "t!(\"y\");\nt!(\"z\");".to_string() },
    ];
    let used = scan_source_code(&files).unwrap();
    let found: Vec<(&str, &str, usize)> =
        used.iter().map(|k| (k.key.as_str(), k.file_path.as_str(), k.line_number)).collect();
    assert_eq!(found, vec![("x", "src/a.rs", 1), ("y", "src/a.rs", 2), ("z", "src/b.rs", 2)]);
}
