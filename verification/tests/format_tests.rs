use i18n_audit::actions::{extract_keys, format_keys};
use i18n_audit::config::Config;
use i18n_audit::parser::CatalogFile;

fn config() -> Config {
    Config {
        project_path: "project".to_string(),
        src_dir: "src".to_string(),
        locales_dir: "locales".to_string(),
        threshold_basis_points: 2000,
        ignore_pattern: None,
        ignore_todo_files: false,
        verbose: false,
    }
}

fn run_format_test(
    file_a_name: &str,
    file_a_content: &str,
    file_b_name: &str,
    file_b_content: &str,
    master_keys: Vec<String>,
    expected_a_content: &str,
    expected_b_content: &str,
) {
    let files = vec![
        CatalogFile { path: format!("project/locales/{}", file_a_name), content: file_a_content.to_string() },
        CatalogFile { path: format!("project/locales/{}", file_b_name), content: file_b_content.to_string() },
    ];

    let written = format_keys(&config(), &files, &master_keys).unwrap();

    assert_eq!(written.len(), 2);
    assert_eq!(written[0].path, format!("project/locales/{}", file_a_name));
    assert_eq!(written[1].path, format!("project/locales/{}", file_b_name));
    assert_eq!(written[0].content.trim(), expected_a_content.trim());
    assert_eq!(written[1].content.trim(), expected_b_content.trim());

    // A second formatting of what the first wrote changes nothing.
    let again = format_keys(&config(), &written, &master_keys).unwrap();
    assert_eq!(again.len(), 2);
    assert_eq!(again[0].content, written[0].content);
    assert_eq!(again[1].content, written[1].content);
}

fn master_keys() -> Vec<String> {
    vec![
        "common.ok".to_string(),
        "common.cancel".to_string(),
        "login.title".to_string(),
        "login.user_name".to_string(),
    ]
}

#[test]
fn test_format_toml_files_alignment() {
    let en_content = r#"
common.ok = "OK"
common.cancel = "Cancel"
login.title = "Login"
"#;

    let zh_cn_content = r#"
common.ok = "好的"
login.title = "登录"
login.user_name = "用户名"
"#;

    let expected_en_content = r#"
[common]
cancel = "Cancel"
ok = "OK"

[login]
title = "Login"
user_name = ""
"#;

    let expected_zh_cn_content = r#"
[common]
cancel = ""
ok = "好的"

[login]
title = "登录"
user_name = "用户名"
"#;

    run_format_test(
        "en.toml",
        en_content,
        "zh-CN.toml",
        zh_cn_content,
        master_keys(),
        expected_en_content,
        expected_zh_cn_content,
    );
}

#[test]
fn test_format_json_files_alignment() {
    let en_content = r#"{
  "common": {
    "ok": "OK",
    "cancel": "Cancel"
  },
  "login": {
    "title": "Login"
  }
}"#;

    let zh_cn_content = r#"{
  "common": {
    "ok": "好的"
  },
  "login": {
    "title": "登录",
    "user_name": "用户名"
  }
}"#;

    let expected_en_content = r#"{
  "common": {
    "cancel": "Cancel",
    "ok": "OK"
  },
  "login": {
    "title": "Login",
    "user_name": ""
  }
}"#;

    let expected_zh_cn_content = r#"{
  "common": {
    "cancel": "",
    "ok": "好的"
  },
  "login": {
    "title": "登录",
    "user_name": "用户名"
  }
}"#;

    run_format_test(
        "en.json",
        en_content,
        "zh-CN.json",
        zh_cn_content,
        master_keys(),
        expected_en_content,
        expected_zh_cn_content,
    );
}

#[test]
fn test_format_yaml_files_alignment() {
    let en_content = r#"
common:
  ok: OK
  cancel: Cancel
login:
  title: Login
"#;

    let zh_cn_content = r#"
common:
  ok: 好的
login:
  title: 登录
  user_name: 用户名
"#;

    let expected_en_content = r#"
common:
  cancel: Cancel
  ok: OK
login:
  title: Login
  user_name: ''
"#;

    let expected_zh_cn_content = r#"
common:
  cancel: ''
  ok: 好的
login:
  title: 登录
  user_name: 用户名
"#;

    run_format_test(
        "en.yml",
        en_content,
        "zh-CN.yml",
        zh_cn_content,
        master_keys(),
        expected_en_content,
        expected_zh_cn_content,
    );
}

#[test]
fn extract_keeps_only_used_keys() {
    let files = vec![CatalogFile {
        path: "project/locales/en.json".to_string(),
        content: r#"{"a": {"b": "X", "c": "Y"}}"#.to_string(),
    }];
    let written = extract_keys(&config(), &files, &vec!["a.b".to_string()]).unwrap();
    assert_eq!(written.len(), 1);
    assert_eq!(written[0].path, "project/locales/en.json");
    assert_eq!(written[0].content, "{\n  \"a\": {\n    \"b\": \"X\"\n  }\n}");
}

#[test]
fn extract_with_no_used_key_empties_the_file() {
    let files = vec![CatalogFile {
        path: "project/locales/en.yml".to_string(),
        content: "a:\n  b: X\n".to_string(),
    }];
    let written = extract_keys(&config(), &files, &vec!["other".to_string()]).unwrap();
    assert_eq!(written.len(), 1);
    assert_eq!(written[0].content.trim(), "{}");
}

#[test]
fn format_does_not_depend_on_the_order_of_the_master_keys() {
    let files = vec![CatalogFile {
        path: "project/locales/en.json".to_string(),
        content: r#"{"b": "B", "a": {"x": "AX"}}"#.to_string(),
    }];
    let one = format_keys(&config(), &files, &vec!["b".to_string(), "a.x".to_string(), "c".to_string()]).unwrap();
    let two = format_keys(
        &config(),
        &files,
        &vec!["c".to_string(), "a.x".to_string(), "b".to_string(), "c".to_string()],
    )
    .unwrap();
    assert_eq!(one[0].content, two[0].content);
    assert_eq!(one[0].content, "{\n  \"a\": {\n    \"x\": \"AX\"\n  },\n  \"b\": \"B\",\n  \"c\": \"\"\n}");
}
