use i18n_audit::catalog::{unflatten, CatalogEntry, CatalogValue};
use i18n_audit::flat::{lex_less, FlatCatalog};
use i18n_audit::parser::{extract_keys_from_map, write_translation_file, DefinedKey};
use i18n_audit::error::AuditError;

fn catalog(entries: &[(&str, &str)]) -> FlatCatalog {
    let mut catalog = FlatCatalog::new();
    for (key, value) in entries {
        catalog.insert(key.to_string(), value.to_string());
    }
    catalog
}

fn pairs(catalog: &FlatCatalog) -> Vec<(String, String)> {
    catalog.entries().iter().map(|e| (e.key.clone(), e.value.clone())).collect()
}

fn pair(key: &str, value: &str) -> (String, String) {
    (key.to_string(), value.to_string())
}

fn flatten(tree: &CatalogValue) -> Vec<(String, String)> {
    let mut defined: Vec<DefinedKey> = Vec::new();
    match tree {
        CatalogValue::Table(entries) => extract_keys_from_map(entries, "", "xx", "f.json", &mut defined),
        CatalogValue::Text(_) => {}
    }
    defined.into_iter().map(|d| (d.key, d.value)).collect()
}

#[test]
fn strings_are_ordered_character_by_character() {
    assert!(lex_less("a", "b"));
    assert!(!lex_less("b", "a"));
    assert!(!lex_less("a", "a"));
    assert!(lex_less("", "a"));
    assert!(!lex_less("a", ""));
    assert!(lex_less("a", "a.b"));
    assert!(lex_less("a-b.c", "a.b"));
    assert!(lex_less("Z", "a"));
    assert!(lex_less("z", "é"));
    assert!(lex_less("é", "好"));
}

#[test]
fn entries_are_kept_in_the_order_of_their_keys() {
    let catalog = catalog(&[("b", "2"), ("a.z", "1"), ("c", "3"), ("a", "0")]);
    assert_eq!(pairs(&catalog), vec![pair("a", "0"), pair("a.z", "1"), pair("b", "2"), pair("c", "3")]);
    assert_eq!(catalog.len(), 4);
}

#[test]
fn a_key_put_in_again_gets_the_new_text() {
    let catalog = catalog(&[("a", "old"), ("b", "B"), ("a", "new")]);
    assert_eq!(pairs(&catalog), vec![pair("a", "new"), pair("b", "B")]);
    assert_eq!(catalog.get(&"a".to_string()), Some(&"new".to_string()));
    assert_eq!(catalog.get(&"zz".to_string()), None);
    assert_eq!(catalog.position(&"b".to_string()), Some(1));
}

#[test]
fn unflatten_builds_tables_in_the_order_of_their_names() {
    let tree = unflatten(&catalog(&[("login.title", "T"), ("common.ok", "OK"), ("common.cancel", "C"), ("top", "X")]));
    match tree {
        CatalogValue::Table(entries) => {
            let names: Vec<&str> = entries.iter().map(|e| e.name.as_deref().unwrap()).collect();
            assert_eq!(names, vec!["common", "login", "top"]);
            match &entries[0].value {
                CatalogValue::Table(inner) => {
                    let inner_names: Vec<&str> = inner.iter().map(|e| e.name.as_deref().unwrap()).collect();
                    assert_eq!(inner_names, vec!["cancel", "ok"]);
                }
                CatalogValue::Text(_) => panic!("common is a table"),
            }
            assert!(matches!(&entries[2].value, CatalogValue::Text(text) if text == "X"));
        }
        CatalogValue::Text(_) => panic!("the root is a table"),
    }
}

#[test]
fn flattening_the_tree_of_a_catalog_gives_the_catalog_back() {
    let entries = [
        ("a.b.c.d.e.f", "deep"),
        ("a.b.x", "1"),
        ("a-b.c", "2"),
        ("plain", "3"),
        ("with..gap", "4"),
        ("trailing.", "5"),
        ("", "empty key"),
        ("z.好.é", "6"),
    ];
    let before = catalog(&entries);
    let tree = unflatten(&before);
    let mut after = FlatCatalog::new();
    for (key, value) in flatten(&tree) {
        after.insert(key, value);
    }
    assert_eq!(pairs(&after), pairs(&before));
    assert_eq!(after.len(), entries.len());
}

#[test]
fn a_key_below_a_leaf_is_left_out_of_the_tree() {
    let tree = unflatten(&catalog(&[("a", "leaf"), ("a.b", "blocked"), ("c", "kept")]));
    assert_eq!(flatten(&tree), vec![pair("a", "leaf"), pair("c", "kept")]);
}

#[test]
fn a_key_that_begins_with_a_dot_comes_back_without_it() {
    let tree = unflatten(&catalog(&[(".b", "x")]));
    assert_eq!(flatten(&tree), vec![pair("b", "x")]);
}

#[test]
fn flatten_skips_entries_without_a_name() {
    let tree = vec![
        CatalogEntry { name: Some("a".to_string()), value: CatalogValue::Text("A".to_string()) },
        CatalogEntry { name: None, value: CatalogValue::Text("lost".to_string()) },
        CatalogEntry {
            name: Some("t".to_string()),
            value: CatalogValue::Table(vec![
                CatalogEntry { name: Some("x".to_string()), value: CatalogValue::Text("X".to_string()) },
                CatalogEntry { name: None, value: CatalogValue::Table(vec![]) },
            ]),
        },
    ];
    let mut defined = Vec::new();
    extract_keys_from_map(&tree, "pre", "en", "en.yml", &mut defined);
    let keys: Vec<(String, String)> = defined.iter().map(|d| (d.key.clone(), d.value.clone())).collect();
    assert_eq!(keys, vec![pair("pre.a", "A"), pair("pre.t.x", "X")]);
}

#[test]
fn file_content_follows_the_extension() {
    let keys = catalog(&[("b.y", "2"), ("a", "1")]);
    assert_eq!(write_translation_file("out/en.json", &keys).unwrap(), "{\n  \"a\": \"1\",\n  \"b\": {\n    \"y\": \"2\"\n  }\n}");
    assert_eq!(write_translation_file("out/en.yml", &keys).unwrap(), "a: '1'\nb:\n  y: '2'\n");
    assert_eq!(write_translation_file("out/en.yaml", &keys).unwrap(), "a: '1'\nb:\n  y: '2'\n");
    assert_eq!(write_translation_file("out/en.toml", &keys).unwrap(), "a = \"1\"\n\n[b]\ny = \"2\"\n");
}

#[test]
fn unsupported_extension_is_an_error() {
    let keys = catalog(&[("a", "1")]);
    let error = write_translation_file("out/en.txt", &keys).unwrap_err();
    assert!(matches!(error, AuditError::UnsupportedExtension { ref extension } if extension == "txt"));
    let error = write_translation_file("out/noextension", &keys).unwrap_err();
    assert!(matches!(error, AuditError::UnsupportedExtension { ref extension } if extension.is_empty()));
}
