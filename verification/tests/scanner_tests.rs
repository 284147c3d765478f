use i18n_audit::scanner::{scan_file_content, UsedKey};

#[test]
fn test_scan_file_content_standard_t_macro() {
    let content = r#"
        fn main() {
            println!("测试: {}", t!("greetings.hello"));
            println!("再见: {}", t!("greetings.goodbye"));
        }
        "#;
    let mut used_keys = Vec::new();

    scan_file_content(content, "test.rs", &mut used_keys).unwrap();

    assert_eq!(used_keys.len(), 2);
    assert_eq!(used_keys[0].key, "greetings.hello");
    assert_eq!(used_keys[1].key, "greetings.goodbye");
}

#[test]
fn test_scan_file_content_namespaced_t_macro() {
    let content = r#"
        fn main() {
            println!("测试: {}", rust_i18n::t!("greetings.hello"));
            println!("欢迎: {}", rust_i18n::t!("user.welcome", name = "张三"));
        }
        "#;
    let mut used_keys = Vec::new();

    scan_file_content(content, "test.rs", &mut used_keys).unwrap();

    println!("找到的键:");
    for (i, key) in used_keys.iter().enumerate() {
        println!("  {}: {} ({})", i, key.key, key.file_path);
    }

    assert_eq!(used_keys.len(), 2, "应该只找到2个键，但找到了{}个", used_keys.len());

    let keys: Vec<String> = used_keys.iter().map(|k| k.key.clone()).collect();
    assert!(keys.contains(&"greetings.hello".to_string()), "未检测到 greetings.hello");
    assert!(keys.contains(&"user.welcome".to_string()), "未检测到 user.welcome");
}

#[test]
fn test_scan_file_content_dynamic_key() {
    let content = r#"
        fn main() {
            let key = "dynamic.key";
            println!("动态键: {}", t!(key));
        }
        "#;
    let mut used_keys = Vec::new();

    scan_file_content(content, "test.rs", &mut used_keys).unwrap();

    assert_eq!(used_keys.len(), 1);
    assert_eq!(used_keys[0].key, "dynamic.key");
    assert_eq!(used_keys[0].is_literal, false);
}

#[test]
fn test_scan_file_content_with_params() {
    let content = r#"
        fn main() {
            println!("欢迎: {}", t!("user.welcome", name = "张三"));
            println!("条目: {}", t!("content.section.item.123", count = 5));
        }
        "#;
    let mut used_keys = Vec::new();

    scan_file_content(content, "test.rs", &mut used_keys).unwrap();

    assert_eq!(used_keys.len(), 2);
    assert_eq!(used_keys[0].key, "user.welcome");
    assert_eq!(used_keys[1].key, "content.section.item.123");
}

#[test]
fn test_scan_rust_i18n_example() {
    let content = r#"
        use rust_i18n::t;

        // 初始化翻译
        rust_i18n::i18n!("../locales");

        fn main() {
            // 设置当前语言
            rust_i18n::set_locale("zh-CN");
            
            // 示例 1: 使用字面量键
            println!("问候: {}", t!("greetings.hello"));
            println!("再见: {}", t!("greetings.goodbye"));
            
            // 示例 2: 带参数的翻译
            println!("欢迎信息: {}", t!("user.welcome", name = "张三"));
            
            // 示例 3: 动态键
            let key = "dynamic.key";
            println!("动态键: {}", t!(key));
            
            // 示例 4: 使用 format! 构建的动态键
            let section = "section";
            let id = 123;
            // 注意：rust-i18n 需要字面量键，因此这里只是示范如何分析这类情况
            let formatted_key = format!("content.{}.item.{}", section, id);
            println!("格式化动态键: {}", t!("content.section.item.123")); // 正确用法，使用字面量
            println!("(假设的动态键实现): {}", formatted_key); // 这里只是打印，不是实际调用 t!()
        }
        "#;

    let mut used_keys = Vec::new();
    scan_file_content(content, "mini_test.rs", &mut used_keys).unwrap();

    assert!(used_keys.len() >= 4, "应当至少检测到4个翻译键，实际检测到: {}", used_keys.len());

    let keys: Vec<String> = used_keys.iter().map(|k| k.key.clone()).collect();

    assert!(keys.contains(&"greetings.hello".to_string()), "未检测到 greetings.hello");
    assert!(keys.contains(&"greetings.goodbye".to_string()), "未检测到 greetings.goodbye");
    assert!(keys.contains(&"user.welcome".to_string()), "未检测到 user.welcome");
    assert!(keys.contains(&"content.section.item.123".to_string()), "未检测到 content.section.item.123");

    let dynamic_keys: Vec<&UsedKey> = used_keys.iter()
        .filter(|k| !k.is_literal)
        .collect();

    assert_eq!(dynamic_keys.len(), 1, "应当检测到1个动态键");
    assert_eq!(dynamic_keys[0].key, "dynamic.key");
}
