use std::sync::Arc;
use syntax_map::language::{InjectionConfig, LanguageDef, LanguageRegistry};

fn language(name: &str) -> Arc<LanguageDef> {
    Arc::new(LanguageDef { name: name.to_string(), grammar: None })
}

#[test]
fn a_language_is_found_by_its_name() {
    let mut registry = LanguageRegistry::new();
    assert!(registry.get_language(b"rust").is_none());
    let rust = language("rust");
    let other_rust = language("rust");
    let sql = language("sql");
    registry.add(rust.clone());
    registry.add(sql.clone());
    registry.add(other_rust.clone());

    assert!(Arc::ptr_eq(&registry.get_language(b"rust").unwrap(), &rust));
    assert!(Arc::ptr_eq(&registry.get_language(b"sql").unwrap(), &sql));
    assert!(registry.get_language(b"Rust").is_none());
    assert!(registry.get_language(b"rus").is_none());
    assert!(registry.get_language(b"").is_none());
}

#[test]
fn a_name_may_hold_more_than_one_byte_per_letter() {
    let mut registry = LanguageRegistry::new();
    registry.add(language("naïve"));
    assert!(registry.get_language("naïve".as_bytes()).is_some());
    assert!(registry.get_language(b"naive").is_none());
}

fn config(languages_by_pattern_ix: Vec<Option<String>>) -> InjectionConfig {
    InjectionConfig {
        query: tree_sitter::Query::new(tree_sitter_rust::language(), "(identifier) @content").unwrap(),
        content_capture_ix: 0,
        language_capture_ix: None,
        languages_by_pattern_ix,
    }
}

#[test]
fn the_pattern_names_the_language_before_the_text_does() {
    let mut registry = LanguageRegistry::new();
    registry.add(language("rust"));
    registry.add(language("sql"));
    let config = config(vec![Some("rust".to_string()), None, Some("none".to_string())]);
    let text = b"use sql here".to_vec();
    let name = |pattern, node| {
        config
            .language_for_match(pattern, node, &text, &registry)
            .map(|language| language.name.clone())
    };

    assert_eq!(name(0, None), Some("rust".to_string()));
    assert_eq!(name(0, Some((4, 7))), Some("rust".to_string()));
    assert_eq!(name(1, Some((4, 7))), Some("sql".to_string()));
    assert_eq!(name(1, Some((4, 8))), None);
    assert_eq!(name(1, None), None);
    assert_eq!(name(2, Some((4, 7))), None);
    // A pattern beyond those that the configuration lists has no name of its own.
    assert_eq!(name(3, Some((4, 7))), Some("sql".to_string()));
    assert_eq!(name(3, None), None);
    // A stretch that is none.
    assert_eq!(name(1, Some((7, 4))), None);
    assert_eq!(name(1, Some((4, 99))), None);
}
