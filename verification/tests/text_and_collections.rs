use epistemos_labs::collections::{TextMap, TextSet};
use epistemos_labs::text::trimmed;
use epistemos_labs::tokens::{shared_count, tokens};

#[test]
fn tokens_are_lower_cased_alphanumeric_runs_once_each() {
    assert_eq!(words("Hello, WORLD hello!"), vec!["hello", "world"]);
    assert_eq!(tokens(" ,;").len(), 0);
    assert_eq!(words("ÄBC-déf"), vec!["déf", "äbc"]);
}

fn words(text: &str) -> Vec<String> {
    tokens(text).items().to_vec()
}

#[test]
fn shared_count_counts_common_tokens() {
    let q = tokens("alpha beta gamma");
    let d = tokens("Gamma alpha delta");
    assert_eq!(shared_count(&q, &d), 2);
}

#[test]
fn tokens_follow_unicode_case_and_letters() {
    assert_eq!(words("MiXeD Ünïcode-7x"), vec!["7x", "mixed", "ünïcode"]);
    assert_eq!(words("a_b"), vec!["a", "b"]);
}

#[test]
fn trimmed_drops_outer_white_space() {
    assert_eq!(trimmed("\t  x y \n"), vec!['x', ' ', 'y']);
    assert!(trimmed("   ").is_empty());
}

#[test]
fn text_set_keeps_sorted_unique_texts() {
    let mut set = TextSet::from_vec(vec!["b".into(), "a".into(), "b".into()]);
    assert_eq!(set.items(), &["a".to_string(), "b".to_string()]);
    assert_eq!(set.len(), 2);
    assert!(set.insert("c".into()));
    assert!(!set.insert("a".into()));
    assert!(set.contains("c"));
    assert!(!set.contains("z"));
}

#[test]
fn text_map_replaces_and_reports_old_values() {
    let mut map = TextMap::new();
    assert_eq!(map.insert("k".into(), "1".into()), None);
    assert_eq!(map.insert("k".into(), "2".into()), Some("1".to_string()));
    assert_eq!(map.get("k"), Some(&"2".to_string()));
    assert!(map.contains_key("k"));
    assert!(!map.contains_key("j"));
    let built = TextMap::from_pairs(vec![("b".into(), "x".into()), ("a".into(), "y".into()), ("b".into(), "z".into())]);
    assert_eq!(
        built.entries(),
        &[("a".to_string(), "y".to_string()), ("b".to_string(), "z".to_string())]
    );
}
