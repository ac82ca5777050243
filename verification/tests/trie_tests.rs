use trie::Trie;

#[test]
fn test_trie_insert() {
    let mut my_trie = Trie::new();
    let result = my_trie.insert("Hello");
    assert_eq!(result, "Hello");
}

#[test]
fn test_trie_contains() {
    let mut my_trie = Trie::new();
    my_trie.insert("Hello");
    assert_eq!(my_trie.contains("Hello"), true);
}

#[test]
fn test_trie_starts_with() {
    let mut my_trie = Trie::new();
    my_trie.insert("Hello");
    assert_eq!(my_trie.starts_with("He"), true);
}

#[test]
fn insert_makes_word_contained() {
    let mut t = Trie::new();
    t.insert("water");
    assert!(t.contains("water"));
}

#[test]
fn proper_prefix_is_path_but_not_word() {
    let mut t = Trie::new();
    t.insert("water");
    assert!(!t.contains("w"));
    assert!(!t.contains("wat"));
    assert!(!t.contains("wate"));
    assert!(t.starts_with("w"));
    assert!(t.starts_with("wat"));
    assert!(t.starts_with("wate"));
}

#[test]
fn every_prefix_answers_starts_with() {
    let mut t = Trie::new();
    t.insert("water");
    assert!(t.starts_with(""));
    assert!(t.starts_with("water"));
}

#[test]
fn double_insert_is_idempotent() {
    let mut t = Trie::new();
    t.insert("dog");
    t.insert("dog");
    assert!(t.contains("dog"));
    assert!(!t.contains("do"));
    assert!(!t.contains("dogs"));
    assert!(t.starts_with("do"));
    assert!(t.starts_with("dog"));
    assert!(!t.starts_with("dogs"));
}

#[test]
fn fresh_trie_baseline() {
    let t = Trie::new();
    assert!(!t.contains("a"));
    assert!(!t.contains("hello"));
    assert!(t.starts_with(""));
}

#[test]
fn disjoint_prefix_independence() {
    let mut t = Trie::new();
    t.insert("cat");
    assert!(t.contains("cat"));
    assert!(!t.contains("ca"));
    assert!(!t.contains("car"));
    assert!(!t.starts_with("dog"));
}

#[test]
fn hello_scenario() {
    let mut t = Trie::new();
    t.insert("Hello");
    assert_eq!(t.contains("Hello"), true);
    assert_eq!(t.contains("Hell"), false);
    assert_eq!(t.starts_with("He"), true);
    assert_eq!(t.starts_with("Help"), false);
}

#[test]
fn nested_words_scenario() {
    let mut t = Trie::new();
    t.insert("a");
    t.insert("ab");
    assert_eq!(t.contains("a"), true);
    assert_eq!(t.contains("ab"), true);
    assert_eq!(t.contains("abc"), false);
    assert_eq!(t.starts_with("ab"), true);
    assert_eq!(t.starts_with("abc"), false);
}

#[test]
fn empty_word_scenario() {
    let mut t = Trie::new();
    t.insert("");
    assert_eq!(t.contains(""), true);

    let fresh = Trie::new();
    assert_eq!(fresh.contains(""), false);
}

#[test]
fn empty_word_beside_other_words() {
    let mut t = Trie::new();
    t.insert("");
    t.insert("x");
    assert!(t.contains(""));
    assert!(t.contains("x"));
    assert!(!t.contains("y"));
}

#[test]
fn insert_echoes_word() {
    let mut t = Trie::new();
    assert_eq!(t.insert(""), "");
    assert_eq!(t.insert("héllo"), "héllo");
}

#[test]
fn traversal_is_per_code_point() {
    let mut t = Trie::new();
    t.insert("héllo");
    assert!(t.contains("héllo"));
    assert!(t.starts_with("hé"));
    assert!(!t.contains("hé"));
    assert!(!t.starts_with("hello"));
}

#[test]
fn shared_prefix_words_coexist() {
    let mut t = Trie::new();
    t.insert("car");
    t.insert("cat");
    assert!(t.contains("car"));
    assert!(t.contains("cat"));
    assert!(!t.contains("ca"));
    assert!(t.starts_with("ca"));
}
