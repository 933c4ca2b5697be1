use rshell::trie::Trie;

#[test]
fn trie_query_returns_words_with_prefix() {
    let mut tr = Trie::new();

    tr.insert("Hi mom");
    tr.insert("Hi mother");
    tr.insert("Hi father");
    tr.insert("apple");

    let mut found = tr.with_prefix("Hi mo");
    found.sort();
    assert_eq!(found, vec!["Hi mom".to_string(), "Hi mother".to_string()]);
}

#[test]
fn trie_empty_prefix_gives_nothing() {
    let mut tr = Trie::new();
    tr.insert("echo");
    assert!(tr.with_prefix("").is_empty());
}

#[test]
fn trie_missing_prefix_gives_nothing() {
    let mut tr = Trie::new();
    tr.insert("echo");
    assert!(tr.with_prefix("x").is_empty());
    assert!(tr.with_prefix("echoes").is_empty());
}

#[test]
fn trie_insert_is_idempotent() {
    let mut tr = Trie::new();
    tr.insert("cd");
    tr.insert("cd");
    assert_eq!(tr.with_prefix("c"), vec!["cd".to_string()]);
}

#[test]
fn trie_prefix_that_is_a_word() {
    let mut tr = Trie::new();
    tr.insert("git");
    tr.insert("gitk");
    let mut found = tr.with_prefix("git");
    found.sort();
    assert_eq!(found, vec!["git".to_string(), "gitk".to_string()]);
}

#[test]
fn collect_words_prepends_prefix() {
    let mut tr = Trie::new();
    tr.insert("ab");
    tr.insert("c");
    let mut res = vec!["x".to_string()];
    Trie::collect_words(&tr, "p-", &mut res);
    assert_eq!(res[0], "x");
    let mut rest = res[1..].to_vec();
    rest.sort();
    assert_eq!(rest, vec!["p-ab".to_string(), "p-c".to_string()]);
}
