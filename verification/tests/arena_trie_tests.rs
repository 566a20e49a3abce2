use rust_trie::ArenaTrie;

#[test]
fn arena_trie_can_search_for_term() {
    let search_term = "Foo";
    let mut trie = ArenaTrie::new();
    trie.insert(search_term.to_string());

    assert_eq!(
        Some(search_term.to_string()),
        trie.search(search_term.to_string())
    );
}

#[test]
fn arena_trie_can_search_for_term_with_score() {
    let search_term = "Foo";
    let mut trie = ArenaTrie::new();
    trie.insert_with_score(search_term.to_string(), 10);

    assert_eq!(
        Some(search_term.to_string()),
        trie.search(search_term.to_string())
    );
}

#[test]
fn arena_trie_can_search_for_term_with_similar_entries() {
    let search_term = "Foo";
    let insert_terms = vec!["Foo", "For"];

    let mut trie = ArenaTrie::new();
    for term in insert_terms {
        trie.insert(term.to_string());
    }

    assert_eq!(
        Some(search_term.to_string()),
        trie.search(search_term.to_string())
    );
}

#[test]
fn arena_trie_can_find_starts_with_items() {
    let insert_term = "Foo";
    let mut trie = ArenaTrie::new();
    trie.insert(insert_term.to_string());

    let prefix = "Fo";

    assert_eq!(
        Some(prefix.to_string()),
        trie.starts_with(prefix.to_string())
    );
}

#[test]
fn arena_trie_missing_search_term_returns_none() {
    let insert_term = "Foo";
    let search_term = "Bar";

    let mut trie = ArenaTrie::new();
    trie.insert(insert_term.to_string());

    assert_eq!(None, trie.search(search_term.to_string()));
}

#[test]
fn arena_trie_missing_starts_with_prefix_returns_none() {
    let insert_term = "Foo";
    let prefix = "Ba";

    let mut trie = ArenaTrie::new();
    trie.insert(insert_term.to_string());

    assert_eq!(None, trie.starts_with(prefix.to_string()));
}

#[test]
fn arena_trie_get_ranked_results_uses_score_ordering() {
    let words_and_scores = vec![("Foreign", 10), ("For", 8), ("Foo", 0)];

    let expected_words: Vec<String> = words_and_scores
        .iter()
        .map(|(word, _)| word.to_string())
        .collect();

    let mut trie = ArenaTrie::new();

    for (word, score) in words_and_scores.iter() {
        trie.insert_with_score(word.to_string(), *score);
    }

    let ranked_results = trie.get_ranked_results("Fo".to_string()).unwrap();

    assert_eq!(expected_words, ranked_results);
}
