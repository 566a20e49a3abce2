use rust_trie::trie::Trie;

#[test]
fn trie_can_search_for_term() {
    let search_term = "Foo";
    let mut trie = Trie::new();
    trie.insert(search_term.to_string());

    assert_eq!(
        Some(search_term.to_string()),
        trie.search(search_term.to_string())
    );
}

#[test]
fn trie_can_search_for_term_with_score() {
    let search_term = "Foo";
    let mut trie = Trie::new();
    trie.insert_with_score(search_term.to_string(), 10);

    assert_eq!(
        Some(search_term.to_string()),
        trie.search(search_term.to_string())
    );
}

#[test]
fn trie_can_search_for_term_with_similar_entries() {
    let search_term = "Foo";
    let insert_terms = vec!["Foo", "For"];

    let mut trie = Trie::new();
    for term in insert_terms {
        trie.insert(term.to_string());
    }

    assert_eq!(
        Some(search_term.to_string()),
        trie.search(search_term.to_string())
    );
}

#[test]
fn trie_can_find_starts_with_items() {
    let insert_term = "Foo";
    let mut trie = Trie::new();
    trie.insert(insert_term.to_string());

    let prefix = "Fo";

    assert_eq!(
        Some(prefix.to_string()),
        trie.starts_with(prefix.to_string())
    );
}

#[test]
fn trie_missing_search_term_returns_none() {
    let insert_term = "Foo";
    let search_term = "Bar";

    let mut trie = Trie::new();
    trie.insert(insert_term.to_string());

    assert_eq!(None, trie.search(search_term.to_string()));
}

#[test]
fn trie_missing_starts_with_prefix_returns_none() {
    let insert_term = "Foo";
    let prefix = "Ba";

    let mut trie = Trie::new();
    trie.insert(insert_term.to_string());

    assert_eq!(None, trie.starts_with(prefix.to_string()));
}

#[test]
fn trie_get_ranked_results_uses_score_ordering() {
    let words_and_scores = vec![("Foreign", 10), ("For", 8), ("Foo", 0)];

    let expected_words: Vec<String> = words_and_scores
        .iter()
        .map(|(word, _)| word.to_string())
        .collect();

    let mut trie = Trie::new();

    for (word, score) in words_and_scores.iter() {
        trie.insert_with_score(word.to_string(), *score);
    }

    let ranked_results = trie.get_ranked_results("Fo".to_string()).unwrap();

    assert_eq!(expected_words, ranked_results);
}

#[test]
fn get_k_ranked_results_returns_correct_count() {
    let words_and_scores = vec![("Foreign", 10), ("For", 8), ("Foo", 0)];

    let expected_words: Vec<String> = words_and_scores
        .iter()
        .map(|(word, _)| word.to_string())
        .collect::<Vec<String>>()[..2]
        .to_vec();

    let mut trie = Trie::new();

    for (word, score) in words_and_scores.iter() {
        trie.insert_with_score(word.to_string(), *score);
    }

    let ranked_results = trie.get_k_ranked_results("Fo".to_string(), 2).unwrap();

    assert_eq!(expected_words[..2], ranked_results);
}
