use rust_trie::trie::Trie;

fn ranked(trie: &Trie, prefix: &str) -> Option<Vec<String>> {
    trie.get_ranked_results(prefix.to_string())
}

#[test]
fn absent_prefix_returns_none_not_empty() {
    let mut trie = Trie::new();
    trie.insert_with_score("Foreign".to_string(), 10);
    trie.insert_with_score("For".to_string(), 8);
    trie.insert_with_score("Foo".to_string(), 0);

    assert_eq!(None, ranked(&trie, "Zz"));
}

#[test]
fn present_prefix_without_completions_returns_empty() {
    let mut trie = Trie::new();
    trie.insert("Foo".to_string());

    assert_eq!(Some(Vec::<String>::new()), ranked(&trie, "Foo"));
}

#[test]
fn reinserted_word_reports_latest_score() {
    let mut trie = Trie::new();
    trie.insert_with_score("Foo".to_string(), 1);
    trie.insert_with_score("Bar".to_string(), 3);
    trie.insert_with_score("Foo".to_string(), 5);

    // "Foo" now outranks "Bar": the second insertion's score won.
    assert_eq!(
        Some(vec!["Foo".to_string(), "Bar".to_string()]),
        ranked(&trie, "")
    );

    // Lowering the score also takes effect at the word itself.
    trie.insert_with_score("Foo".to_string(), 2);
    assert_eq!(
        Some(vec!["Bar".to_string(), "Foo".to_string()]),
        ranked(&trie, "")
    );
}

#[test]
fn insert_without_score_matches_score_zero() {
    let mut plain = Trie::new();
    plain.insert("Foo".to_string());
    plain.insert("For".to_string());

    let mut scored = Trie::new();
    scored.insert_with_score("Foo".to_string(), 0);
    scored.insert_with_score("For".to_string(), 0);

    assert_eq!(
        plain.search("Foo".to_string()),
        scored.search("Foo".to_string())
    );
    assert_eq!(ranked(&plain, "Fo"), ranked(&scored, "Fo"));
}

#[test]
fn equal_scores_tie_break_lexicographically() {
    let mut trie = Trie::new();
    trie.insert_with_score("Bob".to_string(), 5);
    trie.insert_with_score("Bab".to_string(), 5);
    trie.insert_with_score("Bo".to_string(), 5);

    assert_eq!(
        Some(vec![
            "Bab".to_string(),
            "Bo".to_string(),
            "Bob".to_string()
        ]),
        ranked(&trie, "B")
    );
}

#[test]
fn zero_k_means_unbounded() {
    let mut trie = Trie::new();
    trie.insert_with_score("Foreign".to_string(), 10);
    trie.insert_with_score("For".to_string(), 8);
    trie.insert_with_score("Foo".to_string(), 0);

    assert_eq!(
        Some(vec![
            "Foreign".to_string(),
            "For".to_string(),
            "Foo".to_string()
        ]),
        trie.get_k_ranked_results("Fo".to_string(), 0)
    );
}

#[test]
fn k_larger_than_match_count_returns_all() {
    let mut trie = Trie::new();
    trie.insert_with_score("Foreign".to_string(), 10);
    trie.insert_with_score("For".to_string(), 8);

    assert_eq!(
        Some(vec!["Foreign".to_string(), "For".to_string()]),
        trie.get_k_ranked_results("Fo".to_string(), 5)
    );
}

#[test]
fn empty_prefix_ranks_every_word() {
    let mut trie = Trie::new();
    trie.insert_with_score("Foo".to_string(), 1);
    trie.insert_with_score("Bar".to_string(), 7);
    trie.insert_with_score("Baz".to_string(), 4);

    assert_eq!(
        Some(vec![
            "Bar".to_string(),
            "Baz".to_string(),
            "Foo".to_string()
        ]),
        ranked(&trie, "")
    );
}

#[test]
fn bounded_query_keeps_deep_high_scorer() {
    // The early-termination rule must not drop a completion that still
    // beats the k-th best found so far.
    let mut trie = Trie::new();
    trie.insert_with_score("x".to_string(), 10);
    trie.insert_with_score("a".to_string(), 3);
    trie.insert_with_score("ab".to_string(), 9);

    assert_eq!(
        Some(vec!["x".to_string(), "ab".to_string()]),
        trie.get_k_ranked_results("".to_string(), 2)
    );
}

#[test]
fn queries_on_empty_trie_degrade_gracefully() {
    let trie = Trie::new();

    assert_eq!(None, trie.search("Foo".to_string()));
    assert_eq!(None, trie.starts_with("F".to_string()));
    assert_eq!(None, ranked(&trie, "F"));
    // the empty prefix is anchored at the root, which always exists
    assert_eq!(Some(Vec::<String>::new()), ranked(&trie, ""));
}

#[test]
fn empty_word_round_trips() {
    let mut trie = Trie::new();
    assert_eq!(None, trie.search(String::new()));
    assert_eq!(Some(String::new()), trie.starts_with(String::new()));

    trie.insert(String::new());
    assert_eq!(Some(String::new()), trie.search(String::new()));
    // the empty word is no proper extension of the empty prefix
    assert_eq!(Some(Vec::<String>::new()), ranked(&trie, ""));
}

#[test]
fn non_ascii_words_round_trip() {
    let mut trie = Trie::new();
    trie.insert_with_score("grün".to_string(), 2);
    trie.insert_with_score("größe".to_string(), 7);

    assert_eq!(Some("grün".to_string()), trie.search("grün".to_string()));
    assert_eq!(Some("gr".to_string()), trie.starts_with("gr".to_string()));
    assert_eq!(
        Some(vec!["größe".to_string(), "grün".to_string()]),
        ranked(&trie, "gr")
    );
}

#[test]
fn prefixes_of_inserted_word_all_exist() {
    let mut trie = Trie::new();
    trie.insert("Foreign".to_string());

    for n in 0..=7 {
        let prefix: String = "Foreign".chars().take(n).collect();
        assert_eq!(Some(prefix.clone()), trie.starts_with(prefix));
    }
    // an inner prefix is a path but not a word
    assert_eq!(None, trie.search("Fore".to_string()));
}

#[test]
fn negative_scores_rank_below_zero_scores() {
    let mut trie = Trie::new();
    trie.insert_with_score("An".to_string(), -4);
    trie.insert_with_score("Am".to_string(), 0);

    assert_eq!(
        Some(vec!["Am".to_string(), "An".to_string()]),
        ranked(&trie, "A")
    );
}

#[test]
fn final_node_with_descendants_keeps_expanding() {
    // a shorter word on the path of a longer one: both are reported
    let mut trie = Trie::new();
    trie.insert_with_score("for".to_string(), 1);
    trie.insert_with_score("forward".to_string(), 2);

    assert_eq!(
        Some(vec!["forward".to_string(), "for".to_string()]),
        ranked(&trie, "f")
    );
}
