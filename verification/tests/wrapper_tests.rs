use rust_trie::TrieNode;
use rust_trie::TrieNodeType;
use rust_trie::helpers::output_wrapper::OutputWrapper;
use rust_trie::helpers::queue_wrapper::QueueWrapper;

/// A little arena spelling "ab", with "ab" a word of score 7 and an
/// aggregate bound of 7 on both nodes of its path.
fn sample_arena() -> Vec<TrieNode> {
    let mut root = TrieNode::new(None);
    root.children.push(('a', 1));

    let mut a = TrieNode::new(Some('a'));
    a.children.push(('b', 2));
    a.node_score = 7;

    let mut b = TrieNode::new(Some('b'));
    b.node_type = TrieNodeType::Final;
    b.word_score = Some(7);
    b.node_score = 7;

    vec![root, a, b]
}

#[test]
fn node_new_is_intermediate_and_unscored() {
    let node = TrieNode::new(Some('x'));
    assert_eq!(Some('x'), node.value);
    assert!(node.children.is_empty());
    assert!(matches!(node.node_type, TrieNodeType::Intermediate));
    assert_eq!(None, node.word_score);
    assert_eq!(0, node.node_score);
}

#[test]
fn node_find_child_picks_the_keyed_entry() {
    let mut node = TrieNode::new(None);
    node.children.push(('a', 1));
    node.children.push(('b', 2));

    assert_eq!(Some(1), node.find_child('a'));
    assert_eq!(Some(2), node.find_child('b'));
    assert_eq!(None, node.find_child('c'));
}

#[test]
fn output_wrapper_joins_the_path_characters() {
    let arena = sample_arena();
    let ow = OutputWrapper { nodes: vec![1, 2] };

    assert_eq!("ab".to_string(), ow.join(&arena));
}

#[test]
fn output_wrapper_scores_by_word_score() {
    let arena = sample_arena();
    let word = OutputWrapper { nodes: vec![1, 2] };
    let inner = OutputWrapper { nodes: vec![1] };
    let empty = OutputWrapper { nodes: vec![] };

    assert_eq!(7, word.output_score(&arena));
    // an intermediate node ends no word, so it scores zero
    assert_eq!(0, inner.output_score(&arena));
    assert_eq!(0, empty.output_score(&arena));
}

#[test]
fn queue_wrapper_scores_by_aggregate_bound() {
    let arena = sample_arena();
    let qw = QueueWrapper { nodes: vec![1] };
    let empty = QueueWrapper { nodes: vec![] };

    assert_eq!(7, qw.output_score(&arena));
    assert_eq!(0, empty.output_score(&arena));
}

#[test]
fn queue_wrapper_walks_children_and_leaf_type() {
    let arena = sample_arena();
    let qw = QueueWrapper { nodes: vec![1] };

    assert_eq!(Some(vec![('b', 2)]), qw.children(&arena));
    assert!(matches!(
        qw.leaf_type(&arena),
        Some(TrieNodeType::Intermediate)
    ));

    let deeper = qw.new_with_node(2);
    assert_eq!(vec![1, 2], deeper.nodes);
    assert_eq!(Some(2), deeper.last());
    assert!(matches!(deeper.leaf_type(&arena), Some(TrieNodeType::Final)));

    let empty = QueueWrapper { nodes: vec![] };
    assert_eq!(None, empty.children(&arena));
    assert_eq!(None, empty.leaf_type(&arena));
    assert_eq!(None, empty.last());
}

#[test]
fn wrappers_convert_into_each_other() {
    let arena = sample_arena();
    let qw = QueueWrapper { nodes: vec![1, 2] };

    let ow = qw.to_output_wrapper();
    assert_eq!(vec![1, 2], ow.nodes);
    assert_eq!(Some(2), ow.last());
    assert_eq!(7, ow.output_score(&arena));

    let back = ow.to_queue_wrapper();
    assert_eq!(vec![1, 2], back.nodes);
}
