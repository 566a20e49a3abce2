//! A ranked prefix-search index.
//!
//! The crate stores scored words in a character trie held in an arena of
//! nodes addressed by index.  It answers exact membership (`search`),
//! prefix existence (`starts_with`) and ranked prefix queries
//! (`get_ranked_results`, `get_k_ranked_results`), the latter by a
//! best-first branch-and-bound traversal pruned with an aggregate score
//! bound kept at every node.
#![verifier::loop_isolation(false)]

pub mod arena_trie;
pub mod helpers;
pub mod paths;
pub mod ranking;
pub mod text;
pub mod trie;
pub mod trie_node;

pub use arena_trie::ArenaTrie;
pub use trie::Trie;
pub use trie_node::TrieNode;
pub use trie_node::TrieNodeType;
