//! A prefix tree (trie) for strings, with verified insertion, membership
//! lookup, prefix completion, and removal with cascading pruning of
//! now-empty branches.

mod iter;
mod lemmas;
mod node;
mod order;
mod removal;
mod strutil;
mod trie;

pub use iter::TrieIter;
pub use trie::Trie;
pub use trie::all_but;
pub use trie::built_words;
pub use trie::common_len;
pub use trie::enum_before;
pub use trie::splice_pos;
pub use trie::with_prefix;
pub use trie::words_after_insert;
