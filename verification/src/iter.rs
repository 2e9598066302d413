//! Lazy whole-trie enumeration: an explicit depth-first stack of
//! (node, prefix) frames, producing one word at a time in the same order
//! as the eager enumeration, without building the whole sequence first.

use vstd::prelude::*;

use crate::lemmas::lemma_cw_skip_step;
use crate::node::{TrieNode, children_words, node_words};
use crate::strutil::{chars_to_string, clone_chars};
use crate::trie::{Trie, lemma_trie_words};

verus! {

/// How many nodes the subtree holds; the traversal's termination measure.
pub(crate) open spec fn node_size(n: TrieNode) -> nat
    decreases n, 0int,
{
    1 + children_size(n.children@)
}

pub(crate) open spec fn children_size(cs: Seq<TrieNode>) -> nat
    decreases cs, 1int,
{
    if cs.len() == 0 {
        0
    } else {
        node_size(cs[0]) + children_size(cs.drop_first())
    }
}

/// The words still to be produced: the top frame's subtree first, then the
/// frames below it, each under its own prefix.
pub(crate) open spec fn stack_words(st: Seq<(TrieNode, Vec<char>)>) -> Seq<Seq<char>>
    decreases st.len(),
{
    if st.len() == 0 {
        Seq::<Seq<char>>::empty()
    } else {
        node_words(st.last().0, st.last().1@) + stack_words(st.drop_last())
    }
}

pub(crate) open spec fn stack_size(st: Seq<(TrieNode, Vec<char>)>) -> nat
    decreases st.len(),
{
    if st.len() == 0 {
        0
    } else {
        node_size(st.last().0) + stack_size(st.drop_last())
    }
}

/// Peeling one sibling off the enumerated tail of a sibling sequence.
pub(crate) proof fn lemma_size_skip_step(cs: Seq<TrieNode>, j: int)
    requires
        0 <= j < cs.len(),
    ensures
        children_size(cs.skip(j)) == node_size(cs[j]) + children_size(cs.skip(j + 1)),
{
    assert(cs.skip(j)[0] == cs[j]);
    assert(cs.skip(j).drop_first() =~= cs.skip(j + 1));
}

/// A single-pass producer of the trie's words in enumeration order.
pub struct TrieIter {
    pub(crate) stack: Vec<(TrieNode, Vec<char>)>,
}

impl Trie {
    /// Turns the trie into a lazy producer of its words: the sequence it
    /// yields, one word per call, is exactly the eager enumeration.
    pub fn into_iter(self) -> (it: TrieIter)
        ensures
            it.remaining() == self.words(),
    {
        let ghost orig = self.children@;
        let mut children = self.children;
        let mut stack: Vec<(TrieNode, Vec<char>)> = Vec::new();
        proof {
            assert(orig.skip(orig.len() as int) =~= Seq::<TrieNode>::empty());
        }
        while children.len() > 0
            invariant
                children@ == orig.take(children@.len() as int),
                children@.len() <= orig.len(),
                stack_words(stack@) == children_words(
                    orig.skip(children@.len() as int),
                    Seq::<char>::empty(),
                ),
            decreases children@.len(),
        {
            let ghost m = children@.len() as int;
            let child = children.pop().unwrap();
            let pre: Vec<char> = Vec::new();
            let ghost old_stack = stack@;
            stack.push((child, pre));
            proof {
                assert(children@ =~= orig.take(m - 1));
                assert(child == orig[m - 1]);
                assert(stack@.drop_last() =~= old_stack);
                assert(stack@.last() == (child, pre));
                lemma_cw_skip_step(orig, m - 1, Seq::<char>::empty());
            }
        }
        proof {
            assert(orig.skip(0) =~= orig);
            assert(stack_words(stack@) == children_words(orig, Seq::<char>::empty()));
            lemma_trie_words(self);
        }
        TrieIter { stack }
    }
}

impl TrieIter {
    /// The ordered sequence of words not yet produced.
    pub closed spec fn remaining(self) -> Seq<Seq<char>> {
        stack_words(self.stack@)
    }

    /// Produces the next word of the enumeration, or nothing once every
    /// word has been produced.
    pub fn next(&mut self) -> (r: Option<String>)
        ensures
            match r {
                None => old(self).remaining().len() == 0 && final(self).remaining()
                    == old(self).remaining(),
                Some(s) => old(self).remaining().len() > 0 && s@ == old(self).remaining()[0]
                    && final(self).remaining() == old(self).remaining().drop_first(),
            },
    {
        loop
            invariant
                stack_words(self.stack@) == stack_words(old(self).stack@),
            decreases stack_size(self.stack@),
        {
            if self.stack.len() == 0 {
                return None;
            }
            let ghost popped = self.stack@;
            let frame = self.stack.pop().unwrap();
            let mut node = frame.0;
            let ghost node0 = node;
            let mut word = frame.1;
            let ghost pre = word@;
            word.push(node.value);
            let ghost full = word@;
            let ghost base = self.stack@;
            let ghost nchildren = node.children@;
            proof {
                assert(popped.drop_last() =~= base);
                assert(stack_words(popped) == node_words(node0, pre) + stack_words(base));
                assert(stack_size(popped) == node_size(node0) + stack_size(base));
                assert(nchildren.skip(nchildren.len() as int) =~= Seq::<TrieNode>::empty());
            }
            let produced = node.is_word;
            while node.children.len() > 0
                invariant
                    word@ == full,
                    node.children@ == nchildren.take(node.children@.len() as int),
                    node.children@.len() <= nchildren.len(),
                    stack_words(self.stack@) == children_words(
                        nchildren.skip(node.children@.len() as int),
                        full,
                    ) + stack_words(base),
                    stack_size(self.stack@) == children_size(
                        nchildren.skip(node.children@.len() as int),
                    ) + stack_size(base),
                decreases node.children@.len(),
            {
                let ghost m = node.children@.len() as int;
                let child = node.children.pop().unwrap();
                let ghost old_stack = self.stack@;
                self.stack.push((child, clone_chars(&word)));
                proof {
                    assert(node.children@ =~= nchildren.take(m - 1));
                    assert(child == nchildren[m - 1]);
                    assert(self.stack@.drop_last() =~= old_stack);
                    lemma_cw_skip_step(nchildren, m - 1, full);
                    lemma_size_skip_step(nchildren, m - 1);
                }
            }
            proof {
                assert(nchildren.skip(0) =~= nchildren);
                assert(node_words(node0, pre) == (if node0.is_word {
                    seq![full]
                } else {
                    Seq::<Seq<char>>::empty()
                }) + children_words(nchildren, full));
            }
            if produced {
                let s = chars_to_string(&word);
                proof {
                    let rem = stack_words(old(self).stack@);
                    assert(rem == seq![full] + children_words(nchildren, full) + stack_words(
                        base,
                    ));
                    assert(rem[0] == full);
                    assert(rem.drop_first() =~= children_words(nchildren, full) + stack_words(
                        base,
                    ));
                }
                return Some(s);
            }
            proof {
                assert(Seq::<Seq<char>>::empty() + children_words(nchildren, full)
                    =~= children_words(nchildren, full));
                assert(node_size(node0) == 1 + children_size(nchildren));
            }
        }
    }
}

} // verus!
