//! The tree nodes and the specification functions that describe them.
//!
//! A node carries one character (`value`), a flag saying whether the path
//! from the root down to it spells a complete word (`is_word`), and its
//! children, at most one per distinct character, kept in insertion order.

use vstd::prelude::*;

use crate::trie::{all_but, splice_pos};
use crate::lemmas::{
    lemma_cons_eq, lemma_cw_append, lemma_cw_decompose, lemma_cw_take_step,
    lemma_filter_segment_all_kept, lemma_leaf_has, lemma_leaf_words, lemma_link_has,
    lemma_link_words, lemma_same_reflexive, lemma_same_state_nonempty, lemma_update_has,
    lemma_update_same, lemma_wf_leaf, lemma_wf_link,
};
use crate::order::{
    lemma_insert_concat, lemma_splice_append, lemma_splice_bounds, lemma_splice_deep,
    lemma_splice_land,
};
use crate::removal::{
    lemma_clear_flag, lemma_found_absent, lemma_prune_leaf, lemma_step_keep, lemma_step_prune,
};
use crate::strutil::{chars_to_string, clone_chars};

verus! {

#[derive(Debug)]
pub(crate) struct TrieNode {
    pub(crate) children: Vec<TrieNode>,
    pub(crate) value: char,
    pub(crate) is_word: bool,
}

impl Clone for TrieNode {
    /// A deep copy of the subtree; no contract is attached, as none is of
    /// the original's derived clone.
    fn clone(&self) -> (r: Self)
        decreases *self,
    {
        let mut children: Vec<TrieNode> = Vec::new();
        let mut j: usize = 0;
        while j < self.children.len()
            invariant
                j <= self.children@.len(),
            decreases self.children@.len() - j,
        {
            proof {
                assert(decreases_to!(*self => self.children@[j as int]));
            }
            children.push(self.children[j].clone());
            j += 1;
        }
        TrieNode { children, value: self.value, is_word: self.is_word }
    }
}

/// Some sibling in `cs` carries the character `c`.
pub(crate) open spec fn has_value(cs: Seq<TrieNode>, c: char) -> bool {
    exists|i: int| 0 <= i < cs.len() && cs[i].value == c
}

/// The index of the sibling in `cs` that carries `c`; meaningful only when
/// `has_value(cs, c)` holds, and then unique under `distinct_values`.
pub(crate) open spec fn idx_of(cs: Seq<TrieNode>, c: char) -> int {
    choose|i: int| 0 <= i < cs.len() && cs[i].value == c
}

/// No two siblings carry the same character.
pub(crate) open spec fn distinct_values(cs: Seq<TrieNode>) -> bool {
    forall|i: int, j: int| 0 <= i < j < cs.len() ==> cs[i].value != cs[j].value
}

/// Well-formedness of a subtree: siblings are distinct by character at every
/// level, and no node is both non-terminal and childless (removal prunes
/// such nodes away; insertion never creates them).
pub(crate) open spec fn wf_node(n: TrieNode) -> bool
    decreases n,
{
    &&& distinct_values(n.children@)
    &&& (forall|i: int| 0 <= i < n.children@.len() ==> wf_node(#[trigger] n.children@[i]))
    &&& (n.is_word || n.children@.len() > 0)
}

pub(crate) open spec fn wf_children(cs: Seq<TrieNode>) -> bool {
    &&& distinct_values(cs)
    &&& (forall|i: int| 0 <= i < cs.len() ==> wf_node(#[trigger] cs[i]))
}

/// Membership below a set of siblings: `w` (non-empty) is spelled by a path
/// starting at one of the siblings in `cs` and its last node is a terminal.
pub(crate) open spec fn children_has(cs: Seq<TrieNode>, w: Seq<char>) -> bool
    decreases w.len(), 0int,
{
    &&& w.len() > 0
    &&& has_value(cs, w[0])
    &&& node_has(cs[idx_of(cs, w[0])], w.drop_first())
}

/// Membership below a node that has already matched its own character:
/// the empty suffix lands here, a non-empty one continues in the children.
pub(crate) open spec fn node_has(n: TrieNode, w: Seq<char>) -> bool
    decreases w.len(), 1int,
{
    if w.len() == 0 {
        n.is_word
    } else {
        children_has(n.children@, w)
    }
}

/// All words in the subtree rooted at `n`, in enumeration order: the node's
/// own word first (if it is a terminal), then the words of each child in
/// insertion order.  `prefix` spells the path from the root to `n`'s parent.
pub(crate) open spec fn node_words(n: TrieNode, prefix: Seq<char>) -> Seq<Seq<char>>
    decreases n, 0int,
{
    let full = prefix.push(n.value);
    (if n.is_word {
        seq![full]
    } else {
        Seq::<Seq<char>>::empty()
    }) + children_words(n.children@, full)
}

/// The words of a sequence of siblings, concatenated in order.
pub(crate) open spec fn children_words(cs: Seq<TrieNode>, prefix: Seq<char>) -> Seq<Seq<char>>
    decreases cs, 1int,
{
    if cs.len() == 0 {
        Seq::<Seq<char>>::empty()
    } else {
        node_words(cs[0], prefix) + children_words(cs.drop_first(), prefix)
    }
}

/// The words offered as completions of the prefix `p` below the siblings
/// `cs`: the walk consumes `p`; from the landing node every word of its
/// subtree is produced, rebuilt from `pre` (the characters consumed above
/// `cs`) so that the landing node's own character is re-supplied by the
/// enumeration.  An unfinished walk, or an empty `p`, yields nothing.
pub(crate) open spec fn children_completions(cs: Seq<TrieNode>, p: Seq<char>, pre: Seq<char>) -> Seq<
    Seq<char>,
>
    decreases p.len(),
{
    if p.len() == 0 {
        Seq::<Seq<char>>::empty()
    } else if !has_value(cs, p[0]) {
        Seq::<Seq<char>>::empty()
    } else if p.len() == 1 {
        node_words(cs[idx_of(cs, p[0])], pre)
    } else {
        children_completions(cs[idx_of(cs, p[0])].children@, p.drop_first(), pre.push(p[0]))
    }
}

/// The two sibling sequences cannot be told apart by any observation the
/// trie offers: membership, enumeration, or completion, under any prefix.
pub(crate) open spec fn same_children_state(a: Seq<TrieNode>, b: Seq<TrieNode>) -> bool {
    &&& (forall|s: Seq<char>| children_has(a, s) == children_has(b, s))
    &&& (forall|p: Seq<char>| children_words(a, p) == children_words(b, p))
    &&& (forall|p: Seq<char>, pre: Seq<char>|
        children_completions(a, p, pre) == children_completions(b, p, pre))
}

/// The two nodes carry the same character and flag and indistinguishable
/// children.
pub(crate) open spec fn same_node_state(m: TrieNode, n: TrieNode) -> bool {
    &&& m.value == n.value
    &&& m.is_word == n.is_word
    &&& same_children_state(m.children@, n.children@)
}

/// Under distinct sibling characters, `idx_of` names the one index whose
/// node carries `c`.
pub(crate) proof fn lemma_idx_of(cs: Seq<TrieNode>, c: char, j: int)
    requires
        distinct_values(cs),
        0 <= j < cs.len(),
        cs[j].value == c,
    ensures
        has_value(cs, c),
        idx_of(cs, c) == j,
{
    assert(has_value(cs, c));
    let i = idx_of(cs, c);
    assert(0 <= i < cs.len() && cs[i].value == c);
}

/// The first index among `cs` whose node carries `c`, if any.
pub(crate) fn find_index(cs: &Vec<TrieNode>, c: char) -> (r: Option<usize>)
    ensures
        match r {
            Some(j) => j < cs@.len() && cs@[j as int].value == c,
            None => !has_value(cs@, c),
        },
{
    let mut j: usize = 0;
    while j < cs.len()
        invariant
            j <= cs@.len(),
            forall|i: int| 0 <= i < j ==> cs@[i].value != c,
        decreases cs@.len() - j,
    {
        if cs[j].value == c {
            return Some(j);
        }
        j += 1;
    }
    None
}

/// A fresh chain of nodes spelling `w[i..]`, terminal at its end and
/// nowhere else.
pub(crate) fn make_chain(w: &Vec<char>, i: usize) -> (r: TrieNode)
    requires
        i < w@.len(),
    ensures
        r.value == w@[i as int],
        wf_node(r),
        forall|s: Seq<char>| node_has(r, s) <==> s == w@.skip(i + 1),
        forall|p: Seq<char>| node_words(r, p) == seq![p + w@.skip(i as int)],
    decreases w@.len() - i,
{
    let n = w.len();
    let c = w[i];
    if i + 1 == n {
        let r = TrieNode { children: Vec::new(), value: c, is_word: true };
        proof {
            lemma_wf_leaf(r);
            assert forall|s: Seq<char>| node_has(r, s) <==> s == w@.skip(i + 1) by {
                lemma_leaf_has(r, s, w@.skip(i + 1));
            }
            assert forall|p: Seq<char>| node_words(r, p) == seq![p + w@.skip(i as int)] by {
                lemma_leaf_words(r, p);
                assert(p.push(c) =~= p + w@.skip(i as int));
            }
        }
        r
    } else {
        let child = make_chain(w, i + 1);
        let mut children: Vec<TrieNode> = Vec::new();
        children.push(child);
        let r = TrieNode { children, value: c, is_word: false };
        proof {
            lemma_wf_link(r);
            assert(w@.skip(i + 1).drop_first() =~= w@.skip(i + 2));
            assert forall|s: Seq<char>| node_has(r, s) <==> s == w@.skip(i + 1) by {
                lemma_link_has(r, s, w@.skip(i + 2), w@.skip(i + 1));
            }
            assert forall|p: Seq<char>| node_words(r, p) == seq![p + w@.skip(i as int)] by {
                lemma_link_words(r, p, w@.skip(i + 1));
                assert(p.push(c) + w@.skip(i + 1) =~= p + w@.skip(i as int));
            }
        }
        r
    }
}

/// Grows the path of `w[i..]` below the siblings `cs` and marks its last
/// node terminal.  Exactly the one word is added; when it was already
/// present, nothing observable changes.
pub(crate) fn insert_into(cs: &mut Vec<TrieNode>, w: &Vec<char>, i: usize)
    requires
        wf_children(old(cs)@),
        i < w@.len(),
    ensures
        wf_children(final(cs)@),
        forall|s: Seq<char>|
            children_has(final(cs)@, s) <==> (children_has(old(cs)@, s) || s == w@.skip(i as int)),
        children_has(old(cs)@, w@.skip(i as int)) ==> same_children_state(final(cs)@, old(cs)@),
        !children_has(old(cs)@, w@.skip(i as int)) ==> forall|p: Seq<char>|
            children_words(final(cs)@, p) == children_words(old(cs)@, p).insert(
                splice_pos(children_words(old(cs)@, p), p + w@.skip(i as int)),
                p + w@.skip(i as int),
            ),
    decreases w@.len() - i,
{
    let n = w.len();
    let c = w[i];
    let ghost old_cs = cs@;
    let ghost s0 = w@.skip(i as int);
    proof {
        assert(s0[0] == c);
    }
    match find_index(cs, c) {
        None => {
            let node = make_chain(w, i);
            let ghost chain = node;
            cs.push(node);
            proof {
                let new = cs@;
                assert forall|p: Seq<char>|
                    children_words(new, p) == children_words(old_cs, p).insert(
                        splice_pos(children_words(old_cs, p), p + s0),
                        p + s0,
                    ) by {
                    let big = p + s0;
                    let ws = children_words(old_cs, p);
                    assert(big[p.len() as int] == c);
                    assert(big.take(p.len() as int) =~= p);
                    lemma_splice_append(old_cs, p, big);
                    assert(new =~= old_cs + seq![chain]);
                    lemma_cw_append(old_cs, seq![chain], p);
                    assert(seq![chain].drop_first() =~= Seq::<TrieNode>::empty());
                    assert(children_words(Seq::<TrieNode>::empty(), p) =~= Seq::<
                        Seq<char>,
                    >::empty());
                    assert(children_words(seq![chain], p) =~= node_words(chain, p) + Seq::<
                        Seq<char>,
                    >::empty());
                    assert(node_words(chain, p) == seq![big]);
                    assert(children_words(new, p) =~= ws + seq![big]);
                    ws.insert_ensures(ws.len() as int, big);
                    assert(ws.insert(ws.len() as int, big) =~= ws + seq![big]);
                }
                assert(forall|k: int| 0 <= k < old_cs.len() ==> new[k] == old_cs[k]);
                assert(distinct_values(new)) by {
                    assert(forall|k: int|
                        0 <= k < old_cs.len() ==> new[k].value != c);
                }
                assert(wf_children(new));
                assert(!children_has(old_cs, s0));
                assert forall|s: Seq<char>|
                    children_has(new, s) <==> (children_has(old_cs, s) || s == s0) by {
                    if s.len() > 0 {
                        if s[0] == c {
                            lemma_idx_of(new, c, old_cs.len() as int);
                            assert(children_has(new, s) == node_has(node, s.drop_first()));
                            assert(!has_value(old_cs, s[0]));
                            assert(s0.drop_first() =~= w@.skip(i + 1));
                            if s.drop_first() == w@.skip(i + 1) {
                                lemma_cons_eq(s, s0);
                            }
                        } else {
                            assert(s != s0);
                            if has_value(old_cs, s[0]) {
                                let k = idx_of(old_cs, s[0]);
                                lemma_idx_of(old_cs, s[0], k);
                                lemma_idx_of(new, s[0], k);
                            } else {
                                assert(!has_value(new, s[0])) by {
                                    if has_value(new, s[0]) {
                                        let k = idx_of(new, s[0]);
                                        assert(0 <= k < old_cs.len() ==> old_cs[k].value == s[0]);
                                        assert(k == old_cs.len());
                                    }
                                }
                            }
                        }
                    } else {
                        assert(s != s0);
                    }
                }
            }
        },
        Some(j) => {
            proof {
                lemma_idx_of(old_cs, c, j as int);
            }
            let mut node = cs.remove(j);
            let ghost old_node = node;
            if i + 1 == n {
                node.is_word = true;
            } else {
                proof {
                    assert(s0.drop_first() =~= w@.skip(i + 1));
                }
                insert_into(&mut node.children, w, i + 1);
            }
            let ghost new_node = node;
            cs.insert(j, node);
            proof {
                let new = cs@;
                assert(new =~= old_cs.update(j as int, new_node));
                assert(new_node.value == c && new_node.is_word == (old_node.is_word || i + 1 == n));
                // well-formedness of the replaced node
                assert(wf_node(new_node)) by {
                    if i + 1 == n {
                        assert(new_node.children@ == old_node.children@);
                    } else {
                        assert(children_has(new_node.children@, w@.skip(i + 1)));
                        assert(new_node.children@.len() > 0);
                    }
                }
                assert(wf_children(new)) by {
                    lemma_update_has(old_cs, j as int, new_node, s0);
                    assert(forall|k: int|
                        0 <= k < new.len() && k != j ==> new[k] == old_cs[k]);
                }
                // membership
                assert forall|s: Seq<char>|
                    children_has(new, s) <==> (children_has(old_cs, s) || s == s0) by {
                    if s.len() > 0 {
                        lemma_update_has(old_cs, j as int, new_node, s);
                        if s[0] == c {
                            let d = s.drop_first();
                            if i + 1 == n {
                                assert(s0 =~= seq![c]);
                                if d.len() == 0 {
                                    assert(s =~= s0);
                                    assert(node_has(new_node, d));
                                } else {
                                    assert(s != s0);
                                    assert(new_node.children@ == old_node.children@);
                                }
                            } else {
                                if d.len() == 0 {
                                    assert(s != s0);
                                } else {
                                    assert(children_has(new_node.children@, d) <==> (children_has(
                                        old_node.children@,
                                        d,
                                    ) || d == w@.skip(i + 1)));
                                    assert(s0.drop_first() =~= w@.skip(i + 1));
                                    if d == w@.skip(i + 1) {
                                        lemma_cons_eq(s, s0);
                                    }
                                }
                            }
                        } else {
                            assert(s != s0);
                        }
                    } else {
                        assert(s != s0);
                    }
                }
                // where the word is new, it is spliced into the enumeration
                // at its path-determined position
                if !children_has(old_cs, s0) {
                    assert(!old_node.is_word || i + 1 < n) by {
                        lemma_update_has(old_cs, j as int, new_node, s0);
                        if i + 1 == n {
                            assert(s0.drop_first().len() == 0);
                        }
                    }
                    assert forall|p: Seq<char>|
                        children_words(new, p) == children_words(old_cs, p).insert(
                            splice_pos(children_words(old_cs, p), p + s0),
                            p + s0,
                        ) by {
                        let big = p + s0;
                        let full = p.push(c);
                        let ws = children_words(old_cs, p);
                        let aw = children_words(old_cs.take(j as int), p);
                        let inner = children_words(old_node.children@, full);
                        assert(big[p.len() as int] == c);
                        assert(big.take(p.len() as int) =~= p);
                        lemma_cw_decompose(old_cs, j as int, p);
                        lemma_cw_decompose(new, j as int, p);
                        assert(new.take(j as int) =~= old_cs.take(j as int));
                        assert(new.skip(j + 1) =~= old_cs.skip(j + 1));
                        if i + 1 == n {
                            assert(s0 =~= seq![c]);
                            assert(big =~= p.push(c));
                            lemma_splice_land(old_cs, j as int, p, big);
                            assert(node_words(old_node, p) =~= inner);
                            assert(new_node.children@ == old_node.children@);
                            assert(node_words(new_node, p) =~= seq![big] + inner);
                            lemma_insert_concat(
                                aw,
                                node_words(old_node, p),
                                children_words(old_cs.skip(j + 1), p),
                                0,
                                big,
                            );
                            node_words(old_node, p).insert_ensures(0, big);
                            assert(node_words(old_node, p).insert(0, big) =~= seq![big] + inner);
                        } else {
                            assert(s0.drop_first() =~= w@.skip(i + 1 as int));
                            assert(!children_has(old_node.children@, w@.skip(i + 1 as int))) by {
                                lemma_update_has(old_cs, j as int, new_node, s0);
                            }
                            lemma_splice_deep(old_cs, j as int, p, big);
                            assert(full + w@.skip(i + 1 as int) =~= big);
                            let pos2 = splice_pos(inner, big);
                            assert(children_words(new_node.children@, full) == inner.insert(
                                pos2,
                                big,
                            ));
                            assert(0 <= pos2 <= inner.len()) by {
                                lemma_splice_bounds(inner, big);
                            }
                            let head: Seq<Seq<char>> = if old_node.is_word {
                                seq![full]
                            } else {
                                Seq::<Seq<char>>::empty()
                            };
                            let hb: int = if old_node.is_word {
                                1int
                            } else {
                                0int
                            };
                            assert(node_words(old_node, p) == head + inner);
                            assert(node_words(new_node, p) == head + inner.insert(pos2, big));
                            lemma_insert_concat(
                                aw,
                                node_words(old_node, p),
                                children_words(old_cs.skip(j + 1), p),
                                hb + pos2,
                                big,
                            );
                            lemma_insert_concat(head, inner, Seq::<Seq<char>>::empty(), pos2, big);
                            assert((head + inner + Seq::<Seq<char>>::empty()) =~= head + inner);
                            assert(head + inner.insert(pos2, big) + Seq::<Seq<char>>::empty()
                                =~= head + inner.insert(pos2, big));
                            assert(node_words(old_node, p).insert(hb + pos2, big) == head
                                + inner.insert(pos2, big));
                        }
                    }
                }
                // nothing observable changes when the word was already there
                if children_has(old_cs, s0) {
                    lemma_update_has(old_cs, j as int, new_node, s0);
                    assert(node_has(old_node, s0.drop_first()));
                    if i + 1 == n {
                        assert(s0 =~= seq![c]);
                        assert(s0.drop_first().len() == 0);
                        assert(old_node.is_word);
                        assert(new_node == old_node);
                        assert(new =~= old_cs);
                    } else {
                        assert(s0.drop_first() =~= w@.skip(i + 1));
                        assert(children_has(old_node.children@, w@.skip(i + 1)));
                        assert(same_children_state(new_node.children@, old_node.children@));
                        lemma_update_same(old_cs, j as int, new_node);
                    }
                }
            }
        },
    }
}

/// Removes `w[i..]` from below the siblings `cs`: clears the terminal flag
/// of the node the walk lands on, then prunes every ancestor left both
/// non-terminal and childless.  Exactly the one word disappears from the
/// enumeration, in place; a failed walk changes nothing observable.
#[verifier::rlimit(50)]
pub(crate) fn remove_from(cs: &mut Vec<TrieNode>, w: &Vec<char>, i: usize) -> (found: bool)
    requires
        wf_children(old(cs)@),
        i < w@.len(),
    ensures
        wf_children(final(cs)@),
        found == children_has(old(cs)@, w@.skip(i as int)),
        !found ==> same_children_state(final(cs)@, old(cs)@),
        forall|s: Seq<char>|
            children_has(final(cs)@, s) <==> (children_has(old(cs)@, s) && s != w@.skip(i as int)),
        forall|p: Seq<char>|
            children_words(final(cs)@, p) == children_words(old(cs)@, p).filter(
                all_but(p + w@.skip(i as int)),
            ),
    decreases w@.len() - i,
{
    let n = w.len();
    let c = w[i];
    let ghost old_cs = cs@;
    let ghost s0 = w@.skip(i as int);
    proof {
        assert(s0[0] == c);
        assert(s0.len() == w@.len() - i);
    }
    match find_index(cs, c) {
        None => {
            proof {
                assert(!children_has(old_cs, s0));
                lemma_same_reflexive(old_cs);
                assert forall|s: Seq<char>|
                    children_has(cs@, s) <==> (children_has(old_cs, s) && s != s0) by {
                    if s == s0 {
                        assert(!children_has(old_cs, s));
                    }
                }
                assert forall|p: Seq<char>|
                    children_words(cs@, p) == children_words(old_cs, p).filter(all_but(p + s0)) by {
                    assert((p + s0)[p.len() as int] == c);
                    lemma_filter_segment_all_kept(old_cs, p, p + s0);
                }
            }
            false
        },
        Some(j) => {
            proof {
                lemma_idx_of(old_cs, c, j as int);
            }
            let mut node = cs.remove(j);
            let ghost old_node = node;
            let found: bool;
            if i + 1 == n {
                found = node.is_word;
                node.is_word = false;
                proof {
                    assert(s0 =~= seq![c]);
                }
            } else {
                proof {
                    assert(s0.drop_first() =~= w@.skip(i + 1 as int));
                    assert(wf_node(old_node));
                }
                found = remove_from(&mut node.children, w, i + 1);
            }
            let ghost new_node = node;
            let ghost d0 = s0.drop_first();
            let keep = node.is_word || node.children.len() > 0;
            if keep {
                cs.insert(j, node);
            }
            proof {
                let new = cs@;
                if i + 1 < n {
                    assert(d0 =~= w@.skip(i + 1 as int));
                }
                // how the walk's outcome reads at this level
                assert(found == children_has(old_cs, s0)) by {
                    lemma_update_has(old_cs, j as int, new_node, s0);
                    if i + 1 == n {
                        assert(d0.len() == 0);
                    } else {
                        assert(node_has(old_node, d0) == children_has(old_node.children@, d0));
                    }
                }
                if keep {
                    assert(new =~= old_cs.update(j as int, new_node));
                    if i + 1 == n {
                        if found {
                            assert(s0 =~= seq![old_cs[j as int].value]);
                            lemma_clear_flag(old_cs, j as int, new_node, s0);
                        } else {
                            // the flag was already clear: nothing changed
                            assert(new_node == old_node);
                            assert(new =~= old_cs);
                            lemma_same_reflexive(old_cs);
                            assert forall|s: Seq<char>|
                                children_has(new, s) <==> (children_has(old_cs, s) && s != s0) by {
                                if s == s0 {
                                    assert(!children_has(old_cs, s0));
                                }
                            }
                            assert forall|p: Seq<char>|
                                children_words(new, p) == children_words(old_cs, p).filter(
                                    all_but(p + s0),
                                ) by {
                                assert((p + s0)[p.len() as int] == c);
                                assert(s0 =~= seq![old_cs[j as int].value]);
                                lemma_found_absent(old_cs, j as int, p, p + s0);
                            }
                        }
                    } else {
                        lemma_step_keep(old_cs, j as int, new_node, s0);
                        if !found {
                            assert(same_node_state(new_node, old_node));
                            lemma_update_same(old_cs, j as int, new_node);
                        }
                    }
                } else {
                    // pruned: the node was left both non-terminal and bare
                    assert(!new_node.is_word && new_node.children@.len() == 0);
                    assert(new =~= old_cs.remove(j as int));
                    if i + 1 == n {
                        assert(found) by {
                            assert(wf_node(old_node));
                        }
                        assert(s0 =~= seq![old_cs[j as int].value]);
                        lemma_prune_leaf(old_cs, j as int, s0);
                    } else {
                        assert(found) by {
                            if !found {
                                assert(same_children_state(
                                    new_node.children@,
                                    old_node.children@,
                                ));
                                assert(wf_node(old_node));
                                if old_node.children@.len() > 0 {
                                    lemma_same_state_nonempty(
                                        new_node.children@,
                                        old_node.children@,
                                    );
                                }
                            }
                        }
                        assert(!old_node.is_word);
                        lemma_step_prune(old_cs, j as int, new_node, s0);
                    }
                }
            }
            found
        },
    }
}

/// Walks `w[i..]` downward from the siblings `cs`; true iff the walk ends
/// on a terminal node.
pub(crate) fn contains_from(cs: &Vec<TrieNode>, w: &Vec<char>, i: usize) -> (r: bool)
    requires
        wf_children(cs@),
        i < w@.len(),
    ensures
        r == children_has(cs@, w@.skip(i as int)),
    decreases w@.len() - i,
{
    let n = w.len();
    let c = w[i];
    let ghost s = w@.skip(i as int);
    proof {
        assert(s[0] == w@[i as int]);
    }
    match find_index(cs, c) {
        None => false,
        Some(j) => {
            proof {
                lemma_idx_of(cs@, c, j as int);
            }
            if i + 1 == n {
                cs[j].is_word
            } else {
                proof {
                    assert(s.drop_first() =~= w@.skip(i + 1));
                }
                contains_from(&cs[j].children, w, i + 1)
            }
        },
    }
}

/// Every word of `n`'s subtree as a string, in enumeration order: `n`'s
/// own word first (when it is a terminal), then each child's words in
/// insertion order, all built on `prefix` extended by `n`'s character.
pub(crate) fn complete_word(n: &TrieNode, prefix: Vec<char>) -> (r: Vec<String>)
    ensures
        r@.len() == node_words(*n, prefix@).len(),
        forall|k: int| 0 <= k < r@.len() ==> r@[k]@ == node_words(*n, prefix@)[k],
    decreases *n,
{
    let ghost p = prefix@;
    let mut word = prefix;
    word.push(n.value);
    let ghost full = word@;
    let ghost target = node_words(*n, p);
    let mut out: Vec<String> = Vec::new();
    if n.is_word {
        out.push(chars_to_string(&word));
    }
    let ghost head: Seq<Seq<char>> = if n.is_word {
        seq![full]
    } else {
        Seq::<Seq<char>>::empty()
    };
    proof {
        assert(target == head + children_words(n.children@, full));
        assert(children_words(n.children@.take(0), full) =~= Seq::<Seq<char>>::empty());
    }
    let mut j: usize = 0;
    while j < n.children.len()
        invariant
            j <= n.children@.len(),
            word@ == full,
            head == (if n.is_word {
                seq![full]
            } else {
                Seq::<Seq<char>>::empty()
            }),
            out@.len() == head.len() + children_words(n.children@.take(j as int), full).len(),
            forall|k: int|
                0 <= k < out@.len() ==> out@[k]@ == (head + children_words(
                    n.children@.take(j as int),
                    full,
                ))[k],
        decreases n.children@.len() - j,
    {
        proof {
            assert(decreases_to!(*n => n.children@[j as int]));
        }
        let mut sub = complete_word(&n.children[j], clone_chars(&word));
        let ghost old_out = out@;
        let ghost sub0 = sub@;
        out.append(&mut sub);
        proof {
            lemma_cw_take_step(n.children@, j as int, full);
            let before = head + children_words(n.children@.take(j as int), full);
            let after = head + children_words(n.children@.take(j + 1), full);
            assert(after =~= before + node_words(n.children@[j as int], full));
            assert(out@ == old_out + sub0);
            assert forall|k: int| 0 <= k < out@.len() implies out@[k]@ == after[k] by {
                if k < old_out.len() {
                    assert(out@[k] == old_out[k]);
                    assert(after[k] == before[k]);
                } else {
                    assert(out@[k] == sub0[k - old_out.len()]);
                    assert(after[k] == node_words(n.children@[j as int], full)[k
                        - old_out.len()]);
                }
            }
        }
        j += 1;
    }
    proof {
        assert(n.children@.take(n.children@.len() as int) =~= n.children@);
    }
    out
}

/// Walks `w[i..]` downward from the siblings `cs` and enumerates the
/// subtree the walk lands on; a failed walk yields nothing.  `acc` holds
/// the characters consumed above `cs`.
pub(crate) fn completions_from(cs: &Vec<TrieNode>, w: &Vec<char>, i: usize, acc: Vec<char>) -> (r:
    Vec<String>)
    requires
        wf_children(cs@),
        i < w@.len(),
        acc@ == w@.take(i as int),
    ensures
        r@.len() == children_completions(cs@, w@.skip(i as int), acc@).len(),
        forall|k: int|
            0 <= k < r@.len() ==> r@[k]@ == children_completions(cs@, w@.skip(i as int), acc@)[k],
    decreases w@.len() - i,
{
    let n = w.len();
    let c = w[i];
    let ghost p = w@.skip(i as int);
    proof {
        assert(p[0] == c);
    }
    match find_index(cs, c) {
        None => Vec::new(),
        Some(j) => {
            proof {
                lemma_idx_of(cs@, c, j as int);
            }
            if i + 1 == n {
                complete_word(&cs[j], acc)
            } else {
                let mut acc2 = acc;
                acc2.push(c);
                proof {
                    assert(acc2@ =~= w@.take(i + 1 as int));
                    assert(p.drop_first() =~= w@.skip(i + 1 as int));
                    assert(acc2@ == w@.take(i as int).push(p[0]));
                }
                completions_from(&cs[j].children, w, i + 1, acc2)
            }
        },
    }
}

} // verus!
