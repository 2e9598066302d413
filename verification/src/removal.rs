//! Proof lemmas for removal: how clearing a flag or detaching a node
//! reads in the enumeration and membership specifications.

use vstd::prelude::*;

use crate::lemmas::{
    lemma_cons_eq, lemma_cw_append, lemma_cw_decompose, lemma_filter_combine,
    lemma_filter_longer, lemma_filter_singleton, lemma_remove_has, lemma_remove_sides,
    lemma_same_reflexive, lemma_update_has, lemma_update_same,
};
use crate::node::{
    TrieNode, children_has, children_words, distinct_values, node_has, node_words,
    same_children_state, same_node_state, wf_children, wf_node,
};
use crate::trie::all_but;

verus! {

/// Filtering the empty sequence yields the empty sequence.
pub(crate) proof fn lemma_filter_empty<A>(pred: spec_fn(A) -> bool)
    ensures
        Seq::<A>::empty().filter(pred) == Seq::<A>::empty(),
{
    reveal(Seq::filter);
}

/// Clearing the terminal flag of the sibling that carries `s0`'s one
/// character removes exactly the word `s0` from everything below `a`.
pub(crate) proof fn lemma_clear_flag(a: Seq<TrieNode>, j: int, m: TrieNode, s0: Seq<char>)
    requires
        wf_children(a),
        0 <= j < a.len(),
        s0 == seq![a[j].value],
        m.value == a[j].value,
        m.children@ == a[j].children@,
        !m.is_word,
        m.children@.len() > 0,
    ensures
        wf_children(a.update(j, m)),
        forall|s: Seq<char>|
            children_has(a.update(j, m), s) <==> (children_has(a, s) && s != s0),
        forall|p: Seq<char>|
            children_words(a.update(j, m), p) == children_words(a, p).filter(all_but(p + s0)),
        !a[j].is_word ==> same_children_state(a.update(j, m), a),
{
    let b = a.update(j, m);
    let c = a[j].value;
    assert(s0.len() == 1 && s0[0] == c);
    assert(forall|k: int| 0 <= k < a.len() ==> b[k].value == a[k].value);
    assert(wf_children(b)) by {
        assert(forall|k: int| 0 <= k < b.len() && k != j ==> b[k] == a[k]);
        assert(wf_node(m)) by {
            assert(wf_node(a[j]));
        }
    }
    assert forall|s: Seq<char>|
        children_has(b, s) <==> (children_has(a, s) && s != s0) by {
        if s.len() > 0 {
            lemma_update_has(a, j, m, s);
            if s[0] == c {
                let d = s.drop_first();
                if d.len() == 0 {
                    assert(s =~= s0);
                } else {
                    assert(s.len() > 1);
                    assert(s != s0);
                    assert(node_has(m, d) == node_has(a[j], d));
                }
            } else {
                assert(s != s0);
            }
        } else {
            assert(s != s0);
        }
    }
    assert forall|p: Seq<char>|
        children_words(b, p) == children_words(a, p).filter(all_but(p + s0)) by {
        let t = p + s0;
        let full = p.push(c);
        let pred = all_but(t);
        assert(t =~= full);
        assert(t[p.len() as int] == c);
        lemma_cw_decompose(a, j, p);
        lemma_cw_decompose(b, j, p);
        assert(b.take(j) =~= a.take(j));
        assert(b.skip(j + 1) =~= a.skip(j + 1));
        lemma_remove_sides(a, j, p, t);
        let head: Seq<Seq<char>> = if a[j].is_word {
            seq![full]
        } else {
            Seq::<Seq<char>>::empty()
        };
        let below = children_words(a[j].children@, full);
        assert(node_words(a[j], p) == head + below);
        Seq::<Seq<char>>::filter_distributes_over_add(head, below, pred);
        if a[j].is_word {
            lemma_filter_singleton(full, pred);
        } else {
            lemma_filter_empty(pred);
        }
        assert(head.filter(pred) =~= Seq::<Seq<char>>::empty());
        lemma_filter_longer(a[j].children@, full, t);
        assert(node_words(m, p) =~= below);
        assert(node_words(a[j], p).filter(pred) =~= below);
        lemma_filter_combine(
            children_words(a.take(j), p),
            node_words(a[j], p),
            children_words(a.skip(j + 1), p),
            below,
            pred,
        );
    }
    if !a[j].is_word {
        assert(same_node_state(m, a[j])) by {
            lemma_same_reflexive(m.children@);
        }
        lemma_update_same(a, j, m);
    }
}

/// Detaching a childless terminal sibling removes exactly its one-character
/// word from everything below `a`.
pub(crate) proof fn lemma_prune_leaf(a: Seq<TrieNode>, j: int, s0: Seq<char>)
    requires
        wf_children(a),
        0 <= j < a.len(),
        s0 == seq![a[j].value],
        a[j].is_word,
        a[j].children@.len() == 0,
    ensures
        wf_children(a.remove(j)),
        forall|s: Seq<char>|
            children_has(a.remove(j), s) <==> (children_has(a, s) && s != s0),
        forall|p: Seq<char>|
            children_words(a.remove(j), p) == children_words(a, p).filter(all_but(p + s0)),
{
    let b = a.remove(j);
    let c = a[j].value;
    assert(s0.len() == 1 && s0[0] == c);
    assert(forall|k: int| 0 <= k < j ==> b[k] == a[k]);
    assert(forall|k: int| j <= k < b.len() ==> b[k] == a[k + 1]);
    assert(wf_children(b)) by {
        lemma_remove_has(a, j, s0);
    }
    assert forall|s: Seq<char>|
        children_has(b, s) <==> (children_has(a, s) && s != s0) by {
        if s.len() > 0 {
            lemma_remove_has(a, j, s);
            if s[0] == c {
                let d = s.drop_first();
                if d.len() == 0 {
                    assert(s =~= s0);
                } else {
                    assert(!children_has(a[j].children@, d));
                    assert(!children_has(a, s));
                }
            } else {
                assert(s != s0);
            }
        } else {
            assert(s != s0);
        }
    }
    assert forall|p: Seq<char>|
        children_words(b, p) == children_words(a, p).filter(all_but(p + s0)) by {
        let t = p + s0;
        let full = p.push(c);
        let pred = all_but(t);
        assert(t =~= full);
        assert(t[p.len() as int] == c);
        lemma_cw_decompose(a, j, p);
        lemma_remove_sides(a, j, p, t);
        assert(b =~= a.take(j) + a.skip(j + 1));
        lemma_cw_append(a.take(j), a.skip(j + 1), p);
        assert(children_words(a[j].children@, full) =~= Seq::<Seq<char>>::empty());
        lemma_filter_singleton(full, pred);
        assert(node_words(a[j], p) =~= seq![full]);
        lemma_filter_combine(
            children_words(a.take(j), p),
            node_words(a[j], p),
            children_words(a.skip(j + 1), p),
            Seq::<Seq<char>>::empty(),
            pred,
        );
        assert(children_words(a.take(j), p) + Seq::<Seq<char>>::empty() + children_words(
            a.skip(j + 1),
            p,
        ) =~= children_words(a.take(j), p) + children_words(a.skip(j + 1), p));
    }
}

/// Replacing the sibling that carries `s0`'s first character by a node
/// whose subtree lost exactly the rest of `s0` removes exactly `s0` from
/// everything below `a`.
pub(crate) proof fn lemma_step_keep(a: Seq<TrieNode>, j: int, m: TrieNode, s0: Seq<char>)
    requires
        wf_children(a),
        0 <= j < a.len(),
        s0.len() >= 2,
        s0[0] == a[j].value,
        m.value == a[j].value,
        m.is_word == a[j].is_word,
        wf_children(m.children@),
        m.is_word || m.children@.len() > 0,
        forall|d: Seq<char>|
            children_has(m.children@, d) <==> (children_has(a[j].children@, d) && d
                != s0.drop_first()),
        forall|q: Seq<char>|
            children_words(m.children@, q) == children_words(a[j].children@, q).filter(
                all_but(q + s0.drop_first()),
            ),
    ensures
        wf_children(a.update(j, m)),
        forall|s: Seq<char>|
            children_has(a.update(j, m), s) <==> (children_has(a, s) && s != s0),
        forall|p: Seq<char>|
            children_words(a.update(j, m), p) == children_words(a, p).filter(all_but(p + s0)),
{
    let b = a.update(j, m);
    let c = a[j].value;
    let d0 = s0.drop_first();
    assert(forall|k: int| 0 <= k < a.len() ==> b[k].value == a[k].value);
    assert(wf_children(b)) by {
        assert(forall|k: int| 0 <= k < b.len() && k != j ==> b[k] == a[k]);
        assert(wf_node(m));
    }
    assert forall|s: Seq<char>|
        children_has(b, s) <==> (children_has(a, s) && s != s0) by {
        if s.len() > 0 {
            lemma_update_has(a, j, m, s);
            if s[0] == c {
                let d = s.drop_first();
                if d.len() == 0 {
                    assert(s != s0);
                } else {
                    if d == d0 {
                        lemma_cons_eq(s, s0);
                    }
                    if s == s0 {
                        assert(d == d0);
                    }
                    assert(node_has(m, d) == children_has(m.children@, d));
                    assert(node_has(a[j], d) == children_has(a[j].children@, d));
                    assert(children_has(m.children@, d) == (children_has(a[j].children@, d) && d
                        != d0));
                }
            } else {
                assert(s != s0);
            }
        } else {
            assert(s != s0);
        }
    }
    assert forall|p: Seq<char>|
        children_words(b, p) == children_words(a, p).filter(all_but(p + s0)) by {
        let t = p + s0;
        let full = p.push(c);
        let pred = all_but(t);
        assert(t[p.len() as int] == c);
        assert(t.len() == p.len() + s0.len());
        lemma_cw_decompose(a, j, p);
        lemma_cw_decompose(b, j, p);
        assert(b.take(j) =~= a.take(j));
        assert(b.skip(j + 1) =~= a.skip(j + 1));
        lemma_remove_sides(a, j, p, t);
        let head: Seq<Seq<char>> = if a[j].is_word {
            seq![full]
        } else {
            Seq::<Seq<char>>::empty()
        };
        let below = children_words(a[j].children@, full);
        assert(node_words(a[j], p) == head + below);
        Seq::<Seq<char>>::filter_distributes_over_add(head, below, pred);
        if a[j].is_word {
            lemma_filter_singleton(full, pred);
            assert(full != t);
            assert(head.filter(pred) =~= head);
        } else {
            lemma_filter_empty(pred);
            assert(head.filter(pred) =~= head);
        }
        assert(full + d0 =~= t);
        assert(children_words(m.children@, full) == below.filter(pred));
        assert(node_words(m, p) =~= head + children_words(m.children@, full));
        assert(node_words(a[j], p).filter(pred) =~= node_words(m, p));
        lemma_filter_combine(
            children_words(a.take(j), p),
            node_words(a[j], p),
            children_words(a.skip(j + 1), p),
            node_words(m, p),
            pred,
        );
    }
}

/// Detaching the sibling that carries `s0`'s first character, after its
/// subtree lost the rest of `s0` and was left bare, removes exactly `s0`
/// from everything below `a`.
pub(crate) proof fn lemma_step_prune(a: Seq<TrieNode>, j: int, m: TrieNode, s0: Seq<char>)
    requires
        wf_children(a),
        0 <= j < a.len(),
        s0.len() >= 2,
        s0[0] == a[j].value,
        !a[j].is_word,
        !m.is_word,
        m.children@.len() == 0,
        forall|d: Seq<char>|
            children_has(m.children@, d) <==> (children_has(a[j].children@, d) && d
                != s0.drop_first()),
        forall|q: Seq<char>|
            children_words(m.children@, q) == children_words(a[j].children@, q).filter(
                all_but(q + s0.drop_first()),
            ),
    ensures
        wf_children(a.remove(j)),
        forall|s: Seq<char>|
            children_has(a.remove(j), s) <==> (children_has(a, s) && s != s0),
        forall|p: Seq<char>|
            children_words(a.remove(j), p) == children_words(a, p).filter(all_but(p + s0)),
{
    let b = a.remove(j);
    let c = a[j].value;
    let d0 = s0.drop_first();
    assert(forall|k: int| 0 <= k < j ==> b[k] == a[k]);
    assert(forall|k: int| j <= k < b.len() ==> b[k] == a[k + 1]);
    assert(wf_children(b)) by {
        lemma_remove_has(a, j, s0);
    }
    assert forall|s: Seq<char>|
        children_has(b, s) <==> (children_has(a, s) && s != s0) by {
        if s.len() > 0 {
            lemma_remove_has(a, j, s);
            if s[0] == c {
                let d = s.drop_first();
                if d.len() == 0 {
                    assert(!node_has(a[j], d));
                    assert(s != s0);
                } else {
                    if d == d0 {
                        lemma_cons_eq(s, s0);
                    }
                    if s == s0 {
                        assert(d == d0);
                    }
                    assert(node_has(a[j], d) == children_has(a[j].children@, d));
                    assert(!children_has(m.children@, d));
                }
            } else {
                assert(s != s0);
            }
        } else {
            assert(s != s0);
        }
    }
    assert forall|p: Seq<char>|
        children_words(b, p) == children_words(a, p).filter(all_but(p + s0)) by {
        let t = p + s0;
        let full = p.push(c);
        let pred = all_but(t);
        assert(t[p.len() as int] == c);
        lemma_cw_decompose(a, j, p);
        lemma_remove_sides(a, j, p, t);
        assert(b =~= a.take(j) + a.skip(j + 1));
        lemma_cw_append(a.take(j), a.skip(j + 1), p);
        let below = children_words(a[j].children@, full);
        assert(node_words(a[j], p) =~= below);
        assert(full + d0 =~= t);
        assert(children_words(m.children@, full) == below.filter(pred));
        assert(children_words(m.children@, full) =~= Seq::<Seq<char>>::empty());
        lemma_filter_combine(
            children_words(a.take(j), p),
            node_words(a[j], p),
            children_words(a.skip(j + 1), p),
            Seq::<Seq<char>>::empty(),
            pred,
        );
        assert(children_words(a.take(j), p) + Seq::<Seq<char>>::empty() + children_words(
            a.skip(j + 1),
            p,
        ) =~= children_words(a.take(j), p) + children_words(a.skip(j + 1), p));
    }
}

/// When the sibling carrying the target's character is not a terminal,
/// the one-character-past-`p` target occurs nowhere in the enumeration.
pub(crate) proof fn lemma_found_absent(a: Seq<TrieNode>, j: int, p: Seq<char>, t: Seq<char>)
    requires
        distinct_values(a),
        0 <= j < a.len(),
        !a[j].is_word,
        t == p + seq![a[j].value],
    ensures
        children_words(a, p).filter(all_but(t)) == children_words(a, p),
{
    let c = a[j].value;
    let full = p.push(c);
    assert(t =~= full);
    assert(t[p.len() as int] == c);
    lemma_cw_decompose(a, j, p);
    lemma_remove_sides(a, j, p, t);
    let below = children_words(a[j].children@, full);
    assert(node_words(a[j], p) =~= below);
    lemma_filter_longer(a[j].children@, full, t);
    lemma_filter_combine(
        children_words(a.take(j), p),
        node_words(a[j], p),
        children_words(a.skip(j + 1), p),
        below,
        all_but(t),
    );
}

} // verus!
