//! Proof lemmas about the enumeration and membership specifications.

use vstd::prelude::*;

use crate::node::{
    TrieNode, children_completions, children_has, children_words, distinct_values, has_value,
    idx_of, lemma_idx_of, node_has, node_words, same_children_state, same_node_state, wf_children,
    wf_node,
};
use crate::trie::{all_but, with_prefix};

verus! {

/// Enumeration distributes over concatenation of sibling sequences.
pub(crate) proof fn lemma_cw_append(a: Seq<TrieNode>, b: Seq<TrieNode>, p: Seq<char>)
    ensures
        children_words(a + b, p) == children_words(a, p) + children_words(b, p),
    decreases a.len(),
{
    if a.len() == 0 {
        assert(a + b =~= b);
        assert(children_words(a, p) + children_words(b, p) =~= children_words(b, p));
    } else {
        assert((a + b).drop_first() =~= a.drop_first() + b);
        lemma_cw_append(a.drop_first(), b, p);
        assert(children_words(a + b, p) =~= children_words(a, p) + children_words(b, p));
    }
}

/// The enumeration of `cs` splits at any index `j` into the part before,
/// the subtree at `j`, and the part after.
pub(crate) proof fn lemma_cw_decompose(cs: Seq<TrieNode>, j: int, p: Seq<char>)
    requires
        0 <= j < cs.len(),
    ensures
        children_words(cs, p) == children_words(cs.take(j), p) + node_words(cs[j], p)
            + children_words(cs.skip(j + 1), p),
{
    let mid = seq![cs[j]];
    assert(cs =~= cs.take(j) + (mid + cs.skip(j + 1)));
    lemma_cw_append(cs.take(j), mid + cs.skip(j + 1), p);
    lemma_cw_append(mid, cs.skip(j + 1), p);
    assert(mid.drop_first() =~= Seq::<TrieNode>::empty());
    assert(children_words(Seq::<TrieNode>::empty(), p) =~= Seq::<Seq<char>>::empty());
    assert(children_words(mid, p) =~= node_words(cs[j], p) + Seq::<Seq<char>>::empty());
    assert(node_words(cs[j], p) + Seq::<Seq<char>>::empty() =~= node_words(cs[j], p));
}

/// Every word below `n` extends `p` by at least one character, the first
/// of them `n`'s own.
pub(crate) proof fn lemma_nw_shape(n: TrieNode, p: Seq<char>)
    ensures
        forall|k: int|
            0 <= k < node_words(n, p).len() ==> {
                let x = #[trigger] node_words(n, p)[k];
                &&& x.len() > p.len()
                &&& x.take(p.len() as int) == p
                &&& x[p.len() as int] == n.value
            },
    decreases n,
{
    let full = p.push(n.value);
    lemma_cw_shape(n.children@, full);
    assert forall|k: int| 0 <= k < node_words(n, p).len() implies {
        let x = #[trigger] node_words(n, p)[k];
        &&& x.len() > p.len()
        &&& x.take(p.len() as int) == p
        &&& x[p.len() as int] == n.value
    } by {
        let x = node_words(n, p)[k];
        if n.is_word && k == 0 {
            assert(x == full);
            assert(full.take(p.len() as int) =~= p);
        } else {
            assert(children_words(n.children@, full).contains(x)) by {
                let k2 = if n.is_word {
                    k - 1
                } else {
                    k
                };
                assert(children_words(n.children@, full)[k2] == x);
            }
            let k2 = choose|k2: int|
                0 <= k2 < children_words(n.children@, full).len() && children_words(
                    n.children@,
                    full,
                )[k2] == x;
            assert(x.len() > full.len());
            assert(x.take(full.len() as int) == full);
            assert(x.take(p.len() as int) =~= full.take(p.len() as int));
            assert(full.take(p.len() as int) =~= p);
            assert(x[p.len() as int] == x.take(full.len() as int)[p.len() as int]);
        }
    }
}

/// Every word below the siblings `cs` extends `p`, and its next character
/// is carried by one of the siblings.
pub(crate) proof fn lemma_cw_shape(cs: Seq<TrieNode>, p: Seq<char>)
    ensures
        forall|k: int|
            0 <= k < children_words(cs, p).len() ==> {
                let x = #[trigger] children_words(cs, p)[k];
                &&& x.len() > p.len()
                &&& x.take(p.len() as int) == p
                &&& has_value(cs, x[p.len() as int])
            },
    decreases cs,
{
    if cs.len() > 0 {
        lemma_nw_shape(cs[0], p);
        lemma_cw_shape(cs.drop_first(), p);
        let head = node_words(cs[0], p);
        let rest = children_words(cs.drop_first(), p);
        assert forall|k: int| 0 <= k < children_words(cs, p).len() implies {
            let x = #[trigger] children_words(cs, p)[k];
            &&& x.len() > p.len()
            &&& x.take(p.len() as int) == p
            &&& has_value(cs, x[p.len() as int])
        } by {
            let x = children_words(cs, p)[k];
            if k < head.len() {
                assert(x == head[k]);
                assert(cs[0].value == x[p.len() as int]);
            } else {
                assert(x == rest[k - head.len()]);
                let c = x[p.len() as int];
                let i = choose|i: int| 0 <= i < cs.drop_first().len() && cs.drop_first()[i].value == c;
                assert(cs[i + 1].value == c);
            }
        }
    }
}

/// Extending the enumerated front of a sibling sequence by one sibling
/// appends that sibling's words.
pub(crate) proof fn lemma_cw_take_step(cs: Seq<TrieNode>, j: int, p: Seq<char>)
    requires
        0 <= j < cs.len(),
    ensures
        children_words(cs.take(j + 1), p) == children_words(cs.take(j), p) + node_words(cs[j], p),
{
    assert(cs.take(j + 1) =~= cs.take(j) + seq![cs[j]]);
    lemma_cw_append(cs.take(j), seq![cs[j]], p);
    assert(seq![cs[j]].drop_first() =~= Seq::<TrieNode>::empty());
    assert(children_words(Seq::<TrieNode>::empty(), p) =~= Seq::<Seq<char>>::empty());
    assert(children_words(seq![cs[j]], p) =~= node_words(cs[j], p) + Seq::<Seq<char>>::empty());
    assert(node_words(cs[j], p) + Seq::<Seq<char>>::empty() =~= node_words(cs[j], p));
}

/// Shortening the enumerated back of a sibling sequence by one sibling
/// peels that sibling's words off the front.
pub(crate) proof fn lemma_cw_skip_step(cs: Seq<TrieNode>, j: int, p: Seq<char>)
    requires
        0 <= j < cs.len(),
    ensures
        children_words(cs.skip(j), p) == node_words(cs[j], p) + children_words(cs.skip(j + 1), p),
{
    assert(cs.skip(j)[0] == cs[j]);
    assert(cs.skip(j).drop_first() =~= cs.skip(j + 1));
}

/// Indistinguishable nodes offer the same words under every prefix.
pub(crate) proof fn lemma_nw_same(m: TrieNode, n: TrieNode, p: Seq<char>)
    requires
        same_node_state(m, n),
    ensures
        node_words(m, p) == node_words(n, p),
{
    assert(children_words(m.children@, p.push(m.value)) == children_words(
        n.children@,
        p.push(n.value),
    ));
}

/// Replacing one sibling by an indistinguishable node leaves the whole
/// sequence of siblings indistinguishable.
pub(crate) proof fn lemma_update_same(a: Seq<TrieNode>, j: int, m: TrieNode)
    requires
        0 <= j < a.len(),
        distinct_values(a),
        same_node_state(m, a[j]),
    ensures
        same_children_state(a.update(j, m), a),
{
    let b = a.update(j, m);
    assert(forall|k: int| 0 <= k < a.len() ==> b[k].value == a[k].value);
    assert(distinct_values(b));
    assert forall|c: char| has_value(b, c) == has_value(a, c) by {
        if has_value(a, c) {
            let i = idx_of(a, c);
            assert(b[i].value == c);
        }
        if has_value(b, c) {
            let i = idx_of(b, c);
            assert(a[i].value == c);
        }
    }
    assert forall|s: Seq<char>| children_has(b, s) == children_has(a, s) by {
        if s.len() > 0 && has_value(a, s[0]) {
            let k = idx_of(a, s[0]);
            lemma_idx_of(a, s[0], k);
            lemma_idx_of(b, s[0], k);
            if k != j {
                assert(b[k] == a[k]);
            } else {
                if s.drop_first().len() == 0 {
                } else {
                    assert(children_has(m.children@, s.drop_first()) == children_has(
                        a[j].children@,
                        s.drop_first(),
                    ));
                }
            }
        }
    }
    assert forall|p: Seq<char>| children_words(b, p) == children_words(a, p) by {
        lemma_cw_decompose(a, j, p);
        lemma_cw_decompose(b, j, p);
        assert(b.take(j) =~= a.take(j));
        assert(b.skip(j + 1) =~= a.skip(j + 1));
        lemma_nw_same(m, a[j], p);
    }
    assert forall|p: Seq<char>, pre: Seq<char>|
        children_completions(b, p, pre) == children_completions(a, p, pre) by {
        if p.len() > 0 && has_value(a, p[0]) {
            let k = idx_of(a, p[0]);
            lemma_idx_of(a, p[0], k);
            lemma_idx_of(b, p[0], k);
            if k != j {
                assert(b[k] == a[k]);
            } else {
                if p.len() == 1 {
                    lemma_nw_same(m, a[j], pre);
                } else {
                    assert(children_completions(
                        m.children@,
                        p.drop_first(),
                        pre.push(p[0]),
                    ) == children_completions(a[j].children@, p.drop_first(), pre.push(p[0])));
                }
            }
        }
    }
}

/// How membership reads through the replacement of the one sibling that
/// carries a given character: a walk starting with that character continues
/// in the replaced node, any other walk is untouched.
pub(crate) proof fn lemma_update_has(a: Seq<TrieNode>, j: int, m: TrieNode, s: Seq<char>)
    requires
        0 <= j < a.len(),
        distinct_values(a),
        m.value == a[j].value,
        s.len() > 0,
    ensures
        distinct_values(a.update(j, m)),
        s[0] == a[j].value ==> children_has(a.update(j, m), s) == node_has(m, s.drop_first()),
        s[0] == a[j].value ==> children_has(a, s) == node_has(a[j], s.drop_first()),
        s[0] != a[j].value ==> children_has(a.update(j, m), s) == children_has(a, s),
{
    let b = a.update(j, m);
    assert(forall|k: int| 0 <= k < a.len() ==> b[k].value == a[k].value);
    assert(distinct_values(b));
    if s[0] == a[j].value {
        lemma_idx_of(a, s[0], j);
        lemma_idx_of(b, s[0], j);
    } else {
        if has_value(a, s[0]) {
            let k = idx_of(a, s[0]);
            lemma_idx_of(a, s[0], k);
            lemma_idx_of(b, s[0], k);
            assert(b[k] == a[k]);
        } else {
            assert(!has_value(b, s[0])) by {
                if has_value(b, s[0]) {
                    let k = idx_of(b, s[0]);
                    assert(a[k].value == s[0]);
                }
            }
        }
    }
}

/// A childless terminal node is well formed.
pub(crate) proof fn lemma_wf_leaf(r: TrieNode)
    requires
        r.is_word,
        r.children@.len() == 0,
    ensures
        wf_node(r),
{
}

/// A node with one well-formed child is well formed.
pub(crate) proof fn lemma_wf_link(r: TrieNode)
    requires
        r.children@.len() == 1,
        wf_node(r.children@[0]),
    ensures
        wf_node(r),
{
}

/// A childless terminal node holds exactly the empty suffix.
pub(crate) proof fn lemma_leaf_has(r: TrieNode, s: Seq<char>, tail: Seq<char>)
    requires
        r.is_word,
        r.children@.len() == 0,
        tail.len() == 0,
    ensures
        node_has(r, s) <==> s == tail,
{
    if s.len() == 0 {
        assert(s =~= tail);
        assert(node_has(r, s));
    } else {
        assert(!has_value(r.children@, s[0]));
        assert(!node_has(r, s));
    }
}

/// A childless terminal node offers exactly its own word.
pub(crate) proof fn lemma_leaf_words(r: TrieNode, p: Seq<char>)
    requires
        r.is_word,
        r.children@.len() == 0,
    ensures
        node_words(r, p) == seq![p.push(r.value)],
{
    let full = p.push(r.value);
    assert(children_words(r.children@, full) =~= Seq::<Seq<char>>::empty());
    assert(node_words(r, p) =~= seq![full]);
}

/// A non-terminal node with one child holds exactly the suffixes that
/// continue through that child.
pub(crate) proof fn lemma_link_has(r: TrieNode, s: Seq<char>, ctail: Seq<char>, tail: Seq<char>)
    requires
        !r.is_word,
        r.children@.len() == 1,
        forall|d: Seq<char>| node_has(r.children@[0], d) <==> d == ctail,
        tail.len() > 0,
        tail[0] == r.children@[0].value,
        tail.drop_first() == ctail,
    ensures
        node_has(r, s) <==> s == tail,
{
    if s.len() == 0 {
        assert(!node_has(r, s));
        assert(s != tail);
    } else if s[0] == r.children@[0].value {
        lemma_idx_of(r.children@, s[0], 0);
        assert(node_has(r, s) == node_has(r.children@[0], s.drop_first()));
        if s.drop_first() == ctail {
            lemma_cons_eq(s, tail);
        }
        if s == tail {
            assert(s.drop_first() == ctail);
        }
    } else {
        assert(!has_value(r.children@, s[0])) by {
            if has_value(r.children@, s[0]) {
                let k = idx_of(r.children@, s[0]);
                assert(k == 0);
            }
        }
        assert(!node_has(r, s));
        assert(s != tail);
    }
}

/// A non-terminal node with one child offers exactly the words of that
/// child, one level deeper.
pub(crate) proof fn lemma_link_words(r: TrieNode, p: Seq<char>, suffix: Seq<char>)
    requires
        !r.is_word,
        r.children@.len() == 1,
        forall|q: Seq<char>| node_words(r.children@[0], q) == seq![q + suffix],
    ensures
        node_words(r, p) == seq![p.push(r.value) + suffix],
{
    let full = p.push(r.value);
    assert(r.children@.drop_first() =~= Seq::<TrieNode>::empty());
    assert(children_words(Seq::<TrieNode>::empty(), full) =~= Seq::<Seq<char>>::empty());
    assert(children_words(r.children@, full) == node_words(r.children@[0], full)
        + Seq::<Seq<char>>::empty());
    assert(node_words(r.children@[0], full) == seq![full + suffix]);
    assert(node_words(r, p) =~= seq![full + suffix]);
}

/// Two non-empty sequences with the same head and the same tail are equal.
pub(crate) proof fn lemma_cons_eq(s: Seq<char>, t: Seq<char>)
    requires
        s.len() > 0,
        t.len() > 0,
        s[0] == t[0],
        s.drop_first() == t.drop_first(),
    ensures
        s == t,
{
    assert(s.len() == s.drop_first().len() + 1);
    assert(t.len() == t.drop_first().len() + 1);
    assert forall|k: int| 0 <= k < s.len() implies s[k] == t[k] by {
        if k > 0 {
            assert(s[k] == s.drop_first()[k - 1]);
            assert(t[k] == t.drop_first()[k - 1]);
        }
    }
    assert(s =~= t);
}

/// An element of a concatenation comes from one of the two parts.
pub(crate) proof fn lemma_member_append<A>(a: Seq<A>, b: Seq<A>, x: A)
    ensures
        (a + b).contains(x) <==> (a.contains(x) || b.contains(x)),
{
    if a.contains(x) {
        let k = choose|k: int| 0 <= k < a.len() && a[k] == x;
        assert((a + b)[k] == x);
    }
    if b.contains(x) {
        let k = choose|k: int| 0 <= k < b.len() && b[k] == x;
        assert((a + b)[a.len() + k] == x);
    }
    if (a + b).contains(x) {
        let k = choose|k: int| 0 <= k < (a + b).len() && (a + b)[k] == x;
        if k < a.len() {
            assert(a[k] == x);
        } else {
            assert(b[k - a.len()] == x);
        }
    }
}

/// A word stands in the enumeration of `n`'s subtree exactly when it
/// extends the prefix by `n`'s character and a contained suffix.
pub(crate) proof fn lemma_nw_member(n: TrieNode, p: Seq<char>, x: Seq<char>)
    requires
        wf_node(n),
    ensures
        node_words(n, p).contains(x) <==> {
            &&& x.len() > p.len()
            &&& x.take(p.len() as int) == p
            &&& x[p.len() as int] == n.value
            &&& node_has(n, x.skip(p.len() + 1 as int))
        },
    decreases n, 1int,
{
    let full = p.push(n.value);
    let head: Seq<Seq<char>> = if n.is_word {
        seq![full]
    } else {
        Seq::<Seq<char>>::empty()
    };
    lemma_member_append(head, children_words(n.children@, full), x);
    lemma_cw_member(n.children@, full, x);
    lemma_nw_shape(n, p);
    if node_words(n, p).contains(x) {
        let k = choose|k: int| 0 <= k < node_words(n, p).len() && node_words(n, p)[k] == x;
        assert(x.len() > p.len() && x.take(p.len() as int) == p && x[p.len() as int] == n.value);
        if head.contains(x) {
            assert(x == full);
            assert(x.skip(p.len() + 1 as int) =~= Seq::<char>::empty());
            assert(node_has(n, x.skip(p.len() + 1 as int)));
        } else {
            let d = x.skip(full.len() as int);
            assert(children_has(n.children@, d));
            assert(d.len() > 0);
            assert(x.skip(p.len() + 1 as int) == d);
        }
    }
    if x.len() > p.len() && x.take(p.len() as int) == p && x[p.len() as int] == n.value
        && node_has(n, x.skip(p.len() + 1 as int)) {
        let d = x.skip(p.len() + 1 as int);
        if d.len() == 0 {
            assert(n.is_word);
            assert(x =~= full);
            assert(head[0] == x);
            assert(head.contains(x));
        } else {
            assert(children_has(n.children@, d));
            assert(x.len() > full.len());
            assert(x.take(full.len() as int) =~= full) by {
                assert(forall|k: int|
                    0 <= k < p.len() ==> x.take(full.len() as int)[k] == x.take(p.len() as int)[k]);
            }
            assert(children_words(n.children@, full).contains(x));
        }
    }
}

/// A word stands in the enumeration below the siblings `cs` exactly when
/// it extends the prefix by a contained suffix.
pub(crate) proof fn lemma_cw_member(cs: Seq<TrieNode>, p: Seq<char>, x: Seq<char>)
    requires
        wf_children(cs),
    ensures
        children_words(cs, p).contains(x) <==> {
            &&& x.len() > p.len()
            &&& x.take(p.len() as int) == p
            &&& children_has(cs, x.skip(p.len() as int))
        },
    decreases cs, 0int,
{
    if cs.len() == 0 {
        assert(!children_words(cs, p).contains(x));
        assert(!has_value(cs, x.skip(p.len() as int)[0])) by {
            if has_value(cs, x.skip(p.len() as int)[0]) {
                let k = idx_of(cs, x.skip(p.len() as int)[0]);
            }
        }
    } else {
        let rest = cs.drop_first();
        assert(wf_children(rest)) by {
            assert(forall|k: int| 0 <= k < rest.len() ==> rest[k] == cs[k + 1]);
        }
        lemma_member_append(node_words(cs[0], p), children_words(rest, p), x);
        lemma_nw_member(cs[0], p, x);
        lemma_cw_member(rest, p, x);
        let d = x.skip(p.len() as int);
        if x.len() > p.len() {
            assert(d.len() > 0);
            assert(d[0] == x[p.len() as int]);
            assert(d.drop_first() =~= x.skip(p.len() + 1 as int));
            if d[0] == cs[0].value {
                lemma_idx_of(cs, d[0], 0);
                assert(children_has(cs, d) == node_has(cs[0], d.drop_first()));
                assert(!children_has(rest, d)) by {
                    if has_value(rest, d[0]) {
                        let k = idx_of(rest, d[0]);
                        assert(cs[k + 1].value == d[0]);
                    }
                }
            } else {
                assert(children_has(cs, d) == children_has(rest, d)) by {
                    if has_value(cs, d[0]) {
                        let k = idx_of(cs, d[0]);
                        lemma_idx_of(cs, d[0], k);
                        assert(rest[k - 1] == cs[k]);
                        lemma_idx_of(rest, d[0], k - 1);
                    } else {
                        assert(!has_value(rest, d[0])) by {
                            if has_value(rest, d[0]) {
                                let k = idx_of(rest, d[0]);
                                assert(cs[k + 1].value == d[0]);
                            }
                        }
                    }
                }
            }
        }
    }
}

/// Every well-formed node's subtree holds at least one word.
pub(crate) proof fn lemma_wf_word_exists(n: TrieNode)
    requires
        wf_node(n),
    ensures
        exists|s: Seq<char>| node_has(n, s),
    decreases n,
{
    if n.is_word {
        assert(node_has(n, Seq::<char>::empty()));
    } else {
        let child = n.children@[0];
        lemma_wf_word_exists(child);
        let d = choose|d: Seq<char>| node_has(child, d);
        let s = seq![child.value] + d;
        lemma_idx_of(n.children@, child.value, 0);
        assert(s[0] == child.value);
        assert(s.drop_first() =~= d);
        assert(node_has(n, s));
    }
}

/// How membership reads through the removal of the one sibling that
/// carries a given character.
pub(crate) proof fn lemma_remove_has(a: Seq<TrieNode>, j: int, s: Seq<char>)
    requires
        distinct_values(a),
        0 <= j < a.len(),
        s.len() > 0,
    ensures
        distinct_values(a.remove(j)),
        s[0] == a[j].value ==> !children_has(a.remove(j), s),
        s[0] == a[j].value ==> children_has(a, s) == node_has(a[j], s.drop_first()),
        s[0] != a[j].value ==> children_has(a.remove(j), s) == children_has(a, s),
{
    let b = a.remove(j);
    assert(forall|k: int| 0 <= k < j ==> b[k] == a[k]);
    assert(forall|k: int| j <= k < b.len() ==> b[k] == a[k + 1]);
    assert(distinct_values(b));
    if s[0] == a[j].value {
        lemma_idx_of(a, s[0], j);
        assert(!has_value(b, s[0])) by {
            if has_value(b, s[0]) {
                let k = idx_of(b, s[0]);
                if k < j {
                    assert(a[k].value == s[0]);
                } else {
                    assert(a[k + 1].value == s[0]);
                }
            }
        }
    } else {
        if has_value(a, s[0]) {
            let k = idx_of(a, s[0]);
            lemma_idx_of(a, s[0], k);
            if k < j {
                lemma_idx_of(b, s[0], k);
            } else {
                assert(b[k - 1] == a[k]);
                lemma_idx_of(b, s[0], k - 1);
            }
        } else {
            assert(!has_value(b, s[0])) by {
                if has_value(b, s[0]) {
                    let k = idx_of(b, s[0]);
                    if k < j {
                        assert(a[k].value == s[0]);
                    } else {
                        assert(a[k + 1].value == s[0]);
                    }
                }
            }
        }
    }
}

/// A filter that keeps no element of a sequence returns the empty one.
pub(crate) proof fn lemma_filter_none<A>(s: Seq<A>, pred: spec_fn(A) -> bool)
    requires
        forall|i: int| 0 <= i < s.len() ==> !pred(#[trigger] s[i]),
    ensures
        s.filter(pred) == Seq::<A>::empty(),
    decreases s.len(),
{
    reveal(Seq::filter);
    if s.len() > 0 {
        lemma_filter_none(s.drop_last(), pred);
    }
}

/// The completions of a non-empty prefix are exactly the words extending
/// it, kept in enumeration order.
pub(crate) proof fn lemma_cc_filter(cs: Seq<TrieNode>, p: Seq<char>, pre: Seq<char>)
    requires
        wf_children(cs),
        p.len() > 0,
    ensures
        children_completions(cs, p, pre) == children_words(cs, pre).filter(with_prefix(pre + p)),
    decreases p.len(),
{
    let t = pre + p;
    let pred = with_prefix(t);
    let ws = children_words(cs, pre);
    lemma_cw_shape(cs, pre);
    assert(t[pre.len() as int] == p[0]);
    if !has_value(cs, p[0]) {
        assert forall|i: int| 0 <= i < ws.len() implies !pred(#[trigger] ws[i]) by {
            let x = ws[i];
            if pred(x) {
                assert(x.take(t.len() as int)[pre.len() as int] == x[pre.len() as int]);
                assert(has_value(cs, p[0]));
            }
        }
        lemma_filter_none(ws, pred);
    } else {
        let j = idx_of(cs, p[0]);
        assert(0 <= j < cs.len() && cs[j].value == p[0]);
        let c = cs[j].value;
        let full = pre.push(c);
        let aw = children_words(cs.take(j), pre);
        let bw = node_words(cs[j], pre);
        let cw2 = children_words(cs.skip(j + 1), pre);
        let inner = children_words(cs[j].children@, full);
        lemma_cw_decompose(cs, j, pre);
        lemma_cw_shape(cs.take(j), pre);
        lemma_cw_shape(cs.skip(j + 1), pre);
        lemma_cw_shape(cs[j].children@, full);
        Seq::<Seq<char>>::filter_distributes_over_add(aw + bw, cw2, pred);
        Seq::<Seq<char>>::filter_distributes_over_add(aw, bw, pred);
        assert forall|i: int| 0 <= i < aw.len() implies !pred(#[trigger] aw[i]) by {
            let x = aw[i];
            assert(has_value(cs.take(j), x[pre.len() as int]));
            assert(x[pre.len() as int] != c) by {
                let k = choose|k: int|
                    0 <= k < cs.take(j).len() && (#[trigger] cs.take(j)[k]).value == x[pre.len() as int];
                assert(cs[k].value == x[pre.len() as int]);
            }
            if pred(x) {
                assert(x.take(t.len() as int)[pre.len() as int] == x[pre.len() as int]);
            }
        }
        lemma_filter_none(aw, pred);
        assert forall|i: int| 0 <= i < cw2.len() implies !pred(#[trigger] cw2[i]) by {
            let x = cw2[i];
            assert(has_value(cs.skip(j + 1), x[pre.len() as int]));
            assert(x[pre.len() as int] != c) by {
                let k = choose|k: int|
                    0 <= k < cs.skip(j + 1).len() && (#[trigger] cs.skip(j + 1)[k]).value == x[pre.len() as int];
                assert(cs[k + j + 1].value == x[pre.len() as int]);
            }
            if pred(x) {
                assert(x.take(t.len() as int)[pre.len() as int] == x[pre.len() as int]);
            }
        }
        lemma_filter_none(cw2, pred);
        assert(wf_node(cs[j]));
        if p.len() == 1 {
            assert(t =~= full);
            assert forall|i: int| 0 <= i < bw.len() implies pred(#[trigger] bw[i]) by {
                let x = bw[i];
                lemma_nw_shape(cs[j], pre);
                assert(x.take(full.len() as int) =~= full) by {
                    assert(forall|k: int|
                        0 <= k < pre.len() ==> x.take(full.len() as int)[k] == x.take(
                            pre.len() as int,
                        )[k]);
                    assert(x.take(full.len() as int)[pre.len() as int] == x[pre.len() as int]);
                }
            }
            lemma_filter_all_true(bw, pred);
            assert(children_completions(cs, p, pre) == bw);
            assert(Seq::<Seq<char>>::empty() + bw =~= bw);
            assert(bw + Seq::<Seq<char>>::empty() =~= bw);
        } else {
            assert(p.drop_first().len() > 0);
            lemma_cc_filter(cs[j].children@, p.drop_first(), full);
            assert(full + p.drop_first() =~= t);
            assert(children_completions(cs, p, pre) == inner.filter(pred));
            let head: Seq<Seq<char>> = if cs[j].is_word {
                seq![full]
            } else {
                Seq::<Seq<char>>::empty()
            };
            assert(bw == head + inner);
            Seq::<Seq<char>>::filter_distributes_over_add(head, inner, pred);
            assert forall|i: int| 0 <= i < head.len() implies !pred(#[trigger] head[i]) by {
                assert(head[i] == full);
                assert(full.len() < t.len());
            }
            lemma_filter_none(head, pred);
            assert(bw.filter(pred) =~= inner.filter(pred));
            assert(Seq::<Seq<char>>::empty() + bw.filter(pred) =~= bw.filter(pred));
            assert(bw.filter(pred) + Seq::<Seq<char>>::empty() =~= bw.filter(pred));
        }
    }
}

/// A filter that keeps every element of a sequence returns it unchanged.
pub(crate) proof fn lemma_filter_all_true<A>(s: Seq<A>, pred: spec_fn(A) -> bool)
    requires
        forall|i: int| 0 <= i < s.len() ==> pred(#[trigger] s[i]),
    ensures
        s.filter(pred) == s,
    decreases s.len(),
{
    reveal(Seq::filter);
    if s.len() > 0 {
        lemma_filter_all_true(s.drop_last(), pred);
        assert(s.drop_last().push(s.last()) =~= s);
    }
}

/// Indistinguishability is reflexive.
pub(crate) proof fn lemma_same_reflexive(a: Seq<TrieNode>)
    ensures
        same_children_state(a, a),
{
}

/// A sequence of siblings indistinguishable from a non-empty well-formed
/// one cannot be empty: some word lives below both.
pub(crate) proof fn lemma_same_state_nonempty(a: Seq<TrieNode>, b: Seq<TrieNode>)
    requires
        same_children_state(a, b),
        wf_children(b),
        b.len() > 0,
    ensures
        a.len() > 0,
{
    let child = b[0];
    lemma_wf_word_exists(child);
    let d = choose|d: Seq<char>| node_has(child, d);
    let s = seq![child.value] + d;
    lemma_idx_of(b, child.value, 0);
    assert(s[0] == child.value);
    assert(s.drop_first() =~= d);
    assert(children_has(b, s));
    assert(children_has(a, s));
}

/// A subtree enumeration under a prefix that already reaches past the
/// target's position keeps every word when filtering the target away:
/// every enumerated word is strictly longer than the prefix.
pub(crate) proof fn lemma_filter_longer(cs: Seq<TrieNode>, p: Seq<char>, t: Seq<char>)
    requires
        t.len() <= p.len(),
    ensures
        children_words(cs, p).filter(all_but(t)) == children_words(cs, p),
{
    lemma_cw_shape(cs, p);
    lemma_filter_all_true(children_words(cs, p), all_but(t));
}

/// Filtering a target word away keeps the enumeration of siblings none of
/// which carries the target's next character.
pub(crate) proof fn lemma_filter_segment_all_kept(cs: Seq<TrieNode>, p: Seq<char>, t: Seq<char>)
    requires
        t.len() > p.len(),
        !has_value(cs, t[p.len() as int]),
    ensures
        children_words(cs, p).filter(all_but(t)) == children_words(cs, p),
{
    lemma_cw_shape(cs, p);
    assert forall|k: int| 0 <= k < children_words(cs, p).len() implies all_but(t)(
        #[trigger] children_words(cs, p)[k],
    ) by {
        let x = children_words(cs, p)[k];
        if x == t {
            assert(has_value(cs, t[p.len() as int]));
        }
    }
    lemma_filter_all_true(children_words(cs, p), all_but(t));
}

/// The two sibling segments on either side of index `j` keep all their
/// words when the target starting with `cs[j]`'s character is filtered.
pub(crate) proof fn lemma_remove_sides(cs: Seq<TrieNode>, j: int, p: Seq<char>, t: Seq<char>)
    requires
        distinct_values(cs),
        0 <= j < cs.len(),
        t.len() > p.len(),
        t[p.len() as int] == cs[j].value,
    ensures
        children_words(cs.take(j), p).filter(all_but(t)) == children_words(cs.take(j), p),
        children_words(cs.skip(j + 1), p).filter(all_but(t)) == children_words(
            cs.skip(j + 1),
            p,
        ),
{
    let c = cs[j].value;
    assert(!has_value(cs.take(j), c)) by {
        if has_value(cs.take(j), c) {
            let k = idx_of(cs.take(j), c);
            assert(cs[k].value == c);
        }
    }
    assert(!has_value(cs.skip(j + 1), c)) by {
        if has_value(cs.skip(j + 1), c) {
            let k = idx_of(cs.skip(j + 1), c);
            assert(cs[k + j + 1].value == c);
        }
    }
    lemma_filter_segment_all_kept(cs.take(j), p, t);
    lemma_filter_segment_all_kept(cs.skip(j + 1), p, t);
}

/// Filtering a concatenation of three parts whose outer parts are kept
/// whole reduces to filtering the middle part.
pub(crate) proof fn lemma_filter_combine<A>(
    a: Seq<A>,
    b: Seq<A>,
    c: Seq<A>,
    bf: Seq<A>,
    pred: spec_fn(A) -> bool,
)
    requires
        a.filter(pred) == a,
        c.filter(pred) == c,
        b.filter(pred) == bf,
    ensures
        (a + b + c).filter(pred) == a + bf + c,
{
    Seq::<A>::filter_distributes_over_add(a + b, c, pred);
    Seq::<A>::filter_distributes_over_add(a, b, pred);
}

/// Filtering a singleton keeps or drops its one element.
pub(crate) proof fn lemma_filter_singleton<A>(x: A, pred: spec_fn(A) -> bool)
    ensures
        pred(x) ==> seq![x].filter(pred) == seq![x],
        !pred(x) ==> seq![x].filter(pred) == Seq::<A>::empty(),
{
    reveal(Seq::filter);
    assert(seq![x].drop_last() =~= Seq::<A>::empty());
    assert(Seq::<A>::empty().filter(pred) =~= Seq::<A>::empty());
    if pred(x) {
        assert(Seq::<A>::empty().push(x) =~= seq![x]);
    }
}

} // verus!
