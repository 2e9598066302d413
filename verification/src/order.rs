//! Proof lemmas for insertion order: where a newly inserted word lands in
//! the enumeration of a trie.

use vstd::prelude::*;

use crate::lemmas::{lemma_cw_decompose, lemma_cw_shape};
use crate::node::{
    TrieNode, children_words, has_value, node_words, wf_children, wf_node,
};
use crate::trie::{common_len, enum_before, splice_pos};

verus! {

/// The longest common prefix is at least as long as any shared prefix.
pub(crate) proof fn lemma_common_len_at_least(a: Seq<char>, b: Seq<char>, d: int)
    requires
        0 <= d <= a.len(),
        d <= b.len(),
        a.take(d) == b.take(d),
    ensures
        common_len(a, b) >= d,
    decreases d,
{
    if d > 0 {
        assert(a.take(d)[0] == a[0]);
        assert(b.take(d)[0] == b[0]);
        assert(a.drop_first().take(d - 1) =~= a.take(d).drop_first());
        assert(b.drop_first().take(d - 1) =~= b.take(d).drop_first());
        lemma_common_len_at_least(a.drop_first(), b.drop_first(), d - 1);
    }
}

/// Where two words share a prefix of length `d` and then differ or end,
/// their longest common prefix is exactly `d`.
pub(crate) proof fn lemma_common_len_exact(a: Seq<char>, b: Seq<char>, d: int)
    requires
        0 <= d <= a.len(),
        d <= b.len(),
        a.take(d) == b.take(d),
        d < a.len() && d < b.len() ==> a[d] != b[d],
    ensures
        common_len(a, b) == d,
    decreases d,
{
    if d == 0 {
        if a.len() > 0 && b.len() > 0 {
            assert(a[0] != b[0]);
        }
    } else {
        assert(a.take(d)[0] == a[0]);
        assert(b.take(d)[0] == b[0]);
        assert(a.drop_first().take(d - 1) =~= a.take(d).drop_first());
        assert(b.drop_first().take(d - 1) =~= b.take(d).drop_first());
        if d < a.len() && d < b.len() {
            assert(a.drop_first()[d - 1] == a[d]);
            assert(b.drop_first()[d - 1] == b[d]);
        }
        lemma_common_len_exact(a.drop_first(), b.drop_first(), d - 1);
    }
}

/// Dropping the last word of the enumeration does not change whether an
/// earlier word stands before the inserted one.
pub(crate) proof fn lemma_enum_before_drop_last(ws: Seq<Seq<char>>, i: int, w: Seq<char>)
    requires
        0 <= i < ws.len() - 1,
    ensures
        enum_before(ws.drop_last(), i, w) == enum_before(ws, i, w),
{
    let t = ws.drop_last();
    assert(t[i] == ws[i]);
    let x = ws[i];
    let d = common_len(x, w);
    if d == x.len() || d == w.len() {
    } else {
        if forall|j: int| 0 <= j < i ==> common_len(#[trigger] t[j], w) <= d {
            assert forall|j: int| 0 <= j < i implies common_len(#[trigger] ws[j], w) <= d by {
                assert(ws[j] == t[j]);
                assert(common_len(t[j], w) <= d);
            }
        }
        if forall|j: int| 0 <= j < i ==> common_len(#[trigger] ws[j], w) <= d {
            assert forall|j: int| 0 <= j < i implies common_len(#[trigger] t[j], w) <= d by {
                assert(t[j] == ws[j]);
                assert(common_len(ws[j], w) <= d);
            }
        }
    }
}

/// How the splice position reads over an enumeration of three segments:
/// every word of the first stands before the new word, every word of the
/// last after it, and the middle mirrors the smaller enumeration `inner`.
pub(crate) proof fn lemma_splice_segments(
    ws: Seq<Seq<char>>,
    w: Seq<char>,
    a: int,
    inner: Seq<Seq<char>>,
)
    requires
        0 <= a,
        a + inner.len() <= ws.len(),
        forall|i: int| 0 <= i < a ==> enum_before(ws, i, w),
        forall|i: int|
            a <= i < a + inner.len() ==> enum_before(ws, i, w) == enum_before(inner, i - a, w),
        forall|i: int| a + inner.len() <= i < ws.len() ==> !enum_before(ws, i, w),
    ensures
        splice_pos(ws, w) == a + splice_pos(inner, w),
    decreases ws.len(),
{
    let b = inner.len() as int;
    if ws.len() == 0 {
        assert(splice_pos(inner, w) == 0);
    } else {
        let last = ws.len() - 1;
        assert forall|i: int| 0 <= i < last implies enum_before(ws.drop_last(), i, w)
            == enum_before(ws, i, w) by {
            lemma_enum_before_drop_last(ws, i, w);
        }
        if last >= a + b {
            assert(!enum_before(ws, last, w));
            assert forall|i: int| 0 <= i < a implies enum_before(ws.drop_last(), i, w) by {
                lemma_enum_before_drop_last(ws, i, w);
            }
            assert forall|i: int|
                a <= i < a + b implies enum_before(ws.drop_last(), i, w) == enum_before(
                inner,
                i - a,
                w,
            ) by {
                lemma_enum_before_drop_last(ws, i, w);
            }
            assert forall|i: int|
                a + b <= i < ws.drop_last().len() implies !enum_before(ws.drop_last(), i, w) by {
                lemma_enum_before_drop_last(ws, i, w);
            }
            lemma_splice_segments(ws.drop_last(), w, a, inner);
        } else if last >= a {
            assert(enum_before(ws, last, w) == enum_before(inner, b - 1, w));
            assert forall|i: int| 0 <= i < a implies enum_before(ws.drop_last(), i, w) by {
                lemma_enum_before_drop_last(ws, i, w);
            }
            assert forall|i: int|
                a <= i < a + inner.drop_last().len() implies enum_before(ws.drop_last(), i, w)
                == enum_before(inner.drop_last(), i - a, w) by {
                lemma_enum_before_drop_last(ws, i, w);
                lemma_enum_before_drop_last(inner, i - a, w);
            }
            lemma_splice_segments(ws.drop_last(), w, a, inner.drop_last());
            assert(splice_pos(inner, w) == splice_pos(inner.drop_last(), w) + if enum_before(
                inner,
                b - 1,
                w,
            ) {
                1int
            } else {
                0int
            });
        } else {
            assert(b == 0);
            assert(enum_before(ws, last, w));
            assert forall|i: int| 0 <= i < a - 1 implies enum_before(ws.drop_last(), i, w) by {
                lemma_enum_before_drop_last(ws, i, w);
            }
            lemma_splice_segments(ws.drop_last(), w, a - 1, inner);
        }
    }
}

/// Splicing into the middle part of a concatenation of three sequences.
pub(crate) proof fn lemma_insert_concat(
    x: Seq<Seq<char>>,
    y: Seq<Seq<char>>,
    z: Seq<Seq<char>>,
    k: int,
    v: Seq<char>,
)
    requires
        0 <= k <= y.len(),
    ensures
        (x + y + z).insert(x.len() + k, v) == x + y.insert(k, v) + z,
{
    (x + y + z).insert_ensures(x.len() + k, v);
    y.insert_ensures(k, v);
    assert((x + y + z).insert(x.len() + k, v) =~= x + y.insert(k, v) + z);
}

/// The splice position always falls within the enumeration.
pub(crate) proof fn lemma_splice_bounds(ws: Seq<Seq<char>>, w: Seq<char>)
    ensures
        0 <= splice_pos(ws, w) <= ws.len(),
    decreases ws.len(),
{
    if ws.len() > 0 {
        lemma_splice_bounds(ws.drop_last(), w);
    }
}

/// A well-formed node's subtree offers at least one word.
pub(crate) proof fn lemma_nw_nonempty(n: TrieNode, p: Seq<char>)
    requires
        wf_node(n),
    ensures
        node_words(n, p).len() > 0,
    decreases n,
{
    if !n.is_word {
        let full = p.push(n.value);
        lemma_nw_nonempty(n.children@[0], full);
        assert(children_words(n.children@, full).len() >= node_words(n.children@[0], full).len());
    }
}

/// When no sibling carries the next character of `w`, every word of the
/// enumeration stands before `w`: a branch made for `w` is appended after
/// all its siblings.
pub(crate) proof fn lemma_splice_append(cs: Seq<TrieNode>, p: Seq<char>, w: Seq<char>)
    requires
        !has_value(cs, w[p.len() as int]),
        p.len() < w.len(),
        w.take(p.len() as int) == p,
    ensures
        splice_pos(children_words(cs, p), w) == children_words(cs, p).len(),
{
    let ws = children_words(cs, p);
    lemma_cw_shape(cs, p);
    assert forall|i: int| 0 <= i < ws.len() implies enum_before(ws, i, w) by {
        let x = ws[i];
        assert(has_value(cs, x[p.len() as int]));
        assert(x.take(p.len() as int) == w.take(p.len() as int));
        lemma_common_len_exact(x, w, p.len() as int);
        assert forall|j: int| 0 <= j < i implies common_len(#[trigger] ws[j], w) <= p.len() by {
            assert(has_value(cs, ws[j][p.len() as int]));
            assert(ws[j].take(p.len() as int) == w.take(p.len() as int));
            lemma_common_len_exact(ws[j], w, p.len() as int);
        }
    }
    lemma_splice_segments(ws, w, ws.len() as int, Seq::<Seq<char>>::empty());
}

/// When `w` spells the path to the non-terminal sibling at `j` itself,
/// `w` lands right before that sibling's subtree: after the earlier
/// siblings' words, before everything that extends `w`.
pub(crate) proof fn lemma_splice_land(cs: Seq<TrieNode>, j: int, p: Seq<char>, w: Seq<char>)
    requires
        wf_children(cs),
        0 <= j < cs.len(),
        w == p.push(cs[j].value),
        !cs[j].is_word,
    ensures
        splice_pos(children_words(cs, p), w) == children_words(cs.take(j), p).len(),
{
    let c = cs[j].value;
    let full = p.push(c);
    let ws = children_words(cs, p);
    let aw = children_words(cs.take(j), p);
    let bw = node_words(cs[j], p);
    let cw2 = children_words(cs.skip(j + 1), p);
    lemma_cw_decompose(cs, j, p);
    lemma_cw_shape(cs.take(j), p);
    lemma_cw_shape(cs.skip(j + 1), p);
    assert(wf_node(cs[j]));
    lemma_nw_nonempty(cs[j], p);
    assert(bw =~= children_words(cs[j].children@, full));
    lemma_cw_shape(cs[j].children@, full);
    assert(w.take(p.len() as int) =~= p);
    assert(w[p.len() as int] == c);
    assert forall|i: int| 0 <= i < ws.len() implies (enum_before(ws, i, w) == (i < aw.len())) by {
        let x = ws[i];
        if i < aw.len() {
            assert(x == aw[i]);
            assert(has_value(cs.take(j), x[p.len() as int]));
            assert(x[p.len() as int] != c) by {
                let k = choose|k: int|
                    0 <= k < cs.take(j).len() && (#[trigger] cs.take(j)[k]).value == x[p.len() as int];
                assert(cs[k].value == x[p.len() as int]);
            }
            assert(x.take(p.len() as int) == w.take(p.len() as int));
            lemma_common_len_exact(x, w, p.len() as int);
            assert forall|j2: int| 0 <= j2 < i implies common_len(#[trigger] ws[j2], w)
                <= p.len() by {
                assert(ws[j2] == aw[j2]);
                assert(has_value(cs.take(j), ws[j2][p.len() as int]));
                assert(ws[j2][p.len() as int] != c) by {
                    let k = choose|k: int|
                        0 <= k < cs.take(j).len() && (#[trigger] cs.take(j)[k]).value == ws[j2][p.len() as int];
                    assert(cs[k].value == ws[j2][p.len() as int]);
                }
                assert(ws[j2].take(p.len() as int) == w.take(p.len() as int));
                lemma_common_len_exact(ws[j2], w, p.len() as int);
            }
        } else if i < aw.len() + bw.len() {
            assert(x == bw[i - aw.len()]);
            assert(x.len() > full.len());
            assert(x.take(full.len() as int) == full);
            assert(w.take(w.len() as int) =~= w);
            lemma_common_len_exact(x, w, w.len() as int);
            assert(!enum_before(ws, i, w));
        } else {
            assert(x == cw2[i - aw.len() - bw.len()]);
            let y = ws[aw.len() as int];
            assert(y == bw[0]);
            assert(y.take(full.len() as int) == full);
            assert(w.take(w.len() as int) =~= w);
            lemma_common_len_exact(y, w, w.len() as int);
            assert(has_value(cs.skip(j + 1), x[p.len() as int]));
            assert(x[p.len() as int] != c) by {
                let k = choose|k: int|
                    0 <= k < cs.skip(j + 1).len() && (#[trigger] cs.skip(j + 1)[k]).value == x[p.len() as int];
                assert(cs[k + j + 1].value == x[p.len() as int]);
            }
            assert(x.take(p.len() as int) == w.take(p.len() as int));
            lemma_common_len_exact(x, w, p.len() as int);
            assert(common_len(y, w) > p.len());
            assert(!enum_before(ws, i, w));
        }
    }
    lemma_splice_segments(ws, w, aw.len() as int, Seq::<Seq<char>>::empty());
}

/// When `w` continues past the sibling at `j`, its place is that sibling's
/// own word (if any) plus the earlier siblings' words, plus wherever `w`
/// lands among the words below that sibling.
pub(crate) proof fn lemma_splice_deep(cs: Seq<TrieNode>, j: int, p: Seq<char>, w: Seq<char>)
    requires
        wf_children(cs),
        0 <= j < cs.len(),
        p.len() + 1 < w.len(),
        w.take(p.len() as int) == p,
        w[p.len() as int] == cs[j].value,
    ensures
        splice_pos(children_words(cs, p), w) == children_words(cs.take(j), p).len() + (if cs[j].is_word {
            1int
        } else {
            0int
        }) + splice_pos(children_words(cs[j].children@, p.push(cs[j].value)), w),
{
    let c = cs[j].value;
    let full = p.push(c);
    let ws = children_words(cs, p);
    let aw = children_words(cs.take(j), p);
    let bw = node_words(cs[j], p);
    let cw2 = children_words(cs.skip(j + 1), p);
    let hb: int = if cs[j].is_word {
        1int
    } else {
        0int
    };
    let inner = children_words(cs[j].children@, full);
    let off = aw.len() + hb;
    lemma_cw_decompose(cs, j, p);
    lemma_cw_shape(cs.take(j), p);
    lemma_cw_shape(cs.skip(j + 1), p);
    assert(wf_node(cs[j]));
    lemma_nw_nonempty(cs[j], p);
    lemma_cw_shape(cs[j].children@, full);
    assert(w.take(full.len() as int) =~= full) by {
        assert(forall|k: int|
            0 <= k < p.len() ==> w.take(full.len() as int)[k] == w.take(p.len() as int)[k]);
    }
    assert(bw == (if cs[j].is_word {
        seq![full]
    } else {
        Seq::<Seq<char>>::empty()
    }) + inner);
    assert forall|i: int| 0 <= i < ws.len() implies (if i < off {
        enum_before(ws, i, w)
    } else if i < off + inner.len() {
        enum_before(ws, i, w) == enum_before(inner, i - off, w)
    } else {
        !enum_before(ws, i, w)
    }) by {
        let x = ws[i];
        if i < aw.len() {
            assert(x == aw[i]);
            assert(has_value(cs.take(j), x[p.len() as int]));
            assert(x[p.len() as int] != c) by {
                let k = choose|k: int|
                    0 <= k < cs.take(j).len() && (#[trigger] cs.take(j)[k]).value == x[p.len() as int];
                assert(cs[k].value == x[p.len() as int]);
            }
            assert(x.take(p.len() as int) == w.take(p.len() as int));
            lemma_common_len_exact(x, w, p.len() as int);
            assert forall|j2: int| 0 <= j2 < i implies common_len(#[trigger] ws[j2], w)
                <= p.len() by {
                assert(ws[j2] == aw[j2]);
                assert(has_value(cs.take(j), ws[j2][p.len() as int]));
                assert(ws[j2][p.len() as int] != c) by {
                    let k = choose|k: int|
                        0 <= k < cs.take(j).len() && (#[trigger] cs.take(j)[k]).value == ws[j2][p.len() as int];
                    assert(cs[k].value == ws[j2][p.len() as int]);
                }
                assert(ws[j2].take(p.len() as int) == w.take(p.len() as int));
                lemma_common_len_exact(ws[j2], w, p.len() as int);
            }
            assert(enum_before(ws, i, w));
        } else if i < off {
            // the sibling's own word, a proper prefix of `w`
            assert(x == bw[0]);
            assert(x == full);
            assert(x.take(full.len() as int) =~= x);
            lemma_common_len_exact(x, w, full.len() as int);
            assert(enum_before(ws, i, w));
        } else if i < off + inner.len() {
            assert(x == bw[i - aw.len()]);
            assert(x == inner[i - off]);
            assert(x.take(full.len() as int) == full);
            lemma_common_len_at_least(x, w, full.len() as int);
            let d = common_len(x, w);
            if d == x.len() || d == w.len() {
            } else {
                if forall|j2: int| 0 <= j2 < i ==> common_len(#[trigger] ws[j2], w) <= d {
                    assert forall|j2: int| 0 <= j2 < i - off implies common_len(
                        #[trigger] inner[j2],
                        w,
                    ) <= d by {
                        assert(inner[j2] == ws[j2 + off]);
                        assert(common_len(ws[j2 + off], w) <= d);
                    }
                }
                if forall|j2: int| 0 <= j2 < i - off ==> common_len(#[trigger] inner[j2], w)
                    <= d {
                    assert forall|j2: int| 0 <= j2 < i implies common_len(#[trigger] ws[j2], w)
                        <= d by {
                        if j2 < aw.len() {
                            assert(ws[j2] == aw[j2]);
                            assert(has_value(cs.take(j), ws[j2][p.len() as int]));
                            assert(ws[j2][p.len() as int] != c) by {
                                let k = choose|k: int|
                                    0 <= k < cs.take(j).len() && (#[trigger] cs.take(j)[k]).value == ws[j2][p.len() as int];
                                assert(cs[k].value == ws[j2][p.len() as int]);
                            }
                            assert(ws[j2].take(p.len() as int) == w.take(p.len() as int));
                            lemma_common_len_exact(ws[j2], w, p.len() as int);
                            assert(d >= full.len());
                        } else if j2 < off {
                            assert(ws[j2] == full);
                            assert(ws[j2].take(full.len() as int) =~= ws[j2]);
                            lemma_common_len_exact(ws[j2], w, full.len() as int);
                            assert(d >= full.len());
                        } else {
                            assert(ws[j2] == inner[j2 - off]);
                            assert(common_len(inner[j2 - off], w) <= d);
                        }
                    }
                }
                assert(enum_before(ws, i, w) == enum_before(inner, i - off, w));
            }
        } else {
            assert(x == cw2[i - aw.len() - bw.len()]);
            let y = ws[aw.len() as int];
            assert(common_len(y, w) >= full.len()) by {
                if cs[j].is_word {
                    assert(y == bw[0]);
                    assert(y == full);
                    assert(y.take(full.len() as int) =~= y);
                    lemma_common_len_exact(y, w, full.len() as int);
                } else {
                    assert(y == bw[0]);
                    assert(y == inner[0]);
                    assert(y.take(full.len() as int) == full);
                    lemma_common_len_at_least(y, w, full.len() as int);
                }
            }
            assert(has_value(cs.skip(j + 1), x[p.len() as int]));
            assert(x[p.len() as int] != c) by {
                let k = choose|k: int|
                    0 <= k < cs.skip(j + 1).len() && (#[trigger] cs.skip(j + 1)[k]).value == x[p.len() as int];
                assert(cs[k + j + 1].value == x[p.len() as int]);
            }
            assert(x.take(p.len() as int) == w.take(p.len() as int));
            lemma_common_len_exact(x, w, p.len() as int);
            assert(!enum_before(ws, i, w));
        }
    }
    lemma_splice_segments(ws, w, off, inner);
}

} // verus!
