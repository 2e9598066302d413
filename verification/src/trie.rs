//! The public trie type and its operations.

use vstd::prelude::*;

use crate::lemmas::{
    lemma_cc_filter, lemma_cw_member, lemma_cw_shape, lemma_cw_take_step, lemma_filter_all_true,
    lemma_same_reflexive,
};
use crate::node::{
    TrieNode, children_completions, children_has, children_words, complete_word,
    completions_from, contains_from, has_value, insert_into, node_words, remove_from,
    same_children_state, wf_children,
};
use crate::strutil::str_to_chars;

verus! {

/// The predicate that keeps every word other than `t`: filtering an
/// enumeration through it removes exactly the occurrences of `t`.
pub open spec fn all_but(t: Seq<char>) -> spec_fn(Seq<char>) -> bool {
    |x: Seq<char>| x != t
}

/// The predicate that keeps the words extending the prefix `p`, the
/// prefix itself included.
pub open spec fn with_prefix(p: Seq<char>) -> spec_fn(Seq<char>) -> bool {
    |x: Seq<char>| p.len() <= x.len() && x.take(p.len() as int) == p
}

/// The length of the longest common prefix of two words.
pub open spec fn common_len(a: Seq<char>, b: Seq<char>) -> nat
    decreases a.len(),
{
    if a.len() == 0 || b.len() == 0 || a[0] != b[0] {
        0
    } else {
        1 + common_len(a.drop_first(), b.drop_first())
    }
}

/// Whether the word at index `i` of the enumeration `ws` keeps its place
/// before a newly inserted word `w`.  A word spelling a proper prefix of
/// `w` comes first (ancestors are enumerated before descendants); a word
/// extending `w` comes after it; a word whose path branches off `w`'s
/// comes first exactly when no word earlier in the enumeration follows
/// `w`'s path further than it does — otherwise `w`'s branch already sits
/// before it.  A word on a path that `w` leaves at a node none of whose
/// earlier siblings follow `w` further stands before `w` because a branch
/// created for `w` is appended after its existing siblings.
pub open spec fn enum_before(ws: Seq<Seq<char>>, i: int, w: Seq<char>) -> bool {
    let x = ws[i];
    let d = common_len(x, w);
    if d == x.len() {
        x.len() < w.len()
    } else if d == w.len() {
        false
    } else {
        forall|j: int| 0 <= j < i ==> common_len(#[trigger] ws[j], w) <= d
    }
}

/// Where a word newly inserted into a trie enumerating `ws` lands: after
/// exactly the words that `enum_before` keeps before it.
pub open spec fn splice_pos(ws: Seq<Seq<char>>, w: Seq<char>) -> int
    decreases ws.len(),
{
    if ws.len() == 0 {
        0
    } else {
        splice_pos(ws.drop_last(), w) + if enum_before(ws, ws.len() - 1, w) {
            1int
        } else {
            0int
        }
    }
}

/// The enumeration after one word is inserted: unchanged for the empty
/// word or one already present, otherwise the word spliced in at its
/// path-determined position.
pub open spec fn words_after_insert(ws: Seq<Seq<char>>, w: Seq<char>) -> Seq<Seq<char>> {
    if w.len() == 0 || ws.contains(w) {
        ws
    } else {
        ws.insert(splice_pos(ws, w), w)
    }
}

/// The enumeration of the trie built by inserting the given words in
/// order into an empty trie.
pub open spec fn built_words(ins: Seq<Seq<char>>) -> Seq<Seq<char>>
    decreases ins.len(),
{
    if ins.len() == 0 {
        Seq::<Seq<char>>::empty()
    } else {
        words_after_insert(built_words(ins.drop_last()), ins.last())
    }
}

/// What `Trie::words` means in terms of the node-level enumeration; for
/// proofs in the crate's other modules, where the definition is hidden.
pub(crate) proof fn lemma_trie_words(t: Trie)
    ensures
        t.words() == children_words(t.children@, Seq::<char>::empty()),
{
}

/// A tree data structure for storing and completing strings.
///
/// Conceptually a single implicit root with no character of its own; the
/// root-level nodes are one per distinct first character over all inserted
/// words.
#[derive(Debug, Clone)]
pub struct Trie {
    pub(crate) children: Vec<TrieNode>,
}

impl Default for Trie {
    /// The default trie is the empty trie.
    fn default() -> (t: Self)
        ensures
            t.wf(),
            t.words() == Seq::<Seq<char>>::empty(),
            forall|w: Seq<char>| !t.has_word(w),
    {
        Trie { children: Vec::new() }
    }
}

impl Trie {
    /// Well-formedness: sibling characters are distinct everywhere, and no
    /// node is both non-terminal and childless.  Established by `new` and
    /// preserved by every operation.
    pub closed spec fn wf(self) -> bool {
        wf_children(self.children@)
    }

    /// The word `w` is in the trie: walking the characters of `w` from the
    /// root lands on a node whose terminal flag is set.
    pub closed spec fn has_word(self, w: Seq<char>) -> bool {
        children_has(self.children@, w)
    }

    /// All words of the trie in enumeration order: depth-first, a node's own
    /// word before its descendants', children in insertion order.
    pub closed spec fn words(self) -> Seq<Seq<char>> {
        children_words(self.children@, Seq::empty())
    }

    /// The words offered for `prefix`: the walk of `prefix` succeeds and
    /// every word of the subtree it lands on is produced, each extending
    /// `prefix` itself.
    pub closed spec fn completion_words(self, prefix: Seq<char>) -> Seq<Seq<char>> {
        children_completions(self.children@, prefix, Seq::empty())
    }

    /// The two tries cannot be told apart by any observation this library
    /// offers: membership, completion, or enumeration all agree.
    pub closed spec fn same_state(self, other: Trie) -> bool {
        same_children_state(self.children@, other.children@)
    }

    /// Creates a new, empty Trie.
    pub fn new() -> (t: Self)
        ensures
            t.wf(),
            t.words() == Seq::<Seq<char>>::empty(),
            forall|w: Seq<char>| !t.has_word(w),
            forall|p: Seq<char>| t.completion_words(p) == Seq::<Seq<char>>::empty(),
    {
        let t = Trie { children: Vec::new() };
        proof {
            assert forall|p: Seq<char>|
                t.completion_words(p) == Seq::<Seq<char>>::empty() by {
                if p.len() > 0 {
                    assert(!has_value(t.children@, p[0]));
                }
            }
        }
        t
    }

    /// Given a string, this method will return a boolean indicating if the
    /// trie contains the string.
    pub fn contains(&self, word: &str) -> (r: bool)
        requires
            self.wf(),
        ensures
            r == self.has_word(word@),
            word@.len() == 0 ==> !r,
    {
        let chars = str_to_chars(word);
        if chars.len() == 0 {
            return false;
        }
        let r = contains_from(&self.children, &chars, 0);
        proof {
            assert(chars@.skip(0) =~= word@);
        }
        r
    }

    /// Inserts a string into the Trie.
    ///
    /// Every prefix node along the word's path is created as needed and the
    /// final node is marked terminal: afterwards exactly this word has been
    /// added.  Inserting an already-present word, or the empty string,
    /// changes nothing observable.
    pub fn insert(&mut self, word: &str)
        requires
            old(self).wf(),
        ensures
            final(self).wf(),
            forall|s: Seq<char>|
                final(self).has_word(s) <==> (old(self).has_word(s) || (word@.len() > 0 && s
                    == word@)),
            word@.len() > 0 ==> final(self).has_word(word@),
            word@.len() == 0 ==> final(self).same_state(*old(self)),
            old(self).has_word(word@) ==> final(self).same_state(*old(self)),
            (word@.len() > 0 && !old(self).has_word(word@)) ==> final(self).words() == old(
                self,
            ).words().insert(splice_pos(old(self).words(), word@), word@),
            final(self).words() == words_after_insert(old(self).words(), word@),
    {
        proof {
            if old(self).has_word(word@) {
                Trie::lemma_words_iff_has(*old(self), word@);
            }
        }
        let chars = str_to_chars(word);
        if chars.len() == 0 {
            return ;
        }
        insert_into(&mut self.children, &chars, 0);
        proof {
            assert(chars@.skip(0) =~= word@);
            assert(Seq::<char>::empty() + word@ =~= word@);
            if !old(self).has_word(word@) {
                assert(!old(self).words().contains(word@)) by {
                    Trie::lemma_words_iff_has(*old(self), word@);
                }
            }
        }
    }

    /// Given a string whose characters lead to a node of the trie, this
    /// method will return the strings that complete it, in enumeration
    /// order: each is the prefix itself extended to a stored word.  A
    /// prefix that leads nowhere, or the empty prefix, yields nothing.
    pub fn get_completions(&self, word: &str) -> (r: Vec<String>)
        requires
            self.wf(),
        ensures
            r@.len() == self.completion_words(word@).len(),
            forall|k: int| 0 <= k < r@.len() ==> r@[k]@ == self.completion_words(word@)[k],
    {
        let chars = str_to_chars(word);
        if chars.len() == 0 {
            return Vec::new();
        }
        let acc: Vec<char> = Vec::new();
        proof {
            assert(acc@ =~= chars@.take(0));
        }
        let r = completions_from(&self.children, &chars, 0, acc);
        proof {
            assert(chars@.skip(0) =~= word@);
            assert(chars@.take(0) =~= Seq::<char>::empty());
        }
        r
    }

    /// Removes the given string from the trie.  The boolean returned
    /// indicates if a word to be removed was found; when none was, the trie
    /// is left unchanged.  Ancestor nodes left both non-terminal and
    /// childless are pruned away.
    pub fn remove(&mut self, word: &str) -> (found: bool)
        requires
            old(self).wf(),
        ensures
            final(self).wf(),
            found == old(self).has_word(word@),
            word@.len() == 0 ==> !found,
            !found ==> final(self).same_state(*old(self)),
            forall|s: Seq<char>|
                final(self).has_word(s) <==> (old(self).has_word(s) && s != word@),
            final(self).words() == old(self).words().filter(all_but(word@)),
    {
        let chars = str_to_chars(word);
        if chars.len() == 0 {
            proof {
                lemma_same_reflexive(self.children@);
                lemma_cw_shape(self.children@, Seq::empty());
                let ws = children_words(self.children@, Seq::empty());
                assert forall|k: int| 0 <= k < ws.len() implies all_but(word@)(
                    #[trigger] ws[k],
                ) by {
                    assert(ws[k].len() > 0);
                }
                lemma_filter_all_true(ws, all_but(word@));
            }
            return false;
        }
        let found = remove_from(&mut self.children, &chars, 0);
        proof {
            assert(chars@.skip(0) =~= word@);
            assert(Seq::<char>::empty() + word@ =~= word@);
        }
        found
    }

    /// Every word of the trie as a string, in enumeration order:
    /// depth-first, a node's own word before its descendants', children in
    /// insertion order.
    pub fn to_vec(&self) -> (r: Vec<String>)
        ensures
            r@.len() == self.words().len(),
            forall|k: int| 0 <= k < r@.len() ==> r@[k]@ == self.words()[k],
    {
        let mut out: Vec<String> = Vec::new();
        let ghost e = Seq::<char>::empty();
        proof {
            assert(children_words(self.children@.take(0), e) =~= Seq::<Seq<char>>::empty());
        }
        let mut j: usize = 0;
        while j < self.children.len()
            invariant
                j <= self.children@.len(),
                e == Seq::<char>::empty(),
                out@.len() == children_words(self.children@.take(j as int), e).len(),
                forall|k: int|
                    0 <= k < out@.len() ==> out@[k]@ == children_words(
                        self.children@.take(j as int),
                        e,
                    )[k],
            decreases self.children@.len() - j,
        {
            let pvec: Vec<char> = Vec::new();
            proof {
                assert(pvec@ =~= e);
            }
            let mut sub = complete_word(&self.children[j], pvec);
            let ghost old_out = out@;
            let ghost sub0 = sub@;
            out.append(&mut sub);
            proof {
                lemma_cw_take_step(self.children@, j as int, e);
                let before = children_words(self.children@.take(j as int), e);
                let after = children_words(self.children@.take(j + 1), e);
                assert(after =~= before + node_words(self.children@[j as int], e));
                assert(out@ == old_out + sub0);
                assert forall|k: int| 0 <= k < out@.len() implies out@[k]@ == after[k] by {
                    if k < old_out.len() {
                        assert(out@[k] == old_out[k]);
                        assert(after[k] == before[k]);
                    } else {
                        assert(out@[k] == sub0[k - old_out.len()]);
                        assert(after[k] == node_words(self.children@[j as int], e)[k
                            - old_out.len()]);
                    }
                }
            }
            j += 1;
        }
        proof {
            assert(self.children@.take(self.children@.len() as int) =~= self.children@);
        }
        out
    }

    /// Builds a trie by inserting each of the given words in order.
    pub fn from_iter(words: Vec<&str>) -> (t: Trie)
        ensures
            t.wf(),
            forall|s: Seq<char>|
                t.has_word(s) <==> exists|k: int|
                    0 <= k < words@.len() && (#[trigger] words@[k])@ == s && s.len() > 0,
            t.words() == built_words(words@.map_values((|s: &str| s@))),
    {
        let ghost ins = words@.map_values((|s: &str| s@));
        let mut t = Trie::new();
        let mut j: usize = 0;
        while j < words.len()
            invariant
                j <= words@.len(),
                t.wf(),
                ins == words@.map_values((|s: &str| s@)),
                t.words() == built_words(ins.take(j as int)),
                forall|s: Seq<char>|
                    t.has_word(s) <==> exists|k: int|
                        0 <= k < j && (#[trigger] words@[k])@ == s && s.len() > 0,
            decreases words@.len() - j,
        {
            let ghost old_t = t;
            t.insert(words[j]);
            proof {
                assert(ins.take(j + 1).drop_last() =~= ins.take(j as int));
                assert(ins.take(j + 1).last() == words@[j as int]@);
                assert(built_words(ins.take(j + 1)) == words_after_insert(
                    built_words(ins.take(j as int)),
                    words@[j as int]@,
                ));
                assert(t.words() == words_after_insert(old_t.words(), words@[j as int]@));
            }
            proof {
                assert forall|s: Seq<char>|
                    t.has_word(s) <==> exists|k: int|
                        0 <= k < j + 1 && (#[trigger] words@[k])@ == s && s.len() > 0 by {
                    if t.has_word(s) {
                        if old_t.has_word(s) {
                            let k = choose|k: int|
                                0 <= k < j && (#[trigger] words@[k])@ == s && s.len() > 0;
                            assert(words@[k]@ == s && s.len() > 0);
                        } else {
                            assert(words@[j as int]@ == s && s.len() > 0);
                        }
                    }
                    if exists|k: int|
                        0 <= k < j + 1 && (#[trigger] words@[k])@ == s && s.len() > 0 {
                        let k = choose|k: int|
                            0 <= k < j + 1 && (#[trigger] words@[k])@ == s && s.len() > 0;
                        if k < j {
                            assert(old_t.has_word(s));
                        }
                        assert(t.has_word(s));
                    }
                }
            }
            j += 1;
        }
        proof {
            assert(ins.take(words@.len() as int) =~= ins);
        }
        t
    }

    /// Two tries in the same state agree on every observation: membership
    /// of any word, the whole enumeration, and the completions of any
    /// prefix.
    pub proof fn lemma_same_state(self, other: Trie)
        requires
            self.same_state(other),
        ensures
            forall|w: Seq<char>| self.has_word(w) == other.has_word(w),
            self.words() == other.words(),
            forall|p: Seq<char>| self.completion_words(p) == other.completion_words(p),
    {
    }

    /// The completions of a prefix are exactly the words of the trie that
    /// extend it, kept in enumeration order; the empty prefix offers
    /// nothing.
    pub proof fn lemma_completion_words(self, prefix: Seq<char>)
        requires
            self.wf(),
        ensures
            prefix.len() == 0 ==> self.completion_words(prefix) == Seq::<Seq<char>>::empty(),
            prefix.len() > 0 ==> self.completion_words(prefix) == self.words().filter(
                with_prefix(prefix),
            ),
    {
        if prefix.len() > 0 {
            lemma_cc_filter(self.children@, prefix, Seq::<char>::empty());
            assert(Seq::<char>::empty() + prefix =~= prefix);
        }
    }

    /// Every enumerated word is contained, and every contained word is
    /// enumerated: the two views of the trie name the same words.
    pub proof fn lemma_words_iff_has(self, w: Seq<char>)
        requires
            self.wf(),
        ensures
            self.words().contains(w) <==> self.has_word(w),
    {
        lemma_cw_member(self.children@, Seq::empty(), w);
        if w.len() > 0 {
            assert(w.take(0) =~= Seq::<char>::empty());
            assert(w.skip(0) =~= w);
        }
    }
}

} // verus!
