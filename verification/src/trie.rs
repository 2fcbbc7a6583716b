//! A prefix trie over the set of known command names, used by
//! tab-completion.
//!
//! A node owns its children directly; a child edge carries the character
//! that labels it. The abstract contents of a trie is the set of character
//! sequences spelled by paths from the root that end at a node whose
//! terminal flag is set. Well-formedness asks that no node carries two
//! edges with the same label.

use vstd::prelude::*;

verus! {

/// One edge of a trie node: the labelling character and the child it leads
/// to.
pub struct TrieEdge {
    pub label: char,
    pub child: Trie,
}

/// A prefix tree mapping known command names to support
/// "all names with this prefix" queries.
pub struct Trie {
    pub children: Vec<TrieEdge>,
    pub is_leaf: bool,
}

impl Trie {
    /// Whether some edge at index `k` or later starts a path spelling `w`.
    pub open spec fn has_word_from(self, k: int, w: Seq<char>) -> bool
        decreases self, self.children.len() - k,
    {
        if k < 0 || k >= self.children.len() {
            false
        } else if w.len() >= 1 && w[0] == self.children[k].label && self.children[
            k
        ].child.has_word(w.skip(1)) {
            true
        } else {
            self.has_word_from(k + 1, w)
        }
    }

    /// Whether a path from this node spells `w` and ends at a terminal
    /// node.
    pub open spec fn has_word(self, w: Seq<char>) -> bool
        decreases self, self.children.len() + 1,
    {
        (self.is_leaf && w.len() == 0) || self.has_word_from(0, w)
    }

    /// The word set of this trie.
    pub open spec fn words(self) -> Set<Seq<char>> {
        Set::new(|w: Seq<char>| self.has_word(w))
    }

    /// No node carries two edges with one label, recursively.
    pub open spec fn wf(self) -> bool
        decreases self,
    {
        &&& forall|i: int, j: int|
            0 <= i < j < self.children.len() ==> self.children[i].label != self.children[j].label
        &&& forall|i: int|
            0 <= i < self.children.len() ==> (#[trigger] self.children[i].child).wf()
    }

    /// The empty trie: no words.
    pub fn new() -> (t: Trie)
        ensures
            t.wf(),
            t.words() == Set::<Seq<char>>::empty(),
    {
        let t = Trie { children: Vec::new(), is_leaf: false };
        proof {
            assert(t.words() =~= Set::<Seq<char>>::empty());
        }
        t
    }
}

/// Whether some entry of `results` has the abstract value `w`.
pub open spec fn results_have(results: Seq<String>, w: Seq<char>) -> bool {
    exists|j: int| 0 <= j < results.len() && (#[trigger] results[j])@ == w
}

/// Word-set membership is the `has_word` predicate.
pub broadcast proof fn lemma_words_is_has_word(t: Trie, w: Seq<char>)
    ensures
        #[trigger] t.words().contains(w) == t.has_word(w),
{
}

/// A path spelling `w` among edges `k` and later exists exactly when some
/// edge there carries the first character of `w` and its child spells the
/// rest.
proof fn lemma_hwf_iff(t: Trie, k: int, w: Seq<char>)
    requires
        0 <= k,
    ensures
        t.has_word_from(k, w) <==> exists|i: int|
            k <= i < t.children.len() && w.len() >= 1 && w[0] == t.children[i].label
                && (#[trigger] t.children[i].child.has_word(w.skip(1))),
    decreases t.children.len() - k,
{
    if k < 0 || k >= t.children.len() {
    } else {
        lemma_hwf_iff(t, k + 1, w);
        if w.len() >= 1 && w[0] == t.children[k].label && t.children[k].child.has_word(
            w.skip(1),
        ) {
            assert(k <= k < t.children.len() && w.len() >= 1 && w[0] == t.children[k].label
                && t.children[k].child.has_word(w.skip(1)));
        } else {
            if t.has_word_from(k, w) {
                let i = choose|i: int|
                    k + 1 <= i < t.children.len() && w.len() >= 1 && w[0] == t.children[i].label
                        && (#[trigger] t.children[i].child.has_word(w.skip(1)));
                assert(k <= i < t.children.len() && w.len() >= 1 && w[0] == t.children[i].label
                    && t.children[i].child.has_word(w.skip(1)));
            }
            if exists|i: int|
                k <= i < t.children.len() && w.len() >= 1 && w[0] == t.children[i].label && (
                #[trigger] t.children[i].child.has_word(w.skip(1))) {
                let i = choose|i: int|
                    k <= i < t.children.len() && w.len() >= 1 && w[0] == t.children[i].label && (
                    #[trigger] t.children[i].child.has_word(w.skip(1)));
                assert(i != k);
                assert(t.has_word_from(k + 1, w));
            }
        }
    }
}

/// `has_word_from` reads only the children: tries with equal children
/// agree on it.
proof fn lemma_hwf_frame(t1: Trie, t2: Trie, k: int, w: Seq<char>)
    requires
        t1.children == t2.children,
    ensures
        t1.has_word_from(k, w) == t2.has_word_from(k, w),
    decreases t1.children.len() - k,
{
    if k < 0 || k >= t1.children.len() {
    } else {
        lemma_hwf_frame(t1, t2, k + 1, w);
    }
}

/// A child's words are exactly the trie's words behind the child's label.
proof fn lemma_words_at_child(t: Trie, j: int)
    requires
        t.wf(),
        0 <= j < t.children.len(),
    ensures
        forall|s: Seq<char>|
            (#[trigger] t.children[j].child.has_word(s)) <==> t.has_word(
                seq![t.children[j].label] + s,
            ),
{
    let c = t.children[j].label;
    assert forall|s: Seq<char>|
        (#[trigger] t.children[j].child.has_word(s)) <==> t.has_word(seq![c] + s) by {
        let w = seq![c] + s;
        assert(w.len() >= 1 && w[0] == c);
        assert(w.skip(1) =~= s);
        lemma_hwf_iff(t, 0, w);
        if t.children[j].child.has_word(s) {
            assert(0 <= j < t.children.len() && w.len() >= 1 && w[0] == t.children[j].label
                && t.children[j].child.has_word(w.skip(1)));
        }
        if t.has_word(w) {
            let i = choose|i: int|
                0 <= i < t.children.len() && w.len() >= 1 && w[0] == t.children[i].label && (
                #[trigger] t.children[i].child.has_word(w.skip(1)));
            assert(t.children[i].label == c);
            assert(i == j);
        }
    }
}

/// Without an edge of a label, no word starts with that label.
proof fn lemma_words_no_child(t: Trie, c: char)
    requires
        forall|i: int| 0 <= i < t.children.len() ==> t.children[i].label != c,
    ensures
        forall|w: Seq<char>| #[trigger] t.has_word(w) ==> w.len() == 0 || w[0] != c,
{
    assert forall|w: Seq<char>| #[trigger] t.has_word(w) implies w.len() == 0 || w[0] != c by {
        if w.len() >= 1 && w[0] == c {
            lemma_hwf_iff(t, 0, w);
        }
    }
}

/// The first edge with the given label, if any.
fn find_edge(children: &Vec<TrieEdge>, c: char) -> (r: Option<usize>)
    ensures
        match r {
            Some(j) => j < children@.len() && children@[j as int].label == c,
            None => forall|i: int| 0 <= i < children@.len() ==> children@[i].label != c,
        },
{
    let n = children.len();
    let mut i: usize = 0;
    while i < n
        invariant
            i <= n,
            n == children@.len(),
            forall|k: int| 0 <= k < i ==> children@[k].label != c,
        decreases n - i,
    {
        if children[i].label == c {
            return Some(i);
        }
        i = i + 1;
    }
    None
}

/// A fresh path spelling the tail of `word` from index `i`, ending in a
/// terminal node.
fn make_chain(word: &str, i: usize) -> (t: Trie)
    requires
        i <= word@.len(),
    ensures
        t.wf(),
        forall|w: Seq<char>| #[trigger] t.has_word(w) <==> w == word@.skip(i as int),
    decreases word@.len() - i,
{
    let n = word.unicode_len();
    if i == n {
        let t = Trie { children: Vec::new(), is_leaf: true };
        proof {
            assert(word@.skip(i as int) =~= Seq::<char>::empty());
            assert forall|w: Seq<char>| #[trigger] t.has_word(w) <==> w == word@.skip(
                i as int,
            ) by {
                lemma_hwf_iff(t, 0, w);
                if w.len() == 0 {
                    assert(w =~= Seq::<char>::empty());
                }
            }
        }
        t
    } else {
        let c = word.get_char(i);
        let child = make_chain(word, i + 1);
        let mut children: Vec<TrieEdge> = Vec::new();
        children.push(TrieEdge { label: c, child });
        let t = Trie { children, is_leaf: false };
        proof {
            let tail = word@.skip(i as int);
            assert(tail.len() >= 1 && tail[0] == c);
            assert(tail.skip(1) =~= word@.skip(i as int + 1));
            assert forall|w: Seq<char>| #[trigger] t.has_word(w) <==> w == tail by {
                lemma_hwf_iff(t, 0, w);
                if t.has_word(w) {
                    let ii = choose|ii: int|
                        0 <= ii < t.children.len() && w.len() >= 1 && w[0]
                            == t.children[ii].label && (#[trigger] t.children[
                        ii].child.has_word(w.skip(1)));
                    assert(ii == 0);
                    assert(w.skip(1) == word@.skip(i as int + 1));
                    assert(w =~= seq![w[0]] + w.skip(1));
                    assert(seq![c] + word@.skip(i as int + 1) =~= tail);
                }
                if w == tail {
                    assert(t.children[0].child.has_word(w.skip(1)));
                    assert(0 <= 0 < t.children.len() && w.len() >= 1 && w[0]
                        == t.children[0].label && t.children[0].child.has_word(w.skip(1)));
                }
            }
        }
        t
    }
}

/// Insertion of the tail of `word` from index `i` into an owned node.
fn insert_rec(t: Trie, word: &str, i: usize) -> (res: Trie)
    requires
        t.wf(),
        i <= word@.len(),
    ensures
        res.wf(),
        forall|w: Seq<char>|
            #[trigger] res.has_word(w) <==> (t.has_word(w) || w == word@.skip(i as int)),
    decreases word@.len() - i,
{
    let n = word.unicode_len();
    let mut t = t;
    if i == n {
        let ghost told = t;
        let t0 = Trie { children: t.children, is_leaf: true };
        proof {
            assert(word@.skip(i as int) =~= Seq::<char>::empty());
            assert forall|w: Seq<char>|
                #[trigger] t0.has_word(w) <==> (told.has_word(w) || w == word@.skip(
                    i as int,
                )) by {
                lemma_hwf_frame(t0, told, 0, w);
                if w.len() == 0 {
                    assert(w =~= Seq::<char>::empty());
                }
            }
        }
        t0
    } else {
        let c = word.get_char(i);
        let ghost tail = word@.skip(i as int);
        proof {
            assert(tail.len() >= 1 && tail[0] == c);
            assert(tail.skip(1) =~= word@.skip(i as int + 1));
        }
        match find_edge(&t.children, c) {
            Some(j) => {
                let ghost told = t;
                let edge = t.children.remove(j);
                let new_child = insert_rec(edge.child, word, i + 1);
                t.children.insert(j, TrieEdge { label: c, child: new_child });
                proof {
                    assert(t.children@ =~= told.children@.update(
                        j as int,
                        TrieEdge { label: c, child: new_child },
                    ));
                    assert(t.children[j as int].label == told.children[j as int].label);
                    assert forall|w: Seq<char>|
                        #[trigger] t.has_word(w) <==> (told.has_word(w) || w == tail) by {
                        lemma_hwf_iff(t, 0, w);
                        lemma_hwf_iff(told, 0, w);
                        if t.has_word(w) {
                            if !(t.is_leaf && w.len() == 0) {
                                let ii = choose|ii: int|
                                    0 <= ii < t.children.len() && w.len() >= 1 && w[0]
                                        == t.children[ii].label && (#[trigger] t.children[
                                    ii].child.has_word(w.skip(1)));
                                if ii != j {
                                    assert(told.children[ii] == t.children[ii]);
                                    assert(told.children[ii].child.has_word(w.skip(1)));
                                } else {
                                    if told.children[j as int].child.has_word(w.skip(1)) {
                                        assert(told.has_word_from(0, w));
                                    } else {
                                        assert(w.skip(1) == tail.skip(1));
                                        assert(w =~= seq![w[0]] + w.skip(1));
                                        assert(tail =~= seq![tail[0]] + tail.skip(1));
                                        assert(w == tail);
                                    }
                                }
                            }
                        }
                        if told.has_word(w) {
                            if !(told.is_leaf && w.len() == 0) {
                                let ii = choose|ii: int|
                                    0 <= ii < told.children.len() && w.len() >= 1 && w[0]
                                        == told.children[ii].label && (#[trigger] told.children[
                                    ii].child.has_word(w.skip(1)));
                                if ii != j {
                                    assert(t.children[ii] == told.children[ii]);
                                    assert(t.children[ii].child.has_word(w.skip(1)));
                                } else {
                                    assert(t.children[j as int].child.has_word(w.skip(1)));
                                }
                            }
                        }
                        if w == tail {
                            assert(t.children[j as int].child.has_word(tail.skip(1)));
                            assert(t.children[j as int].label == c);
                        }
                    }
                }
                t
            },
            None => {
                let ghost told = t;
                let new_child = make_chain(word, i + 1);
                t.children.push(TrieEdge { label: c, child: new_child });
                proof {
                    let j = told.children@.len() as int;
                    assert(t.children@ =~= told.children@.push(
                        TrieEdge { label: c, child: new_child },
                    ));
                    assert forall|w: Seq<char>|
                        #[trigger] t.has_word(w) <==> (told.has_word(w) || w == tail) by {
                        lemma_hwf_iff(t, 0, w);
                        lemma_hwf_iff(told, 0, w);
                        if t.has_word(w) {
                            if !(t.is_leaf && w.len() == 0) {
                                let ii = choose|ii: int|
                                    0 <= ii < t.children.len() && w.len() >= 1 && w[0]
                                        == t.children[ii].label && (#[trigger] t.children[
                                    ii].child.has_word(w.skip(1)));
                                if ii < j {
                                    assert(told.children[ii] == t.children[ii]);
                                    assert(told.children[ii].child.has_word(w.skip(1)));
                                } else {
                                    assert(t.children[ii].child == new_child);
                                    assert(w.skip(1) == tail.skip(1));
                                    assert(w =~= seq![w[0]] + w.skip(1));
                                    assert(tail =~= seq![tail[0]] + tail.skip(1));
                                    assert(w == tail);
                                }
                            }
                        }
                        if told.has_word(w) {
                            if !(told.is_leaf && w.len() == 0) {
                                let ii = choose|ii: int|
                                    0 <= ii < told.children.len() && w.len() >= 1 && w[0]
                                        == told.children[ii].label && (#[trigger] told.children[
                                    ii].child.has_word(w.skip(1)));
                                assert(t.children[ii] == told.children[ii]);
                                assert(t.children[ii].child.has_word(w.skip(1)));
                            }
                        }
                        if w == tail {
                            assert(t.children[j].child.has_word(tail.skip(1)));
                            assert(t.children[j].label == c);
                        }
                    }
                }
                t
            },
        }
    }
}

/// Depth-first collection: appends to `results` one string `buffer + s` for
/// each word `s` of this node, restoring the buffer afterwards.
#[verifier::rlimit(100)]
fn dfs_collect(node: &Trie, buffer: &mut Vec<char>, results: &mut Vec<String>)
    ensures
        final(buffer)@ == old(buffer)@,
        final(results)@.len() >= old(results)@.len(),
        forall|j: int|
            0 <= j < old(results)@.len() ==> final(results)@[j] == old(results)@[j],
        forall|j: int|
            #![trigger final(results)@[j]]
            old(results)@.len() <= j < final(results)@.len() ==> final(results)@[j]@.len()
                >= old(buffer)@.len() && final(results)@[j]@.take(old(buffer)@.len() as int)
                == old(buffer)@ && node.has_word(
                final(results)@[j]@.skip(old(buffer)@.len() as int),
            ),
        forall|s: Seq<char>|
            #[trigger] node.has_word(s) ==> exists|j: int|
                old(results)@.len() <= j < final(results)@.len() && final(results)@[j]@ == old(
                    buffer,
                )@ + s,
    decreases *node,
{
    let ghost buf0 = buffer@;
    let ghost len0 = results@.len() as int;
    if node.is_leaf {
        let line = crate::chars_to_string(buffer);
        results.push(line);
        proof {
            assert(buf0.take(buf0.len() as int) =~= buf0);
            assert(buf0.skip(buf0.len() as int) =~= Seq::<char>::empty());
            assert(node.has_word(Seq::<char>::empty()));
        }
    }
    let n = node.children.len();
    let mut k: usize = 0;
    while k < n
        invariant
            k <= n,
            n == node.children.len(),
            buffer@ == buf0,
            results@.len() >= len0,
            len0 >= 0,
            forall|j: int| 0 <= j < len0 ==> results@[j] == old(results)@[j],
            node.is_leaf ==> (results@.len() > len0 && results@[len0]@ == buf0),
            forall|j: int|
                #![trigger results@[j]]
                len0 <= j < results@.len() ==> results@[j]@.len() >= buf0.len()
                    && results@[j]@.take(buf0.len() as int) == buf0 && node.has_word(
                    results@[j]@.skip(buf0.len() as int),
                ),
            forall|ii: int, s2: Seq<char>|
                0 <= ii < k && (#[trigger] node.children[ii].child.has_word(s2)) ==> exists|j: int|
                    len0 <= j < results@.len() && results@[j]@ == buf0 + (seq![
                        node.children[ii].label,
                    ] + s2),
        decreases n - k,
    {
        let ghost res0 = results@;
        let c = node.children[k].label;
        buffer.push(c);
        dfs_collect(&node.children[k].child, buffer, results);
        let _ = buffer.pop();
        proof {
            assert(buffer@ =~= buf0);
        }
        k = k + 1;
        proof {
            let ghost kk = (k - 1) as int;
            assert(buf0.push(c) =~= buf0 + seq![c]);
            assert forall|j: int|
                #![trigger results@[j]]
                len0 <= j < results@.len() implies results@[j]@.len() >= buf0.len()
                && results@[j]@.take(buf0.len() as int) == buf0 && node.has_word(
                results@[j]@.skip(buf0.len() as int),
            ) by {
                if j < res0.len() {
                    assert(results@[j] == res0[j]);
                } else {
                    let e = results@[j]@;
                    assert(e.len() >= buf0.push(c).len());
                    assert(e.take(buf0.push(c).len() as int) == buf0.push(c));
                    let s2 = e.skip(buf0.push(c).len() as int);
                    assert(node.children[kk].child.has_word(s2));
                    let s = seq![c] + s2;
                    assert(s.len() >= 1 && s[0] == c);
                    assert(s.skip(1) =~= s2);
                    lemma_hwf_iff(*node, 0, s);
                    assert(0 <= kk < node.children.len() && s.len() >= 1 && s[0]
                        == node.children[kk].label && node.children[kk].child.has_word(s.skip(1)));
                    assert(node.has_word(s));
                    assert(e.take(buf0.len() as int) =~= buf0);
                    assert(e.skip(buf0.len() as int) =~= s);
                }
            }
            assert forall|ii: int, s2: Seq<char>|
                0 <= ii < k && (#[trigger] node.children[ii].child.has_word(s2)) implies exists|
                j: int,
            |
                len0 <= j < results@.len() && results@[j]@ == buf0 + (seq![node.children[ii].label]
                    + s2) by {
                if ii < kk {
                    let j = choose|j: int|
                        len0 <= j < res0.len() && res0[j]@ == buf0 + (seq![
                            node.children[ii].label,
                        ] + s2);
                    assert(results@[j] == res0[j]);
                } else {
                    let j = choose|j: int|
                        res0.len() <= j < results@.len() && results@[j]@ == buf0.push(c) + s2;
                    assert(buf0.push(c) + s2 =~= buf0 + (seq![c] + s2));
                }
            }
        }
    }
    proof {
        assert forall|s: Seq<char>| #[trigger] node.has_word(s) implies exists|j: int|
            len0 <= j < results@.len() && results@[j]@ == buf0 + s by {
            lemma_hwf_iff(*node, 0, s);
            if node.is_leaf && s.len() == 0 {
                assert(s =~= Seq::<char>::empty());
                assert(buf0 + s =~= buf0);
            } else {
                let ii = choose|ii: int|
                    0 <= ii < node.children.len() && s.len() >= 1 && s[0]
                        == node.children[ii].label && (#[trigger] node.children[
                    ii].child.has_word(s.skip(1)));
                assert(node.children[ii].child.has_word(s.skip(1)));
                let j = choose|j: int|
                    len0 <= j < results@.len() && results@[j]@ == buf0 + (seq![
                        node.children[ii].label,
                    ] + s.skip(1));
                assert(seq![node.children[ii].label] + s.skip(1) =~= s);
            }
        }
    }
}

impl Trie {
    /// All words of the trie that extend the given prefix, or nothing at
    /// all when no node of the trie spells the prefix. When a list comes
    /// back it holds exactly the matching words, each carrying the prefix.
    #[verifier::rlimit(60)]
    pub fn search_prefix(&self, prefix: &str) -> (r: Option<Vec<String>>)
        requires
            self.wf(),
        ensures
            match r {
                Some(results) => {
                    &&& forall|j: int|
                        0 <= j < results@.len() ==> crate::spec_is_prefix(prefix@, results@[j]@)
                            && self.words().contains(results@[j]@)
                    &&& forall|w: Seq<char>|
                        #[trigger] self.words().contains(w) && crate::spec_is_prefix(prefix@, w)
                            ==> results_have(results@, w)
                },
                None => forall|w: Seq<char>|
                    #[trigger] self.words().contains(w) ==> !crate::spec_is_prefix(prefix@, w),
            },
    {
        broadcast use lemma_words_is_has_word;

        let plen = prefix.unicode_len();
        let mut node: &Trie = self;
        let mut i: usize = 0;
        proof {
            assert(prefix@.take(0) =~= Seq::<char>::empty());
            assert forall|s: Seq<char>| #[trigger] node.has_word(s) implies self.has_word(
                prefix@.take(0) + s,
            ) by {
                assert(prefix@.take(0) + s =~= s);
            }
            assert forall|s: Seq<char>| self.has_word(prefix@.take(0) + s) implies #[trigger]
            node.has_word(s) by {
                assert(prefix@.take(0) + s =~= s);
            }
        }
        while i < plen
            invariant
                i <= plen,
                plen == prefix@.len(),
                node.wf(),
                self.wf(),
                forall|s: Seq<char>|
                    #[trigger] node.has_word(s) <==> self.has_word(prefix@.take(i as int) + s),
            decreases plen - i,
        {
            let c = prefix.get_char(i);
            match find_edge(&node.children, c) {
                None => {
                    proof {
                        lemma_words_no_child(*node, c);
                        assert forall|w: Seq<char>| #[trigger]
                            self.has_word(w) implies !crate::spec_is_prefix(prefix@, w) by {
                            if crate::spec_is_prefix(prefix@, w) {
                                let s = w.skip(i as int);
                                assert(w =~= prefix@.take(i as int) + s);
                                assert(node.has_word(s));
                                assert(w[i as int] == prefix@[i as int]) by {
                                    assert(prefix@ == w.take(plen as int));
                                }
                                assert(s.len() >= 1 && s[0] == c);
                            }
                        }
                    }
                    return None;
                },
                Some(j) => {
                    proof {
                        lemma_words_at_child(*node, j as int);
                        let node0 = *node;
                        let child = node.children@[j as int].child;
                        assert forall|s: Seq<char>| #[trigger] child.has_word(s) implies
                        self.has_word(prefix@.take(i as int + 1) + s) by {
                            assert(node0.has_word(seq![c] + s));
                            assert(prefix@.take(i as int) + (seq![c] + s) =~= prefix@.take(
                                i as int + 1,
                            ) + s);
                        }
                        assert forall|s: Seq<char>|
                            self.has_word(prefix@.take(i as int + 1) + s) implies #[trigger]
                        child.has_word(s) by {
                            assert(prefix@.take(i as int) + (seq![c] + s) =~= prefix@.take(
                                i as int + 1,
                            ) + s);
                            assert(node0.has_word(seq![c] + s));
                        }
                    }
                    node = &node.children[j].child;
                    i = i + 1;
                },
            }
        }
        let mut results: Vec<String> = Vec::new();
        let mut buffer = crate::str_to_chars(prefix);
        proof {
            assert(prefix@.take(plen as int) =~= prefix@);
        }
        dfs_collect(node, &mut buffer, &mut results);
        proof {
            assert forall|j: int|
                #![trigger results@[j]]
                0 <= j < results@.len() implies crate::spec_is_prefix(prefix@, results@[j]@)
                && self.has_word(results@[j]@) by {
                let e = results@[j]@;
                assert(e.len() >= buffer@.len());
                assert(e.len() >= plen);
                assert(e.take(plen as int) == prefix@);
                let s = e.skip(plen as int);
                assert(node.has_word(s));
                assert(prefix@.take(plen as int).len() == plen);
                assert(s.len() == e.len() - plen);
                assert forall|m: int| 0 <= m < e.len() implies (prefix@.take(plen as int) + s)[m]
                    == e[m] by {
                    if m < plen {
                        assert(e.take(plen as int)[m] == e[m]);
                        assert(prefix@[m] == e[m]);
                    } else {
                        assert(s[m - plen] == e[m]);
                    }
                }
                assert(prefix@.take(plen as int) + s =~= e);
                assert(self.has_word(e));
            }
            assert forall|w: Seq<char>|
                #[trigger] self.has_word(w) && crate::spec_is_prefix(prefix@, w) implies
            results_have(results@, w) by {
                let s = w.skip(plen as int);
                assert(w =~= prefix@.take(plen as int) + s);
                assert(node.has_word(s));
                assert(prefix@ + s =~= w);
                assert(exists|j: int|
                    0 <= j < results@.len() && (#[trigger] results@[j])@ == prefix@ + s);
            }
        }
        Some(results)
    }


    /// Whether the trie holds exactly this word.
    pub fn search(&self, word: &str) -> (r: bool)
        requires
            self.wf(),
        ensures
            r == self.words().contains(word@),
    {
        broadcast use lemma_words_is_has_word;

        let n = word.unicode_len();
        let mut node: &Trie = self;
        let mut i: usize = 0;
        proof {
            assert(word@.take(0) =~= Seq::<char>::empty());
            assert forall|s: Seq<char>| #[trigger] node.has_word(s) implies self.has_word(
                word@.take(0) + s,
            ) by {
                assert(word@.take(0) + s =~= s);
            }
            assert forall|s: Seq<char>| self.has_word(word@.take(0) + s) implies #[trigger]
            node.has_word(s) by {
                assert(word@.take(0) + s =~= s);
            }
        }
        while i < n
            invariant
                i <= n,
                n == word@.len(),
                node.wf(),
                self.wf(),
                forall|s: Seq<char>|
                    #[trigger] node.has_word(s) <==> self.has_word(word@.take(i as int) + s),
            decreases n - i,
        {
            let c = word.get_char(i);
            match find_edge(&node.children, c) {
                None => {
                    proof {
                        lemma_words_no_child(*node, c);
                        if self.has_word(word@) {
                            let s = word@.skip(i as int);
                            assert(word@ =~= word@.take(i as int) + s);
                            assert(node.has_word(s));
                            assert(s.len() >= 1 && s[0] == c);
                        }
                    }
                    return false;
                },
                Some(j) => {
                    proof {
                        lemma_words_at_child(*node, j as int);
                        let node0 = *node;
                        let child = node.children@[j as int].child;
                        assert forall|s: Seq<char>| #[trigger] child.has_word(s) implies
                        self.has_word(word@.take(i as int + 1) + s) by {
                            assert(node0.has_word(seq![c] + s));
                            assert(word@.take(i as int) + (seq![c] + s) =~= word@.take(
                                i as int + 1,
                            ) + s);
                        }
                        assert forall|s: Seq<char>|
                            self.has_word(word@.take(i as int + 1) + s) implies #[trigger]
                        child.has_word(s) by {
                            assert(word@.take(i as int) + (seq![c] + s) =~= word@.take(
                                i as int + 1,
                            ) + s);
                            assert(node0.has_word(seq![c] + s));
                        }
                    }
                    node = &node.children[j].child;
                    i = i + 1;
                },
            }
        }
        proof {
            lemma_hwf_iff(*node, 0, Seq::<char>::empty());
            assert(node.has_word(Seq::<char>::empty()) == node.is_leaf);
            assert(word@.take(n as int) + Seq::<char>::empty() =~= word@);
        }
        node.is_leaf
    }

    /// Insert a word: afterwards the trie holds exactly the words it held
    /// before, plus this one.
    pub fn insert(&mut self, word: &str)
        requires
            old(self).wf(),
        ensures
            final(self).wf(),
            final(self).words() == old(self).words().insert(word@),
    {
        let mut tmp = Trie { children: Vec::new(), is_leaf: false };
        core::mem::swap(self, &mut tmp);
        let res = insert_rec(tmp, word, 0);
        *self = res;
        proof {
            broadcast use lemma_words_is_has_word;

            assert(word@.skip(0) =~= word@);
            assert(self.words() =~= old(self).words().insert(word@));
        }
    }
}

} // verus!
