//! A prefix tree (trie) over Unicode scalar values.
//!
//! The trie indexes a set of words by their shared prefixes. Membership
//! (`contains`) and prefix queries (`starts_with`) walk one node per
//! character of the query, so their cost is proportional to the query's
//! length, not to the number of stored words.

use vstd::prelude::*;

pub mod laws;

verus! {

/// One position in the prefix space: a terminal flag and the transitions
/// to deeper positions, keyed by one character each.
struct TrieNode {
    /// True iff some inserted word ends exactly at this node.
    is_end: bool,
    /// The children, one per distinct first character of the suffixes
    /// stored below this node. Keys are unique; order carries no meaning.
    children: Vec<(char, TrieNode)>,
}

impl TrieNode {
    /// Keys of the children of this node, with no duplicates, at every
    /// depth below this node.
    spec fn wf(self) -> bool
        decreases self,
    {
        &&& forall|i: int, j: int|
            0 <= i < j < self.children@.len() ==> (#[trigger] self.children@[i]).0 != (
            #[trigger] self.children@[j]).0
        &&& forall|i: int|
            0 <= i < self.children@.len() ==> (#[trigger] self.children@[i]).1.wf()
    }

    /// The word `w` ends, with its terminal flag set, on the path that
    /// starts at this node.
    spec fn spec_contains(self, w: Seq<char>) -> bool
        decreases w.len(),
    {
        if w.len() == 0 {
            self.is_end
        } else {
            exists|i: int|
                0 <= i < self.children@.len() && (#[trigger] self.children@[i]).0 == w[0]
                    && self.children@[i].1.spec_contains(w.skip(1))
        }
    }

    /// A path spelling `w` exists starting at this node, terminal or not.
    spec fn spec_has_path(self, w: Seq<char>) -> bool
        decreases w.len(),
    {
        if w.len() == 0 {
            true
        } else {
            exists|i: int|
                0 <= i < self.children@.len() && (#[trigger] self.children@[i]).0 == w[0]
                    && self.children@[i].1.spec_has_path(w.skip(1))
        }
    }

    /// A node is created bare: not terminal, with no children.
    fn new() -> (r: Self)
        ensures
            r.wf(),
            forall|w: Seq<char>| !r.spec_contains(w),
            forall|w: Seq<char>| r.spec_has_path(w) <==> w.len() == 0,
    {
        TrieNode { is_end: false, children: Vec::new() }
    }

    /// Position of the child keyed by `c`, if one exists.
    fn find_child(&self, c: char) -> (r: Option<usize>)
        ensures
            match r {
                Some(j) => j < self.children@.len() && self.children@[j as int].0 == c,
                None => forall|i: int|
                    0 <= i < self.children@.len() ==> (#[trigger] self.children@[i]).0 != c,
            },
    {
        let mut j: usize = 0;
        while j < self.children.len()
            invariant
                j <= self.children@.len(),
                forall|i: int| 0 <= i < j ==> (#[trigger] self.children@[i]).0 != c,
            decreases self.children@.len() - j,
        {
            if self.children[j].0 == c {
                return Some(j);
            }
            j = j + 1;
        }
        None
    }

    /// Walk the suffix of `word` that starts at index `i` and report whether
    /// it ends on a terminal node.
    fn contains_from(&self, word: &str, i: usize) -> (r: bool)
        requires
            self.wf(),
            i <= word@.len(),
        ensures
            r == self.spec_contains(word@.skip(i as int)),
        decreases word@.len() - i,
    {
        let ghost s = word@.skip(i as int);
        if i == word.unicode_len() {
            self.is_end
        } else {
            let c = word.get_char(i);
            match self.find_child(c) {
                Some(j) => {
                    let r = self.children[j].1.contains_from(word, i + 1);
                    proof {
                        assert(s.skip(1) =~= word@.skip(i + 1));
                        if r {
                            assert(self.spec_contains(s));
                        } else {
                            assert forall|k: int|
                                0 <= k < self.children@.len() && (#[trigger] self.children@[k]).0
                                    == s[0] implies !self.children@[k].1.spec_contains(s.skip(1)) by {
                                assert(k == j);
                            }
                        }
                    }
                    r
                },
                None => {
                    proof {
                        assert(!self.spec_contains(s));
                    }
                    false
                },
            }
        }
    }

    /// Walk the suffix of `word` that starts at index `i` and report whether
    /// a path spelling it exists.
    fn has_path_from(&self, word: &str, i: usize) -> (r: bool)
        requires
            self.wf(),
            i <= word@.len(),
        ensures
            r == self.spec_has_path(word@.skip(i as int)),
        decreases word@.len() - i,
    {
        let ghost s = word@.skip(i as int);
        if i == word.unicode_len() {
            proof {
                assert(s.len() == 0);
            }
            true
        } else {
            let c = word.get_char(i);
            match self.find_child(c) {
                Some(j) => {
                    let r = self.children[j].1.has_path_from(word, i + 1);
                    proof {
                        assert(s.skip(1) =~= word@.skip(i + 1));
                        if r {
                            assert(self.spec_has_path(s));
                        } else {
                            assert forall|k: int|
                                0 <= k < self.children@.len() && (#[trigger] self.children@[k]).0
                                    == s[0] implies !self.children@[k].1.spec_has_path(s.skip(1)) by {
                                assert(k == j);
                            }
                        }
                    }
                    r
                },
                None => {
                    proof {
                        assert(!self.spec_has_path(s));
                    }
                    false
                },
            }
        }
    }

    /// Ensure the suffix of `word` that starts at index `i` is stored below
    /// this node, creating nodes as needed. Exactly that suffix is added as
    /// a word, and exactly its prefixes are added as paths.
    fn insert_from(&mut self, word: &str, i: usize)
        requires
            old(self).wf(),
            i <= word@.len(),
        ensures
            final(self).wf(),
            forall|w: Seq<char>| #![trigger final(self).spec_contains(w)] #![trigger old(self).spec_contains(w)]
                final(self).spec_contains(w) <==> (old(self).spec_contains(w) || w == word@.skip(
                i as int)),
            forall|p: Seq<char>| #![trigger final(self).spec_has_path(p)] #![trigger old(self).spec_has_path(p)]
                final(self).spec_has_path(p) <==> (old(self).spec_has_path(p) || p.is_prefix_of(
                word@.skip(i as int))),
        decreases word@.len() - i,
    {
        let ghost s = word@.skip(i as int);
        if i == word.unicode_len() {
            self.is_end = true;
            proof {
                assert(s.len() == 0);
                old(self).lemma_same_children(*self);
                assert forall|w: Seq<char>| #![trigger self.spec_contains(w)] #![trigger old(self).spec_contains(w)]
                    self.spec_contains(w) <==> (old(self).spec_contains(w) || w == s) by {
                    if w.len() == 0 {
                        assert(w =~= s);
                        assert(self.spec_contains(w));
                    }
                }
                assert forall|p: Seq<char>| #![trigger self.spec_has_path(p)] #![trigger old(self).spec_has_path(p)]
                    self.spec_has_path(p) <==> (old(self).spec_has_path(p) || p.is_prefix_of(
                    s)) by {
                    if p.len() == 0 {
                        assert(self.spec_has_path(p));
                        assert(old(self).spec_has_path(p));
                    }
                }
            }
        } else {
            let c = word.get_char(i);
            proof {
                assert(s.len() > 0);
                assert(s[0] == c);
                assert(s.skip(1) =~= word@.skip(i + 1));
            }
            match self.find_child(c) {
                Some(j) => {
                    let (key, mut node) = self.children.remove(j);
                    node.insert_from(word, i + 1);
                    self.children.insert(j, (key, node));
                    proof {
                        assert(old(self).children@[j as int].1.wf());
                        assert(self.children@ =~= old(self).children@.update(
                            j as int,
                            (c, node),
                        ));
                        lemma_children_update(*old(self), *self, j as int, node);
                        assert forall|w: Seq<char>| #![trigger self.spec_contains(w)] #![trigger old(self).spec_contains(w)]
                            self.spec_contains(w) <==> (old(self).spec_contains(w) || w == s) by {
                            if w.len() > 0 && w[0] == c {
                                old(self).lemma_at_key(j as int, w);
                                if w.skip(1) == s.skip(1) {
                                    lemma_head_tail_eq(w, s);
                                }
                            }
                        }
                        assert forall|p: Seq<char>| #![trigger self.spec_has_path(p)] #![trigger old(self).spec_has_path(p)]
                            self.spec_has_path(p) <==> (old(self).spec_has_path(p)
                                || p.is_prefix_of(s)) by {
                            if p.len() == 0 {
                                assert(self.spec_has_path(p));
                                assert(old(self).spec_has_path(p));
                            } else {
                                lemma_prefix_step(p, s);
                                if p[0] == c {
                                    old(self).lemma_at_key(j as int, p);
                                }
                            }
                        }
                    }
                },
                None => {
                    let mut node = TrieNode::new();
                    let ghost node0 = node;
                    node.insert_from(word, i + 1);
                    self.children.push((c, node));
                    proof {
                        lemma_children_push(*old(self), *self, c, node);
                        assert forall|w: Seq<char>| #![trigger self.spec_contains(w)] #![trigger old(self).spec_contains(w)]
                            self.spec_contains(w) <==> (old(self).spec_contains(w) || w == s) by {
                            if w.len() > 0 && w[0] == c {
                                old(self).lemma_no_key(w);
                                if w.skip(1) == s.skip(1) {
                                    lemma_head_tail_eq(w, s);
                                }
                            } else if w.len() == 0 {
                                assert(w != s);
                            }
                        }
                        assert forall|p: Seq<char>| #![trigger self.spec_has_path(p)] #![trigger old(self).spec_has_path(p)]
                            self.spec_has_path(p) <==> (old(self).spec_has_path(p)
                                || p.is_prefix_of(s)) by {
                            if p.len() == 0 {
                                assert(self.spec_has_path(p));
                                assert(old(self).spec_has_path(p));
                            } else {
                                lemma_prefix_step(p, s);
                                if p[0] == c {
                                    old(self).lemma_no_key(p);
                                    // the fresh node holds a path for every
                                    // prefix of the remaining suffix
                                    assert(node.spec_has_path(p.skip(1)) <==> (
                                    node0.spec_has_path(p.skip(1)) || p.skip(1).is_prefix_of(
                                        s.skip(1))));
                                }
                            }
                        }
                    }
                },
            }
        }
    }
}

impl TrieNode {
    /// With unique keys, a query that starts with the key of child `j`
    /// stands or falls with that one child.
    proof fn lemma_at_key(self, j: int, w: Seq<char>)
        requires
            self.wf(),
            0 <= j < self.children@.len(),
            w.len() > 0,
            w[0] == self.children@[j].0,
        ensures
            self.spec_contains(w) <==> self.children@[j].1.spec_contains(w.skip(1)),
            self.spec_has_path(w) <==> self.children@[j].1.spec_has_path(w.skip(1)),
    {
        if self.spec_contains(w) {
            let k = choose|k: int|
                0 <= k < self.children@.len() && (#[trigger] self.children@[k]).0 == w[0]
                    && self.children@[k].1.spec_contains(w.skip(1));
            assert(k == j);
        }
        if self.spec_has_path(w) {
            let k = choose|k: int|
                0 <= k < self.children@.len() && (#[trigger] self.children@[k]).0 == w[0]
                    && self.children@[k].1.spec_has_path(w.skip(1));
            assert(k == j);
        }
        if self.children@[j].1.spec_contains(w.skip(1)) {
            assert(self.spec_contains(w));
        }
        if self.children@[j].1.spec_has_path(w.skip(1)) {
            assert(self.spec_has_path(w));
        }
    }

    /// A non-empty query whose first character keys no child fails, both as
    /// a word and as a path.
    proof fn lemma_no_key(self, w: Seq<char>)
        requires
            w.len() > 0,
            forall|i: int| 0 <= i < self.children@.len() ==> (#[trigger] self.children@[i]).0 != w[0],
        ensures
            !self.spec_contains(w),
            !self.spec_has_path(w),
    {
    }

    /// Two nodes with the same children agree on every non-empty query and
    /// on well-formedness; only the terminal flag can tell them apart.
    proof fn lemma_same_children(self, other: TrieNode)
        requires
            self.children@ == other.children@,
        ensures
            forall|w: Seq<char>|
                w.len() > 0 ==> (#[trigger] self.spec_contains(w) <==> other.spec_contains(w)),
            forall|w: Seq<char>|
                w.len() > 0 ==> (#[trigger] self.spec_has_path(w) <==> other.spec_has_path(w)),
            self.wf() <==> other.wf(),
    {
        assert forall|w: Seq<char>| w.len() > 0 implies (#[trigger] self.spec_contains(w)
            <==> other.spec_contains(w)) by {
            if self.spec_contains(w) {
                let k = choose|k: int|
                    0 <= k < self.children@.len() && (#[trigger] self.children@[k]).0 == w[0]
                        && self.children@[k].1.spec_contains(w.skip(1));
                assert((other.children@[k]).0 == w[0]
                    && other.children@[k].1.spec_contains(w.skip(1)));
            }
            if other.spec_contains(w) {
                let k = choose|k: int|
                    0 <= k < other.children@.len() && (#[trigger] other.children@[k]).0 == w[0]
                        && other.children@[k].1.spec_contains(w.skip(1));
                assert((self.children@[k]).0 == w[0]
                    && self.children@[k].1.spec_contains(w.skip(1)));
            }
        }
        assert forall|w: Seq<char>| w.len() > 0 implies (#[trigger] self.spec_has_path(w)
            <==> other.spec_has_path(w)) by {
            if self.spec_has_path(w) {
                let k = choose|k: int|
                    0 <= k < self.children@.len() && (#[trigger] self.children@[k]).0 == w[0]
                        && self.children@[k].1.spec_has_path(w.skip(1));
                assert((other.children@[k]).0 == w[0]
                    && other.children@[k].1.spec_has_path(w.skip(1)));
            }
            if other.spec_has_path(w) {
                let k = choose|k: int|
                    0 <= k < other.children@.len() && (#[trigger] other.children@[k]).0 == w[0]
                        && other.children@[k].1.spec_has_path(w.skip(1));
                assert((self.children@[k]).0 == w[0]
                    && self.children@[k].1.spec_has_path(w.skip(1)));
            }
        }
    }
}

/// Replacing the child at position `j` of a well-formed node changes the
/// answers exactly for the queries that start with that child's key.
proof fn lemma_children_update(pre: TrieNode, post: TrieNode, j: int, child: TrieNode)
    requires
        pre.wf(),
        0 <= j < pre.children@.len(),
        post.is_end == pre.is_end,
        post.children@ == pre.children@.update(j, (pre.children@[j].0, child)),
        child.wf(),
    ensures
        post.wf(),
        forall|w: Seq<char>|
            #[trigger] post.spec_contains(w) <==> if w.len() > 0 && w[0] == pre.children@[j].0 {
                child.spec_contains(w.skip(1))
            } else {
                pre.spec_contains(w)
            },
        forall|w: Seq<char>|
            #[trigger] post.spec_has_path(w) <==> if w.len() > 0 && w[0] == pre.children@[j].0 {
                child.spec_has_path(w.skip(1))
            } else {
                pre.spec_has_path(w)
            },
{
    let c = pre.children@[j].0;
    assert(post.children@.len() == pre.children@.len());
    assert(post.children@[j] == (c, child));
    assert forall|i: int| 0 <= i < post.children@.len() implies (#[trigger] post.children@[i]).0
        == pre.children@[i].0 by {
        if i != j {
            assert(post.children@[i] == pre.children@[i]);
        }
    }
    assert(post.wf()) by {
        assert forall|i: int| 0 <= i < post.children@.len() implies (
        #[trigger] post.children@[i]).1.wf() by {
            if i != j {
                assert(post.children@[i] == pre.children@[i]);
                assert(pre.children@[i].1.wf());
            }
        }
    }
    assert forall|w: Seq<char>| #[trigger] post.spec_contains(w) <==> if w.len() > 0 && w[0] == c {
        child.spec_contains(w.skip(1))
    } else {
        pre.spec_contains(w)
    } by {
        if w.len() == 0 {
        } else if w[0] == c {
            post.lemma_at_key(j, w);
        } else {
            if post.spec_contains(w) {
                let k = choose|k: int|
                    0 <= k < post.children@.len() && (#[trigger] post.children@[k]).0 == w[0]
                        && post.children@[k].1.spec_contains(w.skip(1));
                assert(k != j);
                assert((pre.children@[k]).0 == w[0]
                    && pre.children@[k].1.spec_contains(w.skip(1)));
            }
            if pre.spec_contains(w) {
                let k = choose|k: int|
                    0 <= k < pre.children@.len() && (#[trigger] pre.children@[k]).0 == w[0]
                        && pre.children@[k].1.spec_contains(w.skip(1));
                assert(k != j);
                assert((post.children@[k]).0 == w[0]
                    && post.children@[k].1.spec_contains(w.skip(1)));
            }
        }
    }
    assert forall|w: Seq<char>| #[trigger] post.spec_has_path(w) <==> if w.len() > 0 && w[0] == c {
        child.spec_has_path(w.skip(1))
    } else {
        pre.spec_has_path(w)
    } by {
        if w.len() == 0 {
        } else if w[0] == c {
            post.lemma_at_key(j, w);
        } else {
            if post.spec_has_path(w) {
                let k = choose|k: int|
                    0 <= k < post.children@.len() && (#[trigger] post.children@[k]).0 == w[0]
                        && post.children@[k].1.spec_has_path(w.skip(1));
                assert(k != j);
                assert((pre.children@[k]).0 == w[0]
                    && pre.children@[k].1.spec_has_path(w.skip(1)));
            }
            if pre.spec_has_path(w) {
                let k = choose|k: int|
                    0 <= k < pre.children@.len() && (#[trigger] pre.children@[k]).0 == w[0]
                        && pre.children@[k].1.spec_has_path(w.skip(1));
                assert(k != j);
                assert((post.children@[k]).0 == w[0]
                    && post.children@[k].1.spec_has_path(w.skip(1)));
            }
        }
    }
}

/// Appending a child under a key no existing child carries changes the
/// answers exactly for the queries that start with that key.
proof fn lemma_children_push(pre: TrieNode, post: TrieNode, c: char, child: TrieNode)
    requires
        pre.wf(),
        forall|i: int| 0 <= i < pre.children@.len() ==> (#[trigger] pre.children@[i]).0 != c,
        post.is_end == pre.is_end,
        post.children@ == pre.children@.push((c, child)),
        child.wf(),
    ensures
        post.wf(),
        forall|w: Seq<char>|
            #[trigger] post.spec_contains(w) <==> if w.len() > 0 && w[0] == c {
                child.spec_contains(w.skip(1))
            } else {
                pre.spec_contains(w)
            },
        forall|w: Seq<char>|
            #[trigger] post.spec_has_path(w) <==> if w.len() > 0 && w[0] == c {
                child.spec_has_path(w.skip(1))
            } else {
                pre.spec_has_path(w)
            },
{
    let n = pre.children@.len() as int;
    assert(post.children@.len() == n + 1);
    assert(post.children@[n] == (c, child));
    assert forall|i: int| 0 <= i < n implies #[trigger] post.children@[i] == pre.children@[i] by {}
    assert(post.wf()) by {
        assert forall|i: int| 0 <= i < post.children@.len() implies (
        #[trigger] post.children@[i]).1.wf() by {
            if i < n {
                assert(pre.children@[i].1.wf());
            }
        }
        assert forall|i1: int, i2: int| 0 <= i1 < i2 < post.children@.len() implies (
        #[trigger] post.children@[i1]).0 != (#[trigger] post.children@[i2]).0 by {
            if i2 < n {
                assert(pre.children@[i1].0 != pre.children@[i2].0);
            } else {
                assert(pre.children@[i1].0 != c);
            }
        }
    }
    assert forall|w: Seq<char>| #[trigger] post.spec_contains(w) <==> if w.len() > 0 && w[0] == c {
        child.spec_contains(w.skip(1))
    } else {
        pre.spec_contains(w)
    } by {
        if w.len() == 0 {
        } else if w[0] == c {
            post.lemma_at_key(n, w);
        } else {
            if post.spec_contains(w) {
                let k = choose|k: int|
                    0 <= k < post.children@.len() && (#[trigger] post.children@[k]).0 == w[0]
                        && post.children@[k].1.spec_contains(w.skip(1));
                assert(k != n);
                assert((pre.children@[k]).0 == w[0]
                    && pre.children@[k].1.spec_contains(w.skip(1)));
            }
            if pre.spec_contains(w) {
                let k = choose|k: int|
                    0 <= k < pre.children@.len() && (#[trigger] pre.children@[k]).0 == w[0]
                        && pre.children@[k].1.spec_contains(w.skip(1));
                assert((post.children@[k]).0 == w[0]
                    && post.children@[k].1.spec_contains(w.skip(1)));
            }
        }
    }
    assert forall|w: Seq<char>| #[trigger] post.spec_has_path(w) <==> if w.len() > 0 && w[0] == c {
        child.spec_has_path(w.skip(1))
    } else {
        pre.spec_has_path(w)
    } by {
        if w.len() == 0 {
        } else if w[0] == c {
            post.lemma_at_key(n, w);
        } else {
            if post.spec_has_path(w) {
                let k = choose|k: int|
                    0 <= k < post.children@.len() && (#[trigger] post.children@[k]).0 == w[0]
                        && post.children@[k].1.spec_has_path(w.skip(1));
                assert(k != n);
                assert((pre.children@[k]).0 == w[0]
                    && pre.children@[k].1.spec_has_path(w.skip(1)));
            }
            if pre.spec_has_path(w) {
                let k = choose|k: int|
                    0 <= k < pre.children@.len() && (#[trigger] pre.children@[k]).0 == w[0]
                        && pre.children@[k].1.spec_has_path(w.skip(1));
                assert((post.children@[k]).0 == w[0]
                    && post.children@[k].1.spec_has_path(w.skip(1)));
            }
        }
    }
}

/// A prefix tree over Unicode scalar values: stores a set of words and
/// answers membership and prefix queries by walking one node per character.
pub struct Trie {
    root: TrieNode,
}

/// Relates a trie to the same trie after one insertion of `word`: exactly
/// `word` joins the stored words, and exactly the prefixes of `word` (the
/// empty sequence and `word` itself included) join the stored paths. Nothing
/// else changes.
pub open spec fn inserted(pre: Trie, post: Trie, word: Seq<char>) -> bool {
    &&& forall|w: Seq<char>| #![trigger post.spec_contains(w)] #![trigger pre.spec_contains(w)]
        post.spec_contains(w) <==> (pre.spec_contains(w) || w == word)
    &&& forall|p: Seq<char>| #![trigger post.spec_has_path(p)] #![trigger pre.spec_has_path(p)]
        post.spec_has_path(p) <==> (pre.spec_has_path(p) || p.is_prefix_of(word))
}

impl Trie {
    /// Structural soundness: no node carries two children under one key.
    /// Construction and insertion keep it, so it holds of every trie a
    /// caller can have, and no operation asks anything of its caller.
    #[verifier::type_invariant]
    spec fn wf(self) -> bool {
        self.root.wf()
    }

    /// The word `w` is stored: a path from the root spells `w` and its last
    /// node carries the terminal flag.
    pub closed spec fn spec_contains(self, w: Seq<char>) -> bool {
        self.root.spec_contains(w)
    }

    /// A path from the root spells `p`, terminal or not: some stored word
    /// begins with `p`.
    pub closed spec fn spec_has_path(self, p: Seq<char>) -> bool {
        self.root.spec_has_path(p)
    }

    /// No word is stored and only the empty path exists: the state `new`
    /// returns and insertions grow.
    pub open spec fn spec_is_empty(self) -> bool {
        &&& forall|w: Seq<char>| !self.spec_contains(w)
        &&& forall|p: Seq<char>| self.spec_has_path(p) <==> p.len() == 0
    }

    /// An empty trie: a bare root and nothing stored.
    pub fn new() -> (r: Trie)
        ensures
            r.spec_is_empty(),
    {
        Trie { root: TrieNode::new() }
    }

    /// Make `word` a member of the trie, walking from the root and creating
    /// one node per missing character. Returns the inserted word unchanged.
    /// Any sequence of characters may be inserted, the empty one included;
    /// words already stored, and stored words that share a prefix with
    /// `word`, are untouched.
    pub fn insert(&mut self, word: &str) -> (r: String)
        ensures
            r@ == word@,
            inserted(*old(self), *final(self), word@),
    {
        proof {
            use_type_invariant(&*self);
        }
        let mut root = TrieNode::new();
        std::mem::swap(&mut root, &mut self.root);
        root.insert_from(word, 0);
        self.root = root;
        proof {
            assert(word@.skip(0) =~= word@);
        }
        word.to_string()
    }

    /// True iff `word` was previously inserted: merely being the prefix of a
    /// longer stored word does not count. Walks from the root and answers
    /// false as soon as a character has no child. The trie is not changed.
    pub fn contains(&self, word: &str) -> (r: bool)
        ensures
            r == self.spec_contains(word@),
    {
        proof {
            use_type_invariant(&*self);
            assert(word@.skip(0) =~= word@);
        }
        self.root.contains_from(word, 0)
    }

    /// True iff some stored word begins with `word`, whether or not `word`
    /// itself was inserted; the empty prefix always answers true. Walks from
    /// the root and answers false as soon as a character has no child. The
    /// trie is not changed.
    pub fn starts_with(&self, word: &str) -> (r: bool)
        ensures
            r == self.spec_has_path(word@),
    {
        proof {
            use_type_invariant(&*self);
            assert(word@.skip(0) =~= word@);
        }
        self.root.has_path_from(word, 0)
    }
}

/// Two non-empty sequences with the same head and the same tail are equal.
proof fn lemma_head_tail_eq(a: Seq<char>, b: Seq<char>)
    requires
        a.len() > 0,
        b.len() > 0,
        a[0] == b[0],
        a.skip(1) == b.skip(1),
    ensures
        a == b,
{
    assert(a.skip(1).len() == a.len() - 1);
    assert(b.skip(1).len() == b.len() - 1);
    assert(a.len() == b.len());
    assert forall|n: int| 0 <= n < a.len() implies a[n] == b[n] by {
        if n > 0 {
            assert(a[n] == a.skip(1)[n - 1]);
            assert(b[n] == b.skip(1)[n - 1]);
        }
    }
    assert(a =~= b);
}

/// A non-empty sequence is a prefix of a non-empty sequence exactly when
/// their heads agree and its tail is a prefix of the other's tail.
proof fn lemma_prefix_step(p: Seq<char>, s: Seq<char>)
    requires
        p.len() > 0,
        s.len() > 0,
    ensures
        p.is_prefix_of(s) <==> (p[0] == s[0] && p.skip(1).is_prefix_of(s.skip(1))),
{
    if p.is_prefix_of(s) {
        assert(p[0] == s.subrange(0, p.len() as int)[0]);
        assert(p.skip(1) =~= s.skip(1).subrange(0, p.len() - 1)) by {
            assert forall|n: int| 0 <= n < p.len() - 1 implies p.skip(1)[n] == s.skip(1).subrange(
                0,
                p.len() - 1,
            )[n] by {
                assert(p[n + 1] == s.subrange(0, p.len() as int)[n + 1]);
            }
        }
    }
    if p[0] == s[0] && p.skip(1).is_prefix_of(s.skip(1)) {
        assert(p =~= s.subrange(0, p.len() as int)) by {
            assert forall|n: int| 0 <= n < p.len() implies p[n] == s.subrange(
                0,
                p.len() as int,
            )[n] by {
                if n > 0 {
                    assert(p.skip(1)[n - 1] == s.skip(1).subrange(0, p.len() - 1)[n - 1]);
                    assert(s.skip(1)[n - 1] == s[n]);
                }
            }
        }
    }
}


} // verus!
