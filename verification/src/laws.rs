//! The laws of the trie: what one or two insertions do to membership and
//! prefix queries, proved from the relational contracts of `Trie::insert`
//! and `Trie::new`.

use vstd::prelude::*;

use crate::Trie;
use crate::inserted;

verus! {

/// After a word is inserted, the trie contains it.
pub proof fn lemma_insert_then_contains(pre: Trie, post: Trie, word: Seq<char>)
    requires
        inserted(pre, post, word),
    ensures
        post.spec_contains(word),
{
}

/// After a word is inserted, every prefix of it — itself and the empty
/// sequence included — is a stored path, so `starts_with` answers true.
pub proof fn lemma_insert_then_starts_with(pre: Trie, post: Trie, word: Seq<char>, p: Seq<char>)
    requires
        inserted(pre, post, word),
        p.is_prefix_of(word),
    ensures
        post.spec_has_path(p),
        post.spec_has_path(word),
{
    assert(word =~= word.subrange(0, word.len() as int));
    assert(word.is_prefix_of(word));
}

/// After one word is inserted into an empty trie, a proper non-empty prefix
/// of it is a stored path but not a stored word.
pub proof fn lemma_proper_prefix_not_contained(pre: Trie, post: Trie, word: Seq<char>, p: Seq<char>)
    requires
        pre.spec_is_empty(),
        inserted(pre, post, word),
        0 < p.len() < word.len(),
        p.is_prefix_of(word),
    ensures
        !post.spec_contains(p),
        post.spec_has_path(p),
{
    assert(!pre.spec_contains(p));
}

/// Inserting the same word twice leaves the trie indistinguishable, under
/// membership and prefix queries, from inserting it once.
pub proof fn lemma_insert_idempotent(t0: Trie, t1: Trie, t2: Trie, word: Seq<char>)
    requires
        inserted(t0, t1, word),
        inserted(t1, t2, word),
    ensures
        forall|w: Seq<char>| #[trigger] t2.spec_contains(w) <==> t1.spec_contains(w),
        forall|p: Seq<char>| #[trigger] t2.spec_has_path(p) <==> t1.spec_has_path(p),
{
    lemma_insert_then_contains(t0, t1, word);
    assert forall|w: Seq<char>| #[trigger] t2.spec_contains(w) <==> t1.spec_contains(w) by {
        assert(t2.spec_contains(w) <==> (t1.spec_contains(w) || w == word));
    }
    assert forall|p: Seq<char>| #[trigger] t2.spec_has_path(p) <==> t1.spec_has_path(p) by {
        assert(t2.spec_has_path(p) <==> (t1.spec_has_path(p) || p.is_prefix_of(word)));
        assert(t1.spec_has_path(p) <==> (t0.spec_has_path(p) || p.is_prefix_of(word)));
    }
}

/// An empty trie contains no non-empty word, and the empty prefix is a
/// stored path of it (as it is of every trie).
pub proof fn lemma_empty_trie_baseline(t: Trie)
    requires
        t.spec_is_empty(),
    ensures
        forall|w: Seq<char>| w.len() > 0 ==> !(#[trigger] t.spec_contains(w)),
        t.spec_has_path(Seq::<char>::empty()),
{
}

/// An insertion is independent of everything outside the inserted word:
/// membership of any other word, and the paths that spell no prefix of the
/// word, are exactly as they were.
pub proof fn lemma_insert_independent(pre: Trie, post: Trie, word: Seq<char>, q: Seq<char>, p: Seq<char>)
    requires
        inserted(pre, post, word),
        q != word,
        !p.is_prefix_of(word),
    ensures
        post.spec_contains(q) <==> pre.spec_contains(q),
        post.spec_has_path(p) <==> pre.spec_has_path(p),
{
}

} // verus!
