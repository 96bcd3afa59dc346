//! The index from root hash to committed revision.

use vstd::prelude::*;
use std::sync::Arc;
use crate::hash::TrieHash;
use crate::revision::{Committed, CommittedView};
use crate::shared::share;

verus! {

/// The map that a list of entries stands for; a later entry wins a key.
pub open spec fn index_map(entries: Seq<(TrieHash, Arc<Committed>)>) -> Map<
    Seq<u8>,
    CommittedView,
>
    decreases entries.len(),
{
    if entries.len() == 0 {
        Map::empty()
    } else {
        index_map(entries.drop_last()).insert(entries.last().0@, entries.last().1@)
    }
}

/// No hash occurs twice.
pub open spec fn keys_distinct(entries: Seq<(TrieHash, Arc<Committed>)>) -> bool {
    forall|i: int, j: int|
        0 <= i < j < entries.len() ==> (#[trigger] entries[i]).0@ != (#[trigger] entries[j]).0@
}

proof fn lemma_index_absent(entries: Seq<(TrieHash, Arc<Committed>)>, key: Seq<u8>)
    requires
        forall|i: int| 0 <= i < entries.len() ==> (#[trigger] entries[i]).0@ != key,
    ensures
        !index_map(entries).contains_key(key),
    decreases entries.len(),
{
    if entries.len() > 0 {
        let front = entries.drop_last();
        assert forall|i: int| 0 <= i < front.len() implies (#[trigger] front[i]).0@ != key by {
            assert(front[i] == entries[i]);
        }
        lemma_index_absent(front, key);
        assert(entries.last() == entries[entries.len() - 1]);
    }
}

proof fn lemma_index_lookup(entries: Seq<(TrieHash, Arc<Committed>)>, i: int)
    requires
        keys_distinct(entries),
        0 <= i < entries.len(),
    ensures
        index_map(entries).contains_key(entries[i].0@),
        index_map(entries)[entries[i].0@] == entries[i].1@,
    decreases entries.len(),
{
    let front = entries.drop_last();
    if i < entries.len() - 1 {
        assert forall|a: int, b: int| 0 <= a < b < front.len() implies (#[trigger] front[a]).0@ != (
        #[trigger] front[b]).0@ by {
            assert(front[a] == entries[a]);
            assert(front[b] == entries[b]);
        }
        lemma_index_lookup(front, i);
        assert(front[i] == entries[i]);
        assert(entries[i].0@ != entries[entries.len() - 1].0@);
    }
}

proof fn lemma_index_remove(entries: Seq<(TrieHash, Arc<Committed>)>, i: int)
    requires
        keys_distinct(entries),
        0 <= i < entries.len(),
    ensures
        keys_distinct(entries.remove(i)),
        index_map(entries.remove(i)) == index_map(entries).remove(entries[i].0@),
    decreases entries.len(),
{
    let rest = entries.remove(i);
    assert forall|a: int, b: int| 0 <= a < b < rest.len() implies (#[trigger] rest[a]).0@ != (
    #[trigger] rest[b]).0@ by {
        let a0 = if a < i { a } else { a + 1 };
        let b0 = if b < i { b } else { b + 1 };
        assert(rest[a] == entries[a0]);
        assert(rest[b] == entries[b0]);
    }
    let front = entries.drop_last();
    if i == entries.len() - 1 {
        assert(rest =~= front);
        assert forall|k: int| 0 <= k < front.len() implies (#[trigger] front[k]).0@
            != entries[i].0@ by {
            assert(front[k] == entries[k]);
        }
        lemma_index_absent(front, entries[i].0@);
        assert(index_map(front) =~= index_map(entries).remove(entries[i].0@));
    } else {
        assert forall|a: int, b: int| 0 <= a < b < front.len() implies (#[trigger] front[a]).0@ != (
        #[trigger] front[b]).0@ by {
            assert(front[a] == entries[a]);
            assert(front[b] == entries[b]);
        }
        lemma_index_remove(front, i);
        assert(front[i] == entries[i]);
        assert(rest.drop_last() =~= front.remove(i));
        assert(rest.last() == entries.last());
        assert(entries[i].0@ != entries[entries.len() - 1].0@);
        assert(index_map(rest) =~= index_map(entries).remove(entries[i].0@));
    }
}

/// Committed revisions by root hash.
#[derive(Debug)]
pub struct HashIndex {
    entries: Vec<(TrieHash, Arc<Committed>)>,
}

impl View for HashIndex {
    type V = Map<Seq<u8>, CommittedView>;

    closed spec fn view(&self) -> Map<Seq<u8>, CommittedView> {
        index_map(self.entries@)
    }
}

impl HashIndex {
    /// No hash is listed twice.
    pub closed spec fn wf(&self) -> bool {
        keys_distinct(self.entries@)
    }

    /// An index that holds nothing.
    pub fn new() -> (index: HashIndex)
        ensures
            index.wf(),
            index@ == Map::<Seq<u8>, CommittedView>::empty(),
    {
        HashIndex { entries: Vec::new() }
    }

    /// The position of `hash` among the entries, if it is listed.
    fn position(&self, hash: &TrieHash) -> (at: Option<usize>)
        ensures
            match at {
                Some(i) => i < self.entries@.len() && self.entries@[i as int].0@ == hash@,
                None => forall|i: int|
                    0 <= i < self.entries@.len() ==> (#[trigger] self.entries@[i]).0@ != hash@,
            },
    {
        let mut i: usize = 0;
        while i < self.entries.len()
            invariant
                i <= self.entries@.len(),
                forall|k: int| 0 <= k < i ==> (#[trigger] self.entries@[k]).0@ != hash@,
            decreases self.entries@.len() - i,
        {
            if self.entries[i].0.same(hash) {
                return Some(i);
            }
            i += 1;
        }
        None
    }

    /// The revision listed under `hash`, if any.
    pub fn get(&self, hash: &TrieHash) -> (found: Option<Arc<Committed>>)
        requires
            self.wf(),
        ensures
            found is Some <==> self@.contains_key(hash@),
            found matches Some(rev) ==> rev@ == self@[hash@],
    {
        match self.position(hash) {
            Some(i) => {
                proof {
                    lemma_index_lookup(self.entries@, i as int);
                }
                Some(share(&self.entries[i].1))
            },
            None => {
                proof {
                    lemma_index_absent(self.entries@, hash@);
                }
                None
            },
        }
    }

    /// Takes `hash` out of the index; nothing happens if it is not listed.
    pub fn remove(&mut self, hash: &TrieHash)
        requires
            old(self).wf(),
        ensures
            final(self).wf(),
            final(self)@ == old(self)@.remove(hash@),
    {
        match self.position(hash) {
            Some(i) => {
                proof {
                    lemma_index_remove(self.entries@, i as int);
                }
                let _ = self.entries.remove(i);
            },
            None => {
                proof {
                    lemma_index_absent(self.entries@, hash@);
                    assert(self@ =~= self@.remove(hash@));
                }
            },
        }
    }

    /// Lists `rev` under `hash`, in place of what was listed there.
    pub fn insert(&mut self, hash: TrieHash, rev: Arc<Committed>)
        requires
            old(self).wf(),
        ensures
            final(self).wf(),
            final(self)@ == old(self)@.insert(hash@, rev@),
    {
        self.remove(&hash);
        proof {
            let entries = self.entries@;
            assert forall|i: int| 0 <= i < entries.len() implies (#[trigger] entries[i]).0@
                != hash@ by {
                if entries[i].0@ == hash@ {
                    lemma_index_lookup(entries, i);
                    assert(index_map(entries).contains_key(hash@));
                }
            }
        }
        let ghost before = self.entries@;
        self.entries.push((hash, rev));
        proof {
            assert(self.entries@.drop_last() =~= before);
            assert(self@ =~= old(self)@.insert(hash@, rev@));
        }
    }
}

} // verus!
