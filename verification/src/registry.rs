//! Persistent mapping from swap id to serialized swap record.
//!
//! The registry enforces "create only if absent": creation fails when the
//! id is already present, and ids are never removed, so an id can be
//! created at most once over the registry's whole life.

use vstd::prelude::*;

use crate::bytes::{bytes_eq, clone_bytes};
use crate::error::SwapError;

verus! {

/// The keyed store of serialized swap records.
pub struct Registry {
    entries: Vec<(Vec<u8>, Vec<u8>)>,
}

/// The mapping an entry sequence denotes; later entries would win, but the
/// registry keeps its keys unique.
pub open spec fn entries_map(s: Seq<(Vec<u8>, Vec<u8>)>) -> Map<Seq<u8>, Seq<u8>>
    decreases s.len(),
{
    if s.len() == 0 {
        Map::empty()
    } else {
        entries_map(s.drop_last()).insert(s.last().0@, s.last().1@)
    }
}

spec fn unique_keys(s: Seq<(Vec<u8>, Vec<u8>)>) -> bool {
    forall|i: int, j: int| 0 <= i < j < s.len() ==> s[i].0@ != s[j].0@
}

proof fn lemma_entries_map_index(s: Seq<(Vec<u8>, Vec<u8>)>, i: int)
    requires
        unique_keys(s),
        0 <= i < s.len(),
    ensures
        entries_map(s).contains_key(s[i].0@),
        entries_map(s)[s[i].0@] == s[i].1@,
    decreases s.len(),
{
    if i == s.len() - 1 {
    } else {
        lemma_entries_map_index(s.drop_last(), i);
        assert(s.drop_last()[i] == s[i]);
        assert(s.last().0@ != s[i].0@);
    }
}

proof fn lemma_entries_map_absent(s: Seq<(Vec<u8>, Vec<u8>)>, k: Seq<u8>)
    requires
        forall|i: int| 0 <= i < s.len() ==> s[i].0@ != k,
    ensures
        !entries_map(s).contains_key(k),
    decreases s.len(),
{
    if s.len() > 0 {
        lemma_entries_map_absent(s.drop_last(), k);
    }
}

proof fn lemma_entries_map_contains(s: Seq<(Vec<u8>, Vec<u8>)>, k: Seq<u8>)
    requires
        entries_map(s).contains_key(k),
    ensures
        exists|i: int| 0 <= i < s.len() && s[i].0@ == k,
    decreases s.len(),
{
    if s.len() > 0 {
        if s.last().0@ == k {
            assert(s[s.len() - 1].0@ == k);
        } else {
            lemma_entries_map_contains(s.drop_last(), k);
            let i = choose|i: int| 0 <= i < s.drop_last().len() && s.drop_last()[i].0@ == k;
            assert(s[i].0@ == k);
        }
    }
}

proof fn lemma_entries_map_push(s: Seq<(Vec<u8>, Vec<u8>)>, e: (Vec<u8>, Vec<u8>))
    ensures
        entries_map(s.push(e)) == entries_map(s).insert(e.0@, e.1@),
{
    assert(s.push(e).drop_last() =~= s);
    assert(s.push(e).last() == e);
}

proof fn lemma_entries_map_update(s: Seq<(Vec<u8>, Vec<u8>)>, i: int, v: Vec<u8>)
    requires
        unique_keys(s),
        0 <= i < s.len(),
    ensures
        entries_map(s.update(i, (s[i].0, v))) == entries_map(s).insert(s[i].0@, v@),
    decreases s.len(),
{
    let t = s.update(i, (s[i].0, v));
    if i == s.len() - 1 {
        assert(t.drop_last() =~= s.drop_last());
        assert(entries_map(t) == entries_map(s.drop_last()).insert(s[i].0@, v@));
        assert(entries_map(s.drop_last()).insert(s[i].0@, s[i].1@).insert(s[i].0@, v@)
            =~= entries_map(s.drop_last()).insert(s[i].0@, v@));
    } else {
        assert(t.drop_last() =~= s.drop_last().update(i, (s[i].0, v)));
        assert(s.drop_last()[i] == s[i]);
        lemma_entries_map_update(s.drop_last(), i, v);
        assert(t.last() == s.last());
        assert(entries_map(t) == entries_map(s.drop_last()).insert(s[i].0@, v@).insert(
            s.last().0@,
            s.last().1@,
        ));
        assert(s.last().0@ != s[i].0@);
        assert(entries_map(s.drop_last()).insert(s[i].0@, v@).insert(s.last().0@, s.last().1@)
            =~= entries_map(s.drop_last()).insert(s.last().0@, s.last().1@).insert(s[i].0@, v@));
    }
}

impl Registry {
    /// Well-formedness: stored swap ids are pairwise distinct. Established
    /// by `new` and preserved by every operation.
    pub closed spec fn wf(self) -> bool {
        unique_keys(self.entries@)
    }

    /// The mapping from swap id to stored record bytes.
    pub closed spec fn view(self) -> Map<Seq<u8>, Seq<u8>> {
        entries_map(self.entries@)
    }

    /// The stored (id, record) pairs, in insertion order.
    pub closed spec fn pairs(self) -> Seq<(Seq<u8>, Seq<u8>)> {
        self.entries@.map_values(|e: (Vec<u8>, Vec<u8>)| (e.0@, e.1@))
    }

    /// How the map view and the pair sequence correspond: ids are
    /// pairwise distinct, each pair is in the map, and each mapped id
    /// appears among the pairs.
    pub proof fn lemma_pairs_correspondence(self)
        requires
            self.wf(),
        ensures
            forall|i: int, j: int|
                0 <= i < j < self.pairs().len() ==> self.pairs()[i].0 != self.pairs()[j].0,
            forall|i: int|
                0 <= i < self.pairs().len() ==> #[trigger] self@.contains_key(self.pairs()[i].0)
                    && self@[self.pairs()[i].0] == self.pairs()[i].1,
            forall|k: Seq<u8>|
                #[trigger] self@.contains_key(k) ==> exists|i: int|
                    0 <= i < self.pairs().len() && self.pairs()[i].0 == k,
    {
        assert forall|i: int|
            0 <= i < self.pairs().len() implies #[trigger] self@.contains_key(self.pairs()[i].0)
            && self@[self.pairs()[i].0] == self.pairs()[i].1 by {
            lemma_entries_map_index(self.entries@, i);
        }
        assert forall|k: Seq<u8>| #[trigger] self@.contains_key(k) implies exists|i: int|
            0 <= i < self.pairs().len() && self.pairs()[i].0 == k by {
            lemma_entries_map_contains(self.entries@, k);
            let i = choose|i: int| 0 <= i < self.entries@.len() && self.entries@[i].0@ == k;
            assert(self.pairs()[i].0 == k);
        }
    }

    /// An empty registry.
    pub fn new() -> (r: Registry)
        ensures
            r.wf(),
            r@ == Map::<Seq<u8>, Seq<u8>>::empty(),
            r.pairs() == Seq::<(Seq<u8>, Seq<u8>)>::empty(),
    {
        let r = Registry { entries: Vec::new() };
        proof {
            assert(r.pairs() =~= Seq::<(Seq<u8>, Seq<u8>)>::empty());
        }
        r
    }

    /// The index of the entry holding `id`, if any.
    fn find(&self, id: &Vec<u8>) -> (r: Option<usize>)
        requires
            self.wf(),
        ensures
            match r {
                Some(i) => i < self.entries@.len() && self.entries@[i as int].0@ == id@
                    && self@.contains_key(id@),
                None => !self@.contains_key(id@),
            },
    {
        let mut i: usize = 0;
        while i < self.entries.len()
            invariant
                i <= self.entries@.len(),
                forall|j: int| 0 <= j < i ==> self.entries@[j].0@ != id@,
                unique_keys(self.entries@),
            decreases self.entries@.len() - i,
        {
            if bytes_eq(&self.entries[i].0, id) {
                proof {
                    lemma_entries_map_index(self.entries@, i as int);
                }
                return Some(i);
            }
            i += 1;
        }
        proof {
            lemma_entries_map_absent(self.entries@, id@);
        }
        None
    }

    /// Whether a record is stored under `id`.
    pub fn exists_swap(&self, id: &Vec<u8>) -> (r: bool)
        requires
            self.wf(),
        ensures
            r == self@.contains_key(id@),
    {
        self.find(id).is_some()
    }

    /// The record bytes stored under `id`, if any.
    pub fn get_swap(&self, id: &Vec<u8>) -> (r: Option<Vec<u8>>)
        requires
            self.wf(),
        ensures
            match r {
                Some(b) => self@.contains_key(id@) && b@ == self@[id@],
                None => !self@.contains_key(id@),
            },
    {
        match self.find(id) {
            Some(i) => {
                proof {
                    lemma_entries_map_index(self.entries@, i as int);
                }
                Some(clone_bytes(&self.entries[i].1))
            },
            None => None,
        }
    }

    /// Store a fresh record under `id`; rejected when `id` is already
    /// present, so a given id is created at most once.
    pub fn create(&mut self, id: &Vec<u8>, record: Vec<u8>) -> (r: Result<(), SwapError>)
        requires
            old(self).wf(),
        ensures
            final(self).wf(),
            match r {
                Ok(()) => !old(self)@.contains_key(id@) && final(self)@ == old(self)@.insert(
                    id@,
                    record@,
                ) && final(self).pairs() == old(self).pairs().push((id@, record@)),
                Err(e) => e == SwapError::AlreadyExists && old(self)@.contains_key(id@)
                    && final(self)@ == old(self)@,
            },
    {
        match self.find(id) {
            Some(_) => Err(SwapError::AlreadyExists),
            None => {
                let key = clone_bytes(id);
                proof {
                    lemma_entries_map_push(self.entries@, (key, record));
                    assert forall|j: int| 0 <= j < self.entries@.len() implies self.entries@[j].0@
                        != key@ by {
                        if self.entries@[j].0@ == id@ {
                            lemma_entries_map_index(self.entries@, j);
                        }
                    }
                }
                proof {
                    assert(self.entries@.push((key, record)).map_values(
                        |e: (Vec<u8>, Vec<u8>)| (e.0@, e.1@),
                    ) =~= self.pairs().push((id@, record@)));
                }
                self.entries.push((key, record));
                Ok(())
            },
        }
    }

    /// Replace the record stored under an existing `id`.
    pub fn update(&mut self, id: &Vec<u8>, record: Vec<u8>)
        requires
            old(self).wf(),
            old(self)@.contains_key(id@),
        ensures
            final(self).wf(),
            final(self)@ == old(self)@.insert(id@, record@),
            exists|i: int|
                0 <= i < old(self).pairs().len() && old(self).pairs()[i].0 == id@
                    && final(self).pairs() == old(self).pairs().update(i, (id@, record@)),
    {
        match self.find(id) {
            Some(i) => {
                proof {
                    lemma_entries_map_update(self.entries@, i as int, record);
                    let s = self.entries@;
                    assert(s.update(i as int, (s[i as int].0, record)).map_values(
                        |e: (Vec<u8>, Vec<u8>)| (e.0@, e.1@),
                    ) =~= self.pairs().update(i as int, (id@, record@)));
                    assert(self.pairs()[i as int].0 == id@);
                }
                self.entries[i].1 = record;
            },
            None => {
                proof {
                    assert(false);
                }
            },
        }
    }
}

} // verus!
