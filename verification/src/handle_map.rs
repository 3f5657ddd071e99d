//! The pipeline handles that the service owns, one per index identifier.

use vstd::prelude::*;

verus! {

/// One running pipeline: the index it works for and the handle that can stop it.
pub struct PipelineEntry<H> {
    pub index_uid: String,
    pub handle: H,
}

/// The index identifiers of a sequence of entries, in the same order.
pub open spec fn entry_uids<H>(entries: Seq<PipelineEntry<H>>) -> Seq<Seq<char>> {
    Seq::new(entries.len(), |i: int| entries[i].index_uid@)
}

/// The mapping that a duplicate-free sequence of entries stands for.
pub open spec fn handles_of<H>(entries: Seq<PipelineEntry<H>>) -> Map<Seq<char>, H> {
    Map::new(
        |uid: Seq<char>| entry_uids(entries).contains(uid),
        |uid: Seq<char>| entries[entry_uids(entries).index_of(uid)].handle,
    )
}

/// The views of a sequence of strings, in the same order.
pub open spec fn texts(strings: Seq<String>) -> Seq<Seq<char>> {
    Seq::new(strings.len(), |i: int| strings[i]@)
}

/// In a duplicate-free sequence of entries every entry is found under its own identifier.
pub proof fn lemma_handles_of<H>(entries: Seq<PipelineEntry<H>>)
    requires
        entry_uids(entries).no_duplicates(),
    ensures
        forall|i: int|
            0 <= i < entries.len() ==> handles_of(entries).contains_key(
                (#[trigger] entries[i]).index_uid@,
            ) && handles_of(entries)[entries[i].index_uid@] == entries[i].handle,
        forall|uid: Seq<char>| #[trigger]
            handles_of(entries).contains_key(uid) ==> exists|i: int|
                0 <= i < entries.len() && (#[trigger] entries[i]).index_uid@ == uid,
{
    let uids = entry_uids(entries);
    assert forall|i: int| 0 <= i < entries.len() implies handles_of(entries).contains_key(
        (#[trigger] entries[i]).index_uid@,
    ) && handles_of(entries)[entries[i].index_uid@] == entries[i].handle by {
        assert(uids[i] == entries[i].index_uid@);
        assert(uids.contains(uids[i]));
        let j = uids.index_of(uids[i]);
        assert(0 <= j < uids.len() && uids[j] == uids[i]);
        assert(j == i);
    }
    assert forall|uid: Seq<char>| #[trigger]
        handles_of(entries).contains_key(uid) implies exists|i: int|
        0 <= i < entries.len() && (#[trigger] entries[i]).index_uid@ == uid by {
        let j = uids.index_of(uid);
        assert(0 <= j < uids.len() && uids[j] == uid);
        assert(entries[j].index_uid@ == uid);
    }
}

/// A map from index identifier to pipeline handle. Each identifier has at most one handle.
pub struct PipelineHandles<H> {
    entries: Vec<PipelineEntry<H>>,
}

impl<H> View for PipelineHandles<H> {
    type V = Map<Seq<char>, H>;

    closed spec fn view(&self) -> Map<Seq<char>, H> {
        handles_of(self.entries@)
    }
}

impl<H> PipelineHandles<H> {
    /// No index identifier is stored twice.
    pub closed spec fn wf(self) -> bool {
        entry_uids(self.entries@).no_duplicates()
    }

    /// The identifiers in storage order.
    pub closed spec fn uids(self) -> Seq<Seq<char>> {
        entry_uids(self.entries@)
    }

    /// The stored identifiers are pairwise distinct and are exactly the keys of the map.
    pub proof fn lemma_uids(self)
        requires
            self.wf(),
        ensures
            self.uids().no_duplicates(),
            self.uids().to_set() == self@.dom(),
            self@.dom().finite(),
            self@.len() == self.uids().len(),
    {
        assert(self.uids().to_set() =~= self@.dom());
        self.uids().unique_seq_to_set();
        vstd::seq_lib::seq_to_set_is_finite(self.uids());
    }

    /// An empty map.
    pub fn new() -> (handles: Self)
        ensures
            handles.wf(),
            handles@ == Map::<Seq<char>, H>::empty(),
    {
        let handles = PipelineHandles { entries: Vec::new() };
        assert(handles@ =~= Map::<Seq<char>, H>::empty());
        handles
    }

    /// The number of index identifiers that have a handle.
    pub fn len(&self) -> (n: usize)
        requires
            self.wf(),
        ensures
            self@.dom().finite(),
            n == self@.len(),
    {
        proof {
            self.lemma_uids();
        }
        self.entries.len()
    }

    /// Where `index_uid` is stored, if it is.
    fn position(&self, index_uid: &String) -> (found: Option<usize>)
        ensures
            match found {
                Some(i) => i < self.entries@.len() && self.entries@[i as int].index_uid@
                    == index_uid@,
                None => !entry_uids(self.entries@).contains(index_uid@),
            },
    {
        let mut i: usize = 0;
        while i < self.entries.len()
            invariant
                i <= self.entries@.len(),
                forall|j: int| 0 <= j < i ==> self.entries@[j].index_uid@ != index_uid@,
            decreases self.entries@.len() - i,
        {
            if self.entries[i].index_uid == *index_uid {
                return Some(i);
            }
            i += 1;
        }
        None
    }

    /// Whether `index_uid` has a handle.
    pub fn contains_key(&self, index_uid: &String) -> (present: bool)
        requires
            self.wf(),
        ensures
            present == self@.contains_key(index_uid@),
    {
        proof {
            lemma_handles_of(self.entries@);
        }
        self.position(index_uid).is_some()
    }

    /// Stores `handle` under `index_uid` and hands back the handle that was there, if any.
    pub fn insert(&mut self, index_uid: String, handle: H) -> (displaced: Option<H>)
        requires
            old(self).wf(),
        ensures
            final(self).wf(),
            final(self)@ == old(self)@.insert(index_uid@, handle),
            displaced == if old(self)@.contains_key(index_uid@) {
                Some(old(self)@[index_uid@])
            } else {
                None
            },
    {
        let displaced = self.remove(&index_uid);
        let ghost before = self.entries@;
        assert(!entry_uids(before).contains(index_uid@)) by {
            assert(!handles_of(before).contains_key(index_uid@));
        }
        self.entries.push(PipelineEntry { index_uid, handle });
        proof {
            let after = self.entries@;
            assert forall|a: int, b: int|
                0 <= a < after.len() && 0 <= b < after.len() && a != b implies entry_uids(after)[a]
                != entry_uids(after)[b] by {
                if a < before.len() {
                    assert(entry_uids(before)[a] == before[a].index_uid@);
                    assert(entry_uids(before).contains(entry_uids(before)[a]));
                }
                if b < before.len() {
                    assert(entry_uids(before)[b] == before[b].index_uid@);
                    assert(entry_uids(before).contains(entry_uids(before)[b]));
                }
            }
            lemma_handles_of(before);
            lemma_handles_of(after);
            let goal = handles_of(before).insert(index_uid@, handle);
            assert forall|uid: Seq<char>| #[trigger]
                handles_of(after).contains_key(uid) <==> goal.contains_key(uid) by {
                if handles_of(after).contains_key(uid) {
                    let i = choose|i: int|
                        0 <= i < after.len() && (#[trigger] after[i]).index_uid@ == uid;
                    if i < before.len() {
                        assert(before[i].index_uid@ == uid);
                    }
                }
                if handles_of(before).contains_key(uid) {
                    let i = choose|i: int|
                        0 <= i < before.len() && (#[trigger] before[i]).index_uid@ == uid;
                    assert(after[i].index_uid@ == uid);
                }
                if uid == index_uid@ {
                    assert(after[before.len() as int].index_uid@ == uid);
                }
            }
            assert forall|uid: Seq<char>| #[trigger]
                goal.contains_key(uid) implies handles_of(after)[uid] == goal[uid] by {
                assert(handles_of(after).contains_key(uid));
                let i = choose|i: int|
                    0 <= i < after.len() && (#[trigger] after[i]).index_uid@ == uid;
                assert(handles_of(after)[uid] == after[i].handle);
                if uid != index_uid@ {
                    assert(before[i].index_uid@ == uid);
                    assert(after[i] == before[i]);
                } else if i < before.len() {
                    assert(entry_uids(before)[i] == uid);
                    assert(entry_uids(before).contains(uid));
                }
            }
            assert(handles_of(after) =~= goal);
            assert(goal =~= old(self)@.insert(index_uid@, handle));
        }
        displaced
    }

    /// Takes out the handle of `index_uid`, if it has one.
    pub fn remove(&mut self, index_uid: &String) -> (removed: Option<H>)
        requires
            old(self).wf(),
        ensures
            final(self).wf(),
            final(self)@ == old(self)@.remove(index_uid@),
            removed == if old(self)@.contains_key(index_uid@) {
                Some(old(self)@[index_uid@])
            } else {
                None
            },
    {
        let ghost before = self.entries@;
        proof {
            lemma_handles_of(before);
        }
        match self.position(index_uid) {
            Some(i) => {
                let entry = self.entries.remove(i);
                proof {
                    let after = self.entries@;
                    assert(entry == before[i as int]);
                    assert forall|a: int| 0 <= a < after.len() implies #[trigger] after[a]
                        == before[if a < i { a } else { a + 1 }] by {}
                    assert forall|a: int, b: int|
                        0 <= a < after.len() && 0 <= b < after.len() && a != b implies entry_uids(
                        after,
                    )[a] != entry_uids(after)[b] by {
                        let a0 = if a < i { a } else { a + 1 };
                        let b0 = if b < i { b } else { b + 1 };
                        assert(entry_uids(before)[a0] != entry_uids(before)[b0]);
                    }
                    lemma_handles_of(after);
                    let goal = handles_of(before).remove(index_uid@);
                    assert forall|uid: Seq<char>| #[trigger]
                        handles_of(after).contains_key(uid) <==> goal.contains_key(uid) by {
                        if handles_of(after).contains_key(uid) {
                            let a = choose|a: int|
                                0 <= a < after.len() && (#[trigger] after[a]).index_uid@ == uid;
                            let a0 = if a < i { a } else { a + 1 };
                            assert(before[a0].index_uid@ == uid);
                            assert(entry_uids(before)[a0] != entry_uids(before)[i as int]);
                        }
                        if goal.contains_key(uid) {
                            let b = choose|b: int|
                                0 <= b < before.len() && (#[trigger] before[b]).index_uid@ == uid;
                            let b1 = if b < i { b } else { b - 1 };
                            assert(after[b1].index_uid@ == uid);
                        }
                    }
                    assert forall|uid: Seq<char>| #[trigger]
                        goal.contains_key(uid) implies handles_of(after)[uid] == goal[uid] by {
                        assert(handles_of(after).contains_key(uid));
                        let a = choose|a: int|
                            0 <= a < after.len() && (#[trigger] after[a]).index_uid@ == uid;
                        let a0 = if a < i { a } else { a + 1 };
                        assert(before[a0].index_uid@ == uid);
                    }
                    assert(handles_of(after) =~= goal);
                }
                Some(entry.handle)
            },
            None => {
                proof {
                    assert(handles_of(before) =~= handles_of(before).remove(index_uid@));
                }
                None
            },
        }
    }

    /// The index identifiers that have a handle, each once.
    pub fn index_uids(&self) -> (uids: Vec<String>)
        requires
            self.wf(),
        ensures
            texts(uids@) == self.uids(),
            texts(uids@).no_duplicates(),
            texts(uids@).to_set() == self@.dom(),
    {
        let mut uids: Vec<String> = Vec::new();
        let mut i: usize = 0;
        while i < self.entries.len()
            invariant
                i <= self.entries@.len(),
                uids@.len() == i,
                forall|j: int| 0 <= j < i ==> (#[trigger] uids@[j])@ == self.entries@[j].index_uid@,
            decreases self.entries@.len() - i,
        {
            uids.push(self.entries[i].index_uid.clone());
            i += 1;
        }
        proof {
            assert(texts(uids@) =~= self.uids());
            self.lemma_uids();
        }
        uids
    }
}

} // verus!
