//! The difference between the indexes that the metastore lists and the pipelines that run.

use vstd::prelude::*;
use crate::descriptor::{IndexDescriptor, IndexDescriptorView, uids_of};
use crate::handle_map::{PipelineHandles, texts};

verus! {

/// `uids` names every member of `set` exactly once, and nothing else.
pub open spec fn enumerates(uids: Seq<Seq<char>>, set: Set<Seq<char>>) -> bool {
    uids.no_duplicates() && uids.to_set() == set
}

/// The identifiers that a listing names.
pub open spec fn listed_uids(listing: Seq<IndexDescriptor>) -> Set<Seq<char>> {
    uids_of(listing).to_set()
}

/// `descriptor` is what the listing says of its index: it occurs in the listing, and no
/// later element of the listing has the same identifier.
pub open spec fn is_last_listed(
    listing: Seq<IndexDescriptor>,
    descriptor: IndexDescriptorView,
) -> bool {
    exists|j: int|
        0 <= j < listing.len() && (#[trigger] listing[j])@ == descriptor && forall|later: int|
            j < later < listing.len() ==> (#[trigger] listing[later]).index_uid@
                != descriptor.index_uid
}

/// The pipelines to stop: the identifiers that have a handle and that the listing lacks.
pub open spec fn stale_set<H>(
    handles: Map<Seq<char>, H>,
    listing: Seq<IndexDescriptor>,
) -> Set<Seq<char>> {
    handles.dom().difference(listed_uids(listing))
}

/// The pipelines to start: the identifiers that the listing names and that have no handle.
pub open spec fn missing_set<H>(
    handles: Map<Seq<char>, H>,
    listing: Seq<IndexDescriptor>,
) -> Set<Seq<char>> {
    listed_uids(listing).difference(handles.dom())
}

/// Whether one of `descriptors` has the identifier `index_uid`.
pub fn is_listed(descriptors: &Vec<IndexDescriptor>, index_uid: &String) -> (listed: bool)
    ensures
        listed == listed_uids(descriptors@).contains(index_uid@),
{
    let mut i: usize = 0;
    while i < descriptors.len()
        invariant
            i <= descriptors@.len(),
            forall|j: int| 0 <= j < i ==> uids_of(descriptors@)[j] != index_uid@,
        decreases descriptors@.len() - i,
    {
        if descriptors[i].index_uid == *index_uid {
            assert(uids_of(descriptors@)[i as int] == index_uid@);
            return true;
        }
        i += 1;
    }
    false
}

/// The identifiers of the pipelines whose index is no longer listed, each once.
pub fn stale_index_uids<H>(handles: &PipelineHandles<H>, listing: &Vec<IndexDescriptor>) -> (stale:
    Vec<String>)
    requires
        handles.wf(),
    ensures
        enumerates(texts(stale@), stale_set(handles@, listing@)),
{
    let running = handles.index_uids();
    let mut stale: Vec<String> = Vec::new();
    let mut i: usize = 0;
    while i < running.len()
        invariant
            i <= running@.len(),
            texts(running@).no_duplicates(),
            texts(running@).to_set() == handles@.dom(),
            texts(stale@).no_duplicates(),
            forall|k: int|
                0 <= k < stale@.len() ==> !listed_uids(listing@).contains(
                    #[trigger] texts(stale@)[k],
                ) && exists|j: int| 0 <= j < i && #[trigger] texts(running@)[j] == texts(stale@)[k],
            forall|j: int|
                0 <= j < i ==> listed_uids(listing@).contains(#[trigger] texts(running@)[j])
                    || texts(stale@).contains(texts(running@)[j]),
        decreases running@.len() - i,
    {
        let ghost before = stale@;
        if !is_listed(listing, &running[i]) {
            stale.push(running[i].clone());
            proof {
                assert(texts(stale@) =~= texts(before).push(texts(running@)[i as int]));
                assert forall|a: int, b: int|
                    0 <= a < stale@.len() && 0 <= b < stale@.len() && a != b implies texts(
                    stale@,
                )[a] != texts(stale@)[b] by {
                    if a == before.len() {
                        let j = choose|j: int|
                            0 <= j < i && #[trigger] texts(running@)[j] == texts(before)[b];
                    } else if b == before.len() {
                        let j = choose|j: int|
                            0 <= j < i && #[trigger] texts(running@)[j] == texts(before)[a];
                    } else {
                        assert(texts(before)[a] != texts(before)[b]);
                    }
                }
                assert forall|k: int| 0 <= k < stale@.len() implies !listed_uids(listing@).contains(
                    #[trigger] texts(stale@)[k],
                ) && exists|j: int|
                    0 <= j < i + 1 && #[trigger] texts(running@)[j] == texts(stale@)[k] by {
                    if k < before.len() {
                        assert(texts(stale@)[k] == texts(before)[k]);
                        let j = choose|j: int|
                            0 <= j < i && #[trigger] texts(running@)[j] == texts(before)[k];
                        assert(texts(running@)[j] == texts(stale@)[k]);
                    } else {
                        assert(texts(running@)[i as int] == texts(stale@)[k]);
                    }
                }
                assert forall|j: int| 0 <= j < i + 1 implies listed_uids(listing@).contains(
                    #[trigger] texts(running@)[j],
                ) || texts(stale@).contains(texts(running@)[j]) by {
                    if j < i {
                        if texts(before).contains(texts(running@)[j]) {
                            let k = texts(before).index_of(texts(running@)[j]);
                            assert(texts(stale@)[k] == texts(running@)[j]);
                        }
                    } else {
                        assert(texts(stale@)[before.len() as int] == texts(running@)[j]);
                    }
                }
            }
        }
        i += 1;
    }
    proof {
        let goal = stale_set(handles@, listing@);
        assert forall|uid: Seq<char>| texts(stale@).to_set().contains(uid) <==> goal.contains(
            uid,
        ) by {
            if texts(stale@).contains(uid) {
                let k = texts(stale@).index_of(uid);
                assert(texts(stale@)[k] == uid);
                let j = choose|j: int|
                    0 <= j < i && #[trigger] texts(running@)[j] == texts(stale@)[k];
                assert(texts(running@).contains(uid));
            }
            if goal.contains(uid) {
                assert(texts(running@).to_set().contains(uid));
                let j = texts(running@).index_of(uid);
                assert(texts(running@)[j] == uid);
            }
        }
        assert(texts(stale@).to_set() =~= goal);
    }
    stale
}

/// The listed indexes that have no pipeline, each once, with what the listing says of it.
pub fn missing_indexes<H>(handles: &PipelineHandles<H>, listing: &Vec<IndexDescriptor>) -> (missing:
    Vec<IndexDescriptor>)
    requires
        handles.wf(),
    ensures
        enumerates(uids_of(missing@), missing_set(handles@, listing@)),
        forall|k: int|
            0 <= k < missing@.len() ==> is_last_listed(listing@, (#[trigger] missing@[k])@),
{
    let mut missing: Vec<IndexDescriptor> = Vec::new();
    let mut i: usize = listing.len();
    while i > 0
        invariant
            i <= listing@.len(),
            handles.wf(),
            uids_of(missing@).no_duplicates(),
            forall|k: int|
                0 <= k < missing@.len() ==> !handles@.contains_key(
                    (#[trigger] missing@[k]).index_uid@,
                ) && is_last_listed(listing@, missing@[k]@),
            forall|j: int|
                i <= j < listing@.len() ==> handles@.contains_key(
                    (#[trigger] listing@[j]).index_uid@,
                ) || listed_uids(missing@).contains(listing@[j].index_uid@),
        decreases i,
    {
        i -= 1;
        let ghost before = missing@;
        let descriptor = &listing[i];
        if !handles.contains_key(&descriptor.index_uid) && !is_listed(
            &missing,
            &descriptor.index_uid,
        ) {
            missing.push(descriptor.duplicate());
            proof {
                let uid = descriptor.index_uid@;
                assert(uids_of(missing@) =~= uids_of(before).push(uid));
                assert forall|a: int, b: int|
                    0 <= a < missing@.len() && 0 <= b < missing@.len() && a != b implies uids_of(
                    missing@,
                )[a] != uids_of(missing@)[b] by {
                    if a == before.len() {
                        assert(uids_of(before).contains(uids_of(before)[b]));
                    } else if b == before.len() {
                        assert(uids_of(before).contains(uids_of(before)[a]));
                    } else {
                        assert(uids_of(before)[a] != uids_of(before)[b]);
                    }
                }
                assert forall|later: int| i < later < listing@.len() implies (
                #[trigger] listing@[later]).index_uid@ != uid by {
                    assert(handles@.contains_key(listing@[later].index_uid@) || listed_uids(
                        before,
                    ).contains(listing@[later].index_uid@));
                }
                assert(listing@[i as int]@ == missing@[before.len() as int]@);
                assert(is_last_listed(listing@, missing@[before.len() as int]@));
                assert forall|k: int| 0 <= k < missing@.len() implies !handles@.contains_key(
                    (#[trigger] missing@[k]).index_uid@,
                ) && is_last_listed(listing@, missing@[k]@) by {
                    if k < before.len() {
                        assert(missing@[k] == before[k]);
                    }
                }
            }
        }
        proof {
            assert forall|j: int| i <= j < listing@.len() implies handles@.contains_key(
                (#[trigger] listing@[j]).index_uid@,
            ) || listed_uids(missing@).contains(listing@[j].index_uid@) by {
                let uid = listing@[j].index_uid@;
                if !handles@.contains_key(uid) {
                    if listed_uids(before).contains(uid) {
                        let k = uids_of(before).index_of(uid);
                        assert(uids_of(before)[k] == uid);
                        assert(missing@[k] == before[k]);
                        assert(uids_of(missing@)[k] == uid);
                    } else {
                        assert(j == i);
                        assert(uids_of(missing@)[before.len() as int] == uid);
                    }
                }
            }
        }
    }
    proof {
        let goal = missing_set(handles@, listing@);
        assert forall|uid: Seq<char>| uids_of(missing@).to_set().contains(uid) <==> goal.contains(
            uid,
        ) by {
            if uids_of(missing@).contains(uid) {
                let k = uids_of(missing@).index_of(uid);
                assert(uids_of(missing@)[k] == uid);
                assert(is_last_listed(listing@, missing@[k]@));
                let j = choose|j: int|
                    0 <= j < listing@.len() && (#[trigger] listing@[j])@ == missing@[k]@;
                assert(uids_of(listing@)[j] == uid);
            }
            if goal.contains(uid) {
                let j = uids_of(listing@).index_of(uid);
                assert(uids_of(listing@)[j] == uid);
                assert(listing@[j].index_uid@ == uid);
            }
        }
        assert(uids_of(missing@).to_set() =~= goal);
    }
    missing
}

} // verus!
