//! What holds of every update, stated over the transitions of the service.

use vstd::prelude::*;
use crate::descriptor::{IndexDescriptor, uids_of};
use crate::diff::{enumerates, is_last_listed, listed_uids, missing_set, stale_set};
use crate::service::{Action, DeleteTaskService, Event, Phase, target_of};

verus! {

/// The pipeline that is being started comes up, and under the identifier that its index
/// was listed with. Of other events this asks nothing.
pub open spec fn comes_up_as_listed<H>(pre: DeleteTaskService<H>, event: Event<H>) -> bool {
    match event {
        Event::Spawned { index_uid, handle } => pre.missing().len() > 0 && index_uid@
            == pre.missing()[0].index_uid@,
        Event::SpawnFailed => false,
        _ => true,
    }
}

/// `states`, `events` and `actions` record a service at work: each event takes the
/// service from one state to the next and is answered by the action of the same rank.
pub open spec fn is_run<H>(
    states: Seq<DeleteTaskService<H>>,
    events: Seq<Event<H>>,
    actions: Seq<Action<H>>,
) -> bool {
    &&& states.len() == events.len() + 1
    &&& actions.len() == events.len()
    &&& forall|i: int| 0 <= i < states.len() ==> (#[trigger] states[i]).wf()
    &&& forall|i: int|
        0 <= i < events.len() ==> DeleteTaskService::transition(
            states[i],
            #[trigger] events[i],
            states[i + 1],
            actions[i],
        )
}

/// From its second event on, the run stays within one update, and every pipeline that is
/// started comes up as listed.
pub open spec fn is_undisturbed<H>(
    states: Seq<DeleteTaskService<H>>,
    events: Seq<Event<H>>,
) -> bool {
    forall|i: int|
        1 <= i < events.len() ==> (states[i].phase() is Stopping || states[i].phase() is Spawning)
            && comes_up_as_listed(states[i], #[trigger] events[i])
}

/// The members of a non-empty sequence are its first element and those of the rest.
proof fn lemma_first_and_rest(uids: Seq<Seq<char>>)
    requires
        uids.len() > 0,
    ensures
        uids.to_set() == uids.drop_first().to_set().insert(uids[0]),
{
    let rest = uids.drop_first();
    assert forall|uid: Seq<char>| uids.to_set().contains(uid) <==> rest.to_set().insert(
        uids[0],
    ).contains(uid) by {
        if uids.contains(uid) {
            let i = uids.index_of(uid);
            if i > 0 {
                assert(rest[i - 1] == uid);
            }
        }
        if rest.contains(uid) {
            let i = rest.index_of(uid);
            assert(uids[i + 1] == uid);
        }
    }
    assert(uids.to_set() =~= rest.to_set().insert(uids[0]));
}

/// The queues that an update starts with: the stale pipelines and the missing indexes
/// from which its first move was made.
pub proof fn lemma_update_queues<H>(
    pre: DeleteTaskService<H>,
    listing: Seq<IndexDescriptor>,
    post: DeleteTaskService<H>,
    action: Action<H>,
) -> (queues: (Seq<Seq<char>>, Seq<IndexDescriptor>))
    requires
        DeleteTaskService::begins_update(pre, listing, post, action),
    ensures
        enumerates(queues.0, stale_set(pre.handles(), listing)),
        enumerates(uids_of(queues.1), missing_set(pre.handles(), listing)),
        forall|k: int|
            0 <= k < queues.1.len() ==> is_last_listed(listing, (#[trigger] queues.1[k])@),
        DeleteTaskService::proceeds(pre.handles(), queues.0, queues.1, post, action),
{
    choose|stale: Seq<Seq<char>>, missing: Seq<IndexDescriptor>|
        {
            &&& enumerates(stale, stale_set(pre.handles(), listing))
            &&& enumerates(uids_of(missing), missing_set(pre.handles(), listing))
            &&& forall|k: int|
                0 <= k < missing.len() ==> is_last_listed(listing, (#[trigger] missing[k])@)
            &&& #[trigger] DeleteTaskService::proceeds(pre.handles(), stale, missing, post, action)
        }
}

/// The move that `proceeds` describes leaves the target of the update as it was.
pub proof fn lemma_proceeds_keeps_target<H>(
    handles: Map<Seq<char>, H>,
    stale: Seq<Seq<char>>,
    missing: Seq<IndexDescriptor>,
    post: DeleteTaskService<H>,
    action: Action<H>,
)
    requires
        DeleteTaskService::proceeds(handles, stale, missing, post, action),
    ensures
        post.target() == target_of(handles.dom(), stale, missing),
{
    if stale.len() > 0 {
        lemma_first_and_rest(stale);
        assert(post.target() =~= target_of(handles.dom(), stale, missing));
    }
}

/// No double ownership: the handles are stored under pairwise distinct identifiers, and
/// the number of pipelines that an observer is told is the number of these identifiers.
pub proof fn lemma_single_owner<H>(service: DeleteTaskService<H>)
    requires
        service.wf(),
    ensures
        service.running_uids().no_duplicates(),
        service.running_uids().to_set() == service.handles().dom(),
        service.handles().dom().finite(),
        service.handles().dom().len() == service.running_uids().len(),
{
    service.lemma_running_uids();
}

/// Idempotence: an update on a listing that names exactly the indexes that have a
/// pipeline stops nothing, starts nothing and ends at once.
pub proof fn lemma_settled_update_is_quiet<H>(
    pre: DeleteTaskService<H>,
    listing: Seq<IndexDescriptor>,
    post: DeleteTaskService<H>,
    action: Action<H>,
)
    requires
        pre.wf(),
        pre.handles().dom() == listed_uids(listing),
        DeleteTaskService::begins_update(pre, listing, post, action),
    ensures
        action == (Action::<H>::ScheduleUpdate { delay_millis: post.update_interval() }),
        post.phase() is Idle,
        post.handles() == pre.handles(),
        post.stale().len() == 0,
        post.missing().len() == 0,
{
    let (stale, missing) = lemma_update_queues(pre, listing, post, action);
    if stale.len() > 0 {
        assert(stale.to_set().contains(stale[0]));
    }
    if missing.len() > 0 {
        assert(uids_of(missing)[0] == missing[0].index_uid@);
        assert(uids_of(missing).to_set().contains(uids_of(missing)[0]));
    }
}

/// Removal precedes addition: a pipeline is started only when nothing is left to stop,
/// a handle comes into the map only while a pipeline is being started, and a stop that
/// was ordered is left behind only by its confirmation.
pub proof fn lemma_stops_precede_spawns<H>(
    pre: DeleteTaskService<H>,
    event: Event<H>,
    post: DeleteTaskService<H>,
    action: Action<H>,
)
    requires
        pre.wf(),
        DeleteTaskService::transition(pre, event, post, action),
    ensures
        action is Spawn ==> post.stale().len() == 0 && post.phase() is Spawning,
        action is Kill ==> post.phase() is Stopping,
        pre.phase() is Stopping && !(event is Stopped) ==> post == pre && (action is Ignore
            || action is Reject),
        forall|uid: Seq<char>|
            post.handles().contains_key(uid) && !pre.handles().contains_key(uid) ==> event
                is Spawned && pre.phase() is Spawning && pre.stale().len() == 0,
{
}

/// No handle is lost: a handle that the service holds stays where it is, under its
/// identifier, until the service orders the kill of that very handle; and the handle of
/// a pipeline that is reported to the service is either stored, under an identifier that
/// had none, or handed out to be killed.
pub proof fn lemma_no_handle_is_lost<H>(
    pre: DeleteTaskService<H>,
    event: Event<H>,
    post: DeleteTaskService<H>,
    action: Action<H>,
)
    requires
        pre.wf(),
        DeleteTaskService::transition(pre, event, post, action),
    ensures
        forall|uid: Seq<char>| #[trigger]
            pre.handles().contains_key(uid) ==> (post.handles().contains_key(uid)
                && post.handles()[uid] == pre.handles()[uid]) || match action {
                Action::Kill { index_uid, handle } => index_uid@ == uid && handle
                    == pre.handles()[uid],
                _ => false,
            },
        match event {
            Event::Spawned { index_uid, handle } => if !(pre.phase() is Spawning) {
                match action {
                    Action::Reject { index_uid: rejected_uid, handle: rejected } => rejected_uid@
                        == index_uid@ && rejected == handle,
                    _ => false,
                }
            } else if pre.handles().contains_key(index_uid@) {
                match action {
                    Action::Kill { index_uid: surplus_uid, handle: surplus } => surplus_uid@
                        == index_uid@ && surplus == handle,
                    _ => false,
                }
            } else {
                post.handles().contains_key(index_uid@) && post.handles()[index_uid@] == handle
            },
            _ => true,
        },
{
    match (pre.phase(), event) {
        (Phase::Listing, Event::Listed(listing)) => {
            let (stale, missing) = lemma_update_queues(pre, listing@, post, action);
            if stale.len() > 0 {
                assert(stale.to_set().contains(stale[0]));
            }
        },
        _ => {},
    }
}

/// One timer per update: the service asks for the next update exactly when it leaves an
/// update, and always after its own fixed delay.
pub proof fn lemma_one_schedule_per_update<H>(
    pre: DeleteTaskService<H>,
    event: Event<H>,
    post: DeleteTaskService<H>,
    action: Action<H>,
)
    requires
        pre.wf(),
        DeleteTaskService::transition(pre, event, post, action),
    ensures
        action is ScheduleUpdate <==> post.phase() is Idle && !(pre.phase() is Idle),
        action is ScheduleUpdate ==> action == (Action::<H>::ScheduleUpdate {
            delay_millis: pre.update_interval(),
        }),
        action is ListIndexes <==> pre.phase() is Idle && event is UpdatePipelines,
{
}

/// What is left of an update: the pending stops and starts, counted twice, and one more
/// while a stop awaits its confirmation.
pub open spec fn work_left<H>(service: DeleteTaskService<H>) -> int {
    2 * (service.stale().len() + service.missing().len()) + if service.phase() is Stopping {
        1int
    } else {
        0int
    }
}

/// Every update ends: within an update, each event that the service does not ignore
/// leaves less work than there was.
pub proof fn lemma_step_makes_progress<H>(
    pre: DeleteTaskService<H>,
    event: Event<H>,
    post: DeleteTaskService<H>,
    action: Action<H>,
)
    requires
        pre.wf(),
        pre.phase() is Stopping || pre.phase() is Spawning,
        DeleteTaskService::transition(pre, event, post, action),
    ensures
        action is Ignore || action is Reject ==> post == pre,
        !(action is Ignore || action is Reject) ==> work_left(post) < work_left(pre),
{
}

/// The first move of an update: with a pipeline whose index is not listed, one such
/// pipeline is stopped; else, with a listed index that has no pipeline, a pipeline is
/// started for one such index, with what the listing says of it; else the update ends.
pub proof fn lemma_first_move<H>(
    pre: DeleteTaskService<H>,
    listing: Seq<IndexDescriptor>,
    post: DeleteTaskService<H>,
    action: Action<H>,
)
    requires
        pre.wf(),
        DeleteTaskService::begins_update(pre, listing, post, action),
    ensures
        enumerates(uids_of(post.missing()), missing_set(pre.handles(), listing)),
        forall|k: int|
            0 <= k < post.missing().len() ==> is_last_listed(
                listing,
                (#[trigger] post.missing()[k])@,
            ),
        match action {
            Action::Kill { index_uid, handle } => {
                &&& stale_set(pre.handles(), listing).contains(index_uid@)
                &&& handle == pre.handles()[index_uid@]
                &&& post.handles() == pre.handles().remove(index_uid@)
                &&& enumerates(post.stale(), stale_set(pre.handles(), listing).remove(index_uid@))
            },
            Action::Spawn { descriptor, max_concurrent_split_uploads } => {
                &&& stale_set(pre.handles(), listing) == Set::<Seq<char>>::empty()
                &&& missing_set(pre.handles(), listing).contains(descriptor.index_uid@)
                &&& descriptor@ == post.missing()[0]@
                &&& max_concurrent_split_uploads == post.upload_limit()
                &&& post.handles() == pre.handles()
                &&& post.stale().len() == 0
            },
            Action::ScheduleUpdate { delay_millis } => {
                &&& stale_set(pre.handles(), listing) == Set::<Seq<char>>::empty()
                &&& missing_set(pre.handles(), listing) == Set::<Seq<char>>::empty()
                &&& delay_millis == post.update_interval()
                &&& post.handles() == pre.handles()
                &&& post.stale().len() == 0
            },
            _ => false,
        },
{
    let (stale, missing) = lemma_update_queues(pre, listing, post, action);
    if stale.len() > 0 {
        let rest = stale.drop_first();
        assert(stale.to_set().contains(stale[0]));
        lemma_first_and_rest(stale);
        assert forall|i: int| 0 <= i < rest.len() implies #[trigger] rest[i] != stale[0] by {
            assert(rest[i] == stale[i + 1]);
        }
        assert forall|i: int, j: int|
            0 <= i < rest.len() && 0 <= j < rest.len() && i != j implies rest[i] != rest[j] by {
            assert(rest[i] == stale[i + 1] && rest[j] == stale[j + 1]);
        }
        assert(rest.to_set() =~= stale.to_set().remove(stale[0]));
    } else {
        assert(stale.to_set() =~= Set::<Seq<char>>::empty());
        if missing.len() > 0 {
            assert(uids_of(missing)[0] == missing[0].index_uid@);
            assert(uids_of(missing).to_set().contains(uids_of(missing)[0]));
            assert(is_last_listed(listing, missing[0]@));
        } else {
            assert(uids_of(missing).to_set() =~= Set::<Seq<char>>::empty());
        }
    }
}

/// An update aims at the listing: once it has started, its target is the set of the
/// listed identifiers.
pub proof fn lemma_update_targets_listing<H>(
    pre: DeleteTaskService<H>,
    listing: Seq<IndexDescriptor>,
    post: DeleteTaskService<H>,
    action: Action<H>,
)
    requires
        pre.wf(),
        DeleteTaskService::begins_update(pre, listing, post, action),
    ensures
        post.target() == listed_uids(listing),
{
    let (stale, missing) = lemma_update_queues(pre, listing, post, action);
    lemma_proceeds_keeps_target(pre.handles(), stale, missing, post, action);
    assert(target_of(pre.handles().dom(), stale, missing) =~= listed_uids(listing));
}

/// Within an update, a step keeps the target as long as the pipeline that is started
/// comes up as listed.
pub proof fn lemma_step_keeps_target<H>(
    pre: DeleteTaskService<H>,
    event: Event<H>,
    post: DeleteTaskService<H>,
    action: Action<H>,
)
    requires
        pre.wf(),
        pre.phase() is Stopping || pre.phase() is Spawning,
        comes_up_as_listed(pre, event),
        DeleteTaskService::transition(pre, event, post, action),
    ensures
        post.target() == pre.target(),
{
    if pre.phase() is Stopping {
        if event is Stopped {
            lemma_proceeds_keeps_target(pre.handles(), pre.stale(), pre.missing(), post, action);
        }
    } else {
        match event {
            Event::Spawned { index_uid, handle } => {
                let rest = pre.missing().drop_first();
                lemma_first_and_rest(uids_of(pre.missing()));
                assert(uids_of(rest) =~= uids_of(pre.missing()).drop_first());
                assert(pre.stale().to_set() =~= Set::<Seq<char>>::empty());
                if pre.handles().contains_key(index_uid@) {
                    assert(post.target() =~= pre.target());
                } else {
                    let handles = pre.handles().insert(index_uid@, handle);
                    lemma_proceeds_keeps_target(handles, pre.stale(), rest, post, action);
                    assert(target_of(handles.dom(), pre.stale(), rest) =~= pre.target());
                }
            },
            _ => {},
        }
    }
}

/// Outside an update the pipelines are those that the last update aimed at.
pub proof fn lemma_idle_is_at_target<H>(service: DeleteTaskService<H>)
    requires
        service.wf(),
        service.phase() is Idle,
    ensures
        service.handles().dom() == service.target(),
{
    assert(service.stale().to_set() =~= Set::<Seq<char>>::empty());
    assert(uids_of(service.missing()).to_set() =~= Set::<Seq<char>>::empty());
    assert(service.handles().dom() =~= service.target());
}

/// After each of its events, an undisturbed update still aims at its listing.
proof fn lemma_target_along_run<H>(
    states: Seq<DeleteTaskService<H>>,
    events: Seq<Event<H>>,
    actions: Seq<Action<H>>,
    listing: Seq<IndexDescriptor>,
    k: int,
)
    requires
        is_run(states, events, actions),
        is_undisturbed(states, events),
        1 <= k <= events.len(),
        states[0].phase() is Listing,
        match events[0] {
            Event::Listed(listed) => listed@ == listing,
            _ => false,
        },
    ensures
        states[k].target() == listed_uids(listing),
    decreases k,
{
    assert(states[k - 1].wf());
    assert(DeleteTaskService::transition(
        states[k - 1],
        events[k - 1],
        states[k - 1 + 1],
        actions[k - 1],
    ));
    if k == 1 {
        lemma_update_targets_listing(states[0], listing, states[1], actions[0]);
    } else {
        lemma_target_along_run(states, events, actions, listing, k - 1);
        lemma_step_keeps_target(states[k - 1], events[k - 1], states[k], actions[k - 1]);
    }
}

/// Convergence: an update that starts on a listing, in which every pipeline that is
/// started comes up as listed, ends with a pipeline for each listed index and no other.
pub proof fn lemma_update_converges<H>(
    states: Seq<DeleteTaskService<H>>,
    events: Seq<Event<H>>,
    actions: Seq<Action<H>>,
    listing: Seq<IndexDescriptor>,
)
    requires
        is_run(states, events, actions),
        is_undisturbed(states, events),
        events.len() >= 1,
        states[0].phase() is Listing,
        match events[0] {
            Event::Listed(listed) => listed@ == listing,
            _ => false,
        },
        states.last().phase() is Idle,
    ensures
        states.last().handles().dom() == listed_uids(listing),
        states.last().handles().dom().len() == listed_uids(listing).len(),
{
    lemma_target_along_run(states, events, actions, listing, events.len() as int);
    assert(states.last().wf());
    lemma_idle_is_at_target(states.last());
}

/// The pipeline that is being started comes up under the identifier that its index was
/// listed with, or not at all. Of other events this asks nothing.
pub open spec fn fails_or_comes_up_as_listed<H>(pre: DeleteTaskService<H>, event: Event<H>) -> bool {
    match event {
        Event::Spawned { index_uid, handle } => pre.missing().len() > 0 && index_uid@
            == pre.missing()[0].index_uid@,
        _ => true,
    }
}

/// None of the indexes that wait for a pipeline has one.
pub open spec fn missing_have_no_pipeline<H>(service: DeleteTaskService<H>) -> bool {
    forall|k: int|
        0 <= k < service.missing().len() ==> !service.handles().contains_key(
            (#[trigger] service.missing()[k]).index_uid@,
        )
}

/// From its second event on, the run stays within one update, and every pipeline that is
/// started fails or comes up as listed.
pub open spec fn is_undisturbed_but_for_failures<H>(
    states: Seq<DeleteTaskService<H>>,
    events: Seq<Event<H>>,
) -> bool {
    forall|i: int|
        1 <= i < events.len() ==> (states[i].phase() is Stopping || states[i].phase() is Spawning)
            && fails_or_comes_up_as_listed(states[i], #[trigger] events[i])
}

/// The indexes whose pipeline failed to start in answer to one of the events of rank 1
/// to `k - 1`.
pub open spec fn failed_spawns<H>(
    states: Seq<DeleteTaskService<H>>,
    events: Seq<Event<H>>,
    k: int,
) -> Set<Seq<char>>
    decreases k,
{
    if k <= 1 {
        Set::empty()
    } else {
        let earlier = failed_spawns(states, events, k - 1);
        if states[k - 1].phase() is Spawning && events[k - 1] is SpawnFailed {
            earlier.insert(states[k - 1].missing()[0].index_uid@)
        } else {
            earlier
        }
    }
}

/// Within an update in which pipelines fail or come up as listed, a failed start takes
/// its index out of the target, and every other step keeps the target.
pub proof fn lemma_step_with_failures<H>(
    pre: DeleteTaskService<H>,
    event: Event<H>,
    post: DeleteTaskService<H>,
    action: Action<H>,
)
    requires
        pre.wf(),
        missing_have_no_pipeline(pre),
        pre.phase() is Stopping || pre.phase() is Spawning,
        fails_or_comes_up_as_listed(pre, event),
        DeleteTaskService::transition(pre, event, post, action),
    ensures
        missing_have_no_pipeline(post),
        post.target() == if pre.phase() is Spawning && event is SpawnFailed {
            pre.target().remove(pre.missing()[0].index_uid@)
        } else {
            pre.target()
        },
{
    pre.lemma_missing_unique();
    let missing = pre.missing();
    if pre.phase() is Spawning && (event is Spawned || event is SpawnFailed) {
        let rest = missing.drop_first();
        let first = missing[0].index_uid@;
        assert(!pre.handles().contains_key(first));
        assert(post.missing() == rest);
        assert forall|k: int| 0 <= k < rest.len() implies (#[trigger] rest[k]).index_uid@
            != first && !pre.handles().contains_key(rest[k].index_uid@) by {
            assert(rest[k] == missing[k + 1]);
            assert(uids_of(missing)[k + 1] != uids_of(missing)[0]);
        }
        if event is SpawnFailed {
            lemma_proceeds_keeps_target(pre.handles(), pre.stale(), rest, post, action);
            lemma_first_and_rest(uids_of(missing));
            assert(uids_of(rest) =~= uids_of(missing).drop_first());
            assert(pre.stale().to_set() =~= Set::<Seq<char>>::empty());
            assert(!uids_of(rest).to_set().contains(first)) by {
                if uids_of(rest).contains(first) {
                    let k = uids_of(rest).index_of(first);
                    assert(rest[k].index_uid@ == first);
                }
            }
            assert(post.target() =~= pre.target().remove(first));
        } else {
            lemma_step_keeps_target(pre, event, post, action);
        }
    } else if event is SpawnFailed {
        assert(post == pre);
    } else {
        lemma_step_keeps_target(pre, event, post, action);
    }
}

/// After each of its events, such an update aims at the listed indexes but for those
/// whose pipeline failed to start.
proof fn lemma_target_along_run_with_failures<H>(
    states: Seq<DeleteTaskService<H>>,
    events: Seq<Event<H>>,
    actions: Seq<Action<H>>,
    listing: Seq<IndexDescriptor>,
    k: int,
)
    requires
        is_run(states, events, actions),
        is_undisturbed_but_for_failures(states, events),
        1 <= k <= events.len(),
        states[0].phase() is Listing,
        match events[0] {
            Event::Listed(listed) => listed@ == listing,
            _ => false,
        },
    ensures
        missing_have_no_pipeline(states[k]),
        states[k].target() == listed_uids(listing).difference(failed_spawns(states, events, k)),
    decreases k,
{
    assert(states[k - 1].wf());
    assert(DeleteTaskService::transition(
        states[k - 1],
        events[k - 1],
        states[k - 1 + 1],
        actions[k - 1],
    ));
    let listed = listed_uids(listing);
    if k == 1 {
        let pre = states[0];
        let post = states[1];
        lemma_update_targets_listing(pre, listing, post, actions[0]);
        let (stale, missing) = lemma_update_queues(pre, listing, post, actions[0]);
        assert forall|i: int| 0 <= i < post.missing().len() implies !post.handles().contains_key(
            (#[trigger] post.missing()[i]).index_uid@,
        ) by {
            assert(uids_of(missing)[i] == missing[i].index_uid@);
            assert(uids_of(missing).to_set().contains(uids_of(missing)[i]));
        }
        assert(listed =~= listed.difference(failed_spawns(states, events, 1)));
    } else {
        lemma_target_along_run_with_failures(states, events, actions, listing, k - 1);
        lemma_step_with_failures(states[k - 1], events[k - 1], states[k], actions[k - 1]);
        assert(states[k].target() =~= listed.difference(failed_spawns(states, events, k)));
    }
}

/// Convergence, with failures: an update that starts on a listing, in which every
/// pipeline that is started fails or comes up as listed, ends with a pipeline for each
/// listed index but those whose pipeline failed to start, and for no other.
pub proof fn lemma_update_converges_but_for_failures<H>(
    states: Seq<DeleteTaskService<H>>,
    events: Seq<Event<H>>,
    actions: Seq<Action<H>>,
    listing: Seq<IndexDescriptor>,
)
    requires
        is_run(states, events, actions),
        is_undisturbed_but_for_failures(states, events),
        events.len() >= 1,
        states[0].phase() is Listing,
        match events[0] {
            Event::Listed(listed) => listed@ == listing,
            _ => false,
        },
        states.last().phase() is Idle,
    ensures
        states.last().handles().dom() == listed_uids(listing).difference(
            failed_spawns(states, events, events.len() as int),
        ),
{
    lemma_target_along_run_with_failures(states, events, actions, listing, events.len() as int);
    assert(states.last().wf());
    lemma_idle_is_at_target(states.last());
}

} // verus!
