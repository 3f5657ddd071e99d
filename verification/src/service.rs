//! The service that starts a pipeline for each listed index and stops the others.
//!
//! The service makes the decisions and leaves the work to its driver: each call of
//! [`DeleteTaskService::handle`] takes what happened and answers with what to do next.

use vstd::prelude::*;
use crate::descriptor::{IndexDescriptor, uids_of};
use crate::diff::{
    enumerates, is_last_listed, missing_indexes, missing_set, stale_index_uids, stale_set,
};
use crate::handle_map::{PipelineHandles, texts};

verus! {

/// The delay between two updates in production, in milliseconds.
pub const UPDATE_PIPELINES_INTERVAL_MILLIS: u64 = 30_000;

/// The delay between two updates under test, in milliseconds.
pub const TESTSUITE_UPDATE_PIPELINES_INTERVAL_MILLIS: u64 = 200;

/// What an observer sees of the service.
#[derive(Debug, Clone, Copy)]
pub struct DeleteTaskServiceState {
    pub num_running_pipelines: usize,
}

/// Where the service stands within an update.
#[derive(Debug, Clone, Copy, PartialEq, Eq, Structural)]
pub enum Phase {
    /// No update is under way.
    Idle,
    /// The metastore has been asked for its indexes.
    Listing,
    /// A pipeline has been told to stop and has not confirmed yet.
    Stopping,
    /// A pipeline is being started.
    Spawning,
}

/// What the driver reports to the service.
#[derive(Debug)]
pub enum Event<H> {
    /// The timer fired, or the service has just started.
    UpdatePipelines,
    /// The metastore listed its indexes.
    Listed(Vec<IndexDescriptor>),
    /// The metastore could not list its indexes.
    ListFailed,
    /// The pipeline that was killed has stopped.
    Stopped,
    /// A pipeline was started; `index_uid` is the identifier that the metastore gave when
    /// asked for this one index, and the pipeline runs under it.
    Spawned { index_uid: String, handle: H },
    /// The pipeline could not be started.
    SpawnFailed,
}

/// What the service asks of its driver.
#[derive(Debug)]
pub enum Action<H> {
    /// List the indexes of the metastore, then report `Listed` or `ListFailed`.
    ListIndexes,
    /// Kill the pipeline behind `handle`, wait until it has stopped, then report `Stopped`.
    /// The service no longer holds this handle: either its index is not listed any more,
    /// or the pipeline came up for an index that has one already.
    Kill { index_uid: String, handle: H },
    /// Resolve the storage, fetch the index metadata and start a pipeline, then report
    /// `Spawned` or `SpawnFailed`.
    Spawn { descriptor: IndexDescriptor, max_concurrent_split_uploads: usize },
    /// The update is over: send `UpdatePipelines` again after the delay.
    ScheduleUpdate { delay_millis: u64 },
    /// The service did not ask for this pipeline and does not keep its handle: kill the
    /// pipeline. Nothing is to be reported.
    Reject { index_uid: String, handle: H },
    /// The event does not belong to the current phase: nothing to do.
    Ignore,
}

/// The identifiers that will have a pipeline once the pending stops and starts are done.
pub open spec fn target_of(
    running: Set<Seq<char>>,
    stale: Seq<Seq<char>>,
    missing: Seq<IndexDescriptor>,
) -> Set<Seq<char>> {
    running.difference(stale.to_set()).union(uids_of(missing).to_set())
}

/// Owns the pipeline handles and decides which pipelines to stop and to start.
pub struct DeleteTaskService<H> {
    pipeline_handles_by_index_uid: PipelineHandles<H>,
    max_concurrent_split_uploads: usize,
    update_interval_millis: u64,
    phase: Phase,
    stale: Vec<String>,
    missing: Vec<IndexDescriptor>,
}

impl<H> DeleteTaskService<H> {
    /// The handle of each index that has a pipeline.
    pub closed spec fn handles(self) -> Map<Seq<char>, H> {
        self.pipeline_handles_by_index_uid@
    }

    /// The identifiers under which the handles are stored, in storage order.
    pub closed spec fn running_uids(self) -> Seq<Seq<char>> {
        self.pipeline_handles_by_index_uid.uids()
    }

    /// The pipelines that this update still has to stop, in order.
    pub closed spec fn stale(self) -> Seq<Seq<char>> {
        texts(self.stale@)
    }

    /// The indexes that this update still has to start a pipeline for, in order. While a
    /// pipeline is being started, its index is the first.
    pub closed spec fn missing(self) -> Seq<IndexDescriptor> {
        self.missing@
    }

    /// Where the service stands within an update.
    pub closed spec fn phase(self) -> Phase {
        self.phase
    }

    /// The number of concurrent split uploads that each pipeline is allowed.
    pub closed spec fn upload_limit(self) -> usize {
        self.max_concurrent_split_uploads
    }

    /// The delay between the end of an update and the next one, in milliseconds.
    pub closed spec fn update_interval(self) -> u64 {
        self.update_interval_millis
    }

    /// The pending stops name running pipelines, nothing is pending twice.
    pub closed spec fn queues_wf(self) -> bool {
        &&& self.pipeline_handles_by_index_uid.wf()
        &&& self.stale().no_duplicates()
        &&& forall|i: int|
            0 <= i < self.stale().len() ==> self.handles().contains_key(#[trigger] self.stale()[i])
        &&& uids_of(self.missing()).no_duplicates()
    }

    /// The invariant of the service: outside an update nothing is pending, and no pipeline
    /// is started while one still has to be stopped.
    pub open spec fn wf(self) -> bool {
        &&& self.queues_wf()
        &&& self.phase() is Idle || self.phase() is Listing ==> self.stale().len() == 0
            && self.missing().len() == 0
        &&& self.phase() is Spawning ==> self.stale().len() == 0 && self.missing().len() > 0
    }

    /// The identifiers that will have a pipeline when the update ends, if every pipeline
    /// that is started comes up under the identifier it was listed with.
    pub open spec fn target(self) -> Set<Seq<char>> {
        target_of(self.handles().dom(), self.stale(), self.missing())
    }

    /// The settings of the service are the same in both states.
    pub open spec fn same_settings(self, other: Self) -> bool {
        self.upload_limit() == other.upload_limit() && self.update_interval()
            == other.update_interval()
    }

    /// From the handles and the pending work given, `post` and `action` are the next move:
    /// stop the first stale pipeline, taking its handle out; with none left, start a
    /// pipeline for the first missing index; with none left, end the update.
    pub open spec fn proceeds(
        handles: Map<Seq<char>, H>,
        stale: Seq<Seq<char>>,
        missing: Seq<IndexDescriptor>,
        post: Self,
        action: Action<H>,
    ) -> bool {
        if stale.len() > 0 {
            &&& match action {
                Action::Kill { index_uid, handle } => index_uid@ == stale[0] && handle
                    == handles[stale[0]],
                _ => false,
            }
            &&& post.phase() is Stopping
            &&& post.handles() == handles.remove(stale[0])
            &&& post.stale() == stale.drop_first()
            &&& post.missing() == missing
        } else if missing.len() > 0 {
            &&& match action {
                Action::Spawn { descriptor, max_concurrent_split_uploads } => descriptor@
                    == missing[0]@ && max_concurrent_split_uploads == post.upload_limit(),
                _ => false,
            }
            &&& post.phase() is Spawning
            &&& post.handles() == handles
            &&& post.stale() == stale
            &&& post.missing() == missing
        } else {
            &&& action == (Action::<H>::ScheduleUpdate { delay_millis: post.update_interval() })
            &&& post.phase() is Idle
            &&& post.handles() == handles
            &&& post.stale() == stale
            &&& post.missing() == missing
        }
    }

    /// `post` and `action` are how an update starts from `pre` on `listing`: the stale
    /// pipelines are those whose index is not listed, the missing indexes are the listed
    /// ones without a pipeline, and the first move is made.
    pub open spec fn begins_update(
        pre: Self,
        listing: Seq<IndexDescriptor>,
        post: Self,
        action: Action<H>,
    ) -> bool {
        exists|stale: Seq<Seq<char>>, missing: Seq<IndexDescriptor>|
            {
                &&& enumerates(stale, stale_set(pre.handles(), listing))
                &&& enumerates(uids_of(missing), missing_set(pre.handles(), listing))
                &&& forall|k: int|
                    0 <= k < missing.len() ==> is_last_listed(listing, (#[trigger] missing[k])@)
                &&& #[trigger] Self::proceeds(pre.handles(), stale, missing, post, action)
            }
    }

    /// `post` and `action` are how the service takes in a pipeline that came up under
    /// `index_uid` while it was starting one. Where the index has no pipeline yet, the
    /// handle is stored and the next move is made. Where it has one, that one stays, and
    /// the newcomer is to be killed before the update goes on.
    pub open spec fn records_pipeline(
        pre: Self,
        index_uid: Seq<char>,
        handle: H,
        post: Self,
        action: Action<H>,
    ) -> bool {
        if pre.handles().contains_key(index_uid) {
            &&& match action {
                Action::Kill { index_uid: surplus_uid, handle: surplus } => surplus_uid@
                    == index_uid && surplus == handle,
                _ => false,
            }
            &&& post.phase() is Stopping
            &&& post.handles() == pre.handles()
            &&& post.stale() == pre.stale()
            &&& post.missing() == pre.missing().drop_first()
        } else {
            Self::proceeds(
                pre.handles().insert(index_uid, handle),
                pre.stale(),
                pre.missing().drop_first(),
                post,
                action,
            )
        }
    }

    /// The service answers `event` in state `pre` with `action` and is then in state `post`.
    pub open spec fn transition(pre: Self, event: Event<H>, post: Self, action: Action<H>) -> bool {
        &&& pre.same_settings(post)
        &&& match (pre.phase(), event) {
            (Phase::Idle, Event::UpdatePipelines) => {
                &&& action is ListIndexes
                &&& post.phase() is Listing
                &&& post.handles() == pre.handles()
                &&& post.stale() == pre.stale()
                &&& post.missing() == pre.missing()
            },
            (Phase::Listing, Event::Listed(listing)) => Self::begins_update(
                pre,
                listing@,
                post,
                action,
            ),
            (Phase::Listing, Event::ListFailed) => {
                &&& action == (Action::<H>::ScheduleUpdate { delay_millis: pre.update_interval() })
                &&& post.phase() is Idle
                &&& post.handles() == pre.handles()
                &&& post.stale() == pre.stale()
                &&& post.missing() == pre.missing()
            },
            (Phase::Stopping, Event::Stopped) => Self::proceeds(
                pre.handles(),
                pre.stale(),
                pre.missing(),
                post,
                action,
            ),
            (Phase::Spawning, Event::Spawned { index_uid, handle }) => Self::records_pipeline(
                pre,
                index_uid@,
                handle,
                post,
                action,
            ),
            (Phase::Spawning, Event::SpawnFailed) => Self::proceeds(
                pre.handles(),
                pre.stale(),
                pre.missing().drop_first(),
                post,
                action,
            ),
            (_, Event::Spawned { index_uid, handle }) => {
                &&& post == pre
                &&& match action {
                    Action::Reject { index_uid: rejected_uid, handle: rejected } => rejected_uid@
                        == index_uid@ && rejected == handle,
                    _ => false,
                }
            },
            _ => action is Ignore && post == pre,
        }
    }

    /// A service without pipelines, outside an update.
    pub fn new(max_concurrent_split_uploads: usize, update_interval_millis: u64) -> (service: Self)
        ensures
            service.wf(),
            service.phase() is Idle,
            service.handles() == Map::<Seq<char>, H>::empty(),
            service.upload_limit() == max_concurrent_split_uploads,
            service.update_interval() == update_interval_millis,
    {
        DeleteTaskService {
            pipeline_handles_by_index_uid: PipelineHandles::new(),
            max_concurrent_split_uploads,
            update_interval_millis,
            phase: Phase::Idle,
            stale: Vec::new(),
            missing: Vec::new(),
        }
    }

    /// The number of pipelines that the service holds a handle for.
    pub fn observable_state(&self) -> (state: DeleteTaskServiceState)
        requires
            self.wf(),
        ensures
            self.handles().dom().finite(),
            state.num_running_pipelines == self.handles().dom().len(),
    {
        DeleteTaskServiceState { num_running_pipelines: self.pipeline_handles_by_index_uid.len() }
    }

    /// The name under which the service is known.
    pub fn name(&self) -> (name: String)
        ensures
            name@ == "DeleteTaskService"@,
    {
        "DeleteTaskService".to_owned()
    }

    /// Where the service stands within an update.
    pub fn current_phase(&self) -> (phase: Phase)
        ensures
            phase == self.phase(),
    {
        self.phase
    }

    /// Whether `index_uid` has a pipeline.
    pub fn is_running(&self, index_uid: &String) -> (running: bool)
        requires
            self.wf(),
        ensures
            running == self.handles().contains_key(index_uid@),
    {
        self.pipeline_handles_by_index_uid.contains_key(index_uid)
    }

    /// Starts the first update: the service is ready only once it has run.
    pub fn initialize(&mut self) -> (action: Action<H>)
        requires
            old(self).wf(),
        ensures
            final(self).wf(),
            Self::transition(*old(self), Event::UpdatePipelines, *final(self), action),
    {
        self.handle(Event::UpdatePipelines)
    }

    /// Takes what the driver reports and answers with what it has to do next.
    pub fn handle(&mut self, event: Event<H>) -> (action: Action<H>)
        requires
            old(self).wf(),
        ensures
            final(self).wf(),
            Self::transition(*old(self), event, *final(self), action),
    {
        match event {
            Event::UpdatePipelines => match self.phase {
                Phase::Idle => {
                    self.phase = Phase::Listing;
                    Action::ListIndexes
                },
                _ => Action::Ignore,
            },
            Event::Listed(listing) => self.update_pipeline_handles(listing),
            Event::ListFailed => match self.phase {
                Phase::Listing => {
                    self.phase = Phase::Idle;
                    Action::ScheduleUpdate { delay_millis: self.update_interval_millis }
                },
                _ => Action::Ignore,
            },
            Event::Stopped => match self.phase {
                Phase::Stopping => self.advance(),
                _ => Action::Ignore,
            },
            Event::Spawned { index_uid, handle } => self.spawn_pipeline(index_uid, handle),
            Event::SpawnFailed => match self.phase {
                Phase::Spawning => {
                    self.missing.remove(0);
                    proof {
                        self.lemma_rest_unique(old(self).missing());
                    }
                    self.advance()
                },
                _ => Action::Ignore,
            },
        }
    }

    /// Takes the listing that the service asked the metastore for: works out the
    /// pipelines to stop and the indexes to start one for, and makes the first move.
    /// A listing that the service did not ask for is ignored.
    pub fn update_pipeline_handles(&mut self, listing: Vec<IndexDescriptor>) -> (action: Action<H>)
        requires
            old(self).wf(),
        ensures
            final(self).wf(),
            Self::transition(*old(self), Event::Listed(listing), *final(self), action),
    {
        match self.phase {
            Phase::Listing => {
                self.stale = stale_index_uids(&self.pipeline_handles_by_index_uid, &listing);
                self.missing = missing_indexes(&self.pipeline_handles_by_index_uid, &listing);
                let ghost stale = self.stale();
                let ghost missing = self.missing();
                proof {
                    assert forall|i: int| 0 <= i < stale.len() implies self.handles().contains_key(
                        #[trigger] stale[i],
                    ) by {
                        assert(stale.to_set().contains(stale[i]));
                    }
                }
                let action = self.advance();
                proof {
                    assert(Self::proceeds(old(self).handles(), stale, missing, *self, action));
                }
                action
            },
            _ => Action::Ignore,
        }
    }

    /// Takes the pipeline that came up under `index_uid` for the index that the service
    /// asked one for. It is stored, unless the index has a pipeline already: then the
    /// service keeps the one it has and orders the newcomer killed. A pipeline that the
    /// service did not ask for is handed back to be killed.
    pub fn spawn_pipeline(&mut self, index_uid: String, pipeline_handle: H) -> (action: Action<H>)
        requires
            old(self).wf(),
        ensures
            final(self).wf(),
            Self::transition(
                *old(self),
                Event::Spawned { index_uid, handle: pipeline_handle },
                *final(self),
                action,
            ),
    {
        match self.phase {
            Phase::Spawning => {
                self.missing.remove(0);
                proof {
                    self.lemma_rest_unique(old(self).missing());
                }
                if self.pipeline_handles_by_index_uid.contains_key(&index_uid) {
                    self.phase = Phase::Stopping;
                    Action::Kill { index_uid, handle: pipeline_handle }
                } else {
                    self.pipeline_handles_by_index_uid.insert(index_uid, pipeline_handle);
                    self.advance()
                }
            },
            _ => Action::Reject { index_uid, handle: pipeline_handle },
        }
    }

    /// The handles are stored under pairwise distinct identifiers, which are the keys.
    pub proof fn lemma_running_uids(self)
        requires
            self.wf(),
        ensures
            self.running_uids().no_duplicates(),
            self.running_uids().to_set() == self.handles().dom(),
            self.handles().dom().finite(),
            self.handles().dom().len() == self.running_uids().len(),
    {
        self.pipeline_handles_by_index_uid.lemma_uids();
    }

    /// No index is waiting twice for its pipeline.
    pub proof fn lemma_missing_unique(self)
        requires
            self.wf(),
        ensures
            uids_of(self.missing()).no_duplicates(),
    {
    }

    /// Without its first element, a queue of pairwise distinct indexes is one still.
    proof fn lemma_rest_unique(self, before: Seq<IndexDescriptor>)
        requires
            before.len() > 0,
            uids_of(before).no_duplicates(),
            self.missing() == before.remove(0),
        ensures
            uids_of(self.missing()).no_duplicates(),
            self.missing() == before.drop_first(),
    {
        let rest = self.missing();
        assert(rest =~= before.drop_first());
        assert forall|a: int, b: int|
            0 <= a < rest.len() && 0 <= b < rest.len() && a != b implies uids_of(rest)[a]
            != uids_of(rest)[b] by {
            assert(uids_of(rest)[a] == uids_of(before)[a + 1]);
            assert(uids_of(rest)[b] == uids_of(before)[b + 1]);
        }
    }

    /// Makes the next move of the update: a stop, else a start, else the end.
    fn advance(&mut self) -> (action: Action<H>)
        requires
            old(self).queues_wf(),
        ensures
            final(self).wf(),
            old(self).same_settings(*final(self)),
            Self::proceeds(
                old(self).handles(),
                old(self).stale(),
                old(self).missing(),
                *final(self),
                action,
            ),
    {
        if self.stale.len() > 0 {
            let ghost before = self.stale();
            let index_uid = self.stale.remove(0);
            assert(index_uid@ == before[0]);
            let removed = self.pipeline_handles_by_index_uid.remove(&index_uid);
            proof {
                let rest = self.stale();
                assert(rest =~= before.drop_first());
                assert forall|i: int| 0 <= i < rest.len() implies self.handles().contains_key(
                    #[trigger] rest[i],
                ) by {
                    assert(rest[i] == before[i + 1]);
                    assert(before[i + 1] != before[0]);
                }
            }
            self.phase = Phase::Stopping;
            assert(old(self).handles().contains_key(before[0]));
            Action::Kill { index_uid, handle: removed.unwrap() }
        } else if self.missing.len() > 0 {
            self.phase = Phase::Spawning;
            Action::Spawn {
                descriptor: self.missing[0].duplicate(),
                max_concurrent_split_uploads: self.max_concurrent_split_uploads,
            }
        } else {
            self.phase = Phase::Idle;
            Action::ScheduleUpdate { delay_millis: self.update_interval_millis }
        }
    }
}

} // verus!
