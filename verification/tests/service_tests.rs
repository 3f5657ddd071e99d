use delete_task_janitor::diff::{is_listed, missing_indexes, stale_index_uids};
use delete_task_janitor::service::{
    TESTSUITE_UPDATE_PIPELINES_INTERVAL_MILLIS, UPDATE_PIPELINES_INTERVAL_MILLIS,
};
use delete_task_janitor::{
    Action, DeleteTaskService, Event, IndexDescriptor, Phase, PipelineHandles,
};

fn descriptor(index_uid: &str) -> IndexDescriptor {
    let index_id = index_uid.split(':').next().unwrap_or(index_uid);
    IndexDescriptor::new(
        index_uid.to_string(),
        index_id.to_string(),
        format!("ram:///indexes/{index_id}"),
    )
}

fn listing(index_uids: &[&str]) -> Vec<IndexDescriptor> {
    index_uids.iter().map(|index_uid| descriptor(index_uid)).collect()
}

/// Drives one update to its end and returns what the service asked for, in order.
fn run_update(
    service: &mut DeleteTaskService<u32>,
    listed: Option<Vec<IndexDescriptor>>,
    failing: &[&str],
    next_handle: &mut u32,
) -> Vec<String> {
    let mut log = Vec::new();
    let mut listed = listed;
    let mut action = service.handle(Event::UpdatePipelines);
    loop {
        let event = match action {
            Action::ListIndexes => {
                log.push("list".to_string());
                match listed.take() {
                    Some(descriptors) => Event::Listed(descriptors),
                    None => Event::ListFailed,
                }
            }
            Action::Kill { index_uid, handle } => {
                assert!(!service.is_running(&index_uid));
                log.push(format!("kill {index_uid} {handle}"));
                Event::Stopped
            }
            Action::Spawn { descriptor, max_concurrent_split_uploads } => {
                assert_eq!(max_concurrent_split_uploads, 4);
                if failing.contains(&descriptor.index_uid.as_str()) {
                    log.push(format!("spawn {} failed", descriptor.index_uid));
                    Event::SpawnFailed
                } else {
                    *next_handle += 1;
                    log.push(format!("spawn {} {}", descriptor.index_uid, *next_handle));
                    Event::Spawned { index_uid: descriptor.index_uid, handle: *next_handle }
                }
            }
            Action::ScheduleUpdate { delay_millis } => {
                log.push(format!("schedule {delay_millis}"));
                return log;
            }
            Action::Ignore | Action::Reject { .. } => {
                panic!("the service turned down an event of its own update")
            }
        };
        action = service.handle(event);
    }
}

fn count(service: &DeleteTaskService<u32>) -> usize {
    service.observable_state().num_running_pipelines
}

#[test]
fn new_service_has_no_pipeline() {
    let service: DeleteTaskService<u32> = DeleteTaskService::new(4, 200);
    assert_eq!(count(&service), 0);
    assert_eq!(service.current_phase(), Phase::Idle);
    assert_eq!(service.name(), "DeleteTaskService");
}

#[test]
fn update_intervals() {
    assert_eq!(UPDATE_PIPELINES_INTERVAL_MILLIS, 30_000);
    assert_eq!(TESTSUITE_UPDATE_PIPELINES_INTERVAL_MILLIS, 200);
}

#[test]
fn initialize_asks_for_the_listing() {
    let mut service: DeleteTaskService<u32> = DeleteTaskService::new(4, 200);
    assert!(matches!(service.initialize(), Action::ListIndexes));
    assert_eq!(service.current_phase(), Phase::Listing);
}

#[test]
fn add_then_remove_indexes() {
    let mut service = DeleteTaskService::new(4, 200);
    let mut next_handle = 0;
    let log = run_update(&mut service, Some(listing(&["a"])), &[], &mut next_handle);
    assert_eq!(log, vec!["list", "spawn a 1", "schedule 200"]);
    assert_eq!(count(&service), 1);

    let log = run_update(&mut service, Some(listing(&["a", "b"])), &[], &mut next_handle);
    assert_eq!(log, vec!["list", "spawn b 2", "schedule 200"]);
    assert_eq!(count(&service), 2);

    let log = run_update(&mut service, Some(listing(&["b"])), &[], &mut next_handle);
    assert_eq!(log, vec!["list", "kill a 1", "schedule 200"]);
    assert_eq!(count(&service), 1);
    assert!(service.is_running(&"b".to_string()));
    assert!(!service.is_running(&"a".to_string()));
}

#[test]
fn failed_spawn_is_tried_again() {
    let mut service = DeleteTaskService::new(4, 200);
    let mut next_handle = 0;
    let log = run_update(&mut service, Some(listing(&["a", "c"])), &["c"], &mut next_handle);
    assert_eq!(log.len(), 4);
    assert!(log.contains(&"spawn c failed".to_string()));
    assert!(log.contains(&"spawn a 1".to_string()));
    assert_eq!(count(&service), 1);
    assert!(!service.is_running(&"c".to_string()));

    let log = run_update(&mut service, Some(listing(&["a", "c"])), &[], &mut next_handle);
    assert_eq!(log, vec!["list", "spawn c 2", "schedule 200"]);
    assert_eq!(count(&service), 2);
    assert!(service.is_running(&"c".to_string()));
}

#[test]
fn unchanged_listing_does_nothing() {
    let mut service = DeleteTaskService::new(4, 30_000);
    let mut next_handle = 0;
    run_update(&mut service, Some(listing(&["a", "b", "c"])), &[], &mut next_handle);
    assert_eq!(count(&service), 3);
    let log = run_update(&mut service, Some(listing(&["c", "a", "b"])), &[], &mut next_handle);
    assert_eq!(log, vec!["list", "schedule 30000"]);
    assert_eq!(count(&service), 3);
    assert_eq!(next_handle, 3);
}

#[test]
fn failed_listing_leaves_the_pipelines() {
    let mut service = DeleteTaskService::new(4, 200);
    let mut next_handle = 0;
    run_update(&mut service, Some(listing(&["a", "b"])), &[], &mut next_handle);
    let log = run_update(&mut service, None, &[], &mut next_handle);
    assert_eq!(log, vec!["list", "schedule 200"]);
    assert_eq!(count(&service), 2);
    assert_eq!(service.current_phase(), Phase::Idle);
}

#[test]
fn stops_come_before_spawns() {
    let mut service = DeleteTaskService::new(4, 200);
    let mut next_handle = 0;
    run_update(&mut service, Some(listing(&["a"])), &[], &mut next_handle);
    run_update(&mut service, Some(listing(&["a", "b"])), &[], &mut next_handle);
    let log = run_update(&mut service, Some(listing(&["c", "d"])), &[], &mut next_handle);
    assert_eq!(log.len(), 6);
    assert!(log[1].starts_with("kill "));
    assert!(log[2].starts_with("kill "));
    assert!(log[3].starts_with("spawn "));
    assert!(log[4].starts_with("spawn "));
    assert!(log.contains(&"kill a 1".to_string()));
    assert!(log.contains(&"kill b 2".to_string()));
    assert_eq!(count(&service), 2);
    assert!(service.is_running(&"c".to_string()));
    assert!(service.is_running(&"d".to_string()));
}

#[test]
fn empty_listing_stops_everything() {
    let mut service = DeleteTaskService::new(4, 200);
    let mut next_handle = 0;
    run_update(&mut service, Some(listing(&["a", "b"])), &[], &mut next_handle);
    let log = run_update(&mut service, Some(Vec::new()), &[], &mut next_handle);
    assert_eq!(log.len(), 4);
    assert_eq!(count(&service), 0);
}

#[test]
fn index_listed_twice_gets_one_pipeline() {
    let mut service: DeleteTaskService<u32> = DeleteTaskService::new(4, 200);
    service.initialize();
    let listed = vec![
        IndexDescriptor::new("a".to_string(), "a".to_string(), "ram:///old".to_string()),
        IndexDescriptor::new("a".to_string(), "a".to_string(), "ram:///new".to_string()),
    ];
    match service.handle(Event::Listed(listed)) {
        Action::Spawn { descriptor, .. } => {
            assert_eq!(descriptor.index_uid, "a");
            assert_eq!(descriptor.index_uri, "ram:///new");
        }
        other => panic!("unexpected action {other:?}"),
    }
    let action = service.handle(Event::Spawned { index_uid: "a".to_string(), handle: 9 });
    assert!(matches!(action, Action::ScheduleUpdate { delay_millis: 200 }));
    assert_eq!(count(&service), 1);
}

#[test]
fn pipeline_is_kept_under_the_identifier_it_came_up_with() {
    let mut service: DeleteTaskService<u32> = DeleteTaskService::new(4, 200);
    service.initialize();
    let action = service.handle(Event::Listed(listing(&["a:1"])));
    assert!(matches!(action, Action::Spawn { .. }));
    service.handle(Event::Spawned { index_uid: "a:2".to_string(), handle: 1 });
    assert_eq!(count(&service), 1);
    assert!(service.is_running(&"a:2".to_string()));
    assert!(!service.is_running(&"a:1".to_string()));
}

#[test]
fn events_of_another_phase_are_ignored() {
    let mut service: DeleteTaskService<u32> = DeleteTaskService::new(4, 200);
    assert!(matches!(service.handle(Event::Stopped), Action::Ignore));
    assert!(matches!(service.handle(Event::SpawnFailed), Action::Ignore));
    assert!(matches!(service.handle(Event::Listed(listing(&["a"]))), Action::Ignore));
    assert_eq!(service.current_phase(), Phase::Idle);
    assert_eq!(count(&service), 0);
    service.initialize();
    assert!(matches!(service.handle(Event::UpdatePipelines), Action::Ignore));
    match service.handle(Event::Spawned { index_uid: "a".to_string(), handle: 1 }) {
        Action::Reject { index_uid, handle } => {
            assert_eq!(index_uid, "a");
            assert_eq!(handle, 1);
        }
        other => panic!("unexpected action {other:?}"),
    }
    assert_eq!(service.current_phase(), Phase::Listing);
    assert_eq!(count(&service), 0);
}

#[test]
fn kill_waits_for_its_confirmation() {
    let mut service: DeleteTaskService<u32> = DeleteTaskService::new(4, 200);
    let mut next_handle = 0;
    run_update(&mut service, Some(listing(&["a"])), &[], &mut next_handle);
    service.initialize();
    let action = service.handle(Event::Listed(listing(&["b"])));
    match action {
        Action::Kill { index_uid, handle } => {
            assert_eq!(index_uid, "a");
            assert_eq!(handle, 1);
        }
        other => panic!("unexpected action {other:?}"),
    }
    assert_eq!(service.current_phase(), Phase::Stopping);
    assert_eq!(count(&service), 0);
    assert!(matches!(service.handle(Event::UpdatePipelines), Action::Ignore));
    assert_eq!(service.current_phase(), Phase::Stopping);
    assert!(matches!(service.handle(Event::Stopped), Action::Spawn { .. }));
    assert_eq!(service.current_phase(), Phase::Spawning);
}

#[test]
fn second_pipeline_for_an_index_is_killed() {
    let mut service: DeleteTaskService<u32> = DeleteTaskService::new(4, 200);
    service.initialize();
    let action = service.handle(Event::Listed(listing(&["x:1", "y:1"])));
    assert!(matches!(action, Action::Spawn { .. }));
    let action = service.spawn_pipeline("x:1".to_string(), 1);
    assert!(matches!(action, Action::Spawn { .. }));
    assert_eq!(count(&service), 1);
    match service.spawn_pipeline("x:1".to_string(), 2) {
        Action::Kill { index_uid, handle } => {
            assert_eq!(index_uid, "x:1");
            assert_eq!(handle, 2);
        }
        other => panic!("unexpected action {other:?}"),
    }
    assert_eq!(service.current_phase(), Phase::Stopping);
    assert_eq!(count(&service), 1);
    assert!(service.is_running(&"x:1".to_string()));
    assert!(matches!(service.handle(Event::Stopped), Action::ScheduleUpdate { delay_millis: 200 }));
    assert_eq!(count(&service), 1);

    service.initialize();
    match service.handle(Event::Listed(Vec::new())) {
        Action::Kill { index_uid, handle } => {
            assert_eq!(index_uid, "x:1");
            assert_eq!(handle, 1);
        }
        other => panic!("unexpected action {other:?}"),
    }
}

#[test]
fn update_pipeline_handles_makes_the_first_move() {
    let mut service: DeleteTaskService<u32> = DeleteTaskService::new(7, 200);
    service.initialize();
    match service.update_pipeline_handles(listing(&["a:1"])) {
        Action::Spawn { descriptor, max_concurrent_split_uploads } => {
            assert_eq!(descriptor.index_uid, "a:1");
            assert_eq!(descriptor.index_id, "a");
            assert_eq!(descriptor.index_uri, "ram:///indexes/a");
            assert_eq!(max_concurrent_split_uploads, 7);
        }
        other => panic!("unexpected action {other:?}"),
    }
    assert_eq!(service.current_phase(), Phase::Spawning);
}

#[test]
fn listing_and_pipeline_out_of_turn_are_ignored() {
    let mut service: DeleteTaskService<u32> = DeleteTaskService::new(4, 200);
    assert!(matches!(service.update_pipeline_handles(listing(&["a"])), Action::Ignore));
    assert!(matches!(
        service.spawn_pipeline("a".to_string(), 1),
        Action::Reject { handle: 1, .. }
    ));
    assert_eq!(service.current_phase(), Phase::Idle);
    assert_eq!(count(&service), 0);
    service.initialize();
    assert!(matches!(
        service.spawn_pipeline("a".to_string(), 5),
        Action::Reject { handle: 5, .. }
    ));
    assert_eq!(count(&service), 0);
    let action = service.update_pipeline_handles(listing(&["a"]));
    assert!(matches!(action, Action::Spawn { .. }));
    assert!(matches!(service.update_pipeline_handles(listing(&["b"])), Action::Ignore));
    assert!(matches!(service.spawn_pipeline("a".to_string(), 1), Action::ScheduleUpdate { .. }));
    assert_eq!(count(&service), 1);
    assert!(service.is_running(&"a".to_string()));
}

#[test]
fn handle_map_insert_remove() {
    let mut handles: PipelineHandles<u32> = PipelineHandles::new();
    assert_eq!(handles.len(), 0);
    assert_eq!(handles.insert("a".to_string(), 1), None);
    assert_eq!(handles.insert("b".to_string(), 2), None);
    assert_eq!(handles.insert("a".to_string(), 3), Some(1));
    assert_eq!(handles.len(), 2);
    assert!(handles.contains_key(&"a".to_string()));
    assert_eq!(handles.remove(&"c".to_string()), None);
    assert_eq!(handles.remove(&"a".to_string()), Some(3));
    assert_eq!(handles.remove(&"a".to_string()), None);
    assert_eq!(handles.len(), 1);
    assert_eq!(handles.index_uids(), vec!["b".to_string()]);
}

#[test]
fn stale_and_missing() {
    let mut handles: PipelineHandles<u32> = PipelineHandles::new();
    handles.insert("a".to_string(), 1);
    handles.insert("b".to_string(), 2);
    handles.insert("c".to_string(), 3);
    let listed = listing(&["b", "d", "e", "d"]);
    let mut stale = stale_index_uids(&handles, &listed);
    stale.sort();
    assert_eq!(stale, vec!["a".to_string(), "c".to_string()]);
    let mut missing: Vec<String> =
        missing_indexes(&handles, &listed).into_iter().map(|d| d.index_uid).collect();
    missing.sort();
    assert_eq!(missing, vec!["d".to_string(), "e".to_string()]);
    assert!(is_listed(&listed, &"e".to_string()));
    assert!(!is_listed(&listed, &"a".to_string()));
}

#[test]
fn duplicate_stands_for_the_same_index() {
    let first = descriptor("a");
    let copy = first.duplicate();
    assert_eq!(copy.index_uid, "a");
    assert_eq!(copy.index_id, "a");
    assert_eq!(copy.index_uri, "ram:///indexes/a");
}
