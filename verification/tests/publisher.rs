use coco_console::publisher::advance_generation;
use coco_console::publisher::mark_jobs_changed;
use coco_console::publisher::mark_source_dirty;
use coco_console::publisher::subscribe_job_changes;
use coco_console::publisher::subscribe_source_changes;
use coco_console::publisher::ConsolePublisher;

fn block_on<F: std::future::Future>(future: F) -> F::Output {
    tokio::runtime::Builder::new_current_thread()
        .build()
        .unwrap()
        .block_on(future)
}

#[test]
fn source_changes_are_coalesced_into_dirty_wakeups() {
    block_on(async {
        let publisher = ConsolePublisher::new();
        let mut changes = subscribe_source_changes(&publisher);
        changes.borrow_and_update();

        assert_eq!(mark_source_dirty(&publisher), 1);
        assert_eq!(mark_source_dirty(&publisher), 2);
        changes.changed().await.unwrap();
        assert_eq!(*changes.borrow_and_update(), 2);
    });
}

#[test]
fn job_changes_are_published_independently() {
    block_on(async {
        let publisher = ConsolePublisher::new();
        let mut changes = subscribe_job_changes(&publisher);
        changes.borrow_and_update();

        assert_eq!(mark_jobs_changed(&publisher), 1);
        changes.changed().await.unwrap();
        assert_eq!(*changes.borrow_and_update(), 1);
        assert_eq!(*subscribe_source_changes(&publisher).borrow(), 0);
    });
}

#[test]
fn cloned_publisher_shares_its_channels() {
    let publisher = ConsolePublisher::default();
    let other = publisher.clone();
    let sources = subscribe_source_changes(&publisher);
    let jobs = subscribe_job_changes(&publisher);

    assert_eq!(mark_source_dirty(&other), 1);
    assert_eq!(mark_source_dirty(&publisher), 2);
    assert_eq!(mark_jobs_changed(&other), 1);
    assert_eq!(*sources.borrow(), 2);
    assert_eq!(*jobs.borrow(), 1);
}

#[test]
fn separate_publishers_have_separate_channels() {
    let first = ConsolePublisher::new();
    let second = ConsolePublisher::new();
    mark_source_dirty(&first);
    assert_eq!(*subscribe_source_changes(&second).borrow(), 0);
}

#[test]
fn generations_start_over_behind_the_last() {
    let mut current = u64::MAX - 1;
    assert_eq!(advance_generation(&mut current), u64::MAX);
    assert_eq!(current, u64::MAX);
    assert_eq!(advance_generation(&mut current), 0);
    assert_eq!(current, 0);
}
