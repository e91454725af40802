//! Tests of view maintenance: status tables, job deduplication, the integrity
//! scanner's missing-document computation, and the reindex driver.
use bonsaidb::views::{
    integrity_scan_missing, IntegrityScan, IntegrityScanPass, JobRegistry, ScanAction, Statuses,
    Task, TaskManager, ViewUpdateDriver, ViewKey,
};

fn view_key(db: &str, collection: &str, view: &str) -> ViewKey {
    ViewKey {
        database: String::from(db),
        collection: String::from(collection),
        view_name: String::from(view),
    }
}

fn scan(db: &str, collection: &str, view: &str, version: u64) -> IntegrityScan {
    IntegrityScan {
        view_version: version,
        database: String::from(db),
        collection: String::from(collection),
        view_name: String::from(view),
    }
}

#[test]
fn statuses_track_integrity_checks_and_watermarks() {
    let mut statuses = Statuses::new();
    let key = view_key("db", "docs", "by-name");
    assert!(!statuses.view_integrity_checked(&key));
    statuses.mark_integrity_check_complete(view_key("db", "docs", "by-name"));
    assert!(statuses.view_integrity_checked(&key));
    assert!(!statuses.view_integrity_checked(&view_key("db", "docs", "other")));

    assert!(statuses.needs_reindex(&key, 1));
    statuses.mark_view_updated(view_key("db", "docs", "by-name"), 5);
    assert!(!statuses.needs_reindex(&key, 5));
    assert!(!statuses.needs_reindex(&key, 4));
    assert!(statuses.needs_reindex(&key, 6));
    statuses.mark_view_updated(view_key("db", "docs", "by-name"), 7);
    assert!(!statuses.needs_reindex(&key, 7));
}

#[test]
fn job_lookups_with_one_key_share_one_execution() {
    let mut jobs = JobRegistry::new();
    let (id1, created1) = jobs.lookup_or_enqueue(Task::IntegrityScan(scan("db", "docs", "v", 1)));
    assert!(created1);
    let (id2, created2) = jobs.lookup_or_enqueue(Task::IntegrityScan(scan("db", "docs", "v", 1)));
    assert!(!created2);
    assert_eq!(id1, id2);
    // A different version is a different key, so a different execution.
    let (id3, created3) = jobs.lookup_or_enqueue(Task::IntegrityScan(scan("db", "docs", "v", 2)));
    assert!(created3);
    assert_ne!(id1, id3);
    let (_, created4) = jobs.lookup_or_enqueue(Task::ExpirationLoad(String::from("db")));
    assert!(created4);
}

#[test]
fn integrity_scan_misses_only_unmapped_documents_when_current() {
    let documents = vec![1u64, 2, 3, 4];
    let stored = vec![2u64, 4];
    let missing = integrity_scan_missing(&documents, &stored, Some(3), 3);
    assert_eq!(missing, vec![1, 3]);
}

#[test]
fn integrity_scan_remaps_everything_on_a_version_bump() {
    let documents = vec![1u64, 2, 3];
    let stored = vec![1u64, 2, 3];
    let missing = integrity_scan_missing(&documents, &stored, Some(2), 3);
    assert_eq!(missing, vec![1, 2, 3]);
    let missing = integrity_scan_missing(&documents, &stored, None, 3);
    assert_eq!(missing, vec![1, 2, 3]);
    let missing = integrity_scan_missing(&documents, &stored, Some(3), 3);
    assert_eq!(missing, Vec::<u64>::new());
}

#[test]
fn reindex_driver_finishes_at_the_watermark() {
    let mut driver = ViewUpdateDriver::new(10);
    assert!(!driver.on_mapper_completion(4));
    assert!(!driver.on_mapper_completion(9));
    assert!(driver.on_mapper_completion(10));
}

#[test]
fn update_view_if_needed_plans_the_pass() {
    let mut tasks = TaskManager::new();
    // First pass: an integrity scan is enqueued and a reindex is needed.
    let (job, driver) = tasks.update_view_if_needed(scan("db", "docs", "v", 1), Some(3));
    let (_, created) = job.expect("an unchecked view needs an integrity scan");
    assert!(created);
    let mut driver = driver.expect("an unindexed view needs a reindex");
    assert!(driver.on_mapper_completion(3));
    tasks.mark_view_updated(view_key("db", "docs", "v"), 3);
    tasks.mark_integrity_check_complete(view_key("db", "docs", "v"));

    // Second pass at the same watermark: nothing to do.
    let (job, driver) = tasks.update_view_if_needed(scan("db", "docs", "v", 1), Some(3));
    assert!(job.is_none());
    assert!(driver.is_none());

    // A database without transactions is up to date.
    let (_, driver) = tasks.update_view_if_needed(scan("db", "other", "v", 1), None);
    assert!(driver.is_none());

    // New transactions need a new pass, but no second integrity scan.
    let (job, driver) = tasks.update_view_if_needed(scan("db", "docs", "v", 1), Some(5));
    assert!(job.is_none());
    assert!(driver.is_some());
}

#[test]
fn a_scan_pass_maps_missing_documents_before_marking() {
    let mut tasks = TaskManager::new();
    let key = view_key("db", "docs", "v");
    let missing = integrity_scan_missing(&vec![1, 2, 3], &vec![2], Some(1), 1);
    let mut pass = IntegrityScanPass::new();
    assert_eq!(
        pass.on_missing_computed(missing.len()),
        ScanAction::WriteInvalidationsAndMap
    );
    assert_eq!(pass.on_mapper_completed(), ScanAction::MarkComplete);
    pass.mark_complete(&mut tasks, view_key("db", "docs", "v"));
    assert!(tasks.view_integrity_checked(&key));
}

#[test]
fn an_empty_scan_marks_without_writing() {
    let mut tasks = TaskManager::new();
    let key = view_key("db", "docs", "v");
    let missing = integrity_scan_missing(&vec![1, 2], &vec![1, 2], Some(1), 1);
    let mut pass = IntegrityScanPass::new();
    // Nothing missing: the pass skips the invalidation write and the mapper.
    assert_eq!(pass.on_missing_computed(missing.len()), ScanAction::MarkComplete);
    pass.mark_complete(&mut tasks, view_key("db", "docs", "v"));
    assert!(tasks.view_integrity_checked(&key));
}

#[test]
fn concurrent_integrity_checks_coalesce() {
    let mut tasks = TaskManager::new();
    let first = tasks.spawn_integrity_check(scan("db", "docs", "v", 1));
    let second = tasks.spawn_integrity_check(scan("db", "docs", "v", 1));
    let (id1, created1) = first.unwrap();
    let (id2, created2) = second.unwrap();
    assert!(created1);
    assert!(!created2);
    assert_eq!(id1, id2);
    // Once the check completed, nothing is spawned at all.
    tasks.mark_integrity_check_complete(view_key("db", "docs", "v"));
    assert!(tasks.spawn_integrity_check(scan("db", "docs", "v", 1)).is_none());
}
