use herdr::collection_advice::{
    advisory_warnings, archive_age_limit_secs, lifecycle_summary, CollectionLifecyclePolicy,
};

#[test]
fn summary_counts_active_and_exited_members() {
    let summary = lifecycle_summary(5, 2, 4, 1, 1);
    assert_eq!(summary.active, 3);
    assert_eq!(summary.archived, 2);
    assert_eq!(summary.live, 4);
    assert_eq!(summary.exited, 1);
    assert_eq!(lifecycle_summary(1, 3, 2, 0, 0).active, 0);
    assert_eq!(lifecycle_summary(1, 3, 2, 0, 0).exited, 0);
}

#[test]
fn warnings_name_each_exceeded_limit_in_order() {
    let policy = CollectionLifecyclePolicy { archive_count: 2, concurrency: 1, archive_age_days: 7 };
    assert_eq!(
        advisory_warnings(policy, 3, 1, 1, true),
        vec![
            "archive count 3 exceeds advisory limit 2".to_string(),
            "working/blocked concurrency 2 exceeds advisory limit 1".to_string(),
            "archive contains members older than advisory limit of 7 days".to_string(),
        ]
    );
    assert!(advisory_warnings(policy, 2, 1, 0, false).is_empty());
    let disabled = CollectionLifecyclePolicy { archive_count: 0, concurrency: 0, archive_age_days: 0 };
    assert!(advisory_warnings(disabled, 99, 99, 99, true).is_empty());
    assert_eq!(archive_age_limit_secs(2), 172_800);
    assert_eq!(archive_age_limit_secs(u64::MAX), u64::MAX);
}
