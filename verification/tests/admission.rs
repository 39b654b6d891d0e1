use event_tracker::admission::AdmissionController;

#[test]
fn test_admission_fairness_capacity_plus_one() {
    let capacity = 5;
    let mut controller = AdmissionController::new(capacity, 2);
    let now = 1_000_000;
    for _ in 0..capacity {
        assert!(controller.admit_request(42, now));
    }
    assert!(!controller.admit_request(42, now));
}

#[test]
fn test_admission_fairness_within_short_window() {
    let mut controller = AdmissionController::new(3, 2);
    // All requests fall 100 ms apart, well inside the 500 ms refill interval.
    assert!(controller.admit_request(7, 10_000));
    assert!(controller.admit_request(7, 10_100));
    assert!(controller.admit_request(7, 10_200));
    assert!(!controller.admit_request(7, 10_300));
}

#[test]
fn test_admission_recovery_after_refill() {
    let mut controller = AdmissionController::new(2, 2);
    let start = 50_000;
    assert!(controller.admit_request(9, start));
    assert!(controller.admit_request(9, start));
    assert!(!controller.admit_request(9, start));
    // At 2 tokens per second one whole token is back after 500 ms.
    assert!(controller.admit_request(9, start + 500));
}

#[test]
fn test_rejection_leaves_tokens_unchanged() {
    let mut controller = AdmissionController::new(1, 1);
    let now = 3_000;
    assert!(controller.admit_request(1, now));
    assert!(!controller.admit_request(1, now));
    let bucket = controller.bucket_for(1).unwrap();
    assert_eq!(0, bucket.tokens);
    assert!(!controller.admit_request(1, now));
    let bucket = controller.bucket_for(1).unwrap();
    assert_eq!(0, bucket.tokens);
}

#[test]
fn test_clients_are_tracked_independently() {
    let mut controller = AdmissionController::new(1, 1);
    let now = 8_000;
    assert!(controller.admit_request(1, now));
    assert!(!controller.admit_request(1, now));
    assert!(controller.admit_request(2, now));
    assert!(controller.bucket_for(1).is_some());
    assert!(controller.bucket_for(2).is_some());
    assert!(controller.bucket_for(3).is_none());
}

#[test]
fn test_compaction_drops_only_fully_refilled_buckets() {
    let mut controller = AdmissionController::new(2, 2);
    let start = 100_000;
    assert!(controller.admit_request(1, start));

    // Long before a full refill, the bucket must survive compaction.
    controller.compact(start + 100);
    assert!(controller.bucket_for(1).is_some());

    // After enough idle time to earn the whole burst back, it is swept.
    controller.compact(start + 10_000);
    assert!(controller.bucket_for(1).is_none());
}

#[test]
fn test_compaction_keeps_active_client_state() {
    let mut controller = AdmissionController::new(2, 2);
    let start = 200_000;
    assert!(controller.admit_request(5, start));
    assert!(controller.admit_request(5, start));
    controller.compact(start + 100);
    let bucket = controller.bucket_for(5).unwrap();
    assert_eq!(0, bucket.tokens);
    assert_eq!(start, bucket.last_refill);
}

#[test]
fn test_compaction_changes_no_decision() {
    let mut swept = AdmissionController::new(2, 2);
    let mut unswept = AdmissionController::new(2, 2);
    let start = 400_000;
    for controller in [&mut swept, &mut unswept] {
        assert!(controller.admit_request(3, start));
        assert!(controller.admit_request(3, start));
        assert!(!controller.admit_request(3, start));
    }
    // Only one of the two controllers sweeps after a long idle stretch.
    swept.compact(start + 60_000);
    assert!(swept.bucket_for(3).is_none());
    assert!(unswept.bucket_for(3).is_some());
    // The client's next request is decided the same way on both.
    assert_eq!(
        unswept.admit_request(3, start + 60_000),
        swept.admit_request(3, start + 60_000),
    );
}

#[test]
fn test_fresh_bucket_starts_full_minus_spent_token() {
    let controller_capacity = 4;
    let mut controller = AdmissionController::new(controller_capacity, 1);
    assert!(controller.admit_request(11, 500));
    let bucket = controller.bucket_for(11).unwrap();
    assert_eq!(controller_capacity - 1, bucket.tokens);
    assert_eq!(500, bucket.last_refill);
}
