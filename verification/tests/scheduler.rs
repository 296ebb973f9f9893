use ringo_srs::models::{Status, Timestamp};
use ringo_srs::sm2::{compute_status, next_review, review_correct, review_incorrect};
use ringo_srs::{auto_detect_type, default_status, default_version};

#[test]
fn test_auto_detect_type_word() {
    assert_eq!(auto_detect_type("implement"), "word");
}

#[test]
fn test_auto_detect_type_phrase() {
    assert_eq!(auto_detect_type("go shopping"), "phrase");
}

#[test]
fn test_auto_detect_type_multi_word() {
    assert_eq!(auto_detect_type("break the ice"), "phrase");
}

#[test]
fn test_defaults() {
    assert_eq!(default_status(), "new");
    assert_eq!(default_version(), "1.0");
}

#[test]
fn test_first_correct() {
    let (interval, ease) = review_correct(0, 0, 2_500_000, "good");
    assert_eq!(interval, 1_000_000);
    assert_eq!(ease, 2_500_000);
}

#[test]
fn test_second_correct() {
    let (interval, ease) = review_correct(1, 1_000_000, 2_500_000, "good");
    assert_eq!(interval, 3_000_000);
    assert_eq!(ease, 2_500_000);
}

#[test]
fn test_third_correct() {
    let (interval, ease) = review_correct(2, 3_000_000, 2_500_000, "good");
    assert_eq!(interval, 7_500_000);
    assert_eq!(ease, 2_500_000);
}

#[test]
fn test_correct_easy() {
    let (interval, ease) = review_correct(2, 3_000_000, 2_500_000, "easy");
    assert_eq!(interval, 7_500_000);
    assert_eq!(ease, 2_650_000);
}

#[test]
fn test_correct_hard() {
    let (interval, ease) = review_correct(2, 3_000_000, 2_500_000, "hard");
    assert_eq!(interval, 7_500_000);
    assert_eq!(ease, 2_350_000);
}

#[test]
fn test_correct_hard_ease_floor() {
    let (_, ease) = review_correct(2, 3_000_000, 1_300_000, "hard");
    assert_eq!(ease, 1_300_000);
}

#[test]
fn test_correct_unknown_difficulty_keeps_ease() {
    let (_, ease) = review_correct(2, 3_000_000, 2_500_000, "whatever");
    assert_eq!(ease, 2_500_000);
}

#[test]
fn test_incorrect() {
    let (interval, ease) = review_incorrect(2_500_000);
    assert_eq!(interval, 1_000_000);
    assert_eq!(ease, 2_300_000);
}

#[test]
fn test_incorrect_ease_floor() {
    let (_, ease) = review_incorrect(1_300_000);
    assert_eq!(ease, 1_300_000);
}

#[test]
fn test_incorrect_ease_near_floor() {
    let (_, ease) = review_incorrect(1_400_000);
    assert_eq!(ease, 1_300_000);
}

#[test]
fn test_next_review() {
    let now = Timestamp { secs: 1_700_000_000, nanos: 5 };
    let nr = next_review(&now, 3_000_000);
    assert_eq!(nr.secs - now.secs, 3 * 86400);
    assert_eq!(nr.nanos, 5);
}

#[test]
fn test_next_review_fractional_day_truncates() {
    let now = Timestamp { secs: 0, nanos: 0 };
    let nr = next_review(&now, 1_500_000);
    assert_eq!(nr.secs, 129600);
    let nr2 = next_review(&now, 10);
    assert_eq!(nr2.secs, 0);
}

#[test]
fn test_next_review_far_future_now_keeps_now() {
    let now = Timestamp { secs: 300_000_000_000, nanos: 0 };
    let nr = next_review(&now, 1_000_000);
    assert_eq!(nr, now);
}

#[test]
fn test_status_new() {
    assert_eq!(compute_status(0, 0, 0), Status::New);
}

#[test]
fn test_status_learning() {
    assert_eq!(compute_status(3_000_000, 1, 2), Status::Learning);
}

#[test]
fn test_status_reviewing() {
    assert_eq!(compute_status(10_000_000, 3, 4), Status::Reviewing);
}

#[test]
fn test_status_mastered() {
    assert_eq!(compute_status(30_000_000, 19, 20), Status::Mastered);
}

#[test]
fn test_status_not_mastered_low_accuracy() {
    assert_eq!(compute_status(30_000_000, 16, 20), Status::Reviewing);
}

#[test]
fn test_status_not_mastered_low_quizzed() {
    assert_eq!(compute_status(30_000_000, 4, 4), Status::Reviewing);
}

#[test]
fn test_status_boundaries() {
    assert_eq!(compute_status(30_000_000, 9, 10), Status::Mastered);
    assert_eq!(compute_status(30_000_000, 899, 1000), Status::Reviewing);
    assert_eq!(compute_status(7_000_000, 0, 1), Status::Reviewing);
    assert_eq!(compute_status(6_990_000, 0, 1), Status::Learning);
}

#[test]
fn test_status_labels() {
    assert_eq!(Status::New.label(), "new");
    assert_eq!(Status::Learning.label(), "learning");
    assert_eq!(Status::Reviewing.label(), "reviewing");
    assert_eq!(Status::Mastered.label(), "mastered");
    assert_eq!(Status::from_label("mastered"), Some(Status::Mastered));
    assert_eq!(Status::from_label("bogus"), None);
}
