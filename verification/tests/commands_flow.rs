use ringo_srs::commands::{
    add_item, compute_stats, find_item_by_prefix, list_items, parse_review_inputs, review_items,
};
use ringo_srs::models::{AppError, LearningItem, ReviewInput, SrsDatabase, Status, Timestamp};
use ringo_srs::numbers::{format_micro, parse_micro};

fn ts(secs: i64) -> Timestamp {
    Timestamp { secs, nanos: 0 }
}

fn item(id: &str, front: &str) -> LearningItem {
    LearningItem {
        id: id.to_string(),
        item_type: "word".to_string(),
        front: front.to_string(),
        back: "訳".to_string(),
        context: None,
        context_ja: None,
        source: None,
        created_at: ts(1_700_000_000),
        last_quizzed: None,
        next_review: ts(1_700_086_400),
        times_quizzed: 0,
        times_correct: 0,
        ease_micro: 2_500_000,
        interval_micro: 0,
        status: Status::New,
        extra: Vec::new(),
    }
}

#[test]
fn test_review_single_correct() {
    let mut items = vec![item("item_001", "hello")];
    let inputs = vec![ReviewInput {
        id: "item_001".to_string(),
        result: "correct".to_string(),
        difficulty: None,
    }];
    let now = ts(1_700_000_000);
    let outs = review_items(&mut items, &inputs, now).unwrap();
    assert_eq!(outs.len(), 1);
    assert_eq!(outs[0].id, "item_001");
    assert_eq!(outs[0].result, "correct");
    assert_eq!(items[0].times_quizzed, 1);
    assert_eq!(items[0].times_correct, 1);
    assert_eq!(items[0].interval_micro, 1_000_000);
    assert_eq!(items[0].next_review.secs, now.secs + 86400);
    assert_eq!(items[0].last_quizzed, Some(now));
}

#[test]
fn test_review_single_incorrect() {
    let mut items = vec![item("item_001", "hello")];
    let mut it = &mut items[0];
    it.times_quizzed = 3;
    it.times_correct = 2;
    it.ease_micro = 2_500_000;
    it.interval_micro = 7_500_000;
    let inputs = vec![ReviewInput {
        id: "item_001".to_string(),
        result: "incorrect".to_string(),
        difficulty: None,
    }];
    let outs = review_items(&mut items, &inputs, ts(1_700_000_000)).unwrap();
    assert_eq!(outs[0].interval_micro, 1_000_000);
    assert_eq!(items[0].ease_micro, 2_300_000);
    assert_eq!(items[0].times_quizzed, 4);
    assert_eq!(items[0].times_correct, 2);
}

#[test]
fn test_end_to_end_hard_review() {
    let mut items = vec![item("item_001", "hello")];
    {
        let it = &mut items[0];
        it.ease_micro = 2_500_000;
        it.interval_micro = 3_000_000;
        it.times_quizzed = 2;
        it.times_correct = 2;
    }
    let inputs = vec![ReviewInput {
        id: "item_001".to_string(),
        result: "correct".to_string(),
        difficulty: Some("hard".to_string()),
    }];
    let outs = review_items(&mut items, &inputs, ts(1_700_000_000)).unwrap();
    assert_eq!(items[0].interval_micro, 7_500_000);
    assert_eq!(items[0].ease_micro, 2_350_000);
    assert_eq!(items[0].status, Status::Reviewing);
    assert_eq!(outs[0].status, Status::Reviewing);
}

#[test]
fn test_review_prefix_match() {
    let mut items = vec![item("item_abc", "a"), item("other_xyz", "b")];
    let inputs = vec![ReviewInput {
        id: "item".to_string(),
        result: "correct".to_string(),
        difficulty: None,
    }];
    let outs = review_items(&mut items, &inputs, ts(1_700_000_000)).unwrap();
    assert_eq!(outs[0].id, "item_abc");
}

#[test]
fn test_review_not_found() {
    let mut items = vec![item("item_001", "a")];
    let inputs = vec![ReviewInput {
        id: "zzz".to_string(),
        result: "correct".to_string(),
        difficulty: None,
    }];
    let r = review_items(&mut items, &inputs, ts(1_700_000_000));
    assert!(matches!(r, Err(AppError::NotFound(_))));
}

#[test]
fn test_review_ambiguous() {
    let mut items = vec![item("item_001", "a"), item("item_002", "b")];
    let inputs = vec![ReviewInput {
        id: "item".to_string(),
        result: "correct".to_string(),
        difficulty: None,
    }];
    let r = review_items(&mut items, &inputs, ts(1_700_000_000));
    assert!(matches!(r, Err(AppError::AmbiguousId(_))));
}

#[test]
fn test_review_batch() {
    let mut items = vec![item("item_001", "a"), item("item_002", "b")];
    let inputs = vec![
        ReviewInput {
            id: "item_001".to_string(),
            result: "correct".to_string(),
            difficulty: None,
        },
        ReviewInput {
            id: "item_002".to_string(),
            result: "incorrect".to_string(),
            difficulty: None,
        },
    ];
    let outs = review_items(&mut items, &inputs, ts(1_700_000_000)).unwrap();
    assert_eq!(outs.len(), 2);
    assert_eq!(items[0].times_correct, 1);
    assert_eq!(items[1].times_correct, 0);
    assert_eq!(items[1].times_quizzed, 1);
}

#[test]
fn test_find_item_by_prefix_cases() {
    let items = vec![item("abc_1", "a"), item("abd_2", "b")];
    assert_eq!(find_item_by_prefix(&items, "abc").unwrap(), 0);
    assert!(matches!(find_item_by_prefix(&items, "zzz"), Err(AppError::NotFound(_))));
    assert!(matches!(find_item_by_prefix(&items, "ab"), Err(AppError::AmbiguousId(_))));
}

#[test]
fn test_add_item() {
    let mut db = SrsDatabase::new(ts(1_700_000_000));
    let now = ts(1_700_000_000);
    add_item(
        &mut db,
        "implement".to_string(),
        "実装する".to_string(),
        None,
        None,
        None,
        None,
        "item_001".to_string(),
        now,
    )
    .unwrap();
    assert_eq!(db.items.len(), 1);
    assert_eq!(db.items[0].item_type, "word");
    assert_eq!(db.items[0].status, Status::New);
    assert_eq!(db.items[0].ease_micro, 2_500_000);
    assert_eq!(db.items[0].next_review.secs, now.secs + 86400);
}

#[test]
fn test_add_duplicate() {
    let mut db = SrsDatabase::new(ts(1_700_000_000));
    db.items.push(item("item_001", "Hello"));
    let r = add_item(
        &mut db,
        "hello".to_string(),
        "x".to_string(),
        None,
        None,
        None,
        None,
        "item_002".to_string(),
        ts(1_700_000_000),
    );
    assert!(matches!(r, Err(AppError::Duplicate(_))));
    assert_eq!(db.items.len(), 1);
}

#[test]
fn test_add_with_type() {
    let mut db = SrsDatabase::new(ts(1_700_000_000));
    add_item(
        &mut db,
        "break the ice".to_string(),
        "場を和ませる".to_string(),
        Some("idiom".to_string()),
        None,
        None,
        None,
        "item_001".to_string(),
        ts(1_700_000_000),
    )
    .unwrap();
    assert_eq!(db.items[0].item_type, "idiom");
}

#[test]
fn test_add_blank_front_rejected() {
    let mut db = SrsDatabase::new(ts(1_700_000_000));
    let r = add_item(
        &mut db,
        "   ".to_string(),
        "x".to_string(),
        None,
        None,
        None,
        None,
        "item_001".to_string(),
        ts(1_700_000_000),
    );
    assert!(matches!(r, Err(AppError::InvalidInput(_))));
    assert_eq!(db.items.len(), 0);
}

#[test]
fn test_list_all() {
    let items = vec![item("a", "1"), item("b", "2")];
    let all = list_items(&items, false, false, None, None, &ts(1_700_000_000));
    assert_eq!(all.len(), 2);
}

#[test]
fn test_list_no_data_file() {
    let r = ringo_srs::storage::load_existing(None, "missing.json");
    assert!(matches!(r, Err(AppError::NoDataFile(_))));
}

#[test]
fn test_stats_no_data_file() {
    let r = ringo_srs::storage::load_existing(None, "missing.json");
    assert!(r.is_err());
}

#[test]
fn test_full_flow() {
    let now = ts(1_700_000_000);
    let mut db = SrsDatabase::new(now);
    add_item(
        &mut db,
        "hello".to_string(),
        "こんにちは".to_string(),
        None,
        None,
        None,
        None,
        "item_001".to_string(),
        now,
    )
    .unwrap();
    let text = ringo_srs::storage::save(&mut db, now).unwrap();
    let mut db = ringo_srs::storage::load(Some(&text), now).unwrap();

    let inputs = vec![ReviewInput {
        id: "item_001".to_string(),
        result: "correct".to_string(),
        difficulty: None,
    }];
    review_items(&mut db.items, &inputs, now).unwrap();
    let text = ringo_srs::storage::save(&mut db, now).unwrap();
    let db = ringo_srs::storage::load(Some(&text), now).unwrap();

    let s = compute_stats(&db.items, &now);
    assert_eq!(s.total_items, 1);
    assert_eq!(s.total_quizzed, 1);
    assert_eq!(s.total_correct, 1);
    assert_eq!(s.accuracy_tenths, 1000);
}

#[test]
fn test_list_all_and_status_filter() {
    let mut items = vec![item("a", "1"), item("b", "2"), item("c", "3")];
    items[1].status = Status::Reviewing;
    let now = ts(1_700_000_000);
    let all = list_items(&items, false, false, None, None, &now);
    assert_eq!(all, vec![0, 1, 2]);
    let rev = list_items(&items, false, false, Some("reviewing"), None, &now);
    assert_eq!(rev, vec![1]);
}

#[test]
fn test_list_due() {
    let now = ts(1_700_000_000);
    let mut items = vec![item("a", "1"), item("b", "2"), item("c", "3")];
    items[0].next_review = ts(1_700_000_001);
    items[1].next_review = ts(1_600_000_000);
    items[2].next_review = ts(1_500_000_000);
    let due = list_items(&items, true, false, None, None, &now);
    assert_eq!(due, vec![2, 1]);
}

#[test]
fn test_list_due_limit() {
    let now = ts(1_700_000_000);
    let mut items = vec![item("a", "1"), item("b", "2"), item("c", "3")];
    items[0].next_review = ts(1_600_000_000);
    items[1].next_review = ts(1_500_000_000);
    items[2].next_review = ts(1_400_000_000);
    let due = list_items(&items, true, false, None, Some(2), &now);
    assert_eq!(due, vec![2, 1]);
}

#[test]
fn test_list_due_tie_breaks_on_ease() {
    let now = ts(1_700_000_000);
    let mut items = vec![item("a", "1"), item("b", "2")];
    items[0].next_review = ts(1_600_000_000);
    items[0].ease_micro = 2_500_000;
    items[1].next_review = ts(1_600_000_000);
    items[1].ease_micro = 1_300_000;
    let due = list_items(&items, true, false, None, None, &now);
    assert_eq!(due, vec![1, 0]);
}

#[test]
fn test_list_weak() {
    let now = ts(1_700_000_000);
    let mut items = vec![item("a", "1"), item("b", "2"), item("c", "3")];
    items[0].times_quizzed = 4;
    items[0].times_correct = 1;
    items[1].times_quizzed = 4;
    items[1].times_correct = 4;
    items[2].times_quizzed = 1;
    items[2].times_correct = 0;
    let weak = list_items(&items, false, true, None, None, &now);
    assert_eq!(weak, vec![0]);
}

#[test]
fn test_stats() {
    let now = ts(1_700_000_000);
    let mut items = vec![item("a", "1"), item("b", "2"), item("c", "3")];
    items[0].times_quizzed = 4;
    items[0].times_correct = 3;
    items[0].next_review = ts(1_600_000_000);
    items[1].times_quizzed = 6;
    items[1].times_correct = 3;
    items[1].status = Status::Reviewing;
    items[1].item_type = "phrase".to_string();
    items[1].next_review = ts(1_800_000_000);
    items[2].next_review = ts(1_900_000_000);
    let s = compute_stats(&items, &now);
    assert_eq!(s.total_items, 3);
    assert_eq!(s.due_now, 1);
    assert_eq!(s.total_quizzed, 10);
    assert_eq!(s.total_correct, 6);
    assert_eq!(s.accuracy_tenths, 600);
    assert_eq!(s.new_count, 2);
    assert_eq!(s.reviewing_count, 1);
    assert_eq!(s.learning_count, 0);
    assert_eq!(s.mastered_count, 0);
    assert!(s.by_type.contains(&("word".to_string(), 2)));
    assert!(s.by_type.contains(&("phrase".to_string(), 1)));
    assert_eq!(s.next_due, Some(ts(1_800_000_000)));
}

#[test]
fn test_stats_empty() {
    let s = compute_stats(&Vec::new(), &ts(0));
    assert_eq!(s.total_items, 0);
    assert_eq!(s.accuracy_tenths, 0);
    assert_eq!(s.next_due, None);
}

#[test]
fn test_parse_review_inputs() {
    let text = r#"[
  {"id":"item_001","result":"correct","difficulty":"good"},
  {"id":"item_002","result":"incorrect"}
]"#;
    let v = parse_review_inputs(text).unwrap();
    assert_eq!(v.len(), 2);
    assert_eq!(v[0].id, "item_001");
    assert_eq!(v[0].difficulty, Some("good".to_string()));
    assert_eq!(v[1].result, "incorrect");
    assert_eq!(v[1].difficulty, None);

    assert!(matches!(parse_review_inputs("[]"), Err(AppError::InvalidInput(_))));
    assert!(matches!(parse_review_inputs("not json"), Err(AppError::InvalidInput(_))));
}

#[test]
fn test_format_micro_values() {
    assert_eq!(format_micro(0), "0");
    assert_eq!(format_micro(1_000_000), "1");
    assert_eq!(format_micro(7_500_000), "7.5");
    assert_eq!(format_micro(2_350_000), "2.35");
    assert_eq!(format_micro(123), "0.000123");
}

#[test]
fn test_parse_micro_values() {
    assert_eq!(parse_micro("0"), Some(0));
    assert_eq!(parse_micro("7.5"), Some(7_500_000));
    assert_eq!(parse_micro("2.35"), Some(2_350_000));
    assert_eq!(parse_micro("0.0000009"), Some(0));
    assert_eq!(parse_micro("-3"), Some(0));
    assert_eq!(parse_micro("1.2.3"), None);
    assert_eq!(parse_micro(""), None);
    assert_eq!(parse_micro("abc"), None);
}

#[test]
fn test_micro_round_trip_values() {
    for x in [0u64, 1, 999_999, 1_000_000, 7_500_000, 18_750_000, 123_456_789] {
        assert_eq!(parse_micro(&format_micro(x)), Some(x));
    }
}
