use ringo_srs::models::{AppError, LearningItem, SrsDatabase, Status, Timestamp};
use ringo_srs::storage::{load, load_existing, save, self_heal};

fn ts(secs: i64) -> Timestamp {
    Timestamp { secs, nanos: 0 }
}

fn sample_item() -> LearningItem {
    LearningItem {
        id: "test_001".to_string(),
        item_type: "word".to_string(),
        front: "test".to_string(),
        back: "テスト".to_string(),
        context: None,
        context_ja: None,
        source: None,
        created_at: ts(1_700_000_000),
        last_quizzed: None,
        next_review: ts(1_700_086_400),
        times_quizzed: 0,
        times_correct: 0,
        ease_micro: 2_500_000,
        interval_micro: 0,
        status: Status::New,
        extra: Vec::new(),
    }
}

#[test]
fn test_round_trip() {
    let mut db = SrsDatabase::new(ts(1_700_000_000));
    db.items.push(sample_item());
    let text = save(&mut db, ts(1_700_000_100)).unwrap();

    let loaded = load(Some(&text), ts(1_700_000_200)).unwrap();
    assert_eq!(loaded.items.len(), 1);
    assert_eq!(loaded.items[0].front, "test");
}

#[test]
fn test_round_trip_all_fields() {
    let mut db = SrsDatabase::new(ts(1_700_000_000));
    let mut it = sample_item();
    it.context = Some("a test sentence".to_string());
    it.context_ja = Some("テスト文".to_string());
    it.source = Some("somewhere".to_string());
    it.last_quizzed = Some(Timestamp { secs: 1_700_000_050, nanos: 123_000_000 });
    it.times_quizzed = 7;
    it.times_correct = 5;
    it.ease_micro = 2_350_000;
    it.interval_micro = 7_500_000;
    it.status = Status::Reviewing;
    it.extra.push(("custom_number".to_string(), "42".to_string()));
    it.extra.push(("custom_text".to_string(), "\"hello\"".to_string()));
    db.items.push(it);

    let text = save(&mut db, ts(1_700_000_100)).unwrap();
    let loaded = load(Some(&text), ts(1_700_000_200)).unwrap();
    assert_eq!(loaded.version, "1.0");
    assert_eq!(loaded.last_updated, Some(ts(1_700_000_100)));
    assert_eq!(loaded.items.len(), 1);
    let l = &loaded.items[0];
    assert_eq!(l.id, "test_001");
    assert_eq!(l.item_type, "word");
    assert_eq!(l.front, "test");
    assert_eq!(l.back, "テスト");
    assert_eq!(l.context, Some("a test sentence".to_string()));
    assert_eq!(l.context_ja, Some("テスト文".to_string()));
    assert_eq!(l.source, Some("somewhere".to_string()));
    assert_eq!(l.created_at, ts(1_700_000_000));
    assert_eq!(l.last_quizzed, Some(Timestamp { secs: 1_700_000_050, nanos: 123_000_000 }));
    assert_eq!(l.next_review, ts(1_700_086_400));
    assert_eq!(l.times_quizzed, 7);
    assert_eq!(l.times_correct, 5);
    assert_eq!(l.ease_micro, 2_350_000);
    assert_eq!(l.interval_micro, 7_500_000);
    assert_eq!(l.status, Status::Reviewing);
    assert_eq!(l.extra.len(), 2);
    assert!(l.extra.contains(&("custom_number".to_string(), "42".to_string())));
    assert!(l.extra.contains(&("custom_text".to_string(), "\"hello\"".to_string())));
}

#[test]
fn test_load_nonexistent_returns_empty() {
    let db = load(None, ts(1_700_000_000)).unwrap();
    assert_eq!(db.items.len(), 0);
    assert_eq!(db.version, "1.0");
}

#[test]
fn test_load_existing_nonexistent_returns_error() {
    let result = load_existing(None, "data/learning-items.json");
    assert!(matches!(result, Err(AppError::NoDataFile(_))));
}

#[test]
fn test_load_rejects_malformed_text() {
    let result = load(Some("{ not json"), ts(0));
    assert!(matches!(result, Err(AppError::JsonError(_))));
    let result2 = load(Some("{\"items\": [{\"front\": \"x\"}]}"), ts(0));
    assert!(matches!(result2, Err(AppError::JsonError(_))));
}

#[test]
fn test_self_heal_ease_factor() {
    let mut db = SrsDatabase::new(ts(1_700_000_000));
    let mut item = sample_item();
    item.ease_micro = 500_000;
    db.items.push(item);
    let text = save(&mut db, ts(1_700_000_100)).unwrap();

    let loaded = load(Some(&text), ts(1_700_000_200)).unwrap();
    assert!(loaded.items[0].ease_micro >= 1_300_000);
}

#[test]
fn test_self_heal_times_correct() {
    let mut db = SrsDatabase::new(ts(1_700_000_000));
    let mut item = sample_item();
    item.times_quizzed = 3;
    item.times_correct = 5;
    db.items.push(item);
    let text = save(&mut db, ts(1_700_000_100)).unwrap();

    let loaded = load(Some(&text), ts(1_700_000_200)).unwrap();
    assert_eq!(loaded.items[0].times_correct, loaded.items[0].times_quizzed);
}

#[test]
fn test_self_heal_recomputes_status() {
    let mut db = SrsDatabase::new(ts(1_700_000_000));
    let mut item = sample_item();
    item.interval_micro = 10_000_000;
    item.status = Status::New;
    db.items.push(item);
    self_heal(&mut db);
    assert_eq!(db.items[0].status, Status::Reviewing);
}

#[test]
fn test_repair_twice_is_byte_identical() {
    let mut db = SrsDatabase::new(ts(1_700_000_000));
    let mut item = sample_item();
    item.ease_micro = 100_000;
    item.times_quizzed = 2;
    item.times_correct = 9;
    item.interval_micro = 8_000_000;
    db.items.push(item);
    self_heal(&mut db);
    let once = save(&mut db, ts(1_700_000_100)).unwrap();
    self_heal(&mut db);
    let twice = save(&mut db, ts(1_700_000_100)).unwrap();
    assert_eq!(once, twice);
}

#[test]
fn test_round_trip_existing_data() {
    let json = r#"{
  "version": "1.0",
  "last_updated": "2026-02-04T12:00:00Z",
  "items": [
    {
      "id": "item_20260204_120001_001",
      "type": "grammar",
      "front": "apparently の位置（文頭・文中どちらもOK）",
      "back": "Apparently, he is busy. / He is apparently busy. どちらも正しい",
      "context": "Apparently, he is busy. = He is apparently busy.",
      "context_ja": "どうやら彼は忙しいらしい（どちらの語順も可）",
      "source": "ringo-explain",
      "created_at": "2026-02-04T12:00:01Z",
      "last_quizzed": null,
      "next_review": "2026-02-05T12:00:00Z",
      "times_quizzed": 0,
      "times_correct": 0,
      "ease_factor": 2.5,
      "interval_days": 0,
      "status": "new"
    }
  ]
}"#;
    let mut db = load(Some(json), ts(1_700_000_000)).unwrap();
    assert_eq!(db.items.len(), 1);
    assert_eq!(db.items[0].item_type, "grammar");
    assert_eq!(db.items[0].ease_micro, 2_500_000);
    assert_eq!(db.items[0].interval_micro, 0);

    let text = save(&mut db, ts(1_700_000_100)).unwrap();

    let reloaded = load(Some(&text), ts(1_700_000_200)).unwrap();
    assert_eq!(reloaded.items.len(), 1);
    assert_eq!(reloaded.items[0].id, "item_20260204_120001_001");
    assert_eq!(reloaded.items[0].item_type, "grammar");
}

#[test]
fn test_round_trip_preserves_extra_fields() {
    let json = r#"{
  "version": "1.0",
  "items": [
    {
      "id": "item_001",
      "type": "word",
      "front": "hello",
      "back": "こんにちは",
      "created_at": "2026-02-04T12:00:00Z",
      "next_review": "2026-02-05T12:00:00Z",
      "my_custom_field": "keep me",
      "my_custom_count": 3
    }
  ]
}"#;
    let mut db = load(Some(json), ts(1_700_000_000)).unwrap();
    assert_eq!(db.items[0].extra.len(), 2);
    let text = save(&mut db, ts(1_700_000_100)).unwrap();
    assert!(text.contains("my_custom_field"));
    assert!(text.contains("keep me"));
    assert!(text.contains("my_custom_count"));

    let reloaded = load(Some(&text), ts(1_700_000_200)).unwrap();
    assert_eq!(reloaded.items[0].extra, db.items[0].extra);
}

#[test]
fn test_round_trip_subsecond_instants() {
    let mut db = SrsDatabase::new(ts(1_700_000_000));
    let mut it = sample_item();
    it.created_at = Timestamp { secs: 1_700_000_000, nanos: 123_456_789 };
    db.items.push(it);
    let text = save(&mut db, ts(1_700_000_100)).unwrap();
    let loaded = load(Some(&text), ts(1_700_000_200)).unwrap();
    assert_eq!(loaded.items[0].created_at, Timestamp { secs: 1_700_000_000, nanos: 123_456_789 });
}

#[test]
fn test_save_stamps_last_updated() {
    let mut db = SrsDatabase::new(ts(5));
    let _ = save(&mut db, ts(99)).unwrap();
    assert_eq!(db.last_updated, Some(ts(99)));
}

#[test]
fn test_load_parses_fractional_numbers() {
    let json = r#"{
  "items": [
    {
      "id": "a",
      "type": "word",
      "front": "f",
      "back": "b",
      "created_at": "2026-02-04T12:00:00Z",
      "next_review": "2026-02-05T12:00:00Z",
      "ease_factor": 2.35,
      "interval_days": 7.5,
      "times_quizzed": 4,
      "times_correct": 2
    }
  ]
}"#;
    let db = load(Some(json), ts(0)).unwrap();
    assert_eq!(db.items[0].ease_micro, 2_350_000);
    assert_eq!(db.items[0].interval_micro, 7_500_000);
    assert_eq!(db.items[0].times_quizzed, 4);
}
