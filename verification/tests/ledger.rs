use xidown::get_video_list::VideoUrl;
use xidown::ledger::{part_key, Entry, Ledger, LedgerSource};
use xidown::worker::record;

fn url(id: u64, name: &str) -> VideoUrl {
    VideoUrl { title: "甲".into(), name: name.into(), url: String::new(), time: 0, id }
}

fn entry(bv: &str) -> Entry {
    Entry { bv: bv.into(), part_title: "x".into(), title: "甲".into(), uploaded_at: 1 }
}

/// Writes the ledger out and reads it back, as a save and a later load do.
fn reload(l: &Ledger) -> Ledger {
    match Ledger::load(LedgerSource::Parsed(l.entries())) {
        Ok(l) => l,
        Err(e) => panic!("{e}"),
    }
}

#[test]
fn test_part_key_prefers_stable_id() {
    assert_eq!(part_key(&url(42, "甲（1）")), "id:42");
    assert_eq!(part_key(&url(0, "甲（1）")), "name:甲（1）");
}

#[test]
fn test_record_survives_reload() {
    let key = part_key(&url(1, "甲（1）"));
    let e = Entry { bv: "BV1".into(), part_title: "甲（1）".into(), title: "甲".into(), uploaded_at: 1 };

    let mut l = Ledger::new();
    assert!(l.contains(&key, Some("BV1")).is_none());
    l.record(key.clone(), e);

    let l = reload(&l);
    assert!(l.contains(&key, Some("BV1")).is_some());
    assert!(l.contains(&key, Some("BV_other")).is_none());
}

#[test]
fn test_forget_archive() {
    let mut l = Ledger::new();
    for (i, bv) in [(1u64, "BV1"), (2, "BV1"), (3, "BV2")] {
        l.record(part_key(&url(i, "x")), entry(bv));
    }
    assert_eq!(l.forget_archive("BV1"), 2);
    assert!(l.contains("id:1", None).is_none());
    assert!(l.contains("id:2", None).is_none());
    assert!(l.contains("id:3", None).is_some());
}

#[test]
fn test_corrupt_ledger_does_not_abort() {
    let l = match Ledger::load(LedgerSource::Corrupt) {
        Ok(l) => l,
        Err(e) => panic!("{e}"),
    };
    assert!(l.contains("id:1", None).is_none());
}

#[test]
fn missing_ledger_is_empty_and_unreadable_one_is_an_error() {
    match Ledger::load(LedgerSource::Missing) {
        Ok(l) => assert_eq!(l.len(), 0),
        Err(e) => panic!("{e}"),
    }
    match Ledger::load(LedgerSource::ReadFailed("permission denied".into())) {
        Ok(_) => panic!("an unreadable ledger must not load"),
        Err(e) => assert_eq!(e, "permission denied"),
    }
}

#[test]
fn record_replaces_and_later_pairs_win_on_load() {
    let mut l = Ledger::new();
    l.record("id:1".into(), entry("BV1"));
    l.record("id:1".into(), entry("BV2"));
    assert_eq!(l.len(), 1);
    assert_eq!(l.contains("id:1", None).map(|e| e.bv), Some("BV2".to_string()));

    let pairs = vec![("id:7".to_string(), entry("BV_a")), ("id:7".to_string(), entry("BV_b"))];
    let l = match Ledger::load(LedgerSource::Parsed(pairs)) {
        Ok(l) => l,
        Err(e) => panic!("{e}"),
    };
    assert_eq!(l.len(), 1);
    assert_eq!(l.contains("id:7", None).map(|e| e.bv), Some("BV_b".to_string()));
}

#[test]
fn contains_with_an_empty_expected_archive_accepts_any() {
    let mut l = Ledger::new();
    l.record("id:1".into(), entry("BV1"));
    assert!(l.contains("id:1", Some("")).is_some());
    assert!(l.contains("id:2", Some("")).is_none());
}

#[test]
fn record_then_contains_and_keeps_others() {
    let mut l = Ledger::new();
    l.record("id:2".into(), entry("BV9"));
    record(&mut l, "甲", &url(5, "甲（5）"), "BV1", "甲（5）", 77);
    let e = l.contains("id:5", Some("BV1")).expect("just recorded");
    assert_eq!(e.bv, "BV1");
    assert_eq!(e.part_title, "甲（5）");
    assert_eq!(e.title, "甲");
    assert_eq!(e.uploaded_at, 77);
    assert_eq!(l.contains("id:2", None).map(|e| e.bv), Some("BV9".to_string()));
    assert_eq!(l.forget_archive("BV_none"), 0);
    assert_eq!(l.len(), 2);
}
