use xidown::catalog::Task;
use xidown::get_video_list::VideoUrl;
use xidown::ledger::{part_key, Entry, Ledger};
use xidown::worker::{
    check_download, content_range_total, download, expected_size, next_job, resume_accepted,
    DownloadError, PartJob, TaskRun, MAX_RESUBMIT,
};

fn ep(id: u64, name: &str) -> VideoUrl {
    VideoUrl { title: "甲".into(), name: name.into(), url: String::new(), time: 0, id }
}

fn task(bv: &str) -> Task {
    Task { title: "甲".into(), bv: bv.into(), parts: vec![ep(1, "甲（1）"), ep(2, "甲（2）"), ep(3, "甲（3）")] }
}

fn entry(bv: &str) -> Entry {
    Entry { bv: bv.into(), part_title: "x".into(), title: "甲".into(), uploaded_at: 1 }
}

#[test]
fn a_new_archive_is_created_with_the_first_part() {
    let l = Ledger::new();
    assert!(matches!(next_job(&task(""), "", 0, &l), PartJob::Create(0)));
    let empty = Task { title: "甲".into(), bv: String::new(), parts: vec![] };
    assert!(matches!(next_job(&empty, "", 0, &l), PartJob::NoParts));
}

#[test]
fn parts_in_the_ledger_are_skipped() {
    let mut l = Ledger::new();
    l.record(part_key(&ep(2, "甲（2）")), entry("BV1"));
    assert!(matches!(next_job(&task("BV1"), "BV1", 1, &l), PartJob::Append(2)));
    l.record(part_key(&ep(3, "甲（3）")), entry("BV1"));
    assert!(matches!(next_job(&task("BV1"), "BV1", 1, &l), PartJob::Finished));
    // recorded for another archive: uploaded again
    assert!(matches!(next_job(&task("BV9"), "BV9", 1, &l), PartJob::Append(1)));
}

#[test]
fn a_rejected_archive_is_resubmitted_once() {
    let t = task("BV1");
    let mut run = TaskRun::new(&t);
    assert!(run.should_check_state());
    let mut l = Ledger::new();
    l.record(part_key(&ep(1, "甲（1）")), entry("BV1"));
    l.record(part_key(&ep(2, "甲（2）")), entry("BV2"));

    // a normal state: the failure stands
    assert!(!run.run_task(0, &mut l));
    assert_eq!(run.bv, "BV1");
    assert_eq!(l.len(), 2);

    // a dead state: forget the archive and start over without one
    assert!(run.run_task(-4, &mut l));
    assert_eq!(run.bv, "");
    assert_eq!(run.resubmits, MAX_RESUBMIT);
    assert_eq!(l.len(), 1);
    assert!(l.contains("id:1", None).is_none());
    assert!(!run.should_check_state());
}

#[test]
fn resuming() {
    assert!(resume_accepted(100, 206));
    assert!(!resume_accepted(100, 200));
    assert!(!resume_accepted(0, 206));
}

#[test]
fn sizes() {
    assert_eq!(content_range_total("bytes 100-999/1000"), Some(1000));
    assert_eq!(content_range_total("bytes 100-999/*"), None);
    assert_eq!(expected_size(true, 100, Some("bytes 100-999/1000".into()), Some(900)), 1000);
    assert_eq!(expected_size(true, 100, None, Some(900)), 1000);
    assert_eq!(expected_size(true, 100, Some("garbage".into()), None), 100);
    assert_eq!(expected_size(false, 100, Some("bytes 100-999/1000".into()), Some(900)), 900);
    assert_eq!(expected_size(false, 0, None, None), 0);
}

#[test]
fn downloads_are_checked() {
    assert!(check_download(1000, 1000).is_ok());
    assert!(check_download(0, 5).is_ok());
    assert!(matches!(check_download(1000, 999), Err(DownloadError::Incomplete { expected: 1000, written: 999 })));
    assert!(matches!(check_download(0, 0), Err(DownloadError::Empty)));
}

#[test]
fn download_retries() {
    let waits: Vec<Option<u64>> = (0..6).map(download).collect();
    assert_eq!(waits, vec![Some(15), Some(30), Some(60), Some(120), Some(120), None]);
}
