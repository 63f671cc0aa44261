use xidown::bili::{
    backoff_secs, check_account, cookie_header, find_archive_by_title, part_titles,
    parts_to_append, piece_len, rate_limit_wait, retry_http, search_hits, short_label,
    state_is_dead, submit_new, upload_part, wait_until_queryable, ArchiveMeta, QueryWait,
    SubmitAction, SubmitEvent, SubmitFailure, SubmitPhase, SubmitState, HTTP_ATTEMPTS,
    MAX_QUERY_WAIT, UPLOAD_ATTEMPTS,
};
use xidown::config::{DESC, SOURCE, TAG, TID};

fn some(s: &str) -> Option<String> {
    Some(s.to_string())
}

#[test]
fn dead_states() {
    for s in [-2, -3, -4, -5, -12, -16, -100] {
        assert!(state_is_dead(s), "{s}");
    }
    for s in [0, 1, -1, -6, -30, -40] {
        assert!(!state_is_dead(s), "{s}");
    }
}

#[test]
fn short_labels() {
    assert_eq!(short_label("白蛇传（1） 斗阵来看戏 2024.01.01"), "白蛇传（1）");
    assert_eq!(short_label("斗阵来看戏 特别节目"), "斗阵来看戏 特别节目");
    assert_eq!(short_label(&"字".repeat(30)), "字".repeat(16));
}

#[test]
fn archive_meta_for_a_play() {
    let m = ArchiveMeta::for_play("白蛇传");
    assert_eq!(m.title, "白蛇传 斗阵来看戏");
    assert_eq!(m.tid, TID);
    assert_eq!(m.tag, TAG);
    assert_eq!(m.source, SOURCE);
    assert_eq!(m.desc, DESC);
    assert_eq!(m.copyright, 2);
}

#[test]
fn account_check() {
    assert_eq!(check_account(some("老王"), Some(42)), some("老王"));
    assert_eq!(check_account(some(""), Some(42)), None);
    assert_eq!(check_account(some("老王"), Some(0)), None);
    assert_eq!(check_account(None, Some(42)), None);
    assert_eq!(check_account(some("老王"), None), None);
}

#[test]
fn backoff_doubles_up_to_the_cap() {
    assert_eq!(backoff_secs(10, 0, 4), 10);
    assert_eq!(backoff_secs(10, 3, 4), 80);
    assert_eq!(backoff_secs(10, 9, 4), 160);
    assert_eq!(backoff_secs(1, 7, 5), 32);
}

#[test]
fn throttles() {
    assert_eq!(rate_limit_wait(true, "anything"), Some(300));
    assert_eq!(rate_limit_wait(false, "code: -702"), Some(120));
    assert_eq!(rate_limit_wait(false, "请求频率过高"), Some(120));
    assert_eq!(rate_limit_wait(false, "timeout"), None);
}

#[test]
fn http_retries() {
    assert_eq!(retry_http(0, HTTP_ATTEMPTS, None), Some(1));
    assert_eq!(retry_http(3, HTTP_ATTEMPTS, None), Some(8));
    assert_eq!(retry_http(2, HTTP_ATTEMPTS, Some(120)), Some(120));
    assert_eq!(retry_http(HTTP_ATTEMPTS - 1, HTTP_ATTEMPTS, None), None);
    assert_eq!(retry_http(7, 9, None), Some(32));
    assert_eq!(retry_http(0, 0, None), None);
}

#[test]
fn upload_retries() {
    assert_eq!(upload_part(0, false), Some(10));
    assert_eq!(upload_part(2, false), Some(40));
    assert_eq!(upload_part(1, true), Some(300));
    assert_eq!(upload_part(UPLOAD_ATTEMPTS - 1, false), None);
}

#[test]
fn part_titles_skip_non_strings() {
    assert_eq!(part_titles(vec![some("甲（1）"), None, some("甲（2）")]), vec!["甲（1）", "甲（2）"]);
}

#[test]
fn archive_search() {
    let hits = vec![
        ("BV_a".to_string(), "白蛇传 斗阵来看戏 续".to_string()),
        ("BV_b".to_string(), "白蛇传 斗阵来看戏".to_string()),
        ("BV_c".to_string(), "白蛇传 斗阵来看戏".to_string()),
    ];
    assert_eq!(find_archive_by_title(&hits, "白蛇传 斗阵来看戏"), some("BV_b"));
    assert_eq!(find_archive_by_title(&hits, "陈三五娘 斗阵来看戏"), None);

    let got = search_hits(Some(0), vec![(some("BV1"), some("t1")), (None, some("t2")), (some("BV3"), None)]);
    assert_eq!(got, Some(vec![("BV1".to_string(), "t1".to_string())]));
    assert_eq!(search_hits(Some(-101), vec![(some("BV1"), some("t1"))]), None);
    assert_eq!(search_hits(None, vec![]), None);
}

#[test]
fn cookie_header_joins_complete_cookies() {
    let cookies = vec![(some("SESSDATA"), some("abc")), (None, some("x")), (some("bili_jct"), some("def"))];
    assert_eq!(cookie_header(&cookies), "SESSDATA=abc; bili_jct=def");
    assert_eq!(cookie_header(&vec![]), "");
}

#[test]
fn parts_already_in_the_archive_are_not_appended() {
    let parts = vec![(some("甲（1）"), 1), (None, 2), (some("甲（2）"), 3)];
    let kept = parts_to_append(parts, &vec!["甲（1）".to_string()]);
    let ids: Vec<i32> = kept.iter().map(|p| p.1).collect();
    assert_eq!(ids, vec![2, 3]);
}

fn step(s: SubmitState, e: SubmitEvent) -> (SubmitState, SubmitAction) {
    submit_new(s, e)
}

#[test]
fn submission_searches_before_submitting() {
    let (s, a) = step(SubmitState::new(), SubmitEvent::Begin);
    assert!(matches!(a, SubmitAction::Search));
    let (s, a) = step(s, SubmitEvent::SearchEmpty);
    assert!(matches!(a, SubmitAction::Submit));
    let (s, a) = step(s, SubmitEvent::SubmitFailed { rate_limited: false });
    assert!(matches!(a, SubmitAction::Wait(10)));
    assert_eq!(s.attempt, 1);
    let (s, a) = step(s, SubmitEvent::Waited);
    assert!(matches!(a, SubmitAction::Search));
    // the lost answer had gone through: the search finds the archive
    let (s, a) = step(s, SubmitEvent::SearchFound("BV_x".into()));
    assert!(matches!(a, SubmitAction::Done(ref b) if b == "BV_x"));
    assert!(matches!(s.phase, SubmitPhase::Finished));
}

#[test]
fn submission_gives_up_after_the_last_attempt() {
    let (mut s, _) = step(SubmitState::new(), SubmitEvent::Begin);
    let mut submits = 0;
    loop {
        let (t, a) = step(s, SubmitEvent::SearchFailed);
        assert!(matches!(a, SubmitAction::Submit));
        submits += 1;
        let (t, a) = step(t, SubmitEvent::SubmitFailed { rate_limited: true });
        match a {
            SubmitAction::Wait(w) => {
                assert_eq!(w, 300);
                let (t, _) = step(t, SubmitEvent::Waited);
                s = t;
            }
            SubmitAction::Fail(SubmitFailure::Exhausted) => break,
            _ => panic!("unexpected action"),
        }
    }
    assert_eq!(submits, UPLOAD_ATTEMPTS);
}

#[test]
fn submission_answers() {
    let (s, _) = step(SubmitState::new(), SubmitEvent::Begin);
    let (s, _) = step(s, SubmitEvent::SearchEmpty);
    let (_, a) = step(s, SubmitEvent::Submitted(None));
    assert!(matches!(a, SubmitAction::Fail(SubmitFailure::MissingBv)));

    let (s, _) = step(SubmitState::new(), SubmitEvent::Begin);
    let (s, _) = step(s, SubmitEvent::SearchEmpty);
    let (_, a) = step(s, SubmitEvent::Submitted(some("BV_new")));
    assert!(matches!(a, SubmitAction::Done(ref b) if b == "BV_new"));
}

#[test]
fn waiting_for_a_new_archive() {
    let (w, next) = wait_until_queryable(false, 0, 5, 60_000);
    assert!(matches!(w, QueryWait::Sleep(5)));
    assert_eq!(next, 10);
    let (w, next) = wait_until_queryable(false, 10_000, 20, 60_000);
    assert!(matches!(w, QueryWait::Sleep(20)));
    assert_eq!(next, MAX_QUERY_WAIT);
    let (w, _) = wait_until_queryable(false, 55_000, 10, 60_000);
    assert!(matches!(w, QueryWait::TimedOut));
    let (w, _) = wait_until_queryable(true, 99_000, 10, 60_000);
    assert!(matches!(w, QueryWait::Ready));
}

#[test]
fn upload_stream_pieces() {
    assert_eq!(piece_len(0), None);
    assert_eq!(piece_len(100), Some(100));
    assert_eq!(piece_len(4096), Some(4096));
    assert_eq!(piece_len(10_000), Some(4096));
}

#[test]
fn upload_pieces_cover_the_chunk() {
    for n in [0usize, 1, 4095, 4096, 4097, 10_000, 8192] {
        let mut rest = n;
        let mut sizes = Vec::new();
        while let Some(k) = piece_len(rest) {
            sizes.push(k);
            rest -= k;
        }
        assert_eq!(sizes.iter().sum::<usize>(), n);
        assert_eq!(sizes.len(), (n + 4095) / 4096);
        if let Some((last, init)) = sizes.split_last() {
            assert!(init.iter().all(|&k| k == 4096));
            assert!((1..=4096).contains(last));
        }
    }
}

#[test]
fn backoff_takes_any_wait_that_fits() {
    assert_eq!(backoff_secs(1, 40, 40), 1u64 << 40);
    assert_eq!(backoff_secs(0, 100, 100), 0);
    assert_eq!(backoff_secs(3, 70, 62), 3u64 << 62);
}
