//! The decisions around every bilibili call: how long to back off, when to give up,
//! when a submission must not be repeated, and what a response means.
//!
//! The calls themselves are made by the caller, which reports each outcome to the
//! functions here and does what they answer.
use crate::catalog::has_title;
use crate::config::{keyword, keyword_chars, truncated, DESC, SOURCE, TAG, TID};
use crate::text::{
    chars_of, contains_chars, contains_text, first_piece, first_piece_chars, joined,
    lemma_joined_push, push_str_chars, same_text, string_of, take_chars, trim, trim_chars,
};
use vstd::prelude::*;

verus! {

/// Archive states that mean the archive is beyond repair and must be submitted anew.
pub open spec fn dead_state(state: i64) -> bool {
    state == -2 || state == -3 || state == -4 || state == -5 || state == -12 || state == -16
        || state == -100
}

/// Whether an archive in this state is beyond repair.
pub fn state_is_dead(state: i64) -> (r: bool)
    ensures
        r == dead_state(state),
{
    state == -2 || state == -3 || state == -4 || state == -5 || state == -12 || state == -16
        || state == -100
}

/// The label shown on a progress bar: the play part of `name` (before the programme
/// name, trimmed; all of `name` if that is empty), at most 16 characters.
pub open spec fn label_of(name: Seq<char>) -> Seq<char> {
    let head = trim(first_piece(name, keyword()));
    let base = if head.len() == 0 {
        name
    } else {
        head
    };
    base.take(if base.len() <= 16 { base.len() as int } else { 16 })
}

/// A short label for progress bars, so that long titles do not wrap the line.
pub fn short_label(name: &str) -> (r: String)
    ensures
        r@ == label_of(name@),
        r@.len() <= 16,
{
    let v = chars_of(name);
    let kw = keyword_chars();
    let head = trim_chars(&first_piece_chars(&v, &kw));
    let base = if head.len() == 0 {
        v
    } else {
        head
    };
    let r = take_chars(&base, 16);
    string_of(&r)
}

/// What a new archive is submitted with.
pub struct ArchiveMeta {
    pub title: String,
    pub tid: u16,
    pub tag: String,
    pub source: String,
    pub desc: String,
    pub copyright: u8,
}

/// `play` followed by a space and the programme name.
pub open spec fn archive_title_of(play: Seq<char>) -> Seq<char> {
    play + seq![' '] + keyword()
}

impl ArchiveMeta {
    /// The archive for a play: titled `{play} 斗阵来看戏`, in the opera zone, marked as
    /// a repost of XMTV.
    pub fn for_play(play: &str) -> (m: ArchiveMeta)
        ensures
            m.title@ == archive_title_of(play@),
            m.tid == TID,
            m.tag@ == TAG@,
            m.source@ == SOURCE@,
            m.desc@ == DESC@,
            m.copyright == 2,
    {
        let mut t = chars_of(play);
        t.push(' ');
        let kw = keyword_chars();
        let ghost t0 = t@;
        let mut i: usize = 0;
        while i < kw.len()
            invariant
                i <= kw@.len(),
                t@ == t0 + kw@.take(i as int),
            decreases kw@.len() - i,
        {
            t.push(kw[i]);
            i = i + 1;
            assert(t@ =~= t0 + kw@.take(i as int));
        }
        assert(kw@.take(kw@.len() as int) =~= kw@);
        ArchiveMeta {
            title: string_of(&t),
            tid: TID,
            tag: TAG.to_string(),
            source: SOURCE.to_string(),
            desc: DESC.to_string(),
            copyright: 2,
        }
    }
}

/// The account behind the cookie is usable when it has a name and a nonzero mid.
pub open spec fn account_ok(name: Seq<char>, mid: i64) -> bool {
    name.len() > 0 && mid != 0
}

/// Checks the account information that the login probe returned (a missing name
/// counts as empty, a missing mid as 0): the account name when both are present,
/// `None` when the cookie has most likely expired.
pub fn check_account(name: Option<String>, mid: Option<i64>) -> (r: Option<String>)
    ensures
        match (name, mid) {
            (Some(n), Some(m)) => if account_ok(n@, m) {
                r matches Some(s) && s@ == n@
            } else {
                r is None
            },
            _ => r is None,
        },
{
    match (name, mid) {
        (Some(n), Some(m)) => {
            let v = chars_of(n.as_str());
            if v.len() > 0 && m != 0 {
                Some(n)
            } else {
                None
            }
        },
        _ => None,
    }
}

/// `2^e`.
pub open spec fn pow2(e: nat) -> nat
    decreases e,
{
    if e == 0 {
        1
    } else {
        2 * pow2((e - 1) as nat)
    }
}

proof fn lemma_pow2_mono(a: nat, b: nat)
    requires
        a <= b,
    ensures
        pow2(a) <= pow2(b),
    decreases b,
{
    if a < b {
        lemma_pow2_mono(a, (b - 1) as nat);
    }
}

fn pow2_exec(e: u32) -> (r: u64)
    requires
        pow2(e as nat) <= u64::MAX,
    ensures
        r == pow2(e as nat),
{
    let mut r: u64 = 1;
    let mut i: u32 = 0;
    while i < e
        invariant
            i <= e,
            r == pow2(i as nat),
            pow2(e as nat) <= u64::MAX,
        decreases e - i,
    {
        proof {
            lemma_pow2_mono((i + 1) as nat, e as nat);
        }
        r = r * 2;
        i = i + 1;
    }
    r
}

/// The back-off before retry number `attempt + 1`: `base * 2^min(attempt, cap)`
/// seconds.
pub open spec fn backoff(base: u64, attempt: nat, cap: nat) -> nat {
    (base * pow2(if attempt <= cap { attempt } else { cap })) as nat
}

/// The back-offs used here are small: with a cap of at most 8 and a base of at most
/// 1000 seconds, no wait exceeds 256000 seconds.
pub proof fn lemma_backoff_small(base: u64, attempt: nat, cap: nat)
    requires
        cap <= 8,
        base <= 1000,
    ensures
        backoff(base, attempt, cap) <= 256000,
{
    let e: nat = if attempt <= cap { attempt } else { cap };
    lemma_pow2_mono(e, 8);
    reveal_with_fuel(pow2, 9);
    assert(pow2(8) == 256);
    let p = pow2(e);
    assert(base * p <= 256000) by (nonlinear_arith)
        requires
            base <= 1000,
            p <= 256,
    ;
}

/// Computes `backoff`; the wait must fit in a `u64`.
pub fn backoff_secs(base: u64, attempt: usize, cap: u32) -> (r: u64)
    requires
        backoff(base, attempt as nat, cap as nat) <= u64::MAX,
    ensures
        r == backoff(base, attempt as nat, cap as nat),
{
    if base == 0 {
        let ghost pe = pow2(if attempt <= cap { attempt as nat } else { cap as nat });
        assert(base * pe == 0) by (nonlinear_arith)
            requires
                base == 0,
        ;
        return 0;
    }
    let e: u32 = if attempt <= cap as usize {
        attempt as u32
    } else {
        cap
    };
    let ghost pe = pow2(e as nat);
    assert(pe <= base * pe) by (nonlinear_arith)
        requires
            base >= 1,
    ;
    let p = pow2_exec(e);
    base * p
}

/// Attempts made by `retry_http` before it gives up.
pub const HTTP_ATTEMPTS: usize = 5;

/// Attempts for one file upload, and for one submission.
pub const UPLOAD_ATTEMPTS: usize = 4;

/// Attempts for one download.
pub const DOWNLOAD_ATTEMPTS: usize = 6;

/// How long to wait when bilibili throttles: five minutes for an upload throttle
/// (`rate_limited`), two minutes for the creative-center throttle, which comes as an
/// ordinary error whose text holds `-702` or `请求频率过高`; `None` for other errors.
pub open spec fn throttle_wait(rate_limited: bool, message: Seq<char>) -> Option<u64> {
    if rate_limited {
        Some(300)
    } else if contains_text(message, seq!['-', '7', '0', '2']) || contains_text(
        message,
        seq!['请', '求', '频', '率', '过', '高'],
    ) {
        Some(120)
    } else {
        None
    }
}

/// How long to back off after an error, if it is a throttle.
pub fn rate_limit_wait(rate_limited: bool, message: &str) -> (r: Option<u64>)
    ensures
        r == throttle_wait(rate_limited, message@),
{
    if rate_limited {
        return Some(300);
    }
    let m = chars_of(message);
    let code: Vec<char> = vec!['-', '7', '0', '2'];
    let text: Vec<char> = vec!['请', '求', '频', '率', '过', '高'];
    assert(code@ =~= seq!['-', '7', '0', '2']);
    assert(text@ =~= seq!['请', '求', '频', '率', '过', '高']);
    if contains_chars(&m, &code) || contains_chars(&m, &text) {
        Some(120)
    } else {
        None
    }
}

/// After failed attempt `attempt` (counted from 0) of `attempts`: the seconds to wait
/// before trying again, or `None` when that was the last attempt. A throttle waits as
/// `throttle_wait` says; any other error waits `2^min(attempt, 5)` seconds.
pub open spec fn http_retry_wait(attempt: nat, attempts: nat, throttle: Option<u64>) -> Option<nat> {
    if attempt + 1 < attempts {
        match throttle {
            Some(w) => Some(w as nat),
            None => Some(backoff(1, attempt, 5)),
        }
    } else {
        None
    }
}

/// The retry decision of `retry_http` after a failed attempt.
pub fn retry_http(attempt: usize, attempts: usize, throttle: Option<u64>) -> (r: Option<u64>)
    ensures
        match r {
            Some(w) => http_retry_wait(attempt as nat, attempts as nat, throttle) == Some(w as nat),
            None => http_retry_wait(attempt as nat, attempts as nat, throttle) is None,
        },
{
    if attempt < attempts && attempts - attempt > 1 {
        match throttle {
            Some(w) => Some(w),
            None => {
                proof {
                    lemma_backoff_small(1, attempt as nat, 5);
                }
                Some(backoff_secs(1, attempt, 5))
            },
        }
    } else {
        None
    }
}

/// After failed attempt `attempt` of an upload or a submission: five minutes for an
/// upload throttle, otherwise `10 * 2^min(attempt, 4)` seconds; `None` after the last of
/// `UPLOAD_ATTEMPTS`.
pub open spec fn upload_retry_wait(attempt: nat, rate_limited: bool) -> Option<nat> {
    if attempt + 1 < UPLOAD_ATTEMPTS {
        if rate_limited {
            Some(300)
        } else {
            Some(backoff(10, attempt, 4))
        }
    } else {
        None
    }
}

/// The retry decision of `upload_part` after a failed attempt.
pub fn upload_part(attempt: usize, rate_limited: bool) -> (r: Option<u64>)
    ensures
        match r {
            Some(w) => upload_retry_wait(attempt as nat, rate_limited) == Some(w as nat),
            None => upload_retry_wait(attempt as nat, rate_limited) is None,
        },
{
    if attempt < UPLOAD_ATTEMPTS - 1 {
        if rate_limited {
            Some(300)
        } else {
            proof {
                lemma_backoff_small(10, attempt as nat, 4);
            }
            Some(backoff_secs(10, attempt, 4))
        }
    } else {
        None
    }
}

/// The part titles that a video-data response lists (titles that are not strings
/// are skipped).
pub fn part_titles(titles: Vec<Option<String>>) -> (r: Vec<String>)
    ensures
        r@.map_values(|s: String| s@) == titles@.filter_map(
            |o: Option<String>|
                match o {
                    Some(s) => Some(s@),
                    None => None,
                },
        ),
{
    let ghost f = |o: Option<String>|
        match o {
            Some(s) => Some(s@),
            None => None,
        };
    let ghost all = titles@;
    let mut rest = titles;
    let n = rest.len();
    let mut r: Vec<String> = Vec::new();
    let mut i: usize = 0;
    assert(all.skip(0) =~= all);
    while i < n
        invariant
            n == all.len(),
            i <= n,
            rest@ == all.skip(i as int),
            f == (|o: Option<String>|
                match o {
                    Some(s) => Some(s@),
                    None => None,
                }),
            r@.map_values(|s: String| s@) == all.take(i as int).filter_map(f),
        decreases n - i,
    {
        let o = rest.remove(0);
        assert(o == all[i as int]);
        assert(rest@ =~= all.skip(i + 1));
        proof {
            all.lemma_filter_map_take_succ(f, i as int);
        }
        let ghost before = r@;
        match o {
            Some(s) => {
                r.push(s);
                assert(r@.map_values(|s: String| s@) =~= before.map_values(|s: String| s@).push(r@.last()@));
            },
            None => {},
        }
        i = i + 1;
    }
    assert(all.take(n as int) =~= all);
    r
}

/// `name=value` for each cookie of the login that has both a name and a value.
pub open spec fn cookie_pairs(cookies: Seq<(Option<String>, Option<String>)>) -> Seq<Seq<char>> {
    cookies.filter_map(
        |p: (Option<String>, Option<String>)|
            match p {
                (Some(n), Some(v)) => Some(n@ + seq!['='] + v@),
                _ => None,
            },
    )
}

/// The `Cookie` header sent with a creative-center search: the cookies of the login
/// that have both a name and a value, as `name=value`, separated by "; ".
pub fn cookie_header(cookies: &Vec<(Option<String>, Option<String>)>) -> (r: String)
    ensures
        r@ == joined(cookie_pairs(cookies@), seq![';', ' ']),
{
    let ghost f = |p: (Option<String>, Option<String>)|
        match p {
            (Some(n), Some(v)) => Some(n@ + seq!['='] + v@),
            _ => None,
        };
    let ghost sep = seq![';', ' '];
    let mut r: Vec<char> = Vec::new();
    let mut any = false;
    let mut i: usize = 0;
    while i < cookies.len()
        invariant
            i <= cookies@.len(),
            f == (|p: (Option<String>, Option<String>)|
                match p {
                    (Some(n), Some(v)) => Some(n@ + seq!['='] + v@),
                    _ => None,
                }),
            sep == seq![';', ' '],
            any == (cookies@.take(i as int).filter_map(f).len() > 0),
            r@ == joined(cookies@.take(i as int).filter_map(f), sep),
        decreases cookies@.len() - i,
    {
        proof {
            cookies@.lemma_filter_map_take_succ(f, i as int);
        }
        let ghost before = cookies@.take(i as int).filter_map(f);
        let p = &cookies[i];
        assert(*p == cookies@[i as int]);
        match p {
            (Some(n), Some(v)) => {
                proof {
                    lemma_joined_push(before, sep, n@ + seq!['='] + v@);
                }
                if any {
                    r.push(';');
                    r.push(' ');
                }
                push_str_chars(&mut r, n.as_str());
                r.push('=');
                push_str_chars(&mut r, v.as_str());
                any = true;
                assert(r@ =~= joined(before.push(n@ + seq!['='] + v@), sep));
                assert(before + seq![n@ + seq!['='] + v@] =~= before.push(n@ + seq!['='] + v@));
            },
            _ => {
                assert(f(cookies@[i as int]) is None);
                assert(before + Seq::<Seq<char>>::empty() =~= before);
            },
        }
        i = i + 1;
    }
    assert(cookies@.take(cookies@.len() as int) =~= cookies@);
    string_of(&r)
}

/// Whether a part titled `title` is already among the archive's part titles.
pub open spec fn already_there(title: Option<String>, existing: Seq<Seq<char>>) -> bool {
    match title {
        Some(t) => existing.contains(t@),
        None => false,
    }
}

/// The parts still to append to an archive: each part comes with its title, and those
/// whose title is among `existing` (the titles of the archive's parts) are dropped. A
/// part without a title is kept. The order is kept.
pub fn parts_to_append<T>(parts: Vec<(Option<String>, T)>, existing: &Vec<String>) -> (r: Vec<(Option<String>, T)>)
    ensures
        r@ == parts@.filter(
            |p: (Option<String>, T)| !already_there(p.0, existing@.map_values(|s: String| s@)),
        ),
{
    let ghost ev = existing@.map_values(|s: String| s@);
    let ghost keep = |p: (Option<String>, T)| !already_there(p.0, ev);
    let ghost all = parts@;
    let mut rest = parts;
    let n = rest.len();
    let mut r: Vec<(Option<String>, T)> = Vec::new();
    let mut i: usize = 0;
    assert(all.skip(0) =~= all);
    while i < n
        invariant
            n == all.len(),
            i <= n,
            rest@ == all.skip(i as int),
            ev == existing@.map_values(|s: String| s@),
            keep == (|p: (Option<String>, T)| !already_there(p.0, ev)),
            r@ == all.take(i as int).filter(keep),
        decreases n - i,
    {
        let p = rest.remove(0);
        assert(p == all[i as int]);
        assert(rest@ =~= all.skip(i + 1));
        assert(all.take(i + 1) =~= all.take(i as int).push(all[i as int]));
        proof {
            all.take(i as int).lemma_filter_push(all[i as int], keep);
        }
        let there = match &p.0 {
            Some(t) => has_title(existing, t.as_str()),
            None => false,
        };
        if !there {
            r.push(p);
        }
        i = i + 1;
    }
    assert(all.take(n as int) =~= all);
    r
}

/// The BV id of the first search hit whose title is exactly `title`.
pub open spec fn first_hit(hits: Seq<(String, String)>, title: Seq<char>) -> Option<Seq<char>>
    decreases hits.len(),
{
    if hits.len() == 0 {
        None
    } else if hits[0].1@ == title {
        Some(hits[0].0@)
    } else {
        first_hit(hits.drop_first(), title)
    }
}

/// Looks among search hits (BV id, title) for an archive titled exactly `title`; this
/// is how a submission that in fact went through is recognised.
pub fn find_archive_by_title(hits: &Vec<(String, String)>, title: &str) -> (r: Option<String>)
    ensures
        match r {
            Some(bv) => first_hit(hits@, title@) == Some(bv@),
            None => first_hit(hits@, title@) is None,
        },
{
    let mut i: usize = 0;
    assert(hits@.skip(0) =~= hits@);
    while i < hits.len()
        invariant
            i <= hits@.len(),
            first_hit(hits@, title@) == first_hit(hits@.skip(i as int), title@),
        decreases hits@.len() - i,
    {
        assert(hits@.skip(i as int)[0] == hits@[i as int]);
        if same_text(hits[i].1.as_str(), title) {
            return Some(hits[i].0.clone());
        }
        assert(hits@.skip(i as int).drop_first() =~= hits@.skip(i + 1));
        i = i + 1;
    }
    None
}

/// The search hits in a creative-center response: `None` unless the response code is
/// 0; otherwise the (BV id, title) pairs of the listed archives that have both.
pub fn search_hits(code: Option<i64>, archives: Vec<(Option<String>, Option<String>)>) -> (r: Option<Vec<(String, String)>>)
    ensures
        code != Some(0i64) ==> r is None,
        code == Some(0i64) ==> (r matches Some(v) && v@.map_values(|p: (String, String)| (p.0@, p.1@))
            == archives@.filter_map(
            |p: (Option<String>, Option<String>)|
                match p {
                    (Some(b), Some(t)) => Some((b@, t@)),
                    _ => None,
                },
        )),
{
    match code {
        Some(c) => {
            if c != 0 {
                return None;
            }
        },
        None => {
            return None;
        },
    }
    let ghost f = |p: (Option<String>, Option<String>)|
        match p {
            (Some(b), Some(t)) => Some((b@, t@)),
            _ => None,
        };
    let ghost all = archives@;
    let mut rest = archives;
    let n = rest.len();
    let mut r: Vec<(String, String)> = Vec::new();
    let mut i: usize = 0;
    assert(all.skip(0) =~= all);
    while i < n
        invariant
            n == all.len(),
            i <= n,
            rest@ == all.skip(i as int),
            f == (|p: (Option<String>, Option<String>)|
                match p {
                    (Some(b), Some(t)) => Some((b@, t@)),
                    _ => None,
                }),
            r@.map_values(|p: (String, String)| (p.0@, p.1@)) == all.take(i as int).filter_map(f),
        decreases n - i,
    {
        let p = rest.remove(0);
        assert(p == all[i as int]);
        assert(rest@ =~= all.skip(i + 1));
        proof {
            all.lemma_filter_map_take_succ(f, i as int);
        }
        let ghost before = r@;
        match p {
            (Some(b), Some(t)) => {
                r.push((b, t));
                assert(r@.map_values(|p: (String, String)| (p.0@, p.1@)) =~= before.map_values(
                    |p: (String, String)| (p.0@, p.1@),
                ).push((r@.last().0@, r@.last().1@)));
            },
            _ => {},
        }
        i = i + 1;
    }
    assert(all.take(n as int) =~= all);
    Some(r)
}

/// Where a submission stands.
pub enum SubmitPhase {
    /// Nothing done yet.
    Start,
    /// Waiting for the answer to "is there already an archive with this title?".
    AwaitSearch,
    /// Waiting for the answer to a submission.
    AwaitSubmit,
    /// Waiting out a back-off before the next attempt.
    AwaitWait,
    /// Done or given up.
    Finished,
}

/// The state of a submission: its phase and the attempt (from 0) it is at.
pub struct SubmitState {
    pub phase: SubmitPhase,
    pub attempt: usize,
}

/// What the caller observed.
pub enum SubmitEvent {
    /// The submission starts.
    Begin,
    /// The title search found an archive with exactly this title.
    SearchFound(String),
    /// The title search found none.
    SearchEmpty,
    /// The title search failed.
    SearchFailed,
    /// The submission was answered; with the BV id if the answer held one.
    Submitted(Option<String>),
    /// The submission failed (`rate_limited`: bilibili throttled the upload).
    SubmitFailed { rate_limited: bool },
    /// The back-off is over.
    Waited,
}

/// Why a submission gave up.
pub enum SubmitFailure {
    /// The answer held no BV id.
    MissingBv,
    /// Every attempt failed.
    Exhausted,
}

/// What the caller must do next.
pub enum SubmitAction {
    /// Search the archives for the wanted title.
    Search,
    /// Submit the archive.
    Submit,
    /// Sleep this many seconds.
    Wait(u64),
    /// The archive exists under this BV id.
    Done(String),
    /// Give up.
    Fail(SubmitFailure),
}

/// Whether `e` is an answer that state `s` waits for.
pub open spec fn submit_accepts(s: SubmitState, e: SubmitEvent) -> bool {
    match s.phase {
        SubmitPhase::Start => e is Begin,
        SubmitPhase::AwaitSearch => e is SearchFound || e is SearchEmpty || e is SearchFailed,
        SubmitPhase::AwaitSubmit => e is Submitted || e is SubmitFailed,
        SubmitPhase::AwaitWait => e is Waited,
        SubmitPhase::Finished => false,
    }
}

/// One step of a submission. Before the first submission, and again before every
/// retry, the archives are searched for the wanted title: a submission whose answer
/// was lost may have gone through, and blindly submitting again would create a second
/// archive. A failed search does not stop the submission. Failures back off as
/// `upload_retry_wait` says; after `UPLOAD_ATTEMPTS` failed submissions it gives up.
pub open spec fn submit_next(s: SubmitState, e: SubmitEvent) -> (SubmitState, SubmitAction) {
    let a = s.attempt;
    match e {
        SubmitEvent::Begin => (SubmitState { phase: SubmitPhase::AwaitSearch, attempt: a }, SubmitAction::Search),
        SubmitEvent::SearchFound(bv) => (SubmitState { phase: SubmitPhase::Finished, attempt: a }, SubmitAction::Done(bv)),
        SubmitEvent::SearchEmpty | SubmitEvent::SearchFailed => (
            SubmitState { phase: SubmitPhase::AwaitSubmit, attempt: a },
            SubmitAction::Submit,
        ),
        SubmitEvent::Submitted(Some(bv)) => (SubmitState { phase: SubmitPhase::Finished, attempt: a }, SubmitAction::Done(bv)),
        SubmitEvent::Submitted(None) => (
            SubmitState { phase: SubmitPhase::Finished, attempt: a },
            SubmitAction::Fail(SubmitFailure::MissingBv),
        ),
        SubmitEvent::SubmitFailed { rate_limited } => match upload_retry_wait(a as nat, rate_limited) {
            Some(w) => (
                SubmitState { phase: SubmitPhase::AwaitWait, attempt: (a + 1) as usize },
                SubmitAction::Wait(w as u64),
            ),
            None => (
                SubmitState { phase: SubmitPhase::Finished, attempt: a },
                SubmitAction::Fail(SubmitFailure::Exhausted),
            ),
        },
        SubmitEvent::Waited => (SubmitState { phase: SubmitPhase::AwaitSearch, attempt: a }, SubmitAction::Search),
    }
}

/// Law: the archive states that count as dead are exactly -2, -3, -4, -5, -12, -16 and
/// -100; every other state (a normal one, or one still under review or transcoding)
/// does not.
pub proof fn lemma_dead_states(state: i64)
    ensures
        dead_state(state) <==> set![-2i64, -3i64, -4i64, -5i64, -12i64, -16i64, -100i64].contains(state),
{
}

/// A submission's state is sound: it is at one of the `UPLOAD_ATTEMPTS` attempts.
pub open spec fn submit_wf(s: SubmitState) -> bool {
    s.attempt < UPLOAD_ATTEMPTS
}

impl SubmitState {
    /// The state before anything is done.
    pub fn new() -> (s: SubmitState)
        ensures
            s.phase is Start,
            s.attempt == 0,
            submit_wf(s),
    {
        SubmitState { phase: SubmitPhase::Start, attempt: 0 }
    }
}

/// Advances a submission by one observed event.
pub fn submit_new(s: SubmitState, e: SubmitEvent) -> (r: (SubmitState, SubmitAction))
    requires
        submit_wf(s),
        submit_accepts(s, e),
    ensures
        r == submit_next(s, e),
        submit_wf(r.0),
{
    let a = s.attempt;
    match e {
        SubmitEvent::Begin => (SubmitState { phase: SubmitPhase::AwaitSearch, attempt: a }, SubmitAction::Search),
        SubmitEvent::SearchFound(bv) => (SubmitState { phase: SubmitPhase::Finished, attempt: a }, SubmitAction::Done(bv)),
        SubmitEvent::SearchEmpty => (SubmitState { phase: SubmitPhase::AwaitSubmit, attempt: a }, SubmitAction::Submit),
        SubmitEvent::SearchFailed => (SubmitState { phase: SubmitPhase::AwaitSubmit, attempt: a }, SubmitAction::Submit),
        SubmitEvent::Submitted(Some(bv)) => (SubmitState { phase: SubmitPhase::Finished, attempt: a }, SubmitAction::Done(bv)),
        SubmitEvent::Submitted(None) => (
            SubmitState { phase: SubmitPhase::Finished, attempt: a },
            SubmitAction::Fail(SubmitFailure::MissingBv),
        ),
        SubmitEvent::SubmitFailed { rate_limited } => match upload_part(a, rate_limited) {
            Some(w) => (
                SubmitState { phase: SubmitPhase::AwaitWait, attempt: a + 1 },
                SubmitAction::Wait(w),
            ),
            None => (
                SubmitState { phase: SubmitPhase::Finished, attempt: a },
                SubmitAction::Fail(SubmitFailure::Exhausted),
            ),
        },
        SubmitEvent::Waited => (SubmitState { phase: SubmitPhase::AwaitSearch, attempt: a }, SubmitAction::Search),
    }
}

/// The submissions a run of events makes, following `submit_next` from `s` for as long
/// as each event is one the state waits for.
pub open spec fn submits_in_run(s: SubmitState, events: Seq<SubmitEvent>) -> nat
    decreases events.len(),
{
    if events.len() == 0 || !submit_accepts(s, events[0]) {
        0
    } else {
        let (t, act) = submit_next(s, events[0]);
        (if act is Submit { 1nat } else { 0nat }) + submits_in_run(t, events.drop_first())
    }
}

/// The submissions still possible from `s`.
pub open spec fn submits_left(s: SubmitState) -> nat {
    match s.phase {
        SubmitPhase::Start | SubmitPhase::AwaitSearch | SubmitPhase::AwaitWait => (UPLOAD_ATTEMPTS
            - s.attempt) as nat,
        SubmitPhase::AwaitSubmit => (UPLOAD_ATTEMPTS - s.attempt - 1) as nat,
        SubmitPhase::Finished => 0,
    }
}

/// Law: however the searches and submissions turn out, one submission submits the
/// archive at most `UPLOAD_ATTEMPTS` times.
pub proof fn lemma_submit_bounded(events: Seq<SubmitEvent>)
    ensures
        submits_in_run(SubmitState { phase: SubmitPhase::Start, attempt: 0 }, events)
            <= UPLOAD_ATTEMPTS,
{
    lemma_submits_left(SubmitState { phase: SubmitPhase::Start, attempt: 0 }, events);
}

proof fn lemma_submits_left(s: SubmitState, events: Seq<SubmitEvent>)
    requires
        submit_wf(s),
    ensures
        submits_in_run(s, events) <= submits_left(s),
    decreases events.len(),
{
    if events.len() > 0 && submit_accepts(s, events[0]) {
        let (t, act) = submit_next(s, events[0]);
        lemma_submits_left(t, events.drop_first());
    }
}

/// Law: before the first submission and before every retry, a title search that finds
/// no archive (or fails) leads to a submission at the same attempt, for every attempt
/// below `UPLOAD_ATTEMPTS`; an ordinary failure before the last attempt leads to a
/// back-off and a new search at the next attempt, and only a failure of the last
/// attempt gives up.
pub proof fn lemma_retry_submits_again(a: usize)
    requires
        a < UPLOAD_ATTEMPTS,
    ensures
        submit_next(SubmitState { phase: SubmitPhase::AwaitSearch, attempt: a }, SubmitEvent::SearchEmpty)
            == (SubmitState { phase: SubmitPhase::AwaitSubmit, attempt: a }, SubmitAction::Submit),
        submit_next(SubmitState { phase: SubmitPhase::AwaitSearch, attempt: a }, SubmitEvent::SearchFailed)
            == (SubmitState { phase: SubmitPhase::AwaitSubmit, attempt: a }, SubmitAction::Submit),
        a + 1 < UPLOAD_ATTEMPTS ==> submit_next(
            SubmitState { phase: SubmitPhase::AwaitSubmit, attempt: a },
            SubmitEvent::SubmitFailed { rate_limited: false },
        ).0 == (SubmitState { phase: SubmitPhase::AwaitWait, attempt: (a + 1) as usize }),
        a + 1 < UPLOAD_ATTEMPTS ==> submit_next(
            SubmitState { phase: SubmitPhase::AwaitSubmit, attempt: a },
            SubmitEvent::SubmitFailed { rate_limited: false },
        ).1 is Wait,
        a + 1 == UPLOAD_ATTEMPTS ==> submit_next(
            SubmitState { phase: SubmitPhase::AwaitSubmit, attempt: a },
            SubmitEvent::SubmitFailed { rate_limited: false },
        ).1 == SubmitAction::Fail(SubmitFailure::Exhausted),
        submit_next(SubmitState { phase: SubmitPhase::AwaitWait, attempt: a }, SubmitEvent::Waited)
            == (SubmitState { phase: SubmitPhase::AwaitSearch, attempt: a }, SubmitAction::Search),
{
}

/// A submission in which every search finds nothing and every submission fails
/// without a throttle.
pub open spec fn failing_run() -> Seq<SubmitEvent> {
    seq![
        SubmitEvent::Begin,
        SubmitEvent::SearchEmpty,
        SubmitEvent::SubmitFailed { rate_limited: false },
        SubmitEvent::Waited,
        SubmitEvent::SearchEmpty,
        SubmitEvent::SubmitFailed { rate_limited: false },
        SubmitEvent::Waited,
        SubmitEvent::SearchEmpty,
        SubmitEvent::SubmitFailed { rate_limited: false },
        SubmitEvent::Waited,
        SubmitEvent::SearchEmpty,
        SubmitEvent::SubmitFailed { rate_limited: false },
        SubmitEvent::Waited,
    ]
}

/// Law: when every search finds nothing and every submission fails, the archive is
/// still submitted `UPLOAD_ATTEMPTS` times before the submission gives up.
pub proof fn lemma_failing_run_submits_every_attempt()
    ensures
        submits_in_run(SubmitState { phase: SubmitPhase::Start, attempt: 0 }, failing_run())
            == UPLOAD_ATTEMPTS,
{
    reveal_with_fuel(submits_in_run, 14);
    reveal_with_fuel(pow2, 5);
    let e = failing_run();
    assert(e.drop_first() =~= e.subrange(1, 13));
    assert(e.subrange(1, 13).drop_first() =~= e.subrange(2, 13));
    assert(e.subrange(2, 13).drop_first() =~= e.subrange(3, 13));
    assert(e.subrange(3, 13).drop_first() =~= e.subrange(4, 13));
    assert(e.subrange(4, 13).drop_first() =~= e.subrange(5, 13));
    assert(e.subrange(5, 13).drop_first() =~= e.subrange(6, 13));
    assert(e.subrange(6, 13).drop_first() =~= e.subrange(7, 13));
    assert(e.subrange(7, 13).drop_first() =~= e.subrange(8, 13));
    assert(e.subrange(8, 13).drop_first() =~= e.subrange(9, 13));
    assert(e.subrange(9, 13).drop_first() =~= e.subrange(10, 13));
    assert(e.subrange(10, 13).drop_first() =~= e.subrange(11, 13));
    assert(e.subrange(11, 13).drop_first() =~= e.subrange(12, 13));
}

/// Law: an archive is submitted only right after a title search came back empty or
/// failed, and a search found the archive ends the submission with that archive; so a
/// retry never duplicates an archive that the search can see.
pub proof fn lemma_submit_after_search(s: SubmitState, e: SubmitEvent)
    requires
        submit_accepts(s, e),
    ensures
        submit_next(s, e).1 is Submit ==> s.phase is AwaitSearch && (e is SearchEmpty
            || e is SearchFailed),
        e matches SubmitEvent::SearchFound(bv) ==> submit_next(s, e).1 == SubmitAction::Done(bv),
        submit_next(s, e).0.phase is AwaitSearch ==> submit_next(s, e).1 is Search,
{
}

/// What to do while waiting for a fresh archive to become queryable.
pub enum QueryWait {
    /// It is queryable.
    Ready,
    /// Sleep this many seconds and ask again.
    Sleep(u64),
    /// The deadline would pass first: give up.
    TimedOut,
}

/// Longest sleep between two queries, in seconds.
pub const MAX_QUERY_WAIT: u64 = 30;

/// First sleep between two queries, in seconds.
pub const FIRST_QUERY_WAIT: u64 = 5;

/// After a query: ready if it succeeded; otherwise sleep `wait` seconds if that ends
/// before the deadline (`max_wait_ms` after the start; `elapsed_ms` have passed), and
/// double the next sleep up to `MAX_QUERY_WAIT`; else time out.
pub open spec fn query_next(queryable: bool, elapsed_ms: u64, wait: u64, max_wait_ms: u64) -> (QueryWait, u64) {
    if queryable {
        (QueryWait::Ready, wait)
    } else if elapsed_ms + wait * 1000 < max_wait_ms {
        (QueryWait::Sleep(wait), if wait * 2 <= MAX_QUERY_WAIT { (wait * 2) as u64 } else { MAX_QUERY_WAIT })
    } else {
        (QueryWait::TimedOut, wait)
    }
}

/// One step of waiting until a new archive can be queried (a fresh archive shows up in
/// the query API only after a while, and appending to it before then fails).
pub fn wait_until_queryable(queryable: bool, elapsed_ms: u64, wait: u64, max_wait_ms: u64) -> (r: (QueryWait, u64))
    requires
        wait <= MAX_QUERY_WAIT,
    ensures
        r == query_next(queryable, elapsed_ms, wait, max_wait_ms),
{
    if queryable {
        (QueryWait::Ready, wait)
    } else if (elapsed_ms as u128) + (wait as u128) * 1000 < max_wait_ms as u128 {
        let next = if wait * 2 <= MAX_QUERY_WAIT {
            wait * 2
        } else {
            MAX_QUERY_WAIT
        };
        (QueryWait::Sleep(wait), next)
    } else {
        (QueryWait::TimedOut, wait)
    }
}

/// Law: starting from `FIRST_QUERY_WAIT`, every sleep lasts between `FIRST_QUERY_WAIT`
/// and `MAX_QUERY_WAIT` seconds and ends before the deadline.
pub proof fn lemma_query_waits_bounded(queryable: bool, elapsed_ms: u64, wait: u64, max_wait_ms: u64)
    requires
        FIRST_QUERY_WAIT <= wait <= MAX_QUERY_WAIT,
    ensures
        FIRST_QUERY_WAIT <= query_next(queryable, elapsed_ms, wait, max_wait_ms).1 <= MAX_QUERY_WAIT,
        query_next(queryable, elapsed_ms, wait, max_wait_ms).0 matches QueryWait::Sleep(w) ==> elapsed_ms
            + w * 1000 < max_wait_ms,
{
}

/// The size of the next piece that an upload stream hands out: nothing once the chunk
/// is used up, else at most 4096 bytes.
pub open spec fn next_piece(remaining: usize) -> Option<usize> {
    if remaining == 0 {
        None
    } else if remaining < 4096 {
        Some(remaining)
    } else {
        Some(4096)
    }
}

/// How many bytes the upload progress stream hands out next.
pub fn piece_len(remaining: usize) -> (r: Option<usize>)
    ensures
        r == next_piece(remaining),
{
    if remaining == 0 {
        None
    } else if remaining < 4096 {
        Some(remaining)
    } else {
        Some(4096)
    }
}

/// The piece sizes that an upload stream hands out, in order, for a chunk of
/// `remaining` bytes: `next_piece` until it answers `None`.
pub open spec fn pieces(remaining: usize) -> Seq<usize>
    decreases remaining,
{
    match next_piece(remaining) {
        Some(k) => seq![k] + pieces((remaining - k) as usize),
        None => Seq::empty(),
    }
}

/// The sum of piece sizes.
pub open spec fn total(s: Seq<usize>) -> nat
    decreases s.len(),
{
    if s.len() == 0 {
        0
    } else {
        s[0] as nat + total(s.drop_first())
    }
}

/// Law: the pieces of a chunk of `n` bytes add up to `n`; there are `ceil(n / 4096)` of
/// them, every one but the last holds 4096 bytes, and the last holds between 1 and 4096.
pub proof fn lemma_pieces_cover(n: usize)
    ensures
        total(pieces(n)) == n,
        pieces(n).len() == (n + 4095) / 4096,
        forall|i: int| 0 <= i < pieces(n).len() - 1 ==> #[trigger] pieces(n)[i] == 4096,
        n > 0 ==> 1 <= pieces(n).last() <= 4096,
    decreases n,
{
    if n == 0 {
    } else if n < 4096 {
        assert(pieces(0) =~= Seq::<usize>::empty());
        assert(pieces(n) =~= seq![n]);
        assert(seq![n].drop_first() =~= Seq::<usize>::empty());
        assert(total(Seq::<usize>::empty()) == 0);
        assert(total(seq![n]) == n);
    } else {
        let m = (n - 4096) as usize;
        lemma_pieces_cover(m);
        let p = pieces(n);
        assert(p == seq![4096usize] + pieces(m));
        assert(p.drop_first() =~= pieces(m));
        assert(p[0] == 4096);
        assert(total(p) == 4096 + total(pieces(m)));
        assert forall|i: int| 0 <= i < p.len() - 1 implies #[trigger] p[i] == 4096 by {
            if i > 0 {
                assert(p[i] == pieces(m)[i - 1]);
            }
        }
        if m > 0 {
            assert(p.last() == pieces(m).last());
        } else {
            assert(pieces(m) =~= Seq::<usize>::empty());
        }
    }
}

} // verus!
