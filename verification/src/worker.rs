//! The decisions of processing one play: which part comes next, when to create the
//! archive, what to record, when a rejected archive is submitted anew, and whether a
//! download is complete.
//!
//! Downloads, uploads and bilibili calls are made by the caller between these steps.
use crate::bili::{backoff, backoff_secs, dead_state, lemma_backoff_small, DOWNLOAD_ATTEMPTS};
use crate::catalog::Task;
use crate::get_video_list::{url_view, url_views, UrlView, VideoUrl};
use crate::ledger::{key_of, lookup, part_key, without_archive, Entry, EntryView, Ledger};
use crate::text::{after_last, after_last_chars, chars_of, parse_u64, parse_u64_spec, string_of};
use vstd::prelude::*;

verus! {

/// How often a rejected archive may be submitted anew for one play, so that a play
/// that keeps being rejected does not flood the account with archives.
pub const MAX_RESUBMIT: usize = 1;

/// The retry state of one play.
pub struct TaskRun {
    /// The archive the play goes into; empty while it has none.
    pub bv: String,
    /// How often a new archive was submitted because the old one was rejected.
    pub resubmits: usize,
}

impl TaskRun {
    /// Starts with the archive that the plan chose.
    pub fn new(task: &Task) -> (r: TaskRun)
        ensures
            r.bv@ == task.bv@,
            r.resubmits == 0,
    {
        TaskRun { bv: task.bv.clone(), resubmits: 0 }
    }

    /// After a failed pass: whether it is worth asking for the archive's state. Only a
    /// rejected archive justifies another pass, and only `MAX_RESUBMIT` times; any other
    /// failure is reported as it is.
    pub fn should_check_state(&self) -> (r: bool)
        ensures
            r == (self.bv@.len() > 0 && self.resubmits < MAX_RESUBMIT),
    {
        let v = chars_of(self.bv.as_str());
        v.len() > 0 && self.resubmits < MAX_RESUBMIT
    }

    /// With the state of the archive: when it is beyond repair, its parts are forgotten
    /// in the ledger and the next pass submits a new archive (answers `true`); otherwise
    /// the failure stands (answers `false`) and nothing changes.
    pub fn run_task(&mut self, state: i64, ledger: &mut Ledger) -> (again: bool)
        requires
            old(ledger).wf(),
            old(self).resubmits < MAX_RESUBMIT,
        ensures
            final(ledger).wf(),
            again == dead_state(state),
            again ==> final(self).bv@.len() == 0 && final(self).resubmits == old(self).resubmits + 1
                && final(ledger)@ == without_archive(old(ledger)@, old(self).bv@),
            !again ==> final(self).bv@ == old(self).bv@ && final(self).resubmits == old(self).resubmits
                && final(ledger)@ == old(ledger)@,
            final(self).resubmits <= MAX_RESUBMIT,
    {
        if crate::bili::state_is_dead(state) {
            ledger.forget_archive(self.bv.as_str());
            let e: Vec<char> = Vec::new();
            self.bv = string_of(&e);
            self.resubmits = self.resubmits + 1;
            true
        } else {
            false
        }
    }
}

/// The next thing to do for a play.
pub enum PartJob {
    /// Upload part `i` and submit a new archive with it.
    Create(usize),
    /// Upload part `i` and append it to the archive.
    Append(usize),
    /// A new archive is needed but there is no part to create it with.
    NoParts,
    /// Every part is done.
    Finished,
}

/// Part `i` of `parts` is still to be done for archive `bv`.
pub open spec fn part_pending(parts: Seq<UrlView>, ledger: Map<Seq<char>, EntryView>, bv: Seq<char>, i: int) -> bool {
    lookup(ledger, key_of(parts[i].4, parts[i].1), Some(bv)) is None
}

/// The next job from part `from` on: without an archive, part `from` creates it; with
/// one, the first part from `from` on that the ledger does not hold for the archive is
/// appended (the ledger is asked again here, since another part of this run may have
/// just been recorded).
pub open spec fn job_spec(parts: Seq<UrlView>, bv: Seq<char>, from: nat, ledger: Map<Seq<char>, EntryView>, job: PartJob) -> bool {
    if bv.len() == 0 {
        if from < parts.len() {
            job == PartJob::Create(from as usize)
        } else {
            job is NoParts
        }
    } else {
        match job {
            PartJob::Append(i) => from <= i < parts.len() && part_pending(parts, ledger, bv, i as int)
                && forall|j: int| from <= j < i ==> !part_pending(parts, ledger, bv, j),
            PartJob::Finished => forall|j: int| from <= j < parts.len() ==> !part_pending(parts, ledger, bv, j),
            _ => false,
        }
    }
}

/// Chooses the next job of a pass over `task`, starting at part `from`.
pub fn next_job(task: &Task, bv: &str, from: usize, ledger: &Ledger) -> (job: PartJob)
    requires
        ledger.wf(),
    ensures
        job_spec(url_views(task.parts@), bv@, from as nat, ledger@, job),
{
    let b = chars_of(bv);
    if b.len() == 0 {
        if from < task.parts.len() {
            return PartJob::Create(from);
        } else {
            return PartJob::NoParts;
        }
    }
    let ghost pv = url_views(task.parts@);
    let mut i: usize = from;
    while i < task.parts.len()
        invariant
            pv == url_views(task.parts@),
            ledger.wf(),
            b@ == bv@,
            b@.len() > 0,
            from <= i || i >= task.parts@.len(),
            forall|j: int| from <= j < i && j < pv.len() ==> !part_pending(pv, ledger@, bv@, j),
        decreases task.parts@.len() - i,
    {
        let key = part_key(&task.parts[i]);
        assert(pv[i as int] == url_view(task.parts@[i as int]));
        if ledger.contains(key.as_str(), Some(bv)).is_none() {
            return PartJob::Append(i);
        }
        i = i + 1;
    }
    PartJob::Finished
}

/// The entry that records a part uploaded into archive `bv`.
pub open spec fn entry_for(title: Seq<char>, bv: Seq<char>, part_title: Seq<char>, uploaded_at: i64) -> EntryView {
    EntryView { bv, part_title, title, uploaded_at }
}

/// Records in the ledger that `part` of play `title` went into archive `bv` as
/// `part_title` at `uploaded_at`.
pub fn record(ledger: &mut Ledger, title: &str, part: &VideoUrl, bv: &str, part_title: &str, uploaded_at: i64)
    requires
        old(ledger).wf(),
    ensures
        final(ledger).wf(),
        final(ledger)@ == old(ledger)@.insert(key_of(part.id, part.name@), entry_for(title@, bv@, part_title@, uploaded_at)),
{
    let e = Entry {
        bv: bv.to_string(),
        part_title: part_title.to_string(),
        title: title.to_string(),
        uploaded_at,
    };
    ledger.record(part_key(part), e);
}

/// Law: a part recorded for the archive is not chosen again in a later pass over the
/// same archive.
pub proof fn lemma_recorded_part_skipped(
    parts: Seq<UrlView>,
    bv: Seq<char>,
    from: nat,
    ledger: Map<Seq<char>, EntryView>,
    title: Seq<char>,
    part_title: Seq<char>,
    at: i64,
    i: int,
    job: PartJob,
)
    requires
        bv.len() > 0,
        0 <= i < parts.len(),
        job_spec(
            parts,
            bv,
            from,
            ledger.insert(key_of(parts[i].4, parts[i].1), entry_for(title, bv, part_title, at)),
            job,
        ),
    ensures
        !(job matches PartJob::Append(j) && j == i),
{
}

/// Law: a pass over a play that has an archive makes progress and ends right. Suppose
/// every part before `from` is done for the archive when `next_job` is asked. If it
/// answers `Append(i)`, then once part `i` is recorded for the archive every part up
/// to `i` is done, so asking again from `i + 1` keeps the assumption; if it answers
/// `Finished`, every part of the play is done for the archive.
pub proof fn lemma_pass_progress(
    parts: Seq<UrlView>,
    bv: Seq<char>,
    from: nat,
    ledger: Map<Seq<char>, EntryView>,
    job: PartJob,
    title: Seq<char>,
    part_title: Seq<char>,
    at: i64,
)
    requires
        bv.len() > 0,
        forall|j: int| 0 <= j < from && j < parts.len() ==> !#[trigger] part_pending(parts, ledger, bv, j),
        job_spec(parts, bv, from, ledger, job),
    ensures
        job is Finished ==> forall|j: int| 0 <= j < parts.len() ==> !#[trigger] part_pending(parts, ledger, bv, j),
        job matches PartJob::Append(i) ==> forall|j: int|
            0 <= j <= i ==> !#[trigger] part_pending(
                parts,
                ledger.insert(key_of(parts[i as int].4, parts[i as int].1), entry_for(title, bv, part_title, at)),
                bv,
                j,
            ),
{
    if let PartJob::Append(i) = job {
        let ki = key_of(parts[i as int].4, parts[i as int].1);
        let e = entry_for(title, bv, part_title, at);
        let m = ledger.insert(ki, e);
        assert forall|j: int| 0 <= j <= i implies !#[trigger] part_pending(parts, m, bv, j) by {
            let kj = key_of(parts[j].4, parts[j].1);
            if kj == ki {
                crate::ledger::lemma_record_then_contains(ledger, ki, e, bv);
                assert(e.bv == bv);
                assert(lookup(m, kj, Some(bv)) == Some(e));
            } else {
                assert(j != i);
                crate::ledger::lemma_record_keeps_others(ledger, ki, e, kj, Some(bv));
                if j < from {
                    assert(!part_pending(parts, ledger, bv, j));
                } else {
                    assert(from <= j < i);
                    assert(!part_pending(parts, ledger, bv, j));
                }
                assert(lookup(m, kj, Some(bv)) == lookup(ledger, kj, Some(bv)));
            }
        }
    }
}

/// A download resumes only when something was already fetched and the server answered
/// 206 Partial Content; a 200 means it ignored the range and the file starts over.
pub fn resume_accepted(resume_from: u64, status: u16) -> (r: bool)
    ensures
        r == (resume_from > 0 && status == 206),
{
    resume_from > 0 && status == 206
}

/// The total size in a `Content-Range` value (`bytes 100-999/1000`): the number after
/// the last `/`.
pub open spec fn range_total(v: Seq<char>) -> Option<u64> {
    parse_u64_spec(after_last(v, '/'))
}

/// The total size that a `Content-Range` value states.
pub fn content_range_total(v: &str) -> (r: Option<u64>)
    ensures
        r == range_total(v@),
{
    let c = chars_of(v);
    let tail = after_last_chars(&c, '/');
    parse_u64(&tail)
}

/// The size the finished file must have: when resuming, the total that `Content-Range`
/// states, or else what was fetched plus `Content-Length`; otherwise `Content-Length`;
/// 0 when unknown.
pub open spec fn expected_total(resuming: bool, resume_from: u64, content_range: Option<Seq<char>>, content_length: Option<u64>) -> nat {
    if resuming {
        match content_range {
            Some(v) => match range_total(v) {
                Some(t) => t as nat,
                None => (resume_from + match content_length { Some(l) => l as nat, None => 0nat }) as nat,
            },
            None => (resume_from + match content_length { Some(l) => l as nat, None => 0nat }) as nat,
        }
    } else {
        match content_length {
            Some(l) => l as nat,
            None => 0,
        }
    }
}

/// The view of an optional text.
pub open spec fn opt_seq(o: Option<String>) -> Option<Seq<char>> {
    match o {
        Some(s) => Some(s@),
        None => None,
    }
}

/// Computes `expected_total`.
pub fn expected_size(resuming: bool, resume_from: u64, content_range: Option<String>, content_length: Option<u64>) -> (r: u64)
    requires
        expected_total(resuming, resume_from, opt_seq(content_range), content_length) <= u64::MAX,
    ensures
        r == expected_total(resuming, resume_from, opt_seq(content_range), content_length),
{
    let len: u64 = match content_length {
        Some(l) => l,
        None => 0,
    };
    if resuming {
        let stated = match &content_range {
            Some(v) => content_range_total(v.as_str()),
            None => None,
        };
        match stated {
            Some(t) => t,
            None => resume_from + len,
        }
    } else {
        len
    }
}

/// Why a finished download is not accepted.
pub enum DownloadError {
    /// Fewer or more bytes arrived than announced.
    Incomplete { expected: u64, written: u64 },
    /// Nothing arrived.
    Empty,
}

/// A truncated download would upload a video with a piece missing, so the byte count
/// must match the announced size (when one was announced), and an empty file is never
/// accepted.
pub fn check_download(expected: u64, written: u64) -> (r: Result<(), DownloadError>)
    ensures
        expected != 0 && written != expected ==> (r matches Err(DownloadError::Incomplete { expected: e, written: w })
            && e == expected && w == written),
        !(expected != 0 && written != expected) && written == 0 ==> r matches Err(DownloadError::Empty),
        !(expected != 0 && written != expected) && written != 0 ==> r is Ok,
{
    if expected != 0 && written != expected {
        Err(DownloadError::Incomplete { expected, written })
    } else if written == 0 {
        Err(DownloadError::Empty)
    } else {
        Ok(())
    }
}

/// After failed download attempt `attempt`: wait `15 * 2^min(attempt, 3)` seconds
/// (15/30/60/120/120; a CDN that has just cut a download refuses quick reconnects),
/// or give up after `DOWNLOAD_ATTEMPTS`.
pub open spec fn download_retry_wait(attempt: nat) -> Option<nat> {
    if attempt + 1 < DOWNLOAD_ATTEMPTS {
        Some(backoff(15, attempt, 3))
    } else {
        None
    }
}

/// The retry decision of `download` after a failed attempt; the partial file is kept
/// so the next attempt resumes it.
pub fn download(attempt: usize) -> (r: Option<u64>)
    ensures
        match r {
            Some(w) => download_retry_wait(attempt as nat) == Some(w as nat),
            None => download_retry_wait(attempt as nat) is None,
        },
{
    if attempt < DOWNLOAD_ATTEMPTS - 1 {
        proof {
            lemma_backoff_small(15, attempt as nat, 3);
        }
        Some(backoff_secs(15, attempt, 3))
    } else {
        None
    }
}

} // verus!
