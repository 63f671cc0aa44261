//! Matches the XMTV listing against the archives already on bilibili and works out
//! which parts still have to be uploaded.
//!
//! Three gates keep a part from being uploaded twice:
//! 1. one play title maps to one archive only, so an episode is never appended to
//!    every archive with a matching title;
//! 2. the local ledger;
//! 3. the part titles already inside the chosen archive.
use crate::bili::archive_title_of;
use crate::config::{keyword, keyword_chars, truncated, truncate_title, Settings, MAX_TITLE_CHARS};
use crate::text::{
    chars_of, contains_chars, contains_text, first_occurrence, first_piece, first_piece_chars,
    lemma_first_piece_at, lemma_trim_push_space, occurs_at, remove_char, same_text, string_of, trim,
    trim_chars,
};
use crate::get_video_list::{
    group_view, listings, sort_by_title, url_view, url_views, xmtv_grouping, GroupView, Listing,
    UrlView, VideoGroup, VideoUrl,
};
use crate::ledger::{key_of, lookup, part_key, Ledger};
use vstd::prelude::*;

verus! {

/// An archive of the account, as the creative center lists it.
#[derive(Debug)]
pub struct Archive {
    /// Its BV id.
    pub bvid: String,
    /// Its title.
    pub title: String,
    /// Review state: 0 is normal, negative values mean rejected or locked.
    pub state: i16,
    /// Creation time (Unix seconds).
    pub ctime: u64,
}

impl Archive {
    /// A copy of this archive.
    pub fn duplicate(&self) -> (r: Archive)
        ensures
            r == *self,
    {
        Archive {
            bvid: self.bvid.clone(),
            title: self.title.clone(),
            state: self.state,
            ctime: self.ctime,
        }
    }
}

/// The play title inside an archive title: archives are titled `{play} 斗阵来看戏`,
/// so it is what comes before the programme name, or, when that is missing, before
/// the first space; trimmed, with every space removed.
pub open spec fn archive_play_title(t: Seq<char>) -> Seq<char> {
    let head = if contains_text(t, keyword()) {
        first_piece(t, keyword())
    } else {
        first_piece(t, seq![' '])
    };
    trim(head).filter(|c: char| c != ' ')
}

/// Recovers the play title from an archive title.
pub fn title_of_archive(archive_title: &str) -> (r: String)
    ensures
        r@ == archive_play_title(archive_title@),
{
    let t = chars_of(archive_title);
    let kw = keyword_chars();
    let head = if contains_chars(&t, &kw) {
        first_piece_chars(&t, &kw)
    } else {
        let space: Vec<char> = vec![' '];
        assert(space@ =~= seq![' ']);
        first_piece_chars(&t, &space)
    };
    let trimmed = trim_chars(&head);
    let r = remove_char(&trimmed, ' ');
    string_of(&r)
}

/// Everything passes a filter whose test every element passes.
proof fn lemma_filter_keeps_all(s: Seq<char>, c: char)
    requires
        !s.contains(c),
    ensures
        s.filter(|x: char| x != c) == s,
    decreases s.len(),
{
    if s.len() > 0 {
        let d = s.drop_last();
        assert(!d.contains(c)) by {
            if d.contains(c) {
                let j = choose|j: int| 0 <= j < d.len() && d[j] == c;
                assert(s[j] == c);
            }
        }
        lemma_filter_keeps_all(d, c);
        assert(s =~= d.push(s.last()));
        d.lemma_filter_push(s.last(), |x: char| x != c);
        assert(s.last() != c) by {
            assert(s[s.len() - 1] == s.last());
        }
    } else {
        s.lemma_filter_len(|x: char| x != c);
        assert(s.filter(|x: char| x != c) =~= s);
    }
}

/// Law: the play title comes back out of the archive title that the play is submitted
/// under (`{play} 斗阵来看戏`, cut to the length limit), for a play title that is
/// trimmed, holds no space and no programme name, and keeps that archive title within
/// the limit.
pub proof fn lemma_play_title_round_trip(t: Seq<char>)
    requires
        trim(t) == t,
        !t.contains(' '),
        !contains_text(t, keyword()),
        t.len() + 6 <= MAX_TITLE_CHARS,
    ensures
        archive_play_title(truncated(archive_title_of(t))) == t,
{
    let kw = keyword();
    let head = t.push(' ');
    let a = archive_title_of(t);
    assert(a =~= head + kw);
    assert(truncated(a) == a);
    let k: int = t.len() as int + 1;
    assert(a.subrange(k, k + kw.len()) =~= kw);
    assert(occurs_at(a, kw, k));
    assert forall|j: int| 0 <= j < k implies !occurs_at(a, kw, j) by {
        if occurs_at(a, kw, j) {
            if j + kw.len() <= t.len() {
                assert(t.subrange(j, j + kw.len()) =~= a.subrange(j, j + kw.len()));
                assert(occurs_at(t, kw, j));
            } else {
                let m = t.len() - j;
                assert(a.subrange(j, j + kw.len())[m] == a[t.len() as int]);
                assert(a[t.len() as int] == ' ');
                assert(kw[m] != ' ');
            }
        }
    }
    assert(first_occurrence(a, kw, k));
    lemma_first_piece_at(a, kw, k);
    assert(a.take(k) =~= head);
    lemma_trim_push_space(t);
    lemma_filter_keeps_all(t, ' ');
}

/// Whether an archive was rejected or locked (negative state).
pub open spec fn is_dead(a: Archive) -> bool {
    a.state < 0
}

/// `a` is preferred to `b`: alive before rejected, then older before newer.
pub open spec fn preferred(a: Archive, b: Archive) -> bool {
    (!is_dead(a) && is_dead(b)) || (is_dead(a) == is_dead(b) && a.ctime < b.ctime)
}

/// `k` is the first of the most preferred archives in `s`.
pub open spec fn is_first_best(s: Seq<Archive>, k: int) -> bool {
    &&& 0 <= k < s.len()
    &&& forall|j: int| 0 <= j < s.len() ==> !preferred(#[trigger] s[j], s[k])
    &&& forall|j: int| 0 <= j < k ==> preferred(s[k], #[trigger] s[j])
}

fn prefer(a: &Archive, b: &Archive) -> (r: bool)
    ensures
        r == preferred(*a, *b),
{
    let da = a.state < 0;
    let db = b.state < 0;
    (!da && db) || (da == db && a.ctime < b.ctime)
}

/// Of several archives with the same play title (duplicates submitted in the past),
/// picks the one to append to: an alive one before a rejected one, and the oldest
/// among those; the later ones are the accidental duplicates.
pub fn pick_archive(candidates: Vec<Archive>) -> (chosen: Archive)
    requires
        candidates@.len() > 0,
    ensures
        exists|k: int| is_first_best(candidates@, k) && chosen == candidates@[k],
{
    let mut best: usize = 0;
    let mut i: usize = 1;
    while i < candidates.len()
        invariant
            0 <= best < i <= candidates@.len(),
            forall|j: int| 0 <= j < i ==> !preferred(#[trigger] candidates@[j], candidates@[best as int]),
            forall|j: int| 0 <= j < best ==> preferred(candidates@[best as int], #[trigger] candidates@[j]),
        decreases candidates@.len() - i,
    {
        if prefer(&candidates[i], &candidates[best]) {
            best = i;
        }
        i = i + 1;
    }
    let ghost s = candidates@;
    let mut candidates = candidates;
    let chosen = candidates.remove(best);
    assert(is_first_best(s, best as int));
    chosen
}

/// `k` is the archive chosen for play `title`: the first of the most preferred among
/// the archives whose play title (as given by `titles`) is `title`.
pub open spec fn is_chosen(s: Seq<Archive>, titles: Seq<Seq<char>>, title: Seq<char>, k: int) -> bool {
    &&& 0 <= k < s.len()
    &&& titles[k] == title
    &&& forall|j: int|
        0 <= j < s.len() && titles[j] == title ==> !preferred(#[trigger] s[j], s[k])
    &&& forall|j: int| 0 <= j < k && titles[j] == title ==> preferred(s[k], #[trigger] s[j])
}

/// The play titles of `s`.
pub open spec fn play_titles(s: Seq<Archive>) -> Seq<Seq<char>> {
    s.map_values(|a: Archive| archive_play_title(a.title@))
}

/// The BV id of the archive chosen for `title`, or empty text when no archive has that
/// play title (a new archive must be submitted).
pub open spec fn chosen_bv(s: Seq<Archive>, title: Seq<char>) -> Seq<char> {
    if exists|k: int| is_chosen(s, play_titles(s), title, k) {
        s[choose|k: int| is_chosen(s, play_titles(s), title, k)].bvid@
    } else {
        Seq::empty()
    }
}

proof fn lemma_chosen_unique(s: Seq<Archive>, titles: Seq<Seq<char>>, title: Seq<char>, a: int, b: int)
    requires
        is_chosen(s, titles, title, a),
        is_chosen(s, titles, title, b),
    ensures
        a == b,
{
    if a < b {
        assert(preferred(s[b], s[a]));
    } else if b < a {
        assert(preferred(s[a], s[b]));
    }
}

/// The play titles of `archives`.
pub fn archive_titles(archives: &Vec<Archive>) -> (r: Vec<String>)
    ensures
        r@.map_values(|t: String| t@) == play_titles(archives@),
{
    let mut r: Vec<String> = Vec::new();
    let mut i: usize = 0;
    while i < archives.len()
        invariant
            i <= archives@.len(),
            r@.len() == i,
            forall|j: int| 0 <= j < i ==> (#[trigger] r@[j])@ == archive_play_title(archives@[j].title@),
        decreases archives@.len() - i,
    {
        r.push(title_of_archive(archives[i].title.as_str()));
        i = i + 1;
    }
    assert(r@.map_values(|t: String| t@) =~= play_titles(archives@));
    r
}

/// The BV id of the archive chosen for play `title`; `titles` are the play titles of
/// `archives`.
pub fn bv_for(archives: &Vec<Archive>, titles: &Vec<String>, title: &str) -> (r: String)
    requires
        titles@.map_values(|t: String| t@) == play_titles(archives@),
    ensures
        r@ == chosen_bv(archives@, title@),
{
    let ghost s = archives@;
    let ghost pt = play_titles(s);
    assert(titles@.map_values(|t: String| t@).len() == titles@.len());
    assert(pt.len() == s.len());
    assert(titles@.len() == s.len());
    assert forall|j: int| 0 <= j < s.len() implies (#[trigger] titles@[j])@ == pt[j] by {
        assert(titles@.map_values(|t: String| t@)[j] == titles@[j]@);
    }
    let mut best: Option<usize> = None;
    let mut i: usize = 0;
    while i < archives.len()
        invariant
            s == archives@,
            pt == play_titles(s),
            titles@.len() == s.len(),
            forall|j: int| 0 <= j < s.len() ==> (#[trigger] titles@[j])@ == pt[j],
            i <= s.len(),
            match best {
                Some(b) => {
                    &&& b < i
                    &&& pt[b as int] == title@
                    &&& forall|j: int|
                        0 <= j < i && pt[j] == title@ ==> !preferred(#[trigger] s[j], s[b as int])
                    &&& forall|j: int|
                        0 <= j < b && pt[j] == title@ ==> preferred(s[b as int], #[trigger] s[j])
                },
                None => forall|j: int| 0 <= j < i ==> #[trigger] pt[j] != title@,
            },
        decreases s.len() - i,
    {
        if same_text(titles[i].as_str(), title) {
            match best {
                None => {
                    best = Some(i);
                },
                Some(b) => {
                    if prefer(&archives[i], &archives[b]) {
                        best = Some(i);
                    }
                },
            }
        }
        i = i + 1;
    }
    match best {
        Some(b) => {
            proof {
                assert(is_chosen(s, pt, title@, b as int));
                let k = choose|k: int| is_chosen(s, pt, title@, k);
                lemma_chosen_unique(s, pt, title@, b as int, k);
            }
            archives[b].bvid.clone()
        },
        None => {
            assert(!exists|k: int| is_chosen(s, pt, title@, k));
            let e: Vec<char> = Vec::new();
            string_of(&e)
        },
    }
}

/// What one play still needs: the archive to use and the parts to upload.
#[derive(Debug)]
pub struct Task {
    /// Play title.
    pub title: String,
    /// BV id of the archive to append to; empty when a new archive must be submitted.
    pub bv: String,
    /// Parts still to upload, in broadcast order.
    pub parts: Vec<VideoUrl>,
}

/// What a task says.
pub struct TaskView {
    pub title: Seq<char>,
    pub bv: Seq<char>,
    pub parts: Seq<UrlView>,
}

impl View for Task {
    type V = TaskView;

    open spec fn view(&self) -> TaskView {
        TaskView { title: self.title@, bv: self.bv@, parts: url_views(self.parts@) }
    }
}

/// The views of a list of tasks.
pub open spec fn task_views(s: Seq<Task>) -> Seq<TaskView> {
    s.map_values(|t: Task| t@)
}

/// Whether a play passes the title filter: with a filter, its title must contain it.
pub open spec fn selected(only: Option<Seq<char>>, title: Seq<char>) -> bool {
    match only {
        Some(f) => contains_text(title, f),
        None => true,
    }
}

/// A part is still pending when the ledger holds nothing for it in archive `bv`.
pub open spec fn not_recorded(ledger: Map<Seq<char>, crate::ledger::EntryView>, bv: Seq<char>, u: UrlView) -> bool {
    lookup(ledger, key_of(u.4, u.1), Some(bv)) is None
}

/// The parts of a play that the ledger does not hold for archive `bv`.
pub open spec fn pending_parts(
    range: Seq<UrlView>,
    ledger: Map<Seq<char>, crate::ledger::EntryView>,
    bv: Seq<char>,
) -> Seq<UrlView> {
    range.filter(|u: UrlView| not_recorded(ledger, bv, u))
}

/// The task for one play, if it passes the filter and has pending parts.
pub open spec fn candidate(
    only: Option<Seq<char>>,
    archives: Seq<Archive>,
    ledger: Map<Seq<char>, crate::ledger::EntryView>,
    g: GroupView,
) -> Option<TaskView> {
    if !selected(only, g.0) {
        None
    } else {
        let bv = chosen_bv(archives, g.0);
        let parts = pending_parts(g.1, ledger, bv);
        if parts.len() > 0 {
            Some(TaskView { title: g.0, bv, parts })
        } else {
            None
        }
    }
}

/// Law: the title filter is a substring test: with a filter, a play is selected exactly
/// when its title contains the filter text; without one, every play is.
pub proof fn lemma_title_filter_is_substring(f: Seq<char>, t: Seq<char>)
    ensures
        selected(Some(f), t) <==> contains_text(t, f),
        selected(None, t),
{
}

/// The tasks for a list of plays, in their order.
pub open spec fn candidates_of(
    only: Option<Seq<char>>,
    archives: Seq<Archive>,
    ledger: Map<Seq<char>, crate::ledger::EntryView>,
    groups: Seq<GroupView>,
) -> Seq<TaskView>
    decreases groups.len(),
{
    if groups.len() == 0 {
        Seq::empty()
    } else {
        let r = candidates_of(only, archives, ledger, groups.drop_last());
        match candidate(only, archives, ledger, groups.last()) {
            Some(t) => r.push(t),
            None => r,
        }
    }
}

/// Law: a play whose title contains the filter text, and that has parts the ledger
/// does not hold for its chosen archive, gets a task: its title, that archive, and
/// exactly those parts.
pub proof fn lemma_matching_play_gets_task(
    f: Seq<char>,
    archives: Seq<Archive>,
    ledger: Map<Seq<char>, crate::ledger::EntryView>,
    groups: Seq<GroupView>,
    i: int,
)
    requires
        0 <= i < groups.len(),
        contains_text(groups[i].0, f),
        pending_parts(groups[i].1, ledger, chosen_bv(archives, groups[i].0)).len() > 0,
    ensures
        exists|k: int|
            0 <= k < candidates_of(Some(f), archives, ledger, groups).len() && #[trigger] candidates_of(
                Some(f),
                archives,
                ledger,
                groups,
            )[k] == (TaskView {
                title: groups[i].0,
                bv: chosen_bv(archives, groups[i].0),
                parts: pending_parts(groups[i].1, ledger, chosen_bv(archives, groups[i].0)),
            }),
    decreases groups.len(),
{
    let c = candidates_of(Some(f), archives, ledger, groups);
    let r = candidates_of(Some(f), archives, ledger, groups.drop_last());
    let want = TaskView {
        title: groups[i].0,
        bv: chosen_bv(archives, groups[i].0),
        parts: pending_parts(groups[i].1, ledger, chosen_bv(archives, groups[i].0)),
    };
    if i == groups.len() - 1 {
        assert(candidate(Some(f), archives, ledger, groups.last()) == Some(want));
        assert(c == r.push(want));
        assert(c[r.len() as int] == want);
    } else {
        assert(groups.drop_last()[i] == groups[i]);
        lemma_matching_play_gets_task(f, archives, ledger, groups.drop_last(), i);
        let k = choose|k: int| 0 <= k < r.len() && #[trigger] r[k] == want;
        match candidate(Some(f), archives, ledger, groups.last()) {
            Some(t) => {
                assert(c == r.push(t));
                assert(c[k] == want);
            },
            None => {
                assert(c == r);
            },
        }
    }
}

/// Law: every candidate task passes the title filter, has at least one part, and holds
/// no part that the ledger records for its archive.
pub proof fn lemma_candidates_pending(
    only: Option<Seq<char>>,
    archives: Seq<Archive>,
    ledger: Map<Seq<char>, crate::ledger::EntryView>,
    groups: Seq<GroupView>,
    i: int,
    j: int,
)
    requires
        0 <= i < candidates_of(only, archives, ledger, groups).len(),
    ensures
        selected(only, candidates_of(only, archives, ledger, groups)[i].title),
        candidates_of(only, archives, ledger, groups)[i].parts.len() > 0,
        candidates_of(only, archives, ledger, groups)[i].bv == chosen_bv(
            archives,
            candidates_of(only, archives, ledger, groups)[i].title,
        ),
        0 <= j < candidates_of(only, archives, ledger, groups)[i].parts.len() ==> not_recorded(
            ledger,
            candidates_of(only, archives, ledger, groups)[i].bv,
            candidates_of(only, archives, ledger, groups)[i].parts[j],
        ),
    decreases groups.len(),
{
    let r = candidates_of(only, archives, ledger, groups.drop_last());
    if i < r.len() {
        lemma_candidates_pending(only, archives, ledger, groups.drop_last(), i, j);
    } else {
        let g = groups.last();
        let bv = chosen_bv(archives, g.0);
        let parts = pending_parts(g.1, ledger, bv);
        if 0 <= j < parts.len() {
            g.1.lemma_filter_pred(|u: UrlView| not_recorded(ledger, bv, u), j);
        }
    }
}

/// The view of an optional string.
pub open spec fn opt_view(o: Option<String>) -> Option<Seq<char>> {
    match o {
        Some(s) => Some(s@),
        None => None,
    }
}

/// The parts of `range` that the ledger does not hold for archive `bv`.
fn pending(range: &Vec<VideoUrl>, ledger: &Ledger, bv: &String) -> (r: Vec<VideoUrl>)
    requires
        ledger.wf(),
    ensures
        url_views(r@) == pending_parts(url_views(range@), ledger@, bv@),
{
    let ghost pred = |u: UrlView| not_recorded(ledger@, bv@, u);
    let mut r: Vec<VideoUrl> = Vec::new();
    let mut i: usize = 0;
    while i < range.len()
        invariant
            i <= range@.len(),
            ledger.wf(),
            pred == (|u: UrlView| not_recorded(ledger@, bv@, u)),
            url_views(r@) == url_views(range@).take(i as int).filter(pred),
        decreases range@.len() - i,
    {
        let u = &range[i];
        let key = part_key(u);
        let found = ledger.contains(key.as_str(), Some(bv.as_str()));
        proof {
            reveal_with_fuel(Seq::filter, 1);
            assert(url_views(range@).take(i + 1).drop_last() =~= url_views(range@).take(i as int));
            assert(url_views(range@).take(i + 1).last() == url_view(range@[i as int]));
        }
        let ghost before = r@;
        if found.is_none() {
            r.push(u.duplicate());
            assert(url_views(r@) =~= url_views(before).push(url_view(range@[i as int])));
        }
        i = i + 1;
    }
    assert(url_views(range@).take(range@.len() as int) =~= url_views(range@));
    r
}

/// The tasks for the given plays: each play that passes the title filter gets the
/// archive chosen for its title (or none) and the parts the ledger does not hold for
/// that archive; plays with nothing pending are left out.
pub fn plan_candidates(
    only_title: &Option<String>,
    groups: &Vec<VideoGroup>,
    archives: &Vec<Archive>,
    ledger: &Ledger,
) -> (r: Vec<Task>)
    requires
        ledger.wf(),
    ensures
        task_views(r@) == candidates_of(
            opt_view(*only_title),
            archives@,
            ledger@,
            groups@.map_values(|g: VideoGroup| group_view(g)),
        ),
{
    let ghost gv = groups@.map_values(|g: VideoGroup| group_view(g));
    let ghost only = opt_view(*only_title);
    let titles = archive_titles(archives);
    let filter: Option<Vec<char>> = match only_title {
        Some(f) => Some(chars_of(f.as_str())),
        None => None,
    };
    let mut r: Vec<Task> = Vec::new();
    let mut i: usize = 0;
    while i < groups.len()
        invariant
            i <= groups@.len(),
            ledger.wf(),
            gv == groups@.map_values(|g: VideoGroup| group_view(g)),
            titles@.map_values(|t: String| t@) == play_titles(archives@),
            match filter {
                Some(f) => only == Some(f@),
                None => only is None,
            },
            task_views(r@) == candidates_of(only, archives@, ledger@, gv.take(i as int)),
        decreases groups@.len() - i,
    {
        let g = &groups[i];
        proof {
            assert(gv.take(i + 1).drop_last() =~= gv.take(i as int));
            assert(gv.take(i + 1).last() == group_view(*g));
        }
        let pass = match &filter {
            Some(f) => {
                let t = chars_of(g.title.as_str());
                contains_chars(&t, f)
            },
            None => true,
        };
        if pass {
            let bv = bv_for(archives, &titles, g.title.as_str());
            let parts = pending(&g.range, ledger, &bv);
            if parts.len() > 0 {
                let ghost before = r@;
                r.push(Task { title: g.title.clone(), bv, parts });
                assert(task_views(r@) =~= task_views(before).push(r@.last()@));
            }
        }
        i = i + 1;
    }
    assert(gv.take(groups@.len() as int) =~= gv);
    r
}

/// The plays of a listing as `sort_by_title` groups them, as views (the grouping
/// carries no ids, so every id is 0).
pub open spec fn listing_groups(urls: Seq<VideoUrl>) -> Seq<GroupView> {
    xmtv_grouping(listings(urls)).map_values(
        |g: (Seq<char>, Seq<Listing>)|
            (g.0, g.1.map_values(|l: Listing| (l.0, l.1, l.2, l.3, 0u64))),
    )
}

/// The first half of planning: groups the XMTV listing by play and works out, for each
/// play, the archive to use and the parts that the ledger does not hold yet;
/// `build_plan` finishes the plan once the archives' part titles are known.
pub fn candidate_tasks(settings: &Settings, urls: Vec<VideoUrl>, archives: &Vec<Archive>, ledger: &Ledger) -> (r: Vec<Task>)
    requires
        ledger.wf(),
    ensures
        task_views(r@) == candidates_of(
            opt_view(settings.only_title),
            archives@,
            ledger@,
            listing_groups(urls@),
        ),
{
    let ghost u = urls@;
    let groups = sort_by_title(urls);
    proof {
        let gv = groups@.map_values(|g: VideoGroup| group_view(g));
        let lg = listing_groups(u);
        assert forall|i: int| 0 <= i < gv.len() implies gv[i] == lg[i] by {
            let g = xmtv_grouping(listings(u))[i];
            assert(groups@[i].title@ == g.0);
            assert(listings(groups@[i].range@) == g.1);
            let a = url_views(groups@[i].range@);
            let b = g.1.map_values(|l: Listing| (l.0, l.1, l.2, l.3, 0u64));
            assert forall|j: int| 0 <= j < a.len() implies a[j] == b[j] by {
                assert(groups@[i].range@[j].id == 0);
                assert(listings(groups@[i].range@)[j] == g.1[j]);
            }
            assert(a =~= b);
        }
        assert(gv =~= lg);
    }
    plan_candidates(&settings.only_title, &groups, archives, ledger)
}

/// `a` comes before `b` in code-point (and hence UTF-8 byte) order, which is how
/// `String` compares.
pub open spec fn text_lt(a: Seq<char>, b: Seq<char>) -> bool
    decreases a.len(),
{
    if b.len() == 0 {
        false
    } else if a.len() == 0 {
        true
    } else if a[0] != b[0] {
        a[0] < b[0]
    } else {
        text_lt(a.drop_first(), b.drop_first())
    }
}

/// `text_lt` is transitive.
pub proof fn lemma_text_lt_trans(a: Seq<char>, b: Seq<char>, c: Seq<char>)
    requires
        text_lt(a, b),
        text_lt(b, c),
    ensures
        text_lt(a, c),
    decreases a.len(),
{
    if a.len() > 0 && b.len() > 0 && c.len() > 0 && a[0] == b[0] && b[0] == c[0] {
        lemma_text_lt_trans(a.drop_first(), b.drop_first(), c.drop_first());
    }
}

/// `text_lt` is asymmetric.
pub proof fn lemma_text_lt_asym(a: Seq<char>, b: Seq<char>)
    ensures
        !(text_lt(a, b) && text_lt(b, a)),
    decreases a.len(),
{
    if a.len() > 0 && b.len() > 0 && a[0] == b[0] {
        lemma_text_lt_asym(a.drop_first(), b.drop_first());
    }
}

/// Compares two texts by `text_lt`.
pub fn text_less(a: &Vec<char>, b: &Vec<char>) -> (r: bool)
    ensures
        r == text_lt(a@, b@),
{
    let mut i: usize = 0;
    assert(a@.skip(0) =~= a@);
    assert(b@.skip(0) =~= b@);
    assert(a@.subrange(0, 0) =~= b@.subrange(0, 0));
    while i < a.len() && i < b.len() && a[i] == b[i]
        invariant
            i <= a@.len(),
            i <= b@.len(),
            a@.subrange(0, i as int) == b@.subrange(0, i as int),
            text_lt(a@, b@) == text_lt(a@.skip(i as int), b@.skip(i as int)),
        decreases a@.len() - i,
    {
        proof {
            let x = a@.skip(i as int);
            let y = b@.skip(i as int);
            assert(x[0] == y[0]);
            assert(x.drop_first() =~= a@.skip(i + 1));
            assert(y.drop_first() =~= b@.skip(i + 1));
            assert(a@.subrange(0, i + 1) =~= a@.subrange(0, i as int).push(a@[i as int]));
            assert(b@.subrange(0, i + 1) =~= b@.subrange(0, i as int).push(b@[i as int]));
        }
        i = i + 1;
    }
    if i == b.len() {
        false
    } else if i == a.len() {
        true
    } else {
        assert(a@.skip(i as int)[0] == a@[i as int]);
        assert(b@.skip(i as int)[0] == b@[i as int]);
        a[i] < b[i]
    }
}

/// Plan order: fewer parts first, then by title.
pub open spec fn task_before(a: TaskView, b: TaskView) -> bool {
    a.parts.len() < b.parts.len() || (a.parts.len() == b.parts.len() && text_lt(a.title, b.title))
}

/// No task comes after one that it should precede.
pub open spec fn in_plan_order(s: Seq<TaskView>) -> bool {
    forall|i: int, j: int| 0 <= i < j < s.len() ==> !task_before(#[trigger] s[j], #[trigger] s[i])
}

proof fn lemma_task_before_trans(a: TaskView, b: TaskView, c: TaskView)
    requires
        task_before(a, b),
        task_before(b, c),
    ensures
        task_before(a, c),
{
    if a.parts.len() == b.parts.len() && b.parts.len() == c.parts.len() {
        lemma_text_lt_trans(a.title, b.title, c.title);
    }
}

fn task_less(a: &Task, b: &Task) -> (r: bool)
    ensures
        r == task_before(a@, b@),
{
    assert(url_views(a.parts@).len() == a.parts@.len());
    assert(url_views(b.parts@).len() == b.parts@.len());
    if a.parts.len() != b.parts.len() {
        return a.parts.len() < b.parts.len();
    }
    let x = chars_of(a.title.as_str());
    let y = chars_of(b.title.as_str());
    text_less(&x, &y)
}

/// Puts tasks in plan order (fewer parts first, so small jobs finish early). The sort is
/// stable; ties keep the given order.
pub fn sort_plan(tasks: Vec<Task>) -> (r: Vec<Task>)
    ensures
        in_plan_order(task_views(r@)),
        task_views(r@).to_multiset() == task_views(tasks@).to_multiset(),
{
    let ghost orig = tasks@;
    let mut rest = tasks;
    let n = rest.len();
    let mut r: Vec<Task> = Vec::new();
    let mut i: usize = 0;
    assert(orig.skip(0) =~= orig);
    assert(task_views(r@) =~= task_views(orig.take(0)));
    while i < n
        invariant
            n == orig.len(),
            i <= n,
            rest@ == orig.skip(i as int),
            in_plan_order(task_views(r@)),
            task_views(r@).to_multiset() == task_views(orig.take(i as int)).to_multiset(),
        decreases n - i,
    {
        let t = rest.remove(0);
        assert(t == orig[i as int]);
        assert(rest@ =~= orig.skip(i + 1));
        let mut pos: usize = 0;
        while pos < r.len() && !task_less(&t, &r[pos])
            invariant
                pos <= r@.len(),
                forall|q: int| 0 <= q < pos ==> !task_before(t@, #[trigger] task_views(r@)[q]),
            decreases r@.len() - pos,
        {
            pos = pos + 1;
        }
        let ghost old_v = task_views(r@);
        let ghost tv = t@;
        assert(pos < old_v.len() ==> task_before(tv, old_v[pos as int]));
        r.insert(pos, t);
        assert(task_views(r@) =~= old_v.insert(pos as int, tv));
        proof {
            let nv = task_views(r@);
            assert forall|a: int, b: int| 0 <= a < b < nv.len() implies !task_before(
                #[trigger] nv[b],
                #[trigger] nv[a],
            ) by {
                if b < pos {
                    assert(nv[a] == old_v[a] && nv[b] == old_v[b]);
                } else if b == pos {
                    assert(nv[a] == old_v[a]);
                } else if a == pos {
                    assert(nv[b] == old_v[b - 1]);
                    assert(nv[a] == tv);
                    assert(task_before(tv, old_v[pos as int]));
                    if pos < b - 1 {
                        assert(!task_before(old_v[b - 1], old_v[pos as int]));
                    }
                    lemma_text_lt_asym(old_v[pos as int].title, old_v[pos as int].title);
                    if task_before(old_v[b - 1], tv) {
                        lemma_task_before_trans(old_v[b - 1], tv, old_v[pos as int]);
                    }
                } else if a < pos {
                    assert(nv[a] == old_v[a] && nv[b] == old_v[b - 1]);
                } else {
                    assert(nv[a] == old_v[a - 1] && nv[b] == old_v[b - 1]);
                }
            }
            assert(task_views(orig.take(i + 1)) =~= task_views(orig.take(i as int)).push(tv));
            vstd::seq_lib::to_multiset_insert(old_v, pos as int, tv);
            vstd::seq_lib::to_multiset_build(task_views(orig.take(i as int)), tv);
        }
        i = i + 1;
    }
    assert(orig.take(n as int) =~= orig);
    r
}

/// The parts whose (truncated) title is not already in the archive.
pub open spec fn fresh_parts(parts: Seq<UrlView>, existing: Seq<Seq<char>>) -> Seq<UrlView> {
    parts.filter(|u: UrlView| !existing.contains(truncated(u.1)))
}

/// Each task without the parts that its archive already holds (`existing`: the part
/// titles the archive reported); tasks left with nothing are dropped.
pub open spec fn refined(c: Seq<(TaskView, Seq<Seq<char>>)>) -> Seq<TaskView>
    decreases c.len(),
{
    if c.len() == 0 {
        Seq::empty()
    } else {
        let r = refined(c.drop_last());
        let t = c.last().0;
        let parts = fresh_parts(t.parts, c.last().1);
        if parts.len() > 0 {
            r.push(TaskView { title: t.title, bv: t.bv, parts })
        } else {
            r
        }
    }
}

/// The views of the (task, existing part titles) pairs.
pub open spec fn checked_views(c: Seq<(Task, Vec<String>)>) -> Seq<(TaskView, Seq<Seq<char>>)> {
    c.map_values(|p: (Task, Vec<String>)| (p.0@, p.1@.map_values(|s: String| s@)))
}

pub(crate) fn has_title(existing: &Vec<String>, t: &str) -> (r: bool)
    ensures
        r == existing@.map_values(|s: String| s@).contains(t@),
{
    let ghost ev = existing@.map_values(|s: String| s@);
    let mut i: usize = 0;
    while i < existing.len()
        invariant
            i <= existing@.len(),
            ev == existing@.map_values(|s: String| s@),
            forall|j: int| 0 <= j < i ==> ev[j] != t@,
        decreases existing@.len() - i,
    {
        if same_text(existing[i].as_str(), t) {
            assert(ev[i as int] == t@);
            return true;
        }
        i = i + 1;
    }
    false
}

/// Drops the parts that the chosen archives already hold, and the tasks left empty.
/// Tasks without an archive come with no existing titles, so they keep all parts.
pub fn refine_plan(checked: Vec<(Task, Vec<String>)>) -> (r: Vec<Task>)
    ensures
        task_views(r@) == refined(checked_views(checked@)),
{
    let ghost cv = checked_views(checked@);
    let mut r: Vec<Task> = Vec::new();
    let mut i: usize = 0;
    while i < checked.len()
        invariant
            i <= checked@.len(),
            cv == checked_views(checked@),
            task_views(r@) == refined(cv.take(i as int)),
        decreases checked@.len() - i,
    {
        let task = &checked[i].0;
        let existing = &checked[i].1;
        let ghost ex = existing@.map_values(|s: String| s@);
        let ghost pred = |u: UrlView| !ex.contains(truncated(u.1));
        let mut parts: Vec<VideoUrl> = Vec::new();
        let mut j: usize = 0;
        while j < task.parts.len()
            invariant
                j <= task.parts@.len(),
                ex == existing@.map_values(|s: String| s@),
                pred == (|u: UrlView| !ex.contains(truncated(u.1))),
                url_views(parts@) == url_views(task.parts@).take(j as int).filter(pred),
            decreases task.parts@.len() - j,
        {
            let p = &task.parts[j];
            let title = truncate_title(p.name.as_str());
            let known = has_title(existing, title.as_str());
            proof {
                reveal_with_fuel(Seq::filter, 1);
                assert(url_views(task.parts@).take(j + 1).drop_last() =~= url_views(task.parts@).take(j as int));
                assert(url_views(task.parts@).take(j + 1).last() == url_view(task.parts@[j as int]));
            }
            let ghost before = parts@;
            if !known {
                parts.push(p.duplicate());
                assert(url_views(parts@) =~= url_views(before).push(url_view(task.parts@[j as int])));
            }
            j = j + 1;
        }
        assert(url_views(task.parts@).take(task.parts@.len() as int) =~= url_views(task.parts@));
        proof {
            assert(cv.take(i + 1).drop_last() =~= cv.take(i as int));
            assert(cv.take(i + 1).last() == cv[i as int]);
        }
        if parts.len() > 0 {
            let ghost before = r@;
            r.push(Task { title: task.title.clone(), bv: task.bv.clone(), parts });
            assert(task_views(r@) =~= task_views(before).push(r@.last()@));
        }
        i = i + 1;
    }
    assert(cv.take(checked@.len() as int) =~= cv);
    r
}

/// How many parts a task keeps under a per-play limit (a limit of 0 counts as 1).
pub open spec fn part_cap(max_parts: Option<usize>, len: nat) -> nat {
    match max_parts {
        Some(n) => {
            let cap: nat = if n >= 1 { n as nat } else { 1 };
            if len <= cap { len } else { cap }
        },
        None => len,
    }
}

/// A task cut to the per-play limit.
pub open spec fn capped(t: TaskView, max_parts: Option<usize>) -> TaskView {
    TaskView { title: t.title, bv: t.bv, parts: t.parts.take(part_cap(max_parts, t.parts.len()) as int) }
}

/// A plan cut to the limits: each task to `max_parts` parts, and the plan to
/// `max_archives` tasks.
pub open spec fn limited(s: Seq<TaskView>, max_parts: Option<usize>, max_archives: Option<usize>) -> Seq<TaskView> {
    let c = s.map_values(|t: TaskView| capped(t, max_parts));
    match max_archives {
        Some(n) => if n <= c.len() { c.take(n as int) } else { c },
        None => c,
    }
}

/// Every task that refinement keeps has a part left.
proof fn lemma_refined_nonempty(c: Seq<(TaskView, Seq<Seq<char>>)>, i: int)
    requires
        0 <= i < refined(c).len(),
    ensures
        refined(c)[i].parts.len() > 0,
        exists|k: int| 0 <= k < c.len() && #[trigger] c[k].0.title == refined(c)[i].title,
    decreases c.len(),
{
    let r = refined(c.drop_last());
    if i < r.len() {
        lemma_refined_nonempty(c.drop_last(), i);
        let k = choose|k: int| 0 <= k < c.drop_last().len() && #[trigger] c.drop_last()[k].0.title == r[i].title;
        assert(c[k] == c.drop_last()[k]);
    } else {
        assert(c[c.len() - 1].0.title == refined(c)[i].title);
    }
}

/// Cutting a plan to the limits keeps its order: parts never come out of order by
/// count, and without a part cap the plan order itself stays.
proof fn lemma_limited_order(s: Seq<TaskView>, max_parts: Option<usize>, max_archives: Option<usize>)
    requires
        in_plan_order(s),
    ensures
        forall|i: int, j: int|
            0 <= i < j < limited(s, max_parts, max_archives).len() ==> (#[trigger] limited(
                s,
                max_parts,
                max_archives,
            )[i]).parts.len() <= (#[trigger] limited(s, max_parts, max_archives)[j]).parts.len(),
        max_parts is None ==> in_plan_order(limited(s, max_parts, max_archives)),
{
    let l = limited(s, max_parts, max_archives);
    let c = s.map_values(|t: TaskView| capped(t, max_parts));
    assert forall|i: int, j: int| 0 <= i < j < l.len() implies (#[trigger] l[i]).parts.len() <= (#[trigger] l[j]).parts.len() by {
        assert(l[i] == c[i] && l[j] == c[j]);
        assert(!task_before(s[j], s[i]));
        assert(s[i].parts.len() <= s[j].parts.len());
    }
    if max_parts is None {
        assert forall|i: int| 0 <= i < c.len() implies #[trigger] c[i] == s[i] by {
            assert(s[i].parts.take(s[i].parts.len() as int) =~= s[i].parts);
        }
        assert(c =~= s);
        assert forall|i: int, j: int| 0 <= i < j < l.len() implies !task_before(#[trigger] l[j], #[trigger] l[i]) by {
            assert(l[i] == s[i] && l[j] == s[j]);
        }
    }
}

/// Law: in a finished plan (any reordering `s` of the refined tasks, cut to the limits)
/// every task has at least one part and no more than the per-play cap (at least 1),
/// and there are no more tasks than the archive cap.
pub proof fn lemma_finished_plan_bounds(
    checked: Seq<(TaskView, Seq<Seq<char>>)>,
    s: Seq<TaskView>,
    max_parts: Option<usize>,
    max_archives: Option<usize>,
    i: int,
)
    requires
        s.to_multiset() == refined(checked).to_multiset(),
        0 <= i < limited(s, max_parts, max_archives).len(),
    ensures
        limited(s, max_parts, max_archives)[i].parts.len() > 0,
        max_parts matches Some(n) ==> limited(s, max_parts, max_archives)[i].parts.len() <= if n >= 1 {
            n as nat
        } else {
            1nat
        },
        max_archives matches Some(n) ==> limited(s, max_parts, max_archives).len() <= n,
{
    let r = refined(checked);
    let t = s[i];
    s.to_multiset_ensures();
    r.to_multiset_ensures();
    assert(s.contains(t));
    assert(s.to_multiset().count(t) > 0);
    assert(r.to_multiset().count(t) > 0);
    assert(r.contains(t));
    let k = choose|k: int| 0 <= k < r.len() && r[k] == t;
    lemma_refined_nonempty(checked, k);
    let c = s.map_values(|x: TaskView| capped(x, max_parts));
    assert(limited(s, max_parts, max_archives)[i] == c[i]);
}

/// Cuts the plan to the limits of `settings`.
pub fn limit_plan(tasks: Vec<Task>, max_parts: Option<usize>, max_archives: Option<usize>) -> (r: Vec<Task>)
    ensures
        task_views(r@) == limited(task_views(tasks@), max_parts, max_archives),
{
    let ghost tv = task_views(tasks@);
    let mut out: Vec<Task> = Vec::new();
    let mut rest = tasks;
    let ghost orig = rest@;
    let n = rest.len();
    let mut i: usize = 0;
    assert(orig.skip(0) =~= orig);
    while i < n
        invariant
            n == orig.len(),
            tv == task_views(orig),
            i <= n,
            rest@ == orig.skip(i as int),
            task_views(out@) == tv.take(i as int).map_values(|t: TaskView| capped(t, max_parts)),
        decreases n - i,
    {
        let mut t = rest.remove(0);
        assert(t == orig[i as int]);
        assert(rest@ =~= orig.skip(i + 1));
        let ghost tv0 = t@;
        match max_parts {
            Some(m) => {
                let cap = if m >= 1 { m } else { 1 };
                t.parts.truncate(cap);
                assert(t@.parts =~= tv0.parts.take(part_cap(max_parts, tv0.parts.len()) as int));
            },
            None => {
                assert(tv0.parts.take(tv0.parts.len() as int) =~= tv0.parts);
            },
        }
        let ghost before = out@;
        out.push(t);
        assert(task_views(out@) =~= task_views(before).push(capped(tv0, max_parts)));
        assert(tv.take(i + 1).map_values(|t: TaskView| capped(t, max_parts)) =~= tv.take(i as int).map_values(|t: TaskView| capped(t, max_parts)).push(capped(tv0, max_parts)));
        i = i + 1;
    }
    assert(tv.take(n as int) =~= tv);
    match max_archives {
        Some(k) => {
            let ghost full = task_views(out@);
            out.truncate(k);
            assert(task_views(out@) =~= (if k <= full.len() { full.take(k as int) } else { full }));
        },
        None => {},
    }
    out
}

/// The second half of planning, after each archive has reported its part titles: drops
/// the parts already in their archive and the tasks left empty, puts the rest in plan
/// order, and cuts the plan to the limits of `settings`.
pub fn finish_plan(checked: Vec<(Task, Vec<String>)>, settings: &Settings) -> (r: Vec<Task>)
    ensures
        exists|s: Seq<TaskView>|
            #![trigger in_plan_order(s)]
            in_plan_order(s) && s.to_multiset() == refined(checked_views(checked@)).to_multiset()
                && task_views(r@) == limited(s, settings.max_parts, settings.max_archives),
{
    let refined_tasks = refine_plan(checked);
    let sorted = sort_plan(refined_tasks);
    let ghost s = task_views(sorted@);
    let r = limit_plan(sorted, settings.max_parts, settings.max_archives);
    assert(in_plan_order(s));
    r
}

/// The part titles fetched for archive `bv`: those of the first fetched (BV id, titles)
/// pair for it; none for a play without an archive, or for an archive whose titles
/// could not be fetched.
pub open spec fn titles_for(fetched: Seq<(Seq<char>, Seq<Seq<char>>)>, bv: Seq<char>) -> Seq<Seq<char>>
    decreases fetched.len(),
{
    if bv.len() == 0 || fetched.len() == 0 {
        Seq::empty()
    } else if fetched[0].0 == bv {
        fetched[0].1
    } else {
        titles_for(fetched.drop_first(), bv)
    }
}

/// The views of fetched (BV id, part titles) pairs.
pub open spec fn fetched_views(f: Seq<(String, Vec<String>)>) -> Seq<(Seq<char>, Seq<Seq<char>>)> {
    f.map_values(|p: (String, Vec<String>)| (p.0@, p.1@.map_values(|s: String| s@)))
}

/// Each task with the part titles fetched for its archive.
pub open spec fn with_titles(tasks: Seq<TaskView>, fetched: Seq<(Seq<char>, Seq<Seq<char>>)>) -> Seq<(TaskView, Seq<Seq<char>>)> {
    tasks.map_values(|t: TaskView| (t, titles_for(fetched, t.bv)))
}

/// Looks up the part titles fetched for archive `bv`.
fn fetched_titles(fetched: &Vec<(String, Vec<String>)>, bv: &str) -> (r: Vec<String>)
    ensures
        r@.map_values(|s: String| s@) == titles_for(fetched_views(fetched@), bv@),
{
    let ghost fv = fetched_views(fetched@);
    if bv.is_empty() {
        let e: Vec<String> = Vec::new();
        assert(e@.map_values(|s: String| s@) =~= Seq::<Seq<char>>::empty());
        return e;
    }
    let mut i: usize = 0;
    assert(fv.skip(0) =~= fv);
    while i < fetched.len()
        invariant
            i <= fetched@.len(),
            fv == fetched_views(fetched@),
            bv@.len() > 0,
            titles_for(fv, bv@) == titles_for(fv.skip(i as int), bv@),
        decreases fetched@.len() - i,
    {
        assert(fv.skip(i as int)[0] == fv[i as int]);
        if same_text(fetched[i].0.as_str(), bv) {
            let src = &fetched[i].1;
            let mut r: Vec<String> = Vec::new();
            let mut j: usize = 0;
            while j < src.len()
                invariant
                    j <= src@.len(),
                    r@.len() == j,
                    forall|k: int| 0 <= k < j ==> (#[trigger] r@[k])@ == src@[k]@,
                decreases src@.len() - j,
            {
                r.push(src[j].clone());
                j = j + 1;
            }
            assert(r@.map_values(|s: String| s@) =~= src@.map_values(|s: String| s@));
            return r;
        }
        assert(fv.skip(i as int).drop_first() =~= fv.skip(i + 1));
        i = i + 1;
    }
    let e: Vec<String> = Vec::new();
    assert(e@.map_values(|s: String| s@) =~= Seq::<Seq<char>>::empty());
    e
}

/// The plan: the candidate tasks (`candidate_tasks`), each cut down by the part titles
/// fetched for its archive (`fetched` pairs a BV id with the titles of its parts; an
/// archive whose titles could not be fetched has no pair and loses no part), then put
/// in plan order (fewest parts first, then by title) and cut to the limits of
/// `settings`. Every task that comes out passes the title filter, has at least one
/// part and no more than the part cap (at least 1); there are no more tasks than the
/// archive cap.
pub fn build_plan(
    settings: &Settings,
    urls: Vec<VideoUrl>,
    archives: &Vec<Archive>,
    ledger: &Ledger,
    fetched: &Vec<(String, Vec<String>)>,
) -> (r: Vec<Task>)
    requires
        ledger.wf(),
    ensures
        exists|s: Seq<TaskView>|
            #![trigger in_plan_order(s)]
            in_plan_order(s) && s.to_multiset() == refined(
                with_titles(
                    candidates_of(opt_view(settings.only_title), archives@, ledger@, listing_groups(urls@)),
                    fetched_views(fetched@),
                ),
            ).to_multiset() && task_views(r@) == limited(s, settings.max_parts, settings.max_archives),
        forall|i: int, j: int|
            0 <= i < j < r@.len() ==> (#[trigger] r@[i]).parts@.len() <= (#[trigger] r@[j]).parts@.len(),
        settings.max_parts is None ==> in_plan_order(task_views(r@)),
        forall|i: int|
            0 <= i < r@.len() ==> {
                &&& (#[trigger] r@[i]).parts@.len() > 0
                &&& selected(opt_view(settings.only_title), r@[i].title@)
                &&& (settings.max_parts matches Some(n) ==> r@[i].parts@.len() <= if n >= 1 {
                    n as nat
                } else {
                    1nat
                })
            },
        settings.max_archives matches Some(m) ==> r@.len() <= m,
{
    let ghost fv = fetched_views(fetched@);
    let cands = candidate_tasks(settings, urls, archives, ledger);
    let ghost all = cands@;
    let ghost tv = task_views(all);
    let mut rest = cands;
    let n = rest.len();
    let mut checked: Vec<(Task, Vec<String>)> = Vec::new();
    let mut i: usize = 0;
    assert(all.skip(0) =~= all);
    while i < n
        invariant
            n == all.len(),
            i <= n,
            rest@ == all.skip(i as int),
            tv == task_views(all),
            fv == fetched_views(fetched@),
            checked@.len() == i,
            forall|k: int| 0 <= k < i ==> #[trigger] checked_views(checked@)[k] == (tv[k], titles_for(fv, tv[k].bv)),
        decreases n - i,
    {
        let t = rest.remove(0);
        assert(t == all[i as int]);
        assert(rest@ =~= all.skip(i + 1));
        let titles = fetched_titles(fetched, t.bv.as_str());
        let ghost before = checked@;
        checked.push((t, titles));
        assert forall|k: int| 0 <= k < i + 1 implies #[trigger] checked_views(checked@)[k] == (tv[k], titles_for(fv, tv[k].bv)) by {
            if k < i {
                assert(checked@[k] == before[k]);
                assert(checked_views(before)[k] == checked_views(checked@)[k]);
            }
        }
        i = i + 1;
    }
    assert(checked_views(checked@) =~= with_titles(tv, fv));
    let ghost c = with_titles(tv, fv);
    let r = finish_plan(checked, settings);
    proof {
        let only = opt_view(settings.only_title);
        let s = choose|s: Seq<TaskView>|
            #![trigger in_plan_order(s)]
            in_plan_order(s) && s.to_multiset() == refined(c).to_multiset() && task_views(r@)
                == limited(s, settings.max_parts, settings.max_archives);
        let l = limited(s, settings.max_parts, settings.max_archives);
        lemma_limited_order(s, settings.max_parts, settings.max_archives);
        assert forall|i: int| 0 <= i < r@.len() implies l[i].parts.len() == (#[trigger] r@[i]).parts@.len() by {
            assert(task_views(r@)[i] == r@[i]@);
        }
        assert forall|i: int, j: int| 0 <= i < j < r@.len() implies (#[trigger] r@[i]).parts@.len() <= (#[trigger] r@[j]).parts@.len() by {
            assert(l[i].parts.len() <= l[j].parts.len());
        }
        assert forall|i: int| 0 <= i < r@.len() implies {
            &&& (#[trigger] r@[i]).parts@.len() > 0
            &&& selected(only, r@[i].title@)
            &&& (settings.max_parts matches Some(n) ==> r@[i].parts@.len() <= if n >= 1 {
                n as nat
            } else {
                1nat
            })
        } by {
            lemma_finished_plan_bounds(c, s, settings.max_parts, settings.max_archives, i);
            let t = s[i];
            assert(l[i].title == t.title) by {
                let cc = s.map_values(|x: TaskView| capped(x, settings.max_parts));
                assert(l[i] == cc[i]);
            }
            assert(task_views(r@)[i] == r@[i]@);
            s.to_multiset_ensures();
            refined(c).to_multiset_ensures();
            assert(s.contains(t));
            assert(s.to_multiset().count(t) > 0);
            assert(refined(c).to_multiset().count(t) > 0);
            let q = choose|q: int| 0 <= q < refined(c).len() && refined(c)[q] == t;
            lemma_refined_nonempty(c, q);
            let k = choose|k: int| 0 <= k < c.len() && #[trigger] c[k].0.title == refined(c)[q].title;
            assert(c[k].0 == tv[k]);
            lemma_candidates_pending(only, archives@, ledger@, listing_groups(urls@), k, 0);
        }
        assert(r@.len() == task_views(r@).len());
        if settings.max_parts is None {
            assert(task_views(r@) == l);
        }
    }
    r
}

} // verus!
