//! Plays as they stand on bilibili (title and BV id) together with the XMTV episodes
//! that belong to them.
use crate::get_video_list::{first_appearances, url_view, url_views, UrlView, VideoUrl};
use crate::text::{chars_of, first_piece, first_piece_chars, same_text, string_of};
use vstd::prelude::*;

verus! {

/// A play: its title, the BV id of its archive (empty when it has none yet) and its
/// episodes.
#[derive(Debug)]
pub struct Video {
    /// Play title.
    pub title: String,
    /// BV id of the archive, empty when the play has no archive.
    pub bv: String,
    /// Episodes of the play.
    pub range: Vec<VideoUrl>,
}

/// Title, BV id and episodes of a play.
pub type VideoView = (Seq<char>, Seq<char>, Seq<UrlView>);

/// The view of a play.
pub open spec fn video_view(v: Video) -> VideoView {
    (v.title@, v.bv@, url_views(v.range@))
}

/// The views of a list of plays.
pub open spec fn video_views(s: Seq<Video>) -> Seq<VideoView> {
    s.map_values(|v: Video| video_view(v))
}

/// Whether an episode was broadcast at `time`.
pub open spec fn broadcast_at(time: u128) -> spec_fn(UrlView) -> bool {
    |u: UrlView| u.3 == time
}

/// The episodes broadcast at `time`.
pub open spec fn timed(r: Seq<UrlView>, time: u128) -> Seq<UrlView> {
    r.filter(broadcast_at(time))
}

/// Episodes in order of broadcast time.
pub open spec fn time_sorted(r: Seq<UrlView>) -> bool {
    forall|a: int, b: int| 0 <= a < b < r.len() ==> #[trigger] r[a].3 <= #[trigger] r[b].3
}

/// `r` is `s` sorted by broadcast time with a stable sort: ordered by time, and the
/// episodes of each time in the order they have in `s`.
pub open spec fn stably_sorted(r: Seq<UrlView>, s: Seq<UrlView>) -> bool {
    time_sorted(r) && forall|k: u128| #[trigger] timed(r, k) == timed(s, k)
}

/// Inserting `x` where every element before has a time at most its time and every
/// element after a greater time adds `x` to the end of its time's episodes.
proof fn lemma_timed_insert(s: Seq<UrlView>, p: int, x: UrlView, k: u128)
    requires
        0 <= p <= s.len(),
        forall|j: int| p <= j < s.len() ==> #[trigger] s[j].3 > x.3,
    ensures
        timed(s.insert(p, x), k) == if k == x.3 {
            timed(s, k).push(x)
        } else {
            timed(s, k)
        },
{
    let f = broadcast_at(k);
    let a = s.take(p);
    let b = s.skip(p);
    assert(s.insert(p, x) =~= (a + seq![x]) + b);
    assert(s =~= a + b);
    assert(timed(s.insert(p, x), k) == timed(a + seq![x], k) + timed(b, k)) by {
        Seq::filter_distributes_over_add(a + seq![x], b, f);
    }
    assert(timed(a + seq![x], k) == timed(a, k) + timed(seq![x], k)) by {
        Seq::filter_distributes_over_add(a, seq![x], f);
    }
    assert(timed(s, k) == timed(a, k) + timed(b, k)) by {
        Seq::filter_distributes_over_add(a, b, f);
    }
    let e = Seq::<UrlView>::empty();
    assert(seq![x] =~= e.push(x));
    e.lemma_filter_push(x, f);
    assert(timed(e, k) =~= e) by {
        e.lemma_filter_len(f);
    }
    if k == x.3 {
        assert(timed(seq![x], k) =~= seq![x]);
        assert forall|j: int| 0 <= j < b.len() implies !f(#[trigger] b[j]) by {
            assert(b[j] == s[j + p]);
        }
        assert(b.all(|u: UrlView| !f(u)));
        b.lemma_all_neg_filter_empty(f);
        assert(b.filter(f).len() == 0);
        assert(timed(b, k).len() == 0) by {
            b.lemma_all_neg_filter_empty(f);
        }
        assert(timed(b, k) =~= e);
        assert(timed(s.insert(p, x), k) =~= timed(s, k).push(x));
    } else {
        assert(timed(seq![x], k) =~= e);
        assert(timed(s.insert(p, x), k) =~= timed(s, k));
    }
}

/// Sorts episodes by broadcast time, keeping the order of episodes with the same time
/// (`sort_by` on the time).
pub fn sort_by_time(range: Vec<VideoUrl>) -> (r: Vec<VideoUrl>)
    ensures
        stably_sorted(url_views(r@), url_views(range@)),
{
    let ghost all = range@;
    let mut rest = range;
    let n = rest.len();
    let mut out: Vec<VideoUrl> = Vec::new();
    let mut i: usize = 0;
    assert(all.skip(0) =~= all);
    while i < n
        invariant
            n == all.len(),
            i <= n,
            rest@ == all.skip(i as int),
            time_sorted(url_views(out@)),
            forall|k: u128| #[trigger] timed(url_views(out@), k) == timed(url_views(all.take(i as int)), k),
        decreases n - i,
    {
        let x = rest.remove(0);
        assert(x == all[i as int]);
        assert(rest@ =~= all.skip(i + 1));
        let mut p: usize = 0;
        while p < out.len() && out[p].time <= x.time
            invariant
                p <= out@.len(),
                forall|j: int| 0 <= j < p ==> #[trigger] out@[j].time <= x.time,
            decreases out@.len() - p,
        {
            p = p + 1;
        }
        let ghost s = url_views(out@);
        proof {
            assert forall|j: int| p <= j < s.len() implies #[trigger] s[j].3 > x.time by {
                if out@[p as int].time <= x.time {
                    assert(p == out@.len());
                }
                assert(s[p as int].3 > x.time);
                if j > p {
                    assert(s[p as int].3 <= s[j].3);
                }
            }
            assert(url_views(all.take(i + 1)) =~= url_views(all.take(i as int)).push(url_view(x)));
            assert forall|k: u128| #[trigger] timed(s.insert(p as int, url_view(x)), k) == timed(url_views(all.take(i + 1)), k) by {
                lemma_timed_insert(s, p as int, url_view(x), k);
                url_views(all.take(i as int)).lemma_filter_push(url_view(x), broadcast_at(k));
            }
        }
        out.insert(p, x);
        assert(url_views(out@) =~= s.insert(p as int, url_view(x)));
        proof {
            let t = url_views(out@);
            assert forall|a: int, b: int| 0 <= a < b < t.len() implies #[trigger] t[a].3 <= #[trigger] t[b].3 by {
                if a < p && b < p {
                    assert(t[a] == s[a] && t[b] == s[b]);
                } else if a < p {
                    assert(t[a] == s[a]);
                    assert(s[a].3 <= x.time);
                } else if a == p {
                    assert(t[b] == s[b - 1]);
                } else {
                    assert(t[a] == s[a - 1] && t[b] == s[b - 1]);
                }
            }
        }
        i = i + 1;
    }
    assert(all.take(n as int) =~= all);
    out
}

/// Whether an episode belongs to play `t`.
pub open spec fn titled(t: Seq<char>) -> spec_fn(UrlView) -> bool {
    |u: UrlView| u.0 == t
}

/// The episodes of play `t`, in order.
pub open spec fn of_title(urls: Seq<UrlView>, t: Seq<char>) -> Seq<UrlView> {
    urls.filter(titled(t))
}

/// The titles of a list of plays.
pub open spec fn play_titles(videos: Seq<VideoView>) -> Seq<Seq<char>> {
    videos.map_values(|v: VideoView| v.0)
}

/// Whether a title is missing from `titles`.
pub open spec fn absent_from(titles: Seq<Seq<char>>) -> spec_fn(Seq<char>) -> bool {
    |t: Seq<char>| !titles.contains(t)
}

/// The titles of the episodes whose play is not among `videos`, each once, in the
/// order in which they first appear.
pub open spec fn new_titles(videos: Seq<VideoView>, urls: Seq<UrlView>) -> Seq<Seq<char>> {
    first_appearances(urls.map_values(|u: UrlView| u.0).filter(absent_from(play_titles(videos))))
}

/// The plays with the episodes filed under them: every play gets, after its own
/// episodes, the episodes of its title in order; then comes one new play (without a
/// BV id) for each new title, holding the episodes of that title.
pub open spec fn grouped(videos: Seq<VideoView>, urls: Seq<UrlView>) -> Seq<VideoView> {
    videos.map_values(|v: VideoView| (v.0, v.1, v.2 + of_title(urls, v.0))) + new_titles(
        videos,
        urls,
    ).map_values(|t: Seq<char>| (t, Seq::<char>::empty(), of_title(urls, t)))
}

/// A play after episode `u` has been offered to it.
spec fn file_in(v: VideoView, u: UrlView) -> VideoView {
    if v.0 == u.0 {
        (v.0, v.1, v.2.push(u))
    } else {
        v
    }
}

/// The plays after episode `u` has been filed: under every play of its title, or
/// under a new play when there is none.
spec fn filed(vs: Seq<VideoView>, u: UrlView) -> Seq<VideoView> {
    if play_titles(vs).contains(u.0) {
        vs.map_values(|v: VideoView| file_in(v, u))
    } else {
        vs.push((u.0, Seq::<char>::empty(), seq![u]))
    }
}

/// A value that occurs in `s` occurs among its first appearances.
proof fn lemma_first_appearances_contains(s: Seq<Seq<char>>, x: Seq<char>)
    requires
        s.contains(x),
    ensures
        first_appearances(s).contains(x),
    decreases s.len(),
{
    let r = first_appearances(s.drop_last());
    if s.last() == x {
        if !r.contains(x) {
            assert(r.push(x)[r.len() as int] == x);
        }
    } else {
        let j = choose|j: int| 0 <= j < s.len() && s[j] == x;
        assert(j < s.len() - 1);
        assert(s.drop_last()[j] == x);
        lemma_first_appearances_contains(s.drop_last(), x);
        let k = choose|k: int| 0 <= k < r.len() && r[k] == x;
        if !r.contains(s.last()) {
            assert(r.push(s.last())[k] == x);
        }
    }
}

/// Without episodes nothing changes.
proof fn lemma_grouped_empty(videos: Seq<VideoView>)
    ensures
        grouped(videos, Seq::empty()) == videos,
{
    let e = Seq::<UrlView>::empty();
    assert(e.map_values(|u: UrlView| u.0) =~= Seq::<Seq<char>>::empty());
    assert(Seq::<Seq<char>>::empty().filter(absent_from(play_titles(videos))) =~= Seq::<Seq<char>>::empty()) by {
        Seq::<Seq<char>>::empty().lemma_filter_len(absent_from(play_titles(videos)));
    }
    assert forall|t: Seq<char>| #[trigger] of_title(e, t) == e by {
        e.lemma_filter_len(titled(t));
    }
    assert(grouped(videos, e) =~= videos);
}

/// Filing one more episode is `filed`.
proof fn lemma_grouped_push(videos: Seq<VideoView>, urls: Seq<UrlView>, u: UrlView)
    ensures
        grouped(videos, urls.push(u)) == filed(grouped(videos, urls), u),
{
    let t0 = play_titles(videos);
    let w = urls.map_values(|x: UrlView| x.0);
    let fl = w.filter(absent_from(t0));
    let n = new_titles(videos, urls);
    let g = grouped(videos, urls);
    let g2 = grouped(videos, urls.push(u));
    let u2 = urls.push(u);
    assert(u2.map_values(|x: UrlView| x.0) =~= w.push(u.0));
    w.lemma_filter_push(u.0, absent_from(t0));
    assert(fl.push(u.0).drop_last() =~= fl);
    assert(play_titles(g) =~= t0 + n);
    assert forall|t: Seq<char>| #[trigger] of_title(u2, t) == if u.0 == t {
        of_title(urls, t).push(u)
    } else {
        of_title(urls, t)
    } by {
        urls.lemma_filter_push(u, titled(t));
    }
    if play_titles(g).contains(u.0) {
        if !t0.contains(u.0) {
            let j = choose|j: int| 0 <= j < play_titles(g).len() && play_titles(g)[j] == u.0;
            if j < videos.len() {
                assert(t0[j] == u.0);
            }
            assert(n[j - videos.len()] == u.0);
        }
        assert(new_titles(videos, u2) == n);
        let f2 = filed(g, u);
        assert(f2 =~= g.map_values(|v: VideoView| file_in(v, u)));
        assert forall|i: int| 0 <= i < g2.len() implies #[trigger] g2[i] == f2[i] by {
            if i < videos.len() {
                let v = videos[i];
                assert((v.2 + of_title(urls, v.0)).push(u) =~= v.2 + of_title(urls, v.0).push(u));
            }
        }
        assert(g2 =~= f2);
    } else {
        assert(!t0.contains(u.0)) by {
            if t0.contains(u.0) {
                let j = choose|j: int| 0 <= j < t0.len() && t0[j] == u.0;
                assert(play_titles(g)[j] == u.0);
            }
        }
        assert(!n.contains(u.0)) by {
            if n.contains(u.0) {
                let j = choose|j: int| 0 <= j < n.len() && n[j] == u.0;
                assert(play_titles(g)[videos.len() + j] == u.0);
            }
        }
        assert(new_titles(videos, u2) =~= n.push(u.0));
        assert(of_title(urls, u.0).len() == 0) by {
            if of_title(urls, u.0).len() > 0 {
                let x = of_title(urls, u.0)[0];
                urls.lemma_filter_pred(titled(u.0), 0);
                assert(of_title(urls, u.0).contains(x));
                urls.lemma_filter_contains_rev(titled(u.0), x);
                let j = choose|j: int| 0 <= j < urls.len() && urls[j] == x;
                assert(w[j] == u.0);
                assert(w.contains(u.0));
                w.lemma_filter_contains_rev(absent_from(t0), u.0);
                lemma_first_appearances_contains(fl, u.0);
            }
        }
        assert(of_title(u2, u.0) =~= seq![u]);
        let f2 = g.push((u.0, Seq::<char>::empty(), seq![u]));
        assert forall|i: int| 0 <= i < g2.len() implies #[trigger] g2[i] == f2[i] by {
            if i < videos.len() {
                assert(t0[i] != u.0);
            } else if i < videos.len() + n.len() {
                assert(n[i - videos.len()] != u.0);
            }
        }
        assert(g2 =~= f2);
    }
}

/// Law: a stable sort by time keeps exactly the episodes it was given.
pub proof fn lemma_stably_sorted_same_episodes(r: Seq<UrlView>, s: Seq<UrlView>, x: UrlView)
    requires
        stably_sorted(r, s),
    ensures
        r.contains(x) <==> s.contains(x),
{
    let p = broadcast_at(x.3);
    if r.contains(x) {
        let j = choose|j: int| 0 <= j < r.len() && r[j] == x;
        r.lemma_filter_contains(p, j);
        assert(timed(r, x.3) == timed(s, x.3));
        s.lemma_filter_contains_rev(p, x);
    }
    if s.contains(x) {
        let j = choose|j: int| 0 <= j < s.len() && s[j] == x;
        s.lemma_filter_contains(p, j);
        assert(timed(r, x.3) == timed(s, x.3));
        r.lemma_filter_contains_rev(p, x);
    }
}

/// Law: filing loses no episode: every episode ends up among the episodes of a play
/// of its own title.
pub proof fn lemma_every_episode_filed(videos: Seq<VideoView>, urls: Seq<UrlView>, j: int)
    requires
        0 <= j < urls.len(),
    ensures
        exists|i: int|
            0 <= i < grouped(videos, urls).len() && #[trigger] grouped(videos, urls)[i].0 == urls[j].0
                && grouped(videos, urls)[i].2.contains(urls[j]),
{
    let g = grouped(videos, urls);
    let t = urls[j].0;
    let t0 = play_titles(videos);
    urls.lemma_filter_contains(titled(t), j);
    assert(of_title(urls, t).contains(urls[j]));
    if t0.contains(t) {
        let k = choose|k: int| 0 <= k < t0.len() && t0[k] == t;
        let w = videos[k].2 + of_title(urls, t);
        assert(g[k] == (t, videos[k].1, w));
        let m = choose|m: int| 0 <= m < of_title(urls, t).len() && of_title(urls, t)[m] == urls[j];
        assert(w[videos[k].2.len() + m] == urls[j]);
        assert(g[k].2.contains(urls[j]));
        assert(g[k].0 == urls[j].0);
    } else {
        let w = urls.map_values(|x: UrlView| x.0);
        assert(w[j] == t);
        w.lemma_filter_contains(absent_from(t0), j);
        lemma_first_appearances_contains(w.filter(absent_from(t0)), t);
        let n = new_titles(videos, urls);
        let m = choose|m: int| 0 <= m < n.len() && n[m] == t;
        assert(g[videos.len() + m] == (t, Seq::<char>::empty(), of_title(urls, t)));
        assert(g[videos.len() + m].2.contains(urls[j]));
        assert(g[videos.len() + m].0 == urls[j].0);
    }
}

/// Files episode `u` under every play of its title, or under a new play without a
/// BV id when there is none.
fn file_url(videos: Vec<Video>, u: &VideoUrl) -> (r: Vec<Video>)
    ensures
        video_views(r@) == filed(video_views(videos@), url_view(*u)),
{
    let ghost vv = video_views(videos@);
    let ghost uv = url_view(*u);
    let ghost all = videos@;
    let mut rest = videos;
    let n = rest.len();
    let mut next: Vec<Video> = Vec::new();
    let mut exists = false;
    let mut j: usize = 0;
    assert(all.skip(0) =~= all);
    while j < n
        invariant
            n == all.len(),
            j <= n,
            rest@ == all.skip(j as int),
            vv == video_views(all),
            uv == url_view(*u),
            next@.len() == j,
            forall|m: int| 0 <= m < j ==> #[trigger] video_view(next@[m]) == file_in(vv[m], uv),
            exists == (exists|m: int| 0 <= m < j && #[trigger] vv[m].0 == uv.0),
        decreases n - j,
    {
        let mut v = rest.remove(0);
        assert(v == all[j as int]);
        assert(rest@ =~= all.skip(j + 1));
        assert(vv[j as int] == video_view(v));
        if same_text(v.title.as_str(), u.title.as_str()) {
            v.range.push(u.duplicate());
            exists = true;
            assert(url_views(v.range@) =~= vv[j as int].2.push(uv));
            assert(vv[j as int].0 == uv.0);
        } else {
            assert(vv[j as int].0 != uv.0);
        }
        next.push(v);
        j = j + 1;
    }
    if exists {
        proof {
            let m = choose|m: int| 0 <= m < n && #[trigger] vv[m].0 == uv.0;
            assert(play_titles(vv)[m] == uv.0);
        }
        assert(video_views(next@) =~= filed(vv, uv));
        next
    } else {
        proof {
            assert(!play_titles(vv).contains(uv.0)) by {
                if play_titles(vv).contains(uv.0) {
                    let m = choose|m: int| 0 <= m < vv.len() && play_titles(vv)[m] == uv.0;
                    assert(vv[m].0 == uv.0);
                }
            }
        }
        let mut range: Vec<VideoUrl> = Vec::new();
        range.push(u.duplicate());
        next.push(Video { title: u.title.clone(), bv: String::new(), range });
        assert forall|m: int| 0 <= m < n implies #[trigger] video_view(next@[m]) == vv[m] by {
            assert(vv[m].0 != uv.0);
        }
        assert(url_views(next@[n as int].range@) =~= seq![uv]);
        assert(video_views(next@) =~= filed(vv, uv));
        next
    }
}

/// Sorts the episodes of every play by broadcast time (stably).
fn sort_ranges(videos: Vec<Video>) -> (r: Vec<Video>)
    ensures
        r@.len() == videos@.len(),
        forall|i: int|
            0 <= i < r@.len() ==> {
                &&& #[trigger] r@[i].title@ == videos@[i].title@
                &&& r@[i].bv@ == videos@[i].bv@
                &&& stably_sorted(url_views(r@[i].range@), url_views(videos@[i].range@))
            },
{
    let ghost all = videos@;
    let mut rest = videos;
    let n = rest.len();
    let mut next: Vec<Video> = Vec::new();
    let mut j: usize = 0;
    assert(all.skip(0) =~= all);
    while j < n
        invariant
            n == all.len(),
            j <= n,
            rest@ == all.skip(j as int),
            next@.len() == j,
            forall|i: int|
                0 <= i < j ==> {
                    &&& #[trigger] next@[i].title@ == all[i].title@
                    &&& next@[i].bv@ == all[i].bv@
                    &&& stably_sorted(url_views(next@[i].range@), url_views(all[i].range@))
                },
        decreases n - j,
    {
        let v = rest.remove(0);
        assert(v == all[j as int]);
        assert(rest@ =~= all.skip(j + 1));
        let Video { title, bv, range } = v;
        let range = sort_by_time(range);
        next.push(Video { title, bv, range });
        j = j + 1;
    }
    next
}

/// Files each episode under the plays of its title (a play without episodes of its
/// own is made for a title that has no play yet), then sorts the episodes of every
/// play by broadcast time, stably.
pub fn add_url(videos: Vec<Video>, urls: Vec<VideoUrl>) -> (r: Vec<Video>)
    ensures
        r@.len() == grouped(video_views(videos@), url_views(urls@)).len(),
        forall|i: int|
            0 <= i < r@.len() ==> {
                let g = grouped(video_views(videos@), url_views(urls@))[i];
                &&& #[trigger] r@[i].title@ == g.0
                &&& r@[i].bv@ == g.1
                &&& stably_sorted(url_views(r@[i].range@), g.2)
            },
{
    let ghost vv = video_views(videos@);
    let ghost uv = url_views(urls@);
    let mut vs = videos;
    let mut i: usize = 0;
    proof {
        lemma_grouped_empty(vv);
        assert(uv.take(0) =~= Seq::<UrlView>::empty());
    }
    while i < urls.len()
        invariant
            i <= urls@.len(),
            uv == url_views(urls@),
            video_views(vs@) == grouped(vv, uv.take(i as int)),
        decreases urls@.len() - i,
    {
        proof {
            assert(uv.take(i + 1) =~= uv.take(i as int).push(url_view(urls@[i as int])));
            lemma_grouped_push(vv, uv.take(i as int), url_view(urls@[i as int]));
        }
        vs = file_url(vs, &urls[i]);
        i = i + 1;
    }
    assert(uv.take(urls@.len() as int) =~= uv);
    let ghost g = video_views(vs@);
    let r = sort_ranges(vs);
    proof {
        assert forall|i: int| 0 <= i < r@.len() implies {
            &&& #[trigger] r@[i].title@ == g[i].0
            &&& r@[i].bv@ == g[i].1
            &&& stably_sorted(url_views(r@[i].range@), g[i].2)
        } by {
            assert(g[i] == video_view(vs@[i]));
        }
    }
    r
}

/// The play title of a video card: its title up to the first space.
pub open spec fn card_play(title: Seq<char>) -> Seq<char> {
    first_piece(title, seq![' '])
}

/// The play title written in a video card's title (the part before the first space).
pub fn card_title(title: &str) -> (r: String)
    ensures
        r@ == card_play(title@),
{
    let v = chars_of(title);
    let mut sp: Vec<char> = Vec::new();
    sp.push(' ');
    assert(sp@ =~= seq![' ']);
    string_of(&first_piece_chars(&v, &sp))
}

/// A card of the space-dynamics search.
pub enum Card {
    /// A video: the title of the archive and its BV id.
    Video { title: String, bvid: String },
    /// A dynamic that is not a video.
    Dynamic,
}

/// What one page of the space-dynamics search gave.
pub enum SearchPage {
    /// The request failed, or the response code was not 0.
    Failed,
    /// The cards of the page, in order.
    Cards(Vec<Card>),
}

/// What to do after a page.
#[derive(PartialEq, Eq, Structural, Debug)]
pub enum MidStep {
    /// Ask for this page.
    Fetch(u64),
    /// The search is exhausted.
    Done,
}

/// The play a video card stands for, with no episodes yet.
pub open spec fn card_video(c: Card) -> VideoView {
    match c {
        Card::Video { title, bvid } => (card_play(title@), bvid@, Seq::empty()),
        Card::Dynamic => (Seq::empty(), Seq::empty(), Seq::empty()),
    }
}

/// `p` is where the run of video cards at the start of `cards` ends: at the first
/// dynamic, or at the end.
pub open spec fn video_run(cards: Seq<Card>, p: int) -> bool {
    &&& 0 <= p <= cards.len()
    &&& forall|m: int| 0 <= m < p ==> #[trigger] cards[m] is Video
    &&& (p == cards.len() || cards[p] is Dynamic)
}

/// Takes in one page of the space-dynamics search (page `page`) while collecting the
/// plays already on bilibili into `found`. A failed page is asked again; an empty page
/// ends the search; otherwise the video cards are collected up to the first dynamic,
/// whose page is given up there, and the next page is asked for.
pub fn next_page(page: u64, outcome: SearchPage, found: &mut Vec<Video>) -> (r: MidStep)
    requires
        page < u64::MAX,
    ensures
        match outcome {
            SearchPage::Failed => r == MidStep::Fetch(page) && final(found)@ == old(found)@,
            SearchPage::Cards(cards) => if cards@.len() == 0 {
                r == MidStep::Done && final(found)@ == old(found)@
            } else {
                &&& r == MidStep::Fetch((page + 1) as u64)
                &&& exists|p: int| #[trigger] video_run(cards@, p)
                    && video_views(final(found)@) == video_views(old(found)@) + cards@.take(p).map_values(
                    |c: Card| card_video(c),
                )
            },
        },
{
    match outcome {
        SearchPage::Failed => MidStep::Fetch(page),
        SearchPage::Cards(cards) => {
            if cards.len() == 0 {
                return MidStep::Done;
            }
            let ghost all = cards@;
            let ghost f0 = video_views(found@);
            let mut rest = cards;
            let n = rest.len();
            let mut j: usize = 0;
            assert(all.skip(0) =~= all);
            assert(f0 + all.take(0).map_values(|c: Card| card_video(c)) =~= f0);
            let ghost mut stop: int = n as int;
            while j < n
                invariant_except_break
                    stop == n,
                    n == all.len(),
                    j <= n,
                    rest@ == all.skip(j as int),
                    forall|m: int| 0 <= m < j ==> #[trigger] all[m] is Video,
                    video_views(found@) == f0 + all.take(j as int).map_values(|c: Card| card_video(c)),
                ensures
                    video_run(all, stop),
                    video_views(found@) == f0 + all.take(stop).map_values(|c: Card| card_video(c)),
                decreases n - j,
            {
                let c = rest.remove(0);
                assert(c == all[j as int]);
                assert(rest@ =~= all.skip(j + 1));
                match c {
                    Card::Video { title, bvid } => {
                        let t = card_title(title.as_str());
                        let ghost before = video_views(found@);
                        let v = Video { title: t, bv: bvid, range: Vec::new() };
                        assert(video_view(v) == card_video(all[j as int])) by {
                            assert(url_views(v.range@) =~= Seq::<UrlView>::empty());
                        }
                        found.push(v);
                        assert(video_views(found@) =~= before.push(video_view(v)));
                        assert(all.take(j + 1).map_values(|c: Card| card_video(c)) =~= all.take(
                            j as int,
                        ).map_values(|c: Card| card_video(c)).push(card_video(all[j as int])));
                        assert(video_views(found@) =~= f0 + all.take(j + 1).map_values(
                            |c: Card| card_video(c),
                        ));
                    },
                    Card::Dynamic => {
                        proof {
                            stop = j as int;
                        }
                        break;
                    },
                }
                j = j + 1;
            }
            assert(video_run(all, stop));
            MidStep::Fetch(page + 1)
        },
    }
}

} // verus!
