//! Which episodes of a play still have to be uploaded, judged by the parts its archive
//! already holds.
use crate::catalog::has_title;
use crate::get_download_list::{video_view, video_views, Video, VideoView};
use crate::get_video_list::{url_views, UrlView, VideoUrl};
use vstd::prelude::*;

verus! {

/// Whether an episode's name is missing from the part titles `existing`.
pub open spec fn not_uploaded(existing: Seq<Seq<char>>) -> spec_fn(UrlView) -> bool {
    |u: UrlView| !existing.contains(u.1)
}

/// A play with the episodes its archive already holds (by part title) taken out; a
/// play without an archive keeps all its episodes.
pub open spec fn left_to_upload(v: VideoView, existing: Seq<Seq<char>>) -> VideoView {
    if v.1.len() == 0 {
        v
    } else {
        (v.0, v.1, v.2.filter(not_uploaded(existing)))
    }
}

/// The titles of a list of strings.
pub open spec fn texts(s: Seq<String>) -> Seq<Seq<char>> {
    s.map_values(|t: String| t@)
}

/// The episodes of `video` that are not yet in its archive: `existing` holds the part
/// titles of the archive (it is not looked at when the play has no archive).
pub fn fliter(video: &Video, existing: &Vec<String>) -> (r: Video)
    ensures
        video_view(r) == left_to_upload(video_view(*video), texts(existing@)),
{
    let ghost ev = texts(existing@);
    let ghost all = url_views(video.range@);
    let ghost keep = not_uploaded(ev);
    let no_archive = video.bv.as_str().is_empty();
    proof {
        if no_archive {
            assert(video.bv@.len() == 0);
        }
    }
    let mut range: Vec<VideoUrl> = Vec::new();
    let mut i: usize = 0;
    while i < video.range.len()
        invariant
            i <= video.range@.len(),
            all == url_views(video.range@),
            ev == texts(existing@),
            keep == not_uploaded(ev),
            url_views(range@) == if no_archive {
                all.take(i as int)
            } else {
                all.take(i as int).filter(keep)
            },
        decreases video.range@.len() - i,
    {
        let u = &video.range[i];
        let ghost before = url_views(range@);
        assert(all.take(i + 1) =~= all.take(i as int).push(all[i as int]));
        proof {
            all.take(i as int).lemma_filter_push(all[i as int], keep);
        }
        if no_archive || !has_title(existing, u.name.as_str()) {
            range.push(u.duplicate());
            assert(url_views(range@) =~= before.push(all[i as int]));
        }
        i = i + 1;
    }
    assert(all.take(video.range@.len() as int) =~= all);
    Video { title: video.title.clone(), bv: video.bv.clone(), range }
}

/// The plays left to upload: each play with the part titles its archive holds, cut
/// down by `fliter`; plays with nothing left are dropped.
pub open spec fn still_to_upload(checked: Seq<(VideoView, Seq<Seq<char>>)>) -> Seq<VideoView> {
    checked.map_values(|c: (VideoView, Seq<Seq<char>>)| left_to_upload(c.0, c.1)).filter(
        |v: VideoView| v.2.len() > 0,
    )
}

/// The views of (play, part titles of its archive) pairs.
pub open spec fn checked_plays(c: Seq<(Video, Vec<String>)>) -> Seq<(VideoView, Seq<Seq<char>>)> {
    c.map_values(|p: (Video, Vec<String>)| (video_view(p.0), texts(p.1@)))
}

/// Runs `fliter` over every play and keeps those with episodes left, in order.
pub fn fliters(checked: Vec<(Video, Vec<String>)>) -> (r: Vec<Video>)
    ensures
        video_views(r@) == still_to_upload(checked_plays(checked@)),
{
    let ghost all = checked_plays(checked@);
    let ghost lf = |c: (VideoView, Seq<Seq<char>>)| left_to_upload(c.0, c.1);
    let ghost nonempty = |v: VideoView| v.2.len() > 0;
    let mut r: Vec<Video> = Vec::new();
    let mut i: usize = 0;
    while i < checked.len()
        invariant
            i <= checked@.len(),
            all == checked_plays(checked@),
            lf == (|c: (VideoView, Seq<Seq<char>>)| left_to_upload(c.0, c.1)),
            nonempty == (|v: VideoView| v.2.len() > 0),
            video_views(r@) == all.take(i as int).map_values(lf).filter(nonempty),
        decreases checked@.len() - i,
    {
        let c = &checked[i];
        let v = fliter(&c.0, &c.1);
        let ghost before = video_views(r@);
        assert(all[i as int] == (video_view(c.0), texts(c.1@)));
        assert(all.take(i + 1).map_values(lf) =~= all.take(i as int).map_values(lf).push(video_view(v)));
        proof {
            all.take(i as int).map_values(lf).lemma_filter_push(video_view(v), nonempty);
        }
        if v.range.len() > 0 {
            r.push(v);
            assert(video_views(r@) =~= before.push(video_view(v)));
        } else {
            assert(video_view(v).2.len() == 0);
        }
        i = i + 1;
    }
    assert(all.take(checked@.len() as int) =~= all);
    assert(still_to_upload(all) == all.map_values(lf).filter(nonempty));
    r
}

/// The episode to upload first: a play without an archive needs its first episode
/// uploaded to create the archive; a play with an archive needs none.
pub fn first_to_upload(video: &Video) -> (r: Option<VideoUrl>)
    requires
        video.bv@.len() == 0 ==> video.range@.len() > 0,
    ensures
        video.bv@.len() == 0 ==> r == Some(video.range@[0]),
        video.bv@.len() > 0 ==> r is None,
{
    if video.bv.as_str().is_empty() {
        Some(video.range[0].duplicate())
    } else {
        None
    }
}

} // verus!
