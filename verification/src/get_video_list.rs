//! Episodes as the XMTV listing describes them, and their grouping into plays.
use crate::config::{keyword, keyword_chars};
use crate::text::{
    chars_of, contains_text, find_chars, occurs_at, first_piece, first_piece_chars, lemma_first_piece_at,
    parse_u32, parse_u32_spec, remove_char, replace_char, slice_chars, string_of,
};
use vstd::prelude::*;

pub use crate::get_download_list::add_url;

verus! {

/// One episode of a play on XMTV.
#[derive(Debug, Clone)]
pub struct VideoUrl {
    /// Play title.
    pub title: String,
    /// Episode name (the part title on bilibili).
    pub name: String,
    /// Share page of the episode.
    pub url: String,
    /// Broadcast date, as the listing writes it (e.g. 20240101).
    pub time: u128,
    /// Stable id of the episode, 0 when the listing gives none.
    pub id: u64,
}

impl VideoUrl {
    /// A copy of this episode.
    pub fn duplicate(&self) -> (r: VideoUrl)
        ensures
            r == *self,
    {
        VideoUrl {
            title: self.title.clone(),
            name: self.name.clone(),
            url: self.url.clone(),
            time: self.time,
            id: self.id,
        }
    }
}

/// What an episode says: title, name, url, time and id.
pub type UrlView = (Seq<char>, Seq<char>, Seq<char>, u128, u64);

/// The view of an episode.
pub open spec fn url_view(u: VideoUrl) -> UrlView {
    (u.title@, u.name@, u.url@, u.time, u.id)
}

/// The views of a list of episodes.
pub open spec fn url_views(s: Seq<VideoUrl>) -> Seq<UrlView> {
    s.map_values(|u: VideoUrl| url_view(u))
}

/// A play title with the views of its episodes.
pub type GroupView = (Seq<char>, Seq<UrlView>);

/// The view of a group.
pub open spec fn group_view(g: VideoGroup) -> GroupView {
    (g.title@, url_views(g.range@))
}

/// What an episode is made of, apart from its id.
pub type Listing = (Seq<char>, Seq<char>, Seq<char>, u128);

/// The listing fields of an episode.
pub open spec fn listing(u: VideoUrl) -> Listing {
    (u.title@, u.name@, u.url@, u.time)
}

/// The listing fields of each episode.
pub open spec fn listings(s: Seq<VideoUrl>) -> Seq<Listing> {
    s.map_values(|u: VideoUrl| listing(u))
}

/// The entries broadcast at `time`.
pub open spec fn at_time(s: Seq<Listing>, time: u128) -> Seq<Listing> {
    s.filter(|x: Listing| x.3 == time)
}

/// The entries of play `title` broadcast at `time`.
pub open spec fn of_title_at_time(s: Seq<Listing>, title: Seq<char>, time: u128) -> Seq<Listing> {
    s.filter(|x: Listing| x.0 == title && x.3 == time)
}

/// The episodes of one play.
#[derive(Debug, Clone)]
pub struct VideoGroup {
    /// Play title.
    pub title: String,
    /// Its episodes.
    pub range: Vec<VideoUrl>,
}

/// The grouping of a listing by play, as `xmtv_api::sort_by_title` makes it.
pub uninterp spec fn xmtv_grouping(urls: Seq<Listing>) -> Seq<(Seq<char>, Seq<Listing>)>;

/// The distinct values of `s`, in the order of their first appearance.
pub open spec fn first_appearances(s: Seq<Seq<char>>) -> Seq<Seq<char>>
    decreases s.len(),
{
    if s.len() == 0 {
        Seq::empty()
    } else {
        let r = first_appearances(s.drop_last());
        if r.contains(s.last()) {
            r
        } else {
            r.push(s.last())
        }
    }
}

/// Groups episodes by play title with `xmtv_api::sort_by_title`.
///
/// Trusted: the contract states what that function's source does. Groups come in
/// the order in which their titles first appear; each group holds exactly the
/// episodes of its title, ordered by `time`, and episodes with the same `time`
/// keep their order from the input (the sort is stable). The crate's episode type
/// carries no id, so every episode comes back with id 0.
#[verifier::external_body]
pub fn sort_by_title(urls: Vec<VideoUrl>) -> (res: Vec<VideoGroup>)
    ensures
        res@.len() == xmtv_grouping(listings(urls@)).len(),
        forall|i: int|
            0 <= i < res@.len() ==> {
                let g = xmtv_grouping(listings(urls@))[i];
                &&& #[trigger] res@[i].title@ == g.0
                &&& listings(res@[i].range@) == g.1
            },
        forall|i: int, j: int|
            0 <= i < res@.len() && 0 <= j < res@[i].range@.len() ==> #[trigger] res@[i].range@[j].id
                == 0,
        res@.map_values(|g: VideoGroup| g.title@) == first_appearances(
            urls@.map_values(|u: VideoUrl| u.title@),
        ),
        forall|i: int, a: int, b: int|
            0 <= i < res@.len() && 0 <= a < b < res@[i].range@.len() ==> #[trigger] res@[i].range@[a].time
                <= #[trigger] res@[i].range@[b].time,
        forall|i: int, k: u128|
            0 <= i < res@.len() ==> #[trigger] at_time(listings(res@[i].range@), k)
                == of_title_at_time(listings(urls@), res@[i].title@, k),
{
    let input = urls.into_iter().map(|u| xmtv_api::VideoUrl { title: u.title, name: u.name, url: u.url, time: u.time }).collect();
    xmtv_api::sort_by_title(input).into_iter().map(|g| VideoGroup {
        title: g.title,
        range: g.range.into_iter().map(|u| VideoUrl { title: u.title, name: u.name, url: u.url, time: u.time, id: 0 }).collect(),
    }).collect()
}



/// What follows the first occurrence of `pat` in `hay`.
pub open spec fn after_first(hay: Seq<char>, pat: Seq<char>) -> Seq<char> {
    hay.skip((first_piece(hay, pat).len() + pat.len()) as int)
}

/// The play title in an XMTV listing name: the text before the programme name, cut at
/// the first bracket (full-width or not), with every space removed.
pub open spec fn listing_play(name: Seq<char>) -> Seq<char> {
    first_piece(
        first_piece(name, keyword()).map_values(|x: char| if x == '（' { '(' } else { x }),
        seq!['('],
    ).filter(|x: char| x != ' ')
}

/// The date word of an XMTV listing name: after the programme name comes a space-separated
/// list whose second word is the broadcast date (dots allowed, as in 2024.01.01).
pub open spec fn listing_date_word(name: Seq<char>) -> Seq<char> {
    let rest = after_first(name, keyword());
    first_piece(after_first(rest, seq![' ']), seq![' '])
}

/// The broadcast date of an XMTV listing name, as a number, when the date word is one.
pub open spec fn listing_time(name: Seq<char>) -> Option<u32> {
    parse_u32_spec(listing_date_word(name).filter(|x: char| x != '.'))
}

/// Reads the play title and the broadcast date out of an XMTV listing name, such as
/// `白蛇传（1） 斗阵来看戏 2024.01.01`. `None` when the date word is not a number.
pub fn parse_listing_name(name: &str) -> (r: Option<(String, u32)>)
    requires
        contains_text(name@, keyword()),
        contains_text(after_first(name@, keyword()), seq![' ']),
    ensures
        match r {
            Some(p) => p.0@ == listing_play(name@) && listing_time(name@) == Some(p.1),
            None => listing_time(name@) is None,
        },
{
    let v = chars_of(name);
    let kw = keyword_chars();
    let k = match find_chars(&v, &kw) {
        Some(k) => k,
        None => {
            return None;
        },
    };
    proof {
        lemma_first_piece_at(v@, kw@, k as int);
    }
    let head = slice_chars(&v, 0, k);
    assert(head@ =~= first_piece(name@, keyword()));
    let head = replace_char(&head, '（', '(');
    let paren: Vec<char> = vec!['('];
    assert(paren@ =~= seq!['(']);
    let head = first_piece_chars(&head, &paren);
    let title = remove_char(&head, ' ');
    assert(occurs_at(v@, kw@, k as int));
    let n = v.len();
    let kl = kw.len();
    assert(k + kl <= n);
    let rest = slice_chars(&v, k + kl, n);
    assert(rest@ =~= after_first(name@, keyword()));
    let sp: Vec<char> = vec![' '];
    assert(sp@ =~= seq![' ']);
    let j = match find_chars(&rest, &sp) {
        Some(j) => j,
        None => {
            return None;
        },
    };
    proof {
        lemma_first_piece_at(rest@, sp@, j as int);
    }
    assert(occurs_at(rest@, sp@, j as int));
    let after = slice_chars(&rest, j + 1, rest.len());
    assert(after@ =~= after_first(rest@, seq![' ']));
    let word = first_piece_chars(&after, &sp);
    let digits = remove_char(&word, '.');
    match parse_u32(&digits) {
        Some(t) => Some((string_of(&title), t)),
        None => None,
    }
}

} // verus!
