//! What an upload is submitted with, and the cookie string of a login.
use crate::bili::{archive_title_of, ArchiveMeta};
use crate::config::{DESC, SOURCE, TAG, TID};
use crate::text::{joined, lemma_joined_push, push_str_chars, string_of};
use vstd::prelude::*;

verus! {

/// The description of an archive to submit.
pub struct VideoInfo {
    /// Title.
    pub title: String,
    /// 1 for original work, 2 for a repost.
    pub copyright: u8,
    /// Where a repost comes from.
    pub source: String,
    /// Tags, separated by commas.
    pub tag: String,
    /// Zone.
    pub tid: u16,
    /// Description.
    pub desc: String,
}

impl VideoInfo {
    /// The archive for a play: titled `{play} 斗阵来看戏`, in the opera zone, marked as
    /// a repost of XMTV.
    pub fn for_play(play: &str) -> (v: VideoInfo)
        ensures
            v.title@ == archive_title_of(play@),
            v.copyright == 2,
            v.source@ == SOURCE@,
            v.tag@ == TAG@,
            v.tid == TID,
            v.desc@ == DESC@,
    {
        let m = ArchiveMeta::for_play(play);
        VideoInfo {
            title: m.title,
            copyright: m.copyright,
            source: m.source,
            tag: m.tag,
            tid: m.tid,
            desc: m.desc,
        }
    }
}

/// The characters of a cookie field, or none when it is missing.
pub open spec fn field_or_empty(f: Option<String>) -> Seq<char> {
    match f {
        Some(s) => s@,
        None => Seq::empty(),
    }
}

/// `name=value` for every cookie of the login, a missing field written as empty.
pub open spec fn cookie_fields(cookies: Seq<(Option<String>, Option<String>)>) -> Seq<Seq<char>> {
    cookies.map_values(
        |p: (Option<String>, Option<String>)|
            field_or_empty(p.0) + seq!['='] + field_or_empty(p.1),
    )
}

/// The cookie string of a login: `name=value` for each of its cookies (a missing name
/// or value written as empty), separated by ";".
pub fn get_cookie(cookies: &Vec<(Option<String>, Option<String>)>) -> (r: String)
    ensures
        r@ == joined(cookie_fields(cookies@), seq![';']),
{
    let ghost sep = seq![';'];
    let mut r: Vec<char> = Vec::new();
    let mut i: usize = 0;
    while i < cookies.len()
        invariant
            i <= cookies@.len(),
            sep == seq![';'],
            r@ == joined(cookie_fields(cookies@.take(i as int)), sep),
        decreases cookies@.len() - i,
    {
        let ghost before = cookie_fields(cookies@.take(i as int));
        let p = &cookies[i];
        assert(*p == cookies@[i as int]);
        let ghost piece = field_or_empty(p.0) + seq!['='] + field_or_empty(p.1);
        assert(cookie_fields(cookies@.take(i + 1)) =~= before.push(piece));
        proof {
            lemma_joined_push(before, sep, piece);
        }
        if i > 0 {
            r.push(';');
        }
        match &p.0 {
            Some(n) => push_str_chars(&mut r, n.as_str()),
            None => {},
        }
        r.push('=');
        match &p.1 {
            Some(v) => push_str_chars(&mut r, v.as_str()),
            None => {},
        }
        assert(r@ =~= joined(before.push(piece), sep));
        i = i + 1;
    }
    assert(cookies@.take(cookies@.len() as int) =~= cookies@);
    string_of(&r)
}

} // verus!
