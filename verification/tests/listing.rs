use xidown::biliup_api::{get_cookie, VideoInfo};
use xidown::config::{DESC, SOURCE, TAG, TID};
use xidown::get_download_list::{add_url, card_title, next_page, sort_by_time, Card, MidStep, SearchPage, Video};
use xidown::get_video_list::{parse_listing_name, sort_by_title, VideoUrl};
use xidown::upload_video::{first_to_upload, fliter, fliters};

fn ep(title: &str, name: &str, time: u128) -> VideoUrl {
    VideoUrl { title: title.into(), name: name.into(), url: format!("https://x/{name}"), time, id: 0 }
}

fn video(title: &str, bv: &str, range: Vec<VideoUrl>) -> Video {
    Video { title: title.into(), bv: bv.into(), range }
}

fn names(r: &[VideoUrl]) -> Vec<&str> {
    r.iter().map(|u| u.name.as_str()).collect()
}

fn some(s: &str) -> Option<String> {
    Some(s.to_string())
}

#[test]
fn xmtv_groups_by_first_appearance_and_sorts_by_time() {
    let urls = vec![
        VideoUrl { id: 9, ..ep("甲", "甲（2）", 2) },
        ep("乙", "乙（1）", 1),
        ep("甲", "甲（1）", 1),
        ep("甲", "甲（1）重播", 1),
    ];
    let groups = sort_by_title(urls);
    assert_eq!(groups.len(), 2);
    assert_eq!(groups[0].title, "甲");
    assert_eq!(names(&groups[0].range), vec!["甲（1）", "甲（1）重播", "甲（2）"]);
    assert!(groups[0].range.iter().all(|u| u.id == 0));
    assert_eq!(groups[1].title, "乙");
    assert_eq!(names(&groups[1].range), vec!["乙（1）"]);
}

#[test]
fn listing_names() {
    assert_eq!(
        parse_listing_name("白蛇传（1） 斗阵来看戏 2024.01.01"),
        Some(("白蛇传".to_string(), 20240101))
    );
    assert_eq!(
        parse_listing_name("陈三 五娘(上) 斗阵来看戏 20240102 重播"),
        Some(("陈三五娘".to_string(), 20240102))
    );
    assert_eq!(parse_listing_name("白蛇传 斗阵来看戏 明天"), None);
}

#[test]
fn add_url_files_episodes_under_their_plays() {
    let videos = vec![video("甲", "BV_a", vec![ep("甲", "甲（3）", 3)]), video("乙", "BV_b", vec![])];
    let urls = vec![ep("丙", "丙（2）", 2), ep("甲", "甲（1）", 1), ep("丙", "丙（1）", 1), ep("甲", "甲（5）", 5)];
    let r = add_url(videos, urls);
    assert_eq!(r.len(), 3);
    assert_eq!((r[0].title.as_str(), r[0].bv.as_str()), ("甲", "BV_a"));
    assert_eq!(names(&r[0].range), vec!["甲（1）", "甲（3）", "甲（5）"]);
    assert_eq!((r[1].title.as_str(), r[1].bv.as_str()), ("乙", "BV_b"));
    assert!(r[1].range.is_empty());
    assert_eq!((r[2].title.as_str(), r[2].bv.as_str()), ("丙", ""));
    assert_eq!(names(&r[2].range), vec!["丙（1）", "丙（2）"]);
}

#[test]
fn add_url_gives_an_episode_to_every_play_of_its_title() {
    let videos = vec![video("甲", "BV1", vec![]), video("甲", "BV2", vec![])];
    let r = add_url(videos, vec![ep("甲", "甲（1）", 1)]);
    assert_eq!(r.len(), 2);
    assert_eq!(names(&r[0].range), vec!["甲（1）"]);
    assert_eq!(names(&r[1].range), vec!["甲（1）"]);
}

#[test]
fn add_url_through_the_listing_module() {
    let r = xidown::get_video_list::add_url(vec![], vec![ep("甲", "甲（1）", 1)]);
    assert_eq!(r.len(), 1);
    assert_eq!(r[0].bv, "");
}

#[test]
fn sorting_by_time_is_stable() {
    let r = sort_by_time(vec![ep("甲", "c", 2), ep("甲", "a", 1), ep("甲", "d", 2), ep("甲", "b", 1)]);
    assert_eq!(names(&r), vec!["a", "b", "c", "d"]);
    assert!(sort_by_time(vec![]).is_empty());
}

#[test]
fn card_titles() {
    assert_eq!(card_title("白蛇传 斗阵来看戏"), "白蛇传");
    assert_eq!(card_title("白蛇传"), "白蛇传");
}

#[test]
fn dynamics_search_pages() {
    let mut found = Vec::new();
    assert!(matches!(next_page(1, SearchPage::Failed, &mut found), MidStep::Fetch(1)));
    let cards = vec![
        Card::Video { title: "白蛇传 斗阵来看戏".into(), bvid: "BV1".into() },
        Card::Video { title: "陈三五娘 斗阵来看戏".into(), bvid: "BV2".into() },
    ];
    assert_eq!(next_page(1, SearchPage::Cards(cards), &mut found), MidStep::Fetch(2));
    let cards = vec![
        Card::Video { title: "荔镜记 斗阵来看戏".into(), bvid: "BV3".into() },
        Card::Dynamic,
        Card::Video { title: "不会被读到 斗阵来看戏".into(), bvid: "BV4".into() },
    ];
    assert_eq!(next_page(2, SearchPage::Cards(cards), &mut found), MidStep::Fetch(3));
    assert_eq!(next_page(3, SearchPage::Cards(vec![]), &mut found), MidStep::Done);
    let got: Vec<(&str, &str)> = found.iter().map(|v| (v.title.as_str(), v.bv.as_str())).collect();
    assert_eq!(got, vec![("白蛇传", "BV1"), ("陈三五娘", "BV2"), ("荔镜记", "BV3")]);
    assert!(found.iter().all(|v| v.range.is_empty()));
}

#[test]
fn video_info_for_a_play() {
    let v = VideoInfo::for_play("白蛇传");
    assert_eq!(v.title, "白蛇传 斗阵来看戏");
    assert_eq!(v.copyright, 2);
    assert_eq!(v.source, SOURCE);
    assert_eq!(v.tag, TAG);
    assert_eq!(v.tid, TID);
    assert_eq!(v.desc, DESC);
}

#[test]
fn cookie_strings() {
    let cookies = vec![(some("SESSDATA"), some("abc")), (None, some("x")), (some("k"), None)];
    assert_eq!(get_cookie(&cookies), "SESSDATA=abc;=x;k=");
    assert_eq!(get_cookie(&vec![]), "");
}

#[test]
fn fliter_drops_uploaded_episodes() {
    let v = video("甲", "BV1", vec![ep("甲", "甲（1）", 1), ep("甲", "甲（2）", 2)]);
    let r = fliter(&v, &vec!["甲（1）".to_string()]);
    assert_eq!(r.bv, "BV1");
    assert_eq!(names(&r.range), vec!["甲（2）"]);
    let fresh = video("乙", "", vec![ep("乙", "乙（1）", 1)]);
    let r = fliter(&fresh, &vec!["乙（1）".to_string()]);
    assert_eq!(names(&r.range), vec!["乙（1）"]);
}

#[test]
fn fliters_keep_plays_with_work_left() {
    let checked = vec![
        (video("甲", "BV1", vec![ep("甲", "甲（1）", 1)]), vec!["甲（1）".to_string()]),
        (video("乙", "", vec![ep("乙", "乙（1）", 1)]), vec![]),
    ];
    let r = fliters(checked);
    assert_eq!(r.len(), 1);
    assert_eq!(r[0].title, "乙");
}

#[test]
fn first_upload_only_without_an_archive() {
    let v = video("甲", "", vec![ep("甲", "甲（1）", 1), ep("甲", "甲（2）", 2)]);
    assert_eq!(first_to_upload(&v).map(|u| u.name), Some("甲（1）".to_string()));
    let v = video("甲", "BV1", vec![ep("甲", "甲（1）", 1)]);
    assert!(first_to_upload(&v).is_none());
}
