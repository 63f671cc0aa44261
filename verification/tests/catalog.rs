use xidown::catalog::{
    archive_titles, build_plan, bv_for, candidate_tasks, finish_plan, limit_plan, pick_archive, refine_plan,
    sort_plan, text_less, title_of_archive, Archive, Task,
};
use xidown::config::Settings;
use xidown::get_video_list::VideoUrl;
use xidown::ledger::{part_key, Entry, Ledger};

fn archive(bvid: &str, state: i16, ctime: u64) -> Archive {
    Archive { bvid: bvid.into(), title: "甲 斗阵来看戏".into(), state, ctime }
}

fn ep(title: &str, name: &str, time: u128) -> VideoUrl {
    VideoUrl { title: title.into(), name: name.into(), url: format!("https://x/{name}"), time, id: 0 }
}

fn settings() -> Settings {
    Settings {
        concurrency: 4,
        upload_limit: 10,
        work_dir: "work".into(),
        only_title: None,
        max_archives: None,
        max_parts: None,
        dry_run: false,
    }
}

fn task(title: &str, bv: &str, parts: Vec<VideoUrl>) -> Task {
    Task { title: title.into(), bv: bv.into(), parts }
}

fn names(t: &Task) -> Vec<String> {
    t.parts.iter().map(|p| p.name.clone()).collect()
}

#[test]
fn test_title_of_archive() {
    assert_eq!(title_of_archive("白蛇传 斗阵来看戏"), "白蛇传");
    assert_eq!(title_of_archive("陈三五娘 斗阵来看戏 20240101"), "陈三五娘");
    assert_eq!(title_of_archive("没有关键字的标题"), "没有关键字的标题");
}

#[test]
fn test_pick_archive_prefers_alive_then_oldest() {
    let got = pick_archive(vec![
        archive("BV_new", 0, 200),
        archive("BV_old", 0, 100),
        archive("BV_dead", -2, 50),
    ]);
    assert_eq!(got.bvid, "BV_old");

    let got = pick_archive(vec![archive("BV_b", -2, 200), archive("BV_a", -4, 100)]);
    assert_eq!(got.bvid, "BV_a");
}

#[test]
fn title_of_archive_without_keyword_cuts_at_space_and_drops_spaces() {
    assert_eq!(title_of_archive("白蛇传 2024"), "白蛇传");
    assert_eq!(title_of_archive(" 白 蛇传 斗阵来看戏"), "白蛇传");
    assert_eq!(title_of_archive("陈三五娘斗阵来看戏"), "陈三五娘");
    assert_eq!(title_of_archive(" 开头是空格"), "");
}

#[test]
fn pick_archive_keeps_the_first_of_equals() {
    let got = pick_archive(vec![archive("BV_1", 0, 100), archive("BV_2", 0, 100)]);
    assert_eq!(got.bvid, "BV_1");
}

#[test]
fn bv_for_picks_the_preferred_archive_of_the_title() {
    let archives = vec![
        Archive { bvid: "BV_dup".into(), title: "甲 斗阵来看戏".into(), state: 0, ctime: 300 },
        Archive { bvid: "BV_yi".into(), title: "乙 斗阵来看戏".into(), state: 0, ctime: 10 },
        Archive { bvid: "BV_first".into(), title: "甲 斗阵来看戏".into(), state: 0, ctime: 100 },
    ];
    let titles = archive_titles(&archives);
    assert_eq!(titles, vec!["甲".to_string(), "乙".to_string(), "甲".to_string()]);
    assert_eq!(bv_for(&archives, &titles, "甲"), "BV_first");
    assert_eq!(bv_for(&archives, &titles, "乙"), "BV_yi");
    assert_eq!(bv_for(&archives, &titles, "丙"), "");
}

#[test]
fn candidate_tasks_group_by_play_and_skips_recorded_parts() {
    let urls = vec![ep("甲", "甲（2）", 2), ep("乙", "乙（1）", 1), ep("甲", "甲（1）", 1)];
    let archives = vec![archive("BV_a", 0, 1)];
    let mut ledger = Ledger::new();
    ledger.record(
        part_key(&ep("甲", "甲（1）", 1)),
        Entry { bv: "BV_a".into(), part_title: "甲（1）".into(), title: "甲".into(), uploaded_at: 1 },
    );
    let plan = candidate_tasks(&settings(), urls, &archives, &ledger);
    assert_eq!(plan.len(), 2);
    assert_eq!(plan[0].title, "甲");
    assert_eq!(plan[0].bv, "BV_a");
    assert_eq!(names(&plan[0]), vec!["甲（2）".to_string()]);
    assert_eq!(plan[1].title, "乙");
    assert_eq!(plan[1].bv, "");
    assert_eq!(names(&plan[1]), vec!["乙（1）".to_string()]);
}

#[test]
fn candidate_tasks_order_parts_by_time_and_honours_the_title_filter() {
    let urls = vec![ep("甲", "甲（3）", 3), ep("乙", "乙（1）", 1), ep("甲", "甲（1）", 1)];
    let mut s = settings();
    s.only_title = Some("甲".into());
    let plan = candidate_tasks(&s, urls, &vec![], &Ledger::new());
    assert_eq!(plan.len(), 1);
    assert_eq!(names(&plan[0]), vec!["甲（1）".to_string(), "甲（3）".to_string()]);
}

#[test]
fn candidate_tasks_redo_a_part_recorded_for_another_archive() {
    let urls = vec![ep("甲", "甲（1）", 1)];
    let archives = vec![archive("BV_new", 0, 1)];
    let mut ledger = Ledger::new();
    ledger.record(
        part_key(&ep("甲", "甲（1）", 1)),
        Entry { bv: "BV_old".into(), part_title: "甲（1）".into(), title: "甲".into(), uploaded_at: 1 },
    );
    let plan = candidate_tasks(&settings(), urls, &archives, &ledger);
    assert_eq!(plan.len(), 1);
    assert_eq!(names(&plan[0]), vec!["甲（1）".to_string()]);
}

#[test]
fn text_less_is_code_point_order() {
    let a: Vec<char> = "甲".chars().collect();
    let b: Vec<char> = "乙".chars().collect();
    assert_eq!(text_less(&a, &b), "甲" < "乙");
    assert_eq!(text_less(&b, &a), "乙" < "甲");
    let ab: Vec<char> = "ab".chars().collect();
    let abc: Vec<char> = "abc".chars().collect();
    assert!(text_less(&ab, &abc));
    assert!(!text_less(&abc, &ab));
    assert!(!text_less(&ab, &ab));
}

#[test]
fn sort_plan_puts_fewer_parts_first_then_titles() {
    let tasks = vec![
        task("丙", "", vec![ep("丙", "1", 1), ep("丙", "2", 2)]),
        task("b", "", vec![ep("b", "1", 1)]),
        task("a", "", vec![ep("a", "1", 1)]),
    ];
    let sorted = sort_plan(tasks);
    let titles: Vec<&str> = sorted.iter().map(|t| t.title.as_str()).collect();
    assert_eq!(titles, vec!["a", "b", "丙"]);
}

#[test]
fn refine_plan_drops_parts_already_in_the_archive() {
    let checked = vec![
        (task("甲", "BV1", vec![ep("甲", "甲（1）", 1), ep("甲", "甲（2）", 2)]), vec!["甲（1）".to_string()]),
        (task("乙", "BV2", vec![ep("乙", "乙（1）", 1)]), vec!["乙（1）".to_string()]),
        (task("丙", "", vec![ep("丙", "丙（1）", 1)]), vec![]),
    ];
    let r = refine_plan(checked);
    assert_eq!(r.len(), 2);
    assert_eq!(r[0].title, "甲");
    assert_eq!(names(&r[0]), vec!["甲（2）".to_string()]);
    assert_eq!(r[1].title, "丙");
}

#[test]
fn refine_plan_compares_truncated_part_titles() {
    let long = "字".repeat(90);
    let cut = format!("{}...", "字".repeat(77));
    let checked = vec![(task("甲", "BV1", vec![ep("甲", &long, 1)]), vec![cut])];
    assert!(refine_plan(checked).is_empty());
}

#[test]
fn limit_plan_caps_parts_and_archives() {
    let tasks = vec![
        task("a", "", vec![ep("a", "1", 1), ep("a", "2", 2), ep("a", "3", 3)]),
        task("b", "", vec![ep("b", "1", 1)]),
        task("c", "", vec![ep("c", "1", 1)]),
    ];
    let r = limit_plan(tasks, Some(2), Some(2));
    assert_eq!(r.len(), 2);
    assert_eq!(names(&r[0]), vec!["1".to_string(), "2".to_string()]);
    assert_eq!(names(&r[1]), vec!["1".to_string()]);

    let tasks = vec![task("a", "", vec![ep("a", "1", 1), ep("a", "2", 2)])];
    let r = limit_plan(tasks, Some(0), None);
    assert_eq!(names(&r[0]), vec!["1".to_string()]);
}

#[test]
fn finish_plan_refines_sorts_and_limits() {
    let checked = vec![
        (task("乙", "BV2", vec![ep("乙", "乙（1）", 1), ep("乙", "乙（2）", 2)]), vec![]),
        (task("甲", "BV1", vec![ep("甲", "甲（1）", 1), ep("甲", "甲（2）", 2)]), vec!["甲（1）".to_string()]),
    ];
    let mut s = settings();
    s.max_archives = Some(1);
    let r = finish_plan(checked, &s);
    assert_eq!(r.len(), 1);
    assert_eq!(r[0].title, "甲");
    assert_eq!(names(&r[0]), vec!["甲（2）".to_string()]);
}

#[test]
fn build_plan_joins_the_fetched_part_titles() {
    let urls = vec![
        ep("甲", "甲（1）", 1),
        ep("甲", "甲（2）", 2),
        ep("乙", "乙（1）", 1),
        ep("乙", "乙（2）", 2),
        ep("丙", "丙（1）", 1),
    ];
    let archives = vec![
        Archive { bvid: "BV_jia".into(), title: "甲 斗阵来看戏".into(), state: 0, ctime: 1 },
        Archive { bvid: "BV_yi".into(), title: "乙 斗阵来看戏".into(), state: 0, ctime: 1 },
    ];
    let fetched = vec![
        ("BV_jia".to_string(), vec!["甲（1）".to_string()]),
        ("BV_yi".to_string(), vec!["乙（1）".to_string(), "乙（2）".to_string()]),
    ];
    let plan = build_plan(&settings(), urls, &archives, &Ledger::new(), &fetched);
    let got: Vec<(&str, &str, Vec<String>)> =
        plan.iter().map(|t| (t.title.as_str(), t.bv.as_str(), names(t))).collect();
    assert_eq!(
        got,
        vec![
            ("丙", "", vec!["丙（1）".to_string()]),
            ("甲", "BV_jia", vec!["甲（2）".to_string()]),
        ]
    );
}

#[test]
fn a_play_title_comes_back_out_of_its_archive_title() {
    for play in ["白蛇传", "陈三五娘", &"字".repeat(74)] {
        let meta = xidown::bili::ArchiveMeta::for_play(play);
        assert_eq!(title_of_archive(&xidown::config::truncate_title(&meta.title)), play);
    }
}

#[test]
fn build_plan_orders_and_caps_the_plan() {
    let urls = vec![
        ep("乙", "乙（1）", 1),
        ep("乙", "乙（2）", 2),
        ep("乙", "乙（3）", 3),
        ep("甲", "甲（1）", 1),
        ep("甲", "甲（2）", 2),
        ep("丙", "丙（1）", 1),
    ];
    let mut s = settings();
    s.max_parts = Some(0);
    s.max_archives = Some(2);
    let plan = build_plan(&s, urls, &vec![], &Ledger::new(), &vec![]);
    let got: Vec<(&str, usize)> = plan.iter().map(|t| (t.title.as_str(), t.parts.len())).collect();
    assert_eq!(got, vec![("丙", 1), ("甲", 1)]);
}
