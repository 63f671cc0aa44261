use xidown::config::{
    env_flag, env_num, env_opt_num, env_str, keyword_chars, login_requested, truncate_title, EnvVars,
    Settings, KEYWORD, MAX_TITLE_CHARS,
};

/// The part-title rule the archive side expects, written out on characters: names of
/// `MAX_TITLE_CHARS` characters or fewer are kept; longer ones keep
/// `MAX_TITLE_CHARS - 3` characters and get `...`.
fn expected_part_title(name: &str) -> String {
    if name.chars().count() > MAX_TITLE_CHARS {
        let mut s: String = name.chars().take(MAX_TITLE_CHARS - 3).collect();
        s.push_str("...");
        s
    } else {
        name.to_string()
    }
}

fn some(s: &str) -> Option<String> {
    Some(s.to_string())
}

fn no_env() -> EnvVars {
    EnvVars {
        concurrency: None,
        upload_limit: None,
        work_dir: None,
        only_title: None,
        max_archives: None,
        max_parts: None,
        dry_run: None,
    }
}

#[test]
fn test_truncate_title_matches_biliup() {
    for len in [1usize, 10, 78, 79, 80, 81, 200] {
        let s: String = "字".repeat(len);
        assert_eq!(truncate_title(&s), expected_part_title(&s), "长度 {len} 时两边的截断结果必须一致");
    }
    assert_eq!(truncate_title("白蛇传"), "白蛇传");
    assert_eq!(truncate_title(&"字".repeat(200)).chars().count(), MAX_TITLE_CHARS);
}

#[test]
fn truncate_title_keeps_exactly_the_limit() {
    let s = "字".repeat(MAX_TITLE_CHARS);
    assert_eq!(truncate_title(&s), s);
    let t = truncate_title(&"字".repeat(MAX_TITLE_CHARS + 1));
    assert!(t.ends_with("..."));
    assert_eq!(t.chars().count(), MAX_TITLE_CHARS);
}

#[test]
fn settings_defaults() {
    let s = Settings::from_env(&no_env());
    assert_eq!(s.concurrency, 4);
    assert_eq!(s.upload_limit, 10);
    assert_eq!(s.work_dir, "work");
    assert_eq!(s.only_title, None);
    assert_eq!(s.max_archives, None);
    assert_eq!(s.max_parts, None);
    assert!(!s.dry_run);
}

#[test]
fn settings_from_set_variables() {
    let env = EnvVars {
        concurrency: some("2"),
        upload_limit: some("0"),
        work_dir: some("/tmp/x"),
        only_title: some("白蛇"),
        max_archives: some("3"),
        max_parts: some("abc"),
        dry_run: some("1"),
    };
    let s = Settings::from_env(&env);
    assert_eq!(s.concurrency, 2);
    assert_eq!(s.upload_limit, 1);
    assert_eq!(s.work_dir, "/tmp/x");
    assert_eq!(s.only_title, Some("白蛇".to_string()));
    assert_eq!(s.max_archives, Some(3));
    assert_eq!(s.max_parts, None);
    assert!(s.dry_run);
}

#[test]
fn env_helpers() {
    assert_eq!(env_str(some("   ")), None);
    assert_eq!(env_str(some(" a ")), some(" a "));
    assert_eq!(env_num(some("x"), 7), 7);
    assert_eq!(env_num(None, 7), 7);
    assert_eq!(env_num(some("12"), 7), 12);
    assert_eq!(env_num(some(" 12 "), 7), 7);
    assert_eq!(env_num(some("+12"), 7), 12);
    assert_eq!(env_opt_num(some("5")), Some(5));
    assert_eq!(env_opt_num(some("-5")), None);
    assert!(env_flag(some("yes")));
    assert!(!env_flag(some("0")));
    assert!(!env_flag(some(" ")));
    assert!(!env_flag(None));
}

#[test]
fn login_mode() {
    assert!(login_requested(some("1")));
    assert!(!login_requested(some("0")));
    assert!(!login_requested(some("  ")));
    assert!(!login_requested(None));
}

#[test]
fn keyword_is_the_programme_name() {
    let k: String = keyword_chars().into_iter().collect();
    assert_eq!(k, KEYWORD);
}
