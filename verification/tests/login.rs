use xidown::login::{login_prompt, login_screen, LOGIN_HEAD, LOGIN_HINT, LOGIN_WAIT};

#[test]
fn the_screen_lays_out_code_link_and_wait_line() {
    let s = login_screen("https://b23.tv/x", "▀▄");
    assert_eq!(s, format!("{LOGIN_HEAD}▀▄\n{LOGIN_HINT}https://b23.tv/x\n\n{LOGIN_WAIT}\n"));
}

#[test]
fn the_prompt_draws_a_qr_code() {
    let url = "https://passport.bilibili.com/x/passport-tv-login/h5/qrcode/auth?auth_code=abc";
    let s = login_prompt(url).expect("a short link fits in a QR code");
    assert!(s.starts_with(LOGIN_HEAD));
    assert!(s.contains(&format!("\n{LOGIN_HINT}{url}\n\n")));
    let drawing = &s[LOGIN_HEAD.len()..s.find(LOGIN_HINT).unwrap()];
    assert!(drawing.contains('█') || drawing.contains('▀') || drawing.contains('▄'));
    assert!(!drawing.contains(url));
    assert!(drawing.lines().count() > 10);
}

#[test]
fn data_too_long_for_a_qr_code_is_refused() {
    assert!(login_prompt(&"x".repeat(8000)).is_none());
}
