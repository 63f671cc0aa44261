//! The screen of the QR-code login: the code to scan, the link for when the terminal
//! cannot show it, and what happens next.
use crate::text::{push_str_chars, string_of};
use vstd::prelude::*;

verus! {

/// First lines of the login screen.
pub const LOGIN_HEAD: &'static str = "\n请用 bilibili App 扫描下面的二维码并确认登录：\n\n";

/// Line before the login link.
pub const LOGIN_HINT: &'static str = "如果终端里的二维码显示不正常，也可以直接在 App 里打开这个链接：\n";

/// Last line of the login screen.
pub const LOGIN_WAIT: &'static str = "等待扫码确认中……（确认后会自动继续）";

/// The QR code of `data` (its UTF-8 bytes) drawn with Unicode half blocks, light and
/// dark swapped and with a quiet zone, as `qrcode` draws it; `None` when the data does
/// not fit in a QR code.
pub uninterp spec fn qr_drawing(data: Seq<char>) -> Option<Seq<char>>;

/// Draws the QR code of `data` with `qrcode` (`QrCode::new`, then the `Dense1x2`
/// renderer with light and dark swapped and a quiet zone).
///
/// Trusted: the result is what `qr_drawing` names; `None` exactly when `QrCode::new`
/// refuses the data.
#[verifier::external_body]
fn draw_qr(data: &str) -> (r: Option<String>)
    ensures
        match r {
            Some(s) => qr_drawing(data@) == Some(s@),
            None => qr_drawing(data@) is None,
        },
{
    match qrcode::QrCode::new(data.as_bytes()) {
        Ok(code) => Some(
            code.render::<qrcode::render::unicode::Dense1x2>().dark_color(
                qrcode::render::unicode::Dense1x2::Light,
            ).light_color(qrcode::render::unicode::Dense1x2::Dark).quiet_zone(true).build(),
        ),
        Err(_) => None,
    }
}

/// The login screen around a drawn code: the head, the drawing, the link, and the
/// waiting line, each ending a line.
pub open spec fn screen_text(url: Seq<char>, drawing: Seq<char>) -> Seq<char> {
    LOGIN_HEAD@ + drawing + seq!['\n'] + LOGIN_HINT@ + url + seq!['\n', '\n'] + LOGIN_WAIT@ + seq!['\n']
}

/// Lays out the login screen for `url` around its drawn QR code.
pub fn login_screen(url: &str, drawing: &str) -> (r: String)
    ensures
        r@ == screen_text(url@, drawing@),
{
    let mut v: Vec<char> = Vec::new();
    push_str_chars(&mut v, LOGIN_HEAD);
    push_str_chars(&mut v, drawing);
    v.push('\n');
    push_str_chars(&mut v, LOGIN_HINT);
    push_str_chars(&mut v, url);
    v.push('\n');
    v.push('\n');
    push_str_chars(&mut v, LOGIN_WAIT);
    v.push('\n');
    assert(v@ =~= screen_text(url@, drawing@));
    string_of(&v)
}

/// The login screen for the QR-code login link `url`; `None` when the link does not
/// fit in a QR code.
pub fn login_prompt(url: &str) -> (r: Option<String>)
    ensures
        match qr_drawing(url@) {
            Some(d) => r matches Some(s) && s@ == screen_text(url@, d),
            None => r is None,
        },
{
    match draw_qr(url) {
        Some(d) => Some(login_screen(url, d.as_str())),
        None => None,
    }
}

} // verus!
