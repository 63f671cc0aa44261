//! Every tunable in one place, and how the environment overrides them.
//!
//! The environment itself is read by the caller; the functions here decide what a
//! raw value (or its absence) means.
use crate::text::{
    chars_eq, chars_of, is_white_space, parse_usize, parse_usize_spec, string_of, take_chars, trim,
    trim_chars, trim_end, trim_start,
};
use vstd::prelude::*;

verus! {

/// Login cookie file written by the QR-code login.
pub const COOKIE_FILE: &'static str = "cookies.json";

/// Local upload ledger that prevents uploading a part twice.
pub const LEDGER_FILE: &'static str = "uploaded.json";

/// Programme name: appended to archive titles and used to recover the play title.
pub const KEYWORD: &'static str = "斗阵来看戏";

/// Archive zone: opera.
pub const TID: u16 = 180;

/// Archive tags.
pub const TAG: &'static str = "戏曲,斗阵来看戏";

/// Archive source link.
pub const SOURCE: &'static str = "https://2020.xmtv.cn/search/?search_text=斗阵来看戏";

/// Archive description.
pub const DESC: &'static str = "自传给家里老人看方便";

/// Longest title (in characters) that an archive or a part may carry.
pub const MAX_TITLE_CHARS: usize = 80;

/// Status filter used when listing archives.
pub const ARCHIVE_STATUS: &'static str = "is_pubing,pubed,not_pubed";

/// The programme name as characters.
pub open spec fn keyword() -> Seq<char> {
    seq!['斗', '阵', '来', '看', '戏']
}

/// The characters of `KEYWORD`.
pub fn keyword_chars() -> (r: Vec<char>)
    ensures
        r@ == keyword(),
{
    proof {
        reveal_strlit("斗阵来看戏");
    }
    chars_of(KEYWORD)
}

/// Run parameters.
#[derive(Debug, Clone)]
pub struct Settings {
    /// How many plays are processed at once.
    pub concurrency: usize,
    /// Concurrent chunks per file upload.
    pub upload_limit: usize,
    /// Directory for temporary video files.
    pub work_dir: String,
    /// Only plays whose title contains this text are processed.
    pub only_title: Option<String>,
    /// At most this many plays are processed.
    pub max_archives: Option<usize>,
    /// At most this many parts are uploaded per play.
    pub max_parts: Option<usize>,
    /// Print the plan only; neither download nor upload.
    pub dry_run: bool,
}

/// Raw values of the environment variables that `Settings` reads; `None` where a
/// variable is unset or not valid Unicode.
pub struct EnvVars {
    /// `XIDOWN_CONCURRENCY`
    pub concurrency: Option<String>,
    /// `XIDOWN_UPLOAD_LIMIT`
    pub upload_limit: Option<String>,
    /// `XIDOWN_WORK_DIR`
    pub work_dir: Option<String>,
    /// `XIDOWN_ONLY_TITLE`
    pub only_title: Option<String>,
    /// `XIDOWN_MAX_ARCHIVES`
    pub max_archives: Option<String>,
    /// `XIDOWN_MAX_PARTS`
    pub max_parts: Option<String>,
    /// `XIDOWN_DRY_RUN`
    pub dry_run: Option<String>,
}

/// A raw value counts as set when it holds something besides white space.
pub open spec fn env_value(raw: Option<Seq<char>>) -> Option<Seq<char>> {
    match raw {
        Some(s) => if trim(s).len() > 0 {
            Some(s)
        } else {
            None
        },
        None => None,
    }
}

/// A set value that parses as a number, or `default`.
pub open spec fn env_number(raw: Option<Seq<char>>, default: usize) -> usize {
    match env_value(raw) {
        Some(s) => match parse_usize_spec(s) {
            Some(v) => v,
            None => default,
        },
        None => default,
    }
}

/// A set value that parses as a number.
pub open spec fn env_limit(raw: Option<Seq<char>>) -> Option<usize> {
    match env_value(raw) {
        Some(s) => parse_usize_spec(s),
        None => None,
    }
}

/// The words that switch a flag on.
pub open spec fn flag_word(s: Seq<char>) -> bool {
    ||| s == seq!['1']
    ||| s == seq!['t', 'r', 'u', 'e']
    ||| s == seq!['T', 'R', 'U', 'E']
    ||| s == seq!['y', 'e', 's']
    ||| s == seq!['Y', 'E', 'S']
}

/// A flag is on when its set value is exactly one of the `flag_word`s.
pub open spec fn env_flag_on(raw: Option<Seq<char>>) -> bool {
    match env_value(raw) {
        Some(s) => flag_word(s),
        None => false,
    }
}

/// The view of an optional string.
pub open spec fn opt_text(o: Option<String>) -> Option<Seq<char>> {
    match o {
        Some(s) => Some(s@),
        None => None,
    }
}

/// The raw value if it holds something besides white space.
pub fn env_str(raw: Option<String>) -> (r: Option<String>)
    ensures
        opt_text(r) == env_value(opt_text(raw)),
{
    match raw {
        Some(s) => {
            let v = chars_of(s.as_str());
            let t = trim_chars(&v);
            if t.len() > 0 {
                Some(s)
            } else {
                None
            }
        },
        None => None,
    }
}

/// The raw value as a number, or `default` when it is unset, blank or not a number.
pub fn env_num(raw: Option<String>, default: usize) -> (r: usize)
    ensures
        r == env_number(opt_text(raw), default),
{
    match env_str(raw) {
        Some(s) => {
            let v = chars_of(s.as_str());
            match parse_usize(&v) {
                Some(n) => n,
                None => default,
            }
        },
        None => default,
    }
}

/// The raw value as an optional number.
pub fn env_opt_num(raw: Option<String>) -> (r: Option<usize>)
    ensures
        r == env_limit(opt_text(raw)),
{
    match env_str(raw) {
        Some(s) => {
            let v = chars_of(s.as_str());
            parse_usize(&v)
        },
        None => None,
    }
}

/// Whether a flag is switched on.
pub fn env_flag(raw: Option<String>) -> (r: bool)
    ensures
        r == env_flag_on(opt_text(raw)),
{
    match env_str(raw) {
        Some(s) => {
            let v = chars_of(s.as_str());
            let one: Vec<char> = vec!['1'];
            let t1: Vec<char> = vec!['t', 'r', 'u', 'e'];
            let t2: Vec<char> = vec!['T', 'R', 'U', 'E'];
            let y1: Vec<char> = vec!['y', 'e', 's'];
            let y2: Vec<char> = vec!['Y', 'E', 'S'];
            assert(one@ =~= seq!['1']);
            assert(t1@ =~= seq!['t', 'r', 'u', 'e']);
            assert(t2@ =~= seq!['T', 'R', 'U', 'E']);
            assert(y1@ =~= seq!['y', 'e', 's']);
            assert(y2@ =~= seq!['Y', 'E', 'S']);
            chars_eq(&v, &one) || chars_eq(&v, &t1) || chars_eq(&v, &t2) || chars_eq(&v, &y1)
                || chars_eq(&v, &y2)
        },
        None => false,
    }
}

/// The larger of `a` and 1.
pub open spec fn at_least_one(a: usize) -> usize {
    if a >= 1 {
        a
    } else {
        1
    }
}

/// The work directory used when none is set.
pub open spec fn default_work_dir() -> Seq<char> {
    seq!['w', 'o', 'r', 'k']
}

impl Settings {
    /// The settings that the given environment selects: concurrency 4 and upload
    /// limit 10 unless set (and never below 1), work directory `work` unless set.
    pub fn from_env(env: &EnvVars) -> (s: Settings)
        ensures
            s.concurrency == at_least_one(env_number(opt_text(env.concurrency), 4)),
            s.upload_limit == at_least_one(env_number(opt_text(env.upload_limit), 10)),
            s.work_dir@ == (match env_value(opt_text(env.work_dir)) {
                Some(d) => d,
                None => default_work_dir(),
            }),
            opt_text(s.only_title) == env_value(opt_text(env.only_title)),
            s.max_archives == env_limit(opt_text(env.max_archives)),
            s.max_parts == env_limit(opt_text(env.max_parts)),
            s.dry_run == env_flag_on(opt_text(env.dry_run)),
    {
        let c = env_num(env.concurrency.clone(), 4);
        let u = env_num(env.upload_limit.clone(), 10);
        let work_dir = match env_str(env.work_dir.clone()) {
            Some(d) => d,
            None => {
                let w: Vec<char> = vec!['w', 'o', 'r', 'k'];
                assert(w@ =~= default_work_dir());
                string_of(&w)
            },
        };
        Settings {
            concurrency: if c >= 1 {
                c
            } else {
                1
            },
            upload_limit: if u >= 1 {
                u
            } else {
                1
            },
            work_dir,
            only_title: env_str(env.only_title.clone()),
            max_archives: env_opt_num(env.max_archives.clone()),
            max_parts: env_opt_num(env.max_parts.clone()),
            dry_run: env_flag(env.dry_run.clone()),
        }
    }
}

/// What `truncate_title` makes of `t`: unchanged up to `MAX_TITLE_CHARS` characters,
/// otherwise its first `MAX_TITLE_CHARS - 3` characters followed by `...`.
pub open spec fn truncated(t: Seq<char>) -> Seq<char> {
    if t.len() <= MAX_TITLE_CHARS {
        t
    } else {
        t.take(MAX_TITLE_CHARS - 3) + seq!['.', '.', '.']
    }
}

/// Cuts a title to the length that bilibili accepts, counting characters, not bytes.
///
/// Exactly `MAX_TITLE_CHARS` characters are kept as they are: part titles that were
/// uploaded earlier were made that way, and de-duplication compares against them.
pub fn truncate_title(title: &str) -> (r: String)
    ensures
        r@ == truncated(title@),
        r@.len() <= MAX_TITLE_CHARS,
{
    let v = chars_of(title);
    if v.len() <= MAX_TITLE_CHARS {
        return string_of(&v);
    }
    let mut kept = take_chars(&v, MAX_TITLE_CHARS - 3);
    kept.push('.');
    kept.push('.');
    kept.push('.');
    assert(kept@ =~= v@.take(MAX_TITLE_CHARS - 3) + seq!['.', '.', '.']);
    string_of(&kept)
}

/// Whether the login mode is asked for: `XIDOWN_LOGIN` is set, not blank and not `0`.
pub open spec fn login_asked(raw: Option<Seq<char>>) -> bool {
    match raw {
        Some(v) => trim(v).len() > 0 && v != seq!['0'],
        None => false,
    }
}

/// Decides from the raw `XIDOWN_LOGIN` value whether to run the QR-code login.
pub fn login_requested(raw: Option<String>) -> (r: bool)
    ensures
        r == login_asked(opt_text(raw)),
{
    match raw {
        Some(s) => {
            let v = chars_of(s.as_str());
            let t = trim_chars(&v);
            let zero: Vec<char> = vec!['0'];
            assert(zero@ =~= seq!['0']);
            t.len() > 0 && !chars_eq(&v, &zero)
        },
        None => false,
    }
}

/// Law: each of the words 1, true, TRUE, yes, YES (as the variable's whole value)
/// switches a flag on, and nothing else does; an unset variable leaves it off.
pub proof fn lemma_flag_words(s: Seq<char>)
    ensures
        env_flag_on(Some(seq!['1'])),
        env_flag_on(Some(seq!['t', 'r', 'u', 'e'])),
        env_flag_on(Some(seq!['T', 'R', 'U', 'E'])),
        env_flag_on(Some(seq!['y', 'e', 's'])),
        env_flag_on(Some(seq!['Y', 'E', 'S'])),
        env_flag_on(Some(s)) ==> s == seq!['1'] || s == seq!['t', 'r', 'u', 'e'] || s == seq![
            'T',
            'R',
            'U',
            'E',
        ] || s == seq!['y', 'e', 's'] || s == seq!['Y', 'E', 'S'],
        !env_flag_on(None),
{
    reveal_with_fuel(trim_start, 2);
    reveal_with_fuel(trim_end, 2);
    let words = seq![seq!['1'], seq!['t', 'r', 'u', 'e'], seq!['T', 'R', 'U', 'E'], seq!['y', 'e', 's'], seq!['Y', 'E', 'S']];
    assert forall|k: int| 0 <= k < 5 implies trim(#[trigger] words[k]).len() > 0 by {
        let w = words[k];
        assert(!is_white_space(w[0]));
        assert(trim_start(w) == w);
        assert(!is_white_space(w.last()));
        assert(trim_end(w) == w);
    }
    assert(trim(words[0]).len() > 0);
    assert(trim(words[1]).len() > 0);
    assert(trim(words[2]).len() > 0);
    assert(trim(words[3]).len() > 0);
    assert(trim(words[4]).len() > 0);
}

/// Law: a title of at most `MAX_TITLE_CHARS` characters is kept as it is; a longer one
/// becomes its first `MAX_TITLE_CHARS - 3` characters followed by `...`, exactly
/// `MAX_TITLE_CHARS` characters in all.
pub proof fn lemma_truncated_keeps_the_head(t: Seq<char>)
    ensures
        t.len() <= MAX_TITLE_CHARS ==> truncated(t) == t,
        t.len() > MAX_TITLE_CHARS ==> {
            &&& truncated(t).len() == MAX_TITLE_CHARS
            &&& forall|i: int| 0 <= i < MAX_TITLE_CHARS - 3 ==> #[trigger] truncated(t)[i] == t[i]
            &&& truncated(t)[MAX_TITLE_CHARS - 3] == '.'
            &&& truncated(t)[MAX_TITLE_CHARS - 2] == '.'
            &&& truncated(t)[MAX_TITLE_CHARS - 1] == '.'
        },
{
}

} // verus!
