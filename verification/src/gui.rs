//! The settings app's decisions: the monitor table it shows, how it reads
//! the daemon's replies and `systemctl`'s answer, its colour themes, which
//! library files it lists and in what order, thumbnail file names, and a
//! picture's average colour.
use vstd::prelude::*;
use vstd::string::*;
use std::collections::hash_map::DefaultHasher;
use std::hash::Hasher;
use vstd::std_specs::hash::DefaultHasherAdditionalSpecFns;
use crate::order::{str_lt, texts};
use crate::response::{InfoView, MonitorInfo, Response, ResponseView};
use crate::text::{eq_lit, hex_digits, i32_text, join_with, push_hex, push_i32, to_chars, trim, trim_bounds};
use crate::text::seq_lt;

verus! {

broadcast use vstd::string::group_string_axioms;

// ---------------------------------------------------------------------------
// Debug text of replies

/// Printable ASCII other than `"` and `\`: the characters `{:?}` shows
/// unescaped inside a quoted string.
pub open spec fn plain_ascii(s: Seq<char>) -> bool {
    forall|i: int| 0 <= i < s.len() ==> ' ' <= #[trigger] s[i] <= '~' && s[i] != '"' && s[i] != '\\'
}

/// What `format!("{:?}", s)` gives for a string `s`.
pub uninterp spec fn str_debug(s: Seq<char>) -> Seq<char>;

/// `<str as Debug>::fmt`, through `format!("{:?}", s)`: the string in double
/// quotes, with `"`, `\`, control characters and some non-ASCII characters
/// escaped (a single quote is left as it is). Claimed: the result is
/// `str_debug` of the text, and a text of printable ASCII with no `"` or `\`
/// comes out exactly between two quotes. Which non-ASCII characters are
/// escaped, and how any character is escaped, is not stated.
#[verifier::external_body]
fn debug_quoted(s: &str) -> (r: String)
    ensures
        r@ == str_debug(s@),
        plain_ascii(s@) ==> r@ == seq!['"'] + s@ + seq!['"'],
{
    format!("{:?}", s)
}

/// The derived `{:?}` text of a monitor report.
pub open spec fn info_debug(i: InfoView) -> Seq<char> {
    "MonitorInfo { name: "@ + str_debug(i.name) + ", x: "@ + i32_text(i.x as int) + ", y: "@ + i32_text(i.y as int)
        + ", w: "@ + i32_text(i.w as int) + ", h: "@ + i32_text(i.h as int) + ", group: ["@ + join_with(
        i.group.map_values(|g: Seq<char>| str_debug(g)),
        ", "@,
    ) + "] }"@
}

/// The derived `{:?}` text of a reply (its first variant reads `Ok`).
pub open spec fn response_debug(r: ResponseView) -> Seq<char> {
    match r {
        ResponseView::Okay => "Ok"@,
        ResponseView::Path(p) => "Path("@ + str_debug(p) + ")"@,
        ResponseView::MonitorList(infos) => "MonitorList(["@ + join_with(
            infos.map_values(|i: InfoView| info_debug(i)),
            ", "@,
        ) + "])"@,
        ResponseView::Error(m) => "Error("@ + str_debug(m) + ")"@,
    }
}

/// `s` between two double quotes: what `{:?}` gives for a plain text.
pub open spec fn quoted(s: Seq<char>) -> Seq<char> {
    seq!['"'] + s + seq!['"']
}

/// What is known of `str_debug(s)` once `s` has been printed: a plain text
/// comes out between quotes.
pub open spec fn debug_fact(s: Seq<char>) -> bool {
    plain_ascii(s) ==> str_debug(s) == quoted(s)
}

pub open spec fn info_facts(i: InfoView) -> bool {
    &&& debug_fact(i.name)
    &&& forall|k: int| 0 <= k < i.group.len() ==> debug_fact(#[trigger] i.group[k])
}

/// Every text in a monitor report is plain.
pub open spec fn info_plain(i: InfoView) -> bool {
    &&& plain_ascii(i.name)
    &&& forall|k: int| 0 <= k < i.group.len() ==> #[trigger] plain_ascii(i.group[k])
}

/// Every text in a reply is plain.
pub open spec fn response_plain(r: ResponseView) -> bool {
    match r {
        ResponseView::Okay => true,
        ResponseView::Path(p) => plain_ascii(p),
        ResponseView::Error(m) => plain_ascii(m),
        ResponseView::MonitorList(infos) => forall|k: int| 0 <= k < infos.len() ==> #[trigger] info_plain(infos[k]),
    }
}

/// The derived `{:?}` text of a monitor report whose texts are all plain.
pub open spec fn info_debug_plain(i: InfoView) -> Seq<char> {
    "MonitorInfo { name: "@ + quoted(i.name) + ", x: "@ + i32_text(i.x as int) + ", y: "@ + i32_text(i.y as int)
        + ", w: "@ + i32_text(i.w as int) + ", h: "@ + i32_text(i.h as int) + ", group: ["@ + join_with(
        i.group.map_values(|g: Seq<char>| quoted(g)),
        ", "@,
    ) + "] }"@
}

/// The derived `{:?}` text of a reply whose texts are all plain.
pub open spec fn response_debug_plain(r: ResponseView) -> Seq<char> {
    match r {
        ResponseView::Okay => "Ok"@,
        ResponseView::Path(p) => "Path("@ + quoted(p) + ")"@,
        ResponseView::MonitorList(infos) => "MonitorList(["@ + join_with(
            infos.map_values(|i: InfoView| info_debug_plain(i)),
            ", "@,
        ) + "])"@,
        ResponseView::Error(m) => "Error("@ + quoted(m) + ")"@,
    }
}

proof fn lemma_list_plain(iv: Seq<InfoView>, k: int)
    requires
        response_plain(ResponseView::MonitorList(iv)),
        0 <= k < iv.len(),
    ensures
        info_plain(iv[k]),
{
    let r = ResponseView::MonitorList(iv);
    assert(r is MonitorList);
    assert(r->MonitorList_0 == iv);
    assert(forall|j: int| 0 <= j < iv.len() ==> #[trigger] info_plain(iv[j]));
}

proof fn lemma_info_debug_plain(i: InfoView)
    requires
        info_facts(i),
        info_plain(i),
    ensures
        info_debug(i) == info_debug_plain(i),
{
    assert(i.group.map_values(|g: Seq<char>| str_debug(g)) =~= i.group.map_values(|g: Seq<char>| quoted(g))) by {
        assert forall|k: int| 0 <= k < i.group.len() implies str_debug(i.group[k]) == quoted(i.group[k]) by {
            assert(debug_fact(i.group[k]));
            assert(plain_ascii(i.group[k]));
        }
    }
}

/// Appends `{:?}` of each of `items`, comma-separated.
fn push_debug_list(out: &mut String, items: &[String])
    ensures
        final(out)@ == old(out)@ + join_with(texts(items@).map_values(|g: Seq<char>| str_debug(g)), ", "@),
        forall|k: int| 0 <= k < items@.len() ==> debug_fact(#[trigger] texts(items@)[k]),
{
    let ghost ds = texts(items@).map_values(|g: Seq<char>| str_debug(g));
    let ghost start = out@;
    let mut i: usize = 0;
    while i < items.len()
        invariant
            i <= items@.len(),
            ds == texts(items@).map_values(|g: Seq<char>| str_debug(g)),
            out@ == start + join_with(ds.take(i as int), ", "@),
            forall|k: int| 0 <= k < i ==> debug_fact(#[trigger] texts(items@)[k]),
        decreases items@.len() - i,
    {
        proof {
            assert(ds.take(i + 1int).drop_last() =~= ds.take(i as int));
            assert(ds.take(i + 1int).last() == str_debug(items@[i as int]@));
            if i == 0 {
                assert(ds.take(0) =~= Seq::<Seq<char>>::empty());
            }
        }
        if i > 0 {
            out.append(", ");
        }
        let d = debug_quoted(items[i].as_str());
        proof {
            assert(texts(items@)[i as int] == items@[i as int]@);
        }
        out.append(d.as_str());
        i = i + 1;
    }
    proof {
        assert(ds.take(items@.len() as int) =~= ds);
    }
}

fn debug_info(i: &MonitorInfo) -> (r: String)
    ensures
        r@ == info_debug(i@),
        info_facts(i@),
{
    let mut out = String::new();
    out.append("MonitorInfo { name: ");
    let n = debug_quoted(i.name.as_str());
    out.append(n.as_str());
    out.append(", x: ");
    push_i32(&mut out, i.x);
    out.append(", y: ");
    push_i32(&mut out, i.y);
    out.append(", w: ");
    push_i32(&mut out, i.w);
    out.append(", h: ");
    push_i32(&mut out, i.h);
    out.append(", group: [");
    push_debug_list(&mut out, i.group.as_slice());
    out.append("] }");
    proof {
        assert(out@ =~= info_debug(i@));
    }
    out
}

/// The derived `{:?}` text of a reply.
pub fn debug_response(r: &Response) -> (s: String)
    ensures
        s@ == response_debug(r@),
        response_plain(r@) ==> s@ == response_debug_plain(r@),
{
    match r {
        Response::Okay => "Ok".to_owned(),
        Response::Path(p) => {
            let mut out = "Path(".to_owned();
            let d = debug_quoted(p.as_str());
            out.append(d.as_str());
            out.append(")");
            out
        },
        Response::Error(m) => {
            let mut out = "Error(".to_owned();
            let d = debug_quoted(m.as_str());
            out.append(d.as_str());
            out.append(")");
            out
        },
        Response::MonitorList(infos) => {
            let ghost ds = crate::response::info_views(infos@).map_values(|i: InfoView| info_debug(i));
            let mut out = "MonitorList([".to_owned();
            let ghost start = out@;
            let mut i: usize = 0;
            while i < infos.len()
                invariant
                    i <= infos@.len(),
                    ds == crate::response::info_views(infos@).map_values(|i: InfoView| info_debug(i)),
                    out@ == start + join_with(ds.take(i as int), ", "@),
                    forall|k: int| 0 <= k < i ==> info_facts(#[trigger] crate::response::info_views(infos@)[k]),
                decreases infos@.len() - i,
            {
                proof {
                    assert(ds.take(i + 1int).drop_last() =~= ds.take(i as int));
                    assert(ds.take(i + 1int).last() == info_debug(infos@[i as int]@));
                    if i == 0 {
                        assert(ds.take(0) =~= Seq::<Seq<char>>::empty());
                    }
                }
                if i > 0 {
                    out.append(", ");
                }
                let d = debug_info(&infos[i]);
                proof {
                    assert(crate::response::info_views(infos@)[i as int] == infos@[i as int]@);
                }
                out.append(d.as_str());
                i = i + 1;
            }
            proof {
                assert(ds.take(infos@.len() as int) =~= ds);
                let iv = crate::response::info_views(infos@);
                assert(r@ == ResponseView::MonitorList(iv));
                if response_plain(r@) {
                    assert(ds =~= iv.map_values(|i: InfoView| info_debug_plain(i))) by {
                        assert forall|k: int| 0 <= k < iv.len() implies info_debug(iv[k]) == info_debug_plain(iv[k]) by {
                            assert(info_facts(iv[k]));
                            lemma_list_plain(iv, k);
                            lemma_info_debug_plain(iv[k]);
                        }
                    }
                }
            }
            out.append("])");
            out
        },
    }
}

// ---------------------------------------------------------------------------
// Replies

/// `prefix` followed by the `{:?}` text of `r`.
fn unexpected(prefix: &str, r: &Response) -> (s: String)
    ensures
        s@ == prefix@ + response_debug(r@),
        response_plain(r@) ==> s@ == prefix@ + response_debug_plain(r@),
{
    let mut s = prefix.to_owned();
    let d = debug_response(r);
    s.append(d.as_str());
    s
}

/// A reply to a command that only succeeds or fails: `Ok` for `ok`, the
/// message of an error, and a description of anything else.
pub fn ok_or_error(resp: Response) -> (r: Result<(), String>)
    ensures
        match resp@ {
            ResponseView::Okay => r is Ok,
            ResponseView::Error(m) => (r matches Err(e) && e@ == m),
            _ => (r matches Err(e) && e@ == "unexpected response: "@ + response_debug(resp@) && (response_plain(resp@)
                ==> e@ == "unexpected response: "@ + response_debug_plain(resp@))),
        },
{
    match resp {
        Response::Okay => Ok(()),
        Response::Error(msg) => Err(msg),
        other => Err(unexpected("unexpected response: ", &other)),
    }
}

/// The reports of a reply to `monitor list`; anything else is described.
pub fn monitor_list_reply(resp: Response) -> (r: Result<Vec<MonitorInfo>, String>)
    ensures
        match resp@ {
            ResponseView::MonitorList(infos) => (r matches Ok(v) && crate::response::info_views(v@) == infos),
            _ => (r matches Err(e) && e@ == "unexpected response to monitor list: "@ + response_debug(resp@) && (
            response_plain(resp@) ==> e@ == "unexpected response to monitor list: "@ + response_debug_plain(resp@))),
        },
{
    match resp {
        Response::MonitorList(infos) => Ok(infos),
        other => Err(unexpected("unexpected response to monitor list: ", &other)),
    }
}

/// The wallpaper a reply to `get` reports: the path, none for an error, and
/// a description of anything else.
pub fn current_path_reply(resp: Response) -> (r: Result<Option<String>, String>)
    ensures
        match resp@ {
            ResponseView::Path(p) => (r matches Ok(Some(q)) && q@ == p),
            ResponseView::Error(_) => (r matches Ok(None)),
            _ => (r matches Err(e) && e@ == "unexpected response to get: "@ + response_debug(resp@) && (
            response_plain(resp@) ==> e@ == "unexpected response to get: "@ + response_debug_plain(resp@))),
        },
{
    match resp {
        Response::Path(p) => Ok(Some(p)),
        Response::Error(_) => Ok(None),
        other => Err(unexpected("unexpected response to get: ", &other)),
    }
}

/// One row of the settings app's monitor table.
#[derive(Debug, PartialEq)]
pub struct MonitorState {
    pub name: String,
    pub x: i32,
    pub y: i32,
    pub w: i32,
    pub h: i32,
    pub current_path: Option<String>,
}

/// The row for a monitor report and the wallpaper it plays.
pub fn monitor_state(info: MonitorInfo, current_path: Option<String>) -> (r: MonitorState)
    ensures
        r.name@ == info.name@,
        r.x == info.x && r.y == info.y && r.w == info.w && r.h == info.h,
        r.current_path == current_path,
{
    MonitorState { name: info.name, x: info.x, y: info.y, w: info.w, h: info.h, current_path }
}

// ---------------------------------------------------------------------------
// systemctl

pub open spec fn enabled_error(other: Seq<char>) -> Seq<char> {
    "systemctl reports hyprwalld.socket as "@ + str_debug(other) + " -- is hyprwall installed as a package?"@
}

/// Reads `systemctl is-enabled`'s output: `enabled` or `disabled`, with
/// surrounding whitespace ignored; anything else is reported.
pub fn parse_is_enabled(stdout: &str) -> (r: Result<bool, String>)
    ensures
        trim(stdout@) == "enabled"@ ==> r == Ok::<bool, String>(true),
        trim(stdout@) == "disabled"@ ==> r == Ok::<bool, String>(false),
        trim(stdout@) != "enabled"@ && trim(stdout@) != "disabled"@ ==> (r matches Err(e) && e@ == enabled_error(
            trim(stdout@),
        ) && (plain_ascii(trim(stdout@)) ==> e@ == "systemctl reports hyprwalld.socket as "@ + quoted(trim(stdout@))
            + " -- is hyprwall installed as a package?"@)),
{
    let v = to_chars(stdout);
    let (lo, hi) = trim_bounds(v.as_slice(), 0, v.len());
    proof {
        assert(v@.subrange(0, v@.len() as int) =~= stdout@);
        reveal_strlit("enabled");
        reveal_strlit("disabled");
        assert("enabled"@.len() != "disabled"@.len());
    }
    if eq_lit(v.as_slice(), lo, hi, "enabled") {
        return Ok(true);
    }
    if eq_lit(v.as_slice(), lo, hi, "disabled") {
        return Ok(false);
    }
    let other = stdout.substring_char(lo, hi);
    let mut msg = "systemctl reports hyprwalld.socket as ".to_owned();
    let d = debug_quoted(other);
    msg.append(d.as_str());
    msg.append(" -- is hyprwall installed as a package?");
    Err(msg)
}

// ---------------------------------------------------------------------------
// Themes

/// The app's recolourable interface colours, each `#rrggbb`.
#[derive(Debug, PartialEq)]
pub struct ThemeColors {
    pub bg: String,
    pub bg_elevated: String,
    pub border: String,
    pub border_hover: String,
    pub text: String,
    pub text_muted: String,
    pub accent: String,
    pub accent_text: String,
    pub success: String,
    pub danger: String,
}

/// Dark or light.
#[derive(Clone, Copy, Debug, PartialEq, Eq, Structural)]
pub enum ThemeMode {
    Dark,
    Light,
}

/// The colours as plain values, in field order.
pub open spec fn colors_view(c: ThemeColors) -> Seq<Seq<char>> {
    seq![
        c.bg@,
        c.bg_elevated@,
        c.border@,
        c.border_hover@,
        c.text@,
        c.text_muted@,
        c.accent@,
        c.accent_text@,
        c.success@,
        c.danger@,
    ]
}

/// Each mode's stock colours, in field order.
pub open spec fn default_colors(m: ThemeMode) -> Seq<Seq<char>> {
    match m {
        ThemeMode::Dark => seq![
            "#0a0a0a"@,
            "#141414"@,
            "#333333"@,
            "#555555"@,
            "#eeeeee"@,
            "#888888"@,
            "#2563eb"@,
            "#ffffff"@,
            "#4ade80"@,
            "#f87171"@,
        ],
        ThemeMode::Light => seq![
            "#f5f5f5"@,
            "#ffffff"@,
            "#dddddd"@,
            "#bbbbbb"@,
            "#1a1a1a"@,
            "#666666"@,
            "#2563eb"@,
            "#ffffff"@,
            "#16a34a"@,
            "#dc2626"@,
        ],
    }
}

impl ThemeMode {
    /// This mode's stock colours.
    pub fn defaults(self) -> (r: ThemeColors)
        ensures
            colors_view(r) == default_colors(self),
    {
        match self {
            ThemeMode::Dark => ThemeColors {
                bg: "#0a0a0a".to_owned(),
                bg_elevated: "#141414".to_owned(),
                border: "#333333".to_owned(),
                border_hover: "#555555".to_owned(),
                text: "#eeeeee".to_owned(),
                text_muted: "#888888".to_owned(),
                accent: "#2563eb".to_owned(),
                accent_text: "#ffffff".to_owned(),
                success: "#4ade80".to_owned(),
                danger: "#f87171".to_owned(),
            },
            ThemeMode::Light => ThemeColors {
                bg: "#f5f5f5".to_owned(),
                bg_elevated: "#ffffff".to_owned(),
                border: "#dddddd".to_owned(),
                border_hover: "#bbbbbb".to_owned(),
                text: "#1a1a1a".to_owned(),
                text_muted: "#666666".to_owned(),
                accent: "#2563eb".to_owned(),
                accent_text: "#ffffff".to_owned(),
                success: "#16a34a".to_owned(),
                danger: "#dc2626".to_owned(),
            },
        }
    }
}

/// The chosen mode and colours.
#[derive(Debug, PartialEq)]
pub struct ThemeState {
    pub mode: ThemeMode,
    pub colors: ThemeColors,
}

impl Default for ThemeState {
    /// Dark, with the dark stock colours.
    fn default() -> (r: ThemeState)
        ensures
            r.mode == ThemeMode::Dark,
            colors_view(r.colors) == default_colors(ThemeMode::Dark),
    {
        ThemeState { mode: ThemeMode::Dark, colors: ThemeMode::Dark.defaults() }
    }
}

// ---------------------------------------------------------------------------
// Library

/// One picture of the library and its thumbnail, if one could be made.
#[derive(Debug, PartialEq)]
pub struct WallpaperEntry {
    pub path: String,
    pub thumbnail_path: Option<String>,
}

/// `v` ordered by path.
pub fn sort_entries(v: Vec<WallpaperEntry>) -> (r: Vec<WallpaperEntry>)
    ensures
        r@.len() == v@.len(),
        r@.to_multiset() == v@.to_multiset(),
        forall|i: int, j: int| 0 <= i < j < r@.len() ==> !seq_lt(#[trigger] r@[j].path@, #[trigger] r@[i].path@),
{
    broadcast use vstd::seq_lib::group_to_multiset_ensures;

    let ghost all = v@;
    let mut src = v;
    let mut r: Vec<WallpaperEntry> = Vec::new();
    while src.len() > 0
        invariant
            r@.len() + src@.len() == all.len(),
            src@ == all.skip(r@.len() as int),
            r@.to_multiset() == all.take(r@.len() as int).to_multiset(),
            forall|a: int, b: int| 0 <= a < b < r@.len() ==> !seq_lt(#[trigger] r@[b].path@, #[trigger] r@[a].path@),
        decreases src@.len(),
    {
        let ghost k = r@.len() as int;
        let x = src.remove(0);
        proof {
            assert(x == all[k]);
            assert(src@ =~= all.skip(k + 1));
        }
        let mut p: usize = 0;
        while p < r.len() && !str_lt(x.path.as_str(), r[p].path.as_str())
            invariant
                p <= r@.len(),
                forall|q: int| 0 <= q < p ==> !seq_lt(x.path@, #[trigger] r@[q].path@),
            decreases r@.len() - p,
        {
            p = p + 1;
        }
        let ghost old_r = r@;
        let ghost xv = x;
        r.insert(p, x);
        proof {
            assert(r@ =~= old_r.insert(p as int, xv));
            assert forall|a: int, b: int| 0 <= a < b < r@.len() implies !seq_lt(
                #[trigger] r@[b].path@,
                #[trigger] r@[a].path@,
            ) by {
                if a < p && b < p {
                    assert(r@[a] == old_r[a] && r@[b] == old_r[b]);
                } else if a < p && b == p {
                    assert(r@[a] == old_r[a]);
                    crate::order::lemma_lt_total(xv.path@, old_r[a].path@);
                    crate::order::lemma_lt_asymmetric(xv.path@, old_r[a].path@);
                } else if a < p && b > p {
                    assert(r@[a] == old_r[a] && r@[b] == old_r[b - 1]);
                } else if a == p {
                    assert(r@[b] == old_r[b - 1]);
                    assert(seq_lt(xv.path@, old_r[p as int].path@));
                    if b - 1 > p {
                        assert(!seq_lt(old_r[b - 1].path@, old_r[p as int].path@));
                        crate::order::lemma_lt_total(old_r[b - 1].path@, old_r[p as int].path@);
                        if seq_lt(old_r[b - 1].path@, xv.path@) {
                            crate::order::lemma_lt_transitive(old_r[b - 1].path@, xv.path@, old_r[p as int].path@);
                        }
                    } else {
                        crate::order::lemma_lt_asymmetric(xv.path@, old_r[p as int].path@);
                    }
                } else {
                    assert(r@[a] == old_r[a - 1] && r@[b] == old_r[b - 1]);
                }
            }
            assert(all.take(k + 1) =~= all.take(k).push(xv));
            vstd::seq_lib::to_multiset_build(all.take(k), xv);
            vstd::seq_lib::to_multiset_insert(old_r, p as int, xv);
            assert(r@.len() == k + 1);
        }
    }
    proof {
        assert(all.take(all.len() as int) =~= all);
    }
    r
}

/// A character as `str::to_lowercase` maps it, for the characters whose
/// lower case is a single ASCII letter: `A` to `Z`, and the Kelvin sign.
pub open spec fn fold_ascii(c: char) -> char {
    if 'A' <= c <= 'Z' {
        ((c as u8) + 32u8) as char
    } else if c == '\u{212A}' {
        'k'
    } else {
        c
    }
}

/// The extension of a file name, as `Path::extension` finds it: the text
/// after the last `.`, unless the name has no `.` but a leading one.
pub open spec fn extension_of(name: Seq<char>) -> Option<Seq<char>> {
    let k = last_dot(name);
    if k <= 0 {
        None
    } else {
        Some(name.skip(k + 1))
    }
}

/// Index of the last `.` of `s`, or -1.
pub open spec fn last_dot(s: Seq<char>) -> int
    decreases s.len(),
{
    if s.len() == 0 {
        -1
    } else if s.last() == '.' {
        s.len() - 1
    } else {
        last_dot(s.drop_last())
    }
}

/// `e` lower-cased (as far as it matters) is `word`.
pub open spec fn folds_to(e: Seq<char>, word: Seq<char>) -> bool {
    e.len() == word.len() && forall|i: int| 0 <= i < e.len() ==> fold_ascii(#[trigger] e[i]) == word[i]
}

/// A file name the library lists: its extension, in any case, is `mp4`,
/// `webm` or `mkv`.
pub open spec fn video_name(name: Seq<char>) -> bool {
    extension_of(name) matches Some(e) && (folds_to(e, "mp4"@) || folds_to(e, "webm"@) || folds_to(e, "mkv"@))
}

proof fn lemma_last_dot(s: Seq<char>)
    ensures
        -1 <= last_dot(s) < s.len(),
        last_dot(s) >= 0 ==> s[last_dot(s)] == '.',
        forall|j: int| last_dot(s) < j < s.len() ==> s[j] != '.',
    decreases s.len(),
{
    if s.len() > 0 && s.last() != '.' {
        lemma_last_dot(s.drop_last());
        assert forall|j: int| last_dot(s) < j < s.len() implies s[j] != '.' by {
            if j < s.len() - 1 {
                assert(s[j] == s.drop_last()[j]);
            }
        }
    }
}

proof fn lemma_last_dot_unique(s: Seq<char>, k: int)
    requires
        -1 <= k < s.len(),
        k >= 0 ==> s[k] == '.',
        forall|j: int| k < j < s.len() ==> s[j] != '.',
    ensures
        last_dot(s) == k,
{
    lemma_last_dot(s);
    if last_dot(s) < k {
        assert(s[k] == '.');
    } else if last_dot(s) > k {
        assert(s[last_dot(s)] == '.');
    }
}

fn fold_exec(c: char) -> (r: char)
    ensures
        r == fold_ascii(c),
{
    if 'A' <= c && c <= 'Z' {
        let b: u8 = c as u8;
        proof {
            assert(b as int == c as u32 as int);
        }
        (b + 32u8) as char
    } else if c == '\u{212A}' {
        'k'
    } else {
        c
    }
}

fn folds_to_exec(v: &[char], lo: usize, hi: usize, word: &str) -> (r: bool)
    requires
        lo <= hi <= v@.len(),
    ensures
        r == folds_to(v@.subrange(lo as int, hi as int), word@),
{
    let w = to_chars(word);
    if hi - lo != w.len() {
        return false;
    }
    let mut i: usize = 0;
    while i < w.len()
        invariant
            i <= w@.len(),
            w@ == word@,
            hi - lo == w@.len(),
            lo <= hi <= v@.len(),
            forall|j: int| 0 <= j < i ==> fold_ascii(#[trigger] v@.subrange(lo as int, hi as int)[j]) == w@[j],
        decreases w@.len() - i,
    {
        proof {
            assert(v@.subrange(lo as int, hi as int)[i as int] == v@[lo + i]);
        }
        if fold_exec(v[lo + i]) != w[i] {
            return false;
        }
        i = i + 1;
    }
    true
}

/// Whether the library lists a file of this name: a video by its extension.
pub fn is_video_name(name: &str) -> (r: bool)
    ensures
        r == video_name(name@),
{
    let v = to_chars(name);
    let n = v.len();
    let mut k: usize = n;
    while k > 0 && v[k - 1] != '.'
        invariant
            k <= n == v@.len(),
            forall|j: int| k <= j < n ==> v@[j] != '.',
        decreases k,
    {
        k = k - 1;
    }
    proof {
        lemma_last_dot_unique(name@, k - 1);
    }
    if k <= 1 {
        return false;
    }
    proof {
        assert(name@.skip(k as int) =~= v@.subrange(k as int, n as int));
        reveal_strlit("mp4");
        reveal_strlit("webm");
        reveal_strlit("mkv");
    }
    folds_to_exec(v.as_slice(), k, n, "mp4") || folds_to_exec(v.as_slice(), k, n, "webm") || folds_to_exec(
        v.as_slice(),
        k,
        n,
        "mkv",
    )
}

/// The capital of a lower-case ASCII letter; any other character as it is.
pub open spec fn ascii_upper(c: char) -> char {
    if 'a' <= c <= 'z' {
        ((c as u32) - 32) as char
    } else {
        c
    }
}

/// `e` is `word` written in any mix of upper and lower case (the Kelvin
/// sign counts as a `k`, as Unicode lower-casing makes it one).
pub open spec fn same_ignoring_case(e: Seq<char>, word: Seq<char>) -> bool {
    &&& e.len() == word.len()
    &&& forall|i: int|
        0 <= i < e.len() ==> #[trigger] e[i] == word[i] || e[i] == ascii_upper(word[i]) || (word[i] == 'k' && e[i]
            == '\u{212A}')
}

proof fn lemma_fold_is(x: char, w: char)
    requires
        ('a' <= w <= 'z') || ('0' <= w <= '9'),
    ensures
        (fold_ascii(x) == w) <==> (x == w || x == ascii_upper(w) || (w == 'k' && x == '\u{212A}')),
{
    if 'A' <= x <= 'Z' {
        assert((x as u8) as int == x as int);
        assert(fold_ascii(x) as int == x as int + 32);
        if 'a' <= w <= 'z' {
            assert(ascii_upper(w) as int == w as int - 32);
        }
    }
}

proof fn lemma_folds_to_is(e: Seq<char>, word: Seq<char>)
    requires
        forall|i: int| 0 <= i < word.len() ==> ('a' <= #[trigger] word[i] <= 'z') || ('0' <= word[i] <= '9'),
    ensures
        folds_to(e, word) <==> same_ignoring_case(e, word),
{
    if e.len() == word.len() {
        assert forall|i: int| 0 <= i < e.len() implies (fold_ascii(#[trigger] e[i]) == word[i]) <==> (e[i] == word[i]
            || e[i] == ascii_upper(word[i]) || (word[i] == 'k' && e[i] == '\u{212A}')) by {
            lemma_fold_is(e[i], word[i]);
        }
    }
}

/// The library lists a file exactly by its extension: a name made of a
/// non-empty stem, a `.` and a dot-free extension is listed exactly when
/// the extension is `mp4`, `webm` or `mkv` in any case, so `photo.jpg`,
/// `clip.MOV` or `notes.txt` are never listed.
pub proof fn law_video_name_is_its_extension(stem: Seq<char>, ext: Seq<char>)
    requires
        stem.len() > 0,
        !ext.contains('.'),
    ensures
        video_name(stem + seq!['.'] + ext) <==> (same_ignoring_case(ext, "mp4"@) || same_ignoring_case(ext, "webm"@)
            || same_ignoring_case(ext, "mkv"@)),
{
    let n = stem + seq!['.'] + ext;
    let k = stem.len() as int;
    assert(n[k] == '.');
    assert forall|j: int| k < j < n.len() implies n[j] != '.' by {
        assert(n[j] == ext[j - k - 1]);
        if n[j] == '.' {
            assert(ext.contains(ext[j - k - 1]));
        }
    }
    lemma_last_dot_unique(n, k);
    assert(n.skip(k + 1) =~= ext);
    reveal_strlit("mp4");
    reveal_strlit("webm");
    reveal_strlit("mkv");
    lemma_folds_to_is(ext, "mp4"@);
    lemma_folds_to_is(ext, "webm"@);
    lemma_folds_to_is(ext, "mkv"@);
}

/// A name with no extension (no `.` after its first character) is never
/// listed.
pub proof fn law_name_without_extension_is_not_video(name: Seq<char>)
    requires
        forall|j: int| 0 < j < name.len() ==> name[j] != '.',
    ensures
        !video_name(name),
{
    lemma_last_dot(name);
}

// ---------------------------------------------------------------------------
// Thumbnails and colours

/// A thumbnail's file name for a hash: 16 lower-case hex digits, `.png`.
pub open spec fn cache_file_text(hash: u64) -> Seq<char> {
    hex_digits(hash as nat, 16) + ".png"@
}

/// The thumbnail file name for `hash`.
pub fn cache_file_name(hash: u64) -> (r: String)
    ensures
        r@ == cache_file_text(hash),
{
    let mut out = String::new();
    push_hex(&mut out, hash, 16);
    out.append(".png");
    proof {
        assert(out@ =~= cache_file_text(hash));
    }
    out
}

/// The hash `DefaultHasher` gives a text fed to it as `str`'s `Hash` does:
/// its bytes, then the byte `0xff`.
pub open spec fn text_hash(s: &str) -> u64 {
    DefaultHasher::spec_finish(seq![s.spec_bytes(), seq![0xffu8]])
}

/// The thumbnail file name for a video: its path's `DefaultHasher` hash in
/// hex, then `.png`.
pub fn cache_key(video_path: &str) -> (r: String)
    ensures
        r@ == cache_file_text(text_hash(video_path)),
{
    let mut hasher = DefaultHasher::new();
    hasher.write(video_path.as_bytes());
    let end: [u8; 1] = [0xffu8];
    hasher.write(end.as_slice());
    proof {
        assert(end@ =~= seq![0xffu8]);
        assert(hasher@ =~= seq![video_path.spec_bytes(), seq![0xffu8]]);
    }
    let h = hasher.finish();
    cache_file_name(h)
}

/// Sum of channel `c` over the first `n` pixels of packed RGB bytes.
pub open spec fn channel_sum(rgb: Seq<u8>, c: int, n: nat) -> nat
    decreases n,
{
    if n == 0 {
        0
    } else {
        channel_sum(rgb, c, (n - 1) as nat) + rgb[3 * (n - 1) + c] as nat
    }
}

/// `#rrggbb` of the per-channel average of packed RGB pixels.
pub open spec fn average_text(rgb: Seq<u8>) -> Seq<char> {
    let n = rgb.len() / 3;
    "#"@ + hex_digits(channel_sum(rgb, 0, n) / n, 2) + hex_digits(channel_sum(rgb, 1, n) / n, 2) + hex_digits(
        channel_sum(rgb, 2, n) / n,
        2,
    )
}

proof fn lemma_channel_sum_bound(rgb: Seq<u8>, c: int, n: nat)
    requires
        0 <= c < 3,
        3 * n <= rgb.len(),
    ensures
        channel_sum(rgb, c, n) <= 255 * n,
    decreases n,
{
    if n > 0 {
        lemma_channel_sum_bound(rgb, c, (n - 1) as nat);
    }
}

/// The average colour, `#rrggbb`, of packed RGB pixels (three bytes each);
/// `None` when there are none.
pub fn average_color(rgb: &[u8]) -> (r: Option<String>)
    requires
        rgb@.len() % 3 == 0,
        rgb@.len() <= u64::MAX / 255,
    ensures
        rgb@.len() == 0 <==> r is None,
        r matches Some(s) ==> s@ == average_text(rgb@),
{
    let len = rgb.len();
    let n = len / 3;
    if n == 0 {
        return None;
    }
    proof {
        assert(3 * n == len);
    }
    let mut r: u64 = 0;
    let mut g: u64 = 0;
    let mut b: u64 = 0;
    let mut i: usize = 0;
    while i < n
        invariant
            i <= n,
            n == rgb@.len() / 3,
            3 * n == len,
            len == rgb@.len(),
            rgb@.len() % 3 == 0,
            rgb@.len() <= u64::MAX / 255,
            r == channel_sum(rgb@, 0, i as nat),
            g == channel_sum(rgb@, 1, i as nat),
            b == channel_sum(rgb@, 2, i as nat),
        decreases n - i,
    {
        proof {
            lemma_channel_sum_bound(rgb@, 0, (i + 1) as nat);
            lemma_channel_sum_bound(rgb@, 1, (i + 1) as nat);
            lemma_channel_sum_bound(rgb@, 2, (i + 1) as nat);
        }
        r = r + rgb[3 * i] as u64;
        g = g + rgb[3 * i + 1] as u64;
        b = b + rgb[3 * i + 2] as u64;
        i = i + 1;
    }
    let mut out = "#".to_owned();
    push_hex(&mut out, r / (n as u64), 2);
    push_hex(&mut out, g / (n as u64), 2);
    push_hex(&mut out, b / (n as u64), 2);
    proof {
        assert(out@ =~= average_text(rgb@));
    }
    Some(out)
}

} // verus!
