//! Commands of the control socket: one line of text per command.
use vstd::prelude::*;
use vstd::string::*;
use crate::order::texts;
use crate::settings::{SettingsView, WallpaperSettings, parse_blob_spec, parse_settings_range, fit_name, fit_text, settings_valid, default_settings, apply_setting, apply_settings, lemma_float_text_plain, FitMode};
use crate::text::{eq_lit, find_in, join_with, lemma_find_char, split_on, split_once, sub_string, to_chars, trim, trim_bounds, is_trimmed, is_ws, lemma_trim_idempotent, lemma_trim_trimmed, lemma_split_once_concat, lemma_split_join, lemma_join_lacks, lemma_join_ends, lemma_word};

verus! {

broadcast use vstd::string::group_string_axioms;

/// A request to the daemon.
#[derive(Debug, PartialEq)]
pub enum Command {
    MonitorList,
    SetZone { monitors: Vec<String>, path: String },
    Unset { monitor: String },
    Pause { monitor: String },
    Play { monitor: String },
    Get { monitor: String },
    SetWallpaperSettings { path: String, settings: WallpaperSettings },
}

/// Why a command line was refused.
#[derive(Debug, PartialEq, Eq)]
pub enum ParseError {
    Empty,
    UnknownVerb(String),
    MissingArg { verb: &'static str, arg: &'static str },
    EmptyMonitorList,
    InvalidWallpaperSettings,
}

/// A command as plain values.
pub enum CommandView {
    MonitorList,
    SetZone { monitors: Seq<Seq<char>>, path: Seq<char> },
    Unset { monitor: Seq<char> },
    Pause { monitor: Seq<char> },
    Play { monitor: Seq<char> },
    Get { monitor: Seq<char> },
    SetWallpaperSettings { path: Seq<char>, settings: SettingsView },
}

/// A parse error as plain values.
pub enum ParseErrorView {
    Empty,
    UnknownVerb(Seq<char>),
    MissingArg { verb: Seq<char>, arg: Seq<char> },
    EmptyMonitorList,
    InvalidWallpaperSettings,
}

impl View for Command {
    type V = CommandView;

    open spec fn view(&self) -> CommandView {
        match self {
            Command::MonitorList => CommandView::MonitorList,
            Command::SetZone { monitors, path } => CommandView::SetZone { monitors: texts(monitors@), path: path@ },
            Command::Unset { monitor } => CommandView::Unset { monitor: monitor@ },
            Command::Pause { monitor } => CommandView::Pause { monitor: monitor@ },
            Command::Play { monitor } => CommandView::Play { monitor: monitor@ },
            Command::Get { monitor } => CommandView::Get { monitor: monitor@ },
            Command::SetWallpaperSettings { path, settings } => CommandView::SetWallpaperSettings {
                path: path@,
                settings: settings@,
            },
        }
    }
}

impl View for ParseError {
    type V = ParseErrorView;

    open spec fn view(&self) -> ParseErrorView {
        match self {
            ParseError::Empty => ParseErrorView::Empty,
            ParseError::UnknownVerb(v) => ParseErrorView::UnknownVerb(v@),
            ParseError::MissingArg { verb, arg } => ParseErrorView::MissingArg { verb: verb@, arg: arg@ },
            ParseError::EmptyMonitorList => ParseErrorView::EmptyMonitorList,
            ParseError::InvalidWallpaperSettings => ParseErrorView::InvalidWallpaperSettings,
        }
    }
}

pub open spec fn result_view(r: Result<Command, ParseError>) -> Result<CommandView, ParseErrorView> {
    match r {
        Ok(c) => Ok(c@),
        Err(e) => Err(e@),
    }
}

/// The monitor names of a comma-separated list: each piece trimmed, empty
/// pieces dropped.
pub open spec fn csv_names(pieces: Seq<Seq<char>>) -> Seq<Seq<char>>
    decreases pieces.len(),
{
    if pieces.len() == 0 {
        seq![]
    } else if trim(pieces.last()).len() > 0 {
        csv_names(pieces.drop_last()).push(trim(pieces.last()))
    } else {
        csv_names(pieces.drop_last())
    }
}

/// `s` split at its first space: the first word and the trimmed rest
/// (empty when there is no space).
pub open spec fn head_and_rest(s: Seq<char>) -> (Seq<char>, Seq<char>) {
    (split_once(s, ' ').0, match split_once(s, ' ').1 {
        Some(r) => trim(r),
        None => seq![],
    })
}

/// A verb that takes one monitor name as its argument.
pub open spec fn monitor_command(verb: Seq<char>, monitor: Seq<char>) -> CommandView {
    if verb == "unset"@ {
        CommandView::Unset { monitor }
    } else if verb == "pause"@ {
        CommandView::Pause { monitor }
    } else if verb == "play"@ {
        CommandView::Play { monitor }
    } else {
        CommandView::Get { monitor }
    }
}

/// What a command line means.
pub open spec fn parse_command_spec(line: Seq<char>) -> Result<CommandView, ParseErrorView> {
    let t = trim(line);
    let verb = head_and_rest(t).0;
    let rest = head_and_rest(t).1;
    if t.len() == 0 {
        Err(ParseErrorView::Empty)
    } else if verb == "monitor"@ {
        if rest == "list"@ {
            Ok(CommandView::MonitorList)
        } else {
            Err(ParseErrorView::UnknownVerb("monitor "@ + rest))
        }
    } else if verb == "set"@ {
        let csv = head_and_rest(rest).0;
        let path = head_and_rest(rest).1;
        if csv.len() == 0 {
            Err(ParseErrorView::MissingArg { verb: "set"@, arg: "monitor"@ })
        } else if path.len() == 0 {
            Err(ParseErrorView::MissingArg { verb: "set"@, arg: "path"@ })
        } else if csv_names(split_on(csv, ',')).len() == 0 {
            Err(ParseErrorView::EmptyMonitorList)
        } else {
            Ok(CommandView::SetZone { monitors: csv_names(split_on(csv, ',')), path })
        }
    } else if verb == "unset"@ || verb == "pause"@ || verb == "play"@ || verb == "get"@ {
        if rest.len() > 0 {
            Ok(monitor_command(verb, rest))
        } else {
            Err(ParseErrorView::MissingArg { verb, arg: "monitor"@ })
        }
    } else if verb == "wallpaper-settings"@ {
        let blob = head_and_rest(rest).0;
        let path = head_and_rest(rest).1;
        if path.len() == 0 {
            Err(ParseErrorView::MissingArg { verb: "wallpaper-settings"@, arg: "path"@ })
        } else {
            match parse_blob_spec(blob) {
                Some(s) => Ok(CommandView::SetWallpaperSettings { path, settings: s }),
                None => Err(ParseErrorView::InvalidWallpaperSettings),
            }
        }
    } else {
        Err(ParseErrorView::UnknownVerb(verb))
    }
}

/// Splits `v[lo..hi]` at its first space: end of the first word, and the
/// trimmed rest as bounds (an empty range at `hi` when there is no space).
fn split_head(v: &[char], lo: usize, hi: usize) -> (r: (usize, usize, usize))
    requires
        lo <= hi <= v@.len(),
    ensures
        lo <= r.0 <= hi,
        r.1 <= r.2 <= hi,
        v@.subrange(lo as int, r.0 as int) == head_and_rest(v@.subrange(lo as int, hi as int)).0,
        v@.subrange(r.1 as int, r.2 as int) == head_and_rest(v@.subrange(lo as int, hi as int)).1,
{
    let ghost s = v@.subrange(lo as int, hi as int);
    let k = find_in(v, lo, hi, ' ');
    proof {
        lemma_find_char(s, ' ');
        assert(s.take(k - lo) =~= v@.subrange(lo as int, k as int));
    }
    if k == hi {
        proof {
            assert(v@.subrange(hi as int, hi as int) =~= Seq::<char>::empty());
            assert(s =~= v@.subrange(lo as int, k as int));
        }
        (k, hi, hi)
    } else {
        proof {
            assert(s.skip(k - lo + 1) =~= v@.subrange(k + 1int, hi as int));
        }
        let (a, b) = trim_bounds(v, k + 1, hi);
        (k, a, b)
    }
}

/// The names of the comma-separated list `v[lo..hi]`.
fn parse_csv(text: &str, v: &[char], lo: usize, hi: usize) -> (r: Vec<String>)
    requires
        v@ == text@,
        lo <= hi <= v@.len(),
    ensures
        texts(r@) == csv_names(split_on(v@.subrange(lo as int, hi as int), ',')),
{
    let ghost csv = v@.subrange(lo as int, hi as int);
    let mut out: Vec<String> = Vec::new();
    let ghost mut done: Seq<Seq<char>> = seq![];
    let mut start = lo;
    proof {
        assert(v@.subrange(start as int, hi as int) =~= csv);
    }
    loop
        invariant
            lo <= start <= hi <= v@.len(),
            v@ == text@,
            csv == v@.subrange(lo as int, hi as int),
            split_on(csv, ',') == done + split_on(v@.subrange(start as int, hi as int), ','),
            texts(out@) == csv_names(done),
        decreases hi - start,
    {
        let ghost rest = v@.subrange(start as int, hi as int);
        let k = find_in(v, start, hi, ',');
        proof {
            lemma_find_char(rest, ',');
        }
        let (a, b) = trim_bounds(v, start, k);
        let ghost piece = v@.subrange(start as int, k as int);
        let ghost before = out@;
        if a < b {
            out.push(sub_string(text, a, b));
        }
        proof {
            assert(done.push(piece).drop_last() =~= done);
            assert(texts(out@) =~= csv_names(done.push(piece))) by {
                if a < b {
                    assert(texts(out@) =~= texts(before).push(trim(piece)));
                }
            }
        }
        if k == hi {
            proof {
                assert(piece =~= rest);
                assert(split_on(rest, ',') == seq![rest]);
                assert(split_on(csv, ',') =~= done.push(piece));
            }
            return out;
        }
        proof {
            assert(rest.take(k - start) =~= piece);
            assert(rest.skip(k - start + 1) =~= v@.subrange(k + 1int, hi as int));
            assert(split_on(csv, ',') =~= done.push(piece) + split_on(v@.subrange(k + 1int, hi as int), ','));
            done = done.push(piece);
        }
        start = k + 1;
    }
}

/// Parses one command line.
pub fn parse_command(line: &str) -> (r: Result<Command, ParseError>)
    ensures
        result_view(r) == parse_command_spec(line@),
{
    let v = to_chars(line);
    let n = v.len();
    let (a, b) = trim_bounds(v.as_slice(), 0, n);
    proof {
        assert(v@.subrange(0, n as int) =~= line@);
    }
    if a == b {
        return Err(ParseError::Empty);
    }
    let (k, ra, rb) = split_head(v.as_slice(), a, b);
    if eq_lit(v.as_slice(), a, k, "monitor") {
        if eq_lit(v.as_slice(), ra, rb, "list") {
            return Ok(Command::MonitorList);
        }
        let mut msg = String::new();
        msg.append("monitor ");
        msg.append(sub_string(line, ra, rb).as_str());
        return Err(ParseError::UnknownVerb(msg));
    }
    if eq_lit(v.as_slice(), a, k, "set") {
        let (k2, pa, pb) = split_head(v.as_slice(), ra, rb);
        if k2 == ra {
            return Err(ParseError::MissingArg { verb: "set", arg: "monitor" });
        }
        if pa == pb {
            return Err(ParseError::MissingArg { verb: "set", arg: "path" });
        }
        let monitors = parse_csv(line, v.as_slice(), ra, k2);
        if monitors.len() == 0 {
            return Err(ParseError::EmptyMonitorList);
        }
        return Ok(Command::SetZone { monitors, path: sub_string(line, pa, pb) });
    }
    let unset = eq_lit(v.as_slice(), a, k, "unset");
    let pause = eq_lit(v.as_slice(), a, k, "pause");
    let play = eq_lit(v.as_slice(), a, k, "play");
    let get = eq_lit(v.as_slice(), a, k, "get");
    if unset || pause || play || get {
        if ra == rb {
            let verb: &'static str = if unset {
                "unset"
            } else if pause {
                "pause"
            } else if play {
                "play"
            } else {
                "get"
            };
            return Err(ParseError::MissingArg { verb, arg: "monitor" });
        }
        let monitor = sub_string(line, ra, rb);
        return Ok(
            if unset {
                Command::Unset { monitor }
            } else if pause {
                Command::Pause { monitor }
            } else if play {
                Command::Play { monitor }
            } else {
                Command::Get { monitor }
            },
        );
    }
    if eq_lit(v.as_slice(), a, k, "wallpaper-settings") {
        let (k2, pa, pb) = split_head(v.as_slice(), ra, rb);
        if pa == pb {
            return Err(ParseError::MissingArg { verb: "wallpaper-settings", arg: "path" });
        }
        return match parse_settings_range(line, v.as_slice(), ra, k2) {
            Some(settings) => Ok(Command::SetWallpaperSettings { path: sub_string(line, pa, pb), settings }),
            None => Err(ParseError::InvalidWallpaperSettings),
        };
    }
    Err(ParseError::UnknownVerb(sub_string(line, a, k)))
}


/// `key:value`
pub open spec fn pair_text(key: Seq<char>, value: Seq<char>) -> Seq<char> {
    key + seq![':'] + value
}

/// The wire form of settings: every field, as `key:value` pairs joined
/// by commas, in a fixed order.
pub open spec fn blob_text(s: SettingsView) -> Seq<char> {
    join_with(
        seq![
            pair_text("zoom"@, s.zoom),
            pair_text("pan_x"@, s.pan_x),
            pair_text("pan_y"@, s.pan_y),
            pair_text("fit"@, fit_text(s.fit)),
            pair_text("volume"@, s.volume),
            pair_text("brightness"@, s.brightness),
            pair_text("contrast"@, s.contrast),
            pair_text("hue"@, s.hue),
            pair_text("saturation"@, s.saturation),
        ],
        seq![','],
    )
}

/// The line a command is sent as.
pub open spec fn command_text(c: CommandView) -> Seq<char> {
    match c {
        CommandView::MonitorList => "monitor list"@,
        CommandView::SetZone { monitors, path } => "set"@ + seq![' '] + join_with(monitors, seq![',']) + seq![' '] + path,
        CommandView::Unset { monitor } => "unset"@ + seq![' '] + monitor,
        CommandView::Pause { monitor } => "pause"@ + seq![' '] + monitor,
        CommandView::Play { monitor } => "play"@ + seq![' '] + monitor,
        CommandView::Get { monitor } => "get"@ + seq![' '] + monitor,
        CommandView::SetWallpaperSettings { path, settings } => "wallpaper-settings"@ + seq![' '] + blob_text(settings)
            + seq![' '] + path,
    }
}

/// Appends `key:value`, preceded by a comma unless it is the first pair.
fn push_pair(out: &mut String, first: bool, key: &str, value: &str)
    ensures
        final(out)@ == old(out)@ + (if first { Seq::<char>::empty() } else { seq![','] }) + pair_text(key@, value@),
{
    if !first {
        out.append(",");
    }
    out.append(key);
    out.append(":");
    out.append(value);
    proof {
        reveal_strlit(",");
        reveal_strlit(":");
        assert(final(out)@ =~= old(out)@ + (if first { Seq::<char>::empty() } else { seq![','] }) + pair_text(key@, value@));
    }
}

/// The settings' wire form.
pub fn format_wallpaper_settings_blob(s: &WallpaperSettings) -> (r: String)
    ensures
        r@ == blob_text(s@),
{
    let ghost v = s@;
    let ghost ps = seq![
        pair_text("zoom"@, v.zoom),
        pair_text("pan_x"@, v.pan_x),
        pair_text("pan_y"@, v.pan_y),
        pair_text("fit"@, fit_text(v.fit)),
        pair_text("volume"@, v.volume),
        pair_text("brightness"@, v.brightness),
        pair_text("contrast"@, v.contrast),
        pair_text("hue"@, v.hue),
        pair_text("saturation"@, v.saturation),
    ];
    let ghost c = seq![','];
    let mut out = String::new();
    push_pair(&mut out, true, "zoom", s.zoom.as_str());
    proof {
        assert(ps.take(1) =~= seq![ps[0]]);
        assert(out@ =~= join_with(ps.take(1), c));
    }
    push_pair(&mut out, false, "pan_x", s.pan_x.as_str());
    proof {
        assert(ps.take(2).drop_last() =~= ps.take(1));
        assert(out@ =~= join_with(ps.take(2), c));
    }
    push_pair(&mut out, false, "pan_y", s.pan_y.as_str());
    proof {
        assert(ps.take(3).drop_last() =~= ps.take(2));
        assert(out@ =~= join_with(ps.take(3), c));
    }
    push_pair(&mut out, false, "fit", fit_name(s.fit));
    proof {
        assert(ps.take(4).drop_last() =~= ps.take(3));
        assert(out@ =~= join_with(ps.take(4), c));
    }
    push_pair(&mut out, false, "volume", s.volume.as_str());
    proof {
        assert(ps.take(5).drop_last() =~= ps.take(4));
        assert(out@ =~= join_with(ps.take(5), c));
    }
    push_pair(&mut out, false, "brightness", s.brightness.as_str());
    proof {
        assert(ps.take(6).drop_last() =~= ps.take(5));
        assert(out@ =~= join_with(ps.take(6), c));
    }
    push_pair(&mut out, false, "contrast", s.contrast.as_str());
    proof {
        assert(ps.take(7).drop_last() =~= ps.take(6));
        assert(out@ =~= join_with(ps.take(7), c));
    }
    push_pair(&mut out, false, "hue", s.hue.as_str());
    proof {
        assert(ps.take(8).drop_last() =~= ps.take(7));
        assert(out@ =~= join_with(ps.take(8), c));
    }
    push_pair(&mut out, false, "saturation", s.saturation.as_str());
    proof {
        assert(ps.take(9).drop_last() =~= ps.take(8));
        assert(out@ =~= join_with(ps.take(9), c));
        assert(ps.take(9) =~= ps);
    }
    out
}

impl Command {
    /// The line this command is sent as.
    pub fn to_wire(&self) -> (r: String)
        ensures
            r@ == command_text(self@),
    {
        proof {
            reveal_strlit(" ");
            reveal_strlit(",");
        }
        let mut out = String::new();
        match self {
            Command::MonitorList => {
                out.append("monitor list");
                proof {
                    assert(out@ =~= command_text(self@));
                }
            },
            Command::SetZone { monitors, path } => {
                out.append("set");
                out.append(" ");
                let joined = crate::text::join_strings(monitors.as_slice(), ",");
                proof {
                    assert(","@ =~= seq![',']);
                    assert(joined@ == join_with(texts(monitors@), seq![',']));
                }
                out.append(joined.as_str());
                out.append(" ");
                out.append(path.as_str());
                proof {
                    assert(out@ =~= command_text(self@));
                }
            },
            Command::Unset { monitor } => {
                out.append("unset");
                out.append(" ");
                out.append(monitor.as_str());
                proof {
                    assert(out@ =~= command_text(self@));
                }
            },
            Command::Pause { monitor } => {
                out.append("pause");
                out.append(" ");
                out.append(monitor.as_str());
                proof {
                    assert(out@ =~= command_text(self@));
                }
            },
            Command::Play { monitor } => {
                out.append("play");
                out.append(" ");
                out.append(monitor.as_str());
                proof {
                    assert(out@ =~= command_text(self@));
                }
            },
            Command::Get { monitor } => {
                out.append("get");
                out.append(" ");
                out.append(monitor.as_str());
                proof {
                    assert(out@ =~= command_text(self@));
                }
            },
            Command::SetWallpaperSettings { path, settings } => {
                out.append("wallpaper-settings");
                out.append(" ");
                let blob = format_wallpaper_settings_blob(settings);
                out.append(blob.as_str());
                out.append(" ");
                out.append(path.as_str());
                proof {
                    assert(out@ =~= command_text(self@));
                }
            },
        }
        out
    }
}

impl ParseError {
    /// The message the error reads as.
    pub fn message(&self) -> (r: String)
        ensures
            r@ == match self@ {
                ParseErrorView::Empty => "empty command"@,
                ParseErrorView::UnknownVerb(v) => "unknown command: "@ + v,
                ParseErrorView::MissingArg { verb, arg } => verb + " requires <"@ + arg + ">"@,
                ParseErrorView::EmptyMonitorList => "monitor list is empty"@,
                ParseErrorView::InvalidWallpaperSettings => "invalid wallpaper-settings value"@,
            },
    {
        let mut out = String::new();
        match self {
            ParseError::Empty => out.append("empty command"),
            ParseError::UnknownVerb(v) => {
                out.append("unknown command: ");
                out.append(v.as_str());
            },
            ParseError::MissingArg { verb, arg } => {
                out.append(verb);
                out.append(" requires <");
                out.append(arg);
                out.append(">");
            },
            ParseError::EmptyMonitorList => out.append("monitor list is empty"),
            ParseError::InvalidWallpaperSettings => out.append("invalid wallpaper-settings value"),
        }
        out
    }
}


proof fn reveal_setting_words()
    ensures
        "zoom"@ =~= seq!['z', 'o', 'o', 'm'],
        "pan_x"@ =~= seq!['p', 'a', 'n', '_', 'x'],
        "pan_y"@ =~= seq!['p', 'a', 'n', '_', 'y'],
        "fit"@ =~= seq!['f', 'i', 't'],
        "volume"@ =~= seq!['v', 'o', 'l', 'u', 'm', 'e'],
        "brightness"@ =~= seq!['b', 'r', 'i', 'g', 'h', 't', 'n', 'e', 's', 's'],
        "contrast"@ =~= seq!['c', 'o', 'n', 't', 'r', 'a', 's', 't'],
        "hue"@ =~= seq!['h', 'u', 'e'],
        "saturation"@ =~= seq!['s', 'a', 't', 'u', 'r', 'a', 't', 'i', 'o', 'n'],
        "cover"@ =~= seq!['c', 'o', 'v', 'e', 'r'],
        "contain"@ =~= seq!['c', 'o', 'n', 't', 'a', 'i', 'n'],
        "stretch"@ =~= seq!['s', 't', 'r', 'e', 't', 'c', 'h'],
        !"zoom"@.contains(',') && !"zoom"@.contains(':'),
        !"pan_x"@.contains(',') && !"pan_x"@.contains(':'),
        !"pan_y"@.contains(',') && !"pan_y"@.contains(':'),
        !"fit"@.contains(',') && !"fit"@.contains(':'),
        !"volume"@.contains(',') && !"volume"@.contains(':'),
        !"brightness"@.contains(',') && !"brightness"@.contains(':'),
        !"contrast"@.contains(',') && !"contrast"@.contains(':'),
        !"hue"@.contains(',') && !"hue"@.contains(':'),
        !"saturation"@.contains(',') && !"saturation"@.contains(':'),
        !"cover"@.contains(',') && !"cover"@.contains(':') && !"cover"@.contains(' '),
        !"contain"@.contains(',') && !"contain"@.contains(':') && !"contain"@.contains(' '),
        !"stretch"@.contains(',') && !"stretch"@.contains(':') && !"stretch"@.contains(' '),
{
    reveal_strlit("zoom");
    reveal_strlit("pan_x");
    reveal_strlit("pan_y");
    reveal_strlit("fit");
    reveal_strlit("volume");
    reveal_strlit("brightness");
    reveal_strlit("contrast");
    reveal_strlit("hue");
    reveal_strlit("saturation");
    reveal_strlit("cover");
    reveal_strlit("contain");
    reveal_strlit("stretch");
    lemma_word("zoom"@);
    lemma_word("pan_x"@);
    lemma_word("pan_y"@);
    lemma_word("fit"@);
    lemma_word("volume"@);
    lemma_word("brightness"@);
    lemma_word("contrast"@);
    lemma_word("hue"@);
    lemma_word("saturation"@);
    lemma_word("cover"@);
    lemma_word("contain"@);
    lemma_word("stretch"@);
}

proof fn lemma_pair_split(t: SettingsView, k: Seq<char>, v: Seq<char>)
    requires
        !k.contains(':'),
    ensures
        split_once(pair_text(k, v), ':') == (k, Some(v)),
{
    lemma_split_once_concat(k, ':', v);
}

/// Settings written to the wire and read back are the same settings.
pub proof fn law_settings_round_trip(s: SettingsView)
    requires
        settings_valid(s),
    ensures
        parse_blob_spec(blob_text(s)) == Some(s),
{
    reveal_setting_words();
    lemma_float_text_plain(s.zoom);
    lemma_float_text_plain(s.pan_x);
    lemma_float_text_plain(s.pan_y);
    lemma_float_text_plain(s.volume);
    lemma_float_text_plain(s.brightness);
    lemma_float_text_plain(s.contrast);
    lemma_float_text_plain(s.hue);
    lemma_float_text_plain(s.saturation);
    let keys = seq!["zoom"@, "pan_x"@, "pan_y"@, "fit"@, "volume"@, "brightness"@, "contrast"@, "hue"@, "saturation"@];
    let vals = seq![s.zoom, s.pan_x, s.pan_y, fit_text(s.fit), s.volume, s.brightness, s.contrast, s.hue, s.saturation];
    let ps = seq![
        pair_text("zoom"@, s.zoom),
        pair_text("pan_x"@, s.pan_x),
        pair_text("pan_y"@, s.pan_y),
        pair_text("fit"@, fit_text(s.fit)),
        pair_text("volume"@, s.volume),
        pair_text("brightness"@, s.brightness),
        pair_text("contrast"@, s.contrast),
        pair_text("hue"@, s.hue),
        pair_text("saturation"@, s.saturation),
    ];
    assert(!fit_text(s.fit).contains(',') && !fit_text(s.fit).contains(':') && !fit_text(s.fit).contains(' ')) by {
        match s.fit {
            FitMode::Cover => {},
            FitMode::Contain => {},
            FitMode::Stretch => {},
        }
    }
    assert forall|i: int| 0 <= i < 9 implies ps[i] == pair_text(#[trigger] keys[i], vals[i]) && !keys[i].contains(',')
        && !keys[i].contains(':') && !vals[i].contains(',') by {
        if i == 0 {} else if i == 1 {} else if i == 2 {} else if i == 3 {} else if i == 4 {}
        else if i == 5 {} else if i == 6 {} else if i == 7 {} else {}
    }
    assert forall|i: int| 0 <= i < ps.len() implies !(#[trigger] ps[i]).contains(',') by {
        let p = ps[i];
        assert(p == keys[i] + seq![':'] + vals[i]);
        if p.contains(',') {
            let j = choose|j: int| 0 <= j < p.len() && p[j] == ',';
            if j < keys[i].len() {
                assert(keys[i][j] == ',');
            } else if j > keys[i].len() {
                assert(vals[i][j - keys[i].len() - 1] == ',');
            }
        }
    }
    lemma_split_join(ps, ',');
    assert(split_on(blob_text(s), ',') == ps);
    lemma_pair_split(s, "zoom"@, s.zoom);
    lemma_pair_split(s, "pan_x"@, s.pan_x);
    lemma_pair_split(s, "pan_y"@, s.pan_y);
    lemma_pair_split(s, "fit"@, fit_text(s.fit));
    lemma_pair_split(s, "volume"@, s.volume);
    lemma_pair_split(s, "brightness"@, s.brightness);
    lemma_pair_split(s, "contrast"@, s.contrast);
    lemma_pair_split(s, "hue"@, s.hue);
    lemma_pair_split(s, "saturation"@, s.saturation);
    let d = default_settings();
    let s1 = SettingsView { zoom: s.zoom, ..d };
    let s2 = SettingsView { pan_x: s.pan_x, ..s1 };
    let s3 = SettingsView { pan_y: s.pan_y, ..s2 };
    let s4 = SettingsView { fit: s.fit, ..s3 };
    let s5 = SettingsView { volume: s.volume, ..s4 };
    let s6 = SettingsView { brightness: s.brightness, ..s5 };
    let s7 = SettingsView { contrast: s.contrast, ..s6 };
    let s8 = SettingsView { hue: s.hue, ..s7 };
    let s9 = SettingsView { saturation: s.saturation, ..s8 };
    assert(apply_setting(d, ps[0]) == Some(s1));
    assert(apply_setting(s1, ps[1]) == Some(s2));
    assert(apply_setting(s2, ps[2]) == Some(s3));
    assert(apply_setting(s3, ps[3]) == Some(s4)) by {
        match s.fit {
            FitMode::Cover => {},
            FitMode::Contain => {},
            FitMode::Stretch => {},
        }
    }
    assert(apply_setting(s4, ps[4]) == Some(s5));
    assert(apply_setting(s5, ps[5]) == Some(s6));
    assert(apply_setting(s6, ps[6]) == Some(s7));
    assert(apply_setting(s7, ps[7]) == Some(s8));
    assert(apply_setting(s8, ps[8]) == Some(s9));
    assert(ps.take(1).drop_last() =~= ps.take(0));
    assert(ps.take(2).drop_last() =~= ps.take(1));
    assert(ps.take(3).drop_last() =~= ps.take(2));
    assert(ps.take(4).drop_last() =~= ps.take(3));
    assert(ps.take(5).drop_last() =~= ps.take(4));
    assert(ps.take(6).drop_last() =~= ps.take(5));
    assert(ps.take(7).drop_last() =~= ps.take(6));
    assert(ps.take(8).drop_last() =~= ps.take(7));
    assert(ps.take(9).drop_last() =~= ps.take(8));
    assert(apply_settings(d, ps.take(0)) == Some(d));
    assert(apply_settings(d, ps.take(1)) == Some(s1));
    assert(apply_settings(d, ps.take(2)) == Some(s2));
    assert(apply_settings(d, ps.take(3)) == Some(s3));
    assert(apply_settings(d, ps.take(4)) == Some(s4));
    assert(apply_settings(d, ps.take(5)) == Some(s5));
    assert(apply_settings(d, ps.take(6)) == Some(s6));
    assert(apply_settings(d, ps.take(7)) == Some(s7));
    assert(apply_settings(d, ps.take(8)) == Some(s8));
    assert(apply_settings(d, ps.take(9)) == Some(s9));
    assert(ps.take(9) =~= ps);
    assert(s9 == s);
}


proof fn reveal_verbs()
    ensures
        "monitor"@ =~= seq!['m', 'o', 'n', 'i', 't', 'o', 'r'],
        "list"@ =~= seq!['l', 'i', 's', 't'],
        "set"@ =~= seq!['s', 'e', 't'],
        "unset"@ =~= seq!['u', 'n', 's', 'e', 't'],
        "pause"@ =~= seq!['p', 'a', 'u', 's', 'e'],
        "play"@ =~= seq!['p', 'l', 'a', 'y'],
        "get"@ =~= seq!['g', 'e', 't'],
        "wallpaper-settings"@ =~= seq!['w', 'a', 'l', 'l', 'p', 'a', 'p', 'e', 'r', '-', 's', 'e', 't', 't', 'i', 'n', 'g', 's'],
        "monitor list"@ =~= "monitor"@ + seq![' '] + "list"@,
        !"monitor"@.contains(' '),
        !"set"@.contains(' '),
        !"unset"@.contains(' '),
        !"pause"@.contains(' '),
        !"play"@.contains(' '),
        !"get"@.contains(' '),
        !"wallpaper-settings"@.contains(' '),
{
    reveal_strlit("monitor");
    reveal_strlit("list");
    reveal_strlit("set");
    reveal_strlit("unset");
    reveal_strlit("pause");
    reveal_strlit("play");
    reveal_strlit("get");
    reveal_strlit("wallpaper-settings");
    reveal_strlit("monitor list");
    lemma_word("monitor"@);
    lemma_word("set"@);
    lemma_word("unset"@);
    lemma_word("pause"@);
    lemma_word("play"@);
    lemma_word("get"@);
    lemma_word("wallpaper-settings"@);
}

/// A monitor name that survives a comma-separated list on the wire.
pub open spec fn monitor_token(m: Seq<char>) -> bool {
    m.len() > 0 && is_trimmed(m) && !m.contains(' ') && !m.contains(',')
}

/// A name or path that survives being the trimmed tail of a line.
pub open spec fn tail_token(s: Seq<char>) -> bool {
    s.len() > 0 && is_trimmed(s)
}

/// The commands that read back as themselves: names and paths non-empty
/// with no whitespace at either end, zone members free of spaces and
/// commas, numeric settings that `f64` accepts.
pub open spec fn command_wire_ok(c: CommandView) -> bool {
    match c {
        CommandView::MonitorList => true,
        CommandView::SetZone { monitors, path } => monitors.len() > 0 && (forall|i: int|
            0 <= i < monitors.len() ==> monitor_token(#[trigger] monitors[i])) && tail_token(path),
        CommandView::Unset { monitor } => tail_token(monitor),
        CommandView::Pause { monitor } => tail_token(monitor),
        CommandView::Play { monitor } => tail_token(monitor),
        CommandView::Get { monitor } => tail_token(monitor),
        CommandView::SetWallpaperSettings { path, settings } => settings_valid(settings) && tail_token(path),
    }
}

proof fn lemma_head(verb: Seq<char>, rest: Seq<char>)
    requires
        !verb.contains(' '),
    ensures
        head_and_rest(verb + seq![' '] + rest) == (verb, trim(rest)),
{
    lemma_split_once_concat(verb, ' ', rest);
}

proof fn lemma_csv_names_identity(ms: Seq<Seq<char>>)
    requires
        forall|i: int| 0 <= i < ms.len() ==> monitor_token(#[trigger] ms[i]),
    ensures
        csv_names(ms) == ms,
    decreases ms.len(),
{
    if ms.len() > 0 {
        let p = ms.drop_last();
        assert forall|i: int| 0 <= i < p.len() implies monitor_token(#[trigger] p[i]) by {
            assert(p[i] == ms[i]);
        }
        lemma_csv_names_identity(p);
        assert(monitor_token(ms[ms.len() - 1]));
        lemma_trim_trimmed(ms.last());
        assert(ms =~= p.push(ms.last()));
    }
}

proof fn lemma_line_trimmed(verb: Seq<char>, body: Seq<char>)
    requires
        verb.len() > 0,
        !is_ws(verb[0]),
        body.len() > 0,
        !is_ws(body.last()),
    ensures
        trim(verb + seq![' '] + body) == verb + seq![' '] + body,
{
    let l = verb + seq![' '] + body;
    assert(l[0] == verb[0]);
    assert(l.last() == body.last());
    lemma_trim_trimmed(l);
}

/// A well-formed command sent and read back is the same command.
pub proof fn law_command_round_trip(c: CommandView)
    requires
        command_wire_ok(c),
    ensures
        parse_command_spec(command_text(c)) == Ok::<CommandView, ParseErrorView>(c),
{
    reveal_verbs();
    match c {
        CommandView::MonitorList => {
            lemma_head("monitor"@, "list"@);
            lemma_word("list"@);
            lemma_trim_trimmed("list"@);
            lemma_trim_trimmed("monitor list"@);
        },
        CommandView::SetZone { monitors, path } => {
            let j = join_with(monitors, seq![',']);
            assert forall|i: int| 0 <= i < monitors.len() implies !(#[trigger] monitors[i]).contains(',') by {
                assert(monitor_token(monitors[i]));
            }
            assert forall|i: int| 0 <= i < monitors.len() implies !(#[trigger] monitors[i]).contains(' ') by {
                assert(monitor_token(monitors[i]));
            }
            assert(monitor_token(monitors[0]));
            assert(monitor_token(monitors[monitors.len() - 1]));
            lemma_join_ends(monitors, ',');
            lemma_join_lacks(monitors, ',', ' ');
            lemma_split_join(monitors, ',');
            lemma_csv_names_identity(monitors);
            let rest = j + seq![' '] + path;
            assert(command_text(c) =~= "set"@ + seq![' '] + rest);
            lemma_line_trimmed("set"@, rest);
            lemma_head("set"@, rest);
            assert(rest[0] == j[0]);
            assert(rest.last() == path.last());
            lemma_trim_trimmed(rest);
            lemma_head(j, path);
            lemma_trim_trimmed(path);
        },
        CommandView::Unset { monitor } => {
            lemma_line_trimmed("unset"@, monitor);
            lemma_head("unset"@, monitor);
            lemma_trim_trimmed(monitor);
        },
        CommandView::Pause { monitor } => {
            lemma_line_trimmed("pause"@, monitor);
            lemma_head("pause"@, monitor);
            lemma_trim_trimmed(monitor);
        },
        CommandView::Play { monitor } => {
            lemma_line_trimmed("play"@, monitor);
            lemma_head("play"@, monitor);
            lemma_trim_trimmed(monitor);
        },
        CommandView::Get { monitor } => {
            lemma_line_trimmed("get"@, monitor);
            lemma_head("get"@, monitor);
            lemma_trim_trimmed(monitor);
        },
        CommandView::SetWallpaperSettings { path, settings } => {
            let b = blob_text(settings);
            law_settings_round_trip(settings);
            lemma_blob_plain(settings);
            let rest = b + seq![' '] + path;
            assert(command_text(c) =~= "wallpaper-settings"@ + seq![' '] + rest);
            lemma_line_trimmed("wallpaper-settings"@, rest);
            lemma_head("wallpaper-settings"@, rest);
            assert(rest[0] == b[0]);
            assert(rest.last() == path.last());
            lemma_trim_trimmed(rest);
            lemma_head(b, path);
            lemma_trim_trimmed(path);
        },
    }
}

/// The settings blob holds no space and starts with a keyword letter.
proof fn lemma_blob_plain(s: SettingsView)
    requires
        settings_valid(s),
    ensures
        !blob_text(s).contains(' '),
        blob_text(s).len() > 0,
        !is_ws(blob_text(s)[0]),
{
    reveal_setting_words();
    lemma_float_text_plain(s.zoom);
    lemma_float_text_plain(s.pan_x);
    lemma_float_text_plain(s.pan_y);
    lemma_float_text_plain(s.volume);
    lemma_float_text_plain(s.brightness);
    lemma_float_text_plain(s.contrast);
    lemma_float_text_plain(s.hue);
    lemma_float_text_plain(s.saturation);
    lemma_word("zoom"@);
    lemma_word("pan_x"@);
    lemma_word("pan_y"@);
    lemma_word("fit"@);
    lemma_word("volume"@);
    lemma_word("brightness"@);
    lemma_word("contrast"@);
    lemma_word("hue"@);
    lemma_word("saturation"@);
    let keys = seq!["zoom"@, "pan_x"@, "pan_y"@, "fit"@, "volume"@, "brightness"@, "contrast"@, "hue"@, "saturation"@];
    let vals = seq![s.zoom, s.pan_x, s.pan_y, fit_text(s.fit), s.volume, s.brightness, s.contrast, s.hue, s.saturation];
    let ps = seq![
        pair_text("zoom"@, s.zoom),
        pair_text("pan_x"@, s.pan_x),
        pair_text("pan_y"@, s.pan_y),
        pair_text("fit"@, fit_text(s.fit)),
        pair_text("volume"@, s.volume),
        pair_text("brightness"@, s.brightness),
        pair_text("contrast"@, s.contrast),
        pair_text("hue"@, s.hue),
        pair_text("saturation"@, s.saturation),
    ];
    assert(!fit_text(s.fit).contains(' ')) by {
        match s.fit {
            FitMode::Cover => {},
            FitMode::Contain => {},
            FitMode::Stretch => {},
        }
    }
    assert forall|i: int| 0 <= i < 9 implies ps[i] == pair_text(#[trigger] keys[i], vals[i]) && !keys[i].contains(' ')
        && !vals[i].contains(' ') by {
        if i == 0 {} else if i == 1 {} else if i == 2 {} else if i == 3 {} else if i == 4 {}
        else if i == 5 {} else if i == 6 {} else if i == 7 {} else {}
    }
    assert forall|i: int| 0 <= i < ps.len() implies !(#[trigger] ps[i]).contains(' ') by {
        let p = ps[i];
        assert(p == keys[i] + seq![':'] + vals[i]);
        if p.contains(' ') {
            let j = choose|j: int| 0 <= j < p.len() && p[j] == ' ';
            if j < keys[i].len() {
                assert(keys[i][j] == ' ');
            } else if j > keys[i].len() {
                assert(vals[i][j - keys[i].len() - 1] == ' ');
            }
        }
    }
    lemma_join_lacks(ps, ',', ' ');
    crate::text::lemma_join_ends_first(ps, ',');
    assert(ps[0][0] == 'z');
}

/// A command line reads the same with its surrounding whitespace cut off,
/// and it is an empty command exactly when only whitespace is left.
pub proof fn law_parse_ignores_surrounding_whitespace(line: Seq<char>)
    ensures
        parse_command_spec(trim(line)) == parse_command_spec(line),
        parse_command_spec(line) == Err::<CommandView, ParseErrorView>(ParseErrorView::Empty) <==> trim(line).len() == 0,
{
    lemma_trim_idempotent(line);
}

} // verus!
