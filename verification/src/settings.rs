//! Per-picture display settings and their compact `key:value,...` wire
//! form, the fit modes, and saved zone entries.
use vstd::prelude::*;
use vstd::string::*;
use crate::text::{all_digits, eq_lit, find_char, find_in, lemma_find_char, split_on, split_once, sub_string, to_chars, is_digit};

verus! {

broadcast use vstd::string::group_string_axioms;

/// How a picture is fitted into its zone.
#[derive(Clone, Copy, Debug, PartialEq, Eq, Structural)]
pub enum FitMode {
    Cover,
    Contain,
    Stretch,
}

impl Default for FitMode {
    fn default() -> (r: FitMode)
        ensures
            r == FitMode::Cover,
    {
        FitMode::Cover
    }
}

/// One saved zone: its monitors and the path it plays.
#[derive(Debug, PartialEq, Eq)]
pub struct ZoneConfig {
    pub monitors: Vec<String>,
    pub path: String,
}

/// A saved zone as plain values.
pub struct ZoneConfigView {
    pub monitors: Seq<Seq<char>>,
    pub path: Seq<char>,
}

impl View for ZoneConfig {
    type V = ZoneConfigView;

    open spec fn view(&self) -> ZoneConfigView {
        ZoneConfigView { monitors: crate::order::texts(self.monitors@), path: self.path@ }
    }
}

pub open spec fn zone_config_views(v: Seq<ZoneConfig>) -> Seq<ZoneConfigView> {
    v.map_values(|c: ZoneConfig| c@)
}

/// The name a fit mode goes by on the wire and in the config file.
pub open spec fn fit_text(f: FitMode) -> Seq<char> {
    match f {
        FitMode::Cover => "cover"@,
        FitMode::Contain => "contain"@,
        FitMode::Stretch => "stretch"@,
    }
}

pub fn fit_name(f: FitMode) -> (r: &'static str)
    ensures
        r@ == fit_text(f),
{
    match f {
        FitMode::Cover => "cover",
        FitMode::Contain => "contain",
        FitMode::Stretch => "stretch",
    }
}

pub open spec fn is_sign(c: char) -> bool {
    c == '+' || c == '-'
}

/// Upper-case letters of `inf`, `infinity` and `nan` folded to lower case.
pub open spec fn fold_case(c: char) -> char {
    if c == 'I' {
        'i'
    } else if c == 'N' {
        'n'
    } else if c == 'F' {
        'f'
    } else if c == 'T' {
        't'
    } else if c == 'Y' {
        'y'
    } else if c == 'A' {
        'a'
    } else {
        c
    }
}

pub open spec fn folded(s: Seq<char>) -> Seq<char> {
    s.map_values(|c: char| fold_case(c))
}

/// `inf`, `infinity` or `nan`, in any case.
pub open spec fn is_special_float(b: Seq<char>) -> bool {
    ||| folded(b) == seq!['i', 'n', 'f']
    ||| folded(b) == seq!['i', 'n', 'f', 'i', 'n', 'i', 't', 'y']
    ||| folded(b) == seq!['n', 'a', 'n']
}

/// Index of the first `e` or `E` (`s.len()` if none).
pub open spec fn find_exp(s: Seq<char>) -> int
    decreases s.len(),
{
    if s.len() == 0 {
        0
    } else if s[0] == 'e' || s[0] == 'E' {
        0
    } else {
        1 + find_exp(s.drop_first())
    }
}

/// `Digit+ | Digit+ '.' Digit* | Digit* '.' Digit+`
pub open spec fn is_mantissa(m: Seq<char>) -> bool {
    let d = find_char(m, '.');
    if d >= m.len() {
        m.len() > 0 && all_digits(m)
    } else {
        all_digits(m.take(d)) && all_digits(m.skip(d + 1)) && m.len() > 1
    }
}

/// `Sign? Digit+`
pub open spec fn is_exponent(e: Seq<char>) -> bool {
    let body = if e.len() > 0 && is_sign(e[0]) {
        e.drop_first()
    } else {
        e
    };
    body.len() > 0 && all_digits(body)
}

/// `Mantissa ('e' Exponent)?`, `e` in either case.
pub open spec fn is_number(b: Seq<char>) -> bool {
    let k = find_exp(b);
    is_mantissa(b.take(k)) && (k >= b.len() || is_exponent(b.skip(k + 1)))
}

/// The texts `f64`'s `FromStr` accepts:
/// `Sign? ('inf' | 'infinity' | 'nan' | Number)`.
pub open spec fn is_float_text(s: Seq<char>) -> bool {
    let b = if s.len() > 0 && is_sign(s[0]) {
        s.drop_first()
    } else {
        s
    };
    is_special_float(b) || is_number(b)
}

proof fn lemma_find_exp(s: Seq<char>)
    ensures
        0 <= find_exp(s) <= s.len(),
        forall|j: int| 0 <= j < find_exp(s) ==> s[j] != 'e' && s[j] != 'E',
        find_exp(s) < s.len() ==> (s[find_exp(s)] == 'e' || s[find_exp(s)] == 'E'),
    decreases s.len(),
{
    if s.len() > 0 && !(s[0] == 'e' || s[0] == 'E') {
        lemma_find_exp(s.drop_first());
        assert forall|j: int| 0 <= j < find_exp(s) implies s[j] != 'e' && s[j] != 'E' by {
            if j > 0 {
                assert(s[j] == s.drop_first()[j - 1]);
            }
        }
    }
}

proof fn lemma_find_exp_unique(s: Seq<char>, k: int)
    requires
        0 <= k <= s.len(),
        forall|j: int| 0 <= j < k ==> s[j] != 'e' && s[j] != 'E',
        k < s.len() ==> (s[k] == 'e' || s[k] == 'E'),
    ensures
        find_exp(s) == k,
{
    lemma_find_exp(s);
    let f = find_exp(s);
    if f < k {
        assert(s[f] != 'e' && s[f] != 'E');
    } else if k < f {
        assert(s[k] != 'e' && s[k] != 'E');
    }
}

/// Every character of `v[lo..hi]` is a decimal digit.
fn digits_only(v: &[char], lo: usize, hi: usize) -> (r: bool)
    requires
        lo <= hi <= v@.len(),
    ensures
        r == all_digits(v@.subrange(lo as int, hi as int)),
{
    let mut i = lo;
    while i < hi
        invariant
            lo <= i <= hi <= v@.len(),
            forall|j: int| lo <= j < i ==> '0' <= #[trigger] v@[j] <= '9',
        decreases hi - i,
    {
        if !('0' <= v[i] && v[i] <= '9') {
            proof {
                assert(v@.subrange(lo as int, hi as int)[i - lo] == v@[i as int]);
            }
            return false;
        }
        i = i + 1;
    }
    proof {
        assert forall|j: int| 0 <= j < hi - lo implies '0' <= #[trigger] v@.subrange(lo as int, hi as int)[j] <= '9' by {
            assert(v@.subrange(lo as int, hi as int)[j] == v@[lo + j]);
        }
    }
    true
}

fn fold_case_exec(c: char) -> (r: char)
    ensures
        r == fold_case(c),
{
    if c == 'I' {
        'i'
    } else if c == 'N' {
        'n'
    } else if c == 'F' {
        'f'
    } else if c == 'T' {
        't'
    } else if c == 'Y' {
        'y'
    } else if c == 'A' {
        'a'
    } else {
        c
    }
}

/// `v[lo..hi]`, case folded, spells `word`.
fn folded_is(v: &[char], lo: usize, hi: usize, word: &[char]) -> (r: bool)
    requires
        lo <= hi <= v@.len(),
    ensures
        r == (folded(v@.subrange(lo as int, hi as int)) == word@),
{
    let ghost f = folded(v@.subrange(lo as int, hi as int));
    if hi - lo != word.len() {
        proof {
            assert(f.len() == hi - lo);
        }
        return false;
    }
    let mut i: usize = 0;
    while i < word.len()
        invariant
            i <= word@.len(),
            hi - lo == word@.len(),
            lo <= hi <= v@.len(),
            f == folded(v@.subrange(lo as int, hi as int)),
            forall|j: int| 0 <= j < i ==> f[j] == word@[j],
        decreases word@.len() - i,
    {
        if fold_case_exec(v[lo + i]) != word[i] {
            proof {
                assert(f[i as int] == fold_case(v@[lo + i]));
            }
            return false;
        }
        proof {
            assert(f[i as int] == fold_case(v@[lo + i]));
        }
        i = i + 1;
    }
    proof {
        assert(f =~= word@);
    }
    true
}

/// Whether `v[lo..hi]` is `Sign? Digit+`.
fn exponent_ok(v: &[char], lo: usize, hi: usize) -> (r: bool)
    requires
        lo <= hi <= v@.len(),
    ensures
        r == is_exponent(v@.subrange(lo as int, hi as int)),
{
    let ghost e = v@.subrange(lo as int, hi as int);
    if lo < hi && (v[lo] == '+' || v[lo] == '-') {
        proof {
            assert(e.drop_first() =~= v@.subrange(lo + 1int, hi as int));
        }
        hi - lo > 1 && digits_only(v, lo + 1, hi)
    } else {
        hi > lo && digits_only(v, lo, hi)
    }
}

/// Whether `v[lo..hi]` is a mantissa.
fn mantissa_ok(v: &[char], lo: usize, hi: usize) -> (r: bool)
    requires
        lo <= hi <= v@.len(),
    ensures
        r == is_mantissa(v@.subrange(lo as int, hi as int)),
{
    let ghost m = v@.subrange(lo as int, hi as int);
    let d = find_in(v, lo, hi, '.');
    proof {
        lemma_find_char(m, '.');
    }
    if d == hi {
        hi > lo && digits_only(v, lo, hi)
    } else {
        proof {
            assert(m.take(d - lo) =~= v@.subrange(lo as int, d as int));
            assert(m.skip(d - lo + 1) =~= v@.subrange(d + 1int, hi as int));
        }
        digits_only(v, lo, d) && digits_only(v, d + 1, hi) && hi - lo > 1
    }
}

/// Whether `v[lo..hi]` is a text `f64`'s `FromStr` accepts.
pub fn float_text_ok(v: &[char], lo: usize, hi: usize) -> (r: bool)
    requires
        lo <= hi <= v@.len(),
    ensures
        r == is_float_text(v@.subrange(lo as int, hi as int)),
{
    let ghost s = v@.subrange(lo as int, hi as int);
    let b0 = if lo < hi && (v[lo] == '+' || v[lo] == '-') {
        lo + 1
    } else {
        lo
    };
    let ghost b = v@.subrange(b0 as int, hi as int);
    proof {
        if lo < hi && is_sign(s[0]) {
            assert(s.drop_first() =~= b);
        } else {
            assert(s =~= b);
        }
    }
    let inf: [char; 3] = ['i', 'n', 'f'];
    let infinity: [char; 8] = ['i', 'n', 'f', 'i', 'n', 'i', 't', 'y'];
    let nan: [char; 3] = ['n', 'a', 'n'];
    proof {
        assert(inf@ =~= seq!['i', 'n', 'f']);
        assert(infinity@ =~= seq!['i', 'n', 'f', 'i', 'n', 'i', 't', 'y']);
        assert(nan@ =~= seq!['n', 'a', 'n']);
    }
    if folded_is(v, b0, hi, &inf) || folded_is(v, b0, hi, &infinity) || folded_is(v, b0, hi, &nan) {
        return true;
    }
    let mut k = b0;
    while k < hi && v[k] != 'e' && v[k] != 'E'
        invariant
            b0 <= k <= hi <= v@.len(),
            forall|j: int| b0 <= j < k ==> v@[j] != 'e' && v@[j] != 'E',
        decreases hi - k,
    {
        k = k + 1;
    }
    proof {
        assert forall|j: int| 0 <= j < k - b0 implies b[j] != 'e' && b[j] != 'E' by {
            assert(b[j] == v@[b0 + j]);
        }
        lemma_find_exp_unique(b, k - b0);
        assert(b.take(k - b0) =~= v@.subrange(b0 as int, k as int));
        if k < hi {
            assert(b.skip(k - b0 + 1) =~= v@.subrange(k + 1int, hi as int));
        }
    }
    if !mantissa_ok(v, b0, k) {
        return false;
    }
    if k == hi {
        true
    } else {
        exponent_ok(v, k + 1, hi)
    }
}

/// Per-picture display tuning. The numeric fields hold their decimal text
/// exactly as written (each a literal `f64`'s `FromStr` accepts); `zoom` is
/// a linear factor, `volume` 0 to 100, the colour controls -100 to 100.
#[derive(Debug, PartialEq, Eq)]
pub struct WallpaperSettings {
    pub zoom: String,
    pub pan_x: String,
    pub pan_y: String,
    pub fit: FitMode,
    pub volume: String,
    pub brightness: String,
    pub contrast: String,
    pub hue: String,
    pub saturation: String,
}

/// The settings as plain values.
pub struct SettingsView {
    pub zoom: Seq<char>,
    pub pan_x: Seq<char>,
    pub pan_y: Seq<char>,
    pub fit: FitMode,
    pub volume: Seq<char>,
    pub brightness: Seq<char>,
    pub contrast: Seq<char>,
    pub hue: Seq<char>,
    pub saturation: Seq<char>,
}

impl View for WallpaperSettings {
    type V = SettingsView;

    open spec fn view(&self) -> SettingsView {
        SettingsView {
            zoom: self.zoom@,
            pan_x: self.pan_x@,
            pan_y: self.pan_y@,
            fit: self.fit,
            volume: self.volume@,
            brightness: self.brightness@,
            contrast: self.contrast@,
            hue: self.hue@,
            saturation: self.saturation@,
        }
    }
}

/// The neutral settings: zoom 1, everything else 0, fit `Cover`.
pub open spec fn default_settings() -> SettingsView {
    SettingsView {
        zoom: "1"@,
        pan_x: "0"@,
        pan_y: "0"@,
        fit: FitMode::Cover,
        volume: "0"@,
        brightness: "0"@,
        contrast: "0"@,
        hue: "0"@,
        saturation: "0"@,
    }
}

impl Default for WallpaperSettings {
    fn default() -> (r: WallpaperSettings)
        ensures
            r@ == default_settings(),
    {
        WallpaperSettings {
            zoom: "1".to_owned(),
            pan_x: "0".to_owned(),
            pan_y: "0".to_owned(),
            fit: FitMode::Cover,
            volume: "0".to_owned(),
            brightness: "0".to_owned(),
            contrast: "0".to_owned(),
            hue: "0".to_owned(),
            saturation: "0".to_owned(),
        }
    }
}

impl WallpaperSettings {
    /// An identical copy.
    pub fn duplicate(&self) -> (r: WallpaperSettings)
        ensures
            r@ == self@,
    {
        WallpaperSettings {
            zoom: self.zoom.clone(),
            pan_x: self.pan_x.clone(),
            pan_y: self.pan_y.clone(),
            fit: self.fit,
            volume: self.volume.clone(),
            brightness: self.brightness.clone(),
            contrast: self.contrast.clone(),
            hue: self.hue.clone(),
            saturation: self.saturation.clone(),
        }
    }
}

impl Clone for WallpaperSettings {
    fn clone(&self) -> (r: WallpaperSettings)
        ensures
            r@ == self@,
    {
        self.duplicate()
    }
}

/// One `key:value` pair applied to `s`; `None` for a pair with no `:`, an
/// unknown key, a number `f64` does not accept, or an unknown fit.
pub open spec fn apply_setting(s: SettingsView, pair: Seq<char>) -> Option<SettingsView> {
    let key = split_once(pair, ':').0;
    match split_once(pair, ':').1 {
        None => None,
        Some(v) => if key == "fit"@ {
            if v == "cover"@ {
                Some(SettingsView { fit: FitMode::Cover, ..s })
            } else if v == "contain"@ {
                Some(SettingsView { fit: FitMode::Contain, ..s })
            } else if v == "stretch"@ {
                Some(SettingsView { fit: FitMode::Stretch, ..s })
            } else {
                None
            }
        } else if !is_float_text(v) {
            None
        } else if key == "zoom"@ {
            Some(SettingsView { zoom: v, ..s })
        } else if key == "pan_x"@ {
            Some(SettingsView { pan_x: v, ..s })
        } else if key == "pan_y"@ {
            Some(SettingsView { pan_y: v, ..s })
        } else if key == "volume"@ {
            Some(SettingsView { volume: v, ..s })
        } else if key == "brightness"@ {
            Some(SettingsView { brightness: v, ..s })
        } else if key == "contrast"@ {
            Some(SettingsView { contrast: v, ..s })
        } else if key == "hue"@ {
            Some(SettingsView { hue: v, ..s })
        } else if key == "saturation"@ {
            Some(SettingsView { saturation: v, ..s })
        } else {
            None
        },
    }
}

/// The pairs applied in order, stopping at the first refused one.
pub open spec fn apply_settings(s: SettingsView, pairs: Seq<Seq<char>>) -> Option<SettingsView>
    decreases pairs.len(),
{
    if pairs.len() == 0 {
        Some(s)
    } else {
        match apply_settings(s, pairs.drop_last()) {
            None => None,
            Some(t) => apply_setting(t, pairs.last()),
        }
    }
}

/// What a settings blob denotes: the defaults with each comma-separated
/// `key:value` pair applied in turn.
pub open spec fn parse_blob_spec(blob: Seq<char>) -> Option<SettingsView> {
    apply_settings(default_settings(), split_on(blob, ','))
}

/// Applies the pair `v[lo..hi]` to `s`.
fn apply_pair(s: WallpaperSettings, text: &str, v: &[char], lo: usize, hi: usize) -> (r: Option<WallpaperSettings>)
    requires
        v@ == text@,
        lo <= hi <= v@.len(),
    ensures
        match r {
            Some(t) => apply_setting(s@, v@.subrange(lo as int, hi as int)) == Some(t@),
            None => apply_setting(s@, v@.subrange(lo as int, hi as int)) is None,
        },
{
    let ghost pair = v@.subrange(lo as int, hi as int);
    let k = find_in(v, lo, hi, ':');
    proof {
        lemma_find_char(pair, ':');
    }
    if k == hi {
        return None;
    }
    proof {
        assert(split_once(pair, ':').0 =~= v@.subrange(lo as int, k as int));
        assert(split_once(pair, ':').1 == Some(v@.subrange(k + 1int, hi as int))) by {
            assert(pair.skip(k - lo + 1) =~= v@.subrange(k + 1int, hi as int));
        }
    }
    let mut s = s;
    if eq_lit(v, lo, k, "fit") {
        if eq_lit(v, k + 1, hi, "cover") {
            s.fit = FitMode::Cover;
        } else if eq_lit(v, k + 1, hi, "contain") {
            s.fit = FitMode::Contain;
        } else if eq_lit(v, k + 1, hi, "stretch") {
            s.fit = FitMode::Stretch;
        } else {
            return None;
        }
        return Some(s);
    }
    if !float_text_ok(v, k + 1, hi) {
        return None;
    }
    let val = sub_string(text, k + 1, hi);
    if eq_lit(v, lo, k, "zoom") {
        s.zoom = val;
    } else if eq_lit(v, lo, k, "pan_x") {
        s.pan_x = val;
    } else if eq_lit(v, lo, k, "pan_y") {
        s.pan_y = val;
    } else if eq_lit(v, lo, k, "volume") {
        s.volume = val;
    } else if eq_lit(v, lo, k, "brightness") {
        s.brightness = val;
    } else if eq_lit(v, lo, k, "contrast") {
        s.contrast = val;
    } else if eq_lit(v, lo, k, "hue") {
        s.hue = val;
    } else if eq_lit(v, lo, k, "saturation") {
        s.saturation = val;
    } else {
        return None;
    }
    Some(s)
}

/// Parses a `key:value,key:value,...` settings blob onto the defaults;
/// `None` if any pair is refused.
pub fn parse_wallpaper_settings_blob(blob: &str) -> (r: Option<WallpaperSettings>)
    ensures
        match r {
            Some(s) => parse_blob_spec(blob@) == Some(s@),
            None => parse_blob_spec(blob@) is None,
        },
{
    let v = to_chars(blob);
    proof {
        assert(v@.subrange(0, v@.len() as int) =~= blob@);
    }
    parse_settings_range(blob, v.as_slice(), 0, v.len())
}

/// `parse_wallpaper_settings_blob` on `v[lo..hi]`.
pub fn parse_settings_range(text: &str, v: &[char], lo: usize, hi: usize) -> (r: Option<WallpaperSettings>)
    requires
        v@ == text@,
        lo <= hi <= v@.len(),
    ensures
        match r {
            Some(s) => parse_blob_spec(v@.subrange(lo as int, hi as int)) == Some(s@),
            None => parse_blob_spec(v@.subrange(lo as int, hi as int)) is None,
        },
{
    let ghost blob = v@.subrange(lo as int, hi as int);
    let mut acc = WallpaperSettings::default();
    let ghost mut done: Seq<Seq<char>> = seq![];
    let mut start = lo;
    proof {
        assert(v@.subrange(start as int, hi as int) =~= blob);
    }
    loop
        invariant
            lo <= start <= hi <= v@.len(),
            v@ == text@,
            blob == v@.subrange(lo as int, hi as int),
            split_on(blob, ',') == done + split_on(v@.subrange(start as int, hi as int), ','),
            apply_settings(default_settings(), done) == Some(acc@),
        decreases hi - start,
    {
        let ghost rest = v@.subrange(start as int, hi as int);
        let k = find_in(v, start, hi, ',');
        proof {
            lemma_find_char(rest, ',');
        }
        if k == hi {
            proof {
                assert(split_on(rest, ',') == seq![rest]);
                assert(split_on(blob, ',') =~= done.push(rest));
                assert(done.push(rest).drop_last() =~= done);
            }
            return match apply_pair(acc, text, v, start, hi) {
                Some(t) => Some(t),
                None => None,
            };
        }
        proof {
            assert(rest.take(k - start) =~= v@.subrange(start as int, k as int));
            assert(rest.skip(k - start + 1) =~= v@.subrange(k + 1int, hi as int));
            assert(split_on(rest, ',') == seq![v@.subrange(start as int, k as int)] + split_on(v@.subrange(k + 1int, hi as int), ','));
            assert(done.push(v@.subrange(start as int, k as int)).drop_last() =~= done);
        }
        match apply_pair(acc, text, v, start, k) {
            Some(t) => {
                acc = t;
            },
            None => {
                proof {
                    let piece = v@.subrange(start as int, k as int);
                    lemma_apply_settings_stuck(default_settings(), done.push(piece), split_on(v@.subrange(k + 1int, hi as int), ','));
                    assert(split_on(blob, ',') =~= done.push(piece) + split_on(v@.subrange(k + 1int, hi as int), ','));
                }
                return None;
            },
        }
        proof {
            let piece = v@.subrange(start as int, k as int);
            assert(split_on(blob, ',') =~= done.push(piece) + split_on(v@.subrange(k + 1int, hi as int), ','));
            done = done.push(piece);
        }
        start = k + 1;
    }
}

/// Once a pair is refused, no later pair helps.
proof fn lemma_apply_settings_stuck(s: SettingsView, a: Seq<Seq<char>>, b: Seq<Seq<char>>)
    requires
        apply_settings(s, a) is None,
    ensures
        apply_settings(s, a + b) is None,
    decreases b.len(),
{
    if b.len() == 0 {
        assert(a + b =~= a);
    } else {
        lemma_apply_settings_stuck(s, a, b.drop_last());
        assert((a + b).drop_last() =~= a + b.drop_last());
    }
}


/// A character that can occur in a text `f64` accepts.
pub open spec fn is_float_char(c: char) -> bool {
    ||| is_digit(c)
    ||| is_sign(c)
    ||| c == '.'
    ||| c == 'e'
    ||| c == 'E'
    ||| fold_case(c) == 'i'
    ||| fold_case(c) == 'n'
    ||| fold_case(c) == 'f'
    ||| fold_case(c) == 't'
    ||| fold_case(c) == 'y'
    ||| fold_case(c) == 'a'
}

proof fn lemma_digits_are_float_chars(s: Seq<char>)
    requires
        all_digits(s),
    ensures
        forall|i: int| 0 <= i < s.len() ==> is_float_char(#[trigger] s[i]),
{
    assert forall|i: int| 0 <= i < s.len() implies is_float_char(#[trigger] s[i]) by {
        assert(is_digit(s[i]));
    }
}

/// Every character of a float text is a float character.
pub proof fn lemma_float_chars(t: Seq<char>)
    requires
        is_float_text(t),
    ensures
        forall|i: int| 0 <= i < t.len() ==> is_float_char(#[trigger] t[i]),
{
    let signed = t.len() > 0 && is_sign(t[0]);
    let b = if signed { t.drop_first() } else { t };
    assert forall|i: int| 0 <= i < b.len() implies is_float_char(#[trigger] b[i]) by {
        if is_special_float(b) {
            let f = folded(b);
            assert(f[i] == fold_case(b[i]));
            let l1 = seq!['i', 'n', 'f'];
            let l2 = seq!['i', 'n', 'f', 'i', 'n', 'i', 't', 'y'];
            let l3 = seq!['n', 'a', 'n'];
            assert(f.len() == b.len());
            assert(l1.len() == 3 && l2.len() == 8 && l3.len() == 3);
            if f == l1 {
                assert(i == 0 || i == 1 || i == 2);
                if i == 0 { assert(f[i] == 'i'); } else if i == 1 { assert(f[i] == 'n'); } else { assert(f[i] == 'f'); }
            } else if f == l2 {
                assert(0 <= i < 8);
                if i == 0 { assert(f[i] == 'i'); } else if i == 1 { assert(f[i] == 'n'); } else if i == 2 { assert(f[i] == 'f'); }
                else if i == 3 { assert(f[i] == 'i'); } else if i == 4 { assert(f[i] == 'n'); } else if i == 5 { assert(f[i] == 'i'); }
                else if i == 6 { assert(f[i] == 't'); } else { assert(f[i] == 'y'); }
            } else {
                assert(f == l3);
                if i == 0 { assert(f[i] == 'n'); } else if i == 1 { assert(f[i] == 'a'); } else { assert(f[i] == 'n'); }
            }
        } else {
            let k = find_exp(b);
            lemma_find_exp(b);
            let m = b.take(k);
            if i < k {
                assert(b[i] == m[i]);
                let d = find_char(m, '.');
                lemma_find_char(m, '.');
                if d < m.len() {
                    if i < d {
                        assert(m.take(d)[i] == m[i]);
                        lemma_digits_are_float_chars(m.take(d));
                    } else if i > d {
                        assert(m.skip(d + 1)[i - d - 1] == m[i]);
                        lemma_digits_are_float_chars(m.skip(d + 1));
                    }
                } else {
                    lemma_digits_are_float_chars(m);
                }
            } else if i > k {
                let e = b.skip(k + 1);
                assert(e[i - k - 1] == b[i]);
                if e.len() > 0 && is_sign(e[0]) {
                    if i - k - 1 > 0 {
                        assert(e.drop_first()[i - k - 2] == e[i - k - 1]);
                        lemma_digits_are_float_chars(e.drop_first());
                    }
                } else {
                    lemma_digits_are_float_chars(e);
                }
            }
        }
    }
    assert forall|i: int| 0 <= i < t.len() implies is_float_char(#[trigger] t[i]) by {
        if signed {
            if i > 0 {
                assert(b[i - 1] == t[i]);
            }
        } else {
            assert(b[i] == t[i]);
        }
    }
}

/// A float text holds no space, comma or colon.
pub proof fn lemma_float_text_plain(t: Seq<char>)
    requires
        is_float_text(t),
    ensures
        !t.contains(' '),
        !t.contains(','),
        !t.contains(':'),
{
    lemma_float_chars(t);
    if t.contains(' ') {
        let i = choose|i: int| 0 <= i < t.len() && t[i] == ' ';
        assert(is_float_char(t[i]));
    }
    if t.contains(',') {
        let i = choose|i: int| 0 <= i < t.len() && t[i] == ',';
        assert(is_float_char(t[i]));
    }
    if t.contains(':') {
        let i = choose|i: int| 0 <= i < t.len() && t[i] == ':';
        assert(is_float_char(t[i]));
    }
}

/// Every numeric field holds a text `f64` accepts.
pub open spec fn settings_valid(s: SettingsView) -> bool {
    &&& is_float_text(s.zoom)
    &&& is_float_text(s.pan_x)
    &&& is_float_text(s.pan_y)
    &&& is_float_text(s.volume)
    &&& is_float_text(s.brightness)
    &&& is_float_text(s.contrast)
    &&& is_float_text(s.hue)
    &&& is_float_text(s.saturation)
}

} // verus!
