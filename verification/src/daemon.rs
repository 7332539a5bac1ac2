//! The daemon's command handling: what each command does to the zones, what
//! it answers, and the playback and config-file work it hands back to the
//! caller to carry out.
use vstd::prelude::*;
use vstd::string::*;
use crate::command::{Command, CommandView};
use crate::geometry::{Rect, union_fits, union_fits_exec, union_spec};
use crate::order::{sort_strings, sorted_copy, sorted_keys, texts};
use crate::playback::{BookView, PlaybackBook};
use crate::registry::MonitorRegistry;
use crate::response::{InfoView, MonitorInfo, Response, ResponseView, info_views};
use crate::settings::{SettingsView, WallpaperSettings, ZoneConfig, ZoneConfigView, zone_config_views};
use crate::text::str_eq;
use crate::zones::{
    ZoneApplyOutcome, ZoneError, ZoneManager, ZoneManagerView, ZoneView, ClearOutcome, all_known, after_set,
    cleared_zones, dissolved_ids, first_unknown, reforms, set_dissolved, set_zone, ids_with_path, lemma_first_unknown_is_unknown, path_with, rects_of,
    zone_with, zones_wf,
};

verus! {

broadcast use vstd::string::group_string_axioms;

/// The daemon's state: the monitors it knows, its zones, and where the
/// config file lives.
pub struct AppState {
    pub registry: MonitorRegistry,
    pub zones: ZoneManager,
    pub config_path: String,
}

/// The daemon's state as plain values.
pub struct AppStateView {
    pub registry: Map<Seq<char>, Rect>,
    pub zones: ZoneManagerView,
    pub config_path: Seq<char>,
}

impl View for AppState {
    type V = AppStateView;

    open spec fn view(&self) -> AppStateView {
        AppStateView { registry: self.registry@, zones: self.zones@, config_path: self.config_path@ }
    }
}

impl AppState {
    /// A state with the given monitors, no zones, and the given config file.
    pub fn new(registry: MonitorRegistry, config_path: String) -> (r: Self)
        ensures
            r.registry@ == registry@,
            r.zones@.zones == Seq::<ZoneView>::empty(),
            r.zones@.next_id == 0,
            r.config_path@ == config_path@,
    {
        AppState { registry, zones: ZoneManager::new(), config_path }
    }
}

/// Work a command leaves to the caller, in the order it is to be done.
#[derive(Debug)]
pub enum Effect {
    /// Set up (or reuse) the formed zone's playback and load `path`, after
    /// freeing the playback of the zones the outcome dissolved.
    StartZone { outcome: ZoneApplyOutcome, monitors: Vec<String>, path: String },
    /// Apply the settings saved for `path`, or the defaults, to the zone.
    ApplySavedSettings { zone_id: u64, path: String },
    /// Rewrite the config file's zones, keeping everything else in it.
    SaveZones { zones: Vec<ZoneConfig> },
    /// Free a zone's playback.
    TeardownZone { zone_id: u64 },
    /// Blank a monitor's surface.
    ClearMonitor { monitor: String },
    /// Pause or resume a zone's player; when that fails the reply becomes
    /// `pause_failed`'s.
    SetPaused { zone_id: u64, paused: bool },
    /// Store a picture's settings in the config file.
    SaveSettings { path: String, settings: WallpaperSettings },
    /// Apply settings to a zone's live player.
    ApplySettings { zone_id: u64, settings: WallpaperSettings },
}

/// An effect as plain values.
pub enum EffectView {
    StartZone { zone_id: u64, bounding_box: Rect, dissolved: Seq<u64>, monitors: Seq<Seq<char>>, path: Seq<char> },
    ApplySavedSettings { zone_id: u64, path: Seq<char> },
    SaveZones { zones: Seq<ZoneConfigView> },
    TeardownZone { zone_id: u64 },
    ClearMonitor { monitor: Seq<char> },
    SetPaused { zone_id: u64, paused: bool },
    SaveSettings { path: Seq<char>, settings: SettingsView },
    ApplySettings { zone_id: u64, settings: SettingsView },
}

impl View for Effect {
    type V = EffectView;

    open spec fn view(&self) -> EffectView {
        match self {
            Effect::StartZone { outcome, monitors, path } => EffectView::StartZone {
                zone_id: outcome.zone_id,
                bounding_box: outcome.bounding_box,
                dissolved: outcome.dissolved_zone_ids@,
                monitors: texts(monitors@),
                path: path@,
            },
            Effect::ApplySavedSettings { zone_id, path } => EffectView::ApplySavedSettings { zone_id: *zone_id, path: path@ },
            Effect::SaveZones { zones } => EffectView::SaveZones { zones: zone_config_views(zones@) },
            Effect::TeardownZone { zone_id } => EffectView::TeardownZone { zone_id: *zone_id },
            Effect::ClearMonitor { monitor } => EffectView::ClearMonitor { monitor: monitor@ },
            Effect::SetPaused { zone_id, paused } => EffectView::SetPaused { zone_id: *zone_id, paused: *paused },
            Effect::SaveSettings { path, settings } => EffectView::SaveSettings { path: path@, settings: settings@ },
            Effect::ApplySettings { zone_id, settings } => EffectView::ApplySettings {
                zone_id: *zone_id,
                settings: settings@,
            },
        }
    }
}

pub open spec fn effect_views(es: Seq<Effect>) -> Seq<EffectView> {
    es.map_values(|e: Effect| e@)
}

/// What handling a command gives: the new state, the reply, the effects.
pub struct HandledView {
    pub state: AppStateView,
    pub reply: ResponseView,
    pub effects: Seq<EffectView>,
}

/// The sorted members of `m`'s zone, or none when it is in no zone.
pub open spec fn zone_group(zs: Seq<ZoneView>, m: Seq<char>) -> Seq<Seq<char>> {
    match zone_with(zs, m) {
        Some(z) => sorted_copy(z.monitors),
        None => seq![],
    }
}

/// The report for monitor `name`.
pub open spec fn info_of(reg: Map<Seq<char>, Rect>, zs: Seq<ZoneView>, name: Seq<char>) -> InfoView {
    InfoView { name, x: reg[name].x, y: reg[name].y, w: reg[name].w, h: reg[name].h, group: zone_group(zs, name) }
}

/// One report per known monitor, in name order.
pub open spec fn monitor_list(reg: Map<Seq<char>, Rect>, zs: Seq<ZoneView>) -> Seq<InfoView> {
    sorted_keys(reg.dom()).map_values(|n: Seq<char>| info_of(reg, zs, n))
}

/// The saved entry that monitor `name` stands for: its zone's, when it is
/// that zone's first member and the zone has a path.
pub open spec fn zone_entry(zs: Seq<ZoneView>, name: Seq<char>) -> Option<ZoneConfigView> {
    match zone_with(zs, name) {
        Some(z) => if z.monitors.len() > 0 && z.monitors[0] == name && z.path is Some {
            Some(ZoneConfigView { monitors: z.monitors, path: z.path->0 })
        } else {
            None
        },
        None => None,
    }
}

pub open spec fn zone_entries(names: Seq<Seq<char>>, zs: Seq<ZoneView>) -> Seq<ZoneConfigView>
    decreases names.len(),
{
    if names.len() == 0 {
        seq![]
    } else {
        match zone_entry(zs, names.last()) {
            Some(c) => zone_entries(names.drop_last(), zs).push(c),
            None => zone_entries(names.drop_last(), zs),
        }
    }
}

/// The zones the config file keeps: each zone with a path once, in the
/// name order of its first member.
pub open spec fn saved_zones(reg: Map<Seq<char>, Rect>, zs: Seq<ZoneView>) -> Seq<ZoneConfigView> {
    zone_entries(sorted_keys(reg.dom()), zs)
}

pub open spec fn no_wallpaper(m: Seq<char>) -> Seq<char> {
    "no wallpaper set for "@ + m
}

pub open spec fn no_playback(m: Seq<char>) -> Seq<char> {
    "no active playback for "@ + m
}

/// At least one monitor, and when all are known, a bounding box that fits.
pub open spec fn shape_ok(reg: Map<Seq<char>, Rect>, names: Seq<Seq<char>>) -> bool {
    &&& names.len() > 0
    &&& all_known(reg, names) ==> union_fits(rects_of(reg, names))
}

/// The inputs on which forming a zone of `names` is defined: at least one
/// monitor, and when all are known, a bounding box that fits and, unless
/// the set re-forms an existing zone, a new id that fits.
pub open spec fn set_ok(st: AppStateView, names: Seq<Seq<char>>) -> bool {
    &&& shape_ok(st.registry, names)
    &&& all_known(st.registry, names) && !reforms(st.zones.zones, names) ==> st.zones.next_id < u64::MAX
}

pub open spec fn command_ok(st: AppStateView, c: CommandView) -> bool {
    match c {
        CommandView::SetZone { monitors, .. } => set_ok(st, monitors),
        _ => true,
    }
}

/// The state after forming a zone of `names` playing `path`.
pub open spec fn state_after_set(st: AppStateView, names: Seq<Seq<char>>, path: Seq<char>) -> AppStateView {
    AppStateView {
        zones: after_set(st.zones, names, path, union_spec(rects_of(st.registry, names))),
        ..st
    }
}

/// The playback work for a zone formed of `names` playing `path`.
pub open spec fn zone_effects(st: AppStateView, names: Seq<Seq<char>>, path: Seq<char>) -> Seq<EffectView> {
    seq![
        EffectView::StartZone {
            zone_id: set_zone(st.zones, names, path, union_spec(rects_of(st.registry, names))).id,
            bounding_box: union_spec(rects_of(st.registry, names)),
            dissolved: set_dissolved(st.zones.zones, names),
            monitors: names,
            path,
        },
        EffectView::ApplySavedSettings {
            zone_id: set_zone(st.zones, names, path, union_spec(rects_of(st.registry, names))).id,
            path,
        },
    ]
}

pub open spec fn save_zones_effect(st: AppStateView) -> EffectView {
    EffectView::SaveZones { zones: saved_zones(st.registry, st.zones.zones) }
}

pub open spec fn clear_effects(ms: Seq<Seq<char>>) -> Seq<EffectView> {
    ms.map_values(|m: Seq<char>| EffectView::ClearMonitor { monitor: m })
}

pub open spec fn settings_effects(ids: Seq<u64>, s: SettingsView) -> Seq<EffectView> {
    ids.map_values(|id: u64| EffectView::ApplySettings { zone_id: id, settings: s })
}

/// `unset m`.
pub open spec fn unset_spec(st: AppStateView, m: Seq<char>) -> HandledView {
    let st2 = AppStateView {
        zones: ZoneManagerView { zones: cleared_zones(st.zones.zones, m), next_id: st.zones.next_id },
        ..st
    };
    match zone_with(st.zones.zones, m) {
        None => HandledView { state: st2, reply: ResponseView::Error(no_wallpaper(m)), effects: seq![] },
        Some(z) => if z.path is None {
            HandledView { state: st2, reply: ResponseView::Okay, effects: seq![] }
        } else if z.monitors.len() == 1 {
            HandledView {
                state: st2,
                reply: ResponseView::Okay,
                effects: seq![
                    EffectView::TeardownZone { zone_id: z.id },
                    EffectView::ClearMonitor { monitor: m },
                    save_zones_effect(st2),
                ],
            }
        } else {
            HandledView {
                state: st2,
                reply: ResponseView::Okay,
                effects: seq![EffectView::TeardownZone { zone_id: z.id }] + clear_effects(z.monitors).push(
                    save_zones_effect(st2),
                ),
            }
        },
    }
}

/// `pause m` or `play m`: only a zone with live playback can be toggled.
pub open spec fn pause_spec(st: AppStateView, m: Seq<char>, paused: bool, live: Seq<u64>) -> HandledView {
    match zone_with(st.zones.zones, m) {
        None => HandledView { state: st, reply: ResponseView::Error(no_wallpaper(m)), effects: seq![] },
        Some(z) => if live.contains(z.id) {
            HandledView {
                state: st,
                reply: ResponseView::Okay,
                effects: seq![EffectView::SetPaused { zone_id: z.id, paused }],
            }
        } else {
            HandledView { state: st, reply: ResponseView::Error(no_playback(m)), effects: seq![] }
        },
    }
}

/// What a command does, given the ids of the zones with live playback.
pub open spec fn handle_spec(st: AppStateView, c: CommandView, live: Seq<u64>) -> HandledView {
    match c {
        CommandView::MonitorList => HandledView {
            state: st,
            reply: ResponseView::MonitorList(monitor_list(st.registry, st.zones.zones)),
            effects: seq![],
        },
        CommandView::Get { monitor } => HandledView {
            state: st,
            reply: match path_with(st.zones.zones, monitor) {
                Some(p) => ResponseView::Path(p),
                None => ResponseView::Error(no_wallpaper(monitor)),
            },
            effects: seq![],
        },
        CommandView::SetZone { monitors, path } => if all_known(st.registry, monitors) {
            HandledView {
                state: state_after_set(st, monitors, path),
                reply: ResponseView::Okay,
                effects: zone_effects(st, monitors, path).push(save_zones_effect(state_after_set(st, monitors, path))),
            }
        } else {
            HandledView {
                state: st,
                reply: ResponseView::Error("unknown monitor "@ + monitors[first_unknown(st.registry, monitors)]),
                effects: seq![],
            }
        },
        CommandView::Unset { monitor } => unset_spec(st, monitor),
        CommandView::Pause { monitor } => pause_spec(st, monitor, true, live),
        CommandView::Play { monitor } => pause_spec(st, monitor, false, live),
        CommandView::SetWallpaperSettings { path, settings } => HandledView {
            state: st,
            reply: ResponseView::Okay,
            effects: seq![EffectView::SaveSettings { path, settings }] + settings_effects(
                ids_with_path(st.zones.zones, path),
                settings,
            ),
        },
    }
}

/// Some monitor of `ms` is in a zone or shows live playback.
pub open spec fn zone_covered(st: AppStateView, b: BookView, ms: Seq<Seq<char>>) -> bool {
    exists|i: int|
        0 <= i < ms.len() && (zone_with(st.zones.zones, #[trigger] ms[i]) is Some || exists|id: u64|
            #[trigger] b.live.contains_key(id) && b.live[id].monitors.contains(ms[i]))
}

/// Restoring one saved zone: skipped when one of its monitors is already
/// covered or one is not known yet; else formed as `set` would.
pub open spec fn restore_step(st: AppStateView, b: BookView, c: ZoneConfigView) -> (AppStateView, Seq<EffectView>) {
    if zone_covered(st, b, c.monitors) || !all_known(st.registry, c.monitors) {
        (st, seq![])
    } else {
        (state_after_set(st, c.monitors, c.path), zone_effects(st, c.monitors, c.path))
    }
}

/// Restoring the saved zones in order.
pub open spec fn restore_spec(st: AppStateView, b: BookView, saved: Seq<ZoneConfigView>) -> (AppStateView, Seq<EffectView>)
    decreases saved.len(),
{
    if saved.len() == 0 {
        (st, seq![])
    } else {
        let (s1, e1) = restore_spec(st, b, saved.drop_last());
        let (s2, e2) = restore_step(s1, b, saved.last());
        (s2, e1 + e2)
    }
}

/// Whether restoring saved zone `c` forms a zone: none of its monitors is
/// in a zone or shows live playback, and all are known.
pub open spec fn restore_applies(st: AppStateView, b: BookView, c: ZoneConfigView) -> bool {
    !zone_covered(st, b, c.monitors) && all_known(st.registry, c.monitors)
}

/// The inputs on which restoring is defined: each saved zone that the
/// restore forms, in the state the restore has reached by then, is one
/// `set` could form (at least one monitor, a bounding box that fits, a new
/// id that fits). Saved zones the restore passes over are not looked at.
pub open spec fn restore_ok(st: AppStateView, b: BookView, saved: Seq<ZoneConfigView>) -> bool
    decreases saved.len(),
{
    if saved.len() == 0 {
        true
    } else {
        &&& restore_ok(st, b, saved.drop_last())
        &&& restore_applies(restore_spec(st, b, saved.drop_last()).0, b, saved.last()) ==> set_ok(
            restore_spec(st, b, saved.drop_last()).0,
            saved.last().monitors,
        )
    }
}

/// `restore_ok` of a list holds of each of its prefixes.
proof fn lemma_restore_ok_prefix(st: AppStateView, b: BookView, saved: Seq<ZoneConfigView>, k: int)
    requires
        restore_ok(st, b, saved),
        0 <= k <= saved.len(),
    ensures
        restore_ok(st, b, saved.take(k)),
    decreases saved.len(),
{
    if k == saved.len() {
        assert(saved.take(k) =~= saved);
    } else {
        let p = saved.drop_last();
        assert(p.take(k) =~= saved.take(k));
        lemma_restore_ok_prefix(st, b, p, k);
    }
}

/// Whether `shape_ok` holds of `monitors`.
pub fn shape_allowed(registry: &MonitorRegistry, monitors: &[String]) -> (r: bool)
    ensures
        r == shape_ok(registry@, texts(monitors@)),
{
    if monitors.len() == 0 {
        return false;
    }
    let ghost names = texts(monitors@);
    let mut rects: Vec<Rect> = Vec::new();
    let mut i: usize = 0;
    while i < monitors.len()
        invariant
            i <= monitors@.len(),
            names == texts(monitors@),
            forall|j: int| 0 <= j < i ==> registry@.contains_key(#[trigger] names[j]),
            rects@ == rects_of(registry@, names).take(i as int),
        decreases monitors@.len() - i,
    {
        proof {
            assert(names[i as int] == monitors@[i as int]@);
        }
        match registry.get(monitors[i].as_str()) {
            Some(m) => {
                rects.push(m.logical);
                proof {
                    assert(rects_of(registry@, names).take(i + 1int) =~= rects_of(registry@, names).take(i as int).push(
                        registry@[names[i as int]],
                    ));
                }
            },
            None => {
                return true;
            },
        }
        i = i + 1;
    }
    proof {
        assert(rects_of(registry@, names).take(monitors@.len() as int) =~= rects_of(registry@, names));
    }
    union_fits_exec(rects.as_slice())
}

/// Whether `set_ok` holds: a zone of `monitors` can be formed.
pub fn set_allowed(state: &AppState, monitors: &[String]) -> (r: bool)
    ensures
        r == set_ok(state@, texts(monitors@)),
{
    if !shape_allowed(&state.registry, monitors) {
        return false;
    }
    let mut i: usize = 0;
    let ghost names = texts(monitors@);
    while i < monitors.len()
        invariant
            i <= monitors@.len(),
            names == texts(monitors@),
            shape_ok(state.registry@, names),
            forall|j: int| 0 <= j < i ==> state.registry@.contains_key(#[trigger] names[j]),
        decreases monitors@.len() - i,
    {
        proof {
            assert(names[i as int] == monitors@[i as int]@);
        }
        if !state.registry.contains(monitors[i].as_str()) {
            return true;
        }
        i = i + 1;
    }
    state.zones.reforms_zone(monitors) || state.zones.next_zone_id() < u64::MAX
}

/// Whether `command_ok` holds: the command can be handled.
pub fn command_allowed(state: &AppState, cmd: &Command) -> (r: bool)
    ensures
        r == command_ok(state@, cmd@),
{
    match cmd {
        Command::SetZone { monitors, path } => set_allowed(state, monitors.as_slice()),
        _ => true,
    }
}

/// A copy of the state.
fn copy_state(state: &AppState) -> (r: AppState)
    ensures
        r@ == state@,
{
    AppState { registry: state.registry.clone(), zones: state.zones.duplicate(), config_path: state.config_path.clone() }
}

/// Whether `restore_applies` holds: restoring `cfg` forms a zone.
fn restore_applies_exec(state: &AppState, cfg: &ZoneConfig, book: &PlaybackBook) -> (r: bool)
    ensures
        r == restore_applies(state@, book@, cfg@),
{
    let ghost c = cfg@;
    let mut j: usize = 0;
    while j < cfg.monitors.len()
        invariant
            j <= cfg.monitors@.len(),
            c == cfg@,
            forall|k: int| 0 <= k < j ==> !(zone_with(state@.zones.zones, #[trigger] c.monitors[k]) is Some || exists|id: u64|
                #[trigger] book@.live.contains_key(id) && book@.live[id].monitors.contains(c.monitors[k])),
        decreases cfg.monitors@.len() - j,
    {
        let m = cfg.monitors[j].as_str();
        proof {
            assert(c.monitors[j as int] == m@);
        }
        if state.zones.zone_for_monitor(m).is_some() || book.is_monitor_live(m) {
            proof {
                assert(zone_with(state@.zones.zones, c.monitors[j as int]) is Some || exists|id: u64|
                    #[trigger] book@.live.contains_key(id) && book@.live[id].monitors.contains(c.monitors[j as int]));
                assert(zone_covered(state@, book@, c.monitors));
            }
            return false;
        }
        j = j + 1;
    }
    let mut k: usize = 0;
    while k < cfg.monitors.len()
        invariant
            k <= cfg.monitors@.len(),
            c == cfg@,
            !zone_covered(state@, book@, c.monitors),
            forall|q: int| 0 <= q < k ==> state@.registry.contains_key(#[trigger] c.monitors[q]),
        decreases cfg.monitors@.len() - k,
    {
        proof {
            assert(c.monitors[k as int] == cfg.monitors@[k as int]@);
        }
        if !state.registry.contains(cfg.monitors[k].as_str()) {
            return false;
        }
        k = k + 1;
    }
    true
}

/// Whether `restore_ok` holds of `saved`, with playback `book`: walks the
/// restore on a copy of the state and checks each zone it would form.
pub fn restore_allowed(state: &AppState, saved: &[ZoneConfig], book: &PlaybackBook) -> (r: bool)
    ensures
        r == restore_ok(state@, book@, zone_config_views(saved@)),
{
    let ghost sv = zone_config_views(saved@);
    let ghost st0 = state@;
    let mut scratch = copy_state(state);
    let mut i: usize = 0;
    proof {
        assert(sv.take(0) =~= Seq::<ZoneConfigView>::empty());
    }
    while i < saved.len()
        invariant
            i <= saved@.len(),
            sv == zone_config_views(saved@),
            st0 == state@,
            scratch@ == restore_spec(st0, book@, sv.take(i as int)).0,
            restore_ok(st0, book@, sv.take(i as int)),
        decreases saved@.len() - i,
    {
        let cfg = &saved[i];
        proof {
            assert(sv[i as int] == cfg@);
            assert(sv.take(i + 1int).drop_last() =~= sv.take(i as int));
            assert(sv.take(i + 1int).last() == cfg@);
        }
        if restore_applies_exec(&scratch, cfg, book) {
            if !set_allowed(&scratch, cfg.monitors.as_slice()) {
                proof {
                    let t = sv.take(i + 1int);
                    assert(t.drop_last() == sv.take(i as int));
                    assert(t.last() == cfg@);
                    assert(cfg@.monitors == texts(cfg.monitors@));
                    assert(restore_applies(restore_spec(st0, book@, t.drop_last()).0, book@, t.last()));
                    assert(!set_ok(restore_spec(st0, book@, t.drop_last()).0, t.last().monitors));
                    assert(!restore_ok(st0, book@, t));
                    if restore_ok(st0, book@, sv) {
                        lemma_restore_ok_prefix(st0, book@, sv, i + 1);
                    }
                }
                return false;
            }
            let _ = apply_zone(&mut scratch, cfg.monitors.as_slice(), cfg.path.as_str());
        }
        i = i + 1;
    }
    proof {
        assert(sv.take(saved@.len() as int) =~= sv);
    }
    true
}

/// Restores each saved zone whose monitors are all known and none of which
/// is in a zone or shows live playback (per `book`), as `set` would but
/// saving nothing: a restore that finds only some zones' monitors must not
/// rewrite the config file and lose the others. Returns the playback work.
pub fn restore_saved_zones(state: &mut AppState, saved: &[ZoneConfig], book: &PlaybackBook) -> (r: Vec<Effect>)
    requires
        restore_ok(old(state)@, book@, zone_config_views(saved@)),
    ensures
        final(state)@ == restore_spec(old(state)@, book@, zone_config_views(saved@)).0,
        effect_views(r@) == restore_spec(old(state)@, book@, zone_config_views(saved@)).1,
{
    let ghost sv = zone_config_views(saved@);
    let ghost st0 = state@;
    let mut effects: Vec<Effect> = Vec::new();
    let mut i: usize = 0;
    proof {
        assert(sv.take(0) =~= Seq::<ZoneConfigView>::empty());
    }
    while i < saved.len()
        invariant
            i <= saved@.len(),
            sv == zone_config_views(saved@),
            restore_ok(st0, book@, sv),
            state@ == restore_spec(st0, book@, sv.take(i as int)).0,
            effect_views(effects@) == restore_spec(st0, book@, sv.take(i as int)).1,
        decreases saved@.len() - i,
    {
        let cfg = &saved[i];
        let ghost c = sv[i as int];
        proof {
            assert(c == cfg@);
            assert(sv.take(i + 1int).drop_last() =~= sv.take(i as int));
            assert(sv.take(i + 1int).last() == c);
            lemma_restore_ok_prefix(st0, book@, sv, i + 1);
        }
        if restore_applies_exec(state, cfg, book) {
            match apply_zone(state, cfg.monitors.as_slice(), cfg.path.as_str()) {
                Ok(es) => {
                    let mut es = es;
                    let ghost before = effects@;
                    let ghost added = es@;
                    effects.append(&mut es);
                    proof {
                        assert(effect_views(effects@) =~= effect_views(before) + effect_views(added));
                    }
                },
                Err(_) => {},
            }
        } else {
            proof {
                assert(effect_views(effects@) + Seq::<EffectView>::empty() =~= effect_views(effects@));
            }
        }
        i = i + 1;
    }
    proof {
        assert(sv.take(saved@.len() as int) =~= sv);
    }
    effects
}

/// A copy of a list of strings.
pub fn copy_strings(v: &[String]) -> (r: Vec<String>)
    ensures
        r@ == v@,
{
    let mut r: Vec<String> = Vec::new();
    let mut i: usize = 0;
    while i < v.len()
        invariant
            i <= v@.len(),
            r@ =~= v@.take(i as int),
        decreases v@.len() - i,
    {
        r.push(v[i].clone());
        proof {
            assert(v@.take(i + 1int) =~= v@.take(i as int).push(v@[i as int]));
        }
        i = i + 1;
    }
    proof {
        assert(v@.take(v@.len() as int) =~= v@);
    }
    r
}

/// `prefix` followed by `name`.
fn message_for(prefix: &str, name: &str) -> (r: String)
    ensures
        r@ == prefix@ + name@,
{
    let mut r = String::new();
    r.append(prefix);
    r.append(name);
    r
}

/// The reply when pausing or resuming a zone's player failed with `e`.
pub fn pause_failed(e: &str) -> (r: Response)
    ensures
        r@ == ResponseView::Error("failed to set pause state: "@ + e@),
{
    Response::Error(message_for("failed to set pause state: ", e))
}

/// Whether `id` is among `ids`.
fn contains_id(ids: &[u64], id: u64) -> (r: bool)
    ensures
        r == ids@.contains(id),
{
    let mut i: usize = 0;
    while i < ids.len()
        invariant
            i <= ids@.len(),
            forall|j: int| 0 <= j < i ==> ids@[j] != id,
        decreases ids@.len() - i,
    {
        if ids[i] == id {
            proof {
                assert(ids@[i as int] == id);
            }
            return true;
        }
        i = i + 1;
    }
    false
}

/// One report per known monitor, in name order, each with its zone's
/// members sorted (none when it is in no zone).
pub fn monitor_infos(state: &AppState) -> (r: Vec<MonitorInfo>)
    ensures
        info_views(r@) == monitor_list(state.registry@, state.zones@.zones),
{
    let names = state.registry.names();
    let ghost ns = sorted_keys(state.registry@.dom());
    let ghost want = monitor_list(state.registry@, state.zones@.zones);
    let mut infos: Vec<MonitorInfo> = Vec::new();
    let mut i: usize = 0;
    while i < names.len()
        invariant
            i <= names@.len(),
            texts(names@) == ns,
            ns == sorted_keys(state.registry@.dom()),
            want == monitor_list(state.registry@, state.zones@.zones),
            forall|k: Seq<char>| state.registry@.contains_key(k) <==> #[trigger] texts(names@).contains(k),
            info_views(infos@) == want.take(i as int),
        decreases names@.len() - i,
    {
        let name = &names[i];
        proof {
            assert(texts(names@)[i as int] == name@);
            assert(texts(names@).contains(name@));
        }
        let m = match state.registry.get(name.as_str()) {
            Some(m) => m,
            None => {
                proof {
                    assert(false);
                }
                return infos;
            },
        };
        let group = match state.zones.zone_for_monitor(name.as_str()) {
            Some(z) => sort_strings(&z.monitors),
            None => Vec::new(),
        };
        let info = MonitorInfo { name: m.name.clone(), x: m.logical.x, y: m.logical.y, w: m.logical.w, h: m.logical.h, group };
        proof {
            assert(info@.group == zone_group(state.zones@.zones, name@));
            assert(info@ == info_of(state.registry@, state.zones@.zones, name@));
        }
        let ghost before = infos@;
        infos.push(info);
        proof {
            assert(info_views(infos@) =~= info_views(before).push(info@));
            assert(want.take(i + 1int) =~= want.take(i as int).push(want[i as int]));
            assert(want[i as int] == info_of(state.registry@, state.zones@.zones, ns[i as int]));
        }
        i = i + 1;
    }
    proof {
        assert(want.take(names@.len() as int) =~= want);
    }
    infos
}

/// The zone entries the config file should hold for the current zones.
pub fn zones_to_persist(state: &AppState) -> (r: Vec<ZoneConfig>)
    ensures
        zone_config_views(r@) == saved_zones(state.registry@, state.zones@.zones),
{
    let names = state.registry.names();
    let ghost ns = sorted_keys(state.registry@.dom());
    let ghost zs = state.zones@.zones;
    let mut out: Vec<ZoneConfig> = Vec::new();
    let mut i: usize = 0;
    while i < names.len()
        invariant
            i <= names@.len(),
            texts(names@) == ns,
            zs == state.zones@.zones,
            ns == sorted_keys(state.registry@.dom()),
            zone_config_views(out@) == zone_entries(ns.take(i as int), zs),
        decreases names@.len() - i,
    {
        let name = &names[i];
        proof {
            assert(texts(names@)[i as int] == name@);
            assert(ns.take(i + 1int).drop_last() =~= ns.take(i as int));
            assert(ns.take(i + 1int).last() == name@);
        }
        let ghost before = out@;
        match state.zones.zone_for_monitor(name.as_str()) {
            Some(z) => {
                if z.monitors.len() > 0 && str_eq(z.monitors[0].as_str(), name.as_str()) {
                    match &z.path {
                        Some(p) => {
                            out.push(ZoneConfig { monitors: copy_strings(z.monitors.as_slice()), path: p.clone() });
                            proof {
                                assert(texts(z.monitors@)[0] == z.monitors@[0]@);
                                assert(zone_config_views(out@) =~= zone_config_views(before).push(
                                    ZoneConfigView { monitors: z@.monitors, path: p@ },
                                ));
                            }
                        },
                        None => {},
                    }
                } else {
                    proof {
                        if z@.monitors.len() > 0 {
                            assert(texts(z.monitors@)[0] == z.monitors@[0]@);
                        }
                    }
                }
            },
            None => {},
        }
        i = i + 1;
    }
    proof {
        assert(ns.take(names@.len() as int) =~= ns);
    }
    out
}

/// Forms a zone of `monitors` playing `path` and returns the playback work
/// for it; refused, with nothing changed, when a monitor is unknown. Saves
/// nothing: the caller decides whether the config file follows.
pub fn apply_zone(state: &mut AppState, monitors: &[String], path: &str) -> (r: Result<Vec<Effect>, ZoneError>)
    requires
        set_ok(old(state)@, texts(monitors@)),
    ensures
        r is Ok <==> all_known(old(state)@.registry, texts(monitors@)),
        match r {
            Ok(es) => {
                &&& final(state)@ == state_after_set(old(state)@, texts(monitors@), path@)
                &&& effect_views(es@) == zone_effects(old(state)@, texts(monitors@), path@)
            },
            Err(e) => {
                &&& final(state)@ == old(state)@
                &&& e == ZoneError::UnknownMonitor(e->0) && e->0@ == texts(monitors@)[first_unknown(
                    old(state)@.registry,
                    texts(monitors@),
                )]
            },
        },
{
    let outcome = match state.zones.apply_set(monitors, path.to_owned(), &state.registry) {
        Ok(o) => o,
        Err(e) => {
            return Err(e);
        },
    };
    let id = outcome.zone_id;
    let mut es: Vec<Effect> = Vec::new();
    es.push(Effect::StartZone { outcome, monitors: copy_strings(monitors), path: path.to_owned() });
    es.push(Effect::ApplySavedSettings { zone_id: id, path: path.to_owned() });
    proof {
        assert(effect_views(es@) =~= zone_effects(old(state)@, texts(monitors@), path@));
    }
    Ok(es)
}

/// `unset monitor`: clears the wallpaper of the monitor's zone. A solo zone
/// is dissolved; a group keeps every member and only stops playing, so
/// setting the same members again reforms it. Clearing an already cleared
/// zone succeeds and does nothing.
pub fn handle_unset(state: &mut AppState, monitor: &str) -> (r: (Response, Vec<Effect>))
    ensures
        final(state)@ == unset_spec(old(state)@, monitor@).state,
        r.0@ == unset_spec(old(state)@, monitor@).reply,
        effect_views(r.1@) == unset_spec(old(state)@, monitor@).effects,
{
    let outcome = state.zones.clear_path(monitor);
    match outcome {
        ClearOutcome::NotFound => (Response::Error(message_for("no wallpaper set for ", monitor)), Vec::new()),
        ClearOutcome::AlreadyCleared => (Response::Okay, Vec::new()),
        ClearOutcome::Dissolved { zone_id } => {
            let mut es: Vec<Effect> = Vec::new();
            es.push(Effect::TeardownZone { zone_id });
            es.push(Effect::ClearMonitor { monitor: monitor.to_owned() });
            es.push(Effect::SaveZones { zones: zones_to_persist(state) });
            proof {
                assert(effect_views(es@) =~= unset_spec(old(state)@, monitor@).effects);
            }
            (Response::Okay, es)
        },
        ClearOutcome::Cleared { zone_id, monitors } => {
            let mut es: Vec<Effect> = Vec::new();
            es.push(Effect::TeardownZone { zone_id });
            let ghost ms = texts(monitors@);
            let mut i: usize = 0;
            while i < monitors.len()
                invariant
                    i <= monitors@.len(),
                    ms == texts(monitors@),
                    effect_views(es@) == seq![EffectView::TeardownZone { zone_id }] + clear_effects(ms.take(i as int)),
                decreases monitors@.len() - i,
            {
                let ghost before = es@;
                es.push(Effect::ClearMonitor { monitor: monitors[i].clone() });
                proof {
                    assert(ms.take(i + 1int) =~= ms.take(i as int).push(ms[i as int]));
                    assert(clear_effects(ms.take(i + 1int)) =~= clear_effects(ms.take(i as int)).push(
                        EffectView::ClearMonitor { monitor: ms[i as int] },
                    ));
                    assert(effect_views(es@) =~= effect_views(before).push(
                        EffectView::ClearMonitor { monitor: ms[i as int] },
                    ));
                }
                i = i + 1;
            }
            let ghost before = es@;
            es.push(Effect::SaveZones { zones: zones_to_persist(state) });
            proof {
                assert(ms.take(monitors@.len() as int) =~= ms);
                assert(effect_views(es@) =~= effect_views(before).push(save_zones_effect(state@)));
                assert(effect_views(es@) =~= unset_spec(old(state)@, monitor@).effects);
            }
            (Response::Okay, es)
        },
    }
}

/// `pause monitor` (or `play monitor` when `paused` is false): toggles the
/// player of the monitor's zone, which must have live playback, one of the
/// zones in `live_zones`.
pub fn set_paused(state: &AppState, monitor: &str, paused: bool, live_zones: &[u64]) -> (r: (Response, Vec<Effect>))
    ensures
        r.0@ == pause_spec(state@, monitor@, paused, live_zones@).reply,
        effect_views(r.1@) == pause_spec(state@, monitor@, paused, live_zones@).effects,
{
    let zone = match state.zones.zone_for_monitor(monitor) {
        Some(z) => z,
        None => {
            return (Response::Error(message_for("no wallpaper set for ", monitor)), Vec::new());
        },
    };
    if !contains_id(live_zones, zone.id) {
        return (Response::Error(message_for("no active playback for ", monitor)), Vec::new());
    }
    let mut es: Vec<Effect> = Vec::new();
    es.push(Effect::SetPaused { zone_id: zone.id, paused });
    proof {
        assert(effect_views(es@) =~= pause_spec(state@, monitor@, paused, live_zones@).effects);
    }
    (Response::Okay, es)
}

/// Handles one command. `live_zones` are the ids of the zones whose
/// playback is running; the returned effects are for the caller to carry
/// out in order.
pub fn handle_command(state: &mut AppState, cmd: Command, live_zones: &[u64]) -> (r: (Response, Vec<Effect>))
    requires
        command_ok(old(state)@, cmd@),
    ensures
        final(state)@ == handle_spec(old(state)@, cmd@, live_zones@).state,
        r.0@ == handle_spec(old(state)@, cmd@, live_zones@).reply,
        effect_views(r.1@) == handle_spec(old(state)@, cmd@, live_zones@).effects,
{
    match cmd {
        Command::MonitorList => (Response::MonitorList(monitor_infos(state)), Vec::new()),
        Command::Get { monitor } => match state.zones.path_for_monitor(monitor.as_str()) {
            Some(p) => (Response::Path(p.to_owned()), Vec::new()),
            None => (Response::Error(message_for("no wallpaper set for ", monitor.as_str())), Vec::new()),
        },
        Command::SetZone { monitors, path } => match apply_zone(state, monitors.as_slice(), path.as_str()) {
            Ok(es) => {
                let mut es = es;
                let ghost before = es@;
                es.push(Effect::SaveZones { zones: zones_to_persist(state) });
                proof {
                    assert(effect_views(es@) =~= effect_views(before).push(save_zones_effect(state@)));
                }
                (Response::Okay, es)
            },
            Err(e) => (Response::Error(e.message()), Vec::new()),
        },
        Command::Unset { monitor } => handle_unset(state, monitor.as_str()),
        Command::Pause { monitor } => set_paused(state, monitor.as_str(), true, live_zones),
        Command::Play { monitor } => set_paused(state, monitor.as_str(), false, live_zones),
        Command::SetWallpaperSettings { path, settings } => {
            let ids = state.zones.zone_ids_with_path(path.as_str());
            let mut es: Vec<Effect> = Vec::new();
            es.push(Effect::SaveSettings { path: path.clone(), settings: settings.clone() });
            let mut i: usize = 0;
            while i < ids.len()
                invariant
                    i <= ids@.len(),
                    effect_views(es@) == seq![EffectView::SaveSettings { path: path@, settings: settings@ }]
                        + settings_effects(ids@.take(i as int), settings@),
                decreases ids@.len() - i,
            {
                let ghost before = es@;
                es.push(Effect::ApplySettings { zone_id: ids[i], settings: settings.clone() });
                proof {
                    assert(ids@.take(i + 1int) =~= ids@.take(i as int).push(ids@[i as int]));
                    assert(settings_effects(ids@.take(i + 1int), settings@) =~= settings_effects(
                        ids@.take(i as int),
                        settings@,
                    ).push(EffectView::ApplySettings { zone_id: ids@[i as int], settings: settings@ }));
                    assert(effect_views(es@) =~= effect_views(before).push(
                        EffectView::ApplySettings { zone_id: ids@[i as int], settings: settings@ },
                    ));
                }
                i = i + 1;
            }
            proof {
                assert(ids@.take(ids@.len() as int) =~= ids@);
            }
            (Response::Okay, es)
        },
    }
}

/// A saved entry that some listed monitor stands for is among the entries.
proof fn lemma_zone_entries_has(names: Seq<Seq<char>>, zs: Seq<ZoneView>, i: int)
    requires
        0 <= i < names.len(),
        zone_entry(zs, names[i]) is Some,
    ensures
        zone_entries(names, zs).contains(zone_entry(zs, names[i])->0),
    decreases names.len(),
{
    let p = names.drop_last();
    if i == names.len() - 1 {
        let e = zone_entries(names, zs);
        assert(e == zone_entries(p, zs).push(zone_entry(zs, names[i])->0));
        assert(e[e.len() - 1] == zone_entry(zs, names[i])->0);
    } else {
        assert(p[i] == names[i]);
        lemma_zone_entries_has(p, zs, i);
        let c = zone_entry(zs, names[i])->0;
        let k = choose|k: int| 0 <= k < zone_entries(p, zs).len() && zone_entries(p, zs)[k] == c;
        match zone_entry(zs, names.last()) {
            Some(x) => {
                assert(zone_entries(names, zs)[k] == c);
            },
            None => {},
        }
    }
}

/// Every saved entry is the entry of some listed monitor.
proof fn lemma_zone_entries_from(names: Seq<Seq<char>>, zs: Seq<ZoneView>, k: int)
    requires
        0 <= k < zone_entries(names, zs).len(),
    ensures
        exists|i: int| 0 <= i < names.len() && zone_entry(zs, #[trigger] names[i]) == Some(zone_entries(names, zs)[k]),
    decreases names.len(),
{
    let p = names.drop_last();
    let e = zone_entries(names, zs);
    if k < zone_entries(p, zs).len() {
        lemma_zone_entries_from(p, zs, k);
        let i = choose|i: int| 0 <= i < p.len() && zone_entry(zs, #[trigger] p[i]) == Some(zone_entries(p, zs)[k]);
        assert(p[i] == names[i]);
        match zone_entry(zs, names.last()) {
            Some(x) => {
                assert(e[k] == zone_entries(p, zs)[k]);
            },
            None => {},
        }
    } else {
        let last = names.len() - 1;
        assert(names[last] == names.last());
    }
}

/// After a `set` that succeeds, `get` on any of its monitors answers the
/// new path.
pub proof fn law_set_then_get(st: AppStateView, names: Seq<Seq<char>>, path: Seq<char>, m: Seq<char>, live: Seq<u64>)
    requires
        zones_wf(st.zones.zones, st.zones.next_id),
        all_known(st.registry, names),
        names.contains(m),
    ensures
        handle_spec(st, CommandView::SetZone { monitors: names, path }, live).reply == ResponseView::Okay,
        handle_spec(
            handle_spec(st, CommandView::SetZone { monitors: names, path }, live).state,
            CommandView::Get { monitor: m },
            live,
        ).reply == ResponseView::Path(path),
{
    crate::zones::law_set_then_get(st.zones, names, path, union_spec(rects_of(st.registry, names)), m);
}

/// A `set` naming a monitor the daemon does not know changes nothing,
/// saves nothing, and answers `unknown monitor <name>` with one of the
/// unknown names.
pub proof fn law_set_unknown_monitor_changes_nothing(st: AppStateView, names: Seq<Seq<char>>, path: Seq<char>, live: Seq<u64>)
    requires
        !all_known(st.registry, names),
    ensures
        handle_spec(st, CommandView::SetZone { monitors: names, path }, live).state == st,
        handle_spec(st, CommandView::SetZone { monitors: names, path }, live).effects == Seq::<EffectView>::empty(),
        exists|k: int|
            0 <= k < names.len() && !st.registry.contains_key(#[trigger] names[k]) && handle_spec(
                st,
                CommandView::SetZone { monitors: names, path },
                live,
            ).reply == ResponseView::Error("unknown monitor "@ + names[k]),
{
    lemma_first_unknown_is_unknown(st.registry, names);
    let k = first_unknown(st.registry, names);
    assert(!st.registry.contains_key(names[k]));
}

/// After a `set` that succeeds, every monitor it names is in one and the
/// same zone.
pub proof fn law_set_forms_one_zone(st: AppStateView, names: Seq<Seq<char>>, path: Seq<char>, a: Seq<char>, b: Seq<char>)
    requires
        zones_wf(st.zones.zones, st.zones.next_id),
        all_known(st.registry, names),
        names.contains(a),
        names.contains(b),
    ensures
        zone_with(state_after_set(st, names, path).zones.zones, a) is Some,
        zone_with(state_after_set(st, names, path).zones.zones, a) == zone_with(
            state_after_set(st, names, path).zones.zones,
            b,
        ),
{
    crate::zones::law_set_then_get(st.zones, names, path, union_spec(rects_of(st.registry, names)), a);
    crate::zones::law_set_then_get(st.zones, names, path, union_spec(rects_of(st.registry, names)), b);
}

/// After a `set` that succeeds, the zones it saves hold an entry for the
/// zone it put the monitors in: that zone's members (the named monitors, in
/// any order) and the new path.
pub proof fn law_set_saves_zone(st: AppStateView, names: Seq<Seq<char>>, path: Seq<char>)
    requires
        st.registry.dom().finite(),
        zones_wf(st.zones.zones, st.zones.next_id),
        all_known(st.registry, names),
        names.len() > 0,
    ensures
        saved_zones(st.registry, state_after_set(st, names, path).zones.zones).contains(
            ZoneConfigView {
                monitors: set_zone(st.zones, names, path, union_spec(rects_of(st.registry, names))).monitors,
                path,
            },
        ),
        set_zone(st.zones, names, path, union_spec(rects_of(st.registry, names))).monitors.to_multiset()
            == names.to_multiset(),
{
    broadcast use vstd::seq_lib::to_multiset_contains;
    let bbox = union_spec(rects_of(st.registry, names));
    let st2 = state_after_set(st, names, path);
    let z = set_zone(st.zones, names, path, bbox);
    assert(z.monitors.to_multiset() == names.to_multiset());
    names.to_multiset_ensures();
    z.monitors.to_multiset_ensures();
    assert(z.monitors.len() > 0);
    let n0 = z.monitors[0];
    assert(z.monitors.contains(n0));
    assert(z.monitors.to_multiset().count(n0) > 0);
    assert(names.contains(n0));
    crate::zones::law_set_then_get(st.zones, names, path, bbox, n0);
    let i0 = choose|i: int| 0 <= i < names.len() && names[i] == n0;
    assert(st.registry.contains_key(names[i0]));
    let ns = sorted_keys(st.registry.dom());
    crate::order::lemma_sorted_keys_exist(st.registry.dom());
    assert(ns.contains(n0));
    let i = choose|i: int| 0 <= i < ns.len() && ns[i] == n0;
    assert(zone_entry(st2.zones.zones, ns[i]) == Some(ZoneConfigView { monitors: z.monitors, path }));
    lemma_zone_entries_has(ns, st2.zones.zones, i);
}

/// After `unset m`, `get` on `m` or on any other member of its zone
/// answers that no wallpaper is set.
pub proof fn law_unset_then_get(st: AppStateView, m: Seq<char>, other: Seq<char>, live: Seq<u64>)
    requires
        zones_wf(st.zones.zones, st.zones.next_id),
        zone_with(st.zones.zones, m) matches Some(z) && z.monitors.contains(other),
    ensures
        handle_spec(unset_spec(st, m).state, CommandView::Get { monitor: other }, live).reply == ResponseView::Error(
            no_wallpaper(other),
        ),
{
    let zs = st.zones.zones;
    let z = zone_with(zs, m)->0;
    crate::zones::law_clear_path(zs, st.zones.next_id, m, other);
    crate::zones::lemma_zone_index(zs, m);
    let k = crate::zones::zone_index(zs, m);
    crate::zones::lemma_zone_with_at(zs, st.zones.next_id, other, k);
    if z.path is Some && z.monitors.len() == 1 {
        assert(z.monitors[0] == other) by {
            let j = choose|j: int| 0 <= j < z.monitors.len() && z.monitors[j] == other;
        }
        assert(z.monitors[0] == m) by {
            let j = choose|j: int| 0 <= j < z.monitors.len() && z.monitors[j] == m;
        }
    }
}

/// Unsetting the members of a group one after another: once the first has
/// cleared the group's wallpaper, unsetting any member succeeds and changes
/// nothing.
pub proof fn law_unset_group_in_turn(st: AppStateView, m: Seq<char>, other: Seq<char>)
    requires
        zones_wf(st.zones.zones, st.zones.next_id),
        zone_with(st.zones.zones, m) matches Some(z) && z.monitors.len() > 1 && z.monitors.contains(other),
    ensures
        unset_spec(unset_spec(st, m).state, other).reply == ResponseView::Okay,
        unset_spec(unset_spec(st, m).state, other).effects == Seq::<EffectView>::empty(),
        unset_spec(unset_spec(st, m).state, other).state == unset_spec(st, m).state,
{
    let zs = st.zones.zones;
    let z = zone_with(zs, m)->0;
    crate::zones::law_clear_path(zs, st.zones.next_id, m, other);
    crate::zones::lemma_zone_index(zs, m);
    let k = crate::zones::zone_index(zs, m);
    crate::zones::lemma_zone_with_at(zs, st.zones.next_id, other, k);
    let c = cleared_zones(zs, m);
    crate::zones::lemma_zone_with(c, other);
    crate::zones::lemma_zone_index(c, other);
    assert(zone_with(c, other) matches Some(y) && y.path is None);
    assert(cleared_zones(c, other) == c);
}

/// Unsetting a member of a group leaves every monitor's reported group as
/// it was: the `monitor list` reply is the same before and after.
pub proof fn law_unset_keeps_groups(st: AppStateView, m: Seq<char>)
    requires
        zones_wf(st.zones.zones, st.zones.next_id),
        zone_with(st.zones.zones, m) matches Some(z) && z.monitors.len() > 1,
    ensures
        monitor_list(st.registry, unset_spec(st, m).state.zones.zones) == monitor_list(st.registry, st.zones.zones),
{
    let zs = st.zones.zones;
    let c = cleared_zones(zs, m);
    let z = zone_with(zs, m)->0;
    assert forall|n: Seq<char>| #[trigger] zone_group(c, n) == zone_group(zs, n) by {
        crate::zones::law_clear_path(zs, st.zones.next_id, m, n);
        if z.monitors.contains(n) {
            crate::zones::lemma_zone_index(zs, m);
            crate::zones::lemma_zone_with_at(zs, st.zones.next_id, n, crate::zones::zone_index(zs, m));
        }
    }
    assert(monitor_list(st.registry, c) =~= monitor_list(st.registry, zs)) by {
        let ns = sorted_keys(st.registry.dom());
        assert forall|i: int| 0 <= i < ns.len() implies #[trigger] info_of(st.registry, c, ns[i]) == info_of(
            st.registry,
            zs,
            ns[i],
        ) by {
            assert(zone_group(c, ns[i]) == zone_group(zs, ns[i]));
        }
    }
}

/// After `unset m`, no saved entry holds `m`: the config file forgets its
/// wallpaper.
pub proof fn law_unset_forgets_saved(st: AppStateView, m: Seq<char>)
    requires
        zones_wf(st.zones.zones, st.zones.next_id),
    ensures
        forall|k: int|
            0 <= k < saved_zones(st.registry, unset_spec(st, m).state.zones.zones).len() ==> !(#[trigger] saved_zones(
                st.registry,
                unset_spec(st, m).state.zones.zones,
            )[k]).monitors.contains(m),
{
    let zs = st.zones.zones;
    let c = cleared_zones(zs, m);
    crate::zones::lemma_cleared_wf(zs, st.zones.next_id, m);
    crate::zones::law_clear_path(zs, st.zones.next_id, m, m);
    let ns = sorted_keys(st.registry.dom());
    assert forall|k: int| 0 <= k < zone_entries(ns, c).len() implies !(#[trigger] zone_entries(ns, c)[k]).monitors.contains(m) by {
        lemma_zone_entries_from(ns, c, k);
        let i = choose|i: int| 0 <= i < ns.len() && zone_entry(c, #[trigger] ns[i]) == Some(zone_entries(ns, c)[k]);
        let y = zone_with(c, ns[i])->0;
        if y.monitors.contains(m) {
            crate::zones::lemma_zone_index(c, ns[i]);
            crate::zones::lemma_zone_with_at(c, st.zones.next_id, m, crate::zones::zone_index(c, ns[i]));
        }
    }
}

/// A saved zone that restoring leaves alone: one of its monitors is covered,
/// or one is unknown.
pub open spec fn settled(st: AppStateView, b: BookView, c: ZoneConfigView) -> bool {
    zone_covered(st, b, c.monitors) || !all_known(st.registry, c.monitors)
}

/// A restore step keeps every settled saved zone settled, and the zones
/// well formed.
proof fn lemma_step_keeps_settled(st: AppStateView, b: BookView, c: ZoneConfigView, d: ZoneConfigView)
    requires
        zones_wf(st.zones.zones, st.zones.next_id),
        restore_applies(st, b, c) ==> set_ok(st, c.monitors),
    ensures
        settled(st, b, d) ==> settled(restore_step(st, b, c).0, b, d),
        zones_wf(restore_step(st, b, c).0.zones.zones, restore_step(st, b, c).0.zones.next_id),
        restore_step(st, b, c).0.registry == st.registry,
        restore_step(st, b, c).0.zones.next_id <= st.zones.next_id + 1,
{
    let s2 = restore_step(st, b, c).0;
    if !(zone_covered(st, b, c.monitors) || !all_known(st.registry, c.monitors)) {
        let bbox = union_spec(rects_of(st.registry, c.monitors));
        assert(zone_with(st.zones.zones, c.monitors[0]) is None);
        crate::zones::lemma_after_set_wf(st.zones, c.monitors, c.path, bbox);
        if settled(st, b, d) && zone_covered(st, b, d.monitors) {
            let i = choose|i: int|
                0 <= i < d.monitors.len() && (zone_with(st.zones.zones, #[trigger] d.monitors[i]) is Some || exists|id: u64|
                    #[trigger] b.live.contains_key(id) && b.live[id].monitors.contains(d.monitors[i]));
            let m = d.monitors[i];
            if zone_with(st.zones.zones, m) is Some {
                if c.monitors.contains(m) {
                    crate::zones::law_set_then_get(st.zones, c.monitors, c.path, bbox, m);
                } else {
                    crate::zones::law_set_keeps_others(st.zones, c.monitors, c.path, bbox, m);
                }
                assert(zone_with(s2.zones.zones, d.monitors[i]) is Some);
            }
        }
    }
}

/// A restore step settles the saved zone it looked at.
proof fn lemma_step_settles(st: AppStateView, b: BookView, c: ZoneConfigView)
    requires
        zones_wf(st.zones.zones, st.zones.next_id),
        c.monitors.len() > 0,
    ensures
        settled(restore_step(st, b, c).0, b, c),
{
    if !(zone_covered(st, b, c.monitors) || !all_known(st.registry, c.monitors)) {
        let s2 = restore_step(st, b, c).0;
        let bbox = union_spec(rects_of(st.registry, c.monitors));
        let m = c.monitors[0];
        assert(c.monitors.contains(m));
        crate::zones::law_set_then_get(st.zones, c.monitors, c.path, bbox, m);
        assert(zone_with(s2.zones.zones, c.monitors[0]) is Some);
    }
}

/// After restoring, every saved zone is settled.
proof fn lemma_restore_settles(st: AppStateView, b: BookView, saved: Seq<ZoneConfigView>)
    requires
        zones_wf(st.zones.zones, st.zones.next_id),
        restore_ok(st, b, saved),
    ensures
        forall|k: int| 0 <= k < saved.len() ==> settled(restore_spec(st, b, saved).0, b, #[trigger] saved[k]),
        zones_wf(restore_spec(st, b, saved).0.zones.zones, restore_spec(st, b, saved).0.zones.next_id),
        restore_spec(st, b, saved).0.registry == st.registry,
    decreases saved.len(),
{
    if saved.len() > 0 {
        let p = saved.drop_last();
        lemma_restore_settles(st, b, p);
        let s1 = restore_spec(st, b, p).0;
        let c = saved.last();
        assert(c.monitors.len() > 0) by {
            if c.monitors.len() == 0 {
                assert(!zone_covered(s1, b, c.monitors));
                assert(restore_applies(s1, b, c));
            }
        }
        assert forall|k: int| 0 <= k < saved.len() implies settled(restore_spec(st, b, saved).0, b, #[trigger] saved[k]) by {
            if k < p.len() {
                assert(p[k] == saved[k]);
                lemma_step_keeps_settled(s1, b, c, saved[k]);
            } else {
                lemma_step_settles(s1, b, c);
            }
        }
        lemma_step_keeps_settled(s1, b, c, c);
    }
}

/// Restoring when every saved zone is settled changes nothing.
proof fn lemma_settled_noop(st: AppStateView, b: BookView, saved: Seq<ZoneConfigView>)
    requires
        forall|k: int| 0 <= k < saved.len() ==> settled(st, b, #[trigger] saved[k]),
    ensures
        restore_spec(st, b, saved).0 == st,
        restore_spec(st, b, saved).1 == Seq::<EffectView>::empty(),
    decreases saved.len(),
{
    if saved.len() > 0 {
        let p = saved.drop_last();
        assert forall|k: int| 0 <= k < p.len() implies settled(st, b, #[trigger] p[k]) by {
            assert(p[k] == saved[k]);
        }
        lemma_settled_noop(st, b, p);
        assert(settled(st, b, saved[saved.len() - 1]));
        assert(Seq::<EffectView>::empty() + Seq::<EffectView>::empty() =~= Seq::<EffectView>::empty());
    }
}

/// Restoring the saved zones a second time, with the same playback, changes
/// nothing and starts nothing: a restore never replaces a zone it (or
/// anything else) already put in place.
pub proof fn law_restore_twice_is_a_no_op(st: AppStateView, b: BookView, saved: Seq<ZoneConfigView>)
    requires
        zones_wf(st.zones.zones, st.zones.next_id),
        restore_ok(st, b, saved),
    ensures
        restore_spec(restore_spec(st, b, saved).0, b, saved).0 == restore_spec(st, b, saved).0,
        restore_spec(restore_spec(st, b, saved).0, b, saved).1 == Seq::<EffectView>::empty(),
{
    lemma_restore_settles(st, b, saved);
    lemma_settled_noop(restore_spec(st, b, saved).0, b, saved);
}

/// Restoring never writes the config file: none of its effects saves zones.
pub proof fn law_restore_saves_nothing(st: AppStateView, b: BookView, saved: Seq<ZoneConfigView>)
    ensures
        forall|k: int|
            0 <= k < restore_spec(st, b, saved).1.len() ==> !(#[trigger] restore_spec(st, b, saved).1[k] is SaveZones),
    decreases saved.len(),
{
    if saved.len() > 0 {
        let p = saved.drop_last();
        law_restore_saves_nothing(st, b, p);
        let (s1, e1) = restore_spec(st, b, p);
        let e2 = restore_step(s1, b, saved.last()).1;
        let e = restore_spec(st, b, saved).1;
        assert(e == e1 + e2);
        assert forall|k: int| 0 <= k < e.len() implies !(#[trigger] e[k] is SaveZones) by {
            if k < e1.len() {
                assert(e[k] == e1[k]);
            } else {
                assert(e[k] == e2[k - e1.len()]);
            }
        }
    }
}

/// Restoring saved zones leaves every monitor that already shows something
/// as it was: one in a zone keeps that zone and its wallpaper, and one
/// still showing a live zone's playback is given no zone from the file.
pub proof fn law_restore_spares_covered_monitors(st: AppStateView, b: BookView, saved: Seq<ZoneConfigView>, m: Seq<char>)
    requires
        zone_with(st.zones.zones, m) is Some || exists|id: u64|
            #[trigger] b.live.contains_key(id) && b.live[id].monitors.contains(m),
    ensures
        (zone_with(restore_spec(st, b, saved).0.zones.zones, m) is Some) == (zone_with(st.zones.zones, m) is Some),
        path_with(restore_spec(st, b, saved).0.zones.zones, m) == path_with(st.zones.zones, m),
        zone_with(st.zones.zones, m) is Some ==> zone_with(restore_spec(st, b, saved).0.zones.zones, m)->0.id
            == zone_with(st.zones.zones, m)->0.id,
    decreases saved.len(),
{
    if saved.len() > 0 {
        let p = saved.drop_last();
        law_restore_spares_covered_monitors(st, b, p, m);
        let s1 = restore_spec(st, b, p).0;
        let c = saved.last();
        if !(zone_covered(s1, b, c.monitors) || !all_known(s1.registry, c.monitors)) {
            if c.monitors.contains(m) {
                let i = choose|i: int| 0 <= i < c.monitors.len() && c.monitors[i] == m;
                assert(zone_with(s1.zones.zones, c.monitors[i]) is Some || exists|id: u64|
                    #[trigger] b.live.contains_key(id) && b.live[id].monitors.contains(c.monitors[i]));
                assert(false);
            }
            let bbox = union_spec(rects_of(s1.registry, c.monitors));
            crate::zones::law_set_keeps_others(s1.zones, c.monitors, c.path, bbox, m);
        }
    }
}

} // verus!
