//! The config file's contents: the saved zones, the library folders, each
//! picture's settings, and the fit a picture gets before it has settings.
use vstd::prelude::*;
use vstd::string::*;
use crate::daemon::copy_strings;
use crate::geometry::Rect;
use crate::order::texts;
use crate::playback::{keyed, keys_unique, lemma_keyed, lemma_keyed_push, lemma_keyed_update};
use crate::settings::{
    FitMode, SettingsView, WallpaperSettings, ZoneConfig, ZoneConfigView, default_settings, zone_config_views,
};
use crate::registry::MonitorRegistry;
use crate::text::str_eq;

verus! {

broadcast use vstd::string::group_string_axioms;

/// The config file's contents; each picture has settings at most once.
#[derive(Debug)]
pub struct Config {
    zones: Vec<ZoneConfig>,
    library_paths: Vec<String>,
    wallpaper_settings: Vec<(String, WallpaperSettings)>,
    default_fit: FitMode,
}

/// The contents as plain values.
pub struct ConfigView {
    pub zones: Seq<ZoneConfigView>,
    pub library_paths: Seq<Seq<char>>,
    pub wallpaper_settings: Map<Seq<char>, SettingsView>,
    pub default_fit: FitMode,
}

pub open spec fn settings_pairs(s: Seq<(String, WallpaperSettings)>) -> Seq<(Seq<char>, SettingsView)> {
    s.map_values(|p: (String, WallpaperSettings)| (p.0@, p.1@))
}

impl View for Config {
    type V = ConfigView;

    closed spec fn view(&self) -> ConfigView {
        ConfigView {
            zones: zone_config_views(self.zones@),
            library_paths: texts(self.library_paths@),
            wallpaper_settings: keyed(settings_pairs(self.wallpaper_settings@)),
            default_fit: self.default_fit,
        }
    }
}

/// The settings a picture is shown with: its saved ones, or the defaults.
pub open spec fn settings_of(c: ConfigView, path: Seq<char>) -> SettingsView {
    if c.wallpaper_settings.contains_key(path) {
        c.wallpaper_settings[path]
    } else {
        default_settings()
    }
}

/// Whether some of `names` is unknown to `reg`: a monitor that is unplugged.
pub open spec fn some_unplugged(reg: Map<Seq<char>, Rect>, names: Seq<Seq<char>>) -> bool {
    exists|i: int| 0 <= i < names.len() && !reg.contains_key(#[trigger] names[i])
}

/// The saved zones naming a monitor unknown to `reg`, in order.
pub open spec fn unplugged_entries(saved: Seq<ZoneConfigView>, reg: Map<Seq<char>, Rect>) -> Seq<ZoneConfigView>
    decreases saved.len(),
{
    if saved.len() == 0 {
        seq![]
    } else if some_unplugged(reg, saved.last().monitors) {
        unplugged_entries(saved.drop_last(), reg).push(saved.last())
    } else {
        unplugged_entries(saved.drop_last(), reg)
    }
}

impl Default for Config {
    /// No zones, no folders, no settings, fit `Cover`.
    fn default() -> (r: Config)
        ensures
            r@.zones == Seq::<ZoneConfigView>::empty(),
            r@.library_paths == Seq::<Seq<char>>::empty(),
            r@.wallpaper_settings == Map::<Seq<char>, SettingsView>::empty(),
            r@.default_fit == FitMode::Cover,
    {
        let r = Config { zones: Vec::new(), library_paths: Vec::new(), wallpaper_settings: Vec::new(), default_fit: FitMode::Cover };
        proof {
            assert(zone_config_views(r.zones@) =~= Seq::<ZoneConfigView>::empty());
            assert(texts(r.library_paths@) =~= Seq::<Seq<char>>::empty());
            assert(settings_pairs(r.wallpaper_settings@) =~= Seq::<(Seq<char>, SettingsView)>::empty());
        }
        r
    }
}

impl Config {
    #[verifier::type_invariant]
    closed spec fn inv(self) -> bool {
        keys_unique(settings_pairs(self.wallpaper_settings@))
    }

    /// A config of these parts; of two settings for one picture, the later
    /// one holds.
    pub fn from_parts(
        zones: Vec<ZoneConfig>,
        library_paths: Vec<String>,
        wallpaper_settings: Vec<(String, WallpaperSettings)>,
        default_fit: FitMode,
    ) -> (r: Config)
        ensures
            r@.zones == zone_config_views(zones@),
            r@.library_paths == texts(library_paths@),
            r@.wallpaper_settings == keyed(settings_pairs(wallpaper_settings@)),
            r@.default_fit == default_fit,
    {
        let mut c = Config { zones, library_paths, wallpaper_settings: Vec::new(), default_fit };
        proof {
            assert(settings_pairs(c.wallpaper_settings@) =~= Seq::<(Seq<char>, SettingsView)>::empty());
        }
        let ghost all = settings_pairs(wallpaper_settings@);
        let mut i: usize = 0;
        while i < wallpaper_settings.len()
            invariant
                i <= wallpaper_settings@.len(),
                all == settings_pairs(wallpaper_settings@),
                c@.zones == zone_config_views(zones@),
                c@.library_paths == texts(library_paths@),
                c@.default_fit == default_fit,
                c@.wallpaper_settings == keyed(all.take(i as int)),
            decreases wallpaper_settings@.len() - i,
        {
            let (p, s) = &wallpaper_settings[i];
            c.set_settings(p.clone(), s.duplicate());
            proof {
                assert(all.take(i + 1int).drop_last() =~= all.take(i as int));
                assert(all.take(i + 1int).last() == (p@, s@));
            }
            i = i + 1;
        }
        proof {
            assert(all.take(wallpaper_settings@.len() as int) =~= all);
        }
        c
    }

    /// The saved zones.
    pub fn zones(&self) -> (r: &Vec<ZoneConfig>)
        ensures
            zone_config_views(r@) == self@.zones,
    {
        &self.zones
    }

    /// The library folders.
    pub fn library_paths(&self) -> (r: &Vec<String>)
        ensures
            texts(r@) == self@.library_paths,
    {
        &self.library_paths
    }

    /// Each picture's saved settings, each picture once.
    pub fn settings_list(&self) -> (r: &Vec<(String, WallpaperSettings)>)
        ensures
            keyed(settings_pairs(r@)) == self@.wallpaper_settings,
            keys_unique(settings_pairs(r@)),
    {
        proof {
            use_type_invariant(self);
        }
        &self.wallpaper_settings
    }

    /// The fit a picture gets before it has settings.
    pub fn default_fit(&self) -> (r: FitMode)
        ensures
            r == self@.default_fit,
    {
        self.default_fit
    }

    /// This config with its zones replaced and everything else kept, as the
    /// daemon saves them.
    pub fn with_zones(self, zones: Vec<ZoneConfig>) -> (r: Config)
        ensures
            r@ == (ConfigView { zones: zone_config_views(zones@), ..self@ }),
    {
        proof {
            use_type_invariant(&self);
        }
        Config {
            zones,
            library_paths: self.library_paths,
            wallpaper_settings: self.wallpaper_settings,
            default_fit: self.default_fit,
        }
    }

    /// This config with its zones rewritten as `zones`, the zones of the
    /// known monitors, followed by each saved zone that names a monitor
    /// unknown to `registry`: an unplugged monitor's entry stays in place,
    /// as it was, for when it is plugged in again. Everything else is kept.
    pub fn with_current_zones(self, zones: Vec<ZoneConfig>, registry: &MonitorRegistry) -> (r: Config)
        ensures
            r@ == (ConfigView {
                zones: zone_config_views(zones@) + unplugged_entries(self@.zones, registry@),
                ..self@
            }),
    {
        proof {
            use_type_invariant(&self);
        }
        let ghost saved = zone_config_views(self.zones@);
        let mut out = zones;
        let ghost start = zone_config_views(out@);
        let mut i: usize = 0;
        while i < self.zones.len()
            invariant
                i <= self.zones@.len(),
                saved == zone_config_views(self.zones@),
                zone_config_views(out@) == start + unplugged_entries(saved.take(i as int), registry@),
            decreases self.zones@.len() - i,
        {
            let entry = &self.zones[i];
            let mut unplugged = false;
            let mut j: usize = 0;
            while j < entry.monitors.len()
                invariant
                    j <= entry.monitors@.len(),
                    !unplugged ==> forall|k: int| 0 <= k < j ==> registry@.contains_key(#[trigger] texts(entry.monitors@)[k]),
                    unplugged ==> some_unplugged(registry@, texts(entry.monitors@)),
                decreases entry.monitors@.len() - j,
            {
                proof {
                    assert(texts(entry.monitors@)[j as int] == entry.monitors@[j as int]@);
                }
                if !registry.contains(entry.monitors[j].as_str()) {
                    unplugged = true;
                }
                j = j + 1;
            }
            proof {
                assert(saved.take(i + 1int).drop_last() =~= saved.take(i as int));
                assert(saved.take(i + 1int).last() == entry@);
            }
            if unplugged {
                let ghost before = out@;
                out.push(ZoneConfig { monitors: copy_strings(entry.monitors.as_slice()), path: entry.path.clone() });
                proof {
                    assert(zone_config_views(out@) =~= zone_config_views(before).push(entry@));
                }
            }
            i = i + 1;
        }
        proof {
            assert(saved.take(self.zones@.len() as int) =~= saved);
        }
        Config {
            zones: out,
            library_paths: self.library_paths,
            wallpaper_settings: self.wallpaper_settings,
            default_fit: self.default_fit,
        }
    }

    /// Position of `path`'s settings, if it has any.
    fn settings_index(&self, path: &str) -> (r: Option<usize>)
        ensures
            match r {
                Some(i) => i < self.wallpaper_settings@.len() && self.wallpaper_settings@[i as int].0@ == path@,
                None => !self@.wallpaper_settings.contains_key(path@),
            },
    {
        proof {
            use_type_invariant(self);
            lemma_keyed(settings_pairs(self.wallpaper_settings@));
        }
        let mut i: usize = 0;
        while i < self.wallpaper_settings.len()
            invariant
                i <= self.wallpaper_settings@.len(),
                forall|j: int| 0 <= j < i ==> self.wallpaper_settings@[j].0@ != path@,
            decreases self.wallpaper_settings@.len() - i,
        {
            if str_eq(self.wallpaper_settings[i].0.as_str(), path) {
                return Some(i);
            }
            i = i + 1;
        }
        proof {
            if self@.wallpaper_settings.contains_key(path@) {
                let ps = settings_pairs(self.wallpaper_settings@);
                let j = choose|j: int| 0 <= j < ps.len() && #[trigger] ps[j].0 == path@;
                assert(ps[j].0 == self.wallpaper_settings@[j].0@);
            }
        }
        None
    }

    /// The settings `path` is shown with: its saved ones, else the defaults.
    pub fn settings_for(&self, path: &str) -> (r: WallpaperSettings)
        ensures
            r@ == settings_of(self@, path@),
    {
        proof {
            use_type_invariant(self);
            lemma_keyed(settings_pairs(self.wallpaper_settings@));
        }
        match self.settings_index(path) {
            Some(i) => {
                proof {
                    let ps = settings_pairs(self.wallpaper_settings@);
                    assert(ps[i as int] == (self.wallpaper_settings@[i as int].0@, self.wallpaper_settings@[i as int].1@));
                    assert(keyed(ps).contains_key(ps[i as int].0));
                    assert(keyed(ps)[ps[i as int].0] == ps[i as int].1);
                }
                self.wallpaper_settings[i].1.duplicate()
            },
            None => WallpaperSettings::default(),
        }
    }

    /// Saves `settings` for `path`, replacing what it had.
    pub fn set_settings(&mut self, path: String, settings: WallpaperSettings)
        ensures
            final(self)@ == (ConfigView {
                wallpaper_settings: old(self)@.wallpaper_settings.insert(path@, settings@),
                ..old(self)@
            }),
    {
        proof {
            use_type_invariant(&*self);
        }
        let ghost pv = (path@, settings@);
        match self.settings_index(path.as_str()) {
            Some(i) => {
                let mut list: Vec<(String, WallpaperSettings)> = Vec::new();
                std::mem::swap(&mut list, &mut self.wallpaper_settings);
                let ghost before = list@;
                list.set(i, (path, settings));
                proof {
                    assert(settings_pairs(list@) =~= settings_pairs(before).update(i as int, (settings_pairs(before)[i as int].0, pv.1)));
                    lemma_keyed_update(settings_pairs(before), i as int, pv.1);
                }
                self.wallpaper_settings = list;
            },
            None => {
                let mut list: Vec<(String, WallpaperSettings)> = Vec::new();
                std::mem::swap(&mut list, &mut self.wallpaper_settings);
                let ghost before = list@;
                list.push((path, settings));
                proof {
                    assert(settings_pairs(list@) =~= settings_pairs(before).push(pv));
                    lemma_keyed_push(settings_pairs(before), pv.0, pv.1);
                }
                self.wallpaper_settings = list;
            },
        }
    }

    /// Replaces the library folders, keeping everything else.
    pub fn set_library_paths(&mut self, folders: Vec<String>)
        ensures
            final(self)@ == (ConfigView { library_paths: texts(folders@), ..old(self)@ }),
    {
        proof {
            use_type_invariant(&*self);
        }
        self.library_paths = folders;
    }

    /// Replaces the default fit, keeping everything else.
    pub fn set_default_fit(&mut self, fit: FitMode)
        ensures
            final(self)@ == (ConfigView { default_fit: fit, ..old(self)@ }),
    {
        proof {
            use_type_invariant(&*self);
        }
        self.default_fit = fit;
    }
}

/// After saving a picture's settings, it is shown with them, and every other
/// picture as before.
pub proof fn law_settings_read_after_write(c: ConfigView, path: Seq<char>, s: SettingsView, other: Seq<char>)
    ensures
        settings_of(ConfigView { wallpaper_settings: c.wallpaper_settings.insert(path, s), ..c }, path) == s,
        other != path ==> settings_of(ConfigView { wallpaper_settings: c.wallpaper_settings.insert(path, s), ..c }, other)
            == settings_of(c, other),
{
}

/// Rewriting the saved zones after a change keeps each zone the change
/// produced and each saved zone that names an unplugged monitor, and
/// nothing else.
pub proof fn law_rewrite_keeps_unplugged_zones(
    saved: Seq<ZoneConfigView>,
    current: Seq<ZoneConfigView>,
    reg: Map<Seq<char>, Rect>,
    e: ZoneConfigView,
)
    ensures
        current.contains(e) ==> (current + unplugged_entries(saved, reg)).contains(e),
        saved.contains(e) && some_unplugged(reg, e.monitors) ==> (current + unplugged_entries(saved, reg)).contains(e),
        (current + unplugged_entries(saved, reg)).contains(e) ==> current.contains(e) || (saved.contains(e)
            && some_unplugged(reg, e.monitors)),
{
    lemma_unplugged_entries(saved, reg, e);
    let all = current + unplugged_entries(saved, reg);
    let u = unplugged_entries(saved, reg);
    if current.contains(e) {
        let i = choose|i: int| 0 <= i < current.len() && current[i] == e;
        assert(all[i] == e);
    }
    if u.contains(e) {
        let i = choose|i: int| 0 <= i < u.len() && u[i] == e;
        assert(all[current.len() + i] == e);
    }
    if all.contains(e) {
        let i = choose|i: int| 0 <= i < all.len() && all[i] == e;
        if i < current.len() {
            assert(current[i] == e);
        } else {
            assert(u[i - current.len()] == e);
        }
    }
}

proof fn lemma_unplugged_entries(saved: Seq<ZoneConfigView>, reg: Map<Seq<char>, Rect>, e: ZoneConfigView)
    ensures
        unplugged_entries(saved, reg).contains(e) <==> saved.contains(e) && some_unplugged(reg, e.monitors),
    decreases saved.len(),
{
    if saved.len() > 0 {
        let p = saved.drop_last();
        lemma_unplugged_entries(p, reg, e);
        let u = unplugged_entries(p, reg);
        assert(saved.contains(e) <==> p.contains(e) || saved.last() == e) by {
            if saved.contains(e) {
                let i = choose|i: int| 0 <= i < saved.len() && saved[i] == e;
                if i < p.len() {
                    assert(p[i] == e);
                }
            }
            if p.contains(e) {
                let i = choose|i: int| 0 <= i < p.len() && p[i] == e;
                assert(saved[i] == e);
            }
        }
        if some_unplugged(reg, saved.last().monitors) {
            assert(u.push(saved.last()).contains(e) <==> u.contains(e) || saved.last() == e) by {
                if u.push(saved.last()).contains(e) {
                    let i = choose|i: int| 0 <= i < u.len() + 1 && u.push(saved.last())[i] == e;
                    if i < u.len() {
                        assert(u[i] == e);
                    }
                }
                if u.contains(e) {
                    let i = choose|i: int| 0 <= i < u.len() && u[i] == e;
                    assert(u.push(saved.last())[i] == e);
                }
                if saved.last() == e {
                    assert(u.push(saved.last())[u.len() as int] == e);
                }
            }
        }
    }
}

} // verus!
