use hyprwall::command::Command;
use hyprwall::config::Config;
use hyprwall::daemon::{command_allowed, handle_command, AppState, Effect};
use hyprwall::geometry::{Monitor, Rect};
use hyprwall::registry::MonitorRegistry;
use hyprwall::settings::{FitMode, WallpaperSettings, ZoneConfig};

fn one_zone() -> Config {
    let mut cfg = Config::default();
    let zones = vec![ZoneConfig { monitors: vec!["eDP-1".to_string()], path: "/a.mp4".to_string() }];
    cfg = cfg.with_zones(zones);
    cfg
}

#[test]
fn get_on_missing_file_returns_empty() {
    assert_eq!(Config::default().library_paths(), &Vec::<String>::new());
}

#[test]
fn set_then_get_round_trips_without_touching_zones() {
    let mut cfg = one_zone();
    cfg.set_library_paths(vec!["/home/u/Videos".to_string()]);
    assert_eq!(cfg.library_paths(), &vec!["/home/u/Videos".to_string()]);
    assert_eq!(cfg.zones().len(), 1, "zones set by hyprwalld must survive a GUI-side folder update");
}

#[test]
fn default_fit_defaults_to_cover_on_a_missing_file() {
    assert_eq!(Config::default().default_fit(), FitMode::Cover);
}

#[test]
fn set_default_fit_mode_round_trips_and_preserves_zones() {
    let mut cfg = one_zone();
    cfg.set_default_fit(FitMode::Stretch);
    assert_eq!(cfg.default_fit(), FitMode::Stretch);
    assert_eq!(cfg.zones().len(), 1, "zones set by hyprwalld must survive a GUI-side default-fit update");
}

#[test]
fn get_on_missing_config_returns_default() {
    assert_eq!(Config::default().settings_for("/a.jpg"), WallpaperSettings::default());
}

#[test]
fn get_returns_a_saved_entry() {
    let mut cfg = Config::default();
    let settings = WallpaperSettings { zoom: "1.4".to_string(), ..WallpaperSettings::default() };
    cfg.set_settings("/a.jpg".to_string(), settings.clone());
    assert_eq!(cfg.settings_for("/a.jpg"), settings);
}

#[test]
fn set_preserves_library_paths_written_by_the_gui() {
    let mut registry = MonitorRegistry::new();
    registry.insert(Monitor { name: "eDP-1".to_string(), logical: Rect { x: 0, y: 0, w: 1920, h: 1080 } });
    let mut state = AppState::new(registry, "/tmp/hyprwall-test/config.toml".to_string());

    let mut cfg = Config::default();
    cfg.set_library_paths(vec!["/home/u/Videos".to_string()]);

    let cmd = Command::SetZone { monitors: vec!["eDP-1".to_string()], path: "/a.mp4".to_string() };
    assert!(command_allowed(&state, &cmd));
    let (_, effects) = handle_command(&mut state, cmd, &[]);
    let zones = effects
        .into_iter()
        .find_map(|e| match e {
            Effect::SaveZones { zones } => Some(zones),
            _ => None,
        })
        .expect("set saves the zones");
    let loaded = cfg.with_zones(zones);
    assert_eq!(loaded.library_paths(), &vec!["/home/u/Videos".to_string()]);
    assert_eq!(loaded.zones().len(), 1, "the zone save itself should still have happened");
}

#[test]
fn saving_settings_twice_keeps_only_the_later() {
    let mut cfg = Config::default();
    cfg.set_settings("/a.jpg".to_string(), WallpaperSettings { zoom: "2".to_string(), ..WallpaperSettings::default() });
    cfg.set_settings("/a.jpg".to_string(), WallpaperSettings { hue: "5".to_string(), ..WallpaperSettings::default() });
    assert_eq!(cfg.settings_list().len(), 1);
    assert_eq!(cfg.settings_for("/a.jpg"), WallpaperSettings { hue: "5".to_string(), ..WallpaperSettings::default() });
}

#[test]
fn settings_of_one_picture_leave_the_others_alone() {
    let mut cfg = Config::default();
    cfg.set_settings("/a.jpg".to_string(), WallpaperSettings { zoom: "2".to_string(), ..WallpaperSettings::default() });
    cfg.set_settings("/b.jpg".to_string(), WallpaperSettings { volume: "40".to_string(), ..WallpaperSettings::default() });
    assert_eq!(cfg.settings_for("/a.jpg").zoom, "2");
    assert_eq!(cfg.settings_for("/b.jpg").volume, "40");
    assert_eq!(cfg.settings_for("/c.jpg"), WallpaperSettings::default());
}

#[test]
fn from_parts_lets_the_later_duplicate_win() {
    let cfg = Config::from_parts(
        vec![],
        vec!["/v".to_string()],
        vec![
            ("/a.jpg".to_string(), WallpaperSettings { zoom: "2".to_string(), ..WallpaperSettings::default() }),
            ("/a.jpg".to_string(), WallpaperSettings { zoom: "3".to_string(), ..WallpaperSettings::default() }),
        ],
        FitMode::Contain,
    );
    assert_eq!(cfg.settings_list().len(), 1);
    assert_eq!(cfg.settings_for("/a.jpg").zoom, "3");
    assert_eq!(cfg.default_fit(), FitMode::Contain);
    assert_eq!(cfg.library_paths(), &vec!["/v".to_string()]);
}

#[test]
fn with_zones_keeps_settings_folders_and_fit() {
    let mut cfg = Config::default();
    cfg.set_settings("/a.jpg".to_string(), WallpaperSettings { zoom: "2".to_string(), ..WallpaperSettings::default() });
    cfg.set_library_paths(vec!["/v".to_string()]);
    cfg.set_default_fit(FitMode::Contain);
    let cfg = cfg.with_zones(vec![ZoneConfig { monitors: vec!["DP-1".to_string()], path: "/x.mp4".to_string() }]);
    assert_eq!(cfg.zones()[0].path, "/x.mp4");
    assert_eq!(cfg.settings_for("/a.jpg").zoom, "2");
    assert_eq!(cfg.library_paths(), &vec!["/v".to_string()]);
    assert_eq!(cfg.default_fit(), FitMode::Contain);
}

#[test]
fn set_keeps_the_saved_zone_of_an_unplugged_monitor() {
    let mut registry = MonitorRegistry::new();
    registry.insert(Monitor { name: "Y".to_string(), logical: Rect { x: 0, y: 0, w: 1920, h: 1080 } });
    let mut state = AppState::new(registry, "/tmp/hyprwall-test/config.toml".to_string());
    let cfg = Config::default()
        .with_zones(vec![ZoneConfig { monitors: vec!["X".to_string()], path: "/p.mp4".to_string() }]);

    let cmd = Command::SetZone { monitors: vec!["Y".to_string()], path: "/q.mp4".to_string() };
    assert!(command_allowed(&state, &cmd));
    let (resp, effects) = handle_command(&mut state, cmd, &[]);
    assert_eq!(resp, hyprwall::response::Response::Okay);
    let zones = effects
        .into_iter()
        .find_map(|e| match e {
            Effect::SaveZones { zones } => Some(zones),
            _ => None,
        })
        .expect("set saves the zones");
    let written = cfg.with_current_zones(zones, &state.registry);
    assert_eq!(
        written.zones(),
        &vec![
            ZoneConfig { monitors: vec!["Y".to_string()], path: "/q.mp4".to_string() },
            ZoneConfig { monitors: vec!["X".to_string()], path: "/p.mp4".to_string() },
        ]
    );
}

#[test]
fn rewriting_keeps_a_saved_group_with_an_unplugged_member() {
    let mut registry = MonitorRegistry::new();
    registry.insert(Monitor { name: "Y".to_string(), logical: Rect { x: 0, y: 0, w: 1920, h: 1080 } });
    let cfg = Config::default().with_zones(vec![
        ZoneConfig { monitors: vec!["Y".to_string()], path: "/old.mp4".to_string() },
        ZoneConfig { monitors: vec!["X".to_string(), "Y".to_string()], path: "/both.mp4".to_string() },
    ]);
    let written = cfg.with_current_zones(vec![], &registry);
    assert_eq!(
        written.zones(),
        &vec![ZoneConfig { monitors: vec!["X".to_string(), "Y".to_string()], path: "/both.mp4".to_string() }],
        "the entry of a known monitor alone is rewritten; the group with an unplugged member stays"
    );
}
