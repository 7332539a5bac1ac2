use hyprwall::command::Command;
use hyprwall::daemon::{apply_zone, command_allowed, handle_command, pause_failed, restore_allowed, restore_saved_zones, zones_to_persist, AppState, Effect};
use hyprwall::geometry::{Monitor, Rect};
use hyprwall::playback::PlaybackBook;
use hyprwall::registry::MonitorRegistry;
use hyprwall::response::{MonitorInfo, Response};
use hyprwall::settings::{WallpaperSettings, ZoneConfig};

fn state_with(names: &[&str]) -> AppState {
    let mut registry = MonitorRegistry::new();
    for (i, name) in names.iter().enumerate() {
        registry.insert(Monitor { name: name.to_string(), logical: Rect { x: (i as i32) * 1920, y: 0, w: 1920, h: 1080 } });
    }
    AppState::new(registry, "/tmp/hyprwall-test/config.toml".to_string())
}

fn set(monitors: &[&str], path: &str) -> Command {
    Command::SetZone { monitors: monitors.iter().map(|m| m.to_string()).collect(), path: path.to_string() }
}

fn run(state: &mut AppState, cmd: Command) -> (Response, Vec<Effect>) {
    assert!(command_allowed(state, &cmd));
    handle_command(state, cmd, &[])
}

fn saved_zones(effects: &[Effect]) -> Option<&Vec<ZoneConfig>> {
    effects.iter().rev().find_map(|e| match e {
        Effect::SaveZones { zones } => Some(zones),
        _ => None,
    })
}

#[test]
fn handler_monitor_list_returns_registry_names() {
    let mut state = state_with(&["eDP-1", "HDMI-A-1"]);
    let (resp, effects) = run(&mut state, Command::MonitorList);
    assert_eq!(
        resp,
        Response::MonitorList(vec![
            MonitorInfo { name: "HDMI-A-1".to_string(), x: 1920, y: 0, w: 1920, h: 1080, group: vec![] },
            MonitorInfo { name: "eDP-1".to_string(), x: 0, y: 0, w: 1920, h: 1080, group: vec![] },
        ])
    );
    assert!(effects.is_empty());
}

#[test]
fn monitor_list_reports_solo_zone_group_of_self() {
    let mut state = state_with(&["eDP-1"]);
    run(&mut state, set(&["eDP-1"], "/a.mp4"));
    let (resp, _) = run(&mut state, Command::MonitorList);
    assert_eq!(
        resp,
        Response::MonitorList(vec![MonitorInfo {
            name: "eDP-1".to_string(),
            x: 0,
            y: 0,
            w: 1920,
            h: 1080,
            group: vec!["eDP-1".to_string()],
        }])
    );
}

#[test]
fn monitor_list_reports_shared_group_for_a_multi_monitor_zone() {
    let mut state = state_with(&["eDP-1", "HDMI-A-1"]);
    run(&mut state, set(&["eDP-1", "HDMI-A-1"], "/pano.mp4"));
    let (resp, _) = run(&mut state, Command::MonitorList);
    let Response::MonitorList(infos) = resp else { panic!("expected MonitorList") };
    let expected_group = vec!["HDMI-A-1".to_string(), "eDP-1".to_string()];
    for info in &infos {
        assert_eq!(info.group, expected_group, "monitor {} should list both zone members sorted", info.name);
    }
}

#[test]
fn handler_set_then_get_round_trips() {
    let mut state = state_with(&["eDP-1"]);
    let (set_resp, _) = run(&mut state, set(&["eDP-1"], "/a.mp4"));
    assert_eq!(set_resp, Response::Okay);
    let (get_resp, _) = run(&mut state, Command::Get { monitor: "eDP-1".to_string() });
    assert_eq!(get_resp, Response::Path("/a.mp4".to_string()));
}

#[test]
fn handler_set_unknown_monitor_returns_error() {
    let mut state = state_with(&["eDP-1"]);
    let (resp, effects) = run(&mut state, set(&["eDP-9"], "/a.mp4"));
    assert_eq!(resp, Response::Error("unknown monitor eDP-9".to_string()));
    assert!(effects.is_empty());
}

#[test]
fn handler_get_before_set_returns_error() {
    let mut state = state_with(&["eDP-1"]);
    let (resp, _) = run(&mut state, Command::Get { monitor: "eDP-1".to_string() });
    assert_eq!(resp, Response::Error("no wallpaper set for eDP-1".to_string()));
}

#[test]
fn unset_on_a_monitor_with_no_wallpaper_returns_error() {
    let mut state = state_with(&["eDP-1"]);
    let (resp, _) = run(&mut state, Command::Unset { monitor: "eDP-1".to_string() });
    assert_eq!(resp, Response::Error("no wallpaper set for eDP-1".to_string()));
}

#[test]
fn unset_clears_a_solo_monitors_wallpaper() {
    let mut state = state_with(&["eDP-1"]);
    run(&mut state, set(&["eDP-1"], "/a.mp4"));
    let (resp, _) = run(&mut state, Command::Unset { monitor: "eDP-1".to_string() });
    assert_eq!(resp, Response::Okay);
    let (get_resp, _) = run(&mut state, Command::Get { monitor: "eDP-1".to_string() });
    assert_eq!(get_resp, Response::Error("no wallpaper set for eDP-1".to_string()));
}

#[test]
fn unset_persists_the_removal_to_config_file() {
    let mut state = state_with(&["eDP-1"]);
    run(&mut state, set(&["eDP-1"], "/a.mp4"));
    let (_, effects) = run(&mut state, Command::Unset { monitor: "eDP-1".to_string() });
    let saved = saved_zones(&effects).expect("unset saves the zones");
    assert!(saved.is_empty());
}

#[test]
fn unset_on_one_monitor_of_a_group_clears_the_whole_zones_path_but_keeps_the_group() {
    let mut state = state_with(&["eDP-1", "HDMI-A-1"]);
    run(&mut state, set(&["eDP-1", "HDMI-A-1"], "/pano.mp4"));
    let (resp, _) = run(&mut state, Command::Unset { monitor: "eDP-1".to_string() });
    assert_eq!(resp, Response::Okay);
    let (edp1_get, _) = run(&mut state, Command::Get { monitor: "eDP-1".to_string() });
    assert_eq!(edp1_get, Response::Error("no wallpaper set for eDP-1".to_string()));
    let (hdmi_get, _) = run(&mut state, Command::Get { monitor: "HDMI-A-1".to_string() });
    assert_eq!(hdmi_get, Response::Error("no wallpaper set for HDMI-A-1".to_string()));
    let (Response::MonitorList(infos), _) = run(&mut state, Command::MonitorList) else { panic!("expected MonitorList") };
    let expected_group = vec!["HDMI-A-1".to_string(), "eDP-1".to_string()];
    for info in &infos {
        assert_eq!(info.group, expected_group, "monitor {} should still list both zone members", info.name);
    }
}

#[test]
fn unsetting_every_member_of_a_group_in_turn_does_not_error_on_the_later_members() {
    let mut state = state_with(&["eDP-1", "HDMI-A-1"]);
    run(&mut state, set(&["eDP-1", "HDMI-A-1"], "/pano.mp4"));
    run(&mut state, Command::Unset { monitor: "eDP-1".to_string() });
    let (resp, effects) = run(&mut state, Command::Unset { monitor: "HDMI-A-1".to_string() });
    assert_eq!(resp, Response::Okay);
    assert!(effects.is_empty());
}

#[test]
fn setting_a_wallpaper_again_after_clearing_reforms_the_same_group() {
    let mut state = state_with(&["eDP-1", "HDMI-A-1"]);
    run(&mut state, set(&["eDP-1", "HDMI-A-1"], "/pano.mp4"));
    run(&mut state, Command::Unset { monitor: "eDP-1".to_string() });
    run(&mut state, Command::Unset { monitor: "HDMI-A-1".to_string() });
    run(&mut state, set(&["eDP-1", "HDMI-A-1"], "/new.mp4"));
    assert_eq!(
        state.zones.zone_for_monitor("eDP-1").unwrap().id,
        state.zones.zone_for_monitor("HDMI-A-1").unwrap().id,
        "both members must land back in the same zone"
    );
    assert_eq!(state.zones.path_for_monitor("eDP-1"), Some("/new.mp4"));
    assert_eq!(state.zones.path_for_monitor("HDMI-A-1"), Some("/new.mp4"));
}

#[test]
fn handler_set_persists_to_config_file() {
    let mut state = state_with(&["eDP-1", "HDMI-A-1"]);
    let (_, effects) = run(&mut state, set(&["eDP-1", "HDMI-A-1"], "/pano.mp4"));
    let saved = saved_zones(&effects).expect("set saves the zones");
    assert_eq!(saved.len(), 1);
    assert_eq!(saved[0].path, "/pano.mp4");
    assert_eq!(saved[0].monitors, vec!["eDP-1".to_string(), "HDMI-A-1".to_string()]);
}

#[test]
fn pause_without_set_returns_error() {
    let mut state = state_with(&["eDP-1"]);
    let (resp, _) = run(&mut state, Command::Pause { monitor: "eDP-1".to_string() });
    assert_eq!(resp, Response::Error("no wallpaper set for eDP-1".to_string()));
}

#[test]
fn apply_zone_does_not_persist_to_config_file() {
    let mut state = state_with(&["eDP-1"]);
    let effects = apply_zone(&mut state, &["eDP-1".to_string()], "/a.mp4").unwrap();
    assert!(saved_zones(&effects).is_none(), "apply_zone must not write config.toml");
    assert_eq!(state.zones.path_for_monitor("eDP-1"), Some("/a.mp4"));
}

#[test]
fn pause_after_set_without_gpu_reports_no_active_playback() {
    let mut state = state_with(&["eDP-1"]);
    run(&mut state, set(&["eDP-1"], "/a.mp4"));
    let (resp, effects) = run(&mut state, Command::Pause { monitor: "eDP-1".to_string() });
    assert_eq!(resp, Response::Error("no active playback for eDP-1".to_string()));
    assert!(effects.is_empty());
}

#[test]
fn set_wallpaper_settings_persists_to_config_file() {
    let mut state = state_with(&["eDP-1"]);
    let settings = WallpaperSettings { zoom: "1.5".to_string(), ..WallpaperSettings::default() };
    let (resp, effects) =
        run(&mut state, Command::SetWallpaperSettings { path: "/a.jpg".to_string(), settings: settings.clone() });
    assert_eq!(resp, Response::Okay);
    match &effects[0] {
        Effect::SaveSettings { path, settings: saved } => {
            assert_eq!(path, "/a.jpg");
            assert_eq!(saved, &settings);
        },
        other => panic!("expected SaveSettings, got {other:?}"),
    }
}

#[test]
fn set_wallpaper_settings_preserves_zones_and_library_paths() {
    let mut state = state_with(&["eDP-1"]);
    run(&mut state, set(&["eDP-1"], "/a.mp4"));
    let (_, effects) = run(
        &mut state,
        Command::SetWallpaperSettings { path: "/a.mp4".to_string(), settings: WallpaperSettings::default() },
    );
    assert!(saved_zones(&effects).is_none(), "settings never rewrite the zones");
    assert_eq!(zones_to_persist(&state).len(), 1, "the earlier Set's zone must survive a later SetWallpaperSettings");
    assert!(matches!(effects[1], Effect::ApplySettings { zone_id: 0, .. }));
}

#[test]
fn apply_zone_looks_up_saved_wallpaper_settings_without_erroring() {
    let mut state = state_with(&["eDP-1"]);
    let settings = WallpaperSettings { brightness: "30".to_string(), ..WallpaperSettings::default() };
    run(&mut state, Command::SetWallpaperSettings { path: "/a.jpg".to_string(), settings });
    let effects = apply_zone(&mut state, &["eDP-1".to_string()], "/a.jpg").unwrap();
    assert!(effects.iter().any(|e| matches!(e, Effect::ApplySavedSettings { zone_id: 0, path } if path == "/a.jpg")));
    assert_eq!(state.zones.path_for_monitor("eDP-1"), Some("/a.jpg"));
}

#[test]
fn pause_and_play_toggle_a_live_zone() {
    let mut state = state_with(&["eDP-1"]);
    run(&mut state, set(&["eDP-1"], "/a.mp4"));
    let (resp, effects) = handle_command(&mut state, Command::Pause { monitor: "eDP-1".to_string() }, &[0]);
    assert_eq!(resp, Response::Okay);
    assert!(matches!(effects[..], [Effect::SetPaused { zone_id: 0, paused: true }]));
    let (_, effects) = handle_command(&mut state, Command::Play { monitor: "eDP-1".to_string() }, &[0]);
    assert!(matches!(effects[..], [Effect::SetPaused { zone_id: 0, paused: false }]));
    assert_eq!(pause_failed("boom"), Response::Error("failed to set pause state: boom".to_string()));
}

#[test]
fn set_effects_start_the_zone_then_settings_then_save() {
    let mut state = state_with(&["eDP-1", "HDMI-A-1"]);
    run(&mut state, set(&["eDP-1"], "/a.mp4"));
    let (_, effects) = run(&mut state, set(&["eDP-1", "HDMI-A-1"], "/pano.mp4"));
    assert_eq!(effects.len(), 3);
    match &effects[0] {
        Effect::StartZone { outcome, monitors, path } => {
            assert_eq!(outcome.zone_id, 1);
            assert_eq!(outcome.dissolved_zone_ids, vec![0]);
            assert_eq!(outcome.bounding_box, Rect { x: 0, y: 0, w: 3840, h: 1080 });
            assert_eq!(monitors, &vec!["eDP-1".to_string(), "HDMI-A-1".to_string()]);
            assert_eq!(path, "/pano.mp4");
        },
        other => panic!("expected StartZone, got {other:?}"),
    }
    assert!(matches!(&effects[1], Effect::ApplySavedSettings { zone_id: 1, path } if path == "/pano.mp4"));
}

#[test]
fn unset_of_a_group_clears_every_member_monitor() {
    let mut state = state_with(&["eDP-1", "HDMI-A-1"]);
    run(&mut state, set(&["eDP-1", "HDMI-A-1"], "/pano.mp4"));
    let (_, effects) = run(&mut state, Command::Unset { monitor: "HDMI-A-1".to_string() });
    assert!(matches!(effects[0], Effect::TeardownZone { zone_id: 0 }));
    assert!(matches!(&effects[1], Effect::ClearMonitor { monitor } if monitor == "eDP-1"));
    assert!(matches!(&effects[2], Effect::ClearMonitor { monitor } if monitor == "HDMI-A-1"));
    assert_eq!(saved_zones(&effects).unwrap().len(), 0);
}

#[test]
fn a_set_that_would_overflow_the_bounding_box_is_not_allowed() {
    let mut registry = MonitorRegistry::new();
    registry.insert(Monitor { name: "a".to_string(), logical: Rect { x: i32::MIN, y: 0, w: 10, h: 10 } });
    registry.insert(Monitor { name: "b".to_string(), logical: Rect { x: i32::MAX - 10, y: 0, w: 10, h: 10 } });
    let state = AppState::new(registry, "/tmp/c.toml".to_string());
    assert!(!command_allowed(&state, &set(&["a", "b"], "/x.mp4")));
    assert!(command_allowed(&state, &set(&["a"], "/x.mp4")));
    assert!(command_allowed(&state, &set(&["a", "zzz"], "/x.mp4")), "an unknown monitor is refused by the handler instead");
    assert!(!command_allowed(&state, &Command::SetZone { monitors: vec![], path: "/x.mp4".to_string() }));
}

#[test]
fn restore_brings_back_saved_zones_whose_monitors_are_known() {
    let mut state = state_with(&["eDP-1", "HDMI-A-1"]);
    let saved = vec![
        ZoneConfig { monitors: vec!["eDP-1".to_string(), "HDMI-A-1".to_string()], path: "/pano.mp4".to_string() },
        ZoneConfig { monitors: vec!["DP-9".to_string()], path: "/gone.mp4".to_string() },
    ];
    let book = PlaybackBook::new();
    assert!(restore_allowed(&state, &saved, &book));
    let effects = restore_saved_zones(&mut state, &saved, &book);
    assert_eq!(effects.len(), 2, "one zone started and its settings applied; nothing saved");
    assert!(saved_zones(&effects).is_none());
    assert_eq!(state.zones.path_for_monitor("HDMI-A-1"), Some("/pano.mp4"));
    let again = restore_saved_zones(&mut state, &saved, &book);
    assert!(again.is_empty(), "restoring twice changes nothing");
}

#[test]
fn restore_never_replaces_a_live_or_assigned_monitor() {
    let mut state = state_with(&["eDP-1", "HDMI-A-1"]);
    run(&mut state, set(&["eDP-1"], "/mine.mp4"));
    let saved = vec![
        ZoneConfig { monitors: vec!["eDP-1".to_string()], path: "/old.mp4".to_string() },
        ZoneConfig { monitors: vec!["HDMI-A-1".to_string()], path: "/hdmi.mp4".to_string() },
    ];
    let mut book = PlaybackBook::new();
    book.record_started(7, Rect { x: 0, y: 0, w: 1, h: 1 }, &["HDMI-A-1".to_string()]);
    let effects = restore_saved_zones(&mut state, &saved, &book);
    assert!(effects.is_empty());
    assert_eq!(state.zones.path_for_monitor("eDP-1"), Some("/mine.mp4"));
    assert_eq!(state.zones.path_for_monitor("HDMI-A-1"), None);
}

#[test]
fn restore_refuses_a_saved_zone_without_monitors() {
    let state = state_with(&["eDP-1"]);
    let saved = vec![ZoneConfig { monitors: vec![], path: "/x.mp4".to_string() }];
    assert!(!restore_allowed(&state, &saved, &PlaybackBook::new()));
}

#[test]
fn set_with_an_unknown_member_keeps_existing_zones() {
    let mut state = state_with(&["eDP-1", "HDMI-A-1"]);
    run(&mut state, set(&["eDP-1"], "/a.mp4"));
    let (resp, effects) = run(&mut state, set(&["eDP-1", "DP-7", "HDMI-A-1"], "/b.mp4"));
    assert_eq!(resp, Response::Error("unknown monitor DP-7".to_string()));
    assert!(effects.is_empty());
    let (get_resp, _) = run(&mut state, Command::Get { monitor: "eDP-1".to_string() });
    assert_eq!(get_resp, Response::Path("/a.mp4".to_string()));
    let (get_resp, _) = run(&mut state, Command::Get { monitor: "HDMI-A-1".to_string() });
    assert_eq!(get_resp, Response::Error("no wallpaper set for HDMI-A-1".to_string()));
}

#[test]
fn re_setting_a_group_restarts_the_same_zone() {
    let mut state = state_with(&["eDP-1", "HDMI-A-1"]);
    run(&mut state, set(&["eDP-1", "HDMI-A-1"], "/a.mp4"));
    let (resp, effects) = run(&mut state, set(&["HDMI-A-1", "eDP-1"], "/b.mp4"));
    assert_eq!(resp, Response::Okay);
    match &effects[0] {
        Effect::StartZone { outcome, .. } => {
            assert_eq!(outcome.zone_id, 0);
            assert!(outcome.dissolved_zone_ids.is_empty());
        },
        other => panic!("expected StartZone, got {other:?}"),
    }
    let saved = saved_zones(&effects).unwrap();
    assert_eq!(saved.len(), 1);
    assert_eq!(saved[0].monitors, vec!["eDP-1".to_string(), "HDMI-A-1".to_string()]);
    assert_eq!(saved[0].path, "/b.mp4");
}

#[test]
fn restore_skips_a_covered_zone_without_checking_its_box() {
    let mut registry = MonitorRegistry::new();
    registry.insert(Monitor { name: "a".to_string(), logical: Rect { x: i32::MIN, y: 0, w: 10, h: 10 } });
    registry.insert(Monitor { name: "b".to_string(), logical: Rect { x: i32::MAX - 10, y: 0, w: 10, h: 10 } });
    let mut state = AppState::new(registry, "/tmp/c.toml".to_string());
    let saved = vec![ZoneConfig { monitors: vec!["a".to_string(), "b".to_string()], path: "/x.mp4".to_string() }];
    let book = PlaybackBook::new();
    assert!(!restore_allowed(&state, &saved, &book), "a zone restore would form must fit");
    run(&mut state, set(&["a"], "/mine.mp4"));
    assert!(restore_allowed(&state, &saved, &book), "a zone restore passes over is not looked at");
    assert!(restore_saved_zones(&mut state, &saved, &book).is_empty());
}
