use std::collections::hash_map::DefaultHasher;
use std::hash::{Hash, Hasher};

use hyprwall::gui::{
    average_color, cache_file_name, cache_key, current_path_reply, debug_response, is_video_name, monitor_list_reply,
    monitor_state, ok_or_error, parse_is_enabled, sort_entries, MonitorState, ThemeMode, ThemeState, WallpaperEntry,
};
use hyprwall::response::{parse_response, MonitorInfo, Response};

#[test]
fn parses_enabled() {
    assert_eq!(parse_is_enabled("enabled\n"), Ok(true));
}

#[test]
fn parses_disabled() {
    assert_eq!(parse_is_enabled("disabled\n"), Ok(false));
}

#[test]
fn errors_on_anything_else() {
    let err = parse_is_enabled("not-found\n").unwrap_err();
    assert!(err.contains("not-found"), "got: {err}");
}

#[test]
fn systemctl_answer_is_quoted_in_the_error() {
    assert_eq!(
        parse_is_enabled("  masked \n").unwrap_err(),
        "systemctl reports hyprwalld.socket as \"masked\" -- is hyprwall installed as a package?"
    );
    assert_eq!(parse_is_enabled("\t enabled\r\n"), Ok(true));
    assert!(parse_is_enabled("Enabled").is_err(), "case matters");
}

#[test]
fn replies_to_one_shot_commands() {
    assert_eq!(ok_or_error(Response::Okay), Ok(()));
    assert_eq!(ok_or_error(Response::Error("boom".to_string())), Err("boom".to_string()));
    assert_eq!(
        ok_or_error(Response::Path("/a.mp4".to_string())),
        Err("unexpected response: Path(\"/a.mp4\")".to_string())
    );
}

#[test]
fn debug_text_matches_the_derived_format() {
    let r = Response::MonitorList(vec![MonitorInfo {
        name: "eDP-1".to_string(),
        x: -1,
        y: 0,
        w: 1920,
        h: 1080,
        group: vec!["eDP-1".to_string(), "DP-2".to_string()],
    }]);
    assert_eq!(
        debug_response(&r),
        "MonitorList([MonitorInfo { name: \"eDP-1\", x: -1, y: 0, w: 1920, h: 1080, group: [\"eDP-1\", \"DP-2\"] }])"
    );
    assert_eq!(debug_response(&Response::Okay), "Ok");
    assert_eq!(debug_response(&Response::Error("a\"b".to_string())), "Error(\"a\\\"b\")");
    assert_eq!(debug_response(&Response::MonitorList(vec![])), "MonitorList([])");
}

#[test]
fn monitor_table_rows_from_replies() {
    let infos = monitor_list_reply(Response::MonitorList(vec![MonitorInfo {
        name: "eDP-1".to_string(),
        x: 0,
        y: 0,
        w: 1920,
        h: 1080,
        group: vec![],
    }]))
    .unwrap();
    let path = current_path_reply(Response::Path("/a.mp4".to_string())).unwrap();
    let row = monitor_state(infos.into_iter().next().unwrap(), path);
    assert_eq!(
        row,
        MonitorState { name: "eDP-1".to_string(), x: 0, y: 0, w: 1920, h: 1080, current_path: Some("/a.mp4".to_string()) }
    );
    assert_eq!(current_path_reply(Response::Error("no wallpaper set for eDP-1".to_string())), Ok(None));
    assert_eq!(current_path_reply(Response::Okay), Err("unexpected response to get: Ok".to_string()));
    assert_eq!(
        monitor_list_reply(Response::Path("/x".to_string())).unwrap_err(),
        "unexpected response to monitor list: Path(\"/x\")"
    );
}

#[test]
fn theme_defaults_per_mode() {
    let dark = ThemeMode::Dark.defaults();
    assert_eq!(dark.bg, "#0a0a0a");
    assert_eq!(dark.danger, "#f87171");
    let light = ThemeMode::Light.defaults();
    assert_eq!(light.bg, "#f5f5f5");
    assert_eq!(light.success, "#16a34a");
    assert_eq!(light.accent, dark.accent);
    let state = ThemeState::default();
    assert_eq!(state.mode, ThemeMode::Dark);
    assert_eq!(state.colors, ThemeMode::Dark.defaults());
}

#[test]
fn video_names_by_extension() {
    assert!(is_video_name("b.mp4"));
    assert!(is_video_name("a.webm"));
    assert!(is_video_name("one.mkv"));
    assert!(is_video_name("LOUD.MP4"));
    assert!(is_video_name("kelvin.m\u{212A}v"), "the Kelvin sign lower-cases to k");
    assert!(is_video_name("x.tar.mkv"));
    assert!(!is_video_name("notes.txt"));
    assert!(!is_video_name(".mp4"), "a leading dot is no extension");
    assert!(!is_video_name("mp4"));
    assert!(!is_video_name("a.mp4.txt"));
    assert!(!is_video_name("a."));
}

#[test]
fn library_entries_sort_by_path() {
    let e = |p: &str| WallpaperEntry { path: p.to_string(), thumbnail_path: None };
    let sorted = sort_entries(vec![e("/v/b.mp4"), e("/v/a.webm"), e("/u/z.mkv")]);
    let paths: Vec<&str> = sorted.iter().map(|x| x.path.as_str()).collect();
    assert_eq!(paths, vec!["/u/z.mkv", "/v/a.webm", "/v/b.mp4"]);
}

#[test]
fn thumbnail_names_are_the_path_hash_in_hex() {
    assert_eq!(cache_file_name(255), "00000000000000ff.png");
    assert_eq!(cache_file_name(u64::MAX), "ffffffffffffffff.png");
    let path = "/home/u/Videos/a.mp4";
    let mut hasher = DefaultHasher::new();
    path.hash(&mut hasher);
    assert_eq!(cache_key(path), format!("{:016x}.png", hasher.finish()));
    assert_ne!(cache_key(path), cache_key("/home/u/Videos/b.mp4"));
}

#[test]
fn average_colour_of_packed_pixels() {
    assert_eq!(average_color(&[]), None);
    assert_eq!(average_color(&[0, 0, 0, 255, 255, 255]), Some("#7f7f7f".to_string()));
    assert_eq!(average_color(&[16, 32, 255]), Some("#1020ff".to_string()));
}

#[test]
fn list_monitors_merges_geometry_and_current_path() {
    let infos = monitor_list_reply(parse_response("eDP-1 0,0,1920,1080")).unwrap();
    let mut states = Vec::new();
    for info in infos {
        let current_path = current_path_reply(parse_response("/a.mp4")).unwrap();
        states.push(monitor_state(info, current_path));
    }
    assert_eq!(
        states,
        vec![MonitorState {
            name: "eDP-1".to_string(),
            x: 0,
            y: 0,
            w: 1920,
            h: 1080,
            current_path: Some("/a.mp4".to_string()),
        }]
    );
}

#[test]
fn list_monitors_reports_none_for_unassigned_monitor() {
    let infos = monitor_list_reply(parse_response("eDP-1 0,0,1920,1080")).unwrap();
    let current_path = current_path_reply(parse_response("error: no wallpaper set for eDP-1")).unwrap();
    let state = monitor_state(infos.into_iter().next().unwrap(), current_path);
    assert_eq!(state.current_path, None);
}

#[test]
fn unexpected_replies_quote_plain_text() {
    assert_eq!(ok_or_error(Response::Path("/a b.mp4".to_string())), Err("unexpected response: Path(\"/a b.mp4\")".to_string()));
    let err = parse_is_enabled("not-found\n").unwrap_err();
    assert!(err.contains("not-found"));
    assert_eq!(err, "systemctl reports hyprwalld.socket as \"not-found\" -- is hyprwall installed as a package?");
}
