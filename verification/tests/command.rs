use hyprwall::command::{format_wallpaper_settings_blob, parse_command, Command, ParseError};
use hyprwall::settings::{parse_wallpaper_settings_blob, FitMode, WallpaperSettings};

fn settings(values: [&str; 8], fit: FitMode) -> WallpaperSettings {
    WallpaperSettings {
        zoom: values[0].to_string(),
        pan_x: values[1].to_string(),
        pan_y: values[2].to_string(),
        fit,
        volume: values[3].to_string(),
        brightness: values[4].to_string(),
        contrast: values[5].to_string(),
        hue: values[6].to_string(),
        saturation: values[7].to_string(),
    }
}

#[test]
fn parses_wallpaper_settings() {
    let settings = settings(["1.2", "-0.1", "0", "40", "10", "-5", "0", "20"], FitMode::Contain);
    let line = "wallpaper-settings zoom:1.2,pan_x:-0.1,pan_y:0,fit:contain,volume:40,brightness:10,contrast:-5,hue:0,saturation:20 /home/u/Pictures/a photo.jpg";
    assert_eq!(
        parse_command(line),
        Ok(Command::SetWallpaperSettings { path: "/home/u/Pictures/a photo.jpg".to_string(), settings })
    );
}

#[test]
fn rejects_wallpaper_settings_with_unknown_key() {
    let line = "wallpaper-settings zoom:1.0,bogus:1 /a.jpg";
    assert_eq!(parse_command(line), Err(ParseError::InvalidWallpaperSettings));
}

#[test]
fn rejects_wallpaper_settings_missing_path() {
    let line = "wallpaper-settings zoom:1.0";
    assert_eq!(parse_command(line), Err(ParseError::MissingArg { verb: "wallpaper-settings", arg: "path" }));
}

#[test]
fn to_wire_round_trips_wallpaper_settings() {
    let cmd = Command::SetWallpaperSettings { path: "/a.jpg".to_string(), settings: WallpaperSettings::default() };
    assert_eq!(parse_command(&cmd.to_wire()), Ok(cmd));
}

#[test]
fn parses_monitor_list() {
    assert_eq!(parse_command("monitor list"), Ok(Command::MonitorList));
}

#[test]
fn parses_single_monitor_set() {
    assert_eq!(
        parse_command("set eDP-1 /home/u/video.mp4"),
        Ok(Command::SetZone { monitors: vec!["eDP-1".to_string()], path: "/home/u/video.mp4".to_string() })
    );
}

#[test]
fn parses_multi_monitor_set_as_zone() {
    assert_eq!(
        parse_command("set eDP-1,HDMI-A-1 /home/u/pano.mp4"),
        Ok(Command::SetZone {
            monitors: vec!["eDP-1".to_string(), "HDMI-A-1".to_string()],
            path: "/home/u/pano.mp4".to_string()
        })
    );
}

#[test]
fn parses_pause_play_get() {
    assert_eq!(parse_command("pause eDP-1"), Ok(Command::Pause { monitor: "eDP-1".to_string() }));
    assert_eq!(parse_command("play eDP-1"), Ok(Command::Play { monitor: "eDP-1".to_string() }));
    assert_eq!(parse_command("get eDP-1"), Ok(Command::Get { monitor: "eDP-1".to_string() }));
}

#[test]
fn parses_unset() {
    assert_eq!(parse_command("unset eDP-1"), Ok(Command::Unset { monitor: "eDP-1".to_string() }));
}

#[test]
fn rejects_unset_missing_monitor() {
    assert_eq!(parse_command("unset"), Err(ParseError::MissingArg { verb: "unset", arg: "monitor" }));
}

#[test]
fn to_wire_round_trips_unset() {
    let cmd = Command::Unset { monitor: "eDP-1".to_string() };
    assert_eq!(parse_command(&cmd.to_wire()), Ok(cmd));
}

#[test]
fn rejects_empty_line() {
    assert_eq!(parse_command(""), Err(ParseError::Empty));
    assert_eq!(parse_command("   "), Err(ParseError::Empty));
}

#[test]
fn rejects_unknown_verb() {
    assert_eq!(parse_command("frobnicate x"), Err(ParseError::UnknownVerb("frobnicate".to_string())));
}

#[test]
fn rejects_set_missing_path() {
    assert_eq!(parse_command("set eDP-1"), Err(ParseError::MissingArg { verb: "set", arg: "path" }));
}

#[test]
fn rejects_set_empty_monitor_list() {
    assert_eq!(parse_command("set , /x.mp4"), Err(ParseError::EmptyMonitorList));
}

#[test]
fn to_wire_round_trips_set() {
    let cmd = Command::SetZone {
        monitors: vec!["eDP-1".to_string(), "HDMI-A-1".to_string()],
        path: "/x.mp4".to_string(),
    };
    assert_eq!(parse_command(&cmd.to_wire()), Ok(cmd));
}

#[test]
fn wallpaper_settings_default_matches_mpv_neutral_state() {
    let s = WallpaperSettings::default();
    assert_eq!(s.zoom.parse::<f64>().unwrap(), 1.0);
    assert_eq!(s.pan_x.parse::<f64>().unwrap(), 0.0);
    assert_eq!(s.pan_y.parse::<f64>().unwrap(), 0.0);
    assert_eq!(s.fit, FitMode::Cover);
    assert_eq!(s.volume.parse::<f64>().unwrap(), 0.0);
    assert_eq!(s.brightness.parse::<f64>().unwrap(), 0.0);
    assert_eq!(s.contrast.parse::<f64>().unwrap(), 0.0);
    assert_eq!(s.hue.parse::<f64>().unwrap(), 0.0);
    assert_eq!(s.saturation.parse::<f64>().unwrap(), 0.0);
}

#[test]
fn monitor_with_trailing_words_is_an_unknown_verb() {
    assert_eq!(parse_command("monitor foo"), Err(ParseError::UnknownVerb("monitor foo".to_string())));
    assert_eq!(parse_command("monitor"), Err(ParseError::UnknownVerb("monitor ".to_string())));
}

#[test]
fn set_trims_monitor_names_and_drops_empty_ones() {
    assert_eq!(
        parse_command("  set eDP-1,,HDMI-A-1,  /a b.mp4  "),
        Ok(Command::SetZone {
            monitors: vec!["eDP-1".to_string(), "HDMI-A-1".to_string()],
            path: "/a b.mp4".to_string()
        })
    );
}

#[test]
fn parse_error_messages_read_as_the_daemon_sends_them() {
    assert_eq!(ParseError::Empty.message(), "empty command");
    assert_eq!(ParseError::UnknownVerb("x".to_string()).message(), "unknown command: x");
    assert_eq!(ParseError::MissingArg { verb: "set", arg: "path" }.message(), "set requires <path>");
    assert_eq!(ParseError::EmptyMonitorList.message(), "monitor list is empty");
    assert_eq!(ParseError::InvalidWallpaperSettings.message(), "invalid wallpaper-settings value");
}

#[test]
fn settings_blob_is_written_in_a_fixed_key_order() {
    let s = settings(["1.5", "0", "-0.25", "40", "10", "-5", "0", "20"], FitMode::Stretch);
    assert_eq!(
        format_wallpaper_settings_blob(&s),
        "zoom:1.5,pan_x:0,pan_y:-0.25,fit:stretch,volume:40,brightness:10,contrast:-5,hue:0,saturation:20"
    );
    assert_eq!(parse_wallpaper_settings_blob(&format_wallpaper_settings_blob(&s)), Some(s));
}

#[test]
fn settings_blob_accepts_partial_and_float_forms() {
    let parsed = parse_wallpaper_settings_blob("brightness:2e1,zoom:+.5").unwrap();
    assert_eq!(parsed.brightness, "2e1");
    assert_eq!(parsed.zoom, "+.5");
    assert_eq!(parsed.fit, FitMode::Cover);
    assert_eq!(parse_wallpaper_settings_blob("zoom:inf"), Some(WallpaperSettings { zoom: "inf".to_string(), ..WallpaperSettings::default() }));
    assert_eq!(parse_wallpaper_settings_blob("zoom:"), None);
    assert_eq!(parse_wallpaper_settings_blob("fit:wide"), None);
    assert_eq!(parse_wallpaper_settings_blob("zoom"), None);
    assert_eq!(parse_wallpaper_settings_blob(""), None);
}

#[test]
fn surrounding_whitespace_does_not_change_a_command() {
    assert_eq!(parse_command("  set eDP-1 /a.mp4 \n"), parse_command("set eDP-1 /a.mp4"));
    assert_eq!(parse_command("\tget eDP-1  "), parse_command("get eDP-1"));
    assert_eq!(parse_command("   "), Err(ParseError::Empty));
    assert_eq!(parse_command(""), Err(ParseError::Empty));
}
