use hyprwall::response::{parse_monitor_info_line, parse_response, MonitorInfo, Response};

#[test]
fn ok_round_trips() {
    assert_eq!(parse_response(&Response::Okay.to_wire()), Response::Okay);
}

#[test]
fn error_round_trips() {
    let r = Response::Error("unknown monitor eDP-9".to_string());
    assert_eq!(parse_response(&r.to_wire()), r);
}

#[test]
fn path_round_trips() {
    let r = Response::Path("/home/u/video.mp4".to_string());
    assert_eq!(parse_response(&r.to_wire()), r);
}

#[test]
fn monitor_list_round_trips() {
    let r = Response::MonitorList(vec![
        MonitorInfo {
            name: "eDP-1".to_string(),
            x: 0,
            y: 0,
            w: 1920,
            h: 1080,
            group: vec!["eDP-1".to_string(), "HDMI-A-1".to_string()],
        },
        MonitorInfo {
            name: "HDMI-A-1".to_string(),
            x: 1920,
            y: 0,
            w: 1920,
            h: 1080,
            group: vec!["eDP-1".to_string(), "HDMI-A-1".to_string()],
        },
    ]);
    assert_eq!(parse_response(&r.to_wire()), r);
}

#[test]
fn monitor_info_wire_format_is_name_space_rect_space_group() {
    let r = Response::MonitorList(vec![MonitorInfo {
        name: "eDP-1".to_string(),
        x: 0,
        y: 0,
        w: 1920,
        h: 1080,
        group: vec!["eDP-1".to_string()],
    }]);
    assert_eq!(r.to_wire(), "eDP-1 0,0,1920,1080 eDP-1");
}

#[test]
fn monitor_info_with_empty_group_round_trips_via_placeholder() {
    let r = Response::MonitorList(vec![MonitorInfo {
        name: "eDP-1".to_string(),
        x: 0,
        y: 0,
        w: 1920,
        h: 1080,
        group: vec![],
    }]);
    assert_eq!(r.to_wire(), "eDP-1 0,0,1920,1080 -");
    assert_eq!(parse_response(&r.to_wire()), r);
}

#[test]
fn negative_positions_round_trip() {
    let r = Response::MonitorList(vec![MonitorInfo {
        name: "DP-2".to_string(),
        x: -2560,
        y: -1440,
        w: 2560,
        h: 1440,
        group: vec!["DP-2".to_string()],
    }]);
    assert_eq!(r.to_wire(), "DP-2 -2560,-1440,2560,1440 DP-2");
    assert_eq!(parse_response(&r.to_wire()), r);
}

#[test]
fn crlf_line_endings_are_accepted() {
    let r = parse_response("a 0,0,1,1 -\r\nb 1,0,1,1 b\r\n");
    assert_eq!(
        r,
        Response::MonitorList(vec![
            MonitorInfo { name: "a".to_string(), x: 0, y: 0, w: 1, h: 1, group: vec![] },
            MonitorInfo { name: "b".to_string(), x: 1, y: 0, w: 1, h: 1, group: vec!["b".to_string()] },
        ])
    );
}

#[test]
fn malformed_lines_are_skipped_in_a_list_and_a_single_one_is_a_path() {
    assert_eq!(
        parse_response("garbage\neDP-1 0,0,1920,1080 -"),
        Response::MonitorList(vec![MonitorInfo {
            name: "eDP-1".to_string(),
            x: 0,
            y: 0,
            w: 1920,
            h: 1080,
            group: vec![]
        }])
    );
    assert_eq!(parse_response("/a b/c.mp4"), Response::Path("/a b/c.mp4".to_string()));
    assert_eq!(parse_response("x 1,2,3 y"), Response::Path("x 1,2,3 y".to_string()));
    assert_eq!(parse_monitor_info_line("x 1,2,3,4,5 y"), None);
    assert_eq!(parse_monitor_info_line("x 1,2,3,99999999999 y"), None);
}

#[test]
fn an_error_keeps_its_message_verbatim() {
    assert_eq!(parse_response("error: "), Response::Error(String::new()));
    assert_eq!(parse_response("error: a\nb"), Response::Error("a\nb".to_string()));
}

#[test]
fn a_report_line_without_a_group_reads_as_no_group() {
    assert_eq!(
        parse_response("eDP-1 0,0,1920,1080"),
        Response::MonitorList(vec![MonitorInfo { name: "eDP-1".to_string(), x: 0, y: 0, w: 1920, h: 1080, group: vec![] }])
    );
}
