use hyprwall::geometry::Rect;
use hyprwall::outputs::{monitor_from_output, surface_size};

#[test]
fn an_output_needs_a_name_and_a_size() {
    let m = monitor_from_output(Some("DP-1".to_string()), Some((2560, 1440)), Some((1920, 0))).unwrap();
    assert_eq!(m.name, "DP-1");
    assert_eq!(m.logical, Rect { x: 1920, y: 0, w: 2560, h: 1440 });
    let origin = monitor_from_output(Some("DP-2".to_string()), Some((800, 600)), None).unwrap();
    assert_eq!(origin.logical, Rect { x: 0, y: 0, w: 800, h: 600 });
    assert!(monitor_from_output(None, Some((1, 1)), None).is_none());
    assert!(monitor_from_output(Some("X".to_string()), None, Some((0, 0))).is_none());
}

#[test]
fn surface_size_prefers_the_configured_size() {
    let known = Some(Rect { x: 0, y: 0, w: 1920, h: 1080 });
    assert_eq!(surface_size((2560, 1440), known), Some((2560, 1440)));
    assert_eq!(surface_size((0, 1440), known), Some((1920, 1080)));
    assert_eq!(surface_size((0, 0), None), None);
}
