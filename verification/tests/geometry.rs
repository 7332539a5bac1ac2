use hyprwall::geometry::{src_rect_for_monitor, union_fits_exec, Rect};
use hyprwall::registry::MonitorRegistry;
use hyprwall::geometry::Monitor;

#[test]
fn union_of_single_rect_is_itself() {
    let r = Rect { x: 0, y: 0, w: 1920, h: 1080 };
    assert_eq!(Rect::union(&[r]), Some(r));
}

#[test]
fn union_of_two_side_by_side_rects() {
    let a = Rect { x: 0, y: 0, w: 1920, h: 1080 };
    let b = Rect { x: 1920, y: 0, w: 1920, h: 1080 };
    assert_eq!(Rect::union(&[a, b]), Some(Rect { x: 0, y: 0, w: 3840, h: 1080 }));
}

#[test]
fn union_of_empty_is_none() {
    assert_eq!(Rect::union(&[]), None);
}

#[test]
fn union_encloses_offset_and_overlapping_rects() {
    let a = Rect { x: -100, y: 50, w: 200, h: 100 };
    let b = Rect { x: 0, y: -20, w: 50, h: 300 };
    assert_eq!(Rect::union(&[a, b]), Some(Rect { x: -100, y: -20, w: 200, h: 300 }));
}

#[test]
fn union_fits_rejects_an_overflowing_edge() {
    let a = Rect { x: i32::MAX - 10, y: 0, w: 20, h: 10 };
    assert!(!union_fits_exec(&[a]));
    let b = Rect { x: i32::MIN, y: 0, w: 10, h: 10 };
    let c = Rect { x: i32::MAX - 10, y: 0, w: 10, h: 10 };
    assert!(!union_fits_exec(&[b, c]), "the bounding box's width would overflow");
    assert!(union_fits_exec(&[Rect { x: 0, y: 0, w: 1920, h: 1080 }]));
    assert!(union_fits_exec(&[]));
}

#[test]
fn side_by_side_same_y_monitors_have_zero_src_y() {
    let bounding_box = Rect { x: 0, y: 0, w: 3840, h: 1080 };
    let left = Rect { x: 0, y: 0, w: 1920, h: 1080 };
    let right = Rect { x: 1920, y: 0, w: 1920, h: 1080 };
    assert_eq!(src_rect_for_monitor(bounding_box, left), (0, 0));
    assert_eq!(src_rect_for_monitor(bounding_box, right), (1920, 0));
}

#[test]
fn vertically_stacked_monitors_sample_opposite_halves() {
    let bounding_box = Rect { x: 0, y: 0, w: 1920, h: 1800 };
    let top = Rect { x: 0, y: 0, w: 1920, h: 1000 };
    let bottom = Rect { x: 0, y: 1000, w: 1920, h: 800 };
    assert_eq!(src_rect_for_monitor(bounding_box, top), (0, 800));
    assert_eq!(src_rect_for_monitor(bounding_box, bottom), (0, 0));
}

#[test]
fn single_monitor_zone_samples_from_origin() {
    let r = Rect { x: 100, y: 200, w: 1920, h: 1080 };
    assert_eq!(src_rect_for_monitor(r, r), (0, 0));
}

#[test]
fn vertically_offset_bounding_box_accounts_for_box_origin() {
    let bounding_box = Rect { x: 0, y: 500, w: 1920, h: 1800 };
    let top = Rect { x: 0, y: 500, w: 1920, h: 1000 };
    let bottom = Rect { x: 0, y: 1500, w: 1920, h: 800 };
    assert_eq!(src_rect_for_monitor(bounding_box, top), (0, 800));
    assert_eq!(src_rect_for_monitor(bounding_box, bottom), (0, 0));
}

fn mon(name: &str, x: i32, w: i32) -> Monitor {
    Monitor { name: name.to_string(), logical: Rect { x, y: 0, w, h: 1080 } }
}

#[test]
fn insert_then_contains() {
    let mut reg = MonitorRegistry::new();
    reg.insert(mon("eDP-1", 0, 1920));
    assert!(reg.contains("eDP-1"));
    assert!(!reg.contains("HDMI-A-1"));
}

#[test]
fn remove_drops_it() {
    let mut reg = MonitorRegistry::new();
    reg.insert(mon("eDP-1", 0, 1920));
    reg.remove("eDP-1");
    assert!(!reg.contains("eDP-1"));
}

#[test]
fn names_are_sorted() {
    let mut reg = MonitorRegistry::new();
    reg.insert(mon("HDMI-A-1", 1920, 1920));
    reg.insert(mon("eDP-1", 0, 1920));
    assert_eq!(reg.names(), vec!["HDMI-A-1".to_string(), "eDP-1".to_string()]);
}

#[test]
fn inserting_a_known_name_replaces_its_rect() {
    let mut reg = MonitorRegistry::new();
    reg.insert(mon("eDP-1", 0, 1920));
    reg.insert(mon("eDP-1", 10, 2560));
    assert_eq!(reg.names(), vec!["eDP-1".to_string()]);
    assert_eq!(reg.get("eDP-1").unwrap().logical, Rect { x: 10, y: 0, w: 2560, h: 1080 });
    let geo = reg.geometry();
    assert_eq!(geo.len(), 1);
    assert_eq!(geo[0].0, "eDP-1");
}

#[test]
fn union_ignores_order_repeats_and_grouping() {
    let a = Rect { x: 0, y: 0, w: 1920, h: 1080 };
    let b = Rect { x: 1920, y: -200, w: 2560, h: 1440 };
    let c = Rect { x: -1080, y: 100, w: 1080, h: 1920 };
    let all = Rect::union(&[a, b, c]);
    assert_eq!(Rect::union(&[c, a, b]), all);
    assert_eq!(Rect::union(&[a, b, b, c, a]), all);
    assert_eq!(Rect::union(&[a]), Some(a));
    assert_eq!(Rect::union(&[a, a]), Some(a));
    let ab = Rect::union(&[a, b]).unwrap();
    let cc = Rect::union(&[c]).unwrap();
    assert_eq!(Rect::union(&[ab, cc]), all);
    assert_eq!(all, Some(Rect { x: -1080, y: -200, w: 5560, h: 2220 }));
}
