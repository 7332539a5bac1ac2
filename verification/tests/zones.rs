use hyprwall::geometry::{Monitor, Rect};
use hyprwall::registry::MonitorRegistry;
use hyprwall::zones::{ClearOutcome, ZoneError, ZoneManager};

fn registry_with(names: &[&str]) -> MonitorRegistry {
    let mut reg = MonitorRegistry::new();
    for (i, name) in names.iter().enumerate() {
        reg.insert(Monitor { name: name.to_string(), logical: Rect { x: (i as i32) * 1920, y: 0, w: 1920, h: 1080 } });
    }
    reg
}

#[test]
fn zone_ids_with_path_finds_a_single_match() {
    let mut zm = ZoneManager::new();
    let registry = registry_with(&["eDP-1"]);
    zm.apply_set(&["eDP-1".to_string()], "/a.jpg".to_string(), &registry).unwrap();
    let zone_id = zm.zone_for_monitor("eDP-1").unwrap().id;
    assert_eq!(zm.zone_ids_with_path("/a.jpg"), vec![zone_id]);
}

#[test]
fn zone_ids_with_path_is_empty_when_nothing_matches() {
    let mut zm = ZoneManager::new();
    let registry = registry_with(&["eDP-1"]);
    zm.apply_set(&["eDP-1".to_string()], "/a.jpg".to_string(), &registry).unwrap();
    assert_eq!(zm.zone_ids_with_path("/other.jpg"), Vec::<u64>::new());
}

#[test]
fn zone_ids_with_path_only_returns_matching_zones() {
    let mut zm = ZoneManager::new();
    let registry = registry_with(&["eDP-1", "HDMI-A-1"]);
    zm.apply_set(&["eDP-1".to_string()], "/a.jpg".to_string(), &registry).unwrap();
    zm.apply_set(&["HDMI-A-1".to_string()], "/b.jpg".to_string(), &registry).unwrap();
    let a_zone_id = zm.zone_for_monitor("eDP-1").unwrap().id;
    assert_eq!(zm.zone_ids_with_path("/a.jpg"), vec![a_zone_id]);
}

#[test]
fn zone_manager_set_single_monitor_forms_zone_of_one() {
    let reg = registry_with(&["eDP-1"]);
    let mut zm = ZoneManager::new();
    let outcome = zm.apply_set(&["eDP-1".to_string()], "/a.mp4".to_string(), &reg).unwrap();
    assert_eq!(outcome.bounding_box, Rect { x: 0, y: 0, w: 1920, h: 1080 });
    assert!(outcome.dissolved_zone_ids.is_empty());
    assert_eq!(zm.path_for_monitor("eDP-1"), Some("/a.mp4"));
}

#[test]
fn zone_manager_set_two_monitors_spans_bounding_box() {
    let reg = registry_with(&["eDP-1", "HDMI-A-1"]);
    let mut zm = ZoneManager::new();
    let outcome =
        zm.apply_set(&["eDP-1".to_string(), "HDMI-A-1".to_string()], "/pano.mp4".to_string(), &reg).unwrap();
    assert_eq!(outcome.bounding_box, Rect { x: 0, y: 0, w: 3840, h: 1080 });
    assert_eq!(zm.zone_for_monitor("eDP-1").unwrap().id, zm.zone_for_monitor("HDMI-A-1").unwrap().id);
}

#[test]
fn zone_manager_re_setting_one_monitor_splits_it_out_of_a_zone() {
    let reg = registry_with(&["eDP-1", "HDMI-A-1"]);
    let mut zm = ZoneManager::new();
    zm.apply_set(&["eDP-1".to_string(), "HDMI-A-1".to_string()], "/pano.mp4".to_string(), &reg).unwrap();
    let outcome = zm.apply_set(&["eDP-1".to_string()], "/solo.mp4".to_string(), &reg).unwrap();
    assert_eq!(zm.path_for_monitor("eDP-1"), Some("/solo.mp4"));
    assert_eq!(zm.path_for_monitor("HDMI-A-1"), Some("/pano.mp4"));
    assert!(outcome.dissolved_zone_ids.is_empty());
}

#[test]
fn zone_manager_re_setting_both_members_alone_dissolves_the_zone() {
    let reg = registry_with(&["eDP-1", "HDMI-A-1"]);
    let mut zm = ZoneManager::new();
    zm.apply_set(&["eDP-1".to_string(), "HDMI-A-1".to_string()], "/pano.mp4".to_string(), &reg).unwrap();
    let zone_id = zm.zone_for_monitor("eDP-1").unwrap().id;
    let outcome = zm.apply_set(&["eDP-1".to_string()], "/solo.mp4".to_string(), &reg).unwrap();
    assert!(outcome.dissolved_zone_ids.is_empty(), "HDMI-A-1 still holds the old zone open");
    let outcome2 = zm.apply_set(&["HDMI-A-1".to_string()], "/other.mp4".to_string(), &reg).unwrap();
    assert_eq!(outcome2.dissolved_zone_ids, vec![zone_id]);
}

#[test]
fn zone_manager_unknown_monitor_is_rejected() {
    let reg = registry_with(&["eDP-1"]);
    let mut zm = ZoneManager::new();
    let err = zm.apply_set(&["eDP-9".to_string()], "/a.mp4".to_string(), &reg).unwrap_err();
    assert_eq!(err, ZoneError::UnknownMonitor("eDP-9".to_string()));
}

#[test]
fn remove_monitor_dissolves_a_single_monitor_zone() {
    let reg = registry_with(&["eDP-1"]);
    let mut zm = ZoneManager::new();
    zm.apply_set(&["eDP-1".to_string()], "/a.mp4".to_string(), &reg).unwrap();
    let zone_id = zm.zone_for_monitor("eDP-1").unwrap().id;
    let dissolved = zm.remove_monitor("eDP-1");
    assert_eq!(dissolved, Some(zone_id));
    assert!(zm.zone_for_monitor("eDP-1").is_none());
}

#[test]
fn remove_monitor_keeps_a_multi_monitor_zone_alive_for_the_rest() {
    let reg = registry_with(&["eDP-1", "HDMI-A-1"]);
    let mut zm = ZoneManager::new();
    zm.apply_set(&["eDP-1".to_string(), "HDMI-A-1".to_string()], "/pano.mp4".to_string(), &reg).unwrap();
    let dissolved = zm.remove_monitor("eDP-1");
    assert_eq!(dissolved, None, "HDMI-A-1 is still in the zone, it should not dissolve");
    assert_eq!(zm.path_for_monitor("HDMI-A-1"), Some("/pano.mp4"));
    assert!(zm.zone_for_monitor("eDP-1").is_none());
}

#[test]
fn remove_monitor_not_in_any_zone_is_a_no_op() {
    let mut zm = ZoneManager::new();
    assert_eq!(zm.remove_monitor("eDP-1"), None);
}

#[test]
fn clear_path_on_unknown_monitor_reports_not_found() {
    let mut zm = ZoneManager::new();
    assert_eq!(zm.clear_path("eDP-1"), ClearOutcome::NotFound);
}

#[test]
fn clear_path_dissolves_a_solo_zone() {
    let reg = registry_with(&["eDP-1"]);
    let mut zm = ZoneManager::new();
    zm.apply_set(&["eDP-1".to_string()], "/a.mp4".to_string(), &reg).unwrap();
    let zone_id = zm.zone_for_monitor("eDP-1").unwrap().id;
    assert_eq!(zm.clear_path("eDP-1"), ClearOutcome::Dissolved { zone_id });
    assert!(zm.zone_for_monitor("eDP-1").is_none());
}

#[test]
fn clear_path_on_a_group_keeps_every_member_but_drops_the_path() {
    let reg = registry_with(&["eDP-1", "HDMI-A-1"]);
    let mut zm = ZoneManager::new();
    zm.apply_set(&["eDP-1".to_string(), "HDMI-A-1".to_string()], "/pano.mp4".to_string(), &reg).unwrap();
    let zone_id = zm.zone_for_monitor("eDP-1").unwrap().id;
    let outcome = zm.clear_path("eDP-1");
    assert_eq!(
        outcome,
        ClearOutcome::Cleared { zone_id, monitors: vec!["eDP-1".to_string(), "HDMI-A-1".to_string()] }
    );
    assert!(zm.path_for_monitor("eDP-1").is_none());
    assert!(zm.path_for_monitor("HDMI-A-1").is_none());
    assert_eq!(zm.zone_for_monitor("eDP-1").unwrap().id, zone_id);
    assert_eq!(zm.zone_for_monitor("HDMI-A-1").unwrap().id, zone_id, "group must survive intact");
}

#[test]
fn clear_path_twice_in_a_row_is_idempotent() {
    let reg = registry_with(&["eDP-1", "HDMI-A-1"]);
    let mut zm = ZoneManager::new();
    zm.apply_set(&["eDP-1".to_string(), "HDMI-A-1".to_string()], "/pano.mp4".to_string(), &reg).unwrap();
    zm.clear_path("eDP-1");
    assert_eq!(zm.clear_path("HDMI-A-1"), ClearOutcome::AlreadyCleared);
}

#[test]
fn set_hands_out_a_fresh_id_each_time() {
    let reg = registry_with(&["eDP-1"]);
    let mut zm = ZoneManager::new();
    let first = zm.apply_set(&["eDP-1".to_string()], "/a.mp4".to_string(), &reg).unwrap();
    let second = zm.apply_set(&["eDP-1".to_string()], "/b.mp4".to_string(), &reg).unwrap();
    assert_eq!(first.zone_id, 0);
    assert_eq!(second.zone_id, 1);
    assert_eq!(second.dissolved_zone_ids, vec![0]);
    assert_eq!(zm.next_zone_id(), 2);
}

#[test]
fn set_reports_the_first_unknown_monitor() {
    let reg = registry_with(&["eDP-1"]);
    let mut zm = ZoneManager::new();
    let err = zm
        .apply_set(&["eDP-1".to_string(), "DP-3".to_string(), "DP-4".to_string()], "/a.mp4".to_string(), &reg)
        .unwrap_err();
    assert_eq!(err, ZoneError::UnknownMonitor("DP-3".to_string()));
    assert_eq!(err.message(), "unknown monitor DP-3");
    assert!(zm.zone_for_monitor("eDP-1").is_none(), "a refused set changes nothing");
}

#[test]
fn unplugging_one_member_keeps_the_others_zone_id() {
    let reg = registry_with(&["eDP-1", "HDMI-A-1", "DP-1"]);
    let mut zm = ZoneManager::new();
    zm.apply_set(&["DP-1".to_string()], "/x.mp4".to_string(), &reg).unwrap();
    let solo = zm.zone_for_monitor("DP-1").unwrap().id;
    zm.apply_set(&["eDP-1".to_string(), "HDMI-A-1".to_string()], "/pano.mp4".to_string(), &reg).unwrap();
    zm.remove_monitor("eDP-1");
    assert_eq!(zm.zone_for_monitor("DP-1").unwrap().id, solo);
    assert_eq!(zm.zone_for_monitor("HDMI-A-1").unwrap().monitors, vec!["HDMI-A-1".to_string()]);
}

#[test]
fn re_setting_the_same_group_keeps_its_zone() {
    let mut zm = ZoneManager::new();
    let registry = registry_with(&["eDP-1", "HDMI-A-1"]);
    let first = zm.apply_set(&["eDP-1".to_string(), "HDMI-A-1".to_string()], "/a.mp4".to_string(), &registry).unwrap();
    let again = zm.apply_set(&["HDMI-A-1".to_string(), "eDP-1".to_string()], "/b.mp4".to_string(), &registry).unwrap();
    assert_eq!(again.zone_id, first.zone_id);
    assert!(again.dissolved_zone_ids.is_empty());
    assert_eq!(again.bounding_box, Rect { x: 0, y: 0, w: 3840, h: 1080 });
    assert_eq!(zm.path_for_monitor("eDP-1"), Some("/b.mp4"));
    assert_eq!(zm.path_for_monitor("HDMI-A-1"), Some("/b.mp4"));
    assert_eq!(zm.next_zone_id(), 1, "no new id was handed out");
    assert_eq!(zm.zone_for_monitor("eDP-1").unwrap().monitors, vec!["eDP-1".to_string(), "HDMI-A-1".to_string()]);
}

#[test]
fn re_setting_a_cleared_group_reforms_it() {
    let mut zm = ZoneManager::new();
    let registry = registry_with(&["eDP-1", "HDMI-A-1"]);
    zm.apply_set(&["eDP-1".to_string(), "HDMI-A-1".to_string()], "/a.mp4".to_string(), &registry).unwrap();
    zm.clear_path("eDP-1");
    assert_eq!(zm.path_for_monitor("HDMI-A-1"), None);
    let again = zm.apply_set(&["eDP-1".to_string(), "HDMI-A-1".to_string()], "/c.mp4".to_string(), &registry).unwrap();
    assert_eq!(again.zone_id, 0);
    assert_eq!(zm.path_for_monitor("HDMI-A-1"), Some("/c.mp4"));
}

#[test]
fn setting_part_of_a_group_forms_a_new_zone() {
    let mut zm = ZoneManager::new();
    let registry = registry_with(&["eDP-1", "HDMI-A-1"]);
    zm.apply_set(&["eDP-1".to_string(), "HDMI-A-1".to_string()], "/a.mp4".to_string(), &registry).unwrap();
    let part = zm.apply_set(&["eDP-1".to_string()], "/d.mp4".to_string(), &registry).unwrap();
    assert_eq!(part.zone_id, 1);
    assert!(part.dissolved_zone_ids.is_empty());
    assert_eq!(zm.zone_for_monitor("HDMI-A-1").unwrap().id, 0);
    assert_eq!(zm.path_for_monitor("HDMI-A-1"), Some("/a.mp4"));
}

#[test]
fn a_repeated_name_is_not_the_same_group() {
    let mut zm = ZoneManager::new();
    let registry = registry_with(&["eDP-1"]);
    zm.apply_set(&["eDP-1".to_string()], "/a.mp4".to_string(), &registry).unwrap();
    let twice = zm.apply_set(&["eDP-1".to_string(), "eDP-1".to_string()], "/b.mp4".to_string(), &registry).unwrap();
    assert_eq!(twice.zone_id, 1);
    assert_eq!(twice.dissolved_zone_ids, vec![0]);
}

#[test]
fn a_zone_lists_each_monitor_once_after_regrouping() {
    let reg = registry_with(&["eDP-1", "HDMI-A-1", "DP-1"]);
    let mut zm = ZoneManager::new();
    zm.apply_set(&["eDP-1".to_string(), "HDMI-A-1".to_string()], "/a.mp4".to_string(), &reg).unwrap();
    zm.apply_set(&["HDMI-A-1".to_string(), "DP-1".to_string()], "/b.mp4".to_string(), &reg).unwrap();
    assert_eq!(zm.zone_for_monitor("eDP-1").unwrap().monitors, vec!["eDP-1".to_string()]);
    assert_eq!(zm.zone_for_monitor("DP-1").unwrap().monitors, vec!["HDMI-A-1".to_string(), "DP-1".to_string()]);
}
