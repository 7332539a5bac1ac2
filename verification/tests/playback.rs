use hyprwall::geometry::Rect;
use hyprwall::playback::PlaybackBook;
use hyprwall::zones::ZoneApplyOutcome;

fn outcome(zone_id: u64) -> ZoneApplyOutcome {
    ZoneApplyOutcome { zone_id, bounding_box: Rect { x: 0, y: 0, w: 1920, h: 1080 }, dissolved_zone_ids: Vec::new() }
}

fn retry_all(book: &mut PlaybackBook, ready: bool) {
    for p in book.pending_sets() {
        book.begin_set(&p.outcome, &p.monitors, &p.path, ready);
    }
}

#[test]
fn set_with_no_core_is_recorded_as_pending_not_dropped() {
    let mut book = PlaybackBook::new();
    let plan = book.begin_set(&outcome(1), &["eDP-1".to_string()], "/a.mp4", false);
    assert_eq!(plan.rebuild, None);
    assert_eq!(book.pending_set_count(), 1);
    assert_eq!(book.live_zone_count(), 0);
}

#[test]
fn retrying_while_still_not_ready_is_idempotent() {
    let mut book = PlaybackBook::new();
    book.begin_set(&outcome(1), &["eDP-1".to_string()], "/a.mp4", false);
    assert_eq!(book.pending_set_count(), 1);
    retry_all(&mut book, false);
    retry_all(&mut book, false);
    assert_eq!(book.pending_set_count(), 1);
    assert_eq!(book.live_zone_count(), 0);
}

#[test]
fn dissolving_a_zone_clears_its_pending_set() {
    let mut book = PlaybackBook::new();
    book.begin_set(&outcome(1), &["eDP-1".to_string()], "/a.mp4", false);
    assert_eq!(book.pending_set_count(), 1);
    let mut later = outcome(2);
    later.dissolved_zone_ids.push(1);
    book.begin_set(&later, &["HDMI-A-1".to_string()], "/b.mp4", false);
    assert_eq!(book.pending_set_count(), 1, "zone 2's own Set is now pending in zone 1's place");
    assert_eq!(book.pending_sets()[0].outcome.zone_id, 2);
    assert_eq!(book.live_zone_count(), 0);
}

#[test]
fn teardown_zone_clears_a_pending_set_too() {
    let mut book = PlaybackBook::new();
    book.begin_set(&outcome(1), &["eDP-1".to_string()], "/a.mp4", false);
    assert_eq!(book.pending_set_count(), 1);
    book.teardown_zone(1);
    assert_eq!(book.pending_set_count(), 0);
}

#[test]
fn is_monitor_live_is_false_with_no_zones() {
    let book = PlaybackBook::new();
    assert!(!book.is_monitor_live("eDP-1"));
}

#[test]
fn is_monitor_live_is_false_for_a_merely_pending_set() {
    let mut book = PlaybackBook::new();
    book.begin_set(&outcome(1), &["eDP-1".to_string()], "/a.mp4", false);
    assert_eq!(book.pending_set_count(), 1, "no GL core, so this only records a pending set");
    assert!(!book.is_monitor_live("eDP-1"), "never got real playback resources, so not live");
}

#[test]
fn a_ready_set_builds_once_then_reuses_the_same_frame() {
    let mut book = PlaybackBook::new();
    book.begin_set(&outcome(1), &["eDP-1".to_string()], "/a.mp4", false);
    let plan = book.begin_set(&outcome(1), &["eDP-1".to_string()], "/a.mp4", true);
    assert_eq!(plan.rebuild, Some(true));
    assert_eq!(book.pending_set_count(), 0);
    book.record_started(1, outcome(1).bounding_box, &["eDP-1".to_string()]);
    assert!(book.is_monitor_live("eDP-1"));
    assert_eq!(book.take_wakeups(), vec![1]);
    assert!(book.take_wakeups().is_empty());
    let again = book.begin_set(&outcome(1), &["eDP-1".to_string(), "DP-2".to_string()], "/b.mp4", true);
    assert_eq!(again.rebuild, Some(false), "same bounding box: keep the frame");
    book.update_members(1, &["eDP-1".to_string(), "DP-2".to_string()]);
    assert_eq!(book.members_of(1), Some(vec!["eDP-1".to_string(), "DP-2".to_string()]));
    let mut wider = outcome(1);
    wider.bounding_box = Rect { x: 0, y: 0, w: 3840, h: 1080 };
    assert_eq!(book.begin_set(&wider, &["eDP-1".to_string()], "/b.mp4", true).rebuild, Some(true));
}

#[test]
fn dissolved_live_zones_are_handed_back_for_freeing() {
    let mut book = PlaybackBook::new();
    book.record_started(3, Rect { x: 0, y: 0, w: 1, h: 1 }, &["DP-1".to_string()]);
    let mut o = outcome(4);
    o.dissolved_zone_ids = vec![3, 9];
    let plan = book.begin_set(&o, &["DP-1".to_string()], "/c.mp4", true);
    assert_eq!(plan.destroyed, vec![3], "only zone 3 had playback to free");
    assert_eq!(book.live_zone_ids(), Vec::<u64>::new());
    assert!(!book.is_monitor_live("DP-1"));
}
