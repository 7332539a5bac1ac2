use hyprwall::probe::{has_audio, load_step, LoadEvent, LoadStep};

fn failed(step: LoadStep) -> String {
    match step {
        LoadStep::Failed(m) => m,
        _ => panic!("expected a failure"),
    }
}

#[test]
fn loaded_file_is_ready() {
    assert!(matches!(load_step("/a.mp4", LoadEvent::FileLoaded), LoadStep::Ready));
}

#[test]
fn clean_end_is_ready_and_other_events_wait() {
    assert!(matches!(load_step("/a.mp4", LoadEvent::EndFile { decode_error: false }), LoadStep::Ready));
    assert!(matches!(load_step("/a.mp4", LoadEvent::Other), LoadStep::Wait));
}

#[test]
fn decode_error_names_the_file() {
    assert_eq!(failed(load_step("/a.mp4", LoadEvent::EndFile { decode_error: true })), "mpv failed to decode /a.mp4");
}

#[test]
fn event_error_and_timeout_messages() {
    assert_eq!(
        failed(load_step("/a.mp4", LoadEvent::EventError("boom".to_string()))),
        "mpv event error while probing /a.mp4: boom"
    );
    assert_eq!(failed(load_step("/a.mp4", LoadEvent::TimedOut)), "timed out probing /a.mp4 for an audio track");
}

#[test]
fn audio_track_is_found_anywhere_in_the_list() {
    assert!(has_audio(&["video".to_string(), "audio".to_string()]));
    assert!(!has_audio(&["video".to_string(), "sub".to_string()]));
    assert!(!has_audio(&[]));
    assert!(!has_audio(&["Audio".to_string()]));
}
