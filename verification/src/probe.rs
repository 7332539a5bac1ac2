//! Probing a media file for an audio track with a headless player: what to
//! do after each event the player reports while the file loads, and whether
//! the track list it then holds has an audio track. The caller waits for
//! the events and reads the track list.
use vstd::prelude::*;
use crate::text::str_eq;

verus! {

/// An event the player reports while a file loads.
pub enum LoadEvent {
    /// The file is open and its track list readable.
    FileLoaded,
    /// The file ended; `decode_error` when it ended because it could not be decoded.
    EndFile { decode_error: bool },
    /// Any other event.
    Other,
    /// Waiting for an event failed with this message.
    EventError(String),
    /// No event came in time.
    TimedOut,
}

/// What to do after an event.
pub enum LoadStep {
    /// Wait for the next event.
    Wait,
    /// Read the track list now.
    Ready,
    /// Give up with this message.
    Failed(String),
}

/// `a` then `b`.
fn concat2(a: &str, b: &str) -> (r: String)
    ensures
        r@ == a@ + b@,
{
    let mut r = String::new();
    r.append(a);
    r.append(b);
    r
}

/// `a` then `b` then `c`.
fn concat3(a: &str, b: &str, c: &str) -> (r: String)
    ensures
        r@ == a@ + b@ + c@,
{
    let mut r = String::new();
    r.append(a);
    r.append(b);
    r.append(c);
    r
}

/// The step after `event` while probing `path`: wait on anything but the
/// file being loaded or ending; a decode error, an event error or a timeout
/// gives up with a message naming `path`.
pub fn load_step(path: &str, event: LoadEvent) -> (r: LoadStep)
    ensures
        match event {
            LoadEvent::FileLoaded => r is Ready,
            LoadEvent::EndFile { decode_error } => if decode_error {
                r matches LoadStep::Failed(m) && m@ == "mpv failed to decode "@ + path@
            } else {
                r is Ready
            },
            LoadEvent::Other => r is Wait,
            LoadEvent::EventError(e) => r matches LoadStep::Failed(m)
                && m@ == "mpv event error while probing "@ + path@ + ": "@ + e@,
            LoadEvent::TimedOut => r matches LoadStep::Failed(m)
                && m@ == "timed out probing "@ + path@ + " for an audio track"@,
        },
{
    match event {
        LoadEvent::FileLoaded => LoadStep::Ready,
        LoadEvent::EndFile { decode_error } => {
            if decode_error {
                LoadStep::Failed(concat2("mpv failed to decode ", path))
            } else {
                LoadStep::Ready
            }
        },
        LoadEvent::Other => LoadStep::Wait,
        LoadEvent::EventError(e) => {
            let head = concat3("mpv event error while probing ", path, ": ");
            LoadStep::Failed(concat2(head.as_str(), e.as_str()))
        },
        LoadEvent::TimedOut => LoadStep::Failed(concat3("timed out probing ", path, " for an audio track")),
    }
}

/// Whether a track list, given as each track's type, holds an audio track.
pub fn has_audio(track_types: &[String]) -> (r: bool)
    ensures
        r == exists|i: int| 0 <= i < track_types@.len() && #[trigger] track_types@[i]@ == "audio"@,
{
    let mut i: usize = 0;
    while i < track_types.len()
        invariant
            i <= track_types@.len(),
            forall|j: int| 0 <= j < i ==> #[trigger] track_types@[j]@ != "audio"@,
        decreases track_types@.len() - i,
    {
        if str_eq(track_types[i].as_str(), "audio") {
            return true;
        }
        i = i + 1;
    }
    false
}

} // verus!
