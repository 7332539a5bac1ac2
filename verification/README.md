# hyprwall

A video wallpaper daemon for wlroots compositors (`hyprwalld`), its control
client (`hyprwallctl`) and the logic of its settings app, with the decisions
written in Verus and proved against their contracts.

## Layout

- `src/` — the verified library:
  - `geometry`: rectangles, a zone's bounding box, the crop each monitor shows.
  - `registry`: the known monitors by name.
  - `zones`: grouping monitors into zones, unplugging, clearing a wallpaper.
  - `text`, `order`: the character-level text and ordering facts the rest uses.
  - `settings`, `command`, `response`: the control socket's wire protocol.
  - `daemon`: what each command does to the state, what it answers, and the
    playback and config-file work it hands back; restoring saved zones.
  - `playback`: which zones play, which `set`s wait for a surface.
  - `activation`: socket activation.
  - `outputs`: monitors from compositor outputs, surface sizes.
  - `config`: the config file's contents — saved zones, library folders,
    each picture's settings, the default fit.
  - `gui`: the settings app's decisions (replies, themes, library, thumbnails).
  - `probe`: probing a file for an audio track, event by event.
- `tests/` — the tests, run against the compiled library.
- `app/` — the I/O around it: `hyprwallctl`, the config file, the socket,
  GL and mpv playback, and the settings app's file and process work.
