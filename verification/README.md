# ncm-nowplaying

Real-time playback position and word-level lyrics of NetEase Cloud Music (v3.x,
macOS), over HTTP and WebSocket. The logic is a library verified with
[Verus](https://github.com/verus-lang/verus); a thin program around it does the
I/O.

## Layout

| Path | What it holds |
| --- | --- |
| `src/text.rs` | characters, fields, lines and numbers |
| `src/json.rs` | JSON values of `serde_json`: what the calls into it are taken to do |
| `src/model.rs` | songs, lyrics, the reported state, the snapshot |
| `src/timeline.rs` | sorting lines by time, finding the active one |
| `src/yrc.rs`, `src/lrc.rs` | the two lyric formats |
| `src/lyrics.rs` | the lyrics of a track, with translations |
| `src/playback.rs` | what each poll changes and publishes |
| `src/cdp.rs` | the injected scripts and the DevTools protocol |
| `src/server.rs` | messages, and the course of a WebSocket session |
| `src/cache.rs`, `src/config.rs` | cache files and settings |
| `app/` | the program: sockets, files, the environment |
| `tests/` | tests of the library |

Functions named `law_...` state what holds of the library as a whole.

## What is trusted

`src/json.rs` gives contracts to a few functions of `serde_json`, `src/cdp.rs`
to the `Debug` format of a string, and `src/text.rs` to `String::push`. Each
says in its doc comment what it claims.

## Input that is not accepted

A lyric time stamp whose milliseconds do not fit in 64 bits, or whose fraction
is cut inside a character, and a position that does not fit in 64 bits, are
outside the preconditions of `parse_lrc`, `TrackPayload::into_parts` and
`Poller::on_state`. `try_parse_lrc`, `TrackPayload::is_readable` and
`Poller::try_state` test for them.
