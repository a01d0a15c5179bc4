use ncm_nowplaying::cdp::track_js;
use ncm_nowplaying::lyrics::{empty, TrackPayload};
use ncm_nowplaying::model::{LyricKind, RawState, Snapshot};
use ncm_nowplaying::playback::{
    begin_load, finish_load, go_idle, Event, Fetched, LoadStep, Poller, Update,
};
use serde_json::Value;

const MS: u64 = 1_000_000;

fn raw(id: Value, current: u64) -> RawState {
    RawState {
        current,
        resource_duration: 561,
        track_id: id,
        cache_progress: Value::from("1.0000"),
        quality: Value::from(320u64),
    }
}

fn track(current: u64) -> RawState {
    raw(Value::from("33638483"), current)
}

fn lyrics() -> TrackPayload {
    TrackPayload {
        song: None,
        yrc: None,
        lrc: Some("[00:01.00]a\n[00:05.00]b".to_string()),
        tlyric: None,
    }
}

fn started(at: u64) -> Poller {
    let mut p = Poller::new();
    p.on_state(track(4), Some(lyrics()), at);
    p
}

fn is_default(s: &Snapshot) -> bool {
    !s.playing
        && s.song.is_none()
        && s.lyrics.is_none()
        && (s.current_sec, s.position_ms, s.duration_sec) == (0, 0, 0)
        && s.line_index.is_none()
        && s.quality == Value::Null
        && s.cache_progress == Value::Null
}

fn is_idle(u: &Update) -> bool {
    u.event == Some(Event::Idle) && is_default(&u.snapshot)
}

#[test]
fn track_ids() {
    assert_eq!(raw(Value::from("33638483"), 0).track_id(), "33638483");
    assert_eq!(raw(Value::from(108_965u64), 0).track_id(), "108965");
    assert_eq!(raw(Value::Null, 0).track_id(), "null");
    assert_eq!(raw(Value::from(-3i64), 0).track_id(), "-3");
    assert_eq!(raw(Value::from("a\"b"), 0).track_id(), "a\"b");
    assert_eq!(raw(Value::from(vec![1u64, 2]), 0).track_id(), "[1,2]");
}

#[test]
fn idle_state() {
    assert!(is_default(&Snapshot::default()));
    assert!(is_idle(&go_idle()));
}

#[test]
fn first_poll_is_a_track_change() {
    let mut p = Poller::new();
    assert_eq!(p.track_to_load(&track(106)), Some("33638483".to_string()));
    let u = p.on_state(track(106), Some(lyrics()), 77);
    assert_eq!(u.event, Some(Event::MusicChange));
    assert!(u.snapshot.playing);
    assert_eq!(u.snapshot.current_sec, 106);
    assert_eq!(u.snapshot.position_ms, 106_000);
    assert_eq!(u.snapshot.duration_sec, 561);
    assert_eq!(u.snapshot.line_index, Some(1));
    assert_eq!(u.snapshot.quality, Value::from(320u64));
    assert_eq!(u.snapshot.cache_progress, Value::from("1.0000"));
    let l = u.snapshot.lyrics.unwrap();
    assert_eq!(l.kind, LyricKind::Lrc);
    assert_eq!(l.lines.len(), 2);
    assert_eq!(p.track_to_load(&track(106)), None);
}

#[test]
fn the_second_ticks() {
    let mut p = started(0);
    let u = p.on_state(track(5), None, 1_000 * MS);
    assert_eq!(
        u.event,
        Some(Event::TimeChange {
            playing: true,
            current_sec: 5,
            position_ms: 5_000,
            line_index: Some(1),
        })
    );
    assert_eq!(u.snapshot.position_ms, 5_000);
}

#[test]
fn between_ticks_the_position_moves_on() {
    let mut p = started(10 * MS);
    let u = p.on_state(track(4), None, 10 * MS + 759 * MS + 999_999);
    assert_eq!(u.event, None);
    assert!(u.snapshot.playing);
    assert_eq!(u.snapshot.position_ms, 4_759);
    assert_eq!(u.snapshot.line_index, Some(0));
    let u = p.on_state(track(4), None, 10 * MS + 1_400 * MS);
    assert_eq!(u.snapshot.position_ms, 4_999);
    assert_eq!(p.on_state(track(4), None, 3).snapshot.position_ms, 4_000);
}

#[test]
fn silence_is_a_pause() {
    let mut p = started(0);
    let u = p.on_state(track(4), None, 2_500 * MS);
    assert!(u.snapshot.playing);
    assert_eq!(u.snapshot.position_ms, 4_999);
    let u = p.on_state(track(4), None, 2_500 * MS + 1);
    assert!(!u.snapshot.playing);
    assert_eq!(u.snapshot.position_ms, 4_000);
    assert_eq!(u.event, None);
    let u = p.on_state(track(5), None, 9_000 * MS);
    assert!(u.snapshot.playing);
    assert_eq!(u.snapshot.position_ms, 5_000);
}

#[test]
fn another_track() {
    let mut p = started(0);
    let other = raw(Value::from(7u64), 4);
    assert_eq!(p.track_to_load(&other), Some("7".to_string()));
    let u = p.on_state(other, Some(empty()), 100 * MS);
    assert_eq!(u.event, Some(Event::MusicChange));
    assert_eq!(u.snapshot.position_ms, 4_000);
    assert_eq!(u.snapshot.line_index, None);
    assert_eq!(u.snapshot.lyrics.unwrap().kind, LyricKind::Absent);
}

#[test]
fn the_record_is_cleared_once() {
    let mut p = Poller::new();
    assert!(p.on_nothing().is_none());
    let mut p = started(0);
    assert!(is_idle(&p.on_nothing().unwrap()));
    assert!(p.on_nothing().is_none());
    assert_eq!(p.track_to_load(&track(4)), Some("33638483".to_string()));
}

#[test]
fn polls_that_cannot_be_evaluated() {
    let mut p = started(0);
    let huge = 18_446_744_073_709_551u64;
    assert_eq!(p.position_ms(&track(huge), 0), Some(huge * 1_000));
    assert_eq!(p.position_ms(&track(huge + 1), 0), None);
    assert!(p.try_state(track(huge + 1), None, 0).is_none());
    assert!(p.try_state(track(4), Some(empty()), 0).is_none());
    assert!(p.try_state(raw(Value::from("x"), 4), None, 0).is_none());
    let bad = TrackPayload {
        song: None,
        yrc: None,
        lrc: Some("[307445734561826:00]a".to_string()),
        tlyric: None,
    };
    assert!(p.try_state(raw(Value::from("x"), 4), Some(bad), 0).is_none());
    assert_eq!(p.track_to_load(&track(4)), None);
    let u = p.try_state(track(huge), None, 0).unwrap();
    assert_eq!(u.snapshot.position_ms, huge * 1_000);
    assert!(p.try_state(track(huge), None, 615 * MS).is_some());
    assert!(p.try_state(track(huge), None, 616 * MS).is_none());
}

#[test]
fn a_cached_track_needs_no_request() {
    match begin_load("7", Some(lyrics())) {
        LoadStep::Use(p) => assert_eq!(p.lrc, lyrics().lrc),
        LoadStep::Evaluate(_) => panic!("the cache was hit"),
    }
    match begin_load("7", None) {
        LoadStep::Use(_) => panic!("the cache was missed"),
        LoadStep::Evaluate(script) => assert_eq!(script, track_js("7")),
    }
}

#[test]
fn only_a_payload_is_stored() {
    let l = finish_load(Fetched::Payload(lyrics()));
    assert!(l.store);
    assert_eq!(l.payload.lrc, lyrics().lrc);
    for f in [Fetched::Unreadable, Fetched::Nothing, Fetched::Failed] {
        let l = finish_load(f);
        assert!(!l.store);
        assert!(l.payload.song.is_none() && l.payload.yrc.is_none());
        assert!(l.payload.lrc.is_none() && l.payload.tlyric.is_none());
    }
}

#[test]
fn the_track_is_shown_until_it_changes() {
    let mut p = started(0);
    for (current, now) in [(4, 5 * MS), (5, 900 * MS), (6, 9_000 * MS)] {
        let l = p.on_state(track(current), None, now).snapshot.lyrics.unwrap();
        assert_eq!(l.lines.len(), 2);
        assert_eq!(l.lines[1].text, "b");
    }
}

#[test]
fn the_active_line_moves_on() {
    let mut p = started(0);
    let mut last = None;
    for current in 0..8 {
        let i = p.on_state(track(current), None, current * 1_000 * MS).snapshot.line_index;
        assert!(last <= i);
        last = i;
    }
    assert_eq!(last, Some(1));
}
