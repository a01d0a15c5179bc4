//! What each poll of the client changes: the track, the position, and what is
//! told to those who listen.
//!
//! The client only reports whole seconds. The poller remembers the reading of a
//! monotonic clock, in nanoseconds, at each tick, and interpolates a millisecond
//! position between them.

use vstd::prelude::*;

use crate::cdp;
use crate::lyrics;
use crate::lyrics::{TrackPayload, TrackPayloadView};
use crate::model;
use crate::model::{
    Lyrics, LyricsView, RawState, RawStateView, Snapshot, SnapshotView, Song, SongView,
};
use crate::timeline;

verus! {

/// Without a tick for more than this long, playback counts as paused.
pub const PAUSE_NS: u64 = 2_500_000_000;

/// What is told to those who listen.
#[derive(Debug, Clone, Copy, PartialEq, Eq, Structural)]
pub enum Event {
    /// The track changed.
    MusicChange,
    /// The second ticked.
    TimeChange { playing: bool, current_sec: u64, position_ms: u64, line_index: Option<usize> },
    /// The app quit, or the play record was cleared.
    Idle,
}

/// A new snapshot, and the event that goes with it.
#[derive(Debug)]
pub struct Update {
    pub snapshot: Snapshot,
    pub event: Option<Event>,
}

/// The view of an [`Update`].
#[verifier::ext_equal]
pub struct UpdateView {
    pub snapshot: SnapshotView,
    pub event: Option<Event>,
}

impl View for Update {
    type V = UpdateView;

    open spec fn view(&self) -> UpdateView {
        UpdateView { snapshot: self.snapshot@, event: self.event }
    }
}

/// The view of an optional payload.
pub open spec fn payload_view(p: Option<TrackPayload>) -> Option<TrackPayloadView> {
    match p {
        Some(x) => Some(x@),
        None => None,
    }
}

/// What is known of the track that is playing.
#[derive(Debug)]
pub struct Poller {
    track_id: Option<String>,
    song: Option<Song>,
    lyrics: Option<Lyrics>,
    anchor: Option<(u64, u64)>,
}

/// The view of a [`Poller`].
#[verifier::ext_equal]
pub struct PollerView {
    pub track_id: Option<Seq<char>>,
    pub song: Option<SongView>,
    pub lyrics: Option<LyricsView>,
    /// The second of the latest tick, and the reading of the clock then.
    pub anchor: Option<(u64, u64)>,
}

impl View for Poller {
    type V = PollerView;

    closed spec fn view(&self) -> PollerView {
        PollerView {
            track_id: model::text_view(self.track_id),
            song: model::song_view(self.song),
            lyrics: model::lyrics_view(self.lyrics),
            anchor: self.anchor,
        }
    }
}

/// The state of a poller that has seen no track.
pub open spec fn no_track() -> PollerView {
    PollerView { track_id: None, song: None, lyrics: None, anchor: None }
}

impl PollerView {
    /// Lyrics are in the order of their time. Without a track there is nothing
    /// else; with one there are lyrics, though they may have no lines.
    pub open spec fn wf(self) -> bool {
        &&& self.track_id is None ==> self == no_track()
        &&& self.track_id is Some ==> self.lyrics is Some
        &&& self.lyrics matches Some(l) ==> timeline::ordered(l.lines)
    }

    /// Whether the client plays another track than before.
    pub open spec fn changes(self, raw: RawStateView) -> bool {
        self.track_id != Some(model::id_text(raw.track_id))
    }

    /// Whether the second ticked. The first poll of a track counts.
    pub open spec fn ticks(self, raw: RawStateView) -> bool {
        self.changes(raw) || match self.anchor {
            Some((second, _)) => second != raw.current,
            None => true,
        }
    }

    /// How long ago the second ticked, in nanoseconds.
    pub open spec fn since_tick(self, raw: RawStateView, now: u64) -> int {
        if self.ticks(raw) {
            0
        } else {
            match self.anchor {
                Some((_, at)) => if at < now {
                    now - at
                } else {
                    0
                },
                None => 0,
            }
        }
    }

    /// Whether the position is advancing.
    pub open spec fn plays(self, raw: RawStateView, now: u64) -> bool {
        self.since_tick(raw, now) <= PAUSE_NS
    }

    /// The position in milliseconds. Between ticks it moves on within the
    /// second while the track plays.
    pub open spec fn position(self, raw: RawStateView, now: u64) -> int {
        raw.current * 1000 + if self.plays(raw, now) {
            let ms = self.since_tick(raw, now) / 1_000_000;
            if ms < 999 {
                ms
            } else {
                999
            }
        } else {
            0
        }
    }

    /// Whether a poll can be evaluated: something was loaded exactly if the
    /// track changed, its lyrics can be evaluated, and the position fits in 64
    /// bits.
    pub open spec fn accepts(
        self,
        raw: RawStateView,
        loaded: Option<TrackPayloadView>,
        now: u64,
    ) -> bool {
        &&& loaded is Some <==> self.changes(raw)
        &&& loaded matches Some(payload) ==> lyrics::lyrics_of(payload) is Some
        &&& self.position(raw, now) <= u64::MAX
    }

    /// The state after a poll. `loaded` is what was loaded for a new track.
    pub open spec fn next(
        self,
        raw: RawStateView,
        loaded: Option<TrackPayloadView>,
        now: u64,
    ) -> PollerView {
        let anchor = if self.ticks(raw) {
            Some((raw.current, now))
        } else {
            self.anchor
        };
        match loaded {
            Some(payload) => PollerView {
                track_id: Some(model::id_text(raw.track_id)),
                song: payload.song,
                lyrics: lyrics::lyrics_of(payload),
                anchor,
            },
            None => PollerView { anchor, ..self },
        }
    }

    /// The active lyric line at a position.
    pub open spec fn line_index(self, position_ms: u64) -> Option<usize> {
        match self.lyrics {
            Some(l) => timeline::active_line(l.lines, position_ms),
            None => None,
        }
    }

    /// What a poll publishes: a snapshot of the next state, and an event if the
    /// track changed or the second ticked.
    pub open spec fn update(
        self,
        raw: RawStateView,
        loaded: Option<TrackPayloadView>,
        now: u64,
    ) -> UpdateView {
        let next = self.next(raw, loaded, now);
        let playing = self.plays(raw, now);
        let position_ms = self.position(raw, now) as u64;
        let line_index = next.line_index(position_ms);
        UpdateView {
            snapshot: SnapshotView {
                playing,
                song: next.song,
                lyrics: next.lyrics,
                current_sec: raw.current,
                position_ms,
                duration_sec: raw.resource_duration,
                line_index,
                quality: raw.quality,
                cache_progress: raw.cache_progress,
            },
            event: if self.changes(raw) {
                Some(Event::MusicChange)
            } else if self.ticks(raw) {
                Some(
                    Event::TimeChange { playing, current_sec: raw.current, position_ms, line_index },
                )
            } else {
                None
            },
        }
    }
}

/// What is published when nothing plays any more.
pub open spec fn idle() -> UpdateView {
    UpdateView { snapshot: model::idle_snapshot(), event: Some(Event::Idle) }
}

/// The update for when nothing plays any more: the app quit, or the play record
/// was cleared.
pub fn go_idle() -> (r: Update)
    ensures
        r@ == idle(),
{
    Update { snapshot: Snapshot::default(), event: Some(Event::Idle) }
}

impl Poller {
    /// A poller that has seen no track.
    pub fn new() -> (r: Poller)
        ensures
            r@ == no_track(),
            r@.wf(),
    {
        Poller { track_id: None, song: None, lyrics: None, anchor: None }
    }

    /// Takes note that the client has no play record: nothing has ever been
    /// played, or the record was cleared. Gives the update to publish if a track
    /// was known until now.
    pub fn on_nothing(&mut self) -> (r: Option<Update>)
        requires
            old(self)@.wf(),
        ensures
            final(self)@ == no_track(),
            match r {
                Some(u) => old(self)@.track_id is Some && u@ == idle(),
                None => old(self)@.track_id is None,
            },
    {
        if self.track_id.is_some() {
            self.track_id = None;
            self.song = None;
            self.lyrics = None;
            self.anchor = None;
            Some(go_idle())
        } else {
            None
        }
    }

    /// The id of the track to load, if the client plays another track than
    /// before.
    pub fn track_to_load(&self, raw: &RawState) -> (r: Option<String>)
        ensures
            match r {
                Some(id) => self@.changes(raw@) && id@ == model::id_text(raw@.track_id),
                None => !self@.changes(raw@),
            },
    {
        let id: String = raw.track_id();
        match &self.track_id {
            Some(known) => {
                if *known == id {
                    None
                } else {
                    Some(id)
                }
            },
            None => Some(id),
        }
    }

    /// Whether the second ticked, how long ago it did, and whether the position
    /// is advancing.
    fn tick(&self, raw: &RawState, changed: bool, now: u64) -> (r: (bool, u64, bool))
        requires
            changed == self@.changes(raw@),
        ensures
            r.0 == self@.ticks(raw@),
            r.1 == self@.since_tick(raw@, now),
            r.2 == self@.plays(raw@, now),
    {
        let ticked: bool = changed || match self.anchor {
            Some((second, _)) => second != raw.current,
            None => true,
        };
        let since: u64 = if ticked {
            0
        } else {
            match self.anchor {
                Some((_, at)) => if at < now {
                    now - at
                } else {
                    0
                },
                None => 0,
            }
        };
        (ticked, since, since <= PAUSE_NS)
    }

    /// The position in milliseconds, if it fits in 64 bits.
    pub fn position_ms(&self, raw: &RawState, now: u64) -> (r: Option<u64>)
        ensures
            match r {
                Some(ms) => self@.position(raw@, now) == ms,
                None => self@.position(raw@, now) > u64::MAX,
            },
    {
        let changed: bool = self.track_to_load(raw).is_some();
        let (_, since, playing) = self.tick(raw, changed, now);
        let ms: u64 = if playing {
            let whole: u64 = since / 1_000_000;
            if whole < 999 {
                whole
            } else {
                999
            }
        } else {
            0
        };
        let total: u128 = raw.current as u128 * 1000 + ms as u128;
        if total <= u64::MAX as u128 {
            Some(total as u64)
        } else {
            None
        }
    }

    /// Does what [`Poller::on_state`] does, if it can be done: something was
    /// loaded exactly if the track changed, its lyrics can be evaluated, and the
    /// position fits in 64 bits. Otherwise nothing changes.
    pub fn try_state(
        &mut self,
        raw: RawState,
        loaded: Option<TrackPayload>,
        now: u64,
    ) -> (r: Option<Update>)
        requires
            old(self)@.wf(),
        ensures
            final(self)@.wf(),
            match r {
                Some(u) => {
                    &&& old(self)@.accepts(raw@, payload_view(loaded), now)
                    &&& final(self)@ == old(self)@.next(raw@, payload_view(loaded), now)
                    &&& u@ == old(self)@.update(raw@, payload_view(loaded), now)
                    &&& u.snapshot.current_sec == raw.current
                    &&& u.snapshot.duration_sec == raw.resource_duration
                    &&& u.snapshot.quality == raw.quality
                    &&& u.snapshot.cache_progress == raw.cache_progress
                },
                None => !old(self)@.accepts(raw@, payload_view(loaded), now) && final(self)@ == old(
                    self,
                )@,
            },
    {
        let changed: bool = self.track_to_load(&raw).is_some();
        let readable: bool = match &loaded {
            Some(payload) => changed && payload.is_readable(),
            None => !changed,
        };
        if readable && self.position_ms(&raw, now).is_some() {
            Some(self.on_state(raw, loaded, now))
        } else {
            None
        }
    }

    /// Takes note of what the client reports at a reading of the clock, and
    /// gives the update to publish. `loaded` is what was loaded for the track
    /// that [`Poller::track_to_load`] named.
    pub fn on_state(&mut self, raw: RawState, loaded: Option<TrackPayload>, now: u64) -> (r: Update)
        requires
            old(self)@.wf(),
            old(self)@.accepts(raw@, payload_view(loaded), now),
        ensures
            final(self)@.wf(),
            final(self)@ == old(self)@.next(raw@, payload_view(loaded), now),
            r@ == old(self)@.update(raw@, payload_view(loaded), now),
            r.snapshot.current_sec == raw.current,
            r.snapshot.duration_sec == raw.resource_duration,
            r.snapshot.quality == raw.quality,
            r.snapshot.cache_progress == raw.cache_progress,
            raw.current * 1000 <= r.snapshot.position_ms < raw.current * 1000 + 1000,
    {
        proof {
            law_position_stays_in_its_second(self@, raw@, now);
        }
        let position_ms: u64 = self.position_ms(&raw, now).unwrap();
        let changed: bool = loaded.is_some();
        let (ticked, _, playing) = self.tick(&raw, changed, now);
        let id: String = raw.track_id();
        if ticked {
            self.anchor = Some((raw.current, now));
        }
        match loaded {
            Some(payload) => {
                proof {
                    lyrics::law_lyrics_are_ordered(payload@);
                }
                let (song, lyrics) = payload.into_parts();
                self.track_id = Some(id);
                self.song = song;
                self.lyrics = Some(lyrics);
            },
            None => {},
        }
        let line_index: Option<usize> = match &self.lyrics {
            Some(l) => timeline::line_at(l.lines.as_slice(), position_ms),
            None => None,
        };
        let snapshot = Snapshot {
            playing,
            song: match &self.song {
                Some(s) => Some(s.clone()),
                None => None,
            },
            lyrics: match &self.lyrics {
                Some(l) => Some(l.clone()),
                None => None,
            },
            current_sec: raw.current,
            position_ms,
            duration_sec: raw.resource_duration,
            line_index,
            quality: raw.quality,
            cache_progress: raw.cache_progress,
        };
        let event: Option<Event> = if changed {
            Some(Event::MusicChange)
        } else if ticked {
            Some(Event::TimeChange { playing, current_sec: raw.current, position_ms, line_index })
        } else {
            None
        };
        Update { snapshot, event }
    }
}

/// How to get at a track.
#[derive(Debug)]
pub enum LoadStep {
    /// It is in the cache.
    Use(TrackPayload),
    /// The page has to evaluate this script.
    Evaluate(String),
}

/// Try the disk cache first, then the network request from inside the page.
/// `cached` is what the cache holds for the track.
pub fn begin_load(id: &str, cached: Option<TrackPayload>) -> (r: LoadStep)
    ensures
        match cached {
            Some(hit) => r == LoadStep::Use(hit),
            None => r matches LoadStep::Evaluate(script) && script@ == cdp::track_script(
                cdp::debug_text(id@),
            ),
        },
{
    match cached {
        Some(hit) => LoadStep::Use(hit),
        None => LoadStep::Evaluate(cdp::track_js(id)),
    }
}

/// What came of the network request.
#[derive(Debug)]
pub enum Fetched {
    /// A payload.
    Payload(TrackPayload),
    /// A reply that is no payload.
    Unreadable,
    /// No reply.
    Nothing,
    /// The request failed.
    Failed,
}

/// A track to go on with.
#[derive(Debug)]
pub struct Loaded {
    pub payload: TrackPayload,
    /// Whether it goes into the cache.
    pub store: bool,
}

/// What to go on with after the network request. On failure fall back to empty
/// lyrics rather than breaking the loop.
pub fn finish_load(fetched: Fetched) -> (r: Loaded)
    ensures
        match fetched {
            Fetched::Payload(payload) => r.payload == payload && r.store,
            _ => r.payload@ == lyrics::no_payload() && !r.store,
        },
{
    match fetched {
        Fetched::Payload(payload) => Loaded { payload, store: true },
        _ => Loaded { payload: lyrics::empty(), store: false },
    }
}

/// An event is told at the instant of a tick: its position is the whole second,
/// and the track plays.
pub proof fn law_events_are_on_the_second(
    st: PollerView,
    raw: RawStateView,
    loaded: Option<TrackPayloadView>,
    now: u64,
)
    requires
        st.wf(),
        st.accepts(raw, loaded, now),
    ensures
        st.update(raw, loaded, now).event is Some ==> {
            let s = st.update(raw, loaded, now).snapshot;
            s.position_ms == s.current_sec * 1000 && s.playing
        },
        st.update(raw, loaded, now).event matches Some(
            Event::TimeChange { playing, current_sec, position_ms, line_index },
        ) ==> position_ms == current_sec * 1000 && playing && current_sec == raw.current
            && line_index == st.update(raw, loaded, now).snapshot.line_index,
{
}

/// The position never leaves the second that the client reports.
pub proof fn law_position_stays_in_its_second(st: PollerView, raw: RawStateView, now: u64)
    ensures
        raw.current * 1000 <= st.position(raw, now) < raw.current * 1000 + 1000,
{
    assert(st.since_tick(raw, now) >= 0);
}

/// Between two ticks the position never moves back while the track plays.
pub proof fn law_position_moves_on(st: PollerView, raw: RawStateView, earlier: u64, later: u64)
    requires
        earlier <= later,
        st.plays(raw, later),
    ensures
        st.plays(raw, earlier),
        st.position(raw, earlier) <= st.position(raw, later),
{
}

/// Without a tick for more than two and a half seconds the track counts as
/// paused, and the position is the whole second. Until then it plays.
pub proof fn law_silence_is_a_pause(
    st: PollerView,
    raw: RawStateView,
    loaded: Option<TrackPayloadView>,
    now: u64,
)
    requires
        st.wf(),
        st.accepts(raw, loaded, now),
        !st.ticks(raw),
    ensures
        ({
            let s = st.update(raw, loaded, now).snapshot;
            &&& st.anchor matches Some((_, at)) && (s.playing <==> now - at <= PAUSE_NS)
            &&& !s.playing ==> s.position_ms == s.current_sec * 1000
        }),
{
}

/// The track change is told exactly if there is one, and the first track is one.
pub proof fn law_track_changes_are_told(
    st: PollerView,
    raw: RawStateView,
    loaded: Option<TrackPayloadView>,
    now: u64,
)
    requires
        st.wf(),
        st.accepts(raw, loaded, now),
    ensures
        st.update(raw, loaded, now).event == Some(Event::MusicChange) <==> st.changes(raw),
        st == no_track() ==> st.changes(raw),
        st.next(raw, loaded, now).track_id == Some(model::id_text(raw.track_id)),
{
}

/// Whatever is polled within the same second of the same track tells nobody
/// anything, and leaves the state as it is.
pub proof fn law_one_event_per_second(
    st: PollerView,
    raw: RawStateView,
    loaded: Option<TrackPayloadView>,
    now: u64,
    again: RawStateView,
    later: u64,
)
    requires
        st.wf(),
        st.accepts(raw, loaded, now),
        again.current == raw.current,
        again.track_id == raw.track_id,
    ensures
        ({
            let next = st.next(raw, loaded, now);
            &&& next.update(again, None, later).event is None
            &&& next.next(again, None, later) == next
        }),
{
}

/// The next second of the same track is told as a time change.
pub proof fn law_next_second_is_told(
    st: PollerView,
    raw: RawStateView,
    loaded: Option<TrackPayloadView>,
    now: u64,
    again: RawStateView,
    later: u64,
)
    requires
        st.wf(),
        st.accepts(raw, loaded, now),
        again.current != raw.current,
        again.track_id == raw.track_id,
    ensures
        st.next(raw, loaded, now).update(again, None, later).event is Some,
        st.next(raw, loaded, now).update(again, None, later).event->0 is TimeChange,
{
}

/// A snapshot shows the song and the lyrics that were loaded for its track, and
/// goes on showing them until the track changes.
pub proof fn law_track_is_shown_until_it_changes(
    st: PollerView,
    raw: RawStateView,
    loaded: Option<TrackPayloadView>,
    now: u64,
)
    requires
        st.wf(),
        st.accepts(raw, loaded, now),
    ensures
        ({
            let s = st.update(raw, loaded, now).snapshot;
            let next = st.next(raw, loaded, now);
            &&& s.song == next.song && s.lyrics == next.lyrics
            &&& match loaded {
                Some(payload) => s.song == payload.song && s.lyrics == lyrics::lyrics_of(payload),
                None => s.song == st.song && s.lyrics == st.lyrics,
            }
        }),
{
}

/// The line index of a snapshot is that of the active line: the line has begun
/// at the position of the snapshot, and its successor has not. There is no
/// index exactly if there is no line or the first has not begun.
pub proof fn law_line_index_is_active(
    st: PollerView,
    raw: RawStateView,
    loaded: Option<TrackPayloadView>,
    now: u64,
)
    requires
        st.wf(),
        st.accepts(raw, loaded, now),
        st.next(raw, loaded, now).lyrics matches Some(l) ==> l.lines.len() <= usize::MAX,
    ensures
        ({
            let s = st.update(raw, loaded, now).snapshot;
            &&& s.lyrics matches Some(l) && match s.line_index {
                Some(i) => {
                    &&& i < l.lines.len()
                    &&& l.lines[i as int].time <= s.position_ms
                    &&& i + 1 < l.lines.len() ==> s.position_ms < l.lines[i + 1].time
                },
                None => l.lines.len() == 0 || s.position_ms < l.lines[0].time,
            }
        }),
{
    if let Some(payload) = loaded {
        lyrics::law_lyrics_are_ordered(payload);
    }
    let next = st.next(raw, loaded, now);
    let s = st.update(raw, loaded, now).snapshot;
    let lines = next.lyrics->0.lines;
    timeline::law_active_line(lines, s.position_ms);
    if let Some(i) = s.line_index {
        assert(timeline::active_line(lines, s.position_ms) == Some(i));
    }
}

/// A poll leaves a well-formed state well-formed.
pub proof fn law_polls_keep_the_state_well_formed(
    st: PollerView,
    raw: RawStateView,
    loaded: Option<TrackPayloadView>,
    now: u64,
)
    requires
        st.wf(),
        st.accepts(raw, loaded, now),
    ensures
        st.next(raw, loaded, now).wf(),
{
    if let Some(payload) = loaded {
        lyrics::law_lyrics_are_ordered(payload);
    }
}

/// Whether or not a poll tells anybody anything, its snapshot shows the second,
/// the duration, the quality and the buffering progress that the client reports.
pub proof fn law_snapshot_shows_what_is_reported(
    st: PollerView,
    raw: RawStateView,
    loaded: Option<TrackPayloadView>,
    now: u64,
)
    requires
        st.wf(),
        st.accepts(raw, loaded, now),
    ensures
        ({
            let s = st.update(raw, loaded, now).snapshot;
            &&& s.current_sec == raw.current
            &&& s.duration_sec == raw.resource_duration
            &&& s.quality == raw.quality
            &&& s.cache_progress == raw.cache_progress
            &&& s.current_sec * 1000 <= s.position_ms < s.current_sec * 1000 + 1000
        }),
{
    law_position_stays_in_its_second(st, raw, now);
}

/// Whether a position is the one a time after a tick, in nanoseconds: it moves
/// on with the time to the last millisecond of the second and waits there, and
/// goes back to the whole second after more than two and a half seconds.
pub open spec fn is_position_after(position_ms: int, second: u64, elapsed: int) -> bool {
    let ms = position_ms - second * 1000;
    if elapsed > 2_500_000_000 {
        ms == 0
    } else if elapsed >= 999_000_000 {
        ms == 999
    } else if elapsed >= 0 {
        ms * 1_000_000 <= elapsed < (ms + 1) * 1_000_000
    } else {
        ms == 0
    }
}

/// While the second of the track stays the same, the position follows the time
/// since the tick, and the track plays until there has been none for more than
/// two and a half seconds.
pub proof fn law_position_follows_the_clock(
    st: PollerView,
    raw: RawStateView,
    loaded: Option<TrackPayloadView>,
    now: u64,
    at: u64,
)
    requires
        st.wf(),
        st.accepts(raw, loaded, now),
        st.track_id == Some(model::id_text(raw.track_id)),
        st.anchor == Some((raw.current, at)),
    ensures
        ({
            let u = st.update(raw, loaded, now);
            &&& u.event is None
            &&& u.snapshot.playing <==> now - at <= 2_500_000_000
            &&& is_position_after(u.snapshot.position_ms as int, raw.current, now - at)
            &&& st.next(raw, loaded, now) == st
        }),
{
}

/// Another poll in the same second of the same track shows the position that
/// follows the time since the poll at which the second ticked.
pub proof fn law_position_follows_the_tick(
    st: PollerView,
    raw: RawStateView,
    loaded: Option<TrackPayloadView>,
    now: u64,
    again: RawStateView,
    later: u64,
)
    requires
        st.wf(),
        st.accepts(raw, loaded, now),
        st.update(raw, loaded, now).event is Some,
        again.current == raw.current,
        model::id_text(again.track_id) == model::id_text(raw.track_id),
        st.next(raw, loaded, now).accepts(again, None, later),
    ensures
        ({
            let s = st.next(raw, loaded, now).update(again, None, later).snapshot;
            &&& s.playing <==> later - now <= 2_500_000_000
            &&& is_position_after(s.position_ms as int, raw.current, later - now)
        }),
{
    law_polls_keep_the_state_well_formed(st, raw, loaded, now);
    law_position_follows_the_clock(st.next(raw, loaded, now), again, None, later, now);
}

/// A poll that tells nobody anything leaves the state as it is. One that does
/// remembers the second and the reading of the clock.
pub proof fn law_tick_is_remembered(
    st: PollerView,
    raw: RawStateView,
    loaded: Option<TrackPayloadView>,
    now: u64,
)
    requires
        st.wf(),
        st.accepts(raw, loaded, now),
    ensures
        ({
            let next = st.next(raw, loaded, now);
            match st.update(raw, loaded, now).event {
                Some(_) => next.anchor == Some((raw.current, now)),
                None => next == st,
            }
        }),
{
}

/// After a poll, another one is told exactly if it is of another track or of
/// another second: as a track change in the first case, and otherwise as a time
/// change that says what the snapshot shows.
pub proof fn law_what_is_told_after_a_poll(
    st: PollerView,
    raw: RawStateView,
    loaded: Option<TrackPayloadView>,
    now: u64,
    again: RawStateView,
    reloaded: Option<TrackPayloadView>,
    later: u64,
)
    requires
        st.wf(),
        st.accepts(raw, loaded, now),
        st.next(raw, loaded, now).accepts(again, reloaded, later),
    ensures
        ({
            let u = st.next(raw, loaded, now).update(again, reloaded, later);
            let same_track = model::id_text(again.track_id) == model::id_text(raw.track_id);
            &&& reloaded is None <==> same_track
            &&& u.event == if !same_track {
                Some(Event::MusicChange)
            } else if again.current != raw.current {
                Some(
                    Event::TimeChange {
                        playing: u.snapshot.playing,
                        current_sec: u.snapshot.current_sec,
                        position_ms: u.snapshot.position_ms,
                        line_index: u.snapshot.line_index,
                    },
                )
            } else {
                None
            }
        }),
{
}

/// A poll can be evaluated whenever something was loaded exactly if the track is
/// another one, its lyrics can be evaluated, and the last millisecond of its
/// second fits in 64 bits. It cannot if the whole second does not fit.
pub proof fn law_polls_are_accepted(
    st: PollerView,
    raw: RawStateView,
    loaded: Option<TrackPayloadView>,
    now: u64,
)
    ensures
        ({
            let in_place = {
                &&& loaded is Some <==> st.track_id != Some(model::id_text(raw.track_id))
                &&& loaded matches Some(payload) ==> lyrics::lyrics_of(payload) is Some
            };
            &&& in_place && raw.current * 1000 + 999 <= u64::MAX ==> st.accepts(raw, loaded, now)
            &&& !in_place || raw.current * 1000 > u64::MAX ==> !st.accepts(raw, loaded, now)
        }),
{
    law_position_stays_in_its_second(st, raw, now);
}

/// When nothing plays there is nothing to show, and that is told. A poller that
/// has seen no track, or whose track is gone, knows nothing.
pub proof fn law_idle_shows_nothing()
    ensures
        idle().event == Some(Event::Idle),
        !idle().snapshot.playing,
        idle().snapshot.song is None,
        idle().snapshot.lyrics is None,
        idle().snapshot.current_sec == 0,
        idle().snapshot.position_ms == 0,
        idle().snapshot.duration_sec == 0,
        idle().snapshot.line_index is None,
        idle().snapshot.quality is Null,
        idle().snapshot.cache_progress is Null,
        no_track().track_id is None,
        no_track().song is None,
        no_track().lyrics is None,
        no_track().anchor is None,
{
}

} // verus!
