//! What the service knows and exposes: songs, lyrics, the state that the client
//! reports, and the snapshot built from it.
//!
//! Each type has a view, in which strings are sequences of characters and
//! vectors are sequences of views.

use serde_json::Value;
use vstd::prelude::*;

use crate::json;
use crate::json::Json;
use crate::text;

verus! {

/// The text of an optional string.
pub open spec fn text_view(s: Option<String>) -> Option<Seq<char>> {
    match s {
        Some(t) => Some(t@),
        None => None,
    }
}

/// A copy of an optional string.
pub fn clone_text(s: &Option<String>) -> (r: Option<String>)
    ensures
        text_view(r) == text_view(*s),
{
    match s {
        Some(t) => Some(t.clone()),
        None => None,
    }
}

/// The texts of several strings.
pub open spec fn texts_view(s: Seq<String>) -> Seq<Seq<char>> {
    Seq::new(s.len(), |i: int| s[i]@)
}

/// The title and the credits of a track.
#[derive(Debug, PartialEq)]
pub struct Song {
    pub id: String,
    pub name: String,
    pub artists: Vec<String>,
    pub album: String,
    pub album_pic: String,
    pub duration_ms: u64,
}

/// The view of a [`Song`].
#[verifier::ext_equal]
pub struct SongView {
    pub id: Seq<char>,
    pub name: Seq<char>,
    pub artists: Seq<Seq<char>>,
    pub album: Seq<char>,
    pub album_pic: Seq<char>,
    pub duration_ms: u64,
}

impl View for Song {
    type V = SongView;

    open spec fn view(&self) -> SongView {
        SongView {
            id: self.id@,
            name: self.name@,
            artists: texts_view(self.artists@),
            album: self.album@,
            album_pic: self.album_pic@,
            duration_ms: self.duration_ms,
        }
    }
}

impl Clone for Song {
    fn clone(&self) -> (r: Song)
        ensures
            r@ == self@,
    {
        let mut artists: Vec<String> = Vec::new();
        let mut i: usize = 0;
        while i < self.artists.len()
            invariant
                i <= self.artists@.len(),
                artists@.len() == i,
                forall|k: int| 0 <= k < i ==> (#[trigger] artists@[k])@ == self.artists@[k]@,
            decreases self.artists@.len() - i,
        {
            artists.push(self.artists[i].clone());
            i = i + 1;
        }
        let r = Song {
            id: self.id.clone(),
            name: self.name.clone(),
            artists,
            album: self.album.clone(),
            album_pic: self.album_pic.clone(),
            duration_ms: self.duration_ms,
        };
        assert(texts_view(r.artists@) == texts_view(self.artists@));
        r
    }
}

/// One word of a lyric line, with its own timing.
#[derive(Debug, PartialEq)]
pub struct Word {
    pub time: u64,
    pub duration: u64,
    pub text: String,
}

/// The view of a [`Word`].
#[verifier::ext_equal]
pub struct WordView {
    pub time: u64,
    pub duration: u64,
    pub text: Seq<char>,
}

impl View for Word {
    type V = WordView;

    open spec fn view(&self) -> WordView {
        WordView { time: self.time, duration: self.duration, text: self.text@ }
    }
}

impl Clone for Word {
    fn clone(&self) -> (r: Word)
        ensures
            r@ == self@,
    {
        Word { time: self.time, duration: self.duration, text: self.text.clone() }
    }
}

/// The views of several words.
pub open spec fn words_view(s: Seq<Word>) -> Seq<WordView> {
    Seq::new(s.len(), |i: int| s[i]@)
}

/// One line of lyrics.
#[derive(Debug, PartialEq)]
pub struct Line {
    pub time: u64,
    pub duration: u64,
    pub text: String,
    /// Per-word timings; empty when the source was plain `lrc`.
    pub words: Vec<Word>,
    /// Translation for this line, if any.
    pub translation: Option<String>,
}

/// The view of a [`Line`].
#[verifier::ext_equal]
pub struct LineView {
    pub time: u64,
    pub duration: u64,
    pub text: Seq<char>,
    pub words: Seq<WordView>,
    pub translation: Option<Seq<char>>,
}

impl View for Line {
    type V = LineView;

    open spec fn view(&self) -> LineView {
        LineView {
            time: self.time,
            duration: self.duration,
            text: self.text@,
            words: words_view(self.words@),
            translation: text_view(self.translation),
        }
    }
}

impl Clone for Line {
    fn clone(&self) -> (r: Line)
        ensures
            r@ == self@,
    {
        let mut words: Vec<Word> = Vec::new();
        let mut i: usize = 0;
        while i < self.words.len()
            invariant
                i <= self.words@.len(),
                words@.len() == i,
                forall|k: int| 0 <= k < i ==> (#[trigger] words@[k])@ == self.words@[k]@,
            decreases self.words@.len() - i,
        {
            words.push(self.words[i].clone());
            i = i + 1;
        }
        let r = Line {
            time: self.time,
            duration: self.duration,
            text: self.text.clone(),
            words,
            translation: clone_text(&self.translation),
        };
        assert(words_view(r.words@) == words_view(self.words@));
        r
    }
}

/// The views of several lines.
pub open spec fn lines_view(s: Seq<Line>) -> Seq<LineView> {
    Seq::new(s.len(), |i: int| s[i]@)
}

/// Where the lyrics of a track come from.
#[derive(Debug, Clone, Copy, PartialEq, Eq, Structural)]
pub enum LyricKind {
    /// Word-level lyrics
    Yrc,
    /// Line-level lyrics
    Lrc,
    /// Instrumental, or no lyrics available
    Absent,
}

/// The lyrics of a track.
#[derive(Debug, PartialEq)]
pub struct Lyrics {
    pub kind: LyricKind,
    pub lines: Vec<Line>,
}

/// The view of [`Lyrics`].
#[verifier::ext_equal]
pub struct LyricsView {
    pub kind: LyricKind,
    pub lines: Seq<LineView>,
}

impl View for Lyrics {
    type V = LyricsView;

    open spec fn view(&self) -> LyricsView {
        LyricsView { kind: self.kind, lines: lines_view(self.lines@) }
    }
}

impl Clone for Lyrics {
    fn clone(&self) -> (r: Lyrics)
        ensures
            r@ == self@,
    {
        let mut lines: Vec<Line> = Vec::new();
        let mut i: usize = 0;
        while i < self.lines.len()
            invariant
                i <= self.lines@.len(),
                lines@.len() == i,
                forall|k: int| 0 <= k < i ==> (#[trigger] lines@[k])@ == self.lines@[k]@,
            decreases self.lines@.len() - i,
        {
            lines.push(self.lines[i].clone());
            i = i + 1;
        }
        let r = Lyrics { kind: self.kind, lines };
        assert(lines_view(r.lines@) == lines_view(self.lines@));
        r
    }
}

/// The view of an optional song.
pub open spec fn song_view(s: Option<Song>) -> Option<SongView> {
    match s {
        Some(x) => Some(x@),
        None => None,
    }
}

/// The view of optional lyrics.
pub open spec fn lyrics_view(l: Option<Lyrics>) -> Option<LyricsView> {
    match l {
        Some(x) => Some(x@),
        None => None,
    }
}

/// The plaintext behind `lastPlaying`, with both times in whole seconds.
pub struct RawState {
    pub current: u64,
    pub resource_duration: u64,
    pub track_id: Value,
    pub cache_progress: Value,
    pub quality: Value,
}

/// The view of a [`RawState`].
#[verifier::ext_equal]
pub struct RawStateView {
    pub current: u64,
    pub resource_duration: u64,
    pub track_id: Json,
    pub cache_progress: Json,
    pub quality: Json,
}

impl View for RawState {
    type V = RawStateView;

    open spec fn view(&self) -> RawStateView {
        RawStateView {
            current: self.current,
            resource_duration: self.resource_duration,
            track_id: json::json_tree(self.track_id),
            cache_progress: json::json_tree(self.cache_progress),
            quality: json::json_tree(self.quality),
        }
    }
}

/// The text of a track id: what a JSON string holds, the JSON text of anything
/// else.
pub open spec fn id_text(id: Json) -> Seq<char> {
    match id {
        Json::Text(s) => s,
        other => json::json_text(other),
    }
}

impl RawState {
    /// The id of the track that is playing.
    pub fn track_id(&self) -> (r: String)
        ensures
            r@ == id_text(self@.track_id),
            self@.track_id matches Json::Unsigned(n) ==> r@ == text::decimal(n as nat),
    {
        match self.track_id.as_str() {
            Some(s) => s.to_owned(),
            None => json::to_text(&self.track_id),
        }
    }
}

/// The full state this service exposes.
#[derive(Debug)]
pub struct Snapshot {
    /// The app is running and the position is advancing
    pub playing: bool,
    pub song: Option<Song>,
    pub lyrics: Option<Lyrics>,
    /// Whole-second position as reported by the client
    pub current_sec: u64,
    /// Position interpolated to milliseconds, for word-level highlighting
    pub position_ms: u64,
    pub duration_sec: u64,
    /// Index of the active lyric line
    pub line_index: Option<usize>,
    /// Audio quality tier as reported by the client (e.g. 320)
    pub quality: Value,
    /// Buffering progress as reported by the client
    pub cache_progress: Value,
}

/// The view of a [`Snapshot`].
#[verifier::ext_equal]
pub struct SnapshotView {
    pub playing: bool,
    pub song: Option<SongView>,
    pub lyrics: Option<LyricsView>,
    pub current_sec: u64,
    pub position_ms: u64,
    pub duration_sec: u64,
    pub line_index: Option<usize>,
    pub quality: Json,
    pub cache_progress: Json,
}

impl View for Snapshot {
    type V = SnapshotView;

    open spec fn view(&self) -> SnapshotView {
        SnapshotView {
            playing: self.playing,
            song: song_view(self.song),
            lyrics: lyrics_view(self.lyrics),
            current_sec: self.current_sec,
            position_ms: self.position_ms,
            duration_sec: self.duration_sec,
            line_index: self.line_index,
            quality: json::json_tree(self.quality),
            cache_progress: json::json_tree(self.cache_progress),
        }
    }
}

/// The snapshot of a player that plays nothing.
pub open spec fn idle_snapshot() -> SnapshotView {
    SnapshotView {
        playing: false,
        song: None,
        lyrics: None,
        current_sec: 0,
        position_ms: 0,
        duration_sec: 0,
        line_index: None,
        quality: Json::Null,
        cache_progress: Json::Null,
    }
}

impl Default for Snapshot {
    fn default() -> (r: Snapshot)
        ensures
            r@ == idle_snapshot(),
    {
        Snapshot {
            playing: false,
            song: None,
            lyrics: None,
            current_sec: 0,
            position_ms: 0,
            duration_sec: 0,
            line_index: None,
            quality: json::null(),
            cache_progress: json::null(),
        }
    }
}

/// A track id is what a JSON string holds, and the JSON text of anything else.
pub proof fn law_track_id_is_its_text(s: Seq<char>, other: Json)
    requires
        !(other is Text),
    ensures
        id_text(Json::Text(s)) == s,
        id_text(other) == json::json_text(other),
{
}

/// The view of a row of lines shows every line, and of each all that it holds.
pub proof fn law_view_shows_every_line(lines: Seq<Line>, i: int, k: int)
    requires
        0 <= i < lines.len(),
    ensures
        lines_view(lines).len() == lines.len(),
        ({
            let v = lines_view(lines)[i];
            let l = lines[i];
            &&& v.time == l.time
            &&& v.duration == l.duration
            &&& v.text == l.text@
            &&& v.words.len() == l.words@.len()
            &&& 0 <= k < v.words.len() ==> {
                &&& v.words[k].time == l.words@[k].time
                &&& v.words[k].duration == l.words@[k].duration
                &&& v.words[k].text == l.words@[k].text@
            }
            &&& v.translation is Some <==> l.translation is Some
            &&& l.translation matches Some(t) ==> v.translation == Some(t@)
        }),
{
}

/// The view of a song shows all that it holds.
pub proof fn law_view_shows_the_song(song: Song, k: int)
    ensures
        song@.id == song.id@,
        song@.name == song.name@,
        song@.artists.len() == song.artists@.len(),
        0 <= k < song.artists@.len() ==> song@.artists[k] == song.artists@[k]@,
        song@.album == song.album@,
        song@.album_pic == song.album_pic@,
        song@.duration_ms == song.duration_ms,
{
}

/// The view of a snapshot shows all that it holds.
pub proof fn law_view_shows_the_snapshot(s: Snapshot)
    ensures
        s@.playing == s.playing,
        s@.song is Some <==> s.song is Some,
        s.song matches Some(song) ==> s@.song == Some(song@),
        s@.lyrics is Some <==> s.lyrics is Some,
        s.lyrics matches Some(l) ==> (s@.lyrics matches Some(v) && v.kind == l.kind && v.lines
            == lines_view(l.lines@)),
        s@.current_sec == s.current_sec,
        s@.position_ms == s.position_ms,
        s@.duration_sec == s.duration_sec,
        s@.line_index == s.line_index,
        s@.quality == json::json_tree(s.quality),
        s@.cache_progress == json::json_tree(s.cache_progress),
{
}

/// The view of a reported state shows all that it holds.
pub proof fn law_view_shows_the_reported_state(raw: RawState)
    ensures
        raw@.current == raw.current,
        raw@.resource_duration == raw.resource_duration,
        raw@.track_id == json::json_tree(raw.track_id),
        raw@.cache_progress == json::json_tree(raw.cache_progress),
        raw@.quality == json::json_tree(raw.quality),
{
}

} // verus!
