//! The lyrics of a track, out of the texts that the client has for it.

use vstd::prelude::*;

use crate::lrc;
use crate::model;
use crate::model::{Line, LineView, LyricKind, Lyrics, LyricsView, Song, SongView};
use crate::text;
use crate::timeline;
use crate::yrc;

pub use crate::cache::Cache;
pub use crate::lrc::parse_lrc;
pub use crate::timeline::line_at;
pub use crate::yrc::parse_yrc;

verus! {

/// How far a translation may be from its line, in milliseconds.
pub const TRANSLATION_REACH_MS: u64 = 300;

/// The song detail and the lyric texts of a track, as fetched or as cached.
#[derive(Debug)]
pub struct TrackPayload {
    pub song: Option<Song>,
    pub yrc: Option<String>,
    pub lrc: Option<String>,
    pub tlyric: Option<String>,
}

/// The view of a [`TrackPayload`].
#[verifier::ext_equal]
pub struct TrackPayloadView {
    pub song: Option<SongView>,
    pub yrc: Option<Seq<char>>,
    pub lrc: Option<Seq<char>>,
    pub tlyric: Option<Seq<char>>,
}

impl View for TrackPayload {
    type V = TrackPayloadView;

    open spec fn view(&self) -> TrackPayloadView {
        TrackPayloadView {
            song: model::song_view(self.song),
            yrc: model::text_view(self.yrc),
            lrc: model::text_view(self.lrc),
            tlyric: model::text_view(self.tlyric),
        }
    }
}

impl Clone for TrackPayload {
    fn clone(&self) -> (r: TrackPayload)
        ensures
            r@ == self@,
    {
        TrackPayload {
            song: match &self.song {
                Some(s) => Some(s.clone()),
                None => None,
            },
            yrc: model::clone_text(&self.yrc),
            lrc: model::clone_text(&self.lrc),
            tlyric: model::clone_text(&self.tlyric),
        }
    }
}

/// How far two times are apart.
pub open spec fn distance(a: u64, b: u64) -> int {
    if a <= b {
        b - a
    } else {
        a - b
    }
}

/// Whether a line of a translation may stand under a line that starts at
/// `time`: it is near enough and holds text.
pub open spec fn may_translate(t: LineView, time: u64) -> bool {
    distance(t.time, time) <= TRANSLATION_REACH_MS && t.text.len() > 0
}

/// Whether line `i` of a translation is the nearest that may stand under a line
/// that starts at `time`; the first of those that are equally near.
pub open spec fn is_nearest(trans: Seq<LineView>, time: u64, i: int) -> bool {
    &&& 0 <= i < trans.len()
    &&& may_translate(trans[i], time)
    &&& forall|j: int|
        0 <= j < trans.len() && may_translate(#[trigger] trans[j], time) ==> distance(
            trans[i].time,
            time,
        ) <= distance(trans[j].time, time) && (j < i ==> distance(trans[i].time, time) < distance(
            trans[j].time,
            time,
        ))
}

/// The translation of a line that starts at `time`, if there is one.
pub open spec fn translation_at(trans: Seq<LineView>, time: u64) -> Option<Seq<char>> {
    if exists|i: int| is_nearest(trans, time, i) {
        Some(trans[choose|i: int| is_nearest(trans, time, i)].text)
    } else {
        None
    }
}

/// A line with its translation. A line without one stays as it is.
pub open spec fn translated_line(line: LineView, trans: Seq<LineView>) -> LineView {
    match translation_at(trans, line.time) {
        Some(t) => LineView { translation: Some(t), ..line },
        None => line,
    }
}

/// Lines with their translations.
pub open spec fn translated(lines: Seq<LineView>, trans: Seq<LineView>) -> Seq<LineView> {
    Seq::new(lines.len(), |i: int| translated_line(lines[i], trans))
}

/// Finds the nearest translation of a line that starts at `time`.
fn find_translation(trans: &Vec<Line>, time: u64) -> (r: Option<usize>)
    ensures
        match r {
            Some(i) => is_nearest(model::lines_view(trans@), time, i as int),
            None => forall|i: int|
                0 <= i < trans@.len() ==> !may_translate(
                    #[trigger] model::lines_view(trans@)[i],
                    time,
                ),
        },
{
    let ghost views = model::lines_view(trans@);
    let mut best: Option<usize> = None;
    let mut best_distance: u64 = 0;
    let mut i: usize = 0;
    while i < trans.len()
        invariant
            i <= trans@.len(),
            views == model::lines_view(trans@),
            match best {
                Some(b) => b < i && is_nearest(views.take(i as int), time, b as int)
                    && best_distance == distance(views[b as int].time, time),
                None => forall|k: int|
                    0 <= k < i ==> !may_translate(#[trigger] views[k], time),
            },
        decreases trans@.len() - i,
    {
        let t: u64 = trans[i].time;
        let d: u64 = if t <= time {
            time - t
        } else {
            t - time
        };
        assert(trans@[i as int]@ == views[i as int]);
        assert forall|k: int| 0 <= k < i implies #[trigger] views.take(i + 1)[k] == views.take(
            i as int,
        )[k] by {}
        if d <= TRANSLATION_REACH_MS && !trans[i].text.as_str().is_empty() {
            assert(may_translate(views[i as int], time));
            let closer: bool = match best {
                Some(_) => d < best_distance,
                None => true,
            };
            if closer {
                best = Some(i);
                best_distance = d;
            }
        } else {
            assert(!may_translate(views[i as int], time));
        }
        proof {
            if let Some(b) = best {
                assert forall|j: int|
                    0 <= j < i + 1 && may_translate(
                        #[trigger] views.take(i + 1)[j],
                        time,
                    ) implies distance(views[b as int].time, time) <= distance(
                    views[j].time,
                    time,
                ) && (j < b ==> distance(views[b as int].time, time) < distance(
                    views[j].time,
                    time,
                )) by {
                    assert(views.take(i + 1)[j] == views[j]);
                    if j < i {
                        assert(views.take(i as int)[j] == views[j]);
                    }
                }
            }
        }
        i = i + 1;
    }
    assert(views.take(i as int) == views);
    best
}

/// Match translations to their lyric line by nearest timestamp, within 300ms.
pub fn attach_translation(lines: &mut Vec<Line>, trans: &Vec<Line>)
    ensures
        model::lines_view(final(lines)@) == translated(
            model::lines_view(old(lines)@),
            model::lines_view(trans@),
        ),
{
    let ghost before = model::lines_view(lines@);
    let ghost views = model::lines_view(trans@);
    let n: usize = lines.len();
    let mut i: usize = 0;
    while i < n
        invariant
            i <= n,
            n == lines@.len(),
            n == before.len(),
            views == model::lines_view(trans@),
            forall|k: int| 0 <= k < i ==> (#[trigger] lines@[k])@ == translated(before, views)[k],
            forall|k: int| i <= k < n ==> (#[trigger] lines@[k])@ == before[k],
        decreases n - i,
    {
        let time: u64 = lines[i].time;
        assert(lines@[i as int]@ == before[i as int]);
        match find_translation(trans, time) {
            Some(t) => {
                proof {
                    lemma_nearest_is_unique(views, time, t as int);
                }
                lines[i].translation = Some(trans[t].text.clone());
                assert(trans@[t as int]@ == views[t as int]);
            },
            None => {
                assert(translation_at(views, time) is None);
            },
        }
        assert(lines@[i as int]@ == translated(before, views)[i as int]);
        i = i + 1;
    }
    assert(model::lines_view(lines@) == translated(before, views));
}

/// No two lines of a translation are both the nearest.
proof fn lemma_nearest_is_unique(trans: Seq<LineView>, time: u64, i: int)
    requires
        is_nearest(trans, time, i),
    ensures
        translation_at(trans, time) == Some(trans[i].text),
{
    let j = choose|j: int| is_nearest(trans, time, j);
    assert(is_nearest(trans, time, j));
    assert(may_translate(trans[i], time));
    assert(may_translate(trans[j], time));
}

/// Where the lyrics come from and what they are, before translation. The
/// word-level text comes first; the line-level text stands in if the other
/// yields no line.
///
/// The result is `None` if the line-level text is needed and cannot be
/// evaluated.
pub open spec fn own_lyrics(p: TrackPayloadView) -> Option<LyricsView> {
    let words = match p.yrc {
        Some(t) => yrc::yrc(t),
        None => seq![],
    };
    if words.len() > 0 {
        Some(LyricsView { kind: LyricKind::Yrc, lines: words })
    } else {
        let plain = match p.lrc {
            Some(t) => lrc::lrc(t),
            None => Some(seq![]),
        };
        match plain {
            Some(lines) => if lines.len() > 0 {
                Some(LyricsView { kind: LyricKind::Lrc, lines })
            } else {
                Some(LyricsView { kind: LyricKind::Absent, lines })
            },
            None => None,
        }
    }
}

/// The lines of the translation; `None` if they cannot be evaluated.
pub open spec fn translation_lines(p: TrackPayloadView) -> Option<Seq<LineView>> {
    match p.tlyric {
        Some(t) => lrc::lrc(t),
        None => Some(seq![]),
    }
}

/// The lyrics of a track, with translations; `None` if they cannot be
/// evaluated.
pub open spec fn lyrics_of(p: TrackPayloadView) -> Option<LyricsView> {
    match (own_lyrics(p), translation_lines(p)) {
        (Some(own), Some(trans)) => Some(
            LyricsView { kind: own.kind, lines: translated(own.lines, trans) },
        ),
        _ => None,
    }
}

impl TrackPayload {
    /// Reads the lyrics, if they can be evaluated.
    pub fn try_lyrics(&self) -> (r: Option<Lyrics>)
        ensures
            match r {
                Some(l) => lyrics_of(self@) == Some(l@),
                None => lyrics_of(self@) is None,
            },
    {
        let trans: Vec<Line> = match &self.tlyric {
            Some(t) => match lrc::try_parse_lrc(t.as_str()) {
                Some(lines) => lines,
                None => {
                    return None;
                },
            },
            None => Vec::new(),
        };
        assert(translation_lines(self@) == Some(model::lines_view(trans@)));
        let mut lines: Vec<Line> = match &self.yrc {
            Some(t) => yrc::parse_yrc(t.as_str()),
            None => Vec::new(),
        };
        let mut kind: LyricKind = LyricKind::Yrc;
        if lines.len() == 0 {
            lines = match &self.lrc {
                Some(t) => match lrc::try_parse_lrc(t.as_str()) {
                    Some(lines) => lines,
                    None => {
                        return None;
                    },
                },
                None => Vec::new(),
            };
            kind = if lines.len() > 0 {
                LyricKind::Lrc
            } else {
                LyricKind::Absent
            };
        }
        assert(own_lyrics(self@) == Some(LyricsView { kind, lines: model::lines_view(lines@) }));
        attach_translation(&mut lines, &trans);
        Some(Lyrics { kind, lines })
    }

    /// Whether the lyrics can be evaluated.
    pub fn is_readable(&self) -> (r: bool)
        ensures
            r == lyrics_of(self@) is Some,
    {
        self.try_lyrics().is_some()
    }

    /// The song and its lyrics.
    pub fn into_parts(self) -> (r: (Option<Song>, Lyrics))
        requires
            lyrics_of(self@) is Some,
        ensures
            model::song_view(r.0) == self@.song,
            lyrics_of(self@) == Some(r.1@),
    {
        let lyrics: Lyrics = self.try_lyrics().unwrap();
        (self.song, lyrics)
    }
}

/// The view of a payload without song and lyrics.
pub open spec fn no_payload() -> TrackPayloadView {
    TrackPayloadView { song: None, yrc: None, lrc: None, tlyric: None }
}

/// A payload without song and lyrics.
pub fn empty() -> (r: TrackPayload)
    ensures
        r@ == no_payload(),
{
    TrackPayload { song: None, yrc: None, lrc: None, tlyric: None }
}

/// The lines of the lyrics are in the order of their time.
pub proof fn law_lyrics_are_ordered(p: TrackPayloadView)
    ensures
        lyrics_of(p) matches Some(l) ==> timeline::ordered(l.lines),
{
    if let Some(text) = p.yrc {
        timeline::law_sorted_is_ordered(yrc::yrc_lines(text::lines_of(text)));
    }
    if let Some(text) = p.lrc {
        if let Some(found) = lrc::lrc_lines(text::lines_of(text)) {
            timeline::law_sorted_is_ordered(found);
        }
    }
}

/// A line gets a translation exactly if one is within reach, and it is the
/// nearest.
pub proof fn law_translation_is_the_nearest(trans: Seq<LineView>, time: u64)
    ensures
        translation_at(trans, time) is Some <==> exists|i: int|
            0 <= i < trans.len() && may_translate(#[trigger] trans[i], time),
        translation_at(trans, time) matches Some(text) ==> exists|i: int| #[trigger]
            is_nearest(trans, time, i) && trans[i].text == text,
{
    if exists|i: int| 0 <= i < trans.len() && may_translate(#[trigger] trans[i], time) {
        lemma_nearest_exists(trans, time);
    }
}

/// If a translation is within reach, one of them is the nearest.
proof fn lemma_nearest_exists(trans: Seq<LineView>, time: u64)
    requires
        exists|i: int| 0 <= i < trans.len() && may_translate(#[trigger] trans[i], time),
    ensures
        exists|i: int| is_nearest(trans, time, i),
    decreases trans.len(),
{
    let before = trans.drop_last();
    let n = before.len() as int;
    if exists|i: int| 0 <= i < n && may_translate(#[trigger] before[i], time) {
        lemma_nearest_exists(before, time);
        let b = choose|i: int| is_nearest(before, time, i);
        let best = if may_translate(trans[n], time) && distance(trans[n].time, time) < distance(
            trans[b].time,
            time,
        ) {
            n
        } else {
            b
        };
        assert forall|j: int|
            0 <= j < trans.len() && may_translate(#[trigger] trans[j], time) implies distance(
            trans[best].time,
            time,
        ) <= distance(trans[j].time, time) && (j < best ==> distance(trans[best].time, time)
            < distance(trans[j].time, time)) by {
            if j < n {
                assert(may_translate(before[j], time));
            }
        }
        assert(is_nearest(trans, time, best));
    } else {
        assert forall|j: int| 0 <= j < n implies !may_translate(#[trigger] trans[j], time) by {
            assert(before[j] == trans[j]);
        }
        let i = choose|i: int| 0 <= i < trans.len() && may_translate(#[trigger] trans[i], time);
        assert(is_nearest(trans, time, i));
    }
}

/// Translating lines changes nothing else about them.
pub proof fn law_translation_changes_nothing_else(lines: Seq<LineView>, trans: Seq<LineView>)
    ensures
        translated(lines, trans).len() == lines.len(),
        forall|i: int|
            0 <= i < lines.len() ==> (#[trigger] translated(lines, trans)[i]) == (LineView {
                translation: translated(lines, trans)[i].translation,
                ..lines[i]
            }),
{
}

/// Word-level lyrics come first: they are used whenever they have a line.
/// Their lines have words. Line-level lyrics have lines without words. Without
/// either there are no lines at all.
pub proof fn law_kind_tells_what_there_is(p: TrackPayloadView)
    ensures
        lyrics_of(p) matches Some(l) ==> {
            &&& l.kind == LyricKind::Yrc <==> (p.yrc matches Some(text) && yrc::yrc(text).len() > 0)
            &&& l.kind == LyricKind::Absent <==> l.lines.len() == 0
            &&& l.kind == LyricKind::Yrc ==> forall|i: int|
                0 <= i < l.lines.len() ==> (#[trigger] l.lines[i]).words.len() > 0
            &&& l.kind == LyricKind::Lrc ==> forall|i: int|
                0 <= i < l.lines.len() ==> (#[trigger] l.lines[i]).words.len() == 0
            &&& forall|i: int| 0 <= i < l.lines.len() ==> (#[trigger] l.lines[i]).text.len() > 0
        },
{
    if let Some(l) = lyrics_of(p) {
        let own = own_lyrics(p)->0.lines;
        if let Some(text) = p.yrc {
            yrc::law_yrc_lines_have_words(text);
        }
        if let Some(text) = p.lrc {
            lrc::law_lrc_lines_follow_each_other(text);
        }
        if l.kind == LyricKind::Yrc {
            assert forall|i: int| 0 <= i < l.lines.len() implies (#[trigger] l.lines[i]).words.len()
                > 0 && l.lines[i].text.len() > 0 by {
                assert(yrc::has_words(own[i]));
            }
        }
        if l.kind == LyricKind::Lrc {
            assert forall|i: int| 0 <= i < l.lines.len() implies (#[trigger] l.lines[i]).words.len()
                == 0 && l.lines[i].text.len() > 0 by {
                assert(lrc::is_plain(own[i]));
            }
        }
    }
}

/// The nearest line of a translation holds text, is 300 milliseconds away or
/// less, and of all such lines none is nearer; of equally near ones it is the
/// first.
pub proof fn law_nearest_is_within_reach(trans: Seq<LineView>, time: u64, i: int)
    ensures
        is_nearest(trans, time, i) <==> {
            &&& 0 <= i < trans.len()
            &&& trans[i].text.len() > 0
            &&& -300 <= trans[i].time - time <= 300
            &&& forall|j: int|
                0 <= j < trans.len() && (#[trigger] trans[j]).text.len() > 0 && -300
                    <= trans[j].time - time <= 300 ==> {
                    &&& vstd::math::abs(trans[i].time - time) <= vstd::math::abs(
                        trans[j].time - time,
                    )
                    &&& j < i ==> vstd::math::abs(trans[i].time - time) < vstd::math::abs(
                        trans[j].time - time,
                    )
                }
        },
{
    assert forall|t: u64| #[trigger] distance(t, time) == vstd::math::abs(t - time) by {}
}

/// Each line gets the text of the nearest line of the translation, whatever else
/// the line holds. If none is within 300 milliseconds it keeps what it had. All
/// else about it stays as it is.
pub proof fn law_each_line_gets_its_translation(
    lines: Seq<LineView>,
    trans: Seq<LineView>,
    i: int,
)
    requires
        0 <= i < lines.len(),
    ensures
        translated(lines, trans).len() == lines.len(),
        ({
            let out = translated(lines, trans)[i];
            let time = lines[i].time;
            &&& out.time == time
            &&& out.duration == lines[i].duration
            &&& out.text == lines[i].text
            &&& out.words == lines[i].words
            &&& forall|k: int| #[trigger]
                is_nearest(trans, time, k) ==> out.translation == Some(trans[k].text)
            &&& (exists|j: int|
                0 <= j < trans.len() && (#[trigger] trans[j]).text.len() > 0 && -300
                    <= trans[j].time - time <= 300) ==> exists|k: int| #[trigger]
                is_nearest(trans, time, k)
            &&& !(exists|j: int|
                0 <= j < trans.len() && (#[trigger] trans[j]).text.len() > 0 && -300
                    <= trans[j].time - time <= 300) ==> out.translation == lines[i].translation
        }),
{
    let time = lines[i].time;
    law_translation_is_the_nearest(trans, time);
    assert forall|k: int| #[trigger]
        is_nearest(trans, time, k) implies translated(lines, trans)[i].translation == Some(
        trans[k].text,
    ) by {
        lemma_nearest_is_unique(trans, time, k);
    }
    if exists|j: int|
        0 <= j < trans.len() && (#[trigger] trans[j]).text.len() > 0 && -300 <= trans[j].time - time
            <= 300 {
        let j = choose|j: int|
            0 <= j < trans.len() && (#[trigger] trans[j]).text.len() > 0 && -300 <= trans[j].time
                - time <= 300;
        assert(may_translate(trans[j], time));
        lemma_nearest_exists(trans, time);
    } else {
        assert forall|j: int| 0 <= j < trans.len() implies !may_translate(
            #[trigger] trans[j],
            time,
        ) by {}
    }
}

/// The lyrics of a track are, apart from translations, all the lines of the text
/// they come from, each with its own time, duration, text and words. That is the
/// word-level text if it has any lyric line, and the line-level text otherwise;
/// if neither has one there are no lyrics. Each line has the nearest of the lines
/// of the translation, if there is one.
pub proof fn law_lyrics_are_all_the_lines(p: TrackPayloadView, trans: Seq<LineView>, i: int)
    requires
        match p.tlyric {
            Some(text) => lrc::lrc(text) == Some(trans),
            None => trans.len() == 0,
        },
    ensures
        lyrics_of(p) matches Some(l) ==> {
            let source = match l.kind {
                LyricKind::Yrc => yrc::yrc(p.yrc->0),
                LyricKind::Lrc => lrc::lrc(p.lrc->0)->0,
                LyricKind::Absent => Seq::empty(),
            };
            &&& l.kind == LyricKind::Yrc <==> (p.yrc matches Some(text) && yrc::yrc(text).len() > 0)
            &&& l.kind == LyricKind::Lrc <==> {
                &&& !(p.yrc matches Some(text) && yrc::yrc(text).len() > 0)
                &&& p.lrc matches Some(text) && lrc::lrc(text)->0.len() > 0
            }
            &&& l.lines.len() == source.len()
            &&& 0 <= i < source.len() ==> {
                let out = l.lines[i];
                &&& out.time == source[i].time
                &&& out.duration == source[i].duration
                &&& out.text == source[i].text
                &&& out.words == source[i].words
                &&& forall|k: int| #[trigger]
                    is_nearest(trans, out.time, k) ==> out.translation == Some(trans[k].text)
                &&& (forall|k: int| !(#[trigger] is_nearest(trans, out.time, k)))
                    ==> out.translation is None
            }
        },
{
    if let Some(l) = lyrics_of(p) {
        let own = own_lyrics(p)->0.lines;
        if p.tlyric is None {
            assert(trans == Seq::<LineView>::empty());
        }
        if let Some(text) = p.yrc {
            yrc::law_yrc_lines_have_words(text);
        }
        if let Some(text) = p.lrc {
            lrc::law_lrc_lines_follow_each_other(text);
        }
        if 0 <= i < own.len() {
            law_each_line_gets_its_translation(own, trans, i);
            if l.kind == LyricKind::Yrc {
                assert(yrc::has_words(yrc::yrc(p.yrc->0)[i]));
            }
            if l.kind == LyricKind::Lrc {
                assert(lrc::is_plain(lrc::lrc(p.lrc->0)->0[i]));
            }
        }
    }
}

/// The lyrics of a track can be evaluated exactly if the translation can and,
/// unless the word-level text has a lyric line, the line-level text can.
pub proof fn law_lyrics_are_there(p: TrackPayloadView)
    ensures
        lyrics_of(p) is Some <==> {
            &&& p.tlyric matches Some(text) ==> lrc::lrc(text) is Some
            &&& (p.yrc matches Some(text) && yrc::yrc(text).len() > 0) || (
            p.lrc matches Some(text) ==> lrc::lrc(text) is Some)
        },
{
}

/// A payload without texts has no song and no lyrics.
pub proof fn law_empty_payload_has_nothing()
    ensures
        no_payload().song is None,
        no_payload().yrc is None,
        no_payload().lrc is None,
        no_payload().tlyric is None,
        lyrics_of(no_payload()) matches Some(l) && l.kind == LyricKind::Absent && l.lines.len()
            == 0,
{
}

} // verus!
