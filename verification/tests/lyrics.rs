use ncm_nowplaying::lrc::{parse_stamp, read_stamp, try_parse_lrc, Stamp};
use ncm_nowplaying::lyrics::{
    attach_translation, empty, line_at, parse_lrc, parse_yrc, TrackPayload,
};
use ncm_nowplaying::model::{Line, LyricKind, Song, Word};
use ncm_nowplaying::timeline::insert_line;
use ncm_nowplaying::yrc::parse_words;

fn chars(s: &str) -> Vec<char> {
    s.chars().collect()
}

fn stamp(s: &str) -> Stamp {
    read_stamp(&chars(s))
}

fn line(time: u64, text: &str) -> Line {
    Line { time, duration: 0, text: text.to_string(), words: Vec::new(), translation: None }
}

fn payload(yrc: Option<&str>, lrc: Option<&str>, tlyric: Option<&str>) -> TrackPayload {
    TrackPayload {
        song: None,
        yrc: yrc.map(|s| s.to_string()),
        lrc: lrc.map(|s| s.to_string()),
        tlyric: tlyric.map(|s| s.to_string()),
    }
}

#[test]
fn yrc_line_with_words() {
    let lines = parse_yrc("{\"t\":0,\"c\":[{\"tx\":\"作词: \"}]}\n[368,1820](368,290,0)海(658,271,0)风");
    assert_eq!(lines.len(), 1);
    assert_eq!(lines[0].time, 368);
    assert_eq!(lines[0].duration, 1820);
    assert_eq!(lines[0].text, "海风");
    assert_eq!(lines[0].words.len(), 2);
    assert_eq!(lines[0].words[1].time, 658);
}

/// Real yrc taken from the live API (trackId 108965).
#[test]
fn yrc_from_production() {
    let raw = "[15600,3970](15600,290,0)不(15890,550,0)小(16440,510,0)心(16950,370,0)回(17320,500,0)到(17820,480,0)那(18300,430,0)一(18730,840,0)天\n\
               [20000,3100](20000,330,0)不(20330,540,0)小(20870,410,0)心(21280,390,0)一(21670,490,0)切(22160,270,0)又(22430,340,0)重(22770,330,0)演";
    let lines = parse_yrc(raw);
    assert_eq!(lines.len(), 2);
    assert_eq!(lines[0].time, 15_600);
    assert_eq!(lines[0].duration, 3_970);
    assert_eq!(lines[0].text, "不小心回到那一天");
    assert_eq!(lines[0].words.len(), 8);
    assert_eq!(lines[0].words[7].time, 18_730);
    assert_eq!(lines[0].words[7].duration, 840);
    assert_eq!(lines[1].text, "不小心一切又重演");
    assert_eq!(line_at(&lines, 21_000), Some(1));
}

#[test]
fn lrc_stamps_and_durations() {
    let lines = parse_lrc("[ti:x]\n[00:01.50]line one\n[00:03.00][00:09.25]line two");
    assert_eq!(lines.len(), 3);
    assert_eq!(lines[0].time, 1500);
    assert_eq!(lines[0].duration, 1500);
    assert_eq!(lines[2].time, 9250);
}

#[test]
fn locate_line() {
    let lines = parse_lrc("[00:01.00]a\n[00:05.00]b");
    assert_eq!(line_at(&lines, 0), None);
    assert_eq!(line_at(&lines, 1_000), Some(0));
    assert_eq!(line_at(&lines, 4_999), Some(0));
    assert_eq!(line_at(&lines, 5_000), Some(1));
}

#[test]
fn no_line_without_lines() {
    assert_eq!(line_at(&[], 7), None);
}

#[test]
fn words_skip_stray_text_and_bad_groups() {
    let words = parse_words(&chars("stray(1,2,0)a(x,2,0)lost(3,4)b(5,6,0)(7)c(8, 9 ,0)d)e(10,"));
    assert_eq!(
        words,
        vec![
            Word { time: 1, duration: 2, text: "a".to_string() },
            Word { time: 3, duration: 4, text: "b".to_string() },
            Word { time: 8, duration: 9, text: "d)e".to_string() },
        ]
    );
}

#[test]
fn words_read_back() {
    let words = parse_words(&chars("(0,290,0)海(18446744073709551615,271,0)风 (3,4,0)x"));
    assert_eq!(words.len(), 3);
    assert_eq!(words[1], Word { time: u64::MAX, duration: 271, text: "风 ".to_string() });
    let words = parse_words(&chars("(1,2,0)a\nb\r\n(3,4,0)\n"));
    assert_eq!(
        words,
        vec![
            Word { time: 1, duration: 2, text: "a\nb\r\n".to_string() },
            Word { time: 3, duration: 4, text: "\n".to_string() },
        ]
    );
}

#[test]
fn yrc_reads_back_with_or_without_a_final_break() {
    let source = "[1,4](1,2,0)a (3,2,0)b\n[5,1](5,1,0)c\n[5,2](5,2,0) d";
    let lines = parse_yrc(source);
    let got: Vec<(u64, u64, &str, usize)> =
        lines.iter().map(|l| (l.time, l.duration, l.text.as_str(), l.words.len())).collect();
    assert_eq!(got, vec![(1, 4, "a b", 2), (5, 1, "c", 1), (5, 2, "d", 1)]);
    assert_eq!(parse_yrc(&format!("{source}\n")), lines);
}

#[test]
fn lrc_reads_back_with_or_without_a_final_break() {
    let source = "[00:01][00:03.5]a b\n[00:04][open\n[00:06]c";
    let lines = parse_lrc(source);
    let got: Vec<(u64, u64, &str)> =
        lines.iter().map(|l| (l.time, l.duration, l.text.as_str())).collect();
    assert_eq!(
        got,
        vec![
            (1_000, 2_500, "a b"),
            (3_500, 500, "a b"),
            (4_000, 2_000, "[open"),
            (6_000, 5_000, "c"),
        ]
    );
    assert_eq!(parse_lrc(&format!("{source}\n")), lines);
}

#[test]
fn yrc_lines_of_another_form_are_skipped() {
    assert!(parse_yrc("").is_empty());
    assert!(parse_yrc("no bracket\n[1,2(3,4,0)a\n[1](3,4,0)a\n[a,2](3,4,0)b").is_empty());
    assert!(parse_yrc("[1,2](3,4,0) (5,6,0)\u{3000}").is_empty());
    assert!(parse_yrc("[18446744073709551616,2](3,4,0)a").is_empty());
    let lines = parse_yrc("  [ +7 , 8 ,9](3,4,0) a\r\n");
    assert_eq!(lines.len(), 1);
    assert_eq!((lines[0].time, lines[0].duration), (7, 8));
    assert_eq!(lines[0].text, "a");
    assert_eq!(lines[0].words[0].text, " a");
}

#[test]
fn yrc_lines_are_sorted_and_keep_ties() {
    let lines = parse_yrc("[9,1](9,1,0)c\n[5,1](5,1,0)a\n[5,2](5,2,0)b\n[1,1](1,1,0)z");
    let texts: Vec<&str> = lines.iter().map(|l| l.text.as_str()).collect();
    assert_eq!(texts, vec!["z", "a", "b", "c"]);
}

#[test]
fn insertion_goes_behind_equal_times() {
    let mut lines = vec![line(1, "a"), line(2, "b"), line(3, "d")];
    insert_line(&mut lines, line(2, "c"));
    let texts: Vec<&str> = lines.iter().map(|l| l.text.as_str()).collect();
    assert_eq!(texts, vec!["a", "b", "c", "d"]);
}

#[test]
fn stamps() {
    assert_eq!(stamp("01:02"), Stamp::Time(62_000));
    assert_eq!(stamp("01:02.3"), Stamp::Time(62_300));
    assert_eq!(stamp("01:02.34"), Stamp::Time(62_340));
    assert_eq!(stamp("01:02.345"), Stamp::Time(62_345));
    assert_eq!(stamp("01:02.3456"), Stamp::Time(62_345));
    assert_eq!(stamp("01:02:34"), Stamp::Time(62_340));
    assert_eq!(stamp(" 1 : 2 .+5"), Stamp::Time(62_050));
    assert_eq!(stamp("ti:x"), Stamp::Tag);
    assert_eq!(stamp("0102"), Stamp::Tag);
    assert_eq!(stamp("01:02.x"), Stamp::Tag);
    assert_eq!(stamp("01:02.é"), Stamp::Tag);
    assert_eq!(stamp("01:02.中"), Stamp::Tag);
    assert_eq!(stamp("01:-2"), Stamp::Tag);
    assert_eq!(parse_stamp(&chars("00:09.25")), Some(9250));
    assert_eq!(parse_stamp(&chars("by:someone")), None);
}

#[test]
fn stamps_that_cannot_be_evaluated() {
    assert_eq!(stamp("01:02.1éx"), Stamp::Tag);
    assert_eq!(stamp("01:02.12é"), Stamp::Fault);
    assert_eq!(stamp("01:02.😀"), Stamp::Fault);
    assert_eq!(stamp("307445734561825:51.615"), Stamp::Time(307445734561825 * 60_000 + 51_615));
    assert_eq!(stamp("307445734561826:00"), Stamp::Fault);
    assert_eq!(try_parse_lrc("[307445734561826:00]a"), None);
    assert_eq!(try_parse_lrc("[307445734561825:51.615]a"), None);
    assert_eq!(try_parse_lrc("[307445734561825:46.615]a").map(|l| l.len()), Some(1));
}

#[test]
fn lrc_lines_follow_each_other() {
    let lines = parse_lrc("[00:05]b\n{\"t\":0}\n[00:01][00:09] a [x] \n[00:03]\nplain\n[ar:x][00:04]no\n[00:07][open");
    let got: Vec<(u64, u64, &str)> =
        lines.iter().map(|l| (l.time, l.duration, l.text.as_str())).collect();
    assert_eq!(
        got,
        vec![
            (1_000, 4_000, "a [x]"),
            (5_000, 2_000, "b"),
            (7_000, 2_000, "[open"),
            (9_000, 5_000, "a [x]"),
        ]
    );
    assert!(lines.iter().all(|l| l.words.is_empty() && l.translation.is_none()));
}

#[test]
fn translation_is_the_nearest_within_reach() {
    let mut lines = vec![line(1_000, "a"), line(2_000, "b"), line(3_000, "c")];
    let trans = vec![
        line(800, "far"),
        line(1_050, "near"),
        line(1_700, "first"),
        line(2_300, "second"),
        line(3_301, "beyond"),
        line(3_000, ""),
    ];
    attach_translation(&mut lines, &trans);
    assert_eq!(lines[0].translation, Some("near".to_string()));
    assert_eq!(lines[1].translation, Some("first".to_string()));
    assert_eq!(lines[2].translation, None);
}

#[test]
fn translation_leaves_the_rest_alone() {
    let mut lines = parse_yrc("[10,20](10,20,0)a");
    attach_translation(&mut lines, &vec![line(10, "t")]);
    assert_eq!(
        lines[0],
        Line {
            time: 10,
            duration: 20,
            text: "a".to_string(),
            words: vec![Word { time: 10, duration: 20, text: "a".to_string() }],
            translation: Some("t".to_string()),
        }
    );
}

#[test]
fn words_come_first() {
    let p = payload(Some("[1000,20](10,20,0)a"), Some("[00:01]b"), Some("[00:01.2]t"));
    let (song, lyrics) = p.into_parts();
    assert_eq!(song, None);
    assert_eq!(lyrics.kind, LyricKind::Yrc);
    assert_eq!(lyrics.lines.len(), 1);
    assert_eq!(lyrics.lines[0].text, "a");
    assert_eq!(lyrics.lines[0].translation, Some("t".to_string()));
}

#[test]
fn lines_stand_in_for_words() {
    let (_, lyrics) = payload(Some("{}"), Some("[00:01]b"), None).into_parts();
    assert_eq!(lyrics.kind, LyricKind::Lrc);
    assert_eq!(lyrics.lines[0].text, "b");
    assert!(lyrics.lines[0].words.is_empty());
}

#[test]
fn no_lyrics() {
    let (song, lyrics) = empty().into_parts();
    assert_eq!(song, None);
    assert_eq!(lyrics.kind, LyricKind::Absent);
    assert!(lyrics.lines.is_empty());
    let (_, lyrics) = payload(Some(""), Some("[ti:x]"), Some("[00:01]t")).into_parts();
    assert_eq!(lyrics.kind, LyricKind::Absent);
}

#[test]
fn parts_keep_the_song() {
    let song = Song {
        id: "1".to_string(),
        name: "n".to_string(),
        artists: vec!["x".to_string(), "y".to_string()],
        album: "a".to_string(),
        album_pic: "p".to_string(),
        duration_ms: 5,
    };
    let p = TrackPayload { song: Some(song.clone()), yrc: None, lrc: None, tlyric: None };
    let copy = p.clone();
    assert_eq!(p.into_parts().0, Some(song.clone()));
    assert_eq!(copy.song, Some(song));
}

#[test]
fn unreadable_lyrics() {
    assert!(!payload(None, Some("[307445734561826:00]a"), None).is_readable());
    assert!(!payload(None, None, Some("[307445734561826:00]a")).is_readable());
    assert!(payload(Some("[1,2](3,4,0)a"), Some("[307445734561826:00]a"), None).is_readable());
    assert!(payload(None, Some("[00:01]a"), None).try_lyrics().is_some());
}
