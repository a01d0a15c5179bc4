//! Line-level lyrics: `lrc` and translations, which use the conventional
//! `[mm:ss.xx]text` form.

use vstd::prelude::*;
use vstd::slice::slice_subrange;

use crate::model;
use crate::model::{Line, LineView};
use crate::text;
use crate::timeline;

verus! {

/// How long the last line of a text stays, in milliseconds.
pub const LAST_LINE_MS: u64 = 5000;

/// What stands between two brackets at the start of a line.
#[derive(Debug, Clone, Copy, PartialEq, Eq, Structural)]
pub enum Stamp {
    /// A time in milliseconds.
    Time(u64),
    /// Something else, such as `ti:xxx`.
    Tag,
    /// A stamp that cannot be evaluated: its time does not fit in 64 bits, or
    /// the third byte of its fraction ends inside a character.
    Fault,
}

/// How many characters at the start of a text take up exactly `bytes` bytes in
/// UTF-8. There is no such number if the byte after them is inside a character
/// or past the end.
pub open spec fn chars_in(s: Seq<char>, bytes: nat) -> Option<nat>
    decreases s.len(),
{
    if bytes == 0 {
        Some(0)
    } else if s.len() == 0 || vstd::utf8::encode_scalar(s.first() as u32).len() > bytes {
        None
    } else {
        match chars_in(
            s.drop_first(),
            (bytes - vstd::utf8::encode_scalar(s.first() as u32).len()) as nat,
        ) {
            Some(n) => Some(n + 1),
            None => None,
        }
    }
}

/// A number with its unit in milliseconds.
pub open spec fn scaled(number: Option<u64>, unit: nat) -> Stamp {
    match number {
        Some(n) => if n * unit <= u64::MAX {
            Stamp::Time((n * unit) as u64)
        } else {
            Stamp::Fault
        },
        None => Stamp::Tag,
    }
}

/// The fraction of a second that a stamp ends in, by its length in bytes:
/// nothing, tenths, hundredths or thousandths. What follows the thousandths
/// does not matter.
pub open spec fn fraction(s: Seq<char>) -> Stamp {
    let bytes = vstd::utf8::encode_utf8(s).len();
    if bytes == 0 {
        Stamp::Time(0)
    } else if bytes == 1 {
        scaled(text::number_in(s, u64::MAX), 100)
    } else if bytes == 2 {
        scaled(text::number_in(s, u64::MAX), 10)
    } else {
        match chars_in(s, 3) {
            Some(n) => scaled(text::number_in(s.take(n as int), u64::MAX), 1),
            None => Stamp::Fault,
        }
    }
}

/// The seconds of a stamp, and the fraction behind them.
pub open spec fn seconds(s: Seq<char>) -> (Seq<char>, Seq<char>) {
    match text::split_at_either(s, '.', ':') {
        Some(parts) => parts,
        None => (s, seq![]),
    }
}

/// The time that a stamp writes as `mm:ss`, `mm:ss.xx` or `mm:ss.xxx`.
pub open spec fn stamp(head: Seq<char>) -> Stamp {
    match text::split_at_char(head, ':') {
        Some((min, rest)) => match (
            text::number_in(text::trimmed(min), u64::MAX),
            text::number_in(text::trimmed(seconds(rest).0), u64::MAX),
        ) {
            (Some(min), Some(sec)) => match fraction(seconds(rest).1) {
                Stamp::Time(ms) => if (min * 60 + sec) * 1000 + ms <= u64::MAX {
                    Stamp::Time(((min * 60 + sec) * 1000 + ms) as u64)
                } else {
                    Stamp::Fault
                },
                other => other,
            },
            _ => Stamp::Tag,
        },
        None => Stamp::Tag,
    }
}

/// How many bytes a character takes up in UTF-8.
fn width(c: char) -> (r: usize)
    ensures
        r == vstd::utf8::encode_scalar(c as u32).len(),
        1 <= r <= 4,
{
    let n: u32 = c as u32;
    if n < 0x80 {
        1
    } else if n < 0x800 {
        2
    } else if n < 0x10000 {
        3
    } else {
        4
    }
}

/// Reads the fraction of a second that a stamp ends in.
fn read_fraction(s: &[char]) -> (r: Stamp)
    ensures
        r == fraction(s@),
{
    let mut i: usize = 0;
    let mut bytes: usize = 0;
    let ghost total = vstd::utf8::encode_utf8(s@).len();
    assert(s@.skip(0) == s@);
    while i < s.len() && bytes < 3
        invariant
            i <= s@.len(),
            i <= bytes <= 6,
            bytes < 3 || i > 0,
            total == vstd::utf8::encode_utf8(s@).len(),
            total == bytes + vstd::utf8::encode_utf8(s@.skip(i as int)).len(),
            bytes <= 3 ==> chars_in(s@, 3) == match chars_in(s@.skip(i as int), (3 - bytes) as nat) {
                Some(n) => Some(n + i as nat),
                None => None,
            },
            bytes > 3 ==> chars_in(s@, 3) is None,
        decreases s@.len() - i,
    {
        let w: usize = width(s[i]);
        assert(s@.skip(i as int).drop_first() == s@.skip(i + 1));
        bytes = bytes + w;
        i = i + 1;
    }
    if bytes > 3 {
        return Stamp::Fault;
    }
    if bytes == 3 {
        assert(chars_in(s@, 3) == Some(i as nat));
        return match text::read_number(slice_subrange(s, 0, i), u64::MAX) {
            Some(n) => Stamp::Time(n),
            None => Stamp::Tag,
        };
    }
    assert(s@.skip(i as int).len() == 0);
    assert(total == bytes);
    if bytes == 0 {
        return Stamp::Time(0);
    }
    let unit: u64 = if bytes == 1 {
        100
    } else {
        10
    };
    match text::read_number(s, u64::MAX) {
        Some(n) => {
            proof {
                lemma_two_digits(s@);
            }
            Stamp::Time(n * unit)
        },
        None => Stamp::Tag,
    }
}

/// One or two characters write a number below one hundred.
proof fn lemma_two_digits(s: Seq<char>)
    requires
        s.len() <= 2,
    ensures
        text::number_in(s, u64::MAX) matches Some(n) ==> n < 100,
{
    reveal_with_fuel(text::digits_value, 3);
    let d = text::without_plus(s);
    if d.len() > 0 && text::all_digits(d) {
        assert(text::is_digit(d[d.len() - 1]));
        if d.len() == 2 {
            assert(text::is_digit(d[0]));
        }
    }
}

/// Reads what stands between two brackets.
pub fn read_stamp(head: &[char]) -> (r: Stamp)
    ensures
        r == stamp(head@),
{
    match text::split_either(head, ':', ':') {
        Some((min, rest)) => {
            let (sec, frac): (&[char], &[char]) = match text::split_either(rest, '.', ':') {
                Some(parts) => parts,
                None => (rest, slice_subrange(rest, 0, 0)),
            };
            assert(sec@ == seconds(rest@).0);
            assert(frac@ == seconds(rest@).1);
            match (
                text::read_number(text::trim(min), u64::MAX),
                text::read_number(text::trim(sec), u64::MAX),
            ) {
                (Some(min), Some(sec)) => match read_fraction(frac) {
                    Stamp::Time(ms) => {
                        let total: u128 = (min as u128 * 60 + sec as u128) * 1000 + ms as u128;
                        if total <= u64::MAX as u128 {
                            Stamp::Time(total as u64)
                        } else {
                            Stamp::Fault
                        }
                    },
                    other => other,
                },
                _ => Stamp::Tag,
            }
        },
        None => Stamp::Tag,
    }
}

/// `mm:ss`, `mm:ss.xx` or `mm:ss.xxx` -> milliseconds
pub fn parse_stamp(head: &[char]) -> (r: Option<u64>)
    requires
        stamp(head@) != Stamp::Fault,
    ensures
        r == match stamp(head@) {
            Stamp::Time(ms) => Some(ms),
            _ => None,
        },
{
    match read_stamp(head) {
        Stamp::Time(ms) => Some(ms),
        _ => None,
    }
}

/// What the stamps ahead of a line come to.
pub enum Row {
    /// The times of the line, and the text behind the stamps.
    Stamped { times: Seq<u64>, body: Seq<char> },
    /// A tag stands among the stamps.
    Tagged,
    /// A stamp cannot be evaluated.
    Fault,
}

/// The stamps ahead of a line, `[..][..]text`. They end at the first character
/// that opens no bracket, or at a bracket that is never closed. The first tag
/// or fault among them decides.
pub open spec fn row(s: Seq<char>) -> Row
    decreases s.len(),
{
    if s.len() > 0 && s.first() == '[' {
        match text::split_at_char(s.skip(1), ']') {
            Some((head, tail)) => match stamp(head) {
                Stamp::Time(ms) => match row(tail) {
                    Row::Stamped { times, body } => Row::Stamped {
                        times: seq![ms] + times,
                        body,
                    },
                    other => other,
                },
                Stamp::Tag => Row::Tagged,
                Stamp::Fault => Row::Fault,
            },
            None => Row::Stamped { times: seq![], body: s },
        }
    } else {
        Row::Stamped { times: seq![], body: s }
    }
}

/// The lyric lines that one line of a text holds: one for each stamp, all with
/// the text behind the stamps. There are none if the line carries a tag, has no
/// stamp or no text, or is metadata, which starts with `{"`.
///
/// The result is `None` if a stamp of the line cannot be evaluated.
pub open spec fn lrc_entries(raw: Seq<char>) -> Option<Seq<LineView>> {
    let raw = text::trimmed(raw);
    if raw.len() >= 2 && raw[0] == '{' && raw[1] == '"' {
        Some(seq![])
    } else {
        match row(raw) {
            Row::Stamped { times, body } => {
                let line = text::trimmed(body);
                if line.len() > 0 {
                    Some(Seq::new(times.len(), |i: int| plain_line(times[i], line)))
                } else {
                    Some(seq![])
                }
            },
            Row::Tagged => Some(seq![]),
            Row::Fault => None,
        }
    }
}

/// A line without words, translation and, as yet, duration.
pub open spec fn plain_line(time: u64, line: Seq<char>) -> LineView {
    LineView { time, duration: 0, text: line, words: seq![], translation: None }
}

/// The lyric lines of several lines of a text, in the order of the text.
pub open spec fn lrc_lines(raw: Seq<Seq<char>>) -> Option<Seq<LineView>>
    decreases raw.len(),
{
    if raw.len() == 0 {
        Some(seq![])
    } else {
        match (lrc_lines(raw.drop_last()), lrc_entries(raw.last())) {
            (Some(before), Some(entries)) => Some(before + entries),
            _ => None,
        }
    }
}

/// When a line of an ordered row ends: at the start of the next one, or a fixed
/// time after its own start if it is the last.
pub open spec fn end_of(s: Seq<LineView>, i: int) -> int {
    if i + 1 < s.len() {
        s[i + 1].time as int
    } else {
        s[i].time + LAST_LINE_MS
    }
}

/// An ordered row of lines, each lasting until it ends.
pub open spec fn timed(s: Seq<LineView>) -> Seq<LineView> {
    Seq::new(
        s.len(),
        |i: int| LineView { duration: (end_of(s, i) - s[i].time) as u64, ..s[i] },
    )
}

/// The lyric lines of an lrc text, sorted by their time and with their
/// durations.
///
/// The result is `None` if a stamp of the text cannot be evaluated, or if the
/// end of the last line does not fit in 64 bits.
pub open spec fn lrc(source: Seq<char>) -> Option<Seq<LineView>> {
    match lrc_lines(text::lines_of(source)) {
        Some(found) => {
            let s = timeline::sorted(found);
            if s.len() > 0 && s.last().time + LAST_LINE_MS > u64::MAX {
                None
            } else {
                Some(timed(s))
            }
        },
        None => None,
    }
}

/// Reads the stamps of one line of a text and puts its lyric lines in among
/// those found before. Gives `false` if a stamp cannot be evaluated.
fn read_row(source: &[char], out: &mut Vec<Line>, Ghost(before): Ghost<Seq<LineView>>) -> (r: bool)
    requires
        model::lines_view(old(out)@) == timeline::sorted(before),
    ensures
        r == lrc_entries(source@) is Some,
        lrc_entries(source@) matches Some(entries) ==> model::lines_view(final(out)@)
            == timeline::sorted(before + entries),
{
    let raw: &[char] = text::trim(source);
    assert(before + Seq::<LineView>::empty() == before);
    if raw.len() >= 2 && raw[0] == '{' && raw[1] == '"' {
        return true;
    }
    let mut times: Vec<u64> = Vec::new();
    let mut rest: &[char] = raw;
    let mut more: bool = true;
    while more
        invariant
            match (row(raw@), row(rest@)) {
                (Row::Stamped { times: t, body: b }, Row::Stamped { times: u, body: c }) => t
                    == times@ + u && b == c,
                (Row::Tagged, Row::Tagged) => true,
                (Row::Fault, Row::Fault) => true,
                _ => false,
            },
            !more ==> row(rest@) == (Row::Stamped { times: seq![], body: rest@ }),
            model::lines_view(out@) == timeline::sorted(before),
            before + Seq::<LineView>::empty() == before,
            raw@ == text::trimmed(source@),
            !(raw@.len() >= 2 && raw@[0] == '{' && raw@[1] == '"'),
        decreases
            if more {
                rest@.len() + 1
            } else {
                0
            },
    {
        if rest.len() > 0 && rest[0] == '[' {
            let inner: &[char] = slice_subrange(rest, 1, rest.len());
            assert(inner@ == rest@.skip(1));
            match text::split_either(inner, ']', ']') {
                Some((head, tail)) => {
                    match read_stamp(head) {
                        Stamp::Time(ms) => {
                            let ghost was = times@;
                            times.push(ms);
                            proof {
                                if let Row::Stamped { times: u, body: c } = row(tail@) {
                                    assert(was + (seq![ms] + u) == times@ + u);
                                }
                            }
                            rest = tail;
                        },
                        Stamp::Tag => {
                            return true;
                        },
                        Stamp::Fault => {
                            return false;
                        },
                    }
                },
                None => {
                    more = false;
                },
            }
        } else {
            more = false;
        }
    }
    let body: &[char] = text::trim(rest);
    if body.len() == 0 {
        return true;
    }
    let ghost entries = Seq::new(times@.len(), |i: int| plain_line(times@[i], body@));
    let mut k: usize = 0;
    assert(before + entries.take(0) == before);
    while k < times.len()
        invariant
            k <= times@.len(),
            entries == Seq::new(times@.len(), |i: int| plain_line(times@[i], body@)),
            model::lines_view(out@) == timeline::sorted(before + entries.take(k as int)),
        decreases times@.len() - k,
    {
        let line = Line {
            time: times[k],
            duration: 0,
            text: text::text_of(body),
            words: Vec::new(),
            translation: None,
        };
        assert(line@ == entries[k as int]);
        let ghost next = before + entries.take(k + 1);
        assert(next.drop_last() == before + entries.take(k as int));
        assert(next.last() == entries[k as int]);
        timeline::insert_line(out, line);
        k = k + 1;
    }
    assert(entries.take(k as int) == entries);
    true
}

/// Reads line-level lyrics, if every stamp can be evaluated and the end of the
/// last line fits in 64 bits.
pub fn try_parse_lrc(text: &str) -> (r: Option<Vec<Line>>)
    ensures
        match r {
            Some(lines) => lrc(text@) == Some(model::lines_view(lines@)),
            None => lrc(text@) is None,
        },
{
    let all: Vec<char> = text::chars_of(text);
    let raw: Vec<&[char]> = text::lines(all.as_slice());
    let ghost source = text::lines_of(text@);
    let mut out: Vec<Line> = Vec::new();
    let mut i: usize = 0;
    assert(source.take(0) == Seq::<Seq<char>>::empty());
    assert(model::lines_view(out@) == timeline::sorted(Seq::empty()));
    while i < raw.len()
        invariant
            i <= raw@.len(),
            raw@.len() == source.len(),
            source == text::lines_of(text@),
            forall|k: int| 0 <= k < raw@.len() ==> (#[trigger] raw@[k])@ == source[k],
            lrc_lines(source.take(i as int)) matches Some(found) && model::lines_view(out@)
                == timeline::sorted(found),
        decreases raw@.len() - i,
    {
        let ghost found = lrc_lines(source.take(i as int))->0;
        assert(source.take(i + 1).drop_last() == source.take(i as int));
        if !read_row(raw[i], &mut out, Ghost(found)) {
            proof {
                lemma_fault_stays(source, i + 1);
            }
            return None;
        }
        i = i + 1;
    }
    assert(source.take(i as int) == source);
    let ghost found = lrc_lines(source)->0;
    let ghost views = model::lines_view(out@);
    proof {
        timeline::law_sorted_is_ordered(found);
    }
    let n: usize = out.len();
    if n > 0 && out[n - 1].time > u64::MAX - LAST_LINE_MS {
        return None;
    }
    let mut j: usize = 0;
    while j < n
        invariant
            j <= n,
            n == out@.len(),
            n == views.len(),
            timeline::ordered(views),
            n > 0 ==> views[n - 1].time + LAST_LINE_MS <= u64::MAX,
            forall|k: int| 0 <= k < j ==> (#[trigger] out@[k])@ == timed(views)[k],
            forall|k: int| j <= k < n ==> (#[trigger] out@[k])@ == views[k],
        decreases n - j,
    {
        let time: u64 = out[j].time;
        assert(out@[j as int]@ == views[j as int]);
        let end: u64 = if j + 1 < n {
            assert(out@[j + 1]@ == views[j + 1]);
            assert(views[j as int].time <= views[j + 1].time);
            out[j + 1].time
        } else {
            time + LAST_LINE_MS
        };
        out[j].duration = end - time;
        assert(out@[j as int]@ == timed(views)[j as int]);
        j = j + 1;
    }
    assert(model::lines_view(out@) == timed(views));
    Some(out)
}

/// A line that cannot be evaluated makes the text one that cannot.
proof fn lemma_fault_stays(raw: Seq<Seq<char>>, n: int)
    requires
        0 <= n <= raw.len(),
        lrc_lines(raw.take(n)) is None,
    ensures
        lrc_lines(raw) is None,
    decreases raw.len(),
{
    if n < raw.len() {
        assert(raw.drop_last().take(n) == raw.take(n));
        lemma_fault_stays(raw.drop_last(), n);
    } else {
        assert(raw.take(n) == raw);
    }
}

/// Reads line-level lyrics.
pub fn parse_lrc(text: &str) -> (out: Vec<Line>)
    requires
        lrc(text@) is Some,
    ensures
        lrc(text@) == Some(model::lines_view(out@)),
{
    try_parse_lrc(text).unwrap()
}

/// The milliseconds that the digits of a fraction write.
pub open spec fn fraction_ms(f: Seq<char>) -> nat {
    if f.len() == 0 {
        0
    } else if f.len() == 1 {
        text::digits_value(f) * 100
    } else if f.len() == 2 {
        text::digits_value(f) * 10
    } else {
        text::digits_value(f.take(3))
    }
}

/// Digits are one byte each.
proof fn lemma_digit_bytes(s: Seq<char>)
    requires
        text::all_digits(s),
    ensures
        vstd::utf8::encode_utf8(s).len() == s.len(),
        s.len() >= 3 ==> chars_in(s, 3) == Some(3nat),
    decreases s.len(),
{
    reveal_with_fuel(chars_in, 4);
    if s.len() > 0 {
        assert(text::is_digit(s[0]));
        assert forall|i: int| 0 <= i < s.drop_first().len() implies text::is_digit(
            #[trigger] s.drop_first()[i],
        ) by {
            assert(s.drop_first()[i] == s[i + 1]);
        }
        lemma_digit_bytes(s.drop_first());
        if s.len() >= 3 {
            assert(text::is_digit(s[1]) && text::is_digit(s[2]));
            assert(s.drop_first().first() == s[1]);
            assert(s.drop_first().drop_first().first() == s[2]);
        }
    }
}

/// Few digits write a small number.
proof fn lemma_few_digits(s: Seq<char>)
    requires
        text::all_digits(s),
        s.len() <= 3,
    ensures
        text::digits_value(s) < 1000,
{
    reveal_with_fuel(text::digits_value, 4);
    if s.len() > 0 {
        assert(text::is_digit(s[s.len() - 1]));
        if s.len() > 1 {
            assert(text::is_digit(s[s.len() - 2]));
            assert(s.drop_last().last() == s[s.len() - 2]);
            if s.len() > 2 {
                assert(text::is_digit(s[0]));
                assert(s.drop_last().drop_last().last() == s[0]);
            }
        }
    }
}

/// A row of digits reads as the number it writes.
proof fn lemma_digits_read(s: Seq<char>)
    requires
        text::all_digits(s),
        s.len() > 0,
        text::digits_value(s) <= u64::MAX,
    ensures
        text::number_in(s, u64::MAX) == Some(text::digits_value(s) as u64),
        text::trimmed(s) == s,
{
    assert(text::is_digit(s[0]));
    assert(text::is_digit(s[s.len() - 1]));
    text::lemma_trimmed_keeps(s);
}

/// The digits of a fraction read as the milliseconds they write.
proof fn lemma_fraction_reads(f: Seq<char>)
    requires
        text::all_digits(f),
    ensures
        fraction(f) == Stamp::Time(fraction_ms(f) as u64),
        fraction_ms(f) < 1_000_000,
{
    lemma_digit_bytes(f);
    if f.len() > 0 {
        let t = if f.len() < 3 {
            f
        } else {
            f.take(3)
        };
        assert forall|i: int| 0 <= i < t.len() implies text::is_digit(#[trigger] t[i]) by {
            assert(t[i] == f[i]);
        }
        lemma_few_digits(t);
        lemma_digits_read(t);
    }
}

/// A stamp `mm:ss` with, behind a dot, any number of further digits reads as the
/// time it writes: minutes, seconds and a fraction, of which three digits count.
pub proof fn law_stamp_reads(m: Seq<char>, s: Seq<char>, f: Seq<char>)
    requires
        text::all_digits(m),
        text::all_digits(s),
        text::all_digits(f),
        m.len() > 0,
        s.len() > 0,
        (text::digits_value(m) * 60 + text::digits_value(s)) * 1000 + fraction_ms(f) <= u64::MAX,
    ensures
        stamp(m.push(':') + s.push('.') + f) == Stamp::Time(
            ((text::digits_value(m) * 60 + text::digits_value(s)) * 1000 + fraction_ms(f)) as u64,
        ),
        f.len() == 0 ==> stamp(m.push(':') + s) == Stamp::Time(
            ((text::digits_value(m) * 60 + text::digits_value(s)) * 1000) as u64,
        ),
{
    let head = m.push(':') + s.push('.') + f;
    lemma_fraction_reads(f);
    lemma_digits_read(m);
    lemma_digits_read(s);
    assert forall|j: int| 0 <= j < m.len() implies head[j] != ':' by {
        assert(text::is_digit(m[j]));
    }
    text::lemma_run_before(head, ':', ':', m.len() as int);
    assert(head.take(m.len() as int) == m);
    let rest = head.skip(m.len() as int + 1);
    assert(rest == s.push('.') + f);
    assert forall|j: int| 0 <= j < s.len() implies rest[j] != '.' && rest[j] != ':' by {
        assert(text::is_digit(s[j]));
    }
    text::lemma_run_before(rest, '.', ':', s.len() as int);
    assert(rest.take(s.len() as int) == s);
    assert(rest.skip(s.len() as int + 1) == f);
    if f.len() == 0 {
        let short = m.push(':') + s;
        assert forall|j: int| 0 <= j < m.len() implies short[j] != ':' by {
            assert(text::is_digit(m[j]));
        }
        text::lemma_run_before(short, ':', ':', m.len() as int);
        assert(short.take(m.len() as int) == m);
        assert(short.skip(m.len() as int + 1) == s);
        assert forall|j: int| 0 <= j < s.len() implies s[j] != '.' && s[j] != ':' by {
            assert(text::is_digit(s[j]));
        }
        text::lemma_run_before(s, '.', ':', s.len() as int);
        lemma_digit_bytes(Seq::empty());
    }
}

/// Stamps, one behind the other, each in its brackets.
pub open spec fn stamps_source(heads: Seq<Seq<char>>) -> Seq<char>
    decreases heads.len(),
{
    if heads.len() == 0 {
        seq![]
    } else {
        heads.first().push(']').insert(0, '[') + stamps_source(heads.drop_first())
    }
}

/// Whether a text can stand between brackets and reads as a time.
pub open spec fn is_time(head: Seq<char>) -> bool {
    &&& stamp(head) is Time
    &&& forall|i: int| 0 <= i < head.len() ==> head[i] != ']'
}

/// The times of several stamps.
pub open spec fn times_of(heads: Seq<Seq<char>>) -> Seq<u64> {
    Seq::new(heads.len(), |i: int| stamp(heads[i])->Time_0)
}

/// The first brackets of a line decide first.
proof fn lemma_row_step(head: Seq<char>, tail: Seq<char>)
    requires
        forall|i: int| 0 <= i < head.len() ==> head[i] != ']',
    ensures
        row(head.push(']').insert(0, '[') + tail) == match stamp(head) {
            Stamp::Time(ms) => match row(tail) {
                Row::Stamped { times, body } => Row::Stamped { times: seq![ms] + times, body },
                other => other,
            },
            Stamp::Tag => Row::Tagged,
            Stamp::Fault => Row::Fault,
        },
{
    let s = head.push(']').insert(0, '[') + tail;
    let inner = s.skip(1);
    assert(inner == head + seq![']'] + tail);
    text::lemma_run_before(inner, ']', ']', head.len() as int);
    assert(inner.take(head.len() as int) == head);
    assert(inner.skip(head.len() as int + 1) == tail);
}

/// Stamps ahead of a line are read one by one.
#[verifier::rlimit(40)]
proof fn lemma_row_reads(heads: Seq<Seq<char>>, rest: Seq<char>)
    requires
        forall|i: int| 0 <= i < heads.len() ==> is_time(#[trigger] heads[i]),
    ensures
        row(stamps_source(heads) + rest) == match row(rest) {
            Row::Stamped { times, body } => Row::Stamped { times: times_of(heads) + times, body },
            other => other,
        },
    decreases heads.len(),
{
    let s = stamps_source(heads) + rest;
    if heads.len() == 0 {
        assert(s == rest);
        if let Row::Stamped { times, body } = row(rest) {
            assert(times_of(heads) + times == times);
        }
    } else {
        let h = heads.first();
        let others = heads.drop_first();
        assert forall|i: int| 0 <= i < others.len() implies is_time(#[trigger] others[i]) by {
            assert(others[i] == heads[i + 1]);
        }
        lemma_row_reads(others, rest);
        assert(is_time(heads[0]));
        lemma_row_step(h, stamps_source(others) + rest);
        assert(s == h.push(']').insert(0, '[') + (stamps_source(others) + rest));
        if let Row::Stamped { times, body } = row(rest) {
            assert(seq![stamp(h)->Time_0] + (times_of(others) + times) == times_of(heads) + times);
        }
    }
}

/// Whether a text does not start with another stamp or tag: a bracket at its
/// start, if there is one, is never closed.
pub open spec fn starts_no_stamp(body: Seq<char>) -> bool {
    body.len() > 0 && body.first() == '[' ==> forall|i: int| 0 <= i < body.len() ==> body[i] != ']'
}

/// A text that does not start with a stamp is read as it is.
proof fn lemma_row_of_body(body: Seq<char>)
    requires
        starts_no_stamp(body),
    ensures
        row(body) == (Row::Stamped { times: seq![], body }),
{
    if body.len() > 0 && body.first() == '[' {
        let inner = body.skip(1);
        assert forall|j: int| 0 <= j < inner.len() implies inner[j] != ']' by {
            assert(inner[j] == body[j + 1]);
        }
        text::lemma_run_before(inner, ']', ']', inner.len() as int);
    }
}

/// A line with stamps and text gives one lyric line for each of them, all with
/// the text behind the stamps, without the whitespace around it.
pub proof fn law_each_stamp_gives_a_line(heads: Seq<Seq<char>>, body: Seq<char>)
    requires
        heads.len() > 0,
        forall|i: int| 0 <= i < heads.len() ==> is_time(#[trigger] heads[i]),
        starts_no_stamp(body),
        text::trimmed(body).len() > 0,
    ensures
        lrc_entries(stamps_source(heads) + body) == Some(
            Seq::new(heads.len(), |i: int| plain_line(times_of(heads)[i], text::trimmed(body))),
        ),
{
    let raw = stamps_source(heads) + body;
    let rest = text::trim_end(body);
    assert(raw.first() == '[');
    text::lemma_trimmed_of_trim_end(body);
    if rest.len() == 0 {
        assert(text::trimmed(rest).len() == 0);
    }
    text::lemma_trim_end_behind(stamps_source(heads), body);
    assert(text::trimmed(raw) == stamps_source(heads) + rest);
    text::lemma_trim_end_is_a_start(body);
    law_line_gives_a_line_for_each_stamp(raw, heads, rest);
    text::law_only_whitespace_vanishes(rest);
}

/// A line that is made of any number of stamps and of what stands behind them,
/// with whitespace around all of it, gives one lyric line for each stamp, in the
/// order of the stamps: at the time of the stamp, with the text behind the
/// stamps and nothing else. It gives none if there is only whitespace behind
/// them.
pub proof fn law_line_gives_a_line_for_each_stamp(
    raw: Seq<char>,
    heads: Seq<Seq<char>>,
    body: Seq<char>,
)
    requires
        text::trimmed(raw) == stamps_source(heads) + body,
        forall|i: int| 0 <= i < heads.len() ==> is_time(#[trigger] heads[i]),
        starts_no_stamp(body),
    ensures
        lrc_entries(raw) is Some,
        text::all_white(body) ==> lrc_entries(raw)->0.len() == 0,
        !text::all_white(body) ==> {
            &&& lrc_entries(raw)->0.len() == heads.len()
            &&& forall|i: int|
                0 <= i < heads.len() ==> {
                    let l = #[trigger] lrc_entries(raw)->0[i];
                    &&& stamp(heads[i]) == Stamp::Time(l.time)
                    &&& l.duration == 0
                    &&& l.text == text::trimmed(body)
                    &&& l.words.len() == 0
                    &&& l.translation is None
                }
        },
        !text::all_white(body) ==> lrc_entries(raw) == Some(
            Seq::new(heads.len(), |i: int| plain_line(times_of(heads)[i], text::trimmed(body))),
        ),
{
    let s = text::trimmed(raw);
    lemma_row_of_body(body);
    lemma_row_reads(heads, body);
    assert(times_of(heads) + Seq::<u64>::empty() == times_of(heads));
    text::law_only_whitespace_vanishes(body);
    if heads.len() > 0 {
        assert(s.first() == '[');
        assert(is_time(heads[0]));
    }
    assert(lrc_entries(raw) is Some);
    assert forall|i: int| 0 <= i < heads.len() implies stamp(heads[i]) is Time by {
        assert(is_time(heads[i]));
    }
    if heads.len() == 0 {
        assert(lrc_entries(raw)->0 == Seq::<LineView>::empty());
        assert(lrc_entries(raw) == Some(
            Seq::new(heads.len(), |i: int| plain_line(times_of(heads)[i], text::trimmed(body))),
        ));
    }
}

/// A stamp that cannot be evaluated makes the line one that cannot.
pub proof fn law_fault_is_told(
    raw: Seq<char>,
    heads: Seq<Seq<char>>,
    fault: Seq<char>,
    rest: Seq<char>,
)
    requires
        text::trimmed(raw) == stamps_source(heads) + (fault.push(']').insert(0, '[') + rest),
        forall|i: int| 0 <= i < heads.len() ==> is_time(#[trigger] heads[i]),
        stamp(fault) is Fault,
        !fault.contains(']'),
    ensures
        lrc_entries(raw) is None,
{
    assert forall|i: int| 0 <= i < fault.len() implies fault[i] != ']' by {
        assert(fault.contains(fault[i]));
    }
    lemma_row_step(fault, rest);
    lemma_row_reads(heads, fault.push(']').insert(0, '[') + rest);
    assert(text::trimmed(raw).first() == '[');
}

/// One line of an lrc text: stamps, and the text behind them.
pub struct Stanza {
    pub heads: Seq<Seq<char>>,
    pub body: Seq<char>,
}

impl Stanza {
    /// Whether this can be written as a line: the stamps are times, and there
    /// is text behind them without whitespace around it.
    pub open spec fn wf(self) -> bool {
        &&& self.heads.len() > 0
        &&& forall|i: int| 0 <= i < self.heads.len() ==> is_time(#[trigger] self.heads[i])
        &&& forall|i: int|
            0 <= i < self.heads.len() ==> !(#[trigger] self.heads[i]).contains('\n')
        &&& starts_no_stamp(self.body)
        &&& self.body.len() > 0
        &&& !text::is_white(self.body.first())
        &&& !text::is_white(self.body.last())
        &&& !self.body.contains('\n')
    }

    /// The line.
    pub open spec fn source(self) -> Seq<char> {
        stamps_source(self.heads) + self.body
    }

    /// The lyric lines that the line holds, one for each stamp.
    pub open spec fn lines(self) -> Seq<LineView> {
        Seq::new(self.heads.len(), |i: int| plain_line(times_of(self.heads)[i], self.body))
    }
}

/// The lines of several stanzas.
pub open spec fn stanza_sources(s: Seq<Stanza>) -> Seq<Seq<char>> {
    Seq::new(s.len(), |i: int| s[i].source())
}

/// The lyric lines of several stanzas, in their order.
pub open spec fn stanza_lines(s: Seq<Stanza>) -> Seq<LineView>
    decreases s.len(),
{
    if s.len() == 0 {
        seq![]
    } else {
        stanza_lines(s.drop_last()) + s.last().lines()
    }
}

/// Stamps hold no line break.
proof fn lemma_stamps_are_one_line(heads: Seq<Seq<char>>)
    requires
        forall|i: int| 0 <= i < heads.len() ==> !(#[trigger] heads[i]).contains('\n'),
    ensures
        forall|i: int| 0 <= i < stamps_source(heads).len() ==> stamps_source(heads)[i] != '\n',
    decreases heads.len(),
{
    if heads.len() > 0 {
        let h = heads.first();
        let others = heads.drop_first();
        assert forall|i: int| 0 <= i < others.len() implies !(#[trigger] others[i]).contains(
            '\n',
        ) by {
            assert(others[i] == heads[i + 1]);
        }
        lemma_stamps_are_one_line(others);
        assert(!heads[0].contains('\n'));
        let s = stamps_source(heads);
        assert(s == seq!['['] + h + seq![']'] + stamps_source(others));
        assert forall|i: int| 0 <= i < s.len() implies s[i] != '\n' by {
            if 1 <= i < 1 + h.len() {
                assert(s[i] == h[i - 1]);
                assert(h.contains(h[i - 1]));
            } else if i >= 2 + h.len() {
                assert(s[i] == stamps_source(others)[i - 2 - h.len()]);
            }
        }
    }
}

/// A stanza is one line.
proof fn lemma_stanza_is_one_line(z: Stanza)
    requires
        z.wf(),
    ensures
        text::is_one_line(z.source()),
        z.source().len() > 0,
{
    lemma_stamps_are_one_line(z.heads);
    let raw = z.source();
    let n = stamps_source(z.heads).len() as int;
    assert forall|k: int| 0 <= k < raw.len() implies raw[k] != '\n' by {
        if k >= n {
            assert(z.body.contains(z.body[k - n]));
        }
    }
    assert(raw.last() == z.body.last());
}

/// Lyrics read back from the lrc format, with or without a line break behind the
/// last line: the lines of all stamps, in the order of their time, each lasting
/// until the next one. Lines that were in that order stay where they were.
pub proof fn law_lrc_reads_back(s: Seq<Stanza>)
    requires
        forall|i: int| 0 <= i < s.len() ==> (#[trigger] s[i]).wf(),
        forall|i: int|
            0 <= i < stanza_lines(s).len() ==> (#[trigger] stanza_lines(s)[i]).time + LAST_LINE_MS
                <= u64::MAX,
    ensures
        lrc(text::unlines(stanza_sources(s))) == Some(timed(timeline::sorted(stanza_lines(s)))),
        lrc(text::joined_lines(stanza_sources(s))) == Some(
            timed(timeline::sorted(stanza_lines(s))),
        ),
        timeline::ordered(stanza_lines(s)) ==> timeline::sorted(stanza_lines(s)) == stanza_lines(s),
{
    let raw = stanza_sources(s);
    assert forall|i: int| 0 <= i < raw.len() implies text::is_one_line(#[trigger] raw[i])
        && raw[i].len() > 0 by {
        assert(s[i].wf());
        lemma_stanza_is_one_line(s[i]);
    }
    text::law_lines_come_apart(raw);
    if raw.len() > 0 {
        assert(text::is_one_line(raw[raw.len() - 1]));
    }
    text::law_joined_lines_come_apart(raw);
    lemma_stanzas_read_back(s);
    let found = stanza_lines(s);
    let t = timeline::sorted(found);
    if t.len() > 0 {
        timeline::lemma_sorted_from(found, t.len() - 1);
        let j = choose|j: int| 0 <= j < found.len() && found[j] == t[t.len() - 1];
        assert(found[j].time + LAST_LINE_MS <= u64::MAX);
    }
    if timeline::ordered(found) {
        timeline::law_ordered_lines_stay(found);
    }
}

proof fn lemma_stanzas_read_back(s: Seq<Stanza>)
    requires
        forall|i: int| 0 <= i < s.len() ==> (#[trigger] s[i]).wf(),
    ensures
        lrc_lines(stanza_sources(s)) == Some(stanza_lines(s)),
    decreases s.len(),
{
    let raw = stanza_sources(s);
    if s.len() > 0 {
        let before = s.drop_last();
        assert forall|i: int| 0 <= i < before.len() implies (#[trigger] before[i]).wf() by {
            assert(before[i] == s[i]);
        }
        lemma_stanzas_read_back(before);
        assert(raw.drop_last() == stanza_sources(before));
        let z = s[s.len() - 1];
        assert(z.wf());
        text::lemma_trimmed_keeps(z.body);
        law_each_stamp_gives_a_line(z.heads, z.body);
        assert(lrc_entries(raw.last()) == Some(z.lines()));
    }
}

/// A tag among the stamps drops the whole line.
pub proof fn law_tag_drops_the_line(
    raw: Seq<char>,
    heads: Seq<Seq<char>>,
    tag: Seq<char>,
    rest: Seq<char>,
)
    requires
        text::trimmed(raw) == stamps_source(heads) + (tag.push(']').insert(0, '[') + rest),
        forall|i: int| 0 <= i < heads.len() ==> is_time(#[trigger] heads[i]),
        stamp(tag) is Tag,
        forall|i: int| 0 <= i < tag.len() ==> tag[i] != ']',
    ensures
        lrc_entries(raw) == Some(Seq::<LineView>::empty()),
{
    lemma_row_step(tag, rest);
    lemma_row_reads(heads, tag.push(']').insert(0, '[') + rest);
}

/// Whether a line is one that was read from an lrc text.
pub open spec fn is_plain(l: LineView) -> bool {
    &&& l.words.len() == 0
    &&& l.translation is None
    &&& l.text.len() > 0
    &&& text::trimmed(l.text) == l.text
}

/// The lines of an lrc text have text and no words, are in the order of their
/// time, and each lasts until the next one starts; the last one lasts five
/// seconds.
pub proof fn law_lrc_lines_follow_each_other(source: Seq<char>)
    ensures
        lrc(source) matches Some(lines) ==> {
            &&& timeline::ordered(lines)
            &&& forall|i: int| 0 <= i < lines.len() ==> is_plain(#[trigger] lines[i])
            &&& forall|i: int|
                0 <= i < lines.len() ==> (#[trigger] lines[i]).time + lines[i].duration == if i + 1
                    < lines.len() {
                    lines[i + 1].time as int
                } else {
                    lines[i].time + 5000
                }
        },
{
    if let Some(lines) = lrc(source) {
        let raw = text::lines_of(source);
        let found = lrc_lines(raw)->0;
        let s = timeline::sorted(found);
        timeline::law_sorted_is_ordered(found);
        lemma_lrc_lines_are_plain(raw);
        assert(lines == timed(s));
        assert forall|i: int, j: int| 0 <= i <= j < lines.len() implies lines[i].time
            <= lines[j].time by {
            assert(s[i].time <= s[j].time);
        }
        assert forall|i: int| 0 <= i < lines.len() implies is_plain(#[trigger] lines[i]) by {
            timeline::lemma_sorted_from(found, i);
            let j = choose|j: int| 0 <= j < found.len() && found[j] == s[i];
            assert(is_plain(found[j]));
        }
        assert forall|i: int| 0 <= i < lines.len() implies (#[trigger] lines[i]).time
            + lines[i].duration == if i + 1 < lines.len() {
            lines[i + 1].time as int
        } else {
            lines[i].time + LAST_LINE_MS
        } by {
            assert(s[i].time <= s[s.len() - 1].time);
            if i + 1 < s.len() {
                assert(s[i].time <= s[i + 1].time);
            }
        }
    }
}

proof fn lemma_lrc_lines_are_plain(raw: Seq<Seq<char>>)
    ensures
        lrc_lines(raw) matches Some(found) ==> forall|i: int|
            0 <= i < found.len() ==> is_plain(#[trigger] found[i]),
    decreases raw.len(),
{
    if raw.len() > 0 {
        lemma_lrc_lines_are_plain(raw.drop_last());
        if let Row::Stamped { times: _, body } = row(text::trimmed(raw.last())) {
            text::law_trimmed_ends(body);
        }
        if let Some(found) = lrc_lines(raw) {
            let before = lrc_lines(raw.drop_last())->0;
            let entries = lrc_entries(raw.last())->0;
            assert forall|i: int| 0 <= i < found.len() implies is_plain(#[trigger] found[i]) by {
                if i < before.len() {
                    assert(found[i] == before[i]);
                } else {
                    assert(found[i] == entries[i - before.len()]);
                }
            }
        }
    }
}

/// What a stamp comes to whose minutes, seconds and fraction are read apart.
pub open spec fn is_sum(r: Stamp, min: Option<u64>, sec: Option<u64>, fraction: Stamp) -> bool {
    match (min, sec, fraction) {
        (Some(m), Some(s), Stamp::Time(ms)) => if m * 60_000 + s * 1000 + ms <= u64::MAX {
            r matches Stamp::Time(t) && t == m * 60_000 + s * 1000 + ms
        } else {
            r is Fault
        },
        (Some(_), Some(_), other) => r == other,
        _ => r is Tag,
    }
}

/// A stamp is read by its fields: minutes, a colon, seconds and, behind a dot or
/// another colon, the fraction, which may be missing. Whitespace around the
/// minutes and the seconds does not matter. What has no colon is a tag, and so
/// is what has no number for minutes or seconds.
pub proof fn law_stamp_is_read_by_its_fields(
    min: Seq<char>,
    sec: Seq<char>,
    separator: char,
    rest: Seq<char>,
)
    requires
        !min.contains(':'),
        !sec.contains(':'),
        !sec.contains('.'),
        separator == '.' || separator == ':',
    ensures
        ({
            let m = text::number_in(text::trimmed(min), u64::MAX);
            let s = text::number_in(text::trimmed(sec), u64::MAX);
            &&& is_sum(stamp(min.push(':') + (sec.push(separator) + rest)), m, s, fraction(rest))
            &&& is_sum(stamp(min.push(':') + sec), m, s, Stamp::Time(0))
        }),
        stamp(min) is Tag,
{
    let long = sec.push(separator) + rest;
    text::law_split_is_at_the_first(min, ':', long, ':', ':');
    text::law_split_is_at_the_first(min, ':', sec, ':', ':');
    text::law_split_is_at_the_first(sec, separator, rest, '.', ':');
    lemma_digit_bytes(Seq::empty());
    assert(fraction(Seq::empty()) == Stamp::Time(0));
}

/// Whether a number in a unit is what a fraction comes to.
pub open spec fn is_in_unit(r: Stamp, number: Option<u64>, unit: int) -> bool {
    match number {
        Some(n) => r matches Stamp::Time(t) && t == n * unit,
        None => r is Tag,
    }
}

/// A fraction of one character is in tenths of a second, one of two in
/// hundredths, and of a longer one the first three characters count, in
/// milliseconds; each of them if it is ASCII. No fraction is no time.
pub proof fn law_fraction_is_read_by_its_length(a: char, b: char, c: char, rest: Seq<char>)
    requires
        a as u32 <= 0x7f,
        b as u32 <= 0x7f,
        c as u32 <= 0x7f,
    ensures
        fraction(Seq::empty()) == Stamp::Time(0),
        is_in_unit(fraction(seq![a]), text::number_in(seq![a], u64::MAX), 100),
        is_in_unit(fraction(seq![a, b]), text::number_in(seq![a, b], u64::MAX), 10),
        is_in_unit(fraction(seq![a, b, c] + rest), text::number_in(seq![a, b, c], u64::MAX), 1),
{
    reveal_with_fuel(chars_in, 4);
    reveal_with_fuel(vstd::utf8::encode_utf8, 4);
    let x = seq![a];
    let y = seq![a, b];
    let z = seq![a, b, c] + rest;
    assert(x.drop_first() == Seq::<char>::empty());
    assert(y.drop_first() == seq![b]);
    assert(seq![b].drop_first() == Seq::<char>::empty());
    assert(z.drop_first() == seq![b, c] + rest);
    assert(z.drop_first().drop_first() == seq![c] + rest);
    assert(z.drop_first().drop_first().drop_first() == rest);
    assert(z.take(3) == seq![a, b, c]);
    lemma_two_digits(x);
    lemma_two_digits(y);
}

/// Whatever the characters are, a fraction is read by its length in bytes: one of
/// one byte in tenths of a second, one of two bytes in hundredths. Of a longer
/// one those characters count that take up the first three bytes, in
/// milliseconds, and it cannot be evaluated if no characters do.
pub proof fn law_fraction_counts_three_bytes(counted: Seq<char>, rest: Seq<char>)
    ensures
        vstd::utf8::encode_utf8(counted).len() == 1 ==> is_in_unit(
            fraction(counted),
            text::number_in(counted, u64::MAX),
            100,
        ),
        vstd::utf8::encode_utf8(counted).len() == 2 ==> is_in_unit(
            fraction(counted),
            text::number_in(counted, u64::MAX),
            10,
        ),
        vstd::utf8::encode_utf8(counted).len() == 3 ==> is_in_unit(
            fraction(counted + rest),
            text::number_in(counted, u64::MAX),
            1,
        ),
        vstd::utf8::encode_utf8(counted).len() < 3 && rest.len() > 0 && vstd::utf8::encode_utf8(
            counted,
        ).len() + vstd::utf8::encode_scalar(rest.first() as u32).len() > 3 ==> fraction(
            counted + rest,
        ) is Fault,
{
    let bytes = vstd::utf8::encode_utf8(counted).len();
    lemma_bytes_add_up(counted, rest);
    lemma_a_byte_or_more(counted);
    if bytes < 3 {
        lemma_two_digits(counted);
    }
    if bytes == 3 {
        lemma_chars_in(counted, rest, 3);
        assert((counted + rest).take(counted.len() as int) == counted);
    }
    if bytes < 3 && rest.len() > 0 {
        lemma_chars_in(counted, rest, 3);
    }
}

/// A character takes up at least one byte.
proof fn lemma_a_byte_or_more(s: Seq<char>)
    ensures
        vstd::utf8::encode_utf8(s).len() >= s.len(),
    decreases s.len(),
{
    if s.len() > 0 {
        lemma_a_byte_or_more(s.drop_first());
    }
}

proof fn lemma_bytes_add_up(a: Seq<char>, b: Seq<char>)
    ensures
        vstd::utf8::encode_utf8(a + b).len() == vstd::utf8::encode_utf8(a).len()
            + vstd::utf8::encode_utf8(b).len(),
        b.len() > 0 ==> vstd::utf8::encode_utf8(b).len() >= vstd::utf8::encode_scalar(
            b.first() as u32,
        ).len(),
    decreases a.len(),
{
    if a.len() > 0 {
        lemma_bytes_add_up(a.drop_first(), b);
        assert((a + b).drop_first() == a.drop_first() + b);
    } else {
        assert(a + b == b);
    }
}

/// How many characters a number of bytes takes up, from a place where it is
/// known how many bytes stand ahead.
proof fn lemma_chars_in(a: Seq<char>, b: Seq<char>, bytes: nat)
    requires
        vstd::utf8::encode_utf8(a).len() <= bytes,
    ensures
        vstd::utf8::encode_utf8(a).len() == bytes ==> chars_in(a + b, bytes) == Some(a.len()),
        vstd::utf8::encode_utf8(a).len() < bytes && b.len() > 0 && vstd::utf8::encode_utf8(a).len()
            + vstd::utf8::encode_scalar(b.first() as u32).len() > bytes ==> chars_in(a + b, bytes)
            is None,
    decreases a.len(),
{
    if a.len() > 0 {
        let w = vstd::utf8::encode_scalar(a.first() as u32).len();
        assert(w > 0);
        assert(vstd::utf8::encode_utf8(a).len() == w + vstd::utf8::encode_utf8(
            a.drop_first(),
        ).len());
        lemma_chars_in(a.drop_first(), b, (bytes - w) as nat);
        assert((a + b).drop_first() == a.drop_first() + b);
        assert((a + b).first() == a.first());
    } else {
        assert(a + b == b);
    }
}

/// The lyric lines of two rows of lines are those of the rows put together, and
/// a single line gives its own. So a line that holds none drops itself and no
/// other.
pub proof fn law_lrc_lines_add_up(a: Seq<Seq<char>>, b: Seq<Seq<char>>, raw: Seq<char>)
    ensures
        lrc_lines(a + b) == match (lrc_lines(a), lrc_lines(b)) {
            (Some(x), Some(y)) => Some(x + y),
            _ => None,
        },
        lrc_lines(seq![raw]) == lrc_entries(raw),
        lrc_lines(Seq::empty()) == Some(Seq::<LineView>::empty()),
    decreases b.len(),
{
    assert(lrc_lines(seq![raw].drop_last()) == Some(Seq::<LineView>::empty()));
    if let Some(entries) = lrc_entries(raw) {
        assert(Seq::<LineView>::empty() + entries == entries);
    }
    if b.len() > 0 {
        law_lrc_lines_add_up(a, b.drop_last(), raw);
        assert((a + b).drop_last() == a + b.drop_last());
        if let (Some(x), Some(y), Some(z)) = (
            lrc_lines(a),
            lrc_lines(b.drop_last()),
            lrc_entries(b.last()),
        ) {
            assert((x + y) + z == x + (y + z));
        }
    } else {
        assert(a + b == a);
        if let Some(x) = lrc_lines(a) {
            assert(x + Seq::<LineView>::empty() == x);
        }
    }
}

/// Lines without their durations.
pub open spec fn untimed(s: Seq<LineView>) -> Seq<LineView> {
    Seq::new(s.len(), |i: int| LineView { duration: 0, ..s[i] })
}

proof fn lemma_lrc_lines_have_no_duration(raw: Seq<Seq<char>>)
    ensures
        lrc_lines(raw) matches Some(found) ==> forall|i: int|
            0 <= i < found.len() ==> (#[trigger] found[i]).duration == 0,
    decreases raw.len(),
{
    if raw.len() > 0 {
        lemma_lrc_lines_have_no_duration(raw.drop_last());
        if let Some(found) = lrc_lines(raw) {
            let before = lrc_lines(raw.drop_last())->0;
            let entries = lrc_entries(raw.last())->0;
            assert forall|i: int| 0 <= i < found.len() implies (#[trigger] found[i]).duration
                == 0 by {
                if i < before.len() {
                    assert(found[i] == before[i]);
                } else {
                    assert(found[i] == entries[i - before.len()]);
                }
            }
        }
    }
}

/// The lyrics of a text are the lyric lines of its lines, all of them and no
/// others, with their durations: they are in the order of their time, and those
/// that start together are in the order of the text. The text can be evaluated
/// exactly if each of its lines can and each lyric line starts five seconds
/// before the end of time or earlier.
pub proof fn law_lrc_holds_every_line(source: Seq<char>)
    ensures
        lrc(source) is Some <==> (lrc_lines(text::lines_of(source)) matches Some(found) && forall|
            i: int,
        |
            0 <= i < found.len() ==> (#[trigger] found[i]).time + 5000 <= u64::MAX),
        lrc(source) matches Some(lines) ==> {
            let found = lrc_lines(text::lines_of(source))->0;
            &&& timeline::ordered(lines)
            &&& untimed(lines).to_multiset() == found.to_multiset()
            &&& forall|time: u64| #[trigger]
                timeline::starting_at(untimed(lines), time) == timeline::starting_at(found, time)
        },
{
    let raw = text::lines_of(source);
    if let Some(found) = lrc_lines(raw) {
        let s = timeline::sorted(found);
        timeline::law_sorted_is_ordered(found);
        timeline::law_sorted_keeps_lines(found);
        lemma_lrc_lines_have_no_duration(raw);
        if s.len() > 0 {
            timeline::lemma_sorted_from(found, s.len() - 1);
            let j = choose|j: int| 0 <= j < found.len() && found[j] == s[s.len() - 1];
            if forall|i: int| 0 <= i < found.len() ==> (#[trigger] found[i]).time + 5000 <= u64::MAX {
                assert(found[j].time + 5000 <= u64::MAX);
            }
        }
        if let Some(lines) = lrc(source) {
            assert forall|i: int| 0 <= i < found.len() implies (#[trigger] found[i]).time + 5000
                <= u64::MAX by {
                timeline::lemma_sorted_has(found, i);
                let k = choose|k: int| 0 <= k < s.len() && s[k] == found[i];
                assert(s[k].time <= s[s.len() - 1].time);
            }
            assert forall|i: int| 0 <= i < s.len() implies #[trigger] untimed(lines)[i] == s[i] by {
                timeline::lemma_sorted_from(found, i);
                let j = choose|j: int| 0 <= j < found.len() && found[j] == s[i];
                assert(found[j].duration == 0);
            }
            assert(untimed(lines) == s);
            law_lrc_lines_follow_each_other(source);
            assert forall|time: u64| #[trigger]
                timeline::starting_at(untimed(lines), time) == timeline::starting_at(found, time) by {
                timeline::law_sorted_is_stable(found, time);
            }
        }
    }
}

/// The lyrics of two texts are those of the texts put together, if the first
/// ends in a line break: at each time those of the first come first.
pub proof fn law_lrc_texts_add_up(a: Seq<char>, b: Seq<char>, time: u64)
    requires
        a.len() > 0 ==> a.last() == '\n',
    ensures
        lrc(a + b) is Some <==> lrc(a) is Some && lrc(b) is Some,
        lrc(a + b) matches Some(lines) ==> timeline::starting_at(untimed(lines), time)
            == timeline::starting_at(untimed(lrc(a)->0), time) + timeline::starting_at(
            untimed(lrc(b)->0),
            time,
        ),
{
    text::law_lines_add_up(a, b);
    law_lrc_lines_add_up(text::lines_of(a), text::lines_of(b), Seq::empty());
    law_lrc_holds_every_line(a);
    law_lrc_holds_every_line(b);
    law_lrc_holds_every_line(a + b);
    let p = lrc_lines(text::lines_of(a));
    let q = lrc_lines(text::lines_of(b));
    if p is Some && q is Some {
        let x = p->0;
        let y = q->0;
        timeline::lemma_starting_at_adds_up(x, y, time);
        if lrc(a) is Some && lrc(b) is Some {
            assert forall|i: int| 0 <= i < (x + y).len() implies (#[trigger] (x + y)[i]).time + 5000
                <= u64::MAX by {
                if i < x.len() {
                    assert(x[i].time + 5000 <= u64::MAX);
                } else {
                    assert(y[i - x.len()].time + 5000 <= u64::MAX);
                }
            }
        }
        if lrc(a + b) is Some {
            assert forall|i: int| 0 <= i < x.len() implies (#[trigger] x[i]).time + 5000
                <= u64::MAX by {
                assert((x + y)[i] == x[i]);
            }
            assert forall|i: int| 0 <= i < y.len() implies (#[trigger] y[i]).time + 5000
                <= u64::MAX by {
                assert((x + y)[i + x.len()] == y[i]);
            }
        }
    }
}

/// Lines that hold no lyric line, such as tags and blank lines, can be taken out
/// of a text anywhere without changing what is read.
pub proof fn law_other_lines_do_not_matter(a: Seq<char>, b: Seq<char>, c: Seq<char>)
    requires
        a.len() > 0 ==> a.last() == '\n',
        b.len() > 0 ==> b.last() == '\n',
        forall|i: int|
            0 <= i < text::lines_of(b).len() ==> (lrc_entries(
                #[trigger] text::lines_of(b)[i],
            ) matches Some(entries) && entries.len() == 0),
    ensures
        lrc(a + b + c) == lrc(a + c),
{
    let x = text::lines_of(a);
    let y = text::lines_of(b);
    let z = text::lines_of(c);
    assert(a + b + c == a + (b + c));
    text::law_lines_add_up(a, b + c);
    text::law_lines_add_up(b, c);
    text::law_lines_add_up(a, c);
    law_lrc_lines_add_up(x, y + z, Seq::empty());
    law_lrc_lines_add_up(y, z, Seq::empty());
    law_lrc_lines_add_up(x, z, Seq::empty());
    lemma_nothing_found(y);
    if let Some(found) = lrc_lines(z) {
        assert(Seq::<LineView>::empty() + found == found);
    }
}

proof fn lemma_nothing_found(raw: Seq<Seq<char>>)
    requires
        forall|i: int|
            0 <= i < raw.len() ==> (lrc_entries(#[trigger] raw[i]) matches Some(entries)
                && entries.len() == 0),
    ensures
        lrc_lines(raw) == Some(Seq::<LineView>::empty()),
    decreases raw.len(),
{
    if raw.len() > 0 {
        let before = raw.drop_last();
        assert(lrc_entries(raw[raw.len() - 1]) is Some);
        assert forall|i: int| 0 <= i < before.len() implies (lrc_entries(
            #[trigger] before[i],
        ) matches Some(entries) && entries.len() == 0) by {
            assert(before[i] == raw[i]);
        }
        lemma_nothing_found(before);
        let entries = lrc_entries(raw.last())->0;
        assert(Seq::<LineView>::empty() + entries == Seq::<LineView>::empty());
    }
}

/// The stanzas that are there, in their order.
pub open spec fn present(s: Seq<Option<Stanza>>) -> Seq<Stanza>
    decreases s.len(),
{
    if s.len() == 0 {
        seq![]
    } else {
        match s.last() {
            Some(z) => present(s.drop_last()).push(z),
            None => present(s.drop_last()),
        }
    }
}

/// Whether a line of a text is a given stanza, or one that holds no lyric line.
pub open spec fn is_stanza_or_none(raw: Seq<char>, z: Option<Stanza>) -> bool {
    match z {
        Some(z) => z.wf() && raw == z.source(),
        None => text::is_one_line(raw) && (lrc_entries(raw) matches Some(entries) && entries.len()
            == 0),
    }
}

/// Lyrics read back from the lrc format whatever lines without lyrics, such as
/// tags, stand ahead of them, among them and behind them.
pub proof fn law_lrc_reads_back_among_other_lines(raw: Seq<Seq<char>>, s: Seq<Option<Stanza>>)
    requires
        raw.len() == s.len(),
        forall|i: int| 0 <= i < raw.len() ==> is_stanza_or_none(#[trigger] raw[i], s[i]),
        forall|i: int|
            0 <= i < stanza_lines(present(s)).len() ==> (#[trigger] stanza_lines(
                present(s),
            )[i]).time + 5000 <= u64::MAX,
    ensures
        lrc(text::unlines(raw)) == Some(timed(timeline::sorted(stanza_lines(present(s))))),
{
    assert forall|i: int| 0 <= i < raw.len() implies text::is_one_line(#[trigger] raw[i]) by {
        assert(is_stanza_or_none(raw[i], s[i]));
        if let Some(z) = s[i] {
            lemma_stanza_is_one_line(z);
        }
    }
    text::law_lines_come_apart(raw);
    lemma_rows_read_back(raw, s);
    law_lrc_holds_every_line(text::unlines(raw));
}

proof fn lemma_rows_read_back(raw: Seq<Seq<char>>, s: Seq<Option<Stanza>>)
    requires
        raw.len() == s.len(),
        forall|i: int| 0 <= i < raw.len() ==> is_stanza_or_none(#[trigger] raw[i], s[i]),
    ensures
        lrc_lines(raw) == Some(stanza_lines(present(s))),
    decreases raw.len(),
{
    if raw.len() > 0 {
        let n = raw.len() - 1;
        assert forall|i: int| 0 <= i < n implies is_stanza_or_none(
            #[trigger] raw.drop_last()[i],
            s.drop_last()[i],
        ) by {
            assert(is_stanza_or_none(raw[i], s[i]));
        }
        lemma_rows_read_back(raw.drop_last(), s.drop_last());
        assert(is_stanza_or_none(raw[n], s[n]));
        let before = present(s.drop_last());
        if let Some(z) = s[n] {
            text::lemma_trimmed_keeps(z.body);
            law_each_stamp_gives_a_line(z.heads, z.body);
            assert(lrc_entries(raw[n]) == Some(z.lines()));
            assert(before.push(z).drop_last() == before);
        } else {
            let entries = lrc_entries(raw.last())->0;
            assert(stanza_lines(before) + entries == stanza_lines(before));
        }
    }
}

} // verus!
