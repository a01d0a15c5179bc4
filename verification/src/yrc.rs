//! Word-level lyrics.
//!
//! A yrc line looks like `[368,1820](368,290,0)海(658,271,0)风 ...`. The first
//! few lines of a text are pure-JSON metadata (`{"t":0,"c":[{"tx":"作词: "}...]}`)
//! and are skipped.

use vstd::prelude::*;
use vstd::slice::slice_subrange;

use crate::model;
use crate::model::{Line, LineView, Word, WordView};
use crate::text;
use crate::timeline;

verus! {

/// The words of a line body, `(t,dur,0)text(t,dur,0)text...`.
///
/// A group runs from `(` to the next `)`, and its text from there to the next
/// `(` or to the end. A group without two numbers and a group without text
/// give no word. Text ahead of the first group is skipped, and a group that is
/// never closed ends the line.
pub open spec fn words_in(body: Seq<char>) -> Seq<WordView>
    decreases body.len(),
{
    let group = body.skip(text::run_before(body, '(', '(') as int);
    let close = text::run_before(group, ')', ')') as int;
    if close < group.len() {
        let meta = group.subrange(1, close);
        let after = group.skip(close + 1);
        let n = text::run_before(after, '(', '(') as int;
        proof {
            text::lemma_run_before_meaning(body, '(', '(');
            text::lemma_run_before_meaning(group, ')', ')');
            text::lemma_run_before_meaning(after, '(', '(');
        }
        let rest = words_in(after.skip(n));
        match text::two_numbers(meta) {
            Some((time, duration)) => if n > 0 {
                seq![WordView { time, duration, text: after.take(n) }] + rest
            } else {
                rest
            },
            None => rest,
        }
    } else {
        seq![]
    }
}

/// Reads the words of a line body.
pub fn parse_words(body: &[char]) -> (words: Vec<Word>)
    ensures
        model::words_view(words@) == words_in(body@),
{
    let mut words: Vec<Word> = Vec::new();
    let mut rest: &[char] = body;
    let ghost all = words_in(body@);
    assert(model::words_view(words@) + words_in(rest@) == all);
    loop
        invariant
            all == words_in(body@),
            model::words_view(words@) + words_in(rest@) == all,
        ensures
            model::words_view(words@) == all,
        decreases rest@.len(),
    {
        let open: usize = text::find_either(rest, '(', '(');
        let group: &[char] = slice_subrange(rest, open, rest.len());
        let close: usize = text::find_either(group, ')', ')');
        assert(group@ == rest@.skip(open as int));
        if close >= group.len() {
            assert(model::words_view(words@) == all);
            break;
        }
        assert(close > 0);
        let meta: &[char] = slice_subrange(group, 1, close);
        let after: &[char] = slice_subrange(group, close + 1, group.len());
        assert(after@ == group@.skip(close + 1));
        let n: usize = text::find_either(after, '(', '(');
        let next: &[char] = slice_subrange(after, n, after.len());
        assert(next@ == after@.skip(n as int));
        let ghost so_far = model::words_view(words@);
        match text::read_two_numbers(meta) {
            Some((time, duration)) => {
                if n > 0 {
                    let word = Word {
                        time,
                        duration,
                        text: text::text_of(slice_subrange(after, 0, n)),
                    };
                    let ghost view = word@;
                    words.push(word);
                    assert(model::words_view(words@) == so_far.push(view));
                    assert(so_far.push(view) + words_in(next@) == so_far + words_in(rest@));
                }
            },
            None => {},
        }
        rest = next;
    }
    words
}

/// The texts of several words, joined.
pub open spec fn joined(words: Seq<WordView>) -> Seq<char>
    decreases words.len(),
{
    if words.len() == 0 {
        seq![]
    } else {
        joined(words.drop_last()) + words.last().text
    }
}

/// Joins the texts of several words.
fn join(words: &Vec<Word>) -> (out: String)
    ensures
        out@ == joined(model::words_view(words@)),
{
    let mut out: String = String::new();
    let mut i: usize = 0;
    let ghost views = model::words_view(words@);
    while i < words.len()
        invariant
            i <= words@.len(),
            views == model::words_view(words@),
            out@ == joined(views.take(i as int)),
        decreases words@.len() - i,
    {
        out.append(words[i].text.as_str());
        assert(views.take(i + 1).drop_last() == views.take(i as int));
        i = i + 1;
    }
    assert(views.take(i as int) == views);
    out
}

/// The lyric line that one line of a text holds: `[start,duration]`, then the
/// words. A line of another form holds none, and neither does one whose words
/// amount to nothing but whitespace.
pub open spec fn yrc_line(raw: Seq<char>) -> Option<LineView> {
    let raw = text::trimmed(raw);
    if raw.len() > 0 && raw.first() == '[' {
        match text::split_at_char(raw.skip(1), ']') {
            Some((head, body)) => match text::two_numbers(head) {
                Some((time, duration)) => {
                    let words = words_in(body);
                    let line = text::trimmed(joined(words));
                    if line.len() > 0 {
                        Some(LineView { time, duration, text: line, words, translation: None })
                    } else {
                        None
                    }
                },
                None => None,
            },
            None => None,
        }
    } else {
        None
    }
}

/// Reads one line of a text.
fn read_line(raw: &[char]) -> (r: Option<Line>)
    ensures
        match r {
            Some(line) => yrc_line(raw@) == Some(line@),
            None => yrc_line(raw@) is None,
        },
{
    let raw: &[char] = text::trim(raw);
    if raw.len() == 0 || raw[0] != '[' {
        return None;
    }
    let inner: &[char] = slice_subrange(raw, 1, raw.len());
    assert(inner@ == raw@.skip(1));
    match text::split_either(inner, ']', ']') {
        Some((head, body)) => match text::read_two_numbers(head) {
            Some((time, duration)) => {
                let words = parse_words(body);
                let all: Vec<char> = text::chars_of(join(&words).as_str());
                let line: &[char] = text::trim(all.as_slice());
                if line.len() == 0 {
                    return None;
                }
                Some(Line { time, duration, text: text::text_of(line), words, translation: None })
            },
            None => None,
        },
        None => None,
    }
}

/// The lyric lines among the lines of a text, in the order of the text.
pub open spec fn yrc_lines(raw: Seq<Seq<char>>) -> Seq<LineView>
    decreases raw.len(),
{
    if raw.len() == 0 {
        seq![]
    } else {
        match yrc_line(raw.last()) {
            Some(line) => yrc_lines(raw.drop_last()).push(line),
            None => yrc_lines(raw.drop_last()),
        }
    }
}

/// The lyric lines of a yrc text, sorted by their time.
pub open spec fn yrc(source: Seq<char>) -> Seq<LineView> {
    timeline::sorted(yrc_lines(text::lines_of(source)))
}

/// Reads word-level lyrics.
pub fn parse_yrc(text: &str) -> (out: Vec<Line>)
    ensures
        model::lines_view(out@) == yrc(text@),
{
    let all: Vec<char> = text::chars_of(text);
    let raw: Vec<&[char]> = text::lines(all.as_slice());
    let ghost source = text::lines_of(text@);
    let mut out: Vec<Line> = Vec::new();
    let mut i: usize = 0;
    assert(model::lines_view(out@) == timeline::sorted(yrc_lines(source.take(0))));
    while i < raw.len()
        invariant
            i <= raw@.len(),
            raw@.len() == source.len(),
            forall|k: int| 0 <= k < raw@.len() ==> (#[trigger] raw@[k])@ == source[k],
            model::lines_view(out@) == timeline::sorted(yrc_lines(source.take(i as int))),
        decreases raw@.len() - i,
    {
        assert(source.take(i + 1).drop_last() == source.take(i as int));
        match read_line(raw[i]) {
            Some(line) => {
                let ghost before = yrc_lines(source.take(i as int));
                assert(before.push(line@).drop_last() == before);
                timeline::insert_line(&mut out, line);
            },
            None => {},
        }
        i = i + 1;
    }
    assert(source.take(i as int) == source);
    out
}

/// A word in the yrc format, `(t,dur,0)text`.
pub open spec fn word_source(w: WordView) -> Seq<char> {
    text::decimal(w.time as nat).push(',').insert(0, '(') + text::decimal(w.duration as nat)
        + seq![',', '0', ')'] + w.text
}

/// Words in the yrc format, one behind the other.
pub open spec fn words_source(words: Seq<WordView>) -> Seq<char>
    decreases words.len(),
{
    if words.len() == 0 {
        seq![]
    } else {
        words_source(words.drop_last()) + word_source(words.last())
    }
}

/// A line in the yrc format, `[start,duration](t,dur,0)text(t,dur,0)text...`.
pub open spec fn line_source(l: LineView) -> Seq<char> {
    text::decimal(l.time as nat).push(',').insert(0, '[') + text::decimal(
        l.duration as nat,
    ).push(']') + words_source(l.words)
}

/// Lines in the yrc format.
pub open spec fn line_sources(lines: Seq<LineView>) -> Seq<Seq<char>> {
    Seq::new(lines.len(), |i: int| line_source(lines[i]))
}

/// Whether the text of a word can be written in the yrc format: there is some,
/// and it opens no group.
pub open spec fn is_word_text(s: Seq<char>) -> bool {
    s.len() > 0 && forall|i: int| 0 <= i < s.len() ==> s[i] != '('
}

/// Whether the texts of all words keep to one line.
pub open spec fn without_breaks(words: Seq<WordView>) -> bool {
    forall|k: int, i: int|
        0 <= k < words.len() && 0 <= i < words[k].text.len() ==> words[k].text[i] != '\n'
}

/// Whether a line can be written in the yrc format. It has words, its text is
/// that of the words, and it does not end in whitespace, which is cut off a line
/// before it is read.
pub open spec fn is_yrc_line(l: LineView) -> bool {
    &&& l.words.len() > 0
    &&& forall|i: int| 0 <= i < l.words.len() ==> is_word_text(#[trigger] l.words[i].text)
    &&& !text::is_white(l.words.last().text.last())
    &&& l.text == text::trimmed(joined(l.words))
    &&& l.translation is None
}

/// Words in the yrc format, seen from the first one.
proof fn lemma_words_source_first(words: Seq<WordView>)
    requires
        words.len() > 0,
    ensures
        words_source(words) == word_source(words.first()) + words_source(words.drop_first()),
    decreases words.len(),
{
    if words.len() == 1 {
        assert(words_source(words.drop_last()) == Seq::<char>::empty());
        assert(words_source(words.drop_first()) == Seq::<char>::empty());
    } else {
        lemma_words_source_first(words.drop_last());
        assert(words.drop_last().drop_first() == words.drop_first().drop_last());
        assert(words.drop_last().first() == words.first());
        assert(words.drop_first().last() == words.last());
    }
}

/// Words in the yrc format start with an opening bracket.
proof fn lemma_words_source_opens(words: Seq<WordView>)
    ensures
        words.len() == 0 ==> words_source(words).len() == 0,
        words.len() > 0 ==> words_source(words).len() > 0 && words_source(words).first() == '(',
{
    if words.len() > 0 {
        lemma_words_source_first(words);
        assert(word_source(words.first())[0] == '(');
    }
}

/// A word in the yrc format, piece by piece.
proof fn lemma_word_source_pieces(w: WordView)
    ensures
        word_source(w) == seq!['('] + (text::decimal(w.time as nat).push(',') + text::decimal(
            w.duration as nat,
        ) + seq![',', '0']) + seq![')'] + w.text,
{
}

/// The first word of a line body is the first of its words.
proof fn lemma_first_word(w: WordView, rest: Seq<char>)
    requires
        is_word_text(w.text),
        rest.len() > 0 ==> rest.first() == '(',
    ensures
        words_in(word_source(w) + rest) == seq![w] + words_in(rest),
{
    let s = word_source(w) + rest;
    let time = text::decimal(w.time as nat);
    let duration = text::decimal(w.duration as nat);
    let meta = time.push(',') + duration + seq![',', '0'];
    text::lemma_decimal_digits(w.time as nat);
    text::lemma_decimal_digits(w.duration as nat);
    lemma_word_source_pieces(w);
    text::lemma_two_numbers(w.time, w.duration, seq![',', '0']);
    text::lemma_run_before(s, '(', '(', 0);
    assert(s.skip(0) == s);
    let close = meta.len() as int + 1;
    assert forall|j: int| 0 <= j < meta.len() implies meta[j] != ')' by {
        if j < time.len() {
            assert(text::is_digit(time[j]));
        } else if time.len() < j < 1 + time.len() + duration.len() {
            assert(meta[j] == duration[j - 1 - time.len()]);
            assert(text::is_digit(duration[j - 1 - time.len()]));
        }
    }
    assert forall|j: int| 0 <= j < close implies s[j] != ')' by {
        if j > 0 {
            assert(s[j] == meta[j - 1]);
        }
    }
    text::lemma_run_before(s, ')', ')', close);
    assert(s.subrange(1, close) == meta);
    let after = s.skip(close + 1);
    assert(after == w.text + rest);
    let n = w.text.len() as int;
    assert forall|j: int| 0 <= j < n implies after[j] != '(' by {
        assert(after[j] == w.text[j]);
    }
    text::lemma_run_before(after, '(', '(', n);
    assert(after.take(n) == w.text);
    assert(after.skip(n) == rest);
}

/// Words read back from the yrc format.
pub proof fn law_words_read_back(words: Seq<WordView>)
    requires
        forall|i: int| 0 <= i < words.len() ==> is_word_text(#[trigger] words[i].text),
    ensures
        words_in(words_source(words)) == words,
    decreases words.len(),
{
    if words.len() == 0 {
        assert(words_source(words).skip(0).len() == 0);
    } else {
        let others = words.drop_first();
        assert forall|i: int| 0 <= i < others.len() implies is_word_text(
            #[trigger] others[i].text,
        ) by {
            assert(others[i] == words[i + 1]);
        }
        law_words_read_back(others);
        lemma_words_source_first(words);
        lemma_words_source_opens(others);
        assert(is_word_text(words[0].text));
        lemma_first_word(words.first(), words_source(others));
        assert(seq![words.first()] + others == words);
    }
}

/// What words in the yrc format end with.
proof fn lemma_words_source_ends(words: Seq<WordView>)
    requires
        words.len() > 0,
        words.last().text.len() > 0,
    ensures
        words_source(words).len() > 0,
        words_source(words).last() == words.last().text.last(),
        joined(words).len() > 0,
        joined(words).last() == words.last().text.last(),
{
}

/// Words without line breaks have none in the yrc format.
proof fn lemma_words_source_is_one_line(words: Seq<WordView>)
    requires
        without_breaks(words),
    ensures
        forall|i: int| 0 <= i < words_source(words).len() ==> words_source(words)[i] != '\n',
    decreases words.len(),
{
    if words.len() > 0 {
        let before = words.drop_last();
        assert forall|k: int, i: int|
            0 <= k < before.len() && 0 <= i < before[k].text.len() implies before[k].text[i]
            != '\n' by {
            assert(before[k] == words[k]);
        }
        lemma_words_source_is_one_line(before);
        let w = words[words.len() - 1];
        let time = text::decimal(w.time as nat);
        let duration = text::decimal(w.duration as nat);
        text::lemma_decimal_digits(w.time as nat);
        text::lemma_decimal_digits(w.duration as nat);
        let s = word_source(w);
        assert(s == seq!['('] + time + seq![','] + duration + seq![',', '0', ')'] + w.text);
        assert forall|j: int| 0 <= j < s.len() implies s[j] != '\n' by {
            if 1 <= j < 1 + time.len() {
                assert(text::is_digit(time[j - 1]));
            } else if 2 + time.len() <= j < 2 + time.len() + duration.len() {
                assert(text::is_digit(duration[j - 2 - time.len()]));
            } else if j >= 5 + time.len() + duration.len() {
                assert(s[j] == w.text[j - 5 - time.len() - duration.len()]);
            }
        }
        let first = words_source(before);
        assert forall|i: int| 0 <= i < words_source(words).len() implies words_source(words)[i]
            != '\n' by {
            if i < first.len() {
                assert(words_source(words)[i] == first[i]);
            } else {
                assert(words_source(words)[i] == s[i - first.len()]);
            }
        }
    }
}

/// What a line in the yrc format is made of.
proof fn lemma_line_source(l: LineView)
    requires
        is_yrc_line(l),
    ensures
        line_source(l).len() > 0,
        line_source(l).first() == '[',
        !text::is_white(line_source(l).last()),
        without_breaks(l.words) ==> text::is_one_line(line_source(l)),
{
    let time = text::decimal(l.time as nat);
    let duration = text::decimal(l.duration as nat);
    let body = words_source(l.words);
    let s = line_source(l);
    assert(is_word_text(l.words[l.words.len() - 1].text));
    lemma_words_source_ends(l.words);
    text::lemma_decimal_digits(l.time as nat);
    text::lemma_decimal_digits(l.duration as nat);
    assert(s == seq!['['] + time + seq![','] + duration + seq![']'] + body);
    if without_breaks(l.words) {
        lemma_words_source_is_one_line(l.words);
        assert forall|j: int| 0 <= j < s.len() implies s[j] != '\n' by {
            if 1 <= j < 1 + time.len() {
                assert(text::is_digit(time[j - 1]));
            } else if 2 + time.len() <= j < 2 + time.len() + duration.len() {
                assert(text::is_digit(duration[j - 2 - time.len()]));
            } else if j >= 3 + time.len() + duration.len() {
                assert(s[j] == body[j - 3 - time.len() - duration.len()]);
            }
        }
    }
}

/// A line reads back from the yrc format.
pub proof fn law_yrc_line_reads_back(l: LineView)
    requires
        is_yrc_line(l),
    ensures
        yrc_line(line_source(l)) == Some(l),
{
    let time = text::decimal(l.time as nat);
    let duration = text::decimal(l.duration as nat);
    let head = time.push(',') + duration;
    let body = words_source(l.words);
    let s = line_source(l);
    lemma_line_source(l);
    text::lemma_trimmed_keeps(s);
    text::lemma_decimal_digits(l.time as nat);
    text::lemma_decimal_digits(l.duration as nat);
    assert(head + Seq::<char>::empty() == head);
    text::lemma_two_numbers(l.time, l.duration, Seq::empty());
    let inner = s.skip(1);
    assert(inner == head + seq![']'] + body);
    assert forall|j: int| 0 <= j < head.len() implies inner[j] != ']' by {
        if j < time.len() {
            assert(text::is_digit(time[j]));
        } else if j > time.len() {
            assert(inner[j] == duration[j - 1 - time.len()]);
            assert(text::is_digit(duration[j - 1 - time.len()]));
        }
    }
    text::lemma_run_before(inner, ']', ']', head.len() as int);
    assert(inner.take(head.len() as int) == head);
    assert(inner.skip(head.len() as int + 1) == body);
    law_words_read_back(l.words);
    assert(is_word_text(l.words[l.words.len() - 1].text));
    lemma_words_source_ends(l.words);
    text::lemma_trimmed_is_not_empty(joined(l.words));
}

/// Lyrics read back from the yrc format, with or without a line break behind the
/// last line. They come in the order of their time, and as they were if they
/// were in that order.
pub proof fn law_yrc_reads_back(lines: Seq<LineView>)
    requires
        forall|i: int| 0 <= i < lines.len() ==> is_yrc_line(#[trigger] lines[i]),
        forall|i: int| 0 <= i < lines.len() ==> without_breaks((#[trigger] lines[i]).words),
    ensures
        yrc(text::unlines(line_sources(lines))) == timeline::sorted(lines),
        yrc(text::joined_lines(line_sources(lines))) == timeline::sorted(lines),
        timeline::ordered(lines) ==> timeline::sorted(lines) == lines,
{
    let raw = line_sources(lines);
    assert forall|i: int| 0 <= i < raw.len() implies text::is_one_line(#[trigger] raw[i])
        && raw[i].len() > 0 by {
        assert(is_yrc_line(lines[i]));
        lemma_line_source(lines[i]);
    }
    text::law_lines_come_apart(raw);
    if raw.len() > 0 {
        assert(text::is_one_line(raw[raw.len() - 1]));
    }
    text::law_joined_lines_come_apart(raw);
    lemma_yrc_lines_read_back(lines);
    if timeline::ordered(lines) {
        timeline::law_ordered_lines_stay(lines);
    }
}

proof fn lemma_yrc_lines_read_back(lines: Seq<LineView>)
    requires
        forall|i: int| 0 <= i < lines.len() ==> is_yrc_line(#[trigger] lines[i]),
    ensures
        yrc_lines(line_sources(lines)) == lines,
    decreases lines.len(),
{
    let raw = line_sources(lines);
    if lines.len() > 0 {
        let before = lines.drop_last();
        assert forall|i: int| 0 <= i < before.len() implies is_yrc_line(#[trigger] before[i]) by {
            assert(before[i] == lines[i]);
        }
        lemma_yrc_lines_read_back(before);
        assert(raw.drop_last() == line_sources(before));
        assert(is_yrc_line(lines[lines.len() - 1]));
        law_yrc_line_reads_back(lines.last());
        assert(before.push(lines.last()) == lines);
    } else {
        assert(yrc_lines(raw) == lines);
    }
}

/// Metadata, and anything else that does not start with `[`, is skipped.
pub proof fn law_metadata_is_skipped(raw: Seq<char>)
    requires
        text::trimmed(raw).len() > 0 ==> text::trimmed(raw).first() != '[',
    ensures
        yrc_line(raw) is None,
{
}

/// A line that was read has words, and its text is theirs without the
/// whitespace around it.
pub open spec fn has_words(l: LineView) -> bool {
    &&& l.words.len() > 0
    &&& l.text.len() > 0
    &&& l.text == text::trimmed(joined(l.words))
    &&& l.translation is None
}

/// Every line of word-level lyrics has words.
pub proof fn law_yrc_lines_have_words(source: Seq<char>)
    ensures
        forall|i: int| 0 <= i < yrc(source).len() ==> has_words(#[trigger] yrc(source)[i]),
{
    let raw = text::lines_of(source);
    lemma_yrc_lines_have_words(raw);
    assert forall|i: int| 0 <= i < yrc(source).len() implies has_words(
        #[trigger] yrc(source)[i],
    ) by {
        timeline::lemma_sorted_from(yrc_lines(raw), i);
        let j = choose|j: int|
            0 <= j < yrc_lines(raw).len() && yrc_lines(raw)[j] == timeline::sorted(
                yrc_lines(raw),
            )[i];
        assert(has_words(yrc_lines(raw)[j]));
    }
}

proof fn lemma_yrc_lines_have_words(raw: Seq<Seq<char>>)
    ensures
        forall|i: int| 0 <= i < yrc_lines(raw).len() ==> has_words(#[trigger] yrc_lines(raw)[i]),
    decreases raw.len(),
{
    if raw.len() > 0 {
        let before = yrc_lines(raw.drop_last());
        lemma_yrc_lines_have_words(raw.drop_last());
        if let Some(l) = yrc_line(raw.last()) {
            if l.words.len() == 0 {
                assert(joined(l.words) == Seq::<char>::empty());
            }
        }
        assert forall|i: int| 0 <= i < yrc_lines(raw).len() implies has_words(
            #[trigger] yrc_lines(raw)[i],
        ) by {
            if i < before.len() {
                assert(yrc_lines(raw)[i] == before[i]);
            }
        }
    }
}

/// Text ahead of the first group gives no word, and neither does a body in which
/// no group is closed.
pub proof fn law_text_outside_groups_is_skipped(stray: Seq<char>, rest: Seq<char>)
    requires
        !stray.contains('('),
        rest.len() > 0 ==> rest.first() == '(',
    ensures
        words_in(stray + rest) == words_in(rest),
        !rest.contains(')') ==> words_in(rest) == Seq::<WordView>::empty(),
{
    let s = stray + rest;
    let n = stray.len() as int;
    assert forall|j: int| 0 <= j < n implies s[j] != '(' by {
        assert(stray.contains(stray[j]));
    }
    text::lemma_run_before(s, '(', '(', n);
    text::lemma_run_before(rest, '(', '(', 0);
    assert(s.skip(n) == rest);
    assert(rest.skip(0) == rest);
    if !rest.contains(')') {
        assert forall|j: int| 0 <= j < rest.len() implies rest[j] != ')' by {
            assert(rest.contains(rest[j]));
        }
        text::lemma_run_before(rest, ')', ')', rest.len() as int);
    }
}

/// A group gives a word exactly if it holds two numbers and has text behind it:
/// the word with these numbers and this text. The words of what follows come
/// behind it.
pub proof fn law_group_gives_a_word(meta: Seq<char>, text: Seq<char>, rest: Seq<char>)
    requires
        !meta.contains(')'),
        !text.contains('('),
        rest.len() > 0 ==> rest.first() == '(',
    ensures
        ({
            let words = words_in(meta.push(')').insert(0, '(') + text + rest);
            match text::two_numbers(meta) {
                Some((time, duration)) if text.len() > 0 => words == seq![
                    WordView { time, duration, text },
                ] + words_in(rest),
                _ => words == words_in(rest),
            }
        }),
{
    let s = meta.push(')').insert(0, '(') + text + rest;
    let close = meta.len() as int + 1;
    text::lemma_run_before(s, '(', '(', 0);
    assert(s.skip(0) == s);
    assert forall|j: int| 0 <= j < close implies s[j] != ')' by {
        if j > 0 {
            assert(s[j] == meta[j - 1]);
            assert(meta.contains(meta[j - 1]));
        }
    }
    text::lemma_run_before(s, ')', ')', close);
    assert(s.subrange(1, close) == meta);
    let after = s.skip(close + 1);
    assert(after == text + rest);
    let n = text.len() as int;
    assert forall|j: int| 0 <= j < n implies after[j] != '(' by {
        assert(text.contains(text[j]));
    }
    text::lemma_run_before(after, '(', '(', n);
    assert(after.take(n) == text);
    assert(after.skip(n) == rest);
}

/// The joined text of words is that of each, one behind the other.
pub proof fn law_joined_text_adds_up(a: Seq<WordView>, b: Seq<WordView>, w: WordView)
    ensures
        joined(a + b) == joined(a) + joined(b),
        joined(seq![w]) == w.text,
    decreases b.len(),
{
    assert(joined(seq![w].drop_last()) == Seq::<char>::empty());
    if b.len() > 0 {
        law_joined_text_adds_up(a, b.drop_last(), w);
        assert((a + b).drop_last() == a + b.drop_last());
    } else {
        assert(a + b == a);
    }
}

/// A line `[head]body` holds a lyric line exactly if its head gives two numbers
/// and its words are not all whitespace. The numbers are its start and its
/// duration, and its text is that of the words.
pub proof fn law_yrc_line_is_read(raw: Seq<char>, head: Seq<char>, body: Seq<char>)
    requires
        text::trimmed(raw) == head.push(']').insert(0, '[') + body,
        !head.contains(']'),
    ensures
        ({
            let words = words_in(body);
            match text::two_numbers(head) {
                Some((time, duration)) if !text::all_white(joined(words)) => {
                    &&& yrc_line(raw) matches Some(l)
                    &&& l.time == time
                    &&& l.duration == duration
                    &&& l.words == words
                    &&& l.text == text::trimmed(joined(words))
                    &&& l.translation is None
                },
                _ => yrc_line(raw) is None,
            }
        }),
{
    let s = text::trimmed(raw);
    assert(s.skip(1) == head.push(']') + body);
    text::law_split_is_at_the_first(head, ']', body, ']', ']');
    text::law_only_whitespace_vanishes(joined(words_in(body)));
}

/// A line without a closing bracket holds no lyric line.
pub proof fn law_unclosed_line_is_skipped(raw: Seq<char>)
    requires
        !text::trimmed(raw).contains(']'),
    ensures
        yrc_line(raw) is None,
{
    let s = text::trimmed(raw);
    if s.len() > 0 {
        let inner = s.skip(1);
        assert(!inner.contains(']')) by {
            if inner.contains(']') {
                let j = choose|j: int| 0 <= j < inner.len() && inner[j] == ']';
                assert(s[j + 1] == ']');
            }
        }
        text::law_split_is_at_the_first(inner, ']', inner, ']', ']');
    }
}

/// The lyric lines of two rows of lines are those of the rows put together, and
/// one line gives the lyric line that it holds, or nothing. So a line that holds
/// none drops itself and no other.
pub proof fn law_yrc_lines_add_up(a: Seq<Seq<char>>, b: Seq<Seq<char>>, raw: Seq<char>)
    ensures
        yrc_lines(a + b) == yrc_lines(a) + yrc_lines(b),
        yrc_lines(seq![raw]) == match yrc_line(raw) {
            Some(line) => seq![line],
            None => Seq::<LineView>::empty(),
        },
    decreases b.len(),
{
    assert(yrc_lines(seq![raw].drop_last()) == Seq::<LineView>::empty());
    if b.len() > 0 {
        law_yrc_lines_add_up(a, b.drop_last(), raw);
        assert((a + b).drop_last() == a + b.drop_last());
        if let Some(line) = yrc_line(b.last()) {
            assert((yrc_lines(a) + yrc_lines(b.drop_last())).push(line) == yrc_lines(a) + yrc_lines(
                b.drop_last(),
            ).push(line));
        }
    } else {
        assert(a + b == a);
    }
}

/// The lyrics of a text are the lyric lines of its lines, all of them and no
/// others: they are in the order of their time, and those that start together
/// are in the order of the text.
pub proof fn law_yrc_holds_every_line(source: Seq<char>)
    ensures
        timeline::ordered(yrc(source)),
        yrc(source).to_multiset() == yrc_lines(text::lines_of(source)).to_multiset(),
        forall|time: u64| #[trigger]
            timeline::starting_at(yrc(source), time) == timeline::starting_at(
                yrc_lines(text::lines_of(source)),
                time,
            ),
{
    let found = yrc_lines(text::lines_of(source));
    timeline::law_sorted_is_ordered(found);
    timeline::law_sorted_keeps_lines(found);
    assert forall|time: u64| #[trigger]
        timeline::starting_at(yrc(source), time) == timeline::starting_at(found, time) by {
        timeline::law_sorted_is_stable(found, time);
    }
}

/// Whatever else is in a text, each of its lines that holds a lyric line gives
/// one of the lyrics, and each of the lyrics comes from such a line.
pub proof fn law_every_yrc_line_is_found(source: Seq<char>, line: LineView)
    ensures
        yrc(source).contains(line) <==> exists|i: int|
            0 <= i < text::lines_of(source).len() && yrc_line(
                #[trigger] text::lines_of(source)[i],
            ) == Some(line),
{
    broadcast use vstd::seq_lib::group_to_multiset_ensures;

    let raw = text::lines_of(source);
    law_yrc_holds_every_line(source);
    lemma_found_lines(raw, line);
    if yrc(source).contains(line) {
        assert(yrc(source).to_multiset().contains(line));
        assert(yrc_lines(raw).contains(line));
    }
    if yrc_lines(raw).contains(line) {
        assert(yrc_lines(raw).to_multiset().contains(line));
        assert(yrc(source).contains(line));
    }
}

proof fn lemma_found_lines(raw: Seq<Seq<char>>, line: LineView)
    ensures
        yrc_lines(raw).contains(line) <==> exists|i: int|
            0 <= i < raw.len() && yrc_line(#[trigger] raw[i]) == Some(line),
    decreases raw.len(),
{
    if raw.len() > 0 {
        let before = raw.drop_last();
        lemma_found_lines(before, line);
        let found = yrc_lines(raw);
        let n = yrc_lines(before).len() as int;
        if yrc_line(raw.last()) == Some(line) {
            assert(found[n] == line);
            assert(yrc_line(raw[raw.len() - 1]) == Some(line));
        }
        if yrc_lines(before).contains(line) {
            let k = choose|k: int| 0 <= k < n && yrc_lines(before)[k] == line;
            assert(found[k] == line);
            let i = choose|i: int| 0 <= i < before.len() && yrc_line(#[trigger] before[i]) == Some(line);
            assert(yrc_line(raw[i]) == Some(line));
        }
        if found.contains(line) {
            let k = choose|k: int| 0 <= k < found.len() && found[k] == line;
            if k < n {
                assert(yrc_lines(before)[k] == line);
            }
        }
        if exists|i: int| 0 <= i < raw.len() && yrc_line(#[trigger] raw[i]) == Some(line) {
            let i = choose|i: int| 0 <= i < raw.len() && yrc_line(#[trigger] raw[i]) == Some(line);
            if i < before.len() {
                assert(yrc_line(before[i]) == Some(line));
            }
        }
    }
}

/// The lyrics of two texts are those of the texts put together, if the first
/// ends in a line break: at each time those of the first come first.
pub proof fn law_yrc_texts_add_up(a: Seq<char>, b: Seq<char>, time: u64)
    requires
        a.len() > 0 ==> a.last() == '\n',
    ensures
        yrc(a + b).len() == yrc(a).len() + yrc(b).len(),
        timeline::starting_at(yrc(a + b), time) == timeline::starting_at(yrc(a), time)
            + timeline::starting_at(yrc(b), time),
{
    let x = yrc_lines(text::lines_of(a));
    let y = yrc_lines(text::lines_of(b));
    text::law_lines_add_up(a, b);
    law_yrc_lines_add_up(text::lines_of(a), text::lines_of(b), Seq::empty());
    timeline::law_sorted_is_ordered(x);
    timeline::law_sorted_is_ordered(y);
    timeline::law_sorted_is_ordered(x + y);
    timeline::law_sorted_is_stable(x, time);
    timeline::law_sorted_is_stable(y, time);
    timeline::law_sorted_is_stable(x + y, time);
    timeline::lemma_starting_at_adds_up(x, y, time);
}

/// Lines that hold no lyric line, such as metadata and blank lines, can be taken
/// out of a text anywhere without changing what is read.
pub proof fn law_other_lines_do_not_matter(a: Seq<char>, b: Seq<char>, c: Seq<char>)
    requires
        a.len() > 0 ==> a.last() == '\n',
        b.len() > 0 ==> b.last() == '\n',
        forall|i: int|
            0 <= i < text::lines_of(b).len() ==> yrc_line(#[trigger] text::lines_of(b)[i]) is None,
    ensures
        yrc(a + b + c) == yrc(a + c),
{
    let x = text::lines_of(a);
    let y = text::lines_of(b);
    let z = text::lines_of(c);
    assert(a + b + c == a + (b + c));
    text::law_lines_add_up(a, b + c);
    text::law_lines_add_up(b, c);
    text::law_lines_add_up(a, c);
    law_yrc_lines_add_up(x, y + z, Seq::empty());
    law_yrc_lines_add_up(y, z, Seq::empty());
    law_yrc_lines_add_up(x, z, Seq::empty());
    lemma_nothing_found(y);
    assert(yrc_lines(y) + yrc_lines(z) == yrc_lines(z));
}

proof fn lemma_nothing_found(raw: Seq<Seq<char>>)
    requires
        forall|i: int| 0 <= i < raw.len() ==> yrc_line(#[trigger] raw[i]) is None,
    ensures
        yrc_lines(raw) == Seq::<LineView>::empty(),
    decreases raw.len(),
{
    if raw.len() > 0 {
        assert(yrc_line(raw[raw.len() - 1]) is None);
        assert forall|i: int| 0 <= i < raw.drop_last().len() implies yrc_line(
            #[trigger] raw.drop_last()[i],
        ) is None by {
            assert(raw.drop_last()[i] == raw[i]);
        }
        lemma_nothing_found(raw.drop_last());
    }
}

/// The lines that are there, in their order.
pub open spec fn present(lines: Seq<Option<LineView>>) -> Seq<LineView>
    decreases lines.len(),
{
    if lines.len() == 0 {
        seq![]
    } else {
        match lines.last() {
            Some(l) => present(lines.drop_last()).push(l),
            None => present(lines.drop_last()),
        }
    }
}

/// Whether a line of a text is a given lyric line in the yrc format, or one that
/// holds none.
pub open spec fn is_row(raw: Seq<char>, line: Option<LineView>) -> bool {
    match line {
        Some(l) => is_yrc_line(l) && without_breaks(l.words) && raw == line_source(l),
        None => yrc_line(raw) is None && text::is_one_line(raw),
    }
}

/// Lyrics read back from the yrc format whatever lines without lyrics, such as
/// metadata, stand ahead of them, among them and behind them.
pub proof fn law_yrc_reads_back_among_other_lines(
    raw: Seq<Seq<char>>,
    lines: Seq<Option<LineView>>,
)
    requires
        raw.len() == lines.len(),
        forall|i: int| 0 <= i < raw.len() ==> is_row(#[trigger] raw[i], lines[i]),
    ensures
        yrc(text::unlines(raw)) == timeline::sorted(present(lines)),
{
    assert forall|i: int| 0 <= i < raw.len() implies text::is_one_line(#[trigger] raw[i]) by {
        assert(is_row(raw[i], lines[i]));
        if let Some(l) = lines[i] {
            lemma_line_source(l);
        }
    }
    text::law_lines_come_apart(raw);
    lemma_rows_read_back(raw, lines);
}

proof fn lemma_rows_read_back(raw: Seq<Seq<char>>, lines: Seq<Option<LineView>>)
    requires
        raw.len() == lines.len(),
        forall|i: int| 0 <= i < raw.len() ==> is_row(#[trigger] raw[i], lines[i]),
    ensures
        yrc_lines(raw) == present(lines),
    decreases raw.len(),
{
    if raw.len() > 0 {
        let n = raw.len() - 1;
        assert forall|i: int| 0 <= i < n implies is_row(
            #[trigger] raw.drop_last()[i],
            lines.drop_last()[i],
        ) by {
            assert(is_row(raw[i], lines[i]));
        }
        lemma_rows_read_back(raw.drop_last(), lines.drop_last());
        assert(is_row(raw[n], lines[n]));
        if let Some(l) = lines[n] {
            law_yrc_line_reads_back(l);
        }
    }
}

} // verus!
