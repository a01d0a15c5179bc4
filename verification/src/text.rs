//! Characters, fields and numbers: what the lyric parsers are built from.
//!
//! Text is handled as a slice of characters, so that every position in it is a
//! character boundary. The specifications speak of `Seq<char>`, the view of
//! `str` and of `String`.

use vstd::prelude::*;
use vstd::slice::slice_subrange;

verus! {

/// `String::push` appends one character to the string.
pub assume_specification[ String::push ](s: &mut String, ch: char)
    ensures
        final(s)@ == old(s)@.push(ch),
;

/// The characters of a string, in order.
pub fn chars_of(text: &str) -> (out: Vec<char>)
    ensures
        out@ == text@,
{
    let mut out: Vec<char> = Vec::new();
    for c in it: text.chars()
        invariant
            it.seq() == text@,
            out@ == text@.take(it.index() as int),
    {
        out.push(c);
    }
    assert(text@.take(text@.len() as int) == text@);
    out
}

/// The string made of the given characters.
pub fn text_of(chars: &[char]) -> (out: String)
    ensures
        out@ == chars@,
{
    let mut out: String = String::new();
    let mut i: usize = 0;
    while i < chars.len()
        invariant
            i <= chars@.len(),
            out@ == chars@.take(i as int),
        decreases chars@.len() - i,
    {
        out.push(chars[i]);
        i = i + 1;
        assert(chars@.take(i as int) == chars@.take(i - 1).push(chars@[i - 1]));
    }
    assert(chars@.take(i as int) == chars@);
    out
}

/// Whether a character has the Unicode property `White_Space`.
pub open spec fn is_white(c: char) -> bool {
    let n = c as u32;
    ||| 0x09 <= n <= 0x0d
    ||| n == 0x20
    ||| n == 0x85
    ||| n == 0xa0
    ||| n == 0x1680
    ||| 0x2000 <= n <= 0x200a
    ||| n == 0x2028
    ||| n == 0x2029
    ||| n == 0x202f
    ||| n == 0x205f
    ||| n == 0x3000
}

/// Decides [`is_white`].
pub fn white(c: char) -> (r: bool)
    ensures
        r == is_white(c),
{
    let n: u32 = c as u32;
    (0x09 <= n && n <= 0x0d) || n == 0x20 || n == 0x85 || n == 0xa0 || n == 0x1680 || (0x2000 <= n
        && n <= 0x200a) || n == 0x2028 || n == 0x2029 || n == 0x202f || n == 0x205f || n == 0x3000
}

/// A text without its leading whitespace.
pub open spec fn trim_start(s: Seq<char>) -> Seq<char>
    decreases s.len(),
{
    if s.len() > 0 && is_white(s.first()) {
        trim_start(s.drop_first())
    } else {
        s
    }
}

/// A text without its trailing whitespace.
pub open spec fn trim_end(s: Seq<char>) -> Seq<char>
    decreases s.len(),
{
    if s.len() > 0 && is_white(s.last()) {
        trim_end(s.drop_last())
    } else {
        s
    }
}

/// A text without the whitespace around it.
pub open spec fn trimmed(s: Seq<char>) -> Seq<char> {
    trim_end(trim_start(s))
}

/// The slice without the whitespace around it.
pub fn trim<'a>(s: &'a [char]) -> (r: &'a [char])
    ensures
        r@ == trimmed(s@),
{
    let n: usize = s.len();
    let mut i: usize = 0;
    assert(s@.skip(0) == s@);
    while i < n && white(s[i])
        invariant
            n == s@.len(),
            i <= n,
            trim_start(s@) == trim_start(s@.skip(i as int)),
        decreases n - i,
    {
        assert(s@.skip(i as int).drop_first() == s@.skip(i + 1));
        i = i + 1;
    }
    let mut j: usize = n;
    assert(s@.subrange(i as int, n as int) == s@.skip(i as int));
    while j > i && white(s[j - 1])
        invariant
            n == s@.len(),
            i <= j <= n,
            trimmed(s@) == trim_end(s@.subrange(i as int, j as int)),
        decreases j,
    {
        assert(s@.subrange(i as int, j as int).drop_last() == s@.subrange(i as int, j - 1));
        j = j - 1;
    }
    slice_subrange(s, i, j)
}

/// How many characters come before the first `a` or `b`; all of them if there
/// is none.
pub open spec fn run_before(s: Seq<char>, a: char, b: char) -> nat
    decreases s.len(),
{
    if s.len() == 0 || s.first() == a || s.first() == b {
        0
    } else {
        1 + run_before(s.drop_first(), a, b)
    }
}

/// The run before a delimiter is the one prefix that is free of delimiters and
/// ends at one, or at the end of the text.
pub proof fn lemma_run_before(s: Seq<char>, a: char, b: char, n: int)
    requires
        0 <= n <= s.len(),
        forall|j: int| 0 <= j < n ==> s[j] != a && s[j] != b,
        n < s.len() ==> s[n] == a || s[n] == b,
    ensures
        run_before(s, a, b) == n,
    decreases s.len(),
{
    if n > 0 {
        assert forall|j: int| 0 <= j < n - 1 implies s.drop_first()[j] != a && s.drop_first()[j]
            != b by {
            assert(s.drop_first()[j] == s[j + 1]);
        }
        lemma_run_before(s.drop_first(), a, b, n - 1);
    }
}

/// What [`run_before`] is, character by character.
pub proof fn lemma_run_before_meaning(s: Seq<char>, a: char, b: char)
    ensures
        run_before(s, a, b) <= s.len(),
        forall|j: int| 0 <= j < run_before(s, a, b) ==> s[j] != a && s[j] != b,
        run_before(s, a, b) < s.len() ==> s[run_before(s, a, b) as int] == a || s[run_before(
            s,
            a,
            b,
        ) as int] == b,
    decreases s.len(),
{
    if !(s.len() == 0 || s.first() == a || s.first() == b) {
        let t = s.drop_first();
        lemma_run_before_meaning(t, a, b);
        assert forall|j: int| 0 <= j < run_before(s, a, b) implies s[j] != a && s[j] != b by {
            if j > 0 {
                assert(s[j] == t[j - 1]);
            }
        }
    }
}

/// Finds the first `a` or `b`; the length of the slice if there is none.
pub fn find_either(s: &[char], a: char, b: char) -> (r: usize)
    ensures
        r == run_before(s@, a, b),
        r <= s@.len(),
        r < s@.len() ==> s@[r as int] == a || s@[r as int] == b,
{
    let mut i: usize = 0;
    while i < s.len() && s[i] != a && s[i] != b
        invariant
            i <= s@.len(),
            forall|j: int| 0 <= j < i ==> s@[j] != a && s@[j] != b,
        decreases s@.len() - i,
    {
        i = i + 1;
    }
    proof {
        lemma_run_before(s@, a, b, i as int);
    }
    i
}

/// What stands before and after the first `a` or `b`.
pub open spec fn split_at_either(s: Seq<char>, a: char, b: char) -> Option<(Seq<char>, Seq<char>)> {
    let n = run_before(s, a, b) as int;
    if n < s.len() {
        Some((s.take(n), s.skip(n + 1)))
    } else {
        None
    }
}

/// What stands before and after the first `c`.
pub open spec fn split_at_char(s: Seq<char>, c: char) -> Option<(Seq<char>, Seq<char>)> {
    split_at_either(s, c, c)
}

/// Splits a slice at the first `a` or `b`, which belongs to neither part.
pub fn split_either<'a>(s: &'a [char], a: char, b: char) -> (r: Option<(&'a [char], &'a [char])>)
    ensures
        match (r, split_at_either(s@, a, b)) {
            (Some((x, y)), Some((u, v))) => x@ == u && y@ == v && y@.len() < s@.len(),
            (None, None) => true,
            _ => false,
        },
{
    let i: usize = find_either(s, a, b);
    if i < s.len() {
        Some((slice_subrange(s, 0, i), slice_subrange(s, i + 1, s.len())))
    } else {
        None
    }
}

/// A line without the carriage return that belongs to its line break.
pub open spec fn without_cr(s: Seq<char>) -> Seq<char> {
    if s.len() > 0 && s.last() == '\r' {
        s.drop_last()
    } else {
        s
    }
}

/// The lines of a text. A line ends at `\n` or `\r\n`; the break after the last
/// line may be missing.
pub open spec fn lines_of(s: Seq<char>) -> Seq<Seq<char>>
    decreases s.len(),
{
    match split_at_char(s, '\n') {
        Some((line, rest)) => seq![without_cr(line)] + lines_of(rest),
        None => if s.len() == 0 {
            seq![]
        } else {
            seq![s]
        },
    }
}

/// Splits a text into its lines.
pub fn lines<'a>(s: &'a [char]) -> (out: Vec<&'a [char]>)
    ensures
        out@.len() == lines_of(s@).len(),
        forall|i: int| 0 <= i < out@.len() ==> (#[trigger] out@[i])@ == lines_of(s@)[i],
{
    let mut out: Vec<&'a [char]> = Vec::new();
    let mut rest: &'a [char] = s;
    let ghost all = lines_of(s@);
    let mut more: bool = true;
    assert(all.skip(0) == all);
    while more
        invariant
            out@.len() <= all.len(),
            all == lines_of(s@),
            forall|i: int| 0 <= i < out@.len() ==> (#[trigger] out@[i])@ == all[i],
            all.skip(out@.len() as int) == if more {
                lines_of(rest@)
            } else {
                Seq::empty()
            },
        decreases
            if more {
                rest@.len() + 1
            } else {
                0
            },
    {
        let ghost tail = all.skip(out@.len() as int);
        match split_either(rest, '\n', '\n') {
            Some((line, after)) => {
                let ghost first = line@;
                let line = if line.len() > 0 && line[line.len() - 1] == '\r' {
                    slice_subrange(line, 0, line.len() - 1)
                } else {
                    line
                };
                assert(line@ == without_cr(first));
                assert(tail == seq![without_cr(first)] + lines_of(after@));
                assert(tail[0] == all[out@.len() as int]);
                out.push(line);
                rest = after;
                assert(tail.skip(1) == lines_of(after@));
                assert(tail.skip(1) == all.skip(out@.len() as int));
            },
            None => {
                if rest.len() > 0 {
                    assert(tail == seq![rest@]);
                    assert(tail[0] == all[out@.len() as int]);
                    out.push(rest);
                    assert(all.skip(out@.len() as int) == tail.skip(1));
                }
                more = false;
                assert(all.skip(out@.len() as int) == Seq::<Seq<char>>::empty());
            },
        }
    }
    assert(all.skip(out@.len() as int).len() == 0);
    out
}

/// Whether a character is one of `0` to `9`.
pub open spec fn is_digit(c: char) -> bool {
    '0' <= c && c <= '9'
}

/// Whether a text holds digits and nothing else.
pub open spec fn all_digits(s: Seq<char>) -> bool {
    forall|i: int| 0 <= i < s.len() ==> is_digit(#[trigger] s[i])
}

/// The number that a row of digits writes in base ten.
pub open spec fn digits_value(s: Seq<char>) -> nat
    decreases s.len(),
{
    if s.len() == 0 {
        0
    } else {
        (digits_value(s.drop_last()) * 10 + (s.last() as u32 - '0' as u32)) as nat
    }
}

/// A text without one leading `+`.
pub open spec fn without_plus(s: Seq<char>) -> Seq<char> {
    if s.len() > 0 && s.first() == '+' {
        s.drop_first()
    } else {
        s
    }
}

/// The unsigned number that a text writes: digits, with an optional `+` before
/// them. There is none if the text is of another form, or if the number is
/// over `max`.
pub open spec fn number_in(s: Seq<char>, max: u64) -> Option<u64> {
    let d = without_plus(s);
    if d.len() > 0 && all_digits(d) && digits_value(d) <= max {
        Some(digits_value(d) as u64)
    } else {
        None
    }
}

/// More digits never make a number smaller.
proof fn lemma_digits_grow(s: Seq<char>, n: int)
    requires
        0 <= n <= s.len(),
        all_digits(s),
    ensures
        digits_value(s.take(n)) <= digits_value(s),
    decreases s.len(),
{
    if n < s.len() {
        assert(s.drop_last().take(n) == s.take(n));
        assert forall|i: int| 0 <= i < s.drop_last().len() implies is_digit(
            #[trigger] s.drop_last()[i],
        ) by {
            assert(s.drop_last()[i] == s[i]);
        }
        lemma_digits_grow(s.drop_last(), n);
        assert(is_digit(s[s.len() - 1]));
    } else {
        assert(s.take(n) == s);
    }
}

/// Reads an unsigned number that is at most `max`.
pub fn read_number(s: &[char], max: u64) -> (r: Option<u64>)
    ensures
        r == number_in(s@, max),
{
    let start: usize = if s.len() > 0 && s[0] == '+' {
        1
    } else {
        0
    };
    let d: &[char] = slice_subrange(s, start, s.len());
    assert(d@ == without_plus(s@));
    if d.len() == 0 {
        return None;
    }
    let mut value: u64 = 0;
    let mut i: usize = 0;
    while i < d.len()
        invariant
            i <= d@.len(),
            d@ == without_plus(s@),
            all_digits(d@.take(i as int)),
            value == digits_value(d@.take(i as int)),
            value <= max,
        decreases d@.len() - i,
    {
        let c: char = d[i];
        assert(d@.take(i + 1).drop_last() == d@.take(i as int));
        if !('0' <= c && c <= '9') {
            assert(!is_digit(d@[i as int]));
            return None;
        }
        let k: u64 = (c as u32 - '0' as u32) as u64;
        if k > max || value > (max - k) / 10 {
            proof {
                if all_digits(d@) {
                    lemma_digits_grow(d@, i + 1);
                }
            }
            return None;
        }
        value = value * 10 + k;
        assert forall|j: int| 0 <= j < i + 1 implies is_digit(#[trigger] d@.take(i + 1)[j]) by {
            if j < i {
                assert(d@.take(i + 1)[j] == d@.take(i as int)[j]);
            }
        }
        i = i + 1;
    }
    assert(d@.take(i as int) == d@);
    Some(value)
}

/// What stands before the first comma; the whole text if there is none.
pub open spec fn first_field(s: Seq<char>) -> Seq<char> {
    match split_at_char(s, ',') {
        Some((field, _)) => field,
        None => s,
    }
}

/// The numbers in the first two comma-separated fields of a text, if both
/// fields are there and each holds a number, with or without whitespace around
/// it. What follows the second field does not matter.
pub open spec fn two_numbers(s: Seq<char>) -> Option<(u64, u64)> {
    match split_at_char(s, ',') {
        Some((first, rest)) => match (
            number_in(trimmed(first), u64::MAX),
            number_in(trimmed(first_field(rest)), u64::MAX),
        ) {
            (Some(a), Some(b)) => Some((a, b)),
            _ => None,
        },
        None => None,
    }
}

/// Reads the numbers in the first two comma-separated fields.
pub fn read_two_numbers(s: &[char]) -> (r: Option<(u64, u64)>)
    ensures
        r == two_numbers(s@),
{
    match split_either(s, ',', ',') {
        Some((first, rest)) => {
            let second: &[char] = match split_either(rest, ',', ',') {
                Some((field, _)) => field,
                None => rest,
            };
            match (read_number(trim(first), u64::MAX), read_number(trim(second), u64::MAX)) {
                (Some(a), Some(b)) => Some((a, b)),
                _ => None,
            }
        },
        None => None,
    }
}

/// A number in base ten, without leading zeros.
pub open spec fn decimal(n: nat) -> Seq<char>
    decreases n,
{
    if n < 10 {
        seq![('0' as u32 + n) as char]
    } else {
        decimal(n / 10).push(('0' as u32 + n % 10) as char)
    }
}

/// Appends a number in base ten.
pub fn push_decimal(out: &mut String, n: u64)
    ensures
        final(out)@ == old(out)@ + decimal(n as nat),
    decreases n,
{
    if n >= 10 {
        push_decimal(out, n / 10);
    }
    out.push(('0' as u8 + (n % 10) as u8) as char);
    assert(out@ == old(out)@ + decimal(n as nat));
}

/// The base-ten text of a number holds digits and nothing else.
pub proof fn lemma_decimal_digits(n: nat)
    ensures
        decimal(n).len() > 0,
        all_digits(decimal(n)),
        digits_value(decimal(n)) == n,
    decreases n,
{
    reveal_with_fuel(digits_value, 2);
    if n >= 10 {
        lemma_decimal_digits(n / 10);
        assert(decimal(n).drop_last() == decimal(n / 10));
    } else {
        assert(decimal(n).drop_last() == Seq::<char>::empty());
    }
}

/// A number reads back from its base-ten text.
pub proof fn law_number_reads_back(n: u64, max: u64)
    requires
        n <= max,
    ensures
        number_in(decimal(n as nat), max) == Some(n),
{
    lemma_decimal_digits(n as nat);
    assert(is_digit(decimal(n as nat)[0]));
}

/// A text that neither starts nor ends with whitespace is left as it is.
pub proof fn lemma_trimmed_keeps(s: Seq<char>)
    requires
        s.len() > 0 ==> !is_white(s.first()) && !is_white(s.last()),
    ensures
        trimmed(s) == s,
{
}

/// What is left of the start of a text that ends in something else than
/// whitespace.
proof fn lemma_trim_start_keeps_last(s: Seq<char>)
    requires
        s.len() > 0,
        !is_white(s.last()),
    ensures
        trim_start(s).len() > 0,
        trim_start(s).last() == s.last(),
    decreases s.len(),
{
    if is_white(s.first()) {
        lemma_trim_start_keeps_last(s.drop_first());
    }
}

/// A text that ends in something else than whitespace does not vanish.
pub proof fn lemma_trimmed_is_not_empty(s: Seq<char>)
    requires
        s.len() > 0,
        !is_white(s.last()),
    ensures
        trimmed(s).len() > 0,
{
    lemma_trim_start_keeps_last(s);
}

/// What is left ahead of trailing whitespace is the start of the text.
pub proof fn lemma_trim_end_is_a_start(s: Seq<char>)
    ensures
        trim_end(s).len() <= s.len(),
        trim_end(s) == s.take(trim_end(s).len() as int),
    decreases s.len(),
{
    if s.len() > 0 && is_white(s.last()) {
        lemma_trim_end_is_a_start(s.drop_last());
    }
}

/// Trailing whitespace is cut off whatever stands ahead of the text.
pub proof fn lemma_trim_end_behind(a: Seq<char>, b: Seq<char>)
    requires
        trim_end(b).len() > 0,
    ensures
        trim_end(a + b) == a + trim_end(b),
    decreases b.len(),
{
    if is_white(b.last()) {
        lemma_trim_end_behind(a, b.drop_last());
        assert((a + b).drop_last() == a + b.drop_last());
    }
}

/// Leading whitespace is cut off whatever the last character is.
proof fn lemma_trim_start_of_last(s: Seq<char>)
    requires
        s.len() > 0,
        is_white(s.last()),
    ensures
        trim_start(s) == if trim_start(s.drop_last()).len() == 0 {
            seq![]
        } else {
            trim_start(s.drop_last()).push(s.last())
        },
    decreases s.len(),
{
    if s.len() == 1 {
        assert(trim_start(s.drop_last()).len() == 0);
        assert(trim_start(s.drop_first()).len() == 0);
    } else if is_white(s.first()) {
        lemma_trim_start_of_last(s.drop_first());
        assert(s.drop_first().drop_last() == s.drop_last().drop_first());
    } else {
        assert(s.drop_last().push(s.last()) == s);
    }
}

/// It makes no difference to cut off the trailing whitespace beforehand.
pub proof fn lemma_trimmed_of_trim_end(s: Seq<char>)
    ensures
        trimmed(trim_end(s)) == trimmed(s),
    decreases s.len(),
{
    if s.len() > 0 && is_white(s.last()) {
        lemma_trimmed_of_trim_end(s.drop_last());
        lemma_trim_start_of_last(s);
        let t = trim_start(s.drop_last());
        if t.len() > 0 {
            assert(t.push(s.last()).drop_last() == t);
        }
    }
}

/// What is left of a text starts with something else than whitespace.
proof fn lemma_trim_start_ends(s: Seq<char>)
    ensures
        trim_start(s).len() > 0 ==> !is_white(trim_start(s).first()),
    decreases s.len(),
{
    if s.len() > 0 && is_white(s.first()) {
        lemma_trim_start_ends(s.drop_first());
    }
}

/// What is left of a text ends with something else than whitespace, and starts
/// as before.
proof fn lemma_trim_end_ends(s: Seq<char>)
    ensures
        trim_end(s).len() > 0 ==> !is_white(trim_end(s).last()) && trim_end(s).first() == s.first(),
    decreases s.len(),
{
    if s.len() > 0 && is_white(s.last()) {
        lemma_trim_end_ends(s.drop_last());
    }
}

/// A trimmed text has no whitespace at its ends, and trimming it again changes
/// nothing.
pub proof fn law_trimmed_ends(s: Seq<char>)
    ensures
        trimmed(s).len() > 0 ==> !is_white(trimmed(s).first()) && !is_white(trimmed(s).last()),
        trimmed(trimmed(s)) == trimmed(s),
{
    lemma_trim_start_ends(s);
    lemma_trim_end_ends(trim_start(s));
    lemma_trimmed_keeps(trimmed(s));
}

/// Digits read as the number they write, with whatever follows a comma behind
/// the second number left aside.
pub proof fn lemma_two_numbers(a: u64, b: u64, tail: Seq<char>)
    requires
        tail.len() > 0 ==> tail.first() == ',',
    ensures
        two_numbers(decimal(a as nat).push(',') + decimal(b as nat) + tail) == Some((a, b)),
{
    let x = decimal(a as nat);
    let y = decimal(b as nat);
    let s = x.push(',') + y + tail;
    lemma_decimal_digits(a as nat);
    lemma_decimal_digits(b as nat);
    law_number_reads_back(a, u64::MAX);
    law_number_reads_back(b, u64::MAX);
    assert forall|j: int| 0 <= j < x.len() implies s[j] != ',' by {
        assert(is_digit(x[j]));
    }
    lemma_run_before(s, ',', ',', x.len() as int);
    assert(s.take(x.len() as int) == x);
    let rest = s.skip(x.len() as int + 1);
    assert(rest == y + tail);
    assert forall|j: int| 0 <= j < y.len() implies rest[j] != ',' by {
        assert(is_digit(y[j]));
    }
    lemma_run_before(rest, ',', ',', y.len() as int);
    if tail.len() > 0 {
        assert(rest.take(y.len() as int) == y);
    } else {
        assert(rest == y);
    }
    assert(is_digit(x[0]) && is_digit(x[x.len() - 1]));
    assert(is_digit(y[0]) && is_digit(y[y.len() - 1]));
    lemma_trimmed_keeps(x);
    lemma_trimmed_keeps(y);
}

/// Lines put together, each with a line break behind it.
pub open spec fn unlines(lines: Seq<Seq<char>>) -> Seq<char>
    decreases lines.len(),
{
    if lines.len() == 0 {
        seq![]
    } else {
        lines.first().push('\n') + unlines(lines.drop_first())
    }
}

/// Whether a text can be one line: there is no line break in it, and it does
/// not end in what would be taken for part of one.
pub open spec fn is_one_line(s: Seq<char>) -> bool {
    &&& forall|i: int| 0 <= i < s.len() ==> s[i] != '\n'
    &&& s.len() > 0 ==> s.last() != '\r'
}

/// Lines joined by line breaks, with none behind the last one.
pub open spec fn joined_lines(lines: Seq<Seq<char>>) -> Seq<char>
    decreases lines.len(),
{
    if lines.len() == 0 {
        seq![]
    } else if lines.len() == 1 {
        lines.first()
    } else {
        lines.first().push('\n') + joined_lines(lines.drop_first())
    }
}

/// Lines that were joined come apart again, unless the last one is empty, in
/// which case the text ends in the break ahead of it. A carriage return at the
/// very end belongs to no line break.
pub proof fn law_joined_lines_come_apart(lines: Seq<Seq<char>>)
    requires
        forall|i: int| 0 <= i < lines.len() - 1 ==> is_one_line(#[trigger] lines[i]),
        lines.len() > 0 ==> lines.last().len() > 0 && !lines.last().contains('\n'),
    ensures
        lines_of(joined_lines(lines)) == lines,
    decreases lines.len(),
{
    let s = joined_lines(lines);
    if lines.len() > 1 {
        let first = lines.first();
        let others = lines.drop_first();
        assert forall|i: int| 0 <= i < others.len() - 1 implies is_one_line(
            #[trigger] others[i],
        ) by {
            assert(others[i] == lines[i + 1]);
        }
        assert(others.last() == lines.last());
        law_joined_lines_come_apart(others);
        assert(is_one_line(lines[0]));
        let n = first.len() as int;
        lemma_run_before(s, '\n', '\n', n);
        assert(s.take(n) == first);
        assert(s.skip(n + 1) == joined_lines(others));
        assert(seq![first] + others == lines);
    } else if lines.len() == 1 {
        assert forall|j: int| 0 <= j < s.len() implies s[j] != '\n' by {
            assert(lines.last().contains(s[j]));
        }
        lemma_run_before(s, '\n', '\n', s.len() as int);
        assert(lines_of(s) == lines);
    } else {
        lemma_run_before_meaning(s, '\n', '\n');
        assert(lines_of(s) == lines);
    }
}

/// Lines that were put together come apart again.
pub proof fn law_lines_come_apart(lines: Seq<Seq<char>>)
    requires
        forall|i: int| 0 <= i < lines.len() ==> is_one_line(#[trigger] lines[i]),
    ensures
        lines_of(unlines(lines)) == lines,
    decreases lines.len(),
{
    let s = unlines(lines);
    if lines.len() > 0 {
        let first = lines.first();
        let others = lines.drop_first();
        assert forall|i: int| 0 <= i < others.len() implies is_one_line(#[trigger] others[i]) by {
            assert(others[i] == lines[i + 1]);
        }
        law_lines_come_apart(others);
        assert(is_one_line(lines[0]));
        let n = first.len() as int;
        lemma_run_before(s, '\n', '\n', n);
        assert(s.take(n) == first);
        assert(s.skip(n + 1) == unlines(others));
        assert(seq![first] + others == lines);
    } else {
        lemma_run_before_meaning(s, '\n', '\n');
        assert(lines_of(s) == lines);
    }
}

/// Whether a text holds whitespace and nothing else.
pub open spec fn all_white(s: Seq<char>) -> bool {
    forall|i: int| 0 <= i < s.len() ==> is_white(#[trigger] s[i])
}

/// Whitespace ahead of a text makes no difference to what is left of its start.
proof fn lemma_trim_start_behind(before: Seq<char>, s: Seq<char>)
    requires
        all_white(before),
    ensures
        trim_start(before + s) == trim_start(s),
    decreases before.len(),
{
    if before.len() > 0 {
        assert(is_white(before[0]));
        assert forall|i: int| 0 <= i < before.drop_first().len() implies is_white(
            #[trigger] before.drop_first()[i],
        ) by {
            assert(before.drop_first()[i] == before[i + 1]);
        }
        lemma_trim_start_behind(before.drop_first(), s);
        assert((before + s).drop_first() == before.drop_first() + s);
    } else {
        assert(before + s == s);
    }
}

/// Whitespace behind a text makes no difference to what is left of its end.
proof fn lemma_trim_end_ahead(s: Seq<char>, after: Seq<char>)
    requires
        all_white(after),
    ensures
        trim_end(s + after) == trim_end(s),
    decreases after.len(),
{
    if after.len() > 0 {
        assert(is_white(after[after.len() - 1]));
        assert forall|i: int| 0 <= i < after.drop_last().len() implies is_white(
            #[trigger] after.drop_last()[i],
        ) by {
            assert(after.drop_last()[i] == after[i]);
        }
        lemma_trim_end_ahead(s, after.drop_last());
        assert((s + after).drop_last() == s + after.drop_last());
    } else {
        assert(s + after == s);
    }
}

/// Trimming takes away the whitespace at both ends of a text and nothing else:
/// what stands between them comes out as it is.
pub proof fn law_trimming_leaves_the_middle(
    before: Seq<char>,
    middle: Seq<char>,
    after: Seq<char>,
)
    requires
        all_white(before),
        all_white(after),
        middle.len() > 0 ==> !is_white(middle.first()) && !is_white(middle.last()),
    ensures
        trimmed(before + middle + after) == middle,
{
    assert(before + middle + after == before + (middle + after));
    lemma_trim_start_behind(before, middle + after);
    if middle.len() > 0 {
        assert(trim_start(middle + after) == middle + after);
        lemma_trim_end_ahead(middle, after);
    } else {
        assert(middle + after == after + Seq::<char>::empty());
        lemma_trim_start_behind(after, Seq::empty());
    }
}

/// A text vanishes by trimming exactly if it is all whitespace.
pub proof fn law_only_whitespace_vanishes(s: Seq<char>)
    ensures
        trimmed(s).len() == 0 <==> all_white(s),
{
    if all_white(s) {
        assert(s + Seq::<char>::empty() + Seq::<char>::empty() == s);
        law_trimming_leaves_the_middle(s, Seq::empty(), Seq::empty());
    } else {
        let i = choose|i: int| 0 <= i < s.len() && !is_white(#[trigger] s[i]);
        lemma_trim_start_keeps(s, i);
        let t = trim_start(s);
        let k = choose|k: int| 0 <= k < t.len() && t[k] == s[i];
        lemma_trim_end_keeps(t, k);
    }
}

proof fn lemma_trim_start_keeps(s: Seq<char>, i: int)
    requires
        0 <= i < s.len(),
        !is_white(s[i]),
    ensures
        exists|k: int| 0 <= k < trim_start(s).len() && trim_start(s)[k] == s[i],
    decreases s.len(),
{
    if is_white(s.first()) {
        assert(s.drop_first()[i - 1] == s[i]);
        lemma_trim_start_keeps(s.drop_first(), i - 1);
        let t = trim_start(s.drop_first());
        let k = choose|k: int| 0 <= k < t.len() && t[k] == s.drop_first()[i - 1];
        assert(trim_start(s)[k] == s[i]);
    } else {
        assert(trim_start(s)[i] == s[i]);
    }
}

proof fn lemma_trim_end_keeps(s: Seq<char>, i: int)
    requires
        0 <= i < s.len(),
        !is_white(s[i]),
    ensures
        trim_end(s).len() > 0,
    decreases s.len(),
{
    if is_white(s.last()) {
        assert(s.drop_last()[i] == s[i]);
        lemma_trim_end_keeps(s.drop_last(), i);
    }
}

/// A text is split at the first delimiter, whatever follows it; a text without
/// a delimiter is not split.
pub proof fn law_split_is_at_the_first(
    first: Seq<char>,
    delimiter: char,
    rest: Seq<char>,
    a: char,
    b: char,
)
    requires
        !first.contains(a),
        !first.contains(b),
        delimiter == a || delimiter == b,
    ensures
        split_at_either(first.push(delimiter) + rest, a, b) == Some((first, rest)),
        split_at_either(first, a, b) is None,
        a == b ==> split_at_char(first.push(delimiter) + rest, a) == Some((first, rest)),
        a == b ==> split_at_char(first, a) is None,
{
    let s = first.push(delimiter) + rest;
    let n = first.len() as int;
    assert forall|j: int| 0 <= j < n implies first[j] != a && first[j] != b && s[j] == first[j] by {
        assert(first.contains(first[j]));
    }
    lemma_run_before(s, a, b, n);
    lemma_run_before(first, a, b, n);
    assert(s.take(n) == first);
    assert(s.skip(n + 1) == rest);
}

/// A line ends at `\n`, and a carriage return right ahead of it belongs to the
/// break. What is left behind the last break is a line if there is anything.
pub proof fn law_line_ends_at_its_break(line: Seq<char>, rest: Seq<char>)
    requires
        !line.contains('\n'),
    ensures
        lines_of(line.push('\r').push('\n') + rest) == seq![line] + lines_of(rest),
        !(line.len() > 0 && line.last() == '\r') ==> lines_of(line.push('\n') + rest) == seq![line]
            + lines_of(rest),
        line.len() > 0 ==> lines_of(line) == seq![line],
        lines_of(Seq::empty()) == Seq::<Seq<char>>::empty(),
{
    let long = line.push('\r');
    assert(!long.contains('\n')) by {
        if long.contains('\n') {
            let j = choose|j: int| 0 <= j < long.len() && long[j] == '\n';
            assert(line[j] == '\n');
            assert(line.contains('\n'));
        }
    }
    law_split_is_at_the_first(long, '\n', rest, '\n', '\n');
    law_split_is_at_the_first(line, '\n', rest, '\n', '\n');
    assert(long.drop_last() == line);
    assert(!Seq::<char>::empty().contains('\n'));
    law_split_is_at_the_first(Seq::empty(), '\n', rest, '\n', '\n');
}

/// The lines of two texts, of which the first is empty or ends in a line break,
/// are those of the texts put together.
pub proof fn law_lines_add_up(a: Seq<char>, b: Seq<char>)
    requires
        a.len() > 0 ==> a.last() == '\n',
    ensures
        lines_of(a + b) == lines_of(a) + lines_of(b),
    decreases a.len(),
{
    if a.len() == 0 {
        assert(a + b == b);
        assert(!a.contains('\n'));
        law_line_ends_at_its_break(a, b);
        assert(a == Seq::<char>::empty());
        assert(lines_of(a) + lines_of(b) == lines_of(b));
    } else {
        lemma_run_before_meaning(a, '\n', '\n');
        let n = run_before(a, '\n', '\n') as int;
        assert(n < a.len());
        let line = a.take(n);
        let rest = a.skip(n + 1);
        assert(a + b == line.push('\n') + (rest + b));
        assert(!line.contains('\n')) by {
            if line.contains('\n') {
                let j = choose|j: int| 0 <= j < line.len() && line[j] == '\n';
                assert(a[j] == '\n');
            }
        }
        law_split_is_at_the_first(line, '\n', rest + b, '\n', '\n');
        law_lines_add_up(rest, b);
        assert(seq![without_cr(line)] + (lines_of(rest) + lines_of(b)) == (seq![without_cr(line)]
            + lines_of(rest)) + lines_of(b));
    }
}

/// Whether a text holds zeros and nothing else.
pub open spec fn all_zeros(s: Seq<char>) -> bool {
    forall|i: int| 0 <= i < s.len() ==> #[trigger] s[i] == '0'
}

/// Leading zeros do not change a number.
proof fn lemma_leading_zeros(zeros: Seq<char>, s: Seq<char>)
    requires
        all_zeros(zeros),
    ensures
        digits_value(zeros + s) == digits_value(s),
    decreases zeros.len() + s.len(),
{
    if s.len() > 0 {
        lemma_leading_zeros(zeros, s.drop_last());
        assert((zeros + s).drop_last() == zeros + s.drop_last());
    } else if zeros.len() > 0 {
        assert(zeros[zeros.len() - 1] == '0');
        assert forall|i: int| 0 <= i < zeros.drop_last().len() implies #[trigger] zeros.drop_last()[i]
            == '0' by {
            assert(zeros.drop_last()[i] == zeros[i]);
        }
        lemma_leading_zeros(zeros.drop_last(), s);
        assert((zeros + s).drop_last() == zeros.drop_last() + s);
    }
}

/// A number is read from its base-ten text, with or without a `+` and zeros
/// ahead of it, if it is not too large.
pub proof fn law_number_is_read(zeros: Seq<char>, n: nat, max: u64)
    requires
        all_zeros(zeros),
    ensures
        ({
            let r = if n <= max {
                Some(n as u64)
            } else {
                None
            };
            &&& number_in(zeros + decimal(n), max) == r
            &&& number_in((zeros + decimal(n)).insert(0, '+'), max) == r
        }),
{
    let d = zeros + decimal(n);
    lemma_decimal_digits(n);
    lemma_leading_zeros(zeros, decimal(n));
    assert forall|i: int| 0 <= i < d.len() implies is_digit(#[trigger] d[i]) by {
        if i < zeros.len() {
            assert(zeros[i] == '0');
        } else {
            assert(is_digit(decimal(n)[i - zeros.len()]));
        }
    }
    assert(is_digit(d[0]));
    assert(d.insert(0, '+').drop_first() == d);
}

/// A text without digits, and one with anything but digits behind an optional
/// `+`, is no number.
pub proof fn law_other_text_is_no_number(s: Seq<char>, max: u64)
    requires
        s.len() == 0 || s == seq!['+'] || exists|i: int|
            0 <= i < s.len() && !('0' <= #[trigger] s[i] && s[i] <= '9') && !(i == 0 && s[i] == '+'),
    ensures
        number_in(s, max) is None,
{
    if s.len() > 0 && s != seq!['+'] {
        let i = choose|i: int|
            0 <= i < s.len() && !('0' <= #[trigger] s[i] && s[i] <= '9') && !(i == 0 && s[i]
                == '+');
        let d = without_plus(s);
        if s.first() == '+' {
            assert(d[i - 1] == s[i]);
            assert(!is_digit(d[i - 1]));
        } else {
            assert(!is_digit(d[i]));
        }
    }
}

/// The base-ten text of a number holds digits, has no zero ahead of them, and
/// is another one for every number.
pub proof fn law_decimal(n: nat, m: nat)
    ensures
        forall|i: int| 0 <= i < decimal(n).len() ==> '0' <= #[trigger] decimal(n)[i] && decimal(n)[i]
            <= '9',
        decimal(n).len() > 0,
        decimal(n).len() > 1 ==> decimal(n)[0] != '0',
        n >= 10 ==> decimal(n) == decimal(n / 10) + decimal(n % 10),
        decimal(n) == decimal(m) <==> n == m,
{
    lemma_decimal_digits(n);
    lemma_decimal_digits(m);
    assert forall|i: int| 0 <= i < decimal(n).len() implies '0' <= #[trigger] decimal(n)[i]
        && decimal(n)[i] <= '9' by {
        assert(is_digit(decimal(n)[i]));
    }
    lemma_decimal_has_no_leading_zero(n);
}

proof fn lemma_decimal_has_no_leading_zero(n: nat)
    ensures
        n > 0 ==> decimal(n)[0] != '0',
    decreases n,
{
    if n >= 10 {
        lemma_decimal_has_no_leading_zero(n / 10);
        lemma_decimal_digits(n / 10);
        assert(decimal(n)[0] == decimal(n / 10)[0]);
    }
}

/// Two numbers are read from two fields with a comma between them, each with or
/// without whitespace around it, and whatever follows another comma is left
/// aside. A single field is not enough.
pub proof fn law_two_fields_are_read(first: Seq<char>, second: Seq<char>, tail: Seq<char>)
    requires
        !first.contains(','),
        !second.contains(','),
        tail.len() > 0 ==> tail.first() == ',',
    ensures
        two_numbers(first.push(',') + second + tail) == match (
            number_in(trimmed(first), u64::MAX),
            number_in(trimmed(second), u64::MAX),
        ) {
            (Some(a), Some(b)) => Some((a, b)),
            _ => None,
        },
        two_numbers(first) is None,
{
    let rest = second + tail;
    assert(first.push(',') + second + tail == first.push(',') + rest);
    law_split_is_at_the_first(first, ',', rest, ',', ',');
    if tail.len() > 0 {
        assert(rest == second.push(',') + tail.drop_first());
        law_split_is_at_the_first(second, ',', tail.drop_first(), ',', ',');
    } else {
        assert(rest == second);
        law_split_is_at_the_first(second, ',', tail, ',', ',');
    }
}

} // verus!
