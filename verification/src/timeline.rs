//! Lines in the order of their time: sorting them, and finding the one that is
//! being sung.

use vstd::prelude::*;

use crate::model;
use crate::model::{Line, LineView};

verus! {

/// Whether no line starts before the one ahead of it.
pub open spec fn ordered(s: Seq<LineView>) -> bool {
    forall|i: int, j: int| 0 <= i <= j < s.len() ==> s[i].time <= s[j].time
}

/// A row of lines with one more put in behind every line that does not start
/// later.
pub open spec fn inserted(s: Seq<LineView>, x: LineView) -> Seq<LineView>
    decreases s.len(),
{
    if s.len() == 0 || s.last().time <= x.time {
        s.push(x)
    } else {
        inserted(s.drop_last(), x).push(s.last())
    }
}

/// Lines sorted by their time. Lines that start together keep their order.
pub open spec fn sorted(s: Seq<LineView>) -> Seq<LineView>
    decreases s.len(),
{
    if s.len() == 0 {
        s
    } else {
        inserted(sorted(s.drop_last()), s.last())
    }
}

/// A line is put in at the one place where all that follow start later and the
/// one ahead does not; the others stay where they are.
pub proof fn law_line_is_put_behind_earlier_ones(s: Seq<LineView>, x: LineView, k: int)
    requires
        0 <= k <= s.len(),
        k > 0 ==> s[k - 1].time <= x.time,
        forall|j: int| k <= j < s.len() ==> s[j].time > x.time,
    ensures
        inserted(s, x) == s.insert(k, x),
    decreases s.len(),
{
    if s.len() == 0 || s.last().time <= x.time {
        assert(k == s.len());
        assert(s.insert(k, x) == s.push(x));
    } else {
        assert(k < s.len());
        law_line_is_put_behind_earlier_ones(s.drop_last(), x, k);
        assert(s.drop_last().insert(k, x).push(s.last()) == s.insert(k, x));
    }
}

/// A line put into an ordered row leaves it ordered.
proof fn lemma_inserted_is_ordered(s: Seq<LineView>, x: LineView)
    requires
        ordered(s),
    ensures
        ordered(inserted(s, x)),
        inserted(s, x).len() == s.len() + 1,
        forall|i: int|
            0 <= i < inserted(s, x).len() ==> (#[trigger] inserted(s, x)[i]).time <= x.time || (
            s.len() > 0 && inserted(s, x)[i].time <= s.last().time),
    decreases s.len(),
{
    if !(s.len() == 0 || s.last().time <= x.time) {
        let t = s.drop_last();
        lemma_inserted_is_ordered(t, x);
        assert forall|i: int| 0 <= i < inserted(t, x).len() implies (#[trigger] inserted(
            t,
            x,
        )[i]).time <= s.last().time by {
            if t.len() > 0 {
                assert(s[t.len() - 1].time <= s[s.len() - 1].time);
            }
        }
    }
}

/// Sorted lines are in the order of their time.
pub proof fn law_sorted_is_ordered(s: Seq<LineView>)
    ensures
        ordered(sorted(s)),
        sorted(s).len() == s.len(),
    decreases s.len(),
{
    if s.len() > 0 {
        law_sorted_is_ordered(s.drop_last());
        lemma_inserted_is_ordered(sorted(s.drop_last()), s.last());
    }
}

/// Lines that are in order stay as they are when they are sorted.
pub proof fn law_ordered_lines_stay(s: Seq<LineView>)
    requires
        ordered(s),
    ensures
        sorted(s) == s,
    decreases s.len(),
{
    if s.len() > 0 {
        let before = s.drop_last();
        law_ordered_lines_stay(before);
        if before.len() > 0 {
            assert(s[before.len() - 1].time <= s[s.len() - 1].time);
        }
        assert(before.push(s.last()) == s);
    }
}

/// Puts a line in behind every line that does not start later.
pub fn insert_line(out: &mut Vec<Line>, line: Line)
    ensures
        model::lines_view(final(out)@) == inserted(model::lines_view(old(out)@), line@),
{
    let mut k: usize = out.len();
    while k > 0 && out[k - 1].time > line.time
        invariant
            k <= out@.len(),
            out@ == old(out)@,
            forall|j: int| k <= j < out@.len() ==> out@[j].time > line.time,
        decreases k,
    {
        k = k - 1;
    }
    let ghost before = model::lines_view(out@);
    let ghost added = line@;
    out.insert(k, line);
    proof {
        law_line_is_put_behind_earlier_ones(before, added, k as int);
        assert(model::lines_view(out@) == before.insert(k as int, added));
    }
}

/// The last of the lines that have begun at a position.
pub open spec fn active_line(lines: Seq<LineView>, position_ms: u64) -> Option<usize>
    decreases lines.len(),
{
    if lines.len() == 0 {
        None
    } else if lines.last().time <= position_ms {
        Some((lines.len() - 1) as usize)
    } else {
        active_line(lines.drop_last(), position_ms)
    }
}

/// In an ordered row, a line that has begun and is followed by none that has
/// begun is the last that has.
proof fn lemma_active_line(lines: Seq<LineView>, position_ms: u64, n: int)
    requires
        ordered(lines),
        0 <= n <= lines.len(),
        n > 0 ==> lines[n - 1].time <= position_ms,
        n < lines.len() ==> lines[n].time > position_ms,
    ensures
        active_line(lines, position_ms) == if n > 0 {
            Some((n - 1) as usize)
        } else {
            None
        },
    decreases lines.len(),
{
    if n < lines.len() {
        assert(lines[n].time <= lines[lines.len() - 1].time);
        lemma_active_line(lines.drop_last(), position_ms, n);
    }
}

/// Binary search for the line covering `position_ms`.
pub fn line_at(lines: &[Line], position_ms: u64) -> (r: Option<usize>)
    ensures
        r is None <==> lines@.len() == 0 || position_ms < lines@[0].time,
        r matches Some(i) ==> i < lines@.len() && lines@[i as int].time <= position_ms && (i + 1
            < lines@.len() ==> lines@[i + 1].time > position_ms),
        ordered(model::lines_view(lines@)) ==> r == active_line(
            model::lines_view(lines@),
            position_ms,
        ),
{
    let ghost views = model::lines_view(lines@);
    if lines.len() == 0 || position_ms < lines[0].time {
        proof {
            if ordered(views) {
                lemma_active_line(views, position_ms, 0);
            }
        }
        return None;
    }
    let mut low: usize = 1;
    let mut high: usize = lines.len();
    while low < high
        invariant
            1 <= low <= high <= lines@.len(),
            lines@[low - 1].time <= position_ms,
            high < lines@.len() ==> lines@[high as int].time > position_ms,
        decreases high - low,
    {
        let middle: usize = low + (high - low) / 2;
        if lines[middle].time <= position_ms {
            low = middle + 1;
        } else {
            high = middle;
        }
    }
    proof {
        if ordered(views) {
            assert(views[low - 1].time <= position_ms);
            lemma_active_line(views, position_ms, low as int);
        }
    }
    Some(low - 1)
}

/// A line put into a row is one more line of it.
proof fn lemma_inserted_adds(s: Seq<LineView>, x: LineView)
    ensures
        inserted(s, x).to_multiset() == s.to_multiset().insert(x),
    decreases s.len(),
{
    broadcast use vstd::seq_lib::group_to_multiset_ensures;

    if !(s.len() == 0 || s.last().time <= x.time) {
        lemma_inserted_adds(s.drop_last(), x);
        assert(s.drop_last().push(s.last()) == s);
        assert(s.drop_last().to_multiset().insert(x).insert(s.last())
            == s.drop_last().to_multiset().insert(s.last()).insert(x));
    }
}

/// Sorting neither loses nor adds lines.
pub proof fn law_sorted_keeps_lines(s: Seq<LineView>)
    ensures
        sorted(s).to_multiset() == s.to_multiset(),
    decreases s.len(),
{
    broadcast use vstd::seq_lib::group_to_multiset_ensures;

    if s.len() > 0 {
        law_sorted_keeps_lines(s.drop_last());
        lemma_inserted_adds(sorted(s.drop_last()), s.last());
        assert(s.drop_last().push(s.last()) == s);
    }
}

/// Each sorted line is one of those that were sorted.
pub proof fn lemma_sorted_from(s: Seq<LineView>, i: int)
    requires
        0 <= i < sorted(s).len(),
    ensures
        exists|j: int| 0 <= j < s.len() && s[j] == sorted(s)[i],
{
    broadcast use vstd::seq_lib::group_to_multiset_ensures;

    law_sorted_keeps_lines(s);
    assert(sorted(s).contains(sorted(s)[i]));
    assert(sorted(s).to_multiset().contains(sorted(s)[i]));
    assert(s.contains(sorted(s)[i]));
}

/// Each line that was sorted is one of the sorted lines.
pub proof fn lemma_sorted_has(s: Seq<LineView>, j: int)
    requires
        0 <= j < s.len(),
    ensures
        exists|i: int| 0 <= i < sorted(s).len() && sorted(s)[i] == s[j],
{
    broadcast use vstd::seq_lib::group_to_multiset_ensures;

    law_sorted_keeps_lines(s);
    assert(s.contains(s[j]));
    assert(s.to_multiset().contains(s[j]));
    assert(sorted(s).contains(s[j]));
}

/// The lines of a row that start at `time`, in their order.
pub open spec fn starting_at(s: Seq<LineView>, time: u64) -> Seq<LineView>
    decreases s.len(),
{
    if s.len() == 0 {
        seq![]
    } else if s.last().time == time {
        starting_at(s.drop_last(), time).push(s.last())
    } else {
        starting_at(s.drop_last(), time)
    }
}

/// The lines of two rows that start at a time are those of the rows put
/// together.
pub proof fn lemma_starting_at_adds_up(a: Seq<LineView>, b: Seq<LineView>, time: u64)
    ensures
        starting_at(a + b, time) == starting_at(a, time) + starting_at(b, time),
    decreases b.len(),
{
    if b.len() > 0 {
        lemma_starting_at_adds_up(a, b.drop_last(), time);
        assert((a + b).drop_last() == a + b.drop_last());
    } else {
        assert(a + b == a);
    }
}

/// A line put into an ordered row stands behind all that start with it.
proof fn lemma_inserted_is_last(s: Seq<LineView>, x: LineView, time: u64)
    requires
        ordered(s),
    ensures
        starting_at(inserted(s, x), time) == if x.time == time {
            starting_at(s, time).push(x)
        } else {
            starting_at(s, time)
        },
    decreases s.len(),
{
    if s.len() == 0 || s.last().time <= x.time {
        assert(s.push(x).drop_last() == s);
    } else {
        let t = s.drop_last();
        lemma_inserted_is_last(t, x, time);
        assert(inserted(s, x).drop_last() == inserted(t, x));
    }
}

/// Lines that start together keep their order when they are sorted.
pub proof fn law_sorted_is_stable(s: Seq<LineView>, time: u64)
    ensures
        starting_at(sorted(s), time) == starting_at(s, time),
    decreases s.len(),
{
    if s.len() > 0 {
        law_sorted_is_stable(s.drop_last(), time);
        law_sorted_is_ordered(s.drop_last());
        lemma_inserted_is_last(sorted(s.drop_last()), s.last(), time);
    }
}

/// Two ordered rows with the same lines at every time are the same row.
pub proof fn lemma_ordered_rows_are_equal(a: Seq<LineView>, b: Seq<LineView>)
    requires
        ordered(a),
        ordered(b),
        forall|time: u64| #[trigger] starting_at(a, time) == starting_at(b, time),
    ensures
        a == b,
    decreases a.len(),
{
    if a.len() > 0 || b.len() > 0 {
        if a.len() == 0 {
            assert(starting_at(a, b.last().time) == starting_at(b, b.last().time));
        } else if b.len() == 0 {
            assert(starting_at(a, a.last().time) == starting_at(b, a.last().time));
        } else {
            let x = a.last();
            let y = b.last();
            assert(starting_at(a, x.time) == starting_at(b, x.time));
            assert(starting_at(a, y.time) == starting_at(b, y.time));
            lemma_starts_within(a, y.time);
            lemma_starts_within(b, x.time);
            assert(starting_at(a, x.time).last() == x);
            assert(starting_at(b, y.time).last() == y);
            assert(x == y);
            assert forall|time: u64| #[trigger] starting_at(a.drop_last(), time) == starting_at(
                b.drop_last(),
                time,
            ) by {
                assert(starting_at(a, time) == starting_at(b, time));
                if x.time == time {
                    assert(starting_at(a, time).drop_last() == starting_at(a.drop_last(), time));
                    assert(starting_at(b, time).drop_last() == starting_at(b.drop_last(), time));
                }
            }
            lemma_ordered_rows_are_equal(a.drop_last(), b.drop_last());
            assert(a.drop_last().push(x) == a);
            assert(b.drop_last().push(y) == b);
        }
    }
}

/// No line of an ordered row starts after the last one.
proof fn lemma_starts_within(s: Seq<LineView>, time: u64)
    requires
        ordered(s),
    ensures
        starting_at(s, time).len() > 0 ==> s.len() > 0 && time <= s.last().time,
    decreases s.len(),
{
    if s.len() > 0 {
        lemma_starts_within(s.drop_last(), time);
        if s.len() > 1 {
            assert(s[s.len() - 2].time <= s[s.len() - 1].time);
        }
    }
}

/// Sorted lines are the one ordered row that has, at every time, the same lines
/// in the same order.
pub proof fn law_sorted_is_the_only_such_row(s: Seq<LineView>, t: Seq<LineView>)
    ensures
        t == sorted(s) <==> ordered(t) && forall|time: u64| #[trigger]
            starting_at(t, time) == starting_at(s, time),
{
    law_sorted_is_ordered(s);
    assert forall|time: u64| #[trigger] starting_at(sorted(s), time) == starting_at(s, time) by {
        law_sorted_is_stable(s, time);
    }
    if ordered(t) && forall|time: u64| #[trigger] starting_at(t, time) == starting_at(s, time) {
        assert forall|time: u64| #[trigger] starting_at(t, time) == starting_at(sorted(s), time) by {
            assert(starting_at(t, time) == starting_at(s, time));
            assert(starting_at(sorted(s), time) == starting_at(s, time));
        }
        lemma_ordered_rows_are_equal(t, sorted(s));
    }
}

/// In an ordered row, the active line is the one that has begun and whose
/// successor has not. There is none exactly before the first line.
pub proof fn law_active_line(lines: Seq<LineView>, position_ms: u64)
    requires
        ordered(lines),
        lines.len() <= usize::MAX,
    ensures
        active_line(lines, position_ms) is None <==> lines.len() == 0 || position_ms
            < lines[0].time,
        forall|i: usize| #[trigger]
            active_line(lines, position_ms) == Some(i) <==> {
                &&& i < lines.len()
                &&& lines[i as int].time <= position_ms
                &&& i + 1 < lines.len() ==> position_ms < lines[i + 1].time
            },
    decreases lines.len(),
{
    let n = count_begun(lines, position_ms);
    lemma_count_begun(lines, position_ms);
    lemma_active_line(lines, position_ms, n as int);
    assert forall|i: usize| #[trigger] active_line(lines, position_ms) == Some(i) <==> {
        &&& i < lines.len()
        &&& lines[i as int].time <= position_ms
        &&& i + 1 < lines.len() ==> position_ms < lines[i + 1].time
    } by {
        if i < lines.len() && lines[i as int].time <= position_ms && (i + 1 < lines.len()
            ==> position_ms < lines[i + 1].time) {
            lemma_active_line(lines, position_ms, i + 1);
        }
    }
}

/// How many lines, from the front, have begun at a position.
spec fn count_begun(lines: Seq<LineView>, position_ms: u64) -> nat
    decreases lines.len(),
{
    if lines.len() == 0 {
        0
    } else if lines.last().time <= position_ms {
        lines.len()
    } else {
        count_begun(lines.drop_last(), position_ms)
    }
}

proof fn lemma_count_begun(lines: Seq<LineView>, position_ms: u64)
    requires
        ordered(lines),
    ensures
        count_begun(lines, position_ms) <= lines.len(),
        ({
            let n = count_begun(lines, position_ms) as int;
            &&& n > 0 ==> lines[n - 1].time <= position_ms
            &&& n < lines.len() ==> lines[n].time > position_ms
        }),
    decreases lines.len(),
{
    if lines.len() > 0 && lines.last().time > position_ms {
        lemma_count_begun(lines.drop_last(), position_ms);
    }
}

/// As the position moves on, the active line never moves back.
pub proof fn law_active_line_moves_on(lines: Seq<LineView>, earlier: u64, later: u64)
    requires
        ordered(lines),
        lines.len() <= usize::MAX,
        earlier <= later,
    ensures
        active_line(lines, earlier) matches Some(i) ==> (active_line(lines, later) matches Some(j)
            && i <= j),
    decreases lines.len(),
{
    law_active_line(lines, earlier);
    law_active_line(lines, later);
    if let Some(i) = active_line(lines, earlier) {
        assert(active_line(lines, earlier) == Some(i));
        assert(lines[0].time <= lines[i as int].time);
        let j = active_line(lines, later)->0;
        assert(active_line(lines, later) == Some(j));
        if j < i {
            assert(lines[j + 1].time <= lines[i as int].time);
        }
    }
}

} // verus!
