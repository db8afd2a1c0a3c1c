//! Writing a list and reading its text back gives the list again.

use crate::collection::{format_all, is_filled, lines_of, records_of, skipped_of, split_lines};
use crate::collection::{lemma_split_first, lemma_split_single, SkippedView};
use crate::decimal::{decimal_digits, lemma_decimal_round_trip};
use crate::record::{format_line, is_canonical, lemma_round_trip, parse_line};
use crate::record::{ParseError, TodoView};
use vstd::prelude::*;

verus! {

/// Whether every task of `ts` is one that reading a line can give.
pub open spec fn all_canonical(ts: Seq<TodoView>) -> bool {
    forall|i: int| 0 <= i < ts.len() ==> is_canonical(#[trigger] ts[i])
}

/// The lines of the tasks of `ts`, in their order.
spec fn lines_written(ts: Seq<TodoView>) -> Seq<Seq<char>> {
    ts.map_values(|t: TodoView| format_line(t))
}

/// The line of a task is not empty, holds no line feed, and denotes the task.
proof fn lemma_line_shape(t: TodoView)
    requires
        is_canonical(t),
    ensures
        format_line(t).len() > 0,
        !format_line(t).contains('\n'),
        parse_line(format_line(t)) == Ok::<TodoView, ParseError>(t),
{
    let numeral = decimal_digits(t.id);
    let line = format_line(t);
    let k = numeral.len() as int;
    lemma_decimal_round_trip(t.id);
    assert forall|j: int| 0 <= j < line.len() implies line[j] != '\n' by {
        if j < k {
            assert(line[j] == numeral[j]);
        } else if j >= k + 2 {
            assert(line[j] == t.task[j - k - 2]);
        }
    }
    lemma_round_trip(t);
}

/// The text of a list is the line of its first task, a line feed, and the
/// text of the other tasks.
proof fn lemma_format_all_unfolds(ts: Seq<TodoView>)
    requires
        ts.len() > 0,
    ensures
        format_all(ts) == format_line(ts[0]) + seq!['\n'] + format_all(ts.drop_first()),
{
    let closed = |t: TodoView| format_line(t).push('\n');
    assert(ts.map_values(closed).drop_first() =~= ts.drop_first().map_values(closed));
    assert(format_line(ts[0]).push('\n') + format_all(ts.drop_first()) =~= format_line(ts[0])
        + seq!['\n'] + format_all(ts.drop_first()));
}

/// The lines of the text of a list are the lines of its tasks: the empty
/// piece behind the last line feed is none of them.
proof fn lemma_text_splits(ts: Seq<TodoView>)
    requires
        all_canonical(ts),
    ensures
        lines_of(format_all(ts)) == lines_written(ts),
    decreases ts.len(),
{
    let text = format_all(ts);
    let nothing = Seq::<Seq<char>>::empty();
    if ts.len() == 0 {
        assert(text =~= Seq::<char>::empty());
        lemma_split_single(text);
        nothing.lemma_filter_push(text, is_filled());
        nothing.lemma_filter_len(is_filled());
        assert(nothing.push(text) =~= seq![text]);
        assert(lines_of(text) =~= lines_written(ts));
    } else {
        let line = format_line(ts[0]);
        let rest = ts.drop_first();
        assert forall|i: int| 0 <= i < rest.len() implies is_canonical(#[trigger] rest[i]) by {
            assert(rest[i] == ts[i + 1]);
        }
        lemma_line_shape(ts[0]);
        lemma_format_all_unfolds(ts);
        lemma_split_first(line, format_all(rest));
        lemma_text_splits(rest);
        nothing.lemma_filter_push(line, is_filled());
        nothing.lemma_filter_len(is_filled());
        assert(nothing.push(line) =~= seq![line]);
        Seq::filter_distributes_over_add(seq![line], split_lines(format_all(rest)), is_filled());
        assert(seq![line] + lines_written(rest) =~= lines_written(ts));
    }
}

/// Each line of a task denotes that task, so reading the lines gives the
/// list and skips nothing.
proof fn lemma_lines_written(ts: Seq<TodoView>)
    requires
        all_canonical(ts),
    ensures
        records_of(lines_written(ts)) == ts,
        skipped_of(lines_written(ts)) == Seq::<SkippedView>::empty(),
    decreases ts.len(),
{
    let lines = lines_written(ts);
    if ts.len() == 0 {
        assert(records_of(lines) =~= ts);
        assert(skipped_of(lines) =~= Seq::<SkippedView>::empty());
    } else {
        let front = ts.drop_last();
        assert forall|i: int| 0 <= i < front.len() implies is_canonical(#[trigger] front[i]) by {
            assert(front[i] == ts[i]);
        }
        lemma_lines_written(front);
        lemma_line_shape(ts.last());
        assert(lines.drop_last() =~= lines_written(front));
        assert(lines.last() == format_line(ts.last()));
        assert(front.push(ts.last()) =~= ts);
        assert(records_of(lines) =~= ts);
        assert(skipped_of(lines) =~= Seq::<SkippedView>::empty());
    }
}

/// Writing a list and reading the text back gives the same tasks in the same
/// order, and skips no line, as long as every task of the list is one that
/// reading can give.
pub proof fn lemma_collection_round_trip(ts: Seq<TodoView>)
    requires
        all_canonical(ts),
    ensures
        records_of(lines_of(format_all(ts))) == ts,
        skipped_of(lines_of(format_all(ts))) == Seq::<SkippedView>::empty(),
{
    lemma_text_splits(ts);
    lemma_lines_written(ts);
}

} // verus!
