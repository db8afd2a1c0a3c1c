//! The list: its records in order, its text of one line per record, and the
//! two changes it knows, adding a task and deleting by id.

use crate::record::{format_line, parse_chars, parse_line};
use crate::record::{ParseError, Todo, TodoView};
use crate::text::{chars_of, find_char, lemma_first_index, string_of};
use vstd::prelude::*;
use vstd::slice::slice_subrange;

verus! {

/// The tasks of a list, in the order of their lines.
#[derive(Debug, PartialEq, Eq)]
pub struct Tasks(pub Vec<Todo>);

/// The tasks of `v` as the contracts see them.
pub open spec fn task_views(v: Seq<Todo>) -> Seq<TodoView> {
    v.map_values(|t: Todo| t@)
}

impl View for Tasks {
    type V = Seq<TodoView>;

    open spec fn view(&self) -> Seq<TodoView> {
        task_views(self.0@)
    }
}

/// A line that was left out of the list, and why.
#[derive(Debug, PartialEq, Eq)]
pub struct Skipped {
    /// The line as it stood in the text.
    pub text: String,
    /// Why it is no record.
    pub error: ParseError,
}

/// A skipped line as the contracts see it.
pub struct SkippedView {
    pub text: Seq<char>,
    pub error: ParseError,
}

impl View for Skipped {
    type V = SkippedView;

    open spec fn view(&self) -> SkippedView {
        SkippedView { text: self.text@, error: self.error }
    }
}

/// The pieces of `s` between its line feeds. There is one piece more than
/// there are line feeds, so a sequence without any is its own single piece.
pub open spec fn split_lines(s: Seq<char>) -> Seq<Seq<char>>
    decreases s.len(),
{
    match s.index_of_first('\n') {
        None => seq![s],
        Some(k) => {
            proof {
                s.index_of_first_ensures('\n');
            }
            seq![s.take(k)] + split_lines(s.skip(k + 1))
        },
    }
}

/// The test that a line holds at least one character.
pub open spec fn is_filled() -> spec_fn(Seq<char>) -> bool {
    |line: Seq<char>| line.len() > 0
}

/// The lines of a text: the pieces between its line feeds, in their order,
/// without the empty ones. Nothing is trimmed.
pub open spec fn lines_of(text: Seq<char>) -> Seq<Seq<char>> {
    split_lines(text).filter(is_filled())
}

/// The record of a line, if the line denotes one.
pub open spec fn record_of(line: Seq<char>) -> Option<TodoView> {
    match parse_line(line) {
        Ok(t) => Some(t),
        Err(_) => None,
    }
}

/// The line with what is wrong with it, if the line denotes no record.
pub open spec fn fault_of(line: Seq<char>) -> Option<SkippedView> {
    match parse_line(line) {
        Ok(_) => None,
        Err(error) => Some(SkippedView { text: line, error }),
    }
}

/// The records of those lines that denote one, in the order of the lines.
pub open spec fn records_of(lines: Seq<Seq<char>>) -> Seq<TodoView> {
    lines.filter_map(|line: Seq<char>| record_of(line))
}

/// The lines that denote no record, each with its error, in their order.
pub open spec fn skipped_of(lines: Seq<Seq<char>>) -> Seq<SkippedView> {
    lines.filter_map(|line: Seq<char>| fault_of(line))
}

/// The text of a list: the line of each record, each followed by a line feed.
pub open spec fn format_all(ts: Seq<TodoView>) -> Seq<char> {
    ts.map_values(|t: TodoView| format_line(t).push('\n')).flatten()
}

/// The greatest id among `ts`, and 0 where there are none.
pub open spec fn max_id(ts: Seq<TodoView>) -> nat
    decreases ts.len(),
{
    if ts.len() == 0 {
        0
    } else if ts.last().id > max_id(ts.drop_last()) {
        ts.last().id
    } else {
        max_id(ts.drop_last())
    }
}

/// `ts` with one more task at its end, under the id after the greatest.
pub open spec fn with_task(ts: Seq<TodoView>, task: Seq<char>) -> Seq<TodoView> {
    ts.push(TodoView { task, id: max_id(ts) + 1 })
}

/// Whether one of `ts` has the id `id`.
pub open spec fn has_id(ts: Seq<TodoView>, id: nat) -> bool {
    exists|i: int| 0 <= i < ts.len() && (#[trigger] ts[i]).id == id
}

/// The test that a task has another id than `id`.
pub open spec fn other_than(id: nat) -> spec_fn(TodoView) -> bool {
    |t: TodoView| t.id != id
}

/// `ts` without the tasks whose id is `id`, the others in their order.
pub open spec fn without_id(ts: Seq<TodoView>, id: nat) -> Seq<TodoView> {
    ts.filter(other_than(id))
}

/// Whether no two of `ts` have the same id.
pub open spec fn distinct_ids(ts: Seq<TodoView>) -> bool {
    forall|i: int, j: int| 0 <= i < j < ts.len() ==> (#[trigger] ts[i]).id != (#[trigger] ts[j]).id
}

/// No id of `ts` is above `max_id(ts)`, and one of them reaches it unless
/// there is none.
pub proof fn lemma_max_id(ts: Seq<TodoView>)
    ensures
        forall|i: int| 0 <= i < ts.len() ==> (#[trigger] ts[i]).id <= max_id(ts),
        ts.len() > 0 ==> has_id(ts, max_id(ts)),
    decreases ts.len(),
{
    if ts.len() > 0 {
        let front = ts.drop_last();
        lemma_max_id(front);
        assert forall|i: int| 0 <= i < ts.len() implies (#[trigger] ts[i]).id <= max_id(ts) by {
            if i < front.len() {
                assert(front[i] == ts[i]);
            }
        }
        if ts.last().id > max_id(front) {
            assert(ts[ts.len() - 1].id == max_id(ts));
        } else if front.len() > 0 {
            let i = choose|i: int| 0 <= i < front.len() && (#[trigger] front[i]).id == max_id(front);
            assert(ts[i].id == max_id(ts));
        }
    }
}

/// A task added under the id after the greatest has an id above all others,
/// so ids that were distinct stay so.
pub proof fn lemma_with_task_keeps_distinct(ts: Seq<TodoView>, task: Seq<char>)
    requires
        distinct_ids(ts),
    ensures
        distinct_ids(with_task(ts, task)),
{
    lemma_max_id(ts);
    let after = with_task(ts, task);
    assert forall|i: int, j: int| 0 <= i < j < after.len() implies (#[trigger] after[i]).id != (
    #[trigger] after[j]).id by {
        assert(after[i] == ts[i]);
        if j < ts.len() {
            assert(after[j] == ts[j]);
        }
    }
}

/// Every task that deleting by id leaves has another id and is one of `ts`.
proof fn lemma_without_id_members(ts: Seq<TodoView>, id: nat)
    ensures
        forall|j: int|
            0 <= j < without_id(ts, id).len() ==> (#[trigger] without_id(ts, id)[j]).id != id
                && ts.contains(without_id(ts, id)[j]),
{
    let left = without_id(ts, id);
    assert forall|j: int| 0 <= j < left.len() implies (#[trigger] left[j]).id != id && ts.contains(
        left[j],
    ) by {
        ts.lemma_filter_pred(other_than(id), j);
        assert(left.contains(left[j]));
        ts.lemma_filter_contains_rev(other_than(id), left[j]);
    }
}

/// What deleting by id leaves holds no task of that id, is all of `ts` where
/// `ts` holds none either, and has distinct ids where `ts` has.
pub proof fn lemma_without_id(ts: Seq<TodoView>, id: nat)
    ensures
        !has_id(without_id(ts, id), id),
        !has_id(ts, id) ==> without_id(ts, id) == ts,
        distinct_ids(ts) ==> distinct_ids(without_id(ts, id)),
    decreases ts.len(),
{
    lemma_without_id_members(ts, id);
    if ts.len() == 0 {
        ts.lemma_filter_len(other_than(id));
        assert(without_id(ts, id) =~= ts);
    } else {
        let front = ts.drop_last();
        let last = ts.last();
        let kept = without_id(front, id);
        let left = without_id(ts, id);
        lemma_without_id(front, id);
        lemma_without_id_members(front, id);
        assert(front.push(last) =~= ts);
        front.lemma_filter_push(last, other_than(id));
        if !has_id(ts, id) {
            assert(ts[ts.len() - 1].id != id);
            if has_id(front, id) {
                let i = choose|i: int| 0 <= i < front.len() && (#[trigger] front[i]).id == id;
                assert(ts[i].id == id);
            }
        }
        if distinct_ids(ts) {
            assert forall|i: int, j: int| 0 <= i < j < front.len() implies (#[trigger] front[i]).id
                != (#[trigger] front[j]).id by {
                assert(front[i] == ts[i] && front[j] == ts[j]);
            }
            assert forall|i: int, j: int| 0 <= i < j < left.len() implies (#[trigger] left[i]).id
                != (#[trigger] left[j]).id by {
                assert(left[i] == kept[i]);
                if j < kept.len() {
                    assert(left[j] == kept[j]);
                } else {
                    assert(front.contains(kept[i]));
                    let k = choose|k: int| 0 <= k < front.len() && front[k] == kept[i];
                    assert(ts[k] == kept[i] && ts[ts.len() - 1] == left[j]);
                }
            }
        }
    }
}

/// A sequence without line feed is its own single line.
pub proof fn lemma_split_single(s: Seq<char>)
    requires
        !s.contains('\n'),
    ensures
        split_lines(s) == seq![s],
{
    s.index_of_first_ensures('\n');
}

/// A first line, closed by a line feed, comes before the lines of what
/// follows it.
pub proof fn lemma_split_first(line: Seq<char>, rest: Seq<char>)
    requires
        !line.contains('\n'),
    ensures
        split_lines(line + seq!['\n'] + rest) == seq![line] + split_lines(rest),
{
    let whole = line + seq!['\n'] + rest;
    let k = line.len() as int;
    assert forall|j: int| 0 <= j < k implies whole[j] != '\n' by {
        assert(whole[j] == line[j]);
    }
    lemma_first_index(whole, '\n', k);
    assert(whole.take(k) =~= line);
    assert(whole.skip(k + 1) =~= rest);
}

/// Reading goes line by line: what a run of lines gives is what its first
/// part gives, followed by what its second part gives.
pub proof fn lemma_lines_concat(a: Seq<Seq<char>>, b: Seq<Seq<char>>)
    ensures
        records_of(a + b) == records_of(a) + records_of(b),
        skipped_of(a + b) == skipped_of(a) + skipped_of(b),
    decreases b.len(),
{
    if b.len() == 0 {
        assert(a + b =~= a);
        assert(records_of(a) + records_of(b) =~= records_of(a));
        assert(skipped_of(a) + skipped_of(b) =~= skipped_of(a));
    } else {
        lemma_lines_concat(a, b.drop_last());
        assert((a + b).drop_last() =~= a + b.drop_last());
        assert((a + b).last() == b.last());
        assert(records_of(a + b) =~= records_of(a) + records_of(b));
        assert(skipped_of(a + b) =~= skipped_of(a) + skipped_of(b));
    }
}

/// What a single line gives: its record and nothing skipped, or no record
/// and the line with its error.
pub proof fn lemma_single_line(line: Seq<char>)
    ensures
        parse_line(line) matches Ok(t) ==> records_of(seq![line]) == seq![t] && skipped_of(
            seq![line],
        ) == Seq::<SkippedView>::empty(),
        parse_line(line) matches Err(error) ==> records_of(seq![line]) == Seq::<TodoView>::empty()
            && skipped_of(seq![line]) == seq![SkippedView { text: line, error }],
{
    let one = seq![line];
    assert(one.drop_last() =~= Seq::<Seq<char>>::empty());
    assert(one.last() == line);
    assert(records_of(one.drop_last()) =~= Seq::<TodoView>::empty());
    assert(skipped_of(one.drop_last()) =~= Seq::<SkippedView>::empty());
    match parse_line(line) {
        Ok(t) => {
            assert(records_of(one) =~= seq![t]);
            assert(skipped_of(one) =~= Seq::<SkippedView>::empty());
        },
        Err(error) => {
            assert(records_of(one) =~= Seq::<TodoView>::empty());
            assert(skipped_of(one) =~= seq![SkippedView { text: line, error }]);
        },
    }
}

/// An empty piece denotes no record, so the records of a text are those of
/// all its pieces between line feeds, the empty ones included.
pub proof fn lemma_records_of_all_pieces(pieces: Seq<Seq<char>>)
    ensures
        records_of(pieces.filter(is_filled())) == records_of(pieces),
    decreases pieces.len(),
{
    if pieces.len() == 0 {
        pieces.lemma_filter_len(is_filled());
        assert(pieces.filter(is_filled()) =~= pieces);
    } else {
        let front = pieces.drop_last();
        let last = pieces.last();
        lemma_records_of_all_pieces(front);
        assert(front.push(last) =~= pieces);
        front.lemma_filter_push(last, is_filled());
        if last.len() > 0 {
            let lines = front.filter(is_filled()).push(last);
            assert(lines.drop_last() =~= front.filter(is_filled()));
        } else {
            last.index_of_first_ensures(':');
            assert(parse_line(last) is Err);
        }
    }
}

/// A line that denotes no record leaves the records of the lines around it
/// as they are without it, and stands among the skipped lines, in its place.
pub proof fn lemma_malformed_line_is_skipped(
    before: Seq<Seq<char>>,
    line: Seq<char>,
    after: Seq<Seq<char>>,
)
    requires
        parse_line(line) is Err,
    ensures
        records_of(before + seq![line] + after) == records_of(before + after),
        skipped_of(before + seq![line] + after) == skipped_of(before) + seq![
            SkippedView { text: line, error: parse_line(line)->Err_0 },
        ] + skipped_of(after),
{
    lemma_single_line(line);
    lemma_lines_concat(before, seq![line]);
    lemma_lines_concat(before + seq![line], after);
    lemma_lines_concat(before, after);
    assert(records_of(before) + Seq::<TodoView>::empty() =~= records_of(before));
}

/// The skipped lines of `v` as the contracts see them.
pub open spec fn skipped_views(v: Seq<Skipped>) -> Seq<SkippedView> {
    v.map_values(|s: Skipped| s@)
}

/// Reads one piece of the text. An empty piece is passed over; of any other
/// the record goes to the end of `tasks`, or the piece with its error to the
/// end of `skipped`.
fn take_piece(
    piece: &[char],
    tasks: &mut Vec<Todo>,
    skipped: &mut Vec<Skipped>,
    pieces: Ghost<Seq<Seq<char>>>,
)
    requires
        task_views(old(tasks)@) == records_of(pieces@.filter(is_filled())),
        skipped_views(old(skipped)@) == skipped_of(pieces@.filter(is_filled())),
    ensures
        task_views(final(tasks)@) == records_of(pieces@.push(piece@).filter(is_filled())),
        skipped_views(final(skipped)@) == skipped_of(pieces@.push(piece@).filter(is_filled())),
{
    let ghost lines = pieces@.filter(is_filled());
    proof {
        pieces@.lemma_filter_push(piece@, is_filled());
    }
    if piece.len() > 0 {
        let ghost all = lines.push(piece@);
        assert(all.drop_last() =~= lines);
        match parse_chars(piece) {
            Ok(t) => {
                tasks.push(t);
                assert(task_views(tasks@) == records_of(all));
            },
            Err(error) => {
                skipped.push(Skipped { text: string_of(piece), error });
                assert(skipped_views(skipped@) == skipped_of(all));
            },
        }
    }
}

impl Tasks {
    /// A list without tasks.
    pub fn new() -> (tasks: Tasks)
        ensures
            tasks@ == Seq::<TodoView>::empty(),
    {
        let tasks = Tasks(Vec::new());
        assert(tasks@ == Seq::<TodoView>::empty());
        tasks
    }

    /// Reads a text as a list. The text is cut at its line feeds and the
    /// empty pieces are passed over. Every other piece is a line: one that
    /// denotes a record gives one task, in the order of the lines; any other
    /// is handed back with its error.
    pub fn parse(text: &str) -> (r: (Tasks, Vec<Skipped>))
        ensures
            r.0@ == records_of(lines_of(text@)),
            skipped_views(r.1@) == skipped_of(lines_of(text@)),
    {
        let chars = chars_of(text);
        let mut tasks: Vec<Todo> = Vec::new();
        let mut skipped: Vec<Skipped> = Vec::new();
        let mut rest = chars.as_slice();
        let ghost mut pieces: Seq<Seq<char>> = Seq::empty();
        proof {
            pieces.lemma_filter_len(is_filled());
            assert(pieces.filter(is_filled()) =~= Seq::<Seq<char>>::empty());
            assert(task_views(tasks@) =~= records_of(Seq::empty()));
            assert(skipped_views(skipped@) =~= skipped_of(Seq::empty()));
            assert(pieces + split_lines(rest@) =~= split_lines(text@));
        }
        loop
            invariant_except_break
                pieces + split_lines(rest@) == split_lines(text@),
                task_views(tasks@) == records_of(pieces.filter(is_filled())),
                skipped_views(skipped@) == skipped_of(pieces.filter(is_filled())),
            ensures
                task_views(tasks@) == records_of(lines_of(text@)),
                skipped_views(skipped@) == skipped_of(lines_of(text@)),
            decreases rest.len(),
        {
            match find_char(rest, '\n') {
                None => {
                    take_piece(rest, &mut tasks, &mut skipped, Ghost(pieces));
                    assert(pieces.push(rest@) =~= pieces + split_lines(rest@));
                    break;
                },
                Some(k) => {
                    let piece = slice_subrange(rest, 0, k);
                    take_piece(piece, &mut tasks, &mut skipped, Ghost(pieces));
                    let after = slice_subrange(rest, k + 1, rest.len());
                    proof {
                        assert(pieces.push(piece@) + split_lines(after@) =~= pieces + split_lines(
                            rest@,
                        ));
                        pieces = pieces.push(piece@);
                    }
                    rest = after;
                },
            }
        }
        (Tasks(tasks), skipped)
    }

    /// The greatest id in the list, and 0 where the list is empty.
    pub fn max_id(&self) -> (m: usize)
        ensures
            m == max_id(self@),
    {
        let mut m: usize = 0;
        let mut i: usize = 0;
        assert(self@.take(0) == Seq::<TodoView>::empty());
        while i < self.0.len()
            invariant
                i <= self.0.len(),
                m == max_id(self@.take(i as int)),
            decreases self.0.len() - i,
        {
            assert(self@.take(i + 1).drop_last() == self@.take(i as int));
            if self.0[i].id > m {
                m = self.0[i].id;
            }
            i += 1;
        }
        assert(self@.take(i as int) == self@);
        m
    }

    /// Puts a new task at the end of the list and hands back a copy of it.
    /// Its id is 1 in an empty list, and else one more than the greatest id
    /// in the list, which must leave room for it.
    pub fn add(&mut self, text: String) -> (added: Todo)
        requires
            max_id(old(self)@) < usize::MAX,
        ensures
            added@.task == text@,
            added@.id == max_id(old(self)@) + 1,
            final(self)@ == with_task(old(self)@, text@),
            old(self)@.len() == 0 ==> added@.id == 1,
            forall|i: int| 0 <= i < old(self)@.len() ==> (#[trigger] old(self)@[i]).id < added@.id,
            distinct_ids(old(self)@) ==> distinct_ids(final(self)@),
    {
        let id = self.max_id() + 1;
        let added = Todo { task: text.clone(), id };
        proof {
            lemma_max_id(self@);
            if distinct_ids(self@) {
                lemma_with_task_keeps_distinct(self@, text@);
            }
        }
        self.0.push(Todo { task: text, id });
        assert(self@ == with_task(old(self)@, text@));
        added
    }

    /// Takes every task with the id `id` out of the list, and says whether
    /// there was one. The other tasks stay, in their order.
    pub fn delete(&mut self, id: usize) -> (found: bool)
        ensures
            final(self)@ == without_id(old(self)@, id as nat),
            found == has_id(old(self)@, id as nat),
            !found ==> final(self)@ == old(self)@,
            distinct_ids(old(self)@) ==> distinct_ids(final(self)@),
    {
        let ghost before = self@;
        let mut all: Vec<Todo> = Vec::new();
        std::mem::swap(&mut self.0, &mut all);
        let mut found = false;
        proof {
            assert(before.take(0) =~= Seq::<TodoView>::empty());
            before.take(0).lemma_filter_len(other_than(id as nat));
            assert(self@ =~= without_id(before.take(0), id as nat));
        }
        for t in it: all
            invariant
                before == task_views(it.seq()),
                self@ == without_id(before.take(it.index()), id as nat),
                found == has_id(before.take(it.index()), id as nat),
        {
            let ghost kept = self@;
            proof {
                let i = it.index();
                let done = before.take(i);
                assert(before.take(i + 1) =~= done.push(t@));
                done.lemma_filter_push(t@, other_than(id as nat));
                if t.id == id {
                    assert(before.take(i + 1)[i].id == id as nat);
                } else if has_id(before.take(i + 1), id as nat) {
                    let j = choose|j: int|
                        0 <= j < i + 1 && (#[trigger] before.take(i + 1)[j]).id == id as nat;
                    assert(done[j].id == id as nat);
                }
            }
            if t.id == id {
                found = true;
            } else {
                self.0.push(t);
                assert(self@ =~= kept.push(t@));
            }
        }
        proof {
            assert(before.take(before.len() as int) =~= before);
            lemma_without_id(before, id as nat);
        }
        found
    }

    /// Writes the list as its text: one line per task, each closed by a line
    /// feed.
    pub fn serialize(&self) -> (text: String)
        ensures
            text@ == format_all(self@),
    {
        let mut text = String::new();
        let mut i: usize = 0;
        assert(self@.take(0) == Seq::<TodoView>::empty());
        while i < self.0.len()
            invariant
                i <= self.0.len(),
                text@ == format_all(self@.take(i as int)),
            decreases self.0.len() - i,
        {
            self.0[i].write_to(&mut text);
            text.push('\n');
            proof {
                let line = |t: TodoView| format_line(t).push('\n');
                let before = self@.take(i as int);
                assert(self@.take(i + 1).map_values(line) == before.map_values(line).push(
                    line(self@[i as int]),
                ));
                before.map_values(line).lemma_flatten_push(line(self@[i as int]));
            }
            i += 1;
        }
        assert(self@.take(i as int) == self@);
        text
    }
}

} // verus!
