//! One record of the list and its line of text: an id, a colon, the task.

use crate::decimal::{decimal_digits, decimal_value, is_decimal, lemma_decimal_round_trip};
use crate::decimal::{parse_decimal, push_decimal};
use crate::text::{chars_of, find_char, string_of, trim_bounds};
use crate::text::{is_trimmed, lemma_first_index, lemma_trim_is_trimmed, lemma_trim_of_trimmed, trim};
use vstd::prelude::*;
use vstd::slice::slice_subrange;
use vstd::string::StringExecFns;

verus! {

/// One task of the list.
#[derive(Debug, PartialEq, Eq)]
pub struct Todo {
    /// What is to be done.
    pub task: String,
    /// The number by which the list knows it.
    pub id: usize,
}

/// A task as the contracts see it.
pub struct TodoView {
    pub task: Seq<char>,
    pub id: nat,
}

impl View for Todo {
    type V = TodoView;

    open spec fn view(&self) -> TodoView {
        TodoView { task: self.task@, id: self.id as nat }
    }
}

impl Clone for Todo {
    fn clone(&self) -> (copy: Self)
        ensures
            copy == *self,
    {
        Todo { task: self.task.clone(), id: self.id }
    }
}

/// Why a line is no record.
#[derive(Clone, Copy, Debug, PartialEq, Eq, Structural)]
pub enum ParseError {
    /// The line holds no colon.
    MissingDelimiter,
    /// What stands before the first colon is no decimal numeral, or denotes a
    /// number too large for a `usize`.
    InvalidId,
}

/// The record that a line denotes. The line is cut at its first colon: before
/// it stands the id, a decimal numeral without sign or spaces; behind it the
/// task, which is trimmed and may be empty or hold further colons.
pub open spec fn parse_line(line: Seq<char>) -> Result<TodoView, ParseError> {
    match line.index_of_first(':') {
        None => Err(ParseError::MissingDelimiter),
        Some(k) => {
            let numeral = line.take(k);
            if is_decimal(numeral) && decimal_value(numeral) <= usize::MAX {
                Ok(TodoView { task: trim(line.skip(k + 1)), id: decimal_value(numeral) })
            } else {
                Err(ParseError::InvalidId)
            }
        },
    }
}

/// The line of a record: the id's decimal numeral, a colon, one space, the
/// task.
pub open spec fn format_line(t: TodoView) -> Seq<char> {
    decimal_digits(t.id) + seq![':', ' '] + t.task
}

/// Whether a task is one that reading a line can give: its id fits in a
/// `usize`, and its text neither starts nor ends with whitespace and holds no
/// line feed.
pub open spec fn is_canonical(t: TodoView) -> bool {
    &&& t.id <= usize::MAX
    &&& is_trimmed(t.task)
    &&& !t.task.contains('\n')
}

/// Whether a result of parsing holds the record, or the error, that the
/// contracts' result `model` holds.
pub open spec fn agrees(r: Result<Todo, ParseError>, model: Result<TodoView, ParseError>) -> bool {
    match r {
        Ok(t) => model == Ok::<TodoView, ParseError>(t@),
        Err(e) => model == Err::<TodoView, ParseError>(e),
    }
}

/// Reads the characters of one line as a record.
pub fn parse_chars(line: &[char]) -> (r: Result<Todo, ParseError>)
    ensures
        agrees(r, parse_line(line@)),
{
    match find_char(line, ':') {
        None => Err(ParseError::MissingDelimiter),
        Some(k) => {
            match parse_decimal(slice_subrange(line, 0, k)) {
                None => Err(ParseError::InvalidId),
                Some(id) => {
                    let rest = slice_subrange(line, k + 1, line.len());
                    let (from, to) = trim_bounds(rest);
                    let task = string_of(slice_subrange(rest, from, to));
                    Ok(Todo { task, id })
                },
            }
        },
    }
}

impl ParseError {
    /// The words of `message`.
    pub open spec fn message_text(self) -> Seq<char> {
        match self {
            ParseError::MissingDelimiter => "failed to split on :"@,
            ParseError::InvalidId => "failed to parse id"@,
        }
    }

    /// A sentence for the user that says what is wrong with the line.
    pub fn message(&self) -> (m: &'static str)
        ensures
            m@ == self.message_text(),
    {
        match self {
            ParseError::MissingDelimiter => "failed to split on :",
            ParseError::InvalidId => "failed to parse id",
        }
    }
}

impl Todo {
    /// Reads one line as a record.
    pub fn parse(line: &str) -> (r: Result<Todo, ParseError>)
        ensures
            agrees(r, parse_line(line@)),
    {
        let chars = chars_of(line);
        parse_chars(chars.as_slice())
    }

    /// Writes the record's line at the end of `out`.
    pub fn write_to(&self, out: &mut String)
        ensures
            final(out)@ == old(out)@ + format_line(self@),
    {
        push_decimal(out, self.id);
        out.push(':');
        out.push(' ');
        out.append(self.task.as_str());
        assert(out@ == old(out)@ + format_line(self@));
    }

    /// Writes the record as its line.
    pub fn serialize(&self) -> (line: String)
        ensures
            line@ == format_line(self@),
    {
        let mut line = String::new();
        self.write_to(&mut line);
        assert(line@ == format_line(self@));
        line
    }
}

/// Writing a record and reading the line back gives the record again, as long
/// as its id fits in a `usize` and its task neither starts nor ends with
/// whitespace.
pub proof fn lemma_round_trip(t: TodoView)
    requires
        t.id <= usize::MAX,
        is_trimmed(t.task),
    ensures
        parse_line(format_line(t)) == Ok::<TodoView, ParseError>(t),
{
    let numeral = decimal_digits(t.id);
    let line = format_line(t);
    let k = numeral.len() as int;
    lemma_decimal_round_trip(t.id);
    assert forall|j: int| 0 <= j < k implies line[j] != ':' by {
        assert(line[j] == numeral[j]);
    }
    lemma_first_index(line, ':', k);
    assert(line.take(k) == numeral);
    let rest = line.skip(k + 1);
    assert(rest.drop_first() == t.task);
    lemma_trim_of_trimmed(t.task);
}

/// The task of a record that was read from a line neither starts nor ends
/// with whitespace, and its id fits in a `usize`.
pub proof fn lemma_parsed_is_trimmed(line: Seq<char>)
    ensures
        parse_line(line) matches Ok(t) ==> is_trimmed(t.task) && t.id <= usize::MAX,
{
    if let Some(k) = line.index_of_first(':') {
        lemma_trim_is_trimmed(line.skip(k + 1));
    }
}

} // verus!
