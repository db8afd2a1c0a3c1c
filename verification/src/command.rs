//! One command against the list: what it does to the tasks and what it
//! reports. Reading the list and writing it back are the caller's.

use crate::collection::{distinct_ids, format_all, has_id, max_id, with_task, without_id};
use crate::collection::{lemma_with_task_keeps_distinct, lemma_without_id, Tasks};
use crate::record::{Todo, TodoView};
use vstd::prelude::*;

verus! {

/// What the user asks for.
#[derive(Debug, PartialEq, Eq)]
pub enum Command {
    /// Take the task with this id out of the list.
    Delete { id: usize },
    /// Put a task with this text at the end of the list.
    Add { text: String },
    /// Show the list.
    Display,
}

/// A command as the contracts see it.
pub enum CommandView {
    Delete { id: nat },
    Add { text: Seq<char> },
    Display,
}

impl View for Command {
    type V = CommandView;

    open spec fn view(&self) -> CommandView {
        match self {
            Command::Delete { id } => CommandView::Delete { id: *id as nat },
            Command::Add { text } => CommandView::Add { text: text@ },
            Command::Display => CommandView::Display,
        }
    }
}

/// What a command did.
#[derive(Debug, PartialEq, Eq)]
pub enum Outcome {
    /// The tasks with the id are gone; `found` says whether there was any.
    Deleted { found: bool },
    /// The list has `task` at its end.
    Added { task: Todo },
    /// The list is as it was, and `listing` is its text, to be shown.
    Displayed { listing: String },
}

/// An outcome as the contracts see it.
pub enum OutcomeView {
    Deleted { found: bool },
    Added { task: TodoView },
    Displayed { listing: Seq<char> },
}

impl View for Outcome {
    type V = OutcomeView;

    open spec fn view(&self) -> OutcomeView {
        match self {
            Outcome::Deleted { found } => OutcomeView::Deleted { found: *found },
            Outcome::Added { task } => OutcomeView::Added { task: task@ },
            Outcome::Displayed { listing } => OutcomeView::Displayed { listing: listing@ },
        }
    }
}

/// Where a command leaves the list.
#[derive(Clone, Copy, Debug, PartialEq, Eq, Structural)]
pub enum Terminal {
    /// The command was one that changes lists.
    Modified,
    /// The command was one that only reads.
    Unmodified,
}

/// The tasks after a command, from the tasks before it.
pub open spec fn tasks_after(ts: Seq<TodoView>, command: CommandView) -> Seq<TodoView> {
    match command {
        CommandView::Delete { id } => without_id(ts, id),
        CommandView::Add { text } => with_task(ts, text),
        CommandView::Display => ts,
    }
}

/// What a command reports, from the tasks before it.
pub open spec fn outcome_of(ts: Seq<TodoView>, command: CommandView) -> OutcomeView {
    match command {
        CommandView::Delete { id } => OutcomeView::Deleted { found: has_id(ts, id) },
        CommandView::Add { text } => OutcomeView::Added { task: with_task(ts, text).last() },
        CommandView::Display => OutcomeView::Displayed { listing: format_all(ts) },
    }
}

/// Whether the list has room for what the command asks: adding needs an id
/// above the greatest, which must fit in a `usize`.
pub open spec fn admits(ts: Seq<TodoView>, command: CommandView) -> bool {
    command is Add ==> max_id(ts) < usize::MAX
}

/// The tasks after a run of commands on an empty list.
pub open spec fn tasks_after_all(commands: Seq<CommandView>) -> Seq<TodoView>
    decreases commands.len(),
{
    if commands.len() == 0 {
        Seq::empty()
    } else {
        tasks_after(tasks_after_all(commands.drop_last()), commands.last())
    }
}

impl Outcome {
    /// Whether the command was one that changes lists. Deleting counts as
    /// one even where it found nothing.
    pub fn terminal(&self) -> (t: Terminal)
        ensures
            t == (if self is Displayed {
                Terminal::Unmodified
            } else {
                Terminal::Modified
            }),
    {
        match self {
            Outcome::Displayed { .. } => Terminal::Unmodified,
            _ => Terminal::Modified,
        }
    }
}

impl Tasks {
    /// Whether `execute` can take this command on this list.
    pub fn admits(&self, command: &Command) -> (ok: bool)
        ensures
            ok == admits(self@, command@),
    {
        match command {
            Command::Add { .. } => self.max_id() < usize::MAX,
            _ => true,
        }
    }
}

/// Carries out one command on the list and reports what it did. Deleting
/// and adding change the list; showing leaves it and hands back its text.
pub fn execute(tasks: &mut Tasks, command: Command) -> (outcome: Outcome)
    requires
        admits(old(tasks)@, command@),
    ensures
        final(tasks)@ == tasks_after(old(tasks)@, command@),
        outcome@ == outcome_of(old(tasks)@, command@),
        distinct_ids(old(tasks)@) ==> distinct_ids(final(tasks)@),
{
    match command {
        Command::Delete { id } => {
            let found = tasks.delete(id);
            Outcome::Deleted { found }
        },
        Command::Add { text } => {
            let task = tasks.add(text);
            Outcome::Added { task }
        },
        Command::Display => Outcome::Displayed { listing: tasks.serialize() },
    }
}

/// Whatever commands are run on an empty list, one after the other, no two
/// tasks of the list they leave have the same id.
pub proof fn lemma_ids_stay_distinct(commands: Seq<CommandView>)
    ensures
        distinct_ids(tasks_after_all(commands)),
    decreases commands.len(),
{
    if commands.len() > 0 {
        let ts = tasks_after_all(commands.drop_last());
        lemma_ids_stay_distinct(commands.drop_last());
        match commands.last() {
            CommandView::Delete { id } => lemma_without_id(ts, id),
            CommandView::Add { text } => lemma_with_task_keeps_distinct(ts, text),
            CommandView::Display => {},
        }
    }
}

} // verus!
