use todo_list::collection::Tasks;
use todo_list::command::{execute, Command, Outcome, Terminal};
use todo_list::record::Todo;

fn todo(id: usize, task: &str) -> Todo {
    Todo { task: task.to_string(), id }
}

#[test]
fn scenario_add_to_empty() {
    let (mut tasks, left_out) = Tasks::parse("");
    assert!(left_out.is_empty());
    let outcome = execute(&mut tasks, Command::Add { text: "buy milk".to_string() });
    assert_eq!(outcome, Outcome::Added { task: todo(1, "buy milk") });
    assert_eq!(tasks, Tasks(vec![todo(1, "buy milk")]));
    assert_eq!(tasks.serialize(), "1: buy milk\n");
}

#[test]
fn scenario_delete_existing() {
    let mut tasks = Tasks(vec![todo(1, "a"), todo(2, "b")]);
    let outcome = execute(&mut tasks, Command::Delete { id: 1 });
    assert_eq!(outcome, Outcome::Deleted { found: true });
    assert_eq!(tasks, Tasks(vec![todo(2, "b")]));
}

#[test]
fn scenario_delete_missing() {
    let mut tasks = Tasks(vec![todo(1, "a")]);
    let outcome = execute(&mut tasks, Command::Delete { id: 99 });
    assert_eq!(outcome, Outcome::Deleted { found: false });
    assert_eq!(tasks, Tasks(vec![todo(1, "a")]));
}

#[test]
fn display_hands_back_the_text_and_leaves_the_list() {
    let mut tasks = Tasks(vec![todo(1, "a"), todo(2, "b")]);
    let outcome = execute(&mut tasks, Command::Display);
    assert_eq!(outcome, Outcome::Displayed { listing: "1: a\n2: b\n".to_string() });
    assert_eq!(tasks, Tasks(vec![todo(1, "a"), todo(2, "b")]));
}

#[test]
fn display_of_empty_list_is_empty() {
    let mut tasks = Tasks::new();
    let outcome = execute(&mut tasks, Command::Display);
    assert_eq!(outcome, Outcome::Displayed { listing: String::new() });
}

#[test]
fn terminal_tells_changes_from_reads() {
    assert_eq!(Outcome::Deleted { found: true }.terminal(), Terminal::Modified);
    assert_eq!(Outcome::Deleted { found: false }.terminal(), Terminal::Modified);
    assert_eq!(Outcome::Added { task: todo(1, "a") }.terminal(), Terminal::Modified);
    assert_eq!(Outcome::Displayed { listing: String::new() }.terminal(), Terminal::Unmodified);
}

#[test]
fn admits_refuses_adding_past_the_greatest_id() {
    let full = Tasks(vec![todo(usize::MAX, "last")]);
    assert!(!full.admits(&Command::Add { text: "x".to_string() }));
    assert!(full.admits(&Command::Delete { id: 1 }));
    assert!(full.admits(&Command::Display));
    let room = Tasks(vec![todo(usize::MAX - 1, "nearly")]);
    assert!(room.admits(&Command::Add { text: "x".to_string() }));
}

#[test]
fn load_change_save_cycle() {
    let (mut tasks, _) = Tasks::parse("1: a\nbroken\n2: b\n");
    execute(&mut tasks, Command::Add { text: "c".to_string() });
    execute(&mut tasks, Command::Delete { id: 1 });
    let text = tasks.serialize();
    assert_eq!(text, "2: b\n3: c\n");
    let (again, left_out) = Tasks::parse(&text);
    assert_eq!(again, tasks);
    assert!(left_out.is_empty());
}
