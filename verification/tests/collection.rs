use todo_list::collection::{Skipped, Tasks};
use todo_list::record::{ParseError, Todo};

fn todo(id: usize, task: &str) -> Todo {
    Todo { task: task.to_string(), id }
}

fn skipped(text: &str, error: ParseError) -> Skipped {
    Skipped { text: text.to_string(), error }
}

#[test]
fn new_list_is_empty() {
    assert_eq!(Tasks::new(), Tasks(vec![]));
    assert_eq!(Tasks::new().max_id(), 0);
}

#[test]
fn parse_reads_one_task_per_line() {
    let (tasks, left_out) = Tasks::parse("1: a\n2: b\n3: c\n");
    assert_eq!(tasks, Tasks(vec![todo(1, "a"), todo(2, "b"), todo(3, "c")]));
    assert!(left_out.is_empty());
}

#[test]
fn parse_of_empty_text_is_empty() {
    for text in ["", "\n", "\n\n\n"] {
        let (tasks, left_out) = Tasks::parse(text);
        assert_eq!(tasks, Tasks(vec![]), "{:?}", text);
        assert!(left_out.is_empty(), "{:?}", text);
    }
}

#[test]
fn parse_of_blank_text_is_an_empty_list() {
    let (tasks, left_out) = Tasks::parse(" ");
    assert_eq!(tasks, Tasks(vec![]));
    assert_eq!(left_out, vec![skipped(" ", ParseError::MissingDelimiter)]);
    let (tasks, left_out) = Tasks::parse(" \t \n  \n");
    assert_eq!(tasks, Tasks(vec![]));
    assert_eq!(
        left_out,
        vec![
            skipped(" \t ", ParseError::MissingDelimiter),
            skipped("  ", ParseError::MissingDelimiter),
        ]
    );
}

#[test]
fn malformed_line_tolerated() {
    let (tasks, left_out) = Tasks::parse("1: a\nbroken\n2: b\n");
    assert_eq!(tasks, Tasks(vec![todo(1, "a"), todo(2, "b")]));
    assert_eq!(left_out, vec![skipped("broken", ParseError::MissingDelimiter)]);
}

#[test]
fn parse_keeps_going_after_each_fault() {
    let (tasks, left_out) = Tasks::parse("x: a\n1: one\nnothing here\n\n2: two\n-3: c");
    assert_eq!(tasks, Tasks(vec![todo(1, "one"), todo(2, "two")]));
    assert_eq!(
        left_out,
        vec![
            skipped("x: a", ParseError::InvalidId),
            skipped("nothing here", ParseError::MissingDelimiter),
            skipped("-3: c", ParseError::InvalidId),
        ]
    );
}

#[test]
fn parse_of_faults_only_is_empty() {
    let (tasks, left_out) = Tasks::parse("one\ntwo");
    assert_eq!(tasks, Tasks(vec![]));
    assert_eq!(
        left_out,
        vec![
            skipped("one", ParseError::MissingDelimiter),
            skipped("two", ParseError::MissingDelimiter),
        ]
    );
}

#[test]
fn parse_does_not_trim_the_text() {
    let (tasks, left_out) = Tasks::parse("\n\n  1: a\n2: b  \n\n");
    assert_eq!(tasks, Tasks(vec![todo(2, "b")]));
    assert_eq!(left_out, vec![skipped("  1: a", ParseError::InvalidId)]);
}

#[test]
fn line_that_starts_with_a_space_is_no_record() {
    let (tasks, left_out) = Tasks::parse(" 1: a\n2: b");
    assert_eq!(tasks, Tasks(vec![todo(2, "b")]));
    assert_eq!(left_out, vec![skipped(" 1: a", ParseError::InvalidId)]);
    let (tasks, left_out) = Tasks::parse(" 1: a");
    assert_eq!(tasks, Tasks(vec![]));
    assert_eq!(left_out, vec![skipped(" 1: a", ParseError::InvalidId)]);
}

#[test]
fn last_line_of_spaces_is_skipped() {
    let (tasks, left_out) = Tasks::parse("1: a\n  ");
    assert_eq!(tasks, Tasks(vec![todo(1, "a")]));
    assert_eq!(left_out, vec![skipped("  ", ParseError::MissingDelimiter)]);
}

#[test]
fn empty_lines_are_passed_over() {
    let (tasks, left_out) = Tasks::parse("\n1: a\n\n\n2: b\n\n");
    assert_eq!(tasks, Tasks(vec![todo(1, "a"), todo(2, "b")]));
    assert!(left_out.is_empty());
}

#[test]
fn one_malformed_line_among_valid_ones() {
    let lines = ["1: a", "2: b", "no colon here", "3: c", "4: d"];
    let (tasks, left_out) = Tasks::parse(&lines.join("\n"));
    assert_eq!(tasks, Tasks(vec![todo(1, "a"), todo(2, "b"), todo(3, "c"), todo(4, "d")]));
    assert_eq!(tasks.0.len(), lines.len() - 1);
    assert_eq!(left_out, vec![skipped("no colon here", ParseError::MissingDelimiter)]);
}

#[test]
fn parse_without_final_line_feed() {
    let (tasks, left_out) = Tasks::parse("1: a\n2: b");
    assert_eq!(tasks, Tasks(vec![todo(1, "a"), todo(2, "b")]));
    assert!(left_out.is_empty());
}

#[test]
fn parse_takes_carriage_returns_as_whitespace() {
    let (tasks, left_out) = Tasks::parse("1: a\r\n2: b\r\n");
    assert_eq!(tasks, Tasks(vec![todo(1, "a"), todo(2, "b")]));
    assert!(left_out.is_empty());
}

#[test]
fn parse_keeps_file_order_and_repeated_ids() {
    let (tasks, _) = Tasks::parse("5: e\n2: b\n5: again\n");
    assert_eq!(tasks, Tasks(vec![todo(5, "e"), todo(2, "b"), todo(5, "again")]));
}

#[test]
fn serialize_of_empty_list_is_empty() {
    assert_eq!(Tasks::new().serialize(), "");
}

#[test]
fn serialize_closes_each_line() {
    let tasks = Tasks(vec![todo(1, "a"), todo(20, "bb"), todo(3, "")]);
    assert_eq!(tasks.serialize(), "1: a\n20: bb\n3: \n");
}

#[test]
fn collection_round_trip() {
    let lists = [
        vec![],
        vec![todo(1, "a")],
        vec![todo(1, "")],
        vec![todo(1, ""), todo(2, "")],
        vec![todo(3, "c"), todo(1, "a: b"), todo(2, "")],
        vec![todo(usize::MAX, "ünï ✓"), todo(0, "zero")],
    ];
    for list in lists {
        let tasks = Tasks(list);
        let (back, left_out) = Tasks::parse(&tasks.serialize());
        assert_eq!(back, tasks);
        assert!(left_out.is_empty());
    }
}

#[test]
fn add_to_empty_list_gives_id_one() {
    let mut tasks = Tasks::new();
    let added = tasks.add("buy milk".to_string());
    assert_eq!(added, todo(1, "buy milk"));
    assert_eq!(tasks, Tasks(vec![todo(1, "buy milk")]));
    assert_eq!(tasks.serialize(), "1: buy milk\n");
}

#[test]
fn add_gives_one_more_than_the_greatest_id() {
    let mut tasks = Tasks(vec![todo(7, "g"), todo(3, "c")]);
    assert_eq!(tasks.max_id(), 7);
    let added = tasks.add("h".to_string());
    assert_eq!(added, todo(8, "h"));
    assert_eq!(tasks, Tasks(vec![todo(7, "g"), todo(3, "c"), todo(8, "h")]));
    assert_eq!(tasks.max_id(), 8);
}

#[test]
fn add_keeps_the_text_as_given() {
    let mut tasks = Tasks::new();
    let added = tasks.add("  padded  ".to_string());
    assert_eq!(added.task, "  padded  ");
}

#[test]
fn added_id_is_above_every_id_present() {
    let mut tasks = Tasks(vec![todo(4, "d"), todo(11, "k"), todo(2, "b")]);
    let mut round = 0;
    while round < 5 {
        let before: Vec<usize> = tasks.0.iter().map(|t| t.id).collect();
        let added = tasks.add(format!("task {}", round));
        assert!(before.iter().all(|id| *id < added.id));
        round += 1;
    }
}

#[test]
fn delete_existing_leaves_the_others() {
    let mut tasks = Tasks(vec![todo(1, "a"), todo(2, "b")]);
    assert!(tasks.delete(1));
    assert_eq!(tasks, Tasks(vec![todo(2, "b")]));
}

#[test]
fn delete_missing_changes_nothing() {
    let mut tasks = Tasks(vec![todo(1, "a")]);
    assert!(!tasks.delete(99));
    assert_eq!(tasks, Tasks(vec![todo(1, "a")]));
}

#[test]
fn delete_takes_every_task_of_the_id() {
    let mut tasks = Tasks(vec![todo(5, "e"), todo(2, "b"), todo(5, "again"), todo(9, "i")]);
    assert!(tasks.delete(5));
    assert_eq!(tasks, Tasks(vec![todo(2, "b"), todo(9, "i")]));
}

#[test]
fn delete_from_empty_list() {
    let mut tasks = Tasks::new();
    assert!(!tasks.delete(1));
    assert_eq!(tasks, Tasks(vec![]));
}

#[test]
fn ids_stay_distinct_under_adds_and_deletes() {
    let mut tasks = Tasks::new();
    let mut step: usize = 0;
    while step < 60 {
        if step % 3 == 2 {
            tasks.delete(step / 2);
        } else {
            tasks.add(format!("task {}", step));
        }
        let mut ids: Vec<usize> = tasks.0.iter().map(|t| t.id).collect();
        let count = ids.len();
        ids.sort();
        ids.dedup();
        assert_eq!(ids.len(), count);
        step += 1;
    }
}

#[test]
fn deleting_the_greatest_id_frees_it() {
    let mut tasks = Tasks::new();
    tasks.add("a".to_string());
    tasks.add("b".to_string());
    assert!(tasks.delete(2));
    assert_eq!(tasks.add("c".to_string()), todo(2, "c"));
}
