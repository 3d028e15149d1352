use journal::dates::{compare_entry_dates, decode, file_name_to_date, to_filename_string, Date};
use journal::journal::{BuildError, Entry, ParseErrorKind, Todo};
use std::cmp::Ordering;

#[test]
fn test_completed_todo_match() {
    let input = String::from("- [x] This is a completed todo");

    let result = Todo::parse(input).unwrap();

    println!("{:?}", result);
    assert!(result.completed, "todo was not parsed as completed");
    assert!(
        result.description == String::from(" This is a completed todo"),
        "Description are not equal"
    );
}

#[test]
fn test_uncompleted_todo_match() {
    let input = String::from("- [ ] This is a todo");

    let result = Todo::parse(input).unwrap();

    println!("{:?}", result);
    assert!(result.completed == false, "todo was not parsed as uncompleted");
    assert!(
        result.description == String::from(" This is a todo"),
        "Description are not equal"
    );
}

#[test]
fn test_compare_entry_dates() {
    let d1 = "12-28-2023.md".to_string();
    let d2 = "12-1-2023.md".to_string();

    assert_eq!(compare_entry_dates(d1, d2), Ordering::Greater);
}

#[test]
fn test_string_to_date() {
    let input = "12-28-2023.md".to_string();

    let expected = Date { year: 2023, month: 12, day: 28 };

    assert_eq!(file_name_to_date(input), expected);
}

#[test]
fn chronological_not_lexical_order() {
    // Lexically "12-31-2023" comes before "2-1-2024"; chronologically it is
    // earlier, so the February name must compare greater.
    assert_eq!(
        compare_entry_dates("2-1-2024".to_string(), "12-31-2023".to_string()),
        Ordering::Greater
    );
}

#[test]
fn malformed_token_sorts_as_epoch() {
    assert_eq!(
        compare_entry_dates("not-a-date".to_string(), "3-4-2024".to_string()),
        Ordering::Less
    );
    // Two malformed names both fall back to the epoch and tie.
    assert_eq!(
        compare_entry_dates("not-a-date".to_string(), "also.bad".to_string()),
        Ordering::Equal
    );
}

#[test]
fn leading_space_of_description_is_preserved() {
    let todo = Todo::parse("- [ ] buy milk".to_string()).unwrap();
    assert_eq!(todo.completed, false);
    assert_eq!(todo.description, " buy milk".to_string());
}

#[test]
fn short_unchecked_spelling_is_accepted() {
    let todo = Todo::parse("- [] buy milk".to_string()).unwrap();
    assert_eq!(todo.completed, false);
    assert_eq!(todo.description, " buy milk".to_string());
}

#[test]
fn unrecognized_line_is_rejected() {
    let err = Todo::parse("just some text".to_string()).unwrap_err();
    assert_eq!(err.kind, ParseErrorKind::UnrecognizedTodoLine);
    assert_eq!(err.message(), "Failed to parse todo line".to_string());
}

#[test]
fn serialization_is_canonical_and_round_trips() {
    // The short spelling normalizes to the canonical form in one pass, and
    // the canonical form re-parses to the same flag and description.
    let todo = Todo::parse("- [] buy milk".to_string()).unwrap();
    let line = todo.to_markdown();
    assert_eq!(line, "- [ ] buy milk".to_string());
    let again = Todo::parse(line).unwrap();
    assert_eq!(again.completed, todo.completed);
    assert_eq!(again.description, todo.description);

    let done = Todo::parse("- [x] ship it".to_string()).unwrap();
    assert_eq!(done.to_markdown(), "- [x] ship it".to_string());
}

#[test]
fn decode_valid_tokens() {
    assert_eq!(
        decode("12-28-2023").unwrap(),
        Date { year: 2023, month: 12, day: 28 }
    );
    // A trailing extension on the year field is stripped.
    assert_eq!(
        decode("2-29-2024.md").unwrap(),
        Date { year: 2024, month: 2, day: 29 }
    );
}

#[test]
fn decode_rejects_malformed_tokens() {
    // Fewer than three fields.
    assert!(decode("12-2023").is_err());
    // Non-numeric fields.
    assert!(decode("a-b-c").is_err());
    assert!(decode("").is_err());
    // Not a calendar date: April has 30 days, 2023 is no leap year.
    assert!(decode("4-31-2024").is_err());
    assert!(decode("2-29-2023").is_err());
    assert!(decode("0-1-2024").is_err());
    assert!(decode("1-0-2024").is_err());
    // A year too large to represent.
    assert!(decode("1-1-99999999999").is_err());
}

#[test]
fn encode_formats_without_padding() {
    assert_eq!(
        to_filename_string(&Date { year: 2023, month: 12, day: 28 }),
        "12-28-2023".to_string()
    );
    assert_eq!(
        to_filename_string(&Date { year: 2024, month: 2, day: 1 }),
        "2-1-2024".to_string()
    );
}

#[test]
fn entry_file_name_appends_extension() {
    let entry = Entry::new(Date { year: 2024, month: 2, day: 1 }, None).unwrap();
    assert_eq!(entry.date, "2-1-2024".to_string());
    assert_eq!(entry.file_name(), "2-1-2024.md".to_string());
}

#[test]
fn rollover_keeps_only_uncompleted_todos_in_order() {
    let prior = "# TODO\n- [x] a\n- [ ] b\n- [ ] c\n# Notes\n".to_string();
    let entry = Entry::new(Date { year: 2024, month: 1, day: 2 }, Some(prior)).unwrap();

    let lines: Vec<String> = entry.todos.iter().map(|t| t.to_markdown()).collect();
    assert_eq!(lines, vec!["- [ ] b".to_string(), "- [ ] c".to_string()]);
    assert_eq!(entry.date, "1-2-2024".to_string());
}

#[test]
fn rollover_without_prior_entry_is_empty() {
    let entry = Entry::new(Date { year: 2024, month: 1, day: 2 }, None).unwrap();
    assert!(entry.todos.is_empty());
    assert_eq!(entry.serialize(), "# TODO\n\n# Notes\n".to_string());
}

#[test]
fn rollover_fails_on_unreadable_prior_entry() {
    let prior = "no sections at all".to_string();
    let err = Entry::new(Date { year: 2024, month: 1, day: 2 }, Some(prior)).unwrap_err();
    assert_eq!(err, BuildError::PriorEntryUnreadable);
}

#[test]
fn entry_parse_drops_stray_lines() {
    let doc = "# TODO\n- [ ] keep me\nstray note\n\n- [x] done\n# Notes\nfree text".to_string();
    let entry = Entry::parse(doc).unwrap();
    assert_eq!(entry.todos.len(), 2);
    assert_eq!(entry.todos[0].description, " keep me".to_string());
    assert!(!entry.todos[0].completed);
    assert!(entry.todos[1].completed);
}

#[test]
fn entry_parse_requires_a_section_marker() {
    let err = Entry::parse("nothing here".to_string()).unwrap_err();
    assert_eq!(err.kind, ParseErrorKind::MissingTodoSection);
    assert_eq!(err.message(), "Failed to find todo section".to_string());
}

#[test]
fn entry_parse_accepts_unspaced_section_markers() {
    let doc = "#TODO\n- [ ] a\n#Notes\n".to_string();
    let entry = Entry::parse(doc).unwrap();
    assert_eq!(entry.todos.len(), 1);
    assert_eq!(entry.todos[0].description, " a".to_string());
}

#[test]
fn serialize_after_parse_keeps_todo_lines() {
    let doc = "# TODO\n- [x] a\n- [ ] b\n- [] c\n# Notes\nanything at all".to_string();
    let entry = Entry::parse(doc).unwrap();
    let out = entry.serialize();
    // Same todos, same order; the short spelling is canonicalized, the Notes
    // body is not part of the round trip.
    assert_eq!(out, "# TODO\n- [x] a\n- [ ] b\n- [ ] c\n# Notes\n".to_string());
    let again = Entry::parse(out).unwrap();
    assert_eq!(again.todos.len(), entry.todos.len());
    for (x, y) in again.todos.iter().zip(entry.todos.iter()) {
        assert_eq!(x.completed, y.completed);
        assert_eq!(x.description, y.description);
    }
}

#[test]
fn last_entry_picks_latest_date() {
    let names = vec![
        "12-28-2023.md".to_string(),
        "1-2-2024.md".to_string(),
        "12-1-2023.md".to_string(),
    ];
    assert_eq!(Entry::last_entry(&names), Some("1-2-2024.md".to_string()));

    let none: Vec<String> = Vec::new();
    assert_eq!(Entry::last_entry(&none), None);
}

#[test]
fn last_entry_breaks_ties_by_first_seen() {
    let names = vec![
        "1-2-2024.md".to_string(),
        "1-2-2024".to_string(),
        "garbage".to_string(),
    ];
    assert_eq!(Entry::last_entry(&names), Some("1-2-2024.md".to_string()));
}
