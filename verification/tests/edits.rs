use obsidian_daily_qs::config::VaultError;
use obsidian_daily_qs::todos::{
    add_under_content, append_todo_items, carry_candidates, default_note_body, defer_heading,
    defer_today_next, defer_tomorrow_next, delete_lines, edit_line, expand_template,
    expect_line_text, indent_line, open_todo_count, open_todo_items, parse_todos,
    remove_open_todos, toggle_line, validate_todo_text, SnapshotFilter,
};

fn io(msg: &str) -> VaultError {
    VaultError::Io(msg.to_string())
}

fn items(v: &[(usize, &str)]) -> Vec<(usize, String)> {
    v.iter().map(|(d, t)| (*d, t.to_string())).collect()
}

#[test]
fn appends_todo_under_todos_heading() {
    let next = append_todo_items(
        "# Day\n\n## Todos\n\n- [ ] existing\n\n## Notes\n",
        &items(&[(0, "new one")]),
    );
    assert_eq!(next, "# Day\n\n## Todos\n\n- [ ] existing\n- [ ] new one\n\n## Notes\n");
}

#[test]
fn appends_todo_under_tasks_heading() {
    let next = append_todo_items(
        "# Day\n\n## Tasks\n\n- [ ] existing\n\n## Notes\n",
        &items(&[(0, "new one")]),
    );
    assert_eq!(next, "# Day\n\n## Tasks\n\n- [ ] existing\n- [ ] new one\n\n## Notes\n");
}

#[test]
fn appends_todo_after_nested_content() {
    let next = append_todo_items(
        "# Day\n\n## Todos\n\n- [ ] first\n\n### Later\n\n- [ ] second\n\n## Notes\n",
        &items(&[(0, "last")]),
    );
    assert_eq!(
        next,
        "# Day\n\n## Todos\n\n- [ ] first\n\n### Later\n\n- [ ] second\n- [ ] last\n\n## Notes\n"
    );
}

#[test]
fn appends_todo_past_fenced_heading_lookalike() {
    let next = append_todo_items(
        "# Day\n\n## Todos\n\n- [ ] first\n\n```\n## fake\n```\n\n## Notes\n",
        &items(&[(0, "last")]),
    );
    assert_eq!(
        next,
        "# Day\n\n## Todos\n\n- [ ] first\n\n```\n## fake\n```\n- [ ] last\n\n## Notes\n"
    );
}

#[test]
fn appends_todo_into_empty_section() {
    let next = append_todo_items("# Day\n\n## Todos\n\n## Notes\n", &items(&[(0, "new one")]));
    assert_eq!(next, "# Day\n\n## Todos\n\n- [ ] new one\n\n## Notes\n");
}

#[test]
fn appends_todo_at_end_without_tasks_heading() {
    let next = append_todo_items("# Day\n\nhello\n", &items(&[(0, "solo")]));
    assert!(next.ends_with("- [ ] solo\n"));
}

#[test]
fn appended_depths_nest_at_most_one_deeper() {
    let next = append_todo_items("", &items(&[(2, "a"), (5, "b"), (1, "c")]));
    assert_eq!(next, "- [ ] a\n  - [ ] b\n  - [ ] c\n");
}

#[test]
fn toggles_checkbox_lines() {
    let c = "- [ ] open\n- [x] done\n";
    let once = toggle_line(c, 1).unwrap();
    assert!(once.starts_with("- [x] open\n"));
    let twice = toggle_line(&once, 2).unwrap();
    assert!(twice.contains("- [ ] done\n"));
    assert_eq!(toggle_line(&toggle_line(c, 1).unwrap(), 1).unwrap(), c);
    assert_eq!(toggle_line("  * [X] big", 1).unwrap(), "  * [ ] big");
}

#[test]
fn toggle_refuses_other_lines() {
    assert_eq!(
        toggle_line("- [ ] a\n", 3),
        Err(io("line 3 is past end of file (1 lines)"))
    );
    assert_eq!(
        toggle_line("plain\n", 1),
        Err(io("line 1 is not a checkbox todo"))
    );
}

#[test]
fn expected_text_guards_edits() {
    let c = "- [ ] first\n- [ ] second\n";
    assert_eq!(expect_line_text(c, 1, Some(" first ")), Ok(()));
    assert_eq!(expect_line_text(c, 1, None), Ok(()));
    assert_eq!(expect_line_text(c, 1, Some("  ")), Ok(()));
    assert_eq!(
        expect_line_text(c, 1, Some("second")),
        Err(io(
            "stale view: line 1 now holds \"first\" instead of \"second\"; refetch and retry"
        ))
    );
    assert_eq!(
        expect_line_text("text\n", 1, Some("gone")),
        Err(io("stale view: line 1 is no longer a todo; refetch and retry"))
    );
}

#[test]
fn edits_todo_text_keeping_the_mark() {
    let c = "- [x] old\n  + [ ]\tkeep\n";
    assert_eq!(edit_line(c, 1, "new").unwrap(), "- [x] new\n  + [ ]\tkeep\n");
    assert_eq!(edit_line(c, 2, "changed").unwrap(), "- [x] old\n  + [ ]\tchanged\n");
    assert_eq!(edit_line(c, 9, "x"), Err(io("line 9 is past end of file")));
    assert_eq!(edit_line("no\n", 1, "x"), Err(io("line 1 is not a checkbox todo")));
}

#[test]
fn indents_and_outdents() {
    let c = "- [ ] a\n- [ ] b\n";
    assert_eq!(indent_line(c, 2, 1).unwrap(), "- [ ] a\n  - [ ] b\n");
    assert_eq!(indent_line("\t- [ ] b", 1, -1).unwrap(), "- [ ] b");
    assert_eq!(indent_line("- [ ] b", 1, -3).unwrap(), "- [ ] b");
    assert_eq!(indent_line(c, 5, 1), Err(io("line 5 is past end of file")));
}

#[test]
fn adds_nested_todo_under_a_parent() {
    let c = "- [ ] parent\n- [ ] next\n";
    assert_eq!(
        add_under_content(c, "child", 1).unwrap(),
        "- [ ] parent\n  - [ ] child\n- [ ] next\n"
    );
    assert_eq!(
        add_under_content(c, "x", 3),
        Err(io("under-line 3 is not a todo"))
    );
}

#[test]
fn deletes_todo_with_or_without_children() {
    let c = "- [ ] a\n  - [ ] a1\n    - [ ] a2\n- [ ] b\n";
    assert_eq!(delete_lines(c, 1, true).unwrap(), "- [ ] b\n");
    assert_eq!(
        delete_lines(c, 1, false).unwrap(),
        "  - [ ] a1\n    - [ ] a2\n- [ ] b\n"
    );
    assert_eq!(delete_lines(c, 9, true), Err(io("line 9 is not a todo")));
    assert_eq!(delete_lines("- [ ] only\n", 1, false).unwrap(), "");
}

#[test]
fn validates_todo_text() {
    assert_eq!(validate_todo_text("  ship  "), Ok("ship".to_string()));
    assert_eq!(validate_todo_text("   "), Err(io("todo text is empty")));
    assert_eq!(
        validate_todo_text("a\nb"),
        Err(io("todo text must be a single line"))
    );
    assert_eq!(
        validate_todo_text("a\rb"),
        Err(io("todo text must be a single line"))
    );
}

#[test]
fn carries_open_todos_keeping_nesting() {
    let prev = "- [ ] parent\n  - [ ] child\n  - [x] done-child\n- [x] finished\n- [ ] solo\n";
    let to_move = carry_candidates(prev, "- [ ] keep\n");
    assert_eq!(to_move, items(&[(0, "parent"), (1, "child"), (0, "solo")]));
    let next = append_todo_items("- [ ] keep\n", &to_move);
    assert!(next.contains("- [ ] parent\n  - [ ] child\n- [ ] solo\n"));
    let left = remove_open_todos(prev, &open_todo_items(&next)).unwrap();
    assert_eq!(left, "  - [x] done-child\n- [x] finished\n");
}

#[test]
fn carry_reparents_orphaned_children() {
    let to_move = carry_candidates("- [x] parent\n    - [ ] deep-child\n", "");
    assert_eq!(to_move, items(&[(1, "deep-child")]));
    let next = append_todo_items("", &to_move);
    let todos = parse_todos(&next);
    assert_eq!(todos.len(), 1);
    assert_eq!(todos[0].depth, 0);
}

#[test]
fn carry_skips_todos_already_open() {
    assert_eq!(carry_candidates("- [ ] ghost\n- [x] done\n", "- [ ] ghost\n"), vec![]);
    assert_eq!(
        remove_open_todos("- [ ] ghost\n- [x] done\n", &items(&[(0, "ghost")])),
        Some("- [x] done\n".to_string())
    );
    assert_eq!(remove_open_todos("- [x] done\n", &items(&[(0, "done")])), None);
    assert_eq!(open_todo_count("- [ ] a\n- [x] b\n  - [ ] c\n"), 2);
}

#[test]
fn defers_open_todo_to_the_next_day() {
    let today = "## Notes\nhello\n## Tasks\n- [ ] ship\n- [ ] stay\n- [x] done\n";
    let next_today = defer_today_next(today, "Tasks", "ship").unwrap();
    assert!(!next_today.contains("- [ ] ship"));
    assert!(next_today.contains("- [ ] stay"));
    assert!(next_today.contains("- [x] done"));
    let tomorrow = defer_tomorrow_next("# 2026-08-21\n", "Tasks", "ship").unwrap();
    assert!(tomorrow.contains("## Tasks"));
    assert!(tomorrow.contains("- [ ] ship"));
    assert!(!tomorrow.contains("- [ ] stay"));
    assert_eq!(defer_tomorrow_next("## Tasks\n- [ ] ship\n", "Tasks", "ship"), None);
}

#[test]
fn defer_keeps_other_headings() {
    let today = "## Tasks\n- [ ] ship\n## Morning review\n- [ ] meditate\n";
    let next = defer_today_next(today, "Morning review", "meditate").unwrap();
    assert!(next.contains("- [ ] ship"));
    assert!(!next.contains("- [ ] meditate"));
    assert_eq!(
        defer_today_next(today, "Tasks", "missing"),
        Err(io("open todo \"missing\" not found under ## Tasks"))
    );
    assert_eq!(defer_heading(None), "Tasks");
    assert_eq!(defer_heading(Some("  ")), "Tasks");
    assert_eq!(defer_heading(Some(" Review ")), "Review");
}

#[test]
fn expands_templates() {
    assert_eq!(
        expand_template("# {{date:YYYY-MM-DD}}\n{{date}} at {{time}}\n", "2026-08-20"),
        "# 2026-08-20\n2026-08-20 at \n"
    );
    assert_eq!(default_note_body("2026-08-20"), "# 2026-08-20\n");
}

#[test]
fn writes_the_notes_pane() {
    let f = SnapshotFilter {
        todo_heading: None,
        notes_heading: Some("Notes"),
        notes_h2_count: None,
    };
    assert_eq!(
        f.write_notes("# Day\n\n## Todos\n\n- [ ] a\n", "hello\n\nworld").unwrap(),
        "# Day\n\n## Todos\n\n- [ ] a\n## Notes\nhello\n\nworld\n"
    );
    let bad = SnapshotFilter {
        todo_heading: None,
        notes_heading: Some("a\nb"),
        notes_h2_count: None,
    };
    assert_eq!(
        bad.write_notes("", "x"),
        Err(io("notes heading must be a single line"))
    );
    assert!(bad.checked_notes_heading().is_err());
    assert_eq!(f.checked_notes_heading(), Ok("Notes".chars().collect()));
}

#[test]
fn line_zero_is_refused() {
    let want = Err(VaultError::Io("line must be >= 1".to_string()));
    assert_eq!(toggle_line("- [ ] a\n", 0), want);
    assert_eq!(edit_line("- [ ] a\n", 0, "b"), want);
    assert_eq!(indent_line("- [ ] a\n", 0, 1), want);
}
