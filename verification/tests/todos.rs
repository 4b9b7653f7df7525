use obsidian_daily_qs::todos::parse_todos;

#[test]
fn parses_mixed_checkboxes() {
    let todos = parse_todos(
        "# Day\n\n- [ ] open\n* [x] done\n+ [X] also\nnot a todo\n  - [ ] indented\n",
    );
    assert_eq!(todos.len(), 4);
    assert!(!todos[0].checked);
    assert_eq!(todos[0].line, 3);
    assert!(todos[1].checked);
    assert!(todos[2].checked);
    assert_eq!(todos[3].line, 7);
    assert_eq!(todos[3].text, "indented");
}

#[test]
fn parses_nested_todos() {
    let todos = parse_todos(
        "- [ ] parent\n\t- [ ] tab-child\n  - [ ] space-child\n    - [ ] grand-child\n- [ ] sibling\n",
    );
    assert_eq!(todos.len(), 5);
    assert_eq!(todos[0].depth, 0);
    assert_eq!(todos[0].parent_line, None);
    assert_eq!(todos[1].depth, 1);
    assert_eq!(todos[1].parent_line, Some(todos[0].line));
    assert_eq!(todos[2].depth, 1);
    assert_eq!(todos[2].parent_line, Some(todos[0].line));
    assert_eq!(todos[3].depth, 2);
    assert_eq!(todos[3].parent_line, Some(todos[2].line));
    assert_eq!(todos[4].depth, 0);
    assert_eq!(todos[4].parent_line, None);
}

#[test]
fn normalizes_deep_indentation_and_lone_nested_todos() {
    let todos = parse_todos("      - [ ] orphan\n- [ ] parent\n        - [ ] child\n");
    assert_eq!(todos[0].depth, 0);
    assert_eq!(todos[0].parent_line, None);
    assert_eq!(todos[1].depth, 0);
    assert_eq!(todos[2].depth, 1);
    assert_eq!(todos[2].parent_line, Some(todos[1].line));
}
