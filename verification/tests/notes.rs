use obsidian_daily_qs::notes::{
    extract_first_h2_sections, extract_h2_sections, extract_section, h2_titles, has_journal_body,
    replace_first_h2_sections, replace_or_append_section,
};

#[test]
fn extracts_notes_section() {
    let content = "# Day\n\n## Todos\n\n- [ ] a\n\n## Notes\n\nHello\n\nWorld\n\n## Later\n\nx\n";
    assert_eq!(extract_section(content, "Notes"), "Hello\n\nWorld");
    assert_eq!(extract_section(content, "missing"), "");
    assert_eq!(
        extract_section(content, ""),
        "# Day\n\n## Notes\n\nHello\n\nWorld\n\n## Later\n\nx"
    );
}

#[test]
fn empty_heading_omits_checkbox_todos() {
    let content = "- [ ] buy milk\n- [x] done\n\n- walked the dog\n";
    assert_eq!(extract_section(content, ""), "- walked the dog");
    assert!(has_journal_body(&extract_section(content, "")));
    assert!(!has_journal_body(&extract_section(
        "- [ ] only a todo\n- [x] done\n\n",
        ""
    )));
    assert!(!has_journal_body("   \n\n"));
}

#[test]
fn empty_heading_replaces_whole_note() {
    assert_eq!(
        replace_or_append_section("# old\n", "", "- new journal\n"),
        "- new journal\n"
    );
}

#[test]
fn empty_heading_replace_keeps_checkboxes() {
    let next = replace_or_append_section(
        "- [x] done\n\nold journal\n",
        "",
        "new journal\n- [ ] leftover in textarea",
    );
    assert_eq!(next, "- [x] done\n\nnew journal\n");
}

#[test]
fn replaces_existing_notes() {
    let content = "# Day\n\n## Notes\n\nold\n\n## Other\n\nz\n";
    let next = replace_or_append_section(content, "Notes", "new\nline");
    assert_eq!(next, "# Day\n\n## Notes\nnew\nline\n## Other\n\nz\n");
}

#[test]
fn appends_notes_when_missing() {
    let content = "# Day\n\n## Todos\n\n- [ ] a\n";
    let next = replace_or_append_section(content, "Notes", "journal");
    assert_eq!(next, "# Day\n\n## Todos\n\n- [ ] a\n## Notes\njournal\n");
}

#[test]
fn ignores_heading_inside_fence() {
    let content = "## Notes\n\n```\n## Fake\n```\n\nreal\n\n## Next\n";
    assert_eq!(extract_section(content, "Notes"), "```\n## Fake\n```\n\nreal");
}

fn daily_template_note() -> &'static str {
    "## Notes\n\
     ## Links / captured ideas\n\
     - a captured link\n\
     ## Tasks\n\
     - [x] a real task\n\
     ## Morning review\n\
     - [ ] Lire une méditation stoïque\n\
     ## Nightly review\n\
     - [ ] Regarder l’agenda de demain\n"
}

#[test]
fn h2_titles_caps_at_seven() {
    assert_eq!(
        h2_titles(daily_template_note(), 7),
        vec![
            "Notes",
            "Links / captured ideas",
            "Tasks",
            "Morning review",
            "Nightly review"
        ]
    );
    assert_eq!(h2_titles(daily_template_note(), 2), vec!["Notes", "Links / captured ideas"]);
    let extra = "## A\n## B\n## C\n## D\n## E\n## F\n## G\n## H\n";
    assert_eq!(h2_titles(extra, 7).len(), 7);
    assert_eq!(h2_titles(extra, 7)[6], "G");
}

#[test]
fn extracts_each_h2_body_including_review_checkboxes() {
    let sections = extract_h2_sections(daily_template_note());
    assert_eq!(
        sections.iter().map(|(t, _)| t.as_str()).collect::<Vec<_>>(),
        [
            "Notes",
            "Links / captured ideas",
            "Tasks",
            "Morning review",
            "Nightly review"
        ]
    );
    assert_eq!(sections[0].1, "");
    assert_eq!(sections[1].1, "- a captured link");
    assert_eq!(sections[2].1, "- [x] a real task");
    assert_eq!(sections[3].1, "- [ ] Lire une méditation stoïque");
    assert_eq!(sections[4].1, "- [ ] Regarder l’agenda de demain");
}

#[test]
fn extracts_first_two_h2_sections_including_headings() {
    let body = extract_first_h2_sections(daily_template_note(), 2);
    assert_eq!(body, "## Notes\n## Links / captured ideas\n- a captured link");
    assert!(has_journal_body(&body));
    assert!(!body.contains("Tasks"));
    assert!(!body.contains("méditation"));
    assert!(!has_journal_body("## Notes\n## Links / captured ideas"));
}

#[test]
fn replace_first_two_h2_leaves_tasks_and_reviews() {
    let next = replace_first_h2_sections(
        daily_template_note(),
        2,
        "## Notes\n- a thought\n## Links / captured ideas\n- a captured link",
    );
    assert!(next.starts_with("## Notes\n- a thought\n## Links / captured ideas\n- a captured link\n"));
    assert!(next.contains("## Tasks\n- [x] a real task\n"));
    assert!(next.contains("## Morning review\n- [ ] Lire une méditation stoïque\n"));
    assert!(next.contains("## Nightly review\n"));
}

#[test]
fn replace_section_has_no_padding_blank_lines() {
    let content = "## Notes\n\ntest\n\n## Links / captured ideas\n";
    let next = replace_or_append_section(content, "Notes", "test\n");
    assert_eq!(next, "## Notes\ntest\n## Links / captured ideas\n");
}

#[test]
fn written_section_reads_back() {
    let content = "# Day\n## Notes\nold\n```\n## not a heading\n```\n## Links\n- keep\n";
    let next = replace_or_append_section(content, "Notes", "\n  first\n\nsecond  \n\n");
    assert_eq!(extract_section(&next, "Notes"), "  first\n\nsecond  ");
    assert!(next.contains("## Links\n- keep\n"));
    let added = replace_or_append_section("# Day\n", "Review", "done");
    assert_eq!(extract_section(&added, "Review"), "done");
}

#[test]
fn first_h2_sections_read_back() {
    let body = "\n## Notes\n- a thought\n\n## Links / captured ideas\n- a link   \n\n";
    let next = replace_first_h2_sections(daily_template_note(), 2, body);
    assert_eq!(
        extract_first_h2_sections(&next, 2),
        "## Notes\n- a thought\n\n## Links / captured ideas\n- a link"
    );
    assert!(next.contains("## Tasks\n- [x] a real task\n"));
    let fresh = replace_first_h2_sections("", 1, "## Notes\nx");
    assert_eq!(fresh, "## Notes\nx\n");
    assert_eq!(extract_first_h2_sections(&fresh, 1), "## Notes\nx");
}
