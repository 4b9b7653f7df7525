use obsidian_daily_qs::config::DailyNotesConfig;
use obsidian_daily_qs::format::Date;
use obsidian_daily_qs::snapshot::{
    calendar_filter, calendar_summary, day_summary, enrich_snapshot, month_dates, note_sections,
    snapshot_key, snapshot_of, week_dates,
};
use obsidian_daily_qs::status::{Snapshot, State, TodoItem, WeekSummary};
use obsidian_daily_qs::todos::SnapshotFilter;

fn date(y: i32, m: u32, d: u32) -> Date {
    Date::from_ymd(y, m, d).unwrap()
}

fn plain() -> SnapshotFilter<'static> {
    SnapshotFilter::default()
}

#[test]
fn snapshot_of_reads_todos_notes_and_sections() {
    let content = "# Day\n\n## Notes\n\njournal entry\n\n## Todos\n\n- [ ] a\n";
    let snap = snapshot_of(&date(2026, 8, 20), "/v/2026-08-20.md", Some(content), &plain());
    assert_eq!(snap.state, State::Ready);
    assert_eq!(snap.date.as_deref(), Some("2026-08-20"));
    assert_eq!(snap.path.as_deref(), Some("/v/2026-08-20.md"));
    assert_eq!(snap.exists, Some(true));
    assert_eq!(snap.notes.as_deref(), Some("# Day\n\n## Notes\n\njournal entry"));
    assert_eq!(snap.todos.as_ref().unwrap().len(), 1);
    assert_eq!(snap.open_count, Some(1));
    assert_eq!(snap.done_count, Some(0));
    let heads: Vec<_> = snap.sections.unwrap().into_iter().map(|s| s.heading).collect();
    assert_eq!(heads, vec!["Notes", "Todos"]);
    let filtered = SnapshotFilter {
        todo_heading: None,
        notes_heading: Some("Notes"),
        notes_h2_count: None,
    };
    let snap = snapshot_of(&date(2026, 8, 20), "/v/x.md", Some(content), &filtered);
    assert_eq!(snap.notes.as_deref(), Some("journal entry"));
}

#[test]
fn snapshot_of_missing_note_is_empty() {
    let snap = snapshot_of(&date(2026, 8, 20), "/v/x.md", None, &plain());
    assert_eq!(snap.exists, Some(false));
    assert_eq!(snap.todos, Some(Vec::new()));
    assert_eq!(snap.notes.as_deref(), Some(""));
    assert_eq!(snap.sections, Some(Vec::new()));
    assert_eq!(snap.open_count, Some(0));
}

#[test]
fn daily_template_filter_picks_tasks_and_first_sections() {
    let content = "## Notes\n\
                   ## Links / captured ideas\n\
                   - a captured link\n\
                   ## Tasks\n\
                   - [x] configure sync\n\
                   - [ ] ship the plugin\n\
                   ## Morning review\n\
                   - [ ] Lire une méditation stoïque\n\
                   ## Nightly review\n\
                   - [ ] Regarder l’agenda\n";
    let filter = SnapshotFilter {
        todo_heading: Some("Tasks"),
        notes_heading: None,
        notes_h2_count: Some(2),
    };
    let snap = snapshot_of(&date(2026, 8, 20), "/v/x.md", Some(content), &filter);
    let todos = snap.todos.clone().unwrap();
    assert_eq!(todos.len(), 2);
    assert_eq!(todos[0].text, "configure sync");
    assert!(todos[0].checked);
    assert_eq!(todos[1].text, "ship the plugin");
    assert_eq!(
        snap.notes.as_deref(),
        Some("## Notes\n## Links / captured ideas\n- a captured link")
    );
    let sections = snap.sections.clone().unwrap();
    assert_eq!(sections.len(), 5);
    assert_eq!(sections[3].body, "- [ ] Lire une méditation stoïque");
    let day = day_summary(&date(2026, 8, 20), &snap, &date(2026, 8, 21));
    assert_eq!(day.open_count, 1);
    assert_eq!(day.done_count, 1);
    assert!(day.has_notes);
    assert!(!day.is_today);
    let written = filter
        .write_notes(content, "## Notes\n- hello\n## Links / captured ideas\n- a captured link")
        .unwrap();
    assert!(written.contains("## Tasks\n- [x] configure sync\n"));
    assert!(written.contains("## Morning review\n- [ ] Lire une méditation stoïque\n"));
    let again = snapshot_of(&date(2026, 8, 20), "/v/x.md", Some(&written), &filter);
    assert_eq!(
        again.notes.as_deref(),
        Some("## Notes\n- hello\n## Links / captured ideas\n- a captured link")
    );
}

#[test]
fn enrich_adds_uri_carry_count_and_headings() {
    let mut snap = snapshot_of(
        &date(2026, 8, 20),
        "/v/Daily Notes/2026-08-20.md",
        Some("## Tasks\n- [ ] a\n## Review\n"),
        &plain(),
    );
    let config = DailyNotesConfig {
        folder: "Daily Notes".into(),
        format: "YYYY-MM-DD".into(),
        template: Some("Templates/Daily".into()),
        archive: None,
    };
    enrich_snapshot(
        &mut snap,
        &date(2026, 8, 20),
        &date(2026, 8, 20),
        "/v/Daily Notes/2026-08-20.md",
        &config,
        true,
        Some("- [ ] left\n- [x] done\n  - [ ] nested\n"),
        Some("# {{date}}\n## Tasks\n## Notes\n## Review\n"),
    );
    assert_eq!(
        snap.obsidian_uri.as_deref(),
        Some("obsidian://open?path=/v/Daily%20Notes/2026-08-20.md")
    );
    assert_eq!(snap.is_today, Some(true));
    assert_eq!(snap.carry_over_count, Some(2));
    assert_eq!(snap.template_name.as_deref(), Some("Templates/Daily"));
    assert_eq!(snap.created_from_template, Some(true));
    assert_eq!(
        snap.template_headings,
        Some(vec!["Tasks".to_string(), "Notes".to_string(), "Review".to_string()])
    );
}

#[test]
fn enrich_falls_back_to_the_days_headings() {
    let mut snap = snapshot_of(&date(2026, 8, 20), "/v/x.md", Some("## A\n## B\n"), &plain());
    let config = DailyNotesConfig::default();
    enrich_snapshot(
        &mut snap,
        &date(2026, 8, 20),
        &date(2026, 8, 21),
        "/v/x.md",
        &config,
        false,
        None,
        Some("no headings here\n"),
    );
    assert_eq!(snap.is_today, Some(false));
    assert_eq!(snap.carry_over_count, Some(0));
    assert_eq!(snap.template_name, None);
    assert_eq!(snap.created_from_template, None);
    assert_eq!(
        snap.template_headings,
        Some(vec!["A".to_string(), "B".to_string()])
    );
}

#[test]
fn quick_headings_are_capped_at_sixteen() {
    let mut body = String::new();
    for i in 0..20 {
        body.push_str(&format!("## H{i}\n"));
    }
    let mut snap = snapshot_of(&date(2026, 8, 20), "/v/x.md", Some(&body), &plain());
    enrich_snapshot(
        &mut snap,
        &date(2026, 8, 20),
        &date(2026, 8, 20),
        "/v/x.md",
        &DailyNotesConfig::default(),
        false,
        None,
        None,
    );
    let heads = snap.template_headings.unwrap();
    assert_eq!(heads.len(), 16);
    assert_eq!(heads[15], "H15");
}

#[test]
fn calendar_filter_defaults_to_tasks() {
    let f = calendar_filter(SnapshotFilter {
        todo_heading: Some("  "),
        notes_heading: Some("Notes"),
        notes_h2_count: Some(3),
    });
    assert_eq!(f.todo_heading, Some("tasks"));
    assert_eq!(f.notes_heading, Some("Notes"));
    assert_eq!(f.notes_h2_count, Some(3));
    let f = calendar_filter(SnapshotFilter::default());
    assert_eq!(f.todo_heading, Some("tasks"));
    let f = calendar_filter(SnapshotFilter {
        todo_heading: Some("Review"),
        notes_heading: None,
        notes_h2_count: None,
    });
    assert_eq!(f.todo_heading, Some("Review"));
}

#[test]
fn week_runs_monday_to_sunday() {
    let days: Vec<String> = week_dates(&date(2026, 8, 19)).iter().map(|d| d.iso()).collect();
    assert_eq!(
        days,
        vec![
            "2026-08-17", "2026-08-18", "2026-08-19", "2026-08-20", "2026-08-21", "2026-08-22",
            "2026-08-23"
        ]
    );
    let days = week_dates(&date(2026, 8, 17));
    assert_eq!(days[0].iso(), "2026-08-17");
    let days = week_dates(&date(2027, 1, 3));
    assert_eq!(days[0].iso(), "2026-12-28");
}

#[test]
fn month_grid_pads_adjacent_months() {
    let days = month_dates(&date(2026, 8, 20));
    assert_eq!(days.len(), 31 + 7 + 14);
    assert_eq!(days[0].iso(), "2026-07-25");
    assert_eq!(days[days.len() - 1].iso(), "2026-09-14");
    let dec = month_dates(&date(2026, 12, 5));
    assert_eq!(dec[0].iso(), "2026-11-24");
    assert_eq!(dec[dec.len() - 1].iso(), "2027-01-14");
    let feb = month_dates(&date(2028, 2, 29));
    assert_eq!(feb.len(), 29 + 7 + 14);
}

#[test]
fn calendar_summary_marks_today_and_counts() {
    let snaps = vec![
        (
            date(2026, 8, 19),
            Snapshot::ok(
                "2026-08-19".into(),
                "/v/a.md".into(),
                true,
                vec![TodoItem {
                    line: 1,
                    checked: false,
                    text: "x".into(),
                    depth: 0,
                    parent_line: None,
                }],
            ),
        ),
        (
            date(2026, 8, 20),
            Snapshot::error_with_code("broken".into(), "io".into()),
        ),
    ];
    let w: WeekSummary = calendar_summary(&snaps, &date(2026, 8, 20));
    assert_eq!(w.state, State::Ready);
    let days = w.days.unwrap();
    assert_eq!(days.len(), 2);
    assert_eq!(days[0].date, "2026-08-19");
    assert_eq!(days[0].open_count, 1);
    assert!(days[0].exists);
    assert!(!days[0].is_today);
    assert!(!days[0].has_notes);
    assert_eq!(days[1].open_count, 0);
    assert!(!days[1].exists);
    assert!(days[1].is_today);
}

#[test]
fn watch_key_tracks_existing_notes() {
    let snap = Snapshot::ok("2026-08-21".into(), "/v/d.md".into(), true, Vec::new());
    assert_eq!(snapshot_key(&snap, "{}", 1700, 42), "ok:/v/d.md:1700:42:{}");
    assert_ne!(
        snapshot_key(&snap, "{\"carryOverCount\":0}", 1, 2),
        snapshot_key(&snap, "{\"carryOverCount\":3}", 1, 2)
    );
    let missing = Snapshot::ok("2026-08-21".into(), "/v/d.md".into(), false, Vec::new());
    assert_eq!(snapshot_key(&missing, "{}", 1700, 42), "{}");
    let err = Snapshot::error("nope".into());
    assert_eq!(snapshot_key(&err, "body", 1, 1), "body");
}

#[test]
fn note_sections_in_order() {
    let s = note_sections("# T\n## A\nx\n### sub\ny\n## B\n");
    assert_eq!(s.len(), 2);
    assert_eq!(s[0].heading, "A");
    assert_eq!(s[0].body, "x\n### sub\ny");
    assert_eq!(s[1].body, "");
}

#[test]
fn week_runs_monday_to_sunday_around_the_anchor() {
    for anchor in [date(2024, 2, 29), date(2026, 1, 1), date(2026, 12, 31), date(1999, 3, 7)] {
        let days = week_dates(&anchor);
        assert_eq!(days.len(), 7);
        for (k, d) in days.iter().enumerate() {
            assert_eq!(d.weekday_from_monday() as usize, k);
            assert_eq!(days[0].days_until(d), k as i64);
        }
        assert_eq!(days[0].days_until(&anchor), anchor.weekday_from_monday() as i64);
    }
}

#[test]
fn month_grid_is_the_month_and_three_weeks() {
    for (y, m, len) in [(2024, 2, 29), (2023, 2, 28), (2026, 4, 30), (2026, 12, 31), (1900, 2, 28)] {
        let days = month_dates(&date(y, m, 10));
        assert_eq!(days.len(), len + 21);
        assert_eq!(days[7].iso(), format!("{y:04}-{m:02}-01"));
    }
}

#[test]
fn calendar_day_counts_and_weekdays() {
    assert_eq!(date(1, 1, 1).days_until(&date(2026, 8, 20)), 739847);
    assert_eq!(date(1600, 2, 28).days_until(&date(2400, 3, 1)), 292196);
    assert_eq!(date(1, 1, 1).weekday_from_monday(), 0);
    assert_eq!(date(1600, 2, 29).weekday_from_monday(), 1);
    assert_eq!(date(2026, 8, 20).checked_add_days(365).unwrap().iso(), "2027-08-20");
    assert_eq!(date(2024, 3, 1).checked_sub_days(1).unwrap().iso(), "2024-02-29");
    assert!(date(262142, 12, 31).checked_add_days(1).is_none());
    assert!(date(2026, 1, 1).checked_add_days(u64::MAX).is_none());
}
