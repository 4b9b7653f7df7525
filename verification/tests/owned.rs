use obsidian_daily_qs::owned::{path_key, OwnedDays, OwnedTodo};
use obsidian_daily_qs::undo::UndoRecord;
use obsidian_daily_qs::config::VaultError;
use obsidian_daily_qs::format::Date;

fn todo(h: &str, t: &str) -> OwnedTodo {
    OwnedTodo {
        heading: h.to_string(),
        text: t.to_string(),
    }
}

#[test]
fn remembers_each_todo_once() {
    let mut days = OwnedDays::new();
    assert!(days.all_empty());
    assert!(days.remember("2026-08-20", " Tasks ", " ship "));
    assert!(!days.remember("2026-08-20", "TASKS", "ship"));
    assert!(days.remember("2026-08-20", "Tasks", "Ship"));
    assert!(!days.remember("2026-08-20", "  ", "x"));
    assert!(!days.remember("2026-08-20", "Tasks", " "));
    assert_eq!(
        days.list_for("2026-08-20"),
        vec![todo("Tasks", "ship"), todo("Tasks", "Ship")]
    );
    assert!(days.list_for("2026-08-21").is_empty());
    assert!(!days.all_empty());
}

#[test]
fn replacing_a_day_and_round_tripping_entries() {
    let mut days = OwnedDays::new();
    days.replace_for("2026-08-20", vec![todo("Tasks", "a")]);
    days.replace_for("2026-08-21", vec![todo("Tasks", "b")]);
    days.replace_for("2026-08-20", vec![todo("Review", "c")]);
    assert_eq!(days.list_for("2026-08-20"), vec![todo("Review", "c")]);
    days.replace_for("2026-08-21", Vec::new());
    assert!(days.list_for("2026-08-21").is_empty());
    let entries = days.entries();
    assert_eq!(entries.len(), 1);
    let back = OwnedDays::from_entries(vec![
        ("d".to_string(), vec![todo("h", "1")]),
        ("d".to_string(), vec![todo("h", "2")]),
        ("e".to_string(), Vec::new()),
    ]);
    assert_eq!(back.list_for("d"), vec![todo("h", "2")]);
    assert_eq!(back.entries().len(), 2);
    assert!(!back.all_empty());
    assert!(OwnedDays::from_entries(vec![("e".to_string(), Vec::new())]).all_empty());
}

#[test]
fn store_key_is_fnv1a_hex() {
    assert_eq!(path_key(""), "cbf29ce484222325");
    assert_eq!(path_key("a"), "af63dc4c8601ec8c");
    assert_eq!(path_key("/home/u/vault").len(), 16);
    assert_ne!(path_key("/home/u/vault"), path_key("/home/u/vault2"));
}

#[test]
fn undo_record_checks_vault_and_date() {
    let d = Date::from_ymd(2026, 8, 20).unwrap();
    let rec = UndoRecord::before_write("/v", &d, "/v/n.md", "old\n");
    assert_eq!(rec.vault, "/v");
    assert_eq!(rec.date, "2026-08-20");
    assert_eq!(rec.path, "/v/n.md");
    assert_eq!(rec.before, "old\n");
    assert_eq!(rec.restore_date("/v").unwrap().iso(), "2026-08-20");
    assert_eq!(
        rec.restore_date("/other").unwrap_err(),
        VaultError::Io("undo record is for a different vault; refusing to restore".to_string())
    );
    let bad = UndoRecord {
        vault: "/v".into(),
        date: "yesterday".into(),
        path: "/v/n.md".into(),
        before: String::new(),
    };
    assert_eq!(
        bad.restore_date("/v").unwrap_err(),
        VaultError::Io("invalid undo date yesterday".to_string())
    );
}
