use obsidian_daily_qs::config::{
    check_dir_anchor, ensure_under_root, push_safe_component, resolve_note_target, sanitize_rel,
    DailyNotePaths, DailyNotesConfig, DailyNotesSettings, Vault, VaultError,
};
use obsidian_daily_qs::format::Date;

fn aug20() -> Date {
    Date::from_ymd(2026, 8, 20).unwrap()
}

fn vault(root: &str, archive: Option<&str>) -> Vault {
    Vault {
        root: root.to_string(),
        archive: archive.map(str::to_string),
    }
}

fn settings(folder: Option<&str>, format: Option<&str>, template: Option<&str>) -> DailyNotesSettings {
    DailyNotesSettings {
        folder: folder.map(str::to_string),
        format: format.map(str::to_string),
        template: template.map(str::to_string),
    }
}

#[test]
fn resolve_applies_and_sanitizes_archive_pattern() {
    let found = Vault::from_path("/tmp/obsidian-daily-qs-archive-escape", true);
    let vault = Vault::resolve(found, Some("../outside/YYYY".into())).unwrap();
    assert_eq!(vault.archive.as_deref(), Some("outside/YYYY"));
    let cfg = vault.daily_notes_config(None);
    assert_eq!(cfg.archive.as_deref(), Some("outside/YYYY"));
}

#[test]
fn resolve_ignores_blank_archive_pattern() {
    let found = Vault::from_path("/tmp/vault", true);
    let vault = Vault::resolve(found, Some("   ".into())).unwrap();
    assert_eq!(vault.archive, None);
    let found = Vault::from_path("/tmp/vault", true);
    let vault = Vault::resolve(found, Some("/./..//".into())).unwrap();
    assert_eq!(vault.archive, None);
}

#[test]
fn resolve_passes_errors_through() {
    assert_eq!(
        Vault::resolve(Err(VaultError::MissingEnv), Some("x".into())),
        Err(VaultError::MissingEnv)
    );
}

#[test]
fn from_path_trims_and_checks_the_root() {
    assert_eq!(
        Vault::from_path("  /srv/vault \n", true),
        Ok(vault("/srv/vault", None))
    );
    assert_eq!(Vault::from_path("   ", true), Err(VaultError::EmptyEnv));
    assert_eq!(
        Vault::from_path(" /srv/file", false),
        Err(VaultError::NotADirectory("/srv/file".to_string()))
    );
}

#[test]
fn defaults_when_settings_missing() {
    let v = vault("/srv/vault", None);
    let cfg = v.daily_notes_config(None);
    assert_eq!(cfg.folder, "");
    assert_eq!(cfg.format, "YYYY-MM-DD");
    assert!(cfg.template.is_none());
    assert_eq!(
        v.daily_note_path(&cfg, &aug20()).unwrap(),
        "/srv/vault/2026-08-20.md"
    );
    assert_eq!(cfg, DailyNotesConfig::default());
}

#[test]
fn reads_folder_format_and_nested_date() {
    let v = vault("/srv/vault", None);
    let cfg = v.daily_notes_config(Some(settings(
        Some("Daily"),
        Some("YYYY/MM/YYYY-MM-DD"),
        Some("Templates/Daily"),
    )));
    assert_eq!(cfg.folder, "Daily");
    assert_eq!(cfg.format, "YYYY/MM/YYYY-MM-DD");
    assert_eq!(cfg.template.as_deref(), Some("Templates/Daily"));
    assert_eq!(
        v.daily_note_path(&cfg, &aug20()).unwrap(),
        "/srv/vault/Daily/2026/08/2026-08-20.md"
    );
    assert_eq!(
        v.template_path(&cfg).as_deref(),
        Some("/srv/vault/Templates/Daily.md")
    );
}

#[test]
fn strips_parent_dir_segments_from_folder() {
    let v = vault("/srv/vault", None);
    let cfg = v.daily_notes_config(Some(settings(Some("../outside"), Some("YYYY-MM-DD"), None)));
    assert_eq!(cfg.folder, "outside");
    assert_eq!(
        v.daily_note_path(&cfg, &aug20()).unwrap(),
        "/srv/vault/outside/2026-08-20.md"
    );
}

#[test]
fn settings_are_trimmed_and_defaulted() {
    let v = vault("/srv/vault", Some("arch"));
    let cfg = v.daily_notes_config(Some(settings(
        Some(" /Daily/ "),
        Some("   "),
        Some(" Templates/Day.md "),
    )));
    assert_eq!(cfg.folder, "Daily");
    assert_eq!(cfg.format, "YYYY-MM-DD");
    assert_eq!(cfg.template.as_deref(), Some("Templates/Day"));
    assert_eq!(cfg.archive.as_deref(), Some("arch"));
    let cfg = v.daily_notes_config(Some(settings(None, None, Some(" .md "))));
    assert_eq!(cfg.template, None);
    let cfg = v.daily_notes_config(Some(settings(None, None, Some("../.."))));
    assert_eq!(cfg.template, None);
}

#[test]
fn archive_pattern_supports_full_date_tokens() {
    let v = vault("/srv/vault", Some("dailies/_archive/YYYY/MM"));
    let cfg = v.daily_notes_config(Some(settings(Some("dailies"), Some("YYYY-MM-DD"), None)));
    assert_eq!(
        v.daily_note_path(&cfg, &aug20()).unwrap(),
        "/srv/vault/dailies/2026-08-20.md"
    );
    assert_eq!(
        v.archive_note_path(&cfg, &aug20()).unwrap(),
        "/srv/vault/dailies/_archive/2026/08/2026-08-20.md"
    );
}

#[test]
fn archive_path_needs_a_pattern() {
    let v = vault("/srv/vault", None);
    let cfg = v.daily_notes_config(None);
    assert_eq!(
        v.archive_note_path(&cfg, &aug20()),
        Err(VaultError::BadFormat(
            "archive pattern is not configured".to_string()
        ))
    );
}

#[test]
fn primary_path_wins_over_archive() {
    let p = DailyNotePaths::pick("/v/live.md".into(), Some("/v/arch.md".into()), true, true);
    assert_eq!(p.resolved, "/v/live.md");
    let p = DailyNotePaths::pick("/v/live.md".into(), Some("/v/arch.md".into()), false, true);
    assert_eq!(p.resolved, "/v/arch.md");
    assert_eq!(p.primary, "/v/live.md");
    let p = DailyNotePaths::pick("/v/live.md".into(), Some("/v/arch.md".into()), false, false);
    assert_eq!(p.resolved, "/v/live.md");
    let p = DailyNotePaths::pick("/v/live.md".into(), None, false, true);
    assert_eq!(p.resolved, "/v/live.md");
}

#[test]
fn bad_format_is_reported() {
    let v = vault("/srv/vault", None);
    let cfg = DailyNotesConfig {
        folder: String::new(),
        format: String::new(),
        template: None,
        archive: None,
    };
    assert_eq!(
        v.daily_note_path(&cfg, &aug20()),
        Err(VaultError::BadFormat("format is empty".to_string()))
    );
}

#[test]
fn note_names_with_an_extension_keep_it() {
    let v = vault("/srv/vault", None);
    let cfg = v.daily_notes_config(Some(settings(None, Some("YYYY-MM-DD.txt"), None)));
    assert_eq!(
        v.daily_note_path(&cfg, &aug20()).unwrap(),
        "/srv/vault/2026-08-20.txt"
    );
}

#[test]
fn sanitizes_relative_paths() {
    assert_eq!(sanitize_rel("../a/./b//c/.."), "a/b/c");
    assert_eq!(sanitize_rel(""), "");
    assert_eq!(sanitize_rel("/x/"), "x");
}

#[test]
fn refuses_escaping_components() {
    let mut p: Vec<char> = "/v".chars().collect();
    assert_eq!(push_safe_component(&mut p, &"a".chars().collect()), Ok(()));
    assert_eq!(push_safe_component(&mut p, &".".chars().collect()), Ok(()));
    assert_eq!(push_safe_component(&mut p, &Vec::new()), Ok(()));
    assert_eq!(p.iter().collect::<String>(), "/v/a");
    assert_eq!(
        push_safe_component(&mut p, &"..".chars().collect()),
        Err(VaultError::Io(
            "refusing path component that escapes the vault: \"..\"".to_string()
        ))
    );
    assert_eq!(p.iter().collect::<String>(), "/v/a");
}

#[test]
fn rejects_note_path_escaping_via_symlink() {
    let err = ensure_under_root(
        "/v",
        "/v/Daily/2026-08-20.md",
        Some("/tmp/outside/2026-08-20.md"),
        Some("/v"),
    )
    .unwrap_err();
    assert!(err.message().contains("escapes vault root"));
    assert_eq!(
        err,
        VaultError::Io(
            "resolved path escapes vault root: /v/Daily/2026-08-20.md resolves to /tmp/outside/2026-08-20.md"
                .to_string()
        )
    );
    assert_eq!(ensure_under_root("/v", "/v/a.md", None, Some("/v")), Ok(()));
    assert_eq!(
        ensure_under_root("/v", "/vault/a.md", None, None),
        Err(VaultError::Io(
            "resolved path escapes vault root: /vault/a.md".to_string()
        ))
    );
}

#[test]
fn write_targets_stay_in_the_vault() {
    assert_eq!(
        resolve_note_target("/real/v", "/v/D/n.md", "/v/D", "/real/v/D", "n.md", None),
        Ok("/real/v/D/n.md".to_string())
    );
    assert_eq!(
        resolve_note_target(
            "/real/v",
            "/v/D/n.md",
            "/v/D",
            "/real/v/D",
            "n.md",
            Some("/real/v/other.md")
        ),
        Ok("/real/v/other.md".to_string())
    );
    let err = resolve_note_target("/real/v", "/v/D/n.md", "/v/D", "/elsewhere", "n.md", None)
        .unwrap_err();
    assert!(err.message().contains("outside the vault"));
    let err = resolve_note_target(
        "/real/v",
        "/v/D/n.md",
        "/v/D",
        "/real/v/D",
        "n.md",
        Some("/etc/passwd"),
    )
    .unwrap_err();
    assert_eq!(
        err.message(),
        "refusing to write outside the vault: /v/D/n.md resolves to /etc/passwd"
    );
    assert!(check_dir_anchor("/real/v", "/v/D", "/real/v/D").is_ok());
    let err = check_dir_anchor("/real/v", "/v/D", "/tmp/D").unwrap_err();
    assert!(err.message().contains("outside the vault"));
}

#[test]
fn error_codes_and_messages() {
    assert_eq!(VaultError::MissingEnv.error_code(), "missing_vault");
    assert_eq!(VaultError::EmptyEnv.error_code(), "missing_vault");
    assert_eq!(VaultError::NotADirectory("/x".into()).error_code(), "bad_vault");
    assert_eq!(VaultError::BadFormat("x".into()).error_code(), "bad_format");
    assert_eq!(VaultError::Io("x".into()).error_code(), "io");
    assert_eq!(
        VaultError::NotADirectory("/x".into()).message(),
        "vault root is not a directory: /x"
    );
    assert_eq!(
        VaultError::BadFormat("format is empty".into()).message(),
        "daily note format: format is empty"
    );
    assert_eq!(VaultError::EmptyEnv.message(), "vault path is empty");
    assert!(VaultError::MissingEnv.message().starts_with("OBSIDIAN_VAULT_ROOT is not set"));
}
