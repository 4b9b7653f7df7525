use obsidian_daily_qs::open::{
    client_is_obsidian, close_lua_expr, close_window_selector, cmdline_is_obsidian_app,
    ensure_obsidian, latest_live_signature, lock_holder_entry, nudge_sync, open_uri,
    parse_obsidian_window_address, parse_unsigned, tray_grace_ms, tray_plugin_candidates,
    window_address_of, EnsureEvent, EnsurePhase, EnsureState, EnsureStep, NudgeEvent, NudgeStep,
    WindowClient, HIDE_GRACE_MS,
};

#[test]
fn encodes_spaces_in_path() {
    let uri = open_uri("/vault/Daily Notes/2026-08-20.md");
    assert!(uri.starts_with("obsidian://open?path="));
    assert!(uri.contains("Daily%20Notes"));
    assert!(uri.contains("/2026-08-20.md"));
}

#[test]
fn keeps_slashes() {
    let uri = open_uri("/home/u/vault/a/b.md");
    assert_eq!(uri, "obsidian://open?path=/home/u/vault/a/b.md");
}

#[test]
fn detects_packaged_obsidian_electron() {
    let cmd = "/usr/lib/electron43/electron --disable-gpu /usr/lib/obsidian/app.asar";
    assert!(cmdline_is_obsidian_app(cmd));
    assert!(!cmdline_is_obsidian_app(
        "/usr/lib/electron43/electron --help /usr/lib/obsidian/app.asar"
    ));
    assert!(!cmdline_is_obsidian_app(
        "cursor-agent --worker-dir /home/u/Documents/Obsidian"
    ));
}

#[test]
fn parses_hyprland_obsidian_client() {
    let json = r#"[{"address":"0xabc","class":"cursor","title":"Cursor"},{"address":"0xdef","class":"md.obsidian.Obsidian","title":"austrobs - Obsidian"}]"#;
    assert_eq!(
        parse_obsidian_window_address(json).as_deref(),
        Some("0xdef")
    );
    assert!(parse_obsidian_window_address(
        r#"[{"address":"0x1","class":"cursor","title":"obsidian-clock"}]"#
    )
    .is_none());
    assert_eq!(
        parse_obsidian_window_address(
            r#"[{"address":"0xeee","class":"electron","title":"austrobs - Obsidian 1.13.7"}]"#
        )
        .as_deref(),
        Some("0xeee")
    );
}

#[test]
fn lua_close_expr_is_hyprctl_dispatchable() {
    assert_eq!(
        close_lua_expr("address:0xabc"),
        r#"hl.dsp.window.close({ window = "address:0xabc" })"#
    );
}

#[test]
fn encodes_reserved_and_non_ascii_bytes() {
    assert_eq!(
        open_uri("/v/a#b?c%é.md"),
        "obsidian://open?path=/v/a%23b%3Fc%25%C3%A9.md"
    );
    assert_eq!(open_uri("A-z_0.9~"), "obsidian://open?path=A-z_0.9~");
    assert_eq!(open_uri(""), "obsidian://open?path=");
}

#[test]
fn cmdline_reads_nul_separators_as_spaces() {
    assert!(cmdline_is_obsidian_app(
        "/usr/lib/electron/electron\0/usr/lib/obsidian/obsidian.asar\0"
    ));
    assert!(cmdline_is_obsidian_app("flatpak\0run\0md.obsidian.Obsidian"));
    assert!(cmdline_is_obsidian_app("/opt/Obsidian/obsidian\0--no-sandbox"));
    assert!(!cmdline_is_obsidian_app("/opt/Obsidian/obsidian\0--help"));
    assert!(!cmdline_is_obsidian_app("/usr/bin/bash"));
}

#[test]
fn client_checks_ignore_ascii_case_and_refuse_cursor() {
    assert!(client_is_obsidian("MD.OBSIDIAN.obsidian", "", ""));
    assert!(client_is_obsidian("electron", "Obsidian", ""));
    assert!(client_is_obsidian("", "", "My vault - OBSIDIAN"));
    assert!(!client_is_obsidian("Cursor", "", "obsidian notes"));
    assert!(!client_is_obsidian("electron", "cursor", "Obsidian"));
    assert!(!client_is_obsidian("electron", "", "notes"));
}

#[test]
fn window_address_of_first_obsidian_client() {
    let clients = vec![
        WindowClient {
            class: Some("kitty".to_string()),
            initial_class: None,
            title: Some("shell".to_string()),
            address: Some("0x1".to_string()),
        },
        WindowClient {
            class: None,
            initial_class: Some("obsidian".to_string()),
            title: None,
            address: None,
        },
        WindowClient {
            class: Some("obsidian".to_string()),
            initial_class: None,
            title: None,
            address: Some("0x3".to_string()),
        },
    ];
    assert_eq!(window_address_of(&clients), None);
    assert_eq!(window_address_of(&clients[2..].to_vec()), Some("0x3".to_string()));
    assert_eq!(window_address_of(&Vec::new()), None);
}

#[test]
fn window_address_needs_a_json_array() {
    assert!(parse_obsidian_window_address("not json").is_none());
    assert!(parse_obsidian_window_address(r#"{"class":"obsidian"}"#).is_none());
    assert_eq!(
        parse_obsidian_window_address(r#"[{"class":5,"title":"Obsidian","address":"0x9"}]"#)
            .as_deref(),
        Some("0x9")
    );
}

#[test]
fn tray_candidates_keep_tray_plugins_in_order() {
    assert_eq!(
        tray_plugin_candidates(r#"["markdown-minimap","obsidian-tray","background-tray"]"#),
        vec!["obsidian-tray".to_string(), "background-tray".to_string()]
    );
    assert!(tray_plugin_candidates(r#"["markdown-minimap"]"#).is_empty());
    assert!(tray_plugin_candidates("{}").is_empty());
    assert!(tray_plugin_candidates("not json").is_empty());
}

#[test]
fn nudge_steps() {
    assert_eq!(nudge_sync(NudgeEvent::Begin { skip: true }), NudgeStep::Done);
    assert_eq!(
        nudge_sync(NudgeEvent::Begin { skip: false }),
        NudgeStep::CheckRunning
    );
    assert_eq!(nudge_sync(NudgeEvent::Running(true)), NudgeStep::Done);
    assert_eq!(nudge_sync(NudgeEvent::Running(false)), NudgeStep::SpawnChild);
    assert_eq!(nudge_sync(NudgeEvent::ChildSpawned(true)), NudgeStep::Done);
    assert_eq!(nudge_sync(NudgeEvent::ChildSpawned(false)), NudgeStep::Launch);
}

fn run_ensure(events: &[EnsureEvent]) -> Vec<EnsureStep> {
    let mut state = EnsureState::new();
    events
        .iter()
        .map(|e| ensure_obsidian(&mut state, *e))
        .collect()
}

#[test]
fn ensure_leaves_running_app_alone() {
    let steps = run_ensure(&[
        EnsureEvent::Begin {
            skip: false,
            grace_ms: 100,
        },
        EnsureEvent::Locked(true),
        EnsureEvent::Running(true),
    ]);
    assert_eq!(
        steps,
        vec![EnsureStep::TakeLock, EnsureStep::CheckRunning, EnsureStep::Done]
    );
    let skipped = run_ensure(&[EnsureEvent::Begin {
        skip: true,
        grace_ms: 100,
    }]);
    assert_eq!(skipped, vec![EnsureStep::Done]);
}

#[test]
fn ensure_launches_without_tray_plugin_and_stops() {
    let steps = run_ensure(&[
        EnsureEvent::Begin {
            skip: false,
            grace_ms: 100,
        },
        EnsureEvent::Locked(true),
        EnsureEvent::Running(false),
        EnsureEvent::TrayPlugin(false),
        EnsureEvent::Launched,
    ]);
    assert_eq!(
        steps,
        vec![
            EnsureStep::TakeLock,
            EnsureStep::CheckRunning,
            EnsureStep::CheckTrayPlugin,
            EnsureStep::Launch,
            EnsureStep::Done
        ]
    );
}

#[test]
fn ensure_hides_to_tray_and_retries_with_longer_pauses() {
    let mut state = EnsureState::new();
    let script = [
        (
            EnsureEvent::Begin {
                skip: false,
                grace_ms: 250,
            },
            EnsureStep::TakeLock,
        ),
        (EnsureEvent::Locked(true), EnsureStep::CheckRunning),
        (EnsureEvent::Running(false), EnsureStep::CheckTrayPlugin),
        (EnsureEvent::TrayPlugin(true), EnsureStep::Launch),
        (EnsureEvent::Launched, EnsureStep::WaitRunning),
        (EnsureEvent::Waited(true), EnsureStep::CheckRunning),
        (EnsureEvent::Running(true), EnsureStep::WaitWindow),
        (EnsureEvent::Waited(true), EnsureStep::Sleep(250)),
        (EnsureEvent::Slept, EnsureStep::CheckRunning),
        (EnsureEvent::Running(true), EnsureStep::CloseWindow),
        (EnsureEvent::Closed, EnsureStep::CheckHidden),
        (EnsureEvent::Hidden(false), EnsureStep::CheckRunning),
        (EnsureEvent::Running(false), EnsureStep::Launch),
        (EnsureEvent::Launched, EnsureStep::CheckRunning),
        (EnsureEvent::Running(false), EnsureStep::Launch),
        (EnsureEvent::Launched, EnsureStep::WaitRunning),
        (EnsureEvent::Waited(true), EnsureStep::WaitWindow),
        (EnsureEvent::Waited(true), EnsureStep::Sleep(400)),
        (EnsureEvent::Slept, EnsureStep::CheckRunning),
        (EnsureEvent::Running(false), EnsureStep::CheckRunning),
        (EnsureEvent::Running(true), EnsureStep::WaitWindow),
        (EnsureEvent::Waited(true), EnsureStep::Sleep(800)),
        (EnsureEvent::Slept, EnsureStep::CheckRunning),
        (EnsureEvent::Running(true), EnsureStep::CloseWindow),
        (EnsureEvent::Closed, EnsureStep::CheckHidden),
        (EnsureEvent::Hidden(false), EnsureStep::CheckRunning),
        (EnsureEvent::Running(true), EnsureStep::Done),
    ];
    for (event, want) in script {
        assert_eq!(ensure_obsidian(&mut state, event), want);
    }
    assert_eq!(state.phase, EnsurePhase::Finished);
}

#[test]
fn ensure_stops_once_hidden_or_on_unexpected_answer() {
    let mut state = EnsureState {
        phase: EnsurePhase::Verify,
        hide: true,
        round: 0,
        grace_ms: 100,
    };
    assert_eq!(
        ensure_obsidian(&mut state, EnsureEvent::Hidden(true)),
        EnsureStep::Done
    );
    let mut state = EnsureState::new();
    assert_eq!(
        ensure_obsidian(&mut state, EnsureEvent::Running(true)),
        EnsureStep::Done
    );
    assert_eq!(state.phase, EnsurePhase::Finished);
}

#[test]
fn parses_unsigned_like_str_parse() {
    let p = |s: &str, max: u64| parse_unsigned(&s.chars().collect(), max);
    assert_eq!(p("42", u64::MAX), Some(42));
    assert_eq!(p("+7", u64::MAX), Some(7));
    assert_eq!(p("007", u64::MAX), Some(7));
    assert_eq!(p("", u64::MAX), None);
    assert_eq!(p("+", u64::MAX), None);
    assert_eq!(p("-1", u64::MAX), None);
    assert_eq!(p(" 1", u64::MAX), None);
    assert_eq!(p("4294967295", 4294967295), Some(4294967295));
    assert_eq!(p("4294967296", 4294967295), None);
    assert_eq!(p("18446744073709551615", u64::MAX), Some(u64::MAX));
    assert_eq!(p("18446744073709551616", u64::MAX), None);
    assert_eq!(p("99999999999999999999x", u64::MAX), None);
    for s in ["0", "12", "+3", "x", "1 2", "18446744073709551616"] {
        assert_eq!(p(s, u64::MAX), s.parse::<u64>().ok());
    }
}

#[test]
fn lock_text_names_its_process() {
    assert_eq!(lock_holder_entry("1234\n").as_deref(), Some("/proc/1234"));
    assert_eq!(lock_holder_entry("  +9 ").as_deref(), Some("/proc/9"));
    assert_eq!(lock_holder_entry("").as_deref(), None);
    assert_eq!(lock_holder_entry("abc").as_deref(), None);
    assert_eq!(lock_holder_entry("4294967296").as_deref(), None);
}

#[test]
fn tray_grace_setting_and_default() {
    assert_eq!(HIDE_GRACE_MS, 100);
    assert_eq!(tray_grace_ms(None), 100);
    assert_eq!(tray_grace_ms(Some("250")), 250);
    assert_eq!(tray_grace_ms(Some(" 250")), 100);
    assert_eq!(tray_grace_ms(Some("soon")), 100);
}

#[test]
fn close_targets_address_or_class() {
    assert_eq!(close_window_selector(Some("0xabc")), "address:0xabc");
    assert_eq!(close_window_selector(None), "class:md.obsidian.Obsidian");
}

#[test]
fn picks_latest_live_hyprland_instance() {
    let names: Vec<String> = ["b_2", "a_9", "c_1", "b_10"].iter().map(|s| s.to_string()).collect();
    assert_eq!(
        latest_live_signature(&names, &vec![true, true, false, true]).as_deref(),
        Some("b_2")
    );
    assert_eq!(
        latest_live_signature(&names, &vec![true, true, true, true]).as_deref(),
        Some("c_1")
    );
    assert_eq!(latest_live_signature(&names, &vec![false; 4]), None);
    let mut sorted = names.clone();
    sorted.sort();
    let live = vec![true, false, true, false];
    let expected = sorted
        .iter()
        .rev()
        .find(|n| live[names.iter().position(|m| m == *n).unwrap()])
        .cloned();
    assert_eq!(latest_live_signature(&names, &live), expected);
}
