use obscura::cli::{
    effective_v8_flags, eval_answers_directly, hard_deadline_secs, is_quiet_command,
    link_kind_from_rel, merge_proxy, normalize_v8_flags, select_log_filter, settle_passes,
    validate_serve_workers, worker_read_timeout_secs, Command, ServeWorkersError, DEFAULT_V8_FLAGS,
};

#[test]
fn default_filter_is_warn() {
    assert_eq!(select_log_filter(false, false), "warn");
}

#[test]
fn verbose_filter_is_debug() {
    assert_eq!(select_log_filter(true, false), "debug");
}

#[test]
fn quiet_filter_is_off() {
    assert_eq!(select_log_filter(false, true), "off");
}

#[test]
fn verbose_wins_over_quiet() {
    assert_eq!(select_log_filter(true, true), "debug");
}

#[test]
fn no_subcommand_is_not_quiet() {
    assert!(!is_quiet_command(&None));
}

#[test]
fn quiet_flag_of_each_subcommand_is_detected() {
    assert!(is_quiet_command(&Some(Command::Fetch { quiet: true })));
    assert!(is_quiet_command(&Some(Command::Scrape { quiet: true })));
    assert!(is_quiet_command(&Some(Command::Serve { quiet: true })));
    assert!(!is_quiet_command(&Some(Command::Fetch { quiet: false })));
    assert!(!is_quiet_command(&Some(Command::Mcp)));
    assert!(!is_quiet_command(&Some(Command::Profiles)));
    assert_eq!(
        select_log_filter(false, is_quiet_command(&Some(Command::Fetch { quiet: true }))),
        "off"
    );
}

#[test]
fn normalize_v8_flags_returns_none_when_unset() {
    assert_eq!(normalize_v8_flags(None), None);
}

#[test]
fn normalize_v8_flags_returns_none_for_empty_or_whitespace() {
    assert_eq!(normalize_v8_flags(Some("")), None);
    assert_eq!(normalize_v8_flags(Some("   ")), None);
    assert_eq!(normalize_v8_flags(Some("\t\n")), None);
}

#[test]
fn normalize_v8_flags_trims_surrounding_whitespace() {
    assert_eq!(
        normalize_v8_flags(Some("  --max-old-space-size=4096  ")).as_deref(),
        Some("--max-old-space-size=4096"),
    );
}

#[test]
fn normalize_v8_flags_preserves_multi_flag_string() {
    let input = "--max-old-space-size=4096 --max-semi-space-size=64 --expose-gc";
    assert_eq!(normalize_v8_flags(Some(input)).as_deref(), Some(input));
}

#[test]
fn normalize_v8_flags_trims_unicode_whitespace() {
    assert_eq!(
        normalize_v8_flags(Some("\u{3000}\u{a0}--expose-gc\u{2009}\r")).as_deref(),
        Some("--expose-gc"),
    );
    assert_eq!(normalize_v8_flags(Some("\u{85}\u{2028}")), None);
    assert_eq!(normalize_v8_flags(Some(" a b ")).as_deref(), Some("a b"));
}

#[test]
fn effective_v8_flags_returns_default_when_unset() {
    assert_eq!(effective_v8_flags(None), DEFAULT_V8_FLAGS);
    assert_eq!(effective_v8_flags(Some("")), DEFAULT_V8_FLAGS);
    assert_eq!(effective_v8_flags(Some("   ")), DEFAULT_V8_FLAGS);
}

#[test]
fn effective_v8_flags_user_overrides_default() {
    let user = "--max-old-space-size=8192";
    let merged = effective_v8_flags(Some(user));
    assert!(merged.starts_with(DEFAULT_V8_FLAGS));
    assert!(merged.ends_with(user));
}

#[test]
fn effective_v8_flags_appends_user_extras() {
    let merged = effective_v8_flags(Some("--expose-gc"));
    assert!(merged.contains(DEFAULT_V8_FLAGS));
    assert!(merged.contains("--expose-gc"));
}

#[test]
fn effective_v8_flags_exact_text() {
    assert_eq!(
        effective_v8_flags(Some("  --expose-gc ")),
        "--max-old-space-size=4096 --max-semi-space-size=4 --optimize-for-size --expose-gc"
    );
}

#[test]
fn command_proxy_overrides_global_proxy() {
    let proxy = merge_proxy(
        Some("http://global.example:8080".to_string()),
        Some("socks5://127.0.0.1:1080".to_string()),
    );

    assert_eq!(proxy.as_deref(), Some("socks5://127.0.0.1:1080"));
}

#[test]
fn global_proxy_is_used_when_command_proxy_is_absent() {
    let proxy = merge_proxy(Some("http://global.example:8080".to_string()), None);

    assert_eq!(proxy.as_deref(), Some("http://global.example:8080"));
}

#[test]
fn no_proxy_when_neither_is_given() {
    assert_eq!(merge_proxy(None, None), None);
    assert_eq!(merge_proxy(None, Some("http://c:1".to_string())).as_deref(), Some("http://c:1"));
}

#[test]
fn serve_workers_with_workbench_needs_one_worker() {
    let dir = Some(std::path::PathBuf::from("/tmp/wb"));
    assert_eq!(
        validate_serve_workers(2, &dir),
        Err(ServeWorkersError::WorkbenchNeedsSingleWorker)
    );
    assert_eq!(
        ServeWorkersError::WorkbenchNeedsSingleWorker.message(),
        "--profile-workbench-dir needs --workers 1"
    );
    assert_eq!(validate_serve_workers(1, &dir), Ok(()));
    assert_eq!(validate_serve_workers(0, &dir), Ok(()));
    assert_eq!(validate_serve_workers(8, &None), Ok(()));
}

#[test]
fn link_kind_from_rel_handles_common_values() {
    assert_eq!(link_kind_from_rel("stylesheet"), "stylesheet");
    assert_eq!(link_kind_from_rel("icon"), "icon");
    assert_eq!(link_kind_from_rel("shortcut icon"), "icon");
    assert_eq!(link_kind_from_rel("manifest"), "manifest");
    assert_eq!(link_kind_from_rel("preload"), "preload");
    assert_eq!(link_kind_from_rel("prefetch"), "prefetch");
    assert_eq!(link_kind_from_rel("modulepreload"), "modulepreload");
    assert_eq!(link_kind_from_rel("dns-prefetch"), "dns-prefetch");
    assert_eq!(link_kind_from_rel("preconnect"), "preconnect");
    assert_eq!(link_kind_from_rel("alternate"), "alternate");
    assert_eq!(link_kind_from_rel(""), "link");
    assert_eq!(link_kind_from_rel("noopener"), "link");
}

#[test]
fn link_kind_ignores_case_and_leading_whitespace() {
    assert_eq!(link_kind_from_rel("  StyleSheet  alternate"), "stylesheet");
    assert_eq!(link_kind_from_rel("\tICON"), "icon");
    assert_eq!(link_kind_from_rel("   "), "link");
    assert_eq!(link_kind_from_rel("alternate\nstylesheet"), "alternate");
}

#[test]
fn fetch_settle_passes_and_hard_deadline() {
    assert_eq!(settle_passes(false, false, false, false, false, false), 1);
    assert_eq!(settle_passes(false, false, true, false, false, false), 1);
    assert_eq!(settle_passes(false, false, true, false, true, false), 2);
    assert_eq!(settle_passes(false, false, true, false, false, true), 2);
    assert_eq!(settle_passes(true, true, true, true, false, false), 2);
    assert_eq!(settle_passes(true, false, true, true, false, false), 1);
    assert_eq!(hard_deadline_secs(30, 5, 2), 50);
    assert_eq!(hard_deadline_secs(u64::MAX, 1, 1), u64::MAX);
    assert_eq!(hard_deadline_secs(1, u64::MAX, 2), u64::MAX);
}

#[test]
fn bare_eval_and_worker_read_timeout() {
    assert!(eval_answers_directly(false, false, false));
    assert!(!eval_answers_directly(true, false, false));
    assert!(!eval_answers_directly(false, false, true));
    assert_eq!(worker_read_timeout_secs(10), 10);
    assert_eq!(worker_read_timeout_secs(120), 30);
}
