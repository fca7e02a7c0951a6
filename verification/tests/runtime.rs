use obscura::module_activity::ModuleLoadActivity;
use obscura::runtime::ObscuraJsRuntime;
use obscura::watchdog::{arm, disarm, watchdog_loop, WatchdogState};

#[test]
fn fingerprint_profile_script_publishes_and_copies() {
    let mut rt = ObscuraJsRuntime::new();
    assert_eq!(rt.copy_fingerprint_profile_to_realm(), None);
    let script = rt.set_fingerprint_profile("{\"gpu\":\"x\"}");
    assert_eq!(script, "globalThis.__obscura_fingerprint_profile={\"gpu\":\"x\"};");
    assert_eq!(rt.copy_fingerprint_profile_to_realm().as_deref(), Some(script.as_str()));
}

#[test]
fn watchdog_fires_overrun_commands_only() {
    let mut w = WatchdogState::new();
    let a = arm(&mut w, 100, 50);
    let b = arm(&mut w, 100, 500);
    assert_eq!(a.gen, 1);
    assert_eq!(b.gen, 2);
    let tick = watchdog_loop(&mut w, 120);
    assert!(tick.expired.is_empty());
    assert_eq!(tick.wait, Some(30));
    let tick = watchdog_loop(&mut w, 150);
    assert_eq!(tick.expired, vec![1]);
    assert_eq!(tick.wait, Some(450));
    assert!(disarm(&mut w, a));
    assert!(!disarm(&mut w, b));
    let tick = watchdog_loop(&mut w, 10_000);
    assert!(tick.expired.is_empty());
    assert_eq!(tick.wait, None);
}

#[test]
fn watchdog_does_not_fire_twice() {
    let mut w = WatchdogState::new();
    let a = arm(&mut w, 0, 10);
    assert_eq!(watchdog_loop(&mut w, 10).expired, vec![1]);
    let tick = watchdog_loop(&mut w, 20);
    assert!(tick.expired.is_empty());
    assert_eq!(tick.wait, None);
    assert!(disarm(&mut w, a));
}

#[test]
fn module_activity_grace_window() {
    let mut m = ModuleLoadActivity::new();
    assert!(!m.is_pending_or_recent(0, 100));
    let g = m.begin(1_000);
    assert!(m.is_pending_or_recent(50_000, 0));
    m.end(g, 2_000);
    assert!(m.is_pending_or_recent(2_100, 100));
    assert!(!m.is_pending_or_recent(2_101, 100));
    assert!(m.is_pending_or_recent(1_500, 0));
}
