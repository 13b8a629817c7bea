use appctrl::registry::Registry;
use appctrl::relay::{LineRelay, Stream};
use appctrl::supervisor::{
    admit_start, exit_line, external_stopped_line, failure_line, record_spawn, settle_watch,
    stop_by_name_outcome, stop_plan, stopped_by_user_line, Poll, StopPlan, SupervisorError,
    WatchStep,
};

#[test]
fn second_start_is_refused_and_one_entry_remains() {
    let mut reg: Registry<u32> = Registry::new();
    assert!(admit_start(&reg, "app").is_ok());
    let line = record_spawn(&mut reg, "app", "run.sh", Ok(7)).unwrap();
    assert_eq!(line, "✓ Started: run.sh");
    assert_eq!(admit_start(&reg, "app"), Err(SupervisorError::AlreadyRunning));
    assert!(reg.try_insert("app", 8).is_err());
    assert_eq!(reg.len(), 1);
    assert!(reg.is_running("app"));
}

#[test]
fn stop_of_unknown_id_is_not_running() {
    let mut reg: Registry<u32> = Registry::new();
    assert!(!reg.is_running("ghost"));
    match stop_plan(&mut reg, "ghost", None) {
        StopPlan::NotRunning => {}
        _ => panic!("expected NotRunning"),
    }
    assert_eq!(SupervisorError::NotRunning.message(), "App is not running");
    assert!(!reg.is_running("ghost"));
}

#[test]
fn stop_of_registered_id_takes_the_handle() {
    let mut reg: Registry<u32> = Registry::new();
    reg.try_insert("a", 1).unwrap();
    reg.try_insert("b", 2).unwrap();
    match stop_plan(&mut reg, "a", Some("/opt/a.exe")) {
        StopPlan::KillHandle(h) => assert_eq!(h, 1),
        _ => panic!("expected KillHandle"),
    }
    assert!(!reg.is_running("a"));
    assert!(reg.is_running("b"));
    assert_eq!(stopped_by_user_line(), "■ Process stopped by user");
}

#[test]
fn stop_with_hint_kills_by_file_name() {
    let mut reg: Registry<u32> = Registry::new();
    match stop_plan(&mut reg, "x", Some("/opt/tools/server.exe")) {
        StopPlan::KillByName(n) => assert_eq!(n, "server.exe"),
        _ => panic!("expected KillByName"),
    }
    assert_eq!(stop_by_name_outcome(true), Ok(()));
    assert_eq!(stop_by_name_outcome(false), Err(SupervisorError::NotRunning));
    assert_eq!(external_stopped_line("server.exe"), "■ External process server.exe stopped");
}

#[test]
fn exit_with_code_zero_round_trip() {
    let mut reg: Registry<u32> = Registry::new();
    record_spawn(&mut reg, "x", "true", Ok(1)).unwrap();
    let h = reg.remove("x").unwrap();
    let step = settle_watch(&mut reg, "x", h, Poll::Exited(Some(0)));
    assert_eq!(step, WatchStep::Exited { line: "✓ Process exited successfully".to_string() });
    assert_eq!(reg.len(), 0);
    assert!(reg.remove("x").is_none());
    assert!(admit_start(&reg, "x").is_ok());
}

#[test]
fn exit_with_nonzero_code_is_worded_apart() {
    assert_eq!(exit_line(Some(3)), "⚠ Process exited with code: 3");
    assert_eq!(exit_line(Some(-1073741510)), "⚠ Process exited with code: -1073741510");
    assert_eq!(exit_line(None), "⚠ Process exited with code: -1");
    assert_eq!(exit_line(Some(0)), "✓ Process exited successfully");
    let mut reg: Registry<u32> = Registry::new();
    let step = settle_watch(&mut reg, "x", 5, Poll::Exited(Some(2)));
    assert!(matches!(step, WatchStep::Exited { .. }));
    assert_eq!(reg.len(), 0);
}

#[test]
fn running_poll_puts_the_handle_back() {
    let mut reg: Registry<u32> = Registry::new();
    let step = settle_watch(&mut reg, "x", 5, Poll::Running);
    assert_eq!(step, WatchStep::KeepWatching);
    assert!(reg.is_running("x"));
    let step = settle_watch(&mut reg, "y", 6, Poll::Failed);
    assert_eq!(step, WatchStep::Lost);
    assert!(!reg.is_running("y"));
}

#[test]
fn stop_racing_exit_reports_once() {
    let mut reg: Registry<u32> = Registry::new();
    record_spawn(&mut reg, "x", "cmd", Ok(9)).unwrap();
    // the stop takes the entry first
    assert!(matches!(stop_plan(&mut reg, "x", None), StopPlan::KillHandle(9)));
    // the watcher then finds nothing and leaves silently
    assert!(reg.remove("x").is_none());
    assert_eq!(reg.len(), 0);
    // the other order: the watcher settles an exit, then the stop finds nothing
    record_spawn(&mut reg, "x", "cmd", Ok(10)).unwrap();
    let h = reg.remove("x").unwrap();
    assert!(matches!(settle_watch(&mut reg, "x", h, Poll::Exited(Some(0))), WatchStep::Exited { .. }));
    assert!(matches!(stop_plan(&mut reg, "x", None), StopPlan::NotRunning));
    assert_eq!(reg.len(), 0);
}

#[test]
fn spawn_failure_registers_nothing() {
    let mut reg: Registry<u32> = Registry::new();
    let r = record_spawn(&mut reg, "x", "nope", Err("No such file".to_string()));
    let e = r.unwrap_err();
    assert_eq!(e, SupervisorError::SpawnError("No such file".to_string()));
    assert_eq!(e.message(), "Failed to start: No such file");
    assert_eq!(failure_line(&e), "❌ Failed to start: No such file");
    assert_eq!(reg.len(), 0);
    assert_eq!(SupervisorError::AlreadyRunning.message(), "App is already running");
}

#[test]
fn stdout_lines_keep_their_order() {
    let mut relay = LineRelay::new(Stream::Stdout);
    let out = relay.feed(b"A\nB\nC\n");
    assert_eq!(out, vec!["A".to_string(), "B".to_string(), "C".to_string()]);
    assert_eq!(relay.finish(), None);
}

#[test]
fn relay_joins_chunks_and_skips_bad_lines() {
    let mut relay = LineRelay::new(Stream::Stderr);
    assert!(relay.feed(b"par").is_empty());
    let out = relay.feed(b"t one\r\n\xff\xfe\nsecond\nrest");
    assert_eq!(out, vec!["[stderr] part one".to_string(), "[stderr] second".to_string()]);
    assert_eq!(relay.finish(), Some("[stderr] rest".to_string()));
}
