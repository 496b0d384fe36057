use logger_ms::publish::{
    round_key, step, step_at, PublishAction, PublishEvent, PublishPhase, RoundNote,
    POLL_INTERVAL_SECS,
};
use logger_ms::collector::{assemble_batch, ProcessRead};
use logger_ms::syscall::SyscallInfo;

#[test]
fn key_of_round_start() {
    assert_eq!(round_key(1700000000), "syscalls:1700000000");
    assert_eq!(round_key(0), "syscalls:0");
    assert_eq!(round_key(-5), "syscalls:-5");
    assert_eq!(round_key(i64::MIN), "syscalls:-9223372036854775808");
}

#[test]
fn pid_42_written_under_time_key() {
    let batch = assemble_batch(&vec![ProcessRead {
        pid: 42,
        content: Some("3 0x1 0x2 0x3 0x4 0x5 0x6\n".to_string()),
    }]);
    assert_eq!(batch.len(), 1);
    assert_eq!(batch[0].pid, 42);
    assert_eq!(batch[0].syscall_line, "3 0x1 0x2 0x3 0x4 0x5 0x6");
    let (phase, action) =
        step_at(PublishPhase::Collecting, &PublishEvent::Collected { batch }, 1700000000);
    assert_eq!(phase, PublishPhase::Publishing { count: 1 });
    match action {
        PublishAction::Write { key, value } => {
            assert_eq!(key, "syscalls:1700000000");
            assert_eq!(value, r#"[{"pid":42,"syscallLine":"3 0x1 0x2 0x3 0x4 0x5 0x6"}]"#);
        }
        _ => panic!("expected a write"),
    }
}

#[test]
fn empty_batch_is_not_written() {
    let (phase, action) =
        step_at(PublishPhase::Collecting, &PublishEvent::Collected { batch: vec![] }, 1700000000);
    assert_eq!(phase, PublishPhase::Sleeping);
    assert!(matches!(
        action,
        PublishAction::Sleep { seconds: 30, note: RoundNote::NothingCollected }
    ));
}

#[test]
fn failed_write_sleeps_then_collects() {
    let (phase, action) = step_at(
        PublishPhase::Publishing { count: 3 },
        &PublishEvent::StoreReplied { ok: false },
        1,
    );
    assert_eq!(phase, PublishPhase::Sleeping);
    assert!(matches!(
        action,
        PublishAction::Sleep { seconds: POLL_INTERVAL_SECS, note: RoundNote::StoreWriteFailed { count: 3 } }
    ));
    let (phase, action) = step_at(phase, &PublishEvent::Woke, 31);
    assert_eq!(phase, PublishPhase::Collecting);
    assert!(matches!(action, PublishAction::Collect));
}

#[test]
fn successful_write_reports_count() {
    let (phase, action) = step_at(
        PublishPhase::Publishing { count: 2 },
        &PublishEvent::StoreReplied { ok: true },
        1,
    );
    assert_eq!(phase, PublishPhase::Sleeping);
    assert!(matches!(
        action,
        PublishAction::Sleep { seconds: 30, note: RoundNote::Published { count: 2 } }
    ));
}

#[test]
fn phase_accepts_only_its_event() {
    assert!(PublishPhase::Collecting.accepts(&PublishEvent::Collected { batch: vec![] }));
    assert!(!PublishPhase::Collecting.accepts(&PublishEvent::Woke));
    assert!(PublishPhase::Sleeping.accepts(&PublishEvent::Woke));
    assert!(PublishPhase::Publishing { count: 1 }.accepts(&PublishEvent::StoreReplied { ok: true }));
    assert!(!PublishPhase::Sleeping.accepts(&PublishEvent::StoreReplied { ok: true }));
}

#[test]
fn clock_step_writes_a_time_key() {
    let batch = vec![SyscallInfo { pid: 9, syscall_line: "0 0x0".to_string() }];
    let (_, action) = step(PublishPhase::Collecting, &PublishEvent::Collected { batch });
    match action {
        PublishAction::Write { key, value } => {
            let secs: i64 = key.strip_prefix("syscalls:").unwrap().parse().unwrap();
            assert!(secs > 1_600_000_000);
            assert_eq!(value, r#"[{"pid":9,"syscallLine":"0 0x0"}]"#);
        }
        _ => panic!("expected a write"),
    }
}
