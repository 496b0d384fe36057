use logger_ms::collector::{
    assemble_batch, pid_from_entry_name, snapshot_from_trimmed, snapshot_of, syscall_state_path,
    ProcessRead,
};

fn read(pid: i32, content: Option<&str>) -> ProcessRead {
    ProcessRead { pid, content: content.map(|c| c.to_string()) }
}

#[test]
fn readable_pid_gives_trimmed_snapshot() {
    let batch = assemble_batch(&vec![read(42, Some("3 0x1 0x2 0x3 0x4 0x5 0x6\n"))]);
    assert_eq!(batch.len(), 1);
    assert_eq!(batch[0].pid, 42);
    assert_eq!(batch[0].syscall_line, "3 0x1 0x2 0x3 0x4 0x5 0x6");
}

#[test]
fn missing_path_is_left_out() {
    let batch = assemble_batch(&vec![read(10, None), read(11, Some("running\n"))]);
    assert_eq!(batch.len(), 1);
    assert_eq!(batch[0].pid, 11);
    assert_eq!(batch[0].syscall_line, "running");
}

#[test]
fn unreadable_pid_never_in_batch() {
    let batch = assemble_batch(&vec![
        read(5, None),
        read(6, Some("0 0x0")),
        read(7, None),
        read(8, Some("-1 0x7ffd 0x0")),
    ]);
    assert_eq!(batch.len(), 2);
    assert!(batch.iter().all(|s| s.pid != 5 && s.pid != 7));
}

#[test]
fn every_snapshot_is_valid() {
    let batch = assemble_batch(&vec![
        read(0, Some("1 0x2")),
        read(-4, Some("1 0x2")),
        read(3, Some("   \n")),
        read(9, Some("")),
        read(12, Some(" 61 0x1 \t")),
    ]);
    assert_eq!(batch.len(), 1);
    assert!(batch.iter().all(|s| s.pid > 0 && !s.syscall_line.is_empty()));
    assert_eq!(batch[0].syscall_line, "61 0x1");
}

#[test]
fn empty_reads_give_empty_batch() {
    assert!(assemble_batch(&vec![]).is_empty());
}

#[test]
fn snapshot_of_trims_content() {
    let s = snapshot_of(&read(99, Some("\n  running  \n"))).unwrap();
    assert_eq!(s.syscall_line, "running");
    assert!(snapshot_of(&read(99, None)).is_none());
}

#[test]
fn snapshot_from_trimmed_rules() {
    assert!(snapshot_from_trimmed(1, "x".to_string()).is_some());
    assert!(snapshot_from_trimmed(0, "x".to_string()).is_none());
    assert!(snapshot_from_trimmed(1, String::new()).is_none());
}

#[test]
fn state_path_of_pid() {
    assert_eq!(syscall_state_path(42), "/proc/42/syscall");
    assert_eq!(syscall_state_path(1), "/proc/1/syscall");
    assert_eq!(syscall_state_path(2147483647), "/proc/2147483647/syscall");
}

#[test]
fn entry_names_to_pids() {
    assert_eq!(pid_from_entry_name("42"), Some(42));
    assert_eq!(pid_from_entry_name("self"), None);
    assert_eq!(pid_from_entry_name(""), None);
    assert_eq!(pid_from_entry_name("0"), None);
    assert_eq!(pid_from_entry_name("-3"), None);
    assert_eq!(pid_from_entry_name("2147483648"), None);
    assert_eq!(pid_from_entry_name("+17"), Some(17));
}
