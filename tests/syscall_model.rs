use logger_ms::codec::encode_batch;
use logger_ms::syscall::SyscallInfo;

#[test]
fn test_syscall_info_creation() {
    let s = SyscallInfo {
        pid: 100,
        syscall_line: "read".to_string(),
    };
    assert_eq!(s.pid, 100);
}

#[test]
fn test_syscall_info_serialization() {
    let s = SyscallInfo {
        pid: 1,
        syscall_line: "write".into(),
    };
    let json = encode_batch(&vec![s]);
    assert!(json.contains("\"pid\":1"));
}
