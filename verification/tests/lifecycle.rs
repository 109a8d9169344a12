use procmon::control::{parse_pid, pause, resume, terminate, ControlError};
use procmon::record::{ProcessRecord, ProcessStatus, Snapshot};

fn snapshot_with(pids: &[u32]) -> Snapshot {
    let records = pids
        .iter()
        .map(|&pid| ProcessRecord {
            pid,
            parent_pid: None,
            name: format!("p{}", pid),
            memory_bytes: 1,
            cpu_centi_percent: 0,
            status: ProcessStatus::Running,
        })
        .collect();
    Snapshot::new(records)
}

// A pid far above any real process table's range: the snapshot may carry
// it, but the operating system has no such process.
const STALE_PID: u32 = 0x7FFF_FFFF;

#[test]
fn terminate_absent_pid_is_not_found() {
    let snapshot = snapshot_with(&[1, 2, 3]);
    assert_eq!(terminate(&snapshot, 12345), Err(ControlError::NotFound));
}

#[test]
fn pause_absent_pid_is_not_found() {
    let snapshot = snapshot_with(&[1]);
    assert_eq!(pause(&snapshot, 999), Err(ControlError::NotFound));
}

#[test]
fn resume_absent_pid_is_not_found() {
    let snapshot = snapshot_with(&[]);
    assert_eq!(resume(&snapshot, 1), Err(ControlError::NotFound));
}

#[test]
fn zero_pid_is_invalid_input() {
    let snapshot = snapshot_with(&[0]);
    assert_eq!(terminate(&snapshot, 0), Err(ControlError::InvalidInput));
    assert_eq!(pause(&snapshot, 0), Err(ControlError::InvalidInput));
    assert_eq!(resume(&snapshot, 0), Err(ControlError::InvalidInput));
}

#[test]
fn pid_beyond_signed_range_is_invalid_input() {
    let snapshot = snapshot_with(&[0x8000_0000]);
    assert_eq!(terminate(&snapshot, 0x8000_0000), Err(ControlError::InvalidInput));
}

#[test]
fn terminate_validated_but_exited_pid_reports_already_exited() {
    // The pid passes snapshot validation, so the signal really goes out,
    // and the operating system reports the process gone.
    let snapshot = snapshot_with(&[STALE_PID]);
    assert_eq!(terminate(&snapshot, STALE_PID), Err(ControlError::AlreadyExited));
}

#[test]
fn pause_validated_but_exited_pid_reports_already_exited() {
    let snapshot = snapshot_with(&[STALE_PID]);
    assert_eq!(pause(&snapshot, STALE_PID), Err(ControlError::AlreadyExited));
}

#[test]
fn resume_validated_but_exited_pid_reports_already_exited() {
    let snapshot = snapshot_with(&[STALE_PID]);
    assert_eq!(resume(&snapshot, STALE_PID), Err(ControlError::AlreadyExited));
}

#[test]
fn parse_pid_accepts_plain_decimal() {
    assert_eq!(parse_pid("1"), Ok(1));
    assert_eq!(parse_pid("12345"), Ok(12345));
    assert_eq!(parse_pid("0"), Ok(0));
    assert_eq!(parse_pid("4294967295"), Ok(u32::MAX));
}

#[test]
fn parse_pid_rejects_empty_and_non_numeric() {
    assert_eq!(parse_pid(""), Err(ControlError::InvalidInput));
    assert_eq!(parse_pid("12x"), Err(ControlError::InvalidInput));
    assert_eq!(parse_pid("-3"), Err(ControlError::InvalidInput));
    assert_eq!(parse_pid(" 7"), Err(ControlError::InvalidInput));
}

#[test]
fn parse_pid_rejects_overflow() {
    assert_eq!(parse_pid("4294967296"), Err(ControlError::InvalidInput));
    assert_eq!(parse_pid("99999999999999999999"), Err(ControlError::InvalidInput));
}
