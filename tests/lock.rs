use git_shadow::error::ShadowError;
use git_shadow::lock::{
    acquire_lock, check_lock, lock_content, parse_lock, parse_u32, AcquireStep, LockStatus,
};

const MY_PID: u32 = 4242;

fn alive_only_init(pid: u32) -> bool {
    pid == 1 || pid == MY_PID
}

#[test]
fn test_check_lock_free() {
    let status = check_lock(None, MY_PID, alive_only_init).unwrap();
    assert!(matches!(status, LockStatus::Free));
}

#[test]
fn test_acquire_and_check_held_by_us() {
    let text = match acquire_lock(None, MY_PID, alive_only_init).unwrap() {
        AcquireStep::Write(t) => t,
        AcquireStep::AlreadyHeld => panic!("no lockfile was there"),
    };
    let status = check_lock(Some(&text), MY_PID, alive_only_init).unwrap();
    assert!(matches!(status, LockStatus::HeldByUs));
}

#[test]
fn test_stale_lock_detection() {
    let content = "pid=999999\ntimestamp=2026-02-07T12:00:00+00:00";
    let status = check_lock(Some(content), MY_PID, alive_only_init).unwrap();
    assert!(matches!(status, LockStatus::Stale(ref i) if i.pid == 999999));
}

#[test]
fn test_lock_file_format() {
    let text = match acquire_lock(None, MY_PID, alive_only_init).unwrap() {
        AcquireStep::Write(t) => t,
        AcquireStep::AlreadyHeld => panic!("no lockfile was there"),
    };
    assert!(text.starts_with("pid=4242\ntimestamp="));
    let info = parse_lock(&text).unwrap();
    assert_eq!(info.pid, MY_PID);
}

#[test]
fn test_parse_lock_content() {
    let content = "pid=12345\ntimestamp=2026-02-07T12:00:00+00:00";
    let info = parse_lock(content).unwrap();
    assert_eq!(info.pid, 12345);
    assert_eq!(info.timestamp, "2026-02-07T12:00:00+00:00");
}

#[test]
fn test_acquire_lock_fails_on_live_other_process() {
    let content = "pid=1\ntimestamp=2026-02-07T12:00:00+00:00";
    let result = acquire_lock(Some(content), MY_PID, alive_only_init);
    assert!(matches!(result, Err(ShadowError::LockHeld { pid: 1, .. })));
}

#[test]
fn stale_lock_needs_explicit_restore() {
    let content = "pid=999999\ntimestamp=2026-02-07T12:00:00+09:00";
    let result = acquire_lock(Some(content), MY_PID, alive_only_init);
    assert!(matches!(result, Err(ShadowError::StaleLock(999999))));
    // a restore removes the lockfile; the next acquire writes a fresh one
    let result = acquire_lock(None, MY_PID, alive_only_init);
    assert!(matches!(result, Ok(AcquireStep::Write(ref t)) if t.starts_with("pid=4242\n")));
}

#[test]
fn second_process_cannot_take_the_lock() {
    let text = match acquire_lock(None, 100, |p| p == 100 || p == 200).unwrap() {
        AcquireStep::Write(t) => t,
        AcquireStep::AlreadyHeld => panic!("no lockfile was there"),
    };
    let other = acquire_lock(Some(&text), 200, |p| p == 100 || p == 200);
    assert!(matches!(other, Err(ShadowError::LockHeld { pid: 100, .. })));
    let again = acquire_lock(Some(&text), 100, |p| p == 100 || p == 200);
    assert!(matches!(again, Ok(AcquireStep::AlreadyHeld)));
}

#[test]
fn timestamp_is_read_back_in_utc() {
    let info = parse_lock("timestamp=2026-02-07T21:00:00+09:00\npid=7\n").unwrap();
    assert_eq!(info.pid, 7);
    assert_eq!(info.timestamp, "2026-02-07T12:00:00+00:00");
}

#[test]
fn malformed_lockfiles_are_invalid() {
    for c in [
        "",
        "pid=12x\ntimestamp=2026-02-07T12:00:00+00:00",
        "pid=1",
        "timestamp=2026-02-07T12:00:00+00:00",
        "pid=1\ntimestamp=yesterday",
        "pid=4294967296\ntimestamp=2026-02-07T12:00:00+00:00",
    ] {
        assert!(matches!(parse_lock(c), Err(ShadowError::InvalidLock(_))), "{:?}", c);
    }
    assert!(matches!(check_lock(Some("garbage"), MY_PID, alive_only_init), Err(ShadowError::InvalidLock(_))));
}

#[test]
fn unparsable_lockfile_is_overwritten_on_acquire() {
    let r = acquire_lock(Some("garbage"), MY_PID, alive_only_init);
    assert!(matches!(r, Ok(AcquireStep::Write(_))));
}

#[test]
fn decimal_parsing_follows_u32_from_str() {
    assert_eq!(parse_u32("0"), Some(0));
    assert_eq!(parse_u32("+17"), Some(17));
    assert_eq!(parse_u32("4294967295"), Some(u32::MAX));
    assert_eq!(parse_u32("4294967296"), None);
    assert_eq!(parse_u32(""), None);
    assert_eq!(parse_u32("+"), None);
    assert_eq!(parse_u32("-1"), None);
    assert_eq!(parse_u32(" 1"), None);
}

#[test]
fn lock_content_layout() {
    assert_eq!(lock_content(12345, "T"), "pid=12345\ntimestamp=T");
    assert_eq!(lock_content(0, "T"), "pid=0\ntimestamp=T");
}
