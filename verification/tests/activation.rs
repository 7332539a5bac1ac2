use hyprwall::activation::should_take_fd;

#[test]
fn takes_fd_when_pid_matches_and_fds_available() {
    assert!(should_take_fd(Some("42"), Some("1"), 42));
}

#[test]
fn refuses_when_pid_does_not_match() {
    assert!(!should_take_fd(Some("1"), Some("1"), 42));
}

#[test]
fn refuses_when_fds_is_zero() {
    assert!(!should_take_fd(Some("42"), Some("0"), 42));
}

#[test]
fn refuses_when_either_var_is_missing() {
    assert!(!should_take_fd(None, Some("1"), 42));
    assert!(!should_take_fd(Some("42"), None, 42));
}

#[test]
fn values_are_read_as_u32_decimal_text() {
    assert!(should_take_fd(Some("+42"), Some("3"), 42), "a leading plus is accepted by u32 parsing");
    assert!(!should_take_fd(Some("42 "), Some("1"), 42), "surrounding space is not");
    assert!(!should_take_fd(Some("-1"), Some("1"), 42));
    assert!(!should_take_fd(Some("42"), Some("4294967296"), 42), "out of u32 range");
    assert!(should_take_fd(Some("4294967295"), Some("1"), u32::MAX));
}
