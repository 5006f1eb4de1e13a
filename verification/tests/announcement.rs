use nailgun::announcement::announced_port;

#[test]
fn reads_the_port_of_a_ready_line() {
    assert_eq!(
        announced_port(b"NGServer 0.9.1 started on all interfaces, port 2113."),
        Some(2113)
    );
    assert_eq!(announced_port(b" port 1."), Some(1));
    assert_eq!(announced_port(b"x port 65535."), Some(65535));
}

#[test]
fn leading_zeros_are_read_over() {
    assert_eq!(announced_port(b"started, port 0080."), Some(80));
}

#[test]
fn port_zero_is_no_port() {
    assert_eq!(announced_port(b"started, port 0."), None);
    assert_eq!(announced_port(b"started, port 000."), None);
}

#[test]
fn lines_that_announce_nothing() {
    assert_eq!(announced_port(b""), None);
    assert_eq!(announced_port(b"."), None);
    assert_eq!(announced_port(b"port 2113."), None);
    assert_eq!(announced_port(b" port 2113"), None);
    assert_eq!(announced_port(b" port ."), None);
    assert_eq!(announced_port(b" port 21x3."), None);
    assert_eq!(announced_port(b" port  2113."), None);
    assert_eq!(announced_port(b" Port 2113."), None);
    assert_eq!(announced_port(b"report 2113."), None);
    assert_eq!(announced_port(b" port 2113.\n"), None);
    assert_eq!(announced_port(b" port -1."), None);
    assert_eq!(announced_port(b"2113."), None);
}

#[test]
fn only_the_last_run_of_digits_counts() {
    assert_eq!(announced_port(b" port 1 port 22."), Some(22));
    assert_eq!(announced_port(b" port 12 34."), None);
}

#[test]
fn a_number_too_large_to_hold_is_no_port() {
    assert_eq!(
        announced_port(b" port 99999999999999999999999999999999999999."),
        None
    );
    let largest = format!(" port {}.", usize::MAX);
    assert_eq!(announced_port(largest.as_bytes()), Some(usize::MAX));
    let beyond = format!(" port {}0.", usize::MAX);
    assert_eq!(announced_port(beyond.as_bytes()), None);
}
