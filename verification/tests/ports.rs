use cachex::ports::listening_pid;

const LISTING: &str = "Active Connections\r
\r
  Proto  Local Address          Foreign Address        State           PID\r
  TCP    0.0.0.0:17001          0.0.0.0:0              LISTENING       999\r
  TCP    127.0.0.1:7001         127.0.0.1:50000        ESTABLISHED     111\r
  TCP    127.0.0.1:7001         0.0.0.0:0              LISTENING       4242\r
  TCP    127.0.0.1:7002         0.0.0.0:0              LISTENING       notapid\r
  TCP    127.0.0.1:7002         0.0.0.0:0              LISTENING       77\r
";

#[test]
fn finds_the_listener_on_a_port() {
    assert_eq!(listening_pid(LISTING, 7001), Some(4242));
    assert_eq!(listening_pid(LISTING, 17001), Some(999));
}

#[test]
fn skips_lines_without_a_pid() {
    assert_eq!(listening_pid(LISTING, 7002), Some(77));
}

#[test]
fn no_listener_is_none() {
    assert_eq!(listening_pid(LISTING, 7003), None);
    assert_eq!(listening_pid("", 7001), None);
    assert_eq!(listening_pid("TCP 127.0.0.1:7001 LISTENING", 7001), None);
    assert_eq!(listening_pid("TCP 127.0.0.1:7001 0.0.0.0:0 LISTENING 4294967296", 7001), None);
    assert_eq!(listening_pid("TCP 127.0.0.1:7001 0.0.0.0:0 LISTENING +12", 7001), Some(12));
}
