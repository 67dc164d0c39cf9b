use mgi_pulse::engine::record::severity::{
    from_bytes, DEBUG, ERROR, FATAL, INFO, TRACE, UNKNOWN, WARN,
};

#[test]
fn level_byte_matching() {
    assert_eq!(from_bytes(b"info"), INFO);
    assert_eq!(from_bytes(b"INFO"), INFO);
    assert_eq!(from_bytes(b"Info"), INFO);
    assert_eq!(from_bytes(b"warn"), WARN);
    assert_eq!(from_bytes(b"warning"), WARN);
    assert_eq!(from_bytes(b"error"), ERROR);
    assert_eq!(from_bytes(b"fatal"), FATAL);
    assert_eq!(from_bytes(b"trace"), TRACE);
    assert_eq!(from_bytes(b"debug"), DEBUG);
    assert_eq!(from_bytes(b"weird"), UNKNOWN);
    assert_eq!(from_bytes(b""), UNKNOWN);
    assert_eq!(from_bytes(b"DEBUGX"), UNKNOWN);
}
