use vardel::{written, Error};

#[test]
fn messages() {
    assert_eq!(Error::BufferTooSmall.message(), "output buffer is too small");
    assert_eq!(Error::InvalidVarInt.message(), "invalid var int: no terminator byte found");
    let cause = std::io::Error::new(std::io::ErrorKind::Other, "disk on fire");
    assert_eq!(Error::IoError(cause).message(), "io error: disk on fire");
}

#[test]
fn a_sink_that_took_the_bytes() {
    assert!(matches!(written(0, Ok(())), Ok(0)));
    assert!(matches!(written(17, Ok(())), Ok(17)));
    assert!(matches!(written(usize::MAX, Ok(())), Ok(usize::MAX)));
}

#[test]
fn a_sink_that_refused() {
    let cause = std::io::Error::new(std::io::ErrorKind::WriteZero, "no room");
    match written(17, Err(cause)) {
        Err(Error::IoError(e)) => {
            assert_eq!(e.kind(), std::io::ErrorKind::WriteZero);
            assert_eq!(format!("{}", e), "no room");
        },
        other => panic!("the sink's failure got lost: {:?}", other),
    }
}

#[test]
fn errors_can_be_printed_for_debugging() {
    assert_eq!(format!("{:?}", Error::BufferTooSmall), "BufferTooSmall");
    assert_eq!(format!("{:?}", Error::InvalidVarInt), "InvalidVarInt");
}
