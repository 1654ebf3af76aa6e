use rediss::logger::RequestLogger;
use rediss::resp_codec::RespStreamError;

#[test]
fn logger_wraps_and_returns_its_service() {
    let mut wrapper = RequestLogger::new(41u32);
    assert_eq!(*wrapper.get_ref(), 41);

    *wrapper.get_mut() = 42;
    assert_eq!(*wrapper.get_ref(), 42);
    assert_eq!(wrapper.into_inner(), 42);
}

#[test]
fn stream_error_keeps_the_io_message() {
    let e = RespStreamError::io_error(String::from("connection reset by peer"));
    assert!(matches!(
        e.kind,
        rediss::resp_codec::RespStreamErrorKind::IoError
    ));
    assert_eq!(e.message, "connection reset by peer");
}
