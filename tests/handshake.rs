use ferrodb::protocol::{
    answer, hello_line, read_hello, Ping, Pong, PreambleError, Transport, UnknownTransport,
    DEFAULT_PORT, PROTOCOL_VERSION,
};

#[test]
fn preamble_handshake() {
    assert_eq!(read_hello("HELLO FERRODB json\n"), Ok(Transport::Json));
    assert_eq!(answer(&Ping { protocol_version: 0 }), Pong::Accepted);
    assert_eq!(answer(&Ping { protocol_version: 99 }), Pong::WrongProtocol);
    assert_eq!(PROTOCOL_VERSION, 0);
    assert_eq!(DEFAULT_PORT, 1337);
}

#[test]
fn preamble_names_each_transport() {
    assert_eq!(read_hello("HELLO FERRODB bincode"), Ok(Transport::Bincode));
    assert_eq!(read_hello("HELLO FERRODB ron\n"), Ok(Transport::Ron));
    assert_eq!(read_hello("  HELLO FERRODB ron \r\n"), Ok(Transport::Ron));
}

#[test]
fn preamble_transport_in_any_case() {
    assert_eq!(read_hello("HELLO FERRODB JSON\n"), Ok(Transport::Json));
    assert_eq!(Transport::parse("BinCode"), Ok(Transport::Bincode));
}

#[test]
fn preamble_errors() {
    assert_eq!(read_hello("HELO FERRODB json"), Err(PreambleError::MissingPreamble));
    assert_eq!(read_hello(""), Err(PreambleError::MissingPreamble));
    assert_eq!(
        read_hello("HELLO FERRODB xml\n"),
        Err(PreambleError::Unknown(UnknownTransport("xml".to_string())))
    );
    assert_eq!(
        Transport::parse("yaml"),
        Err(UnknownTransport("yaml".to_string()))
    );
}

#[test]
fn transport_names_round_trip() {
    for t in [Transport::Json, Transport::Bincode, Transport::Ron] {
        assert_eq!(Transport::from_lowercase(t.name()), Some(t));
        let line = hello_line(t);
        assert_eq!(read_hello(line), Ok(t));
    }
    assert_eq!(hello_line(Transport::Json), "HELLO FERRODB json\n");
    assert_eq!(Transport::from_lowercase("JSON"), None);
}

#[test]
fn stream_keeps_transport_and_connection() {
    let s = Transport::Ron.stream(vec![1u8, 2]);
    assert_eq!(s.transport, Transport::Ron);
    assert_eq!(s.conn, vec![1u8, 2]);
}
