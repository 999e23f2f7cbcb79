use quote_client::error::ParserError;
use quote_client::model::command::Command;
use quote_client::model::quote::Quote;
use quote_client::receiver::{receive_step, Reaction};
use quote_client::sender::{Beat, CommandSender, KeepaliveAction, INTERVAL_MS};
use quote_client::transport::{ReadOutcome, SendOutcome, TransportError, TransportFault};

fn datagram(ticker: &str, price: f64, volume: u64) -> Vec<u8> {
    bincode::encode_to_vec((ticker.to_string(), price, volume), bincode::config::standard())
        .unwrap()
}

fn failure(fault: TransportFault, detail: &str) -> TransportError {
    TransportError { fault, detail: detail.to_string() }
}

fn line(q: &Quote) -> String {
    format!(
        "QUOTE RECEIVED: Ticker={} Price={:.4} Volume={}",
        q.ticker,
        f64::from_bits(q.price_bits),
        q.volume
    )
}

#[test]
fn a_quote_is_printed() {
    match receive_step(ReadOutcome::Data(datagram("IBM", 123.4567, 100))) {
        Reaction::Print(q) => {
            assert_eq!(q.ticker, "IBM");
            assert_eq!(q.volume, 100);
            assert_eq!(line(&q), "QUOTE RECEIVED: Ticker=IBM Price=123.4567 Volume=100");
        }
        _ => panic!("expected a quote"),
    }
}

#[test]
fn control_echoes_are_not_printed() {
    for ticker in ["PING", "J_QUOTE"] {
        for (price, volume) in [(0.0, 0), (123.4567, 100), (-1.0, u64::MAX), (f64::NAN, 65_536)] {
            let r = receive_step(ReadOutcome::Data(datagram(ticker, price, volume)));
            assert!(matches!(r, Reaction::Ignore));
        }
    }
}

#[test]
fn tickers_that_only_look_like_echoes_are_printed() {
    for ticker in ["PINGS", "ping", "J_QUOT", "QUOTE"] {
        let r = receive_step(ReadOutcome::Data(datagram(ticker, 1.0, 1)));
        assert!(matches!(r, Reaction::Print(_)));
    }
}

#[test]
fn noise_does_not_end_the_loop() {
    let arrivals = vec![
        ReadOutcome::Data(vec![0xff, 0x00, 0x13]),
        ReadOutcome::Data(Vec::new()),
        ReadOutcome::Data(vec![3, b'I', b'B']),
        ReadOutcome::Data(datagram("IBM", 123.4567, 100)),
    ];
    let mut printed = Vec::new();
    for arrival in arrivals {
        match receive_step(arrival) {
            Reaction::Print(q) => printed.push(line(&q)),
            Reaction::Ignore => {}
            Reaction::Stop(e) => panic!("the loop ended: {:?}", e),
        }
    }
    assert_eq!(printed, vec!["QUOTE RECEIVED: Ticker=IBM Price=123.4567 Volume=100"]);
}

#[test]
fn a_reset_on_read_is_passed_over() {
    let r = receive_step(ReadOutcome::Failed(failure(TransportFault::ConnectionReset, "reset")));
    assert!(matches!(r, Reaction::Ignore));
    let r = receive_step(ReadOutcome::Data(datagram("IBM", 1.0, 1)));
    assert!(matches!(r, Reaction::Print(_)));
}

#[test]
fn another_failure_on_read_ends_the_loop() {
    for fault in [TransportFault::Other, TransportFault::InvalidAddress] {
        match receive_step(ReadOutcome::Failed(failure(fault, "broken pipe"))) {
            Reaction::Stop(ParserError::Io(m)) => assert_eq!(m, "broken pipe"),
            _ => panic!("expected the loop to end"),
        }
    }
}

#[test]
fn one_shot_send_reports_the_transport() {
    assert!(CommandSender::conclude(SendOutcome::Sent).is_ok());
    for fault in
        [TransportFault::Other, TransportFault::ConnectionReset, TransportFault::InvalidAddress]
    {
        match CommandSender::conclude(SendOutcome::Failed(failure(fault, "unreachable"))) {
            Err(ParserError::Io(m)) => assert_eq!(m, "unreachable"),
            _ => panic!("expected an I/O error"),
        }
    }
}

#[test]
fn the_datagram_is_the_wire_form() {
    let c = Command::new_ping("h", "9");
    assert_eq!(CommandSender::datagram(&c).unwrap(), c.encode().unwrap());
    assert_eq!(Command::decode(&CommandSender::datagram(&c).unwrap()).unwrap(), c);
}

#[test]
fn a_beat_carries_the_keepalive_command() {
    let ping = Command::new_ping("10.0.0.7", "4000");
    for _ in 0..3 {
        match CommandSender::beat(&ping) {
            Beat::Transmit(bytes) => {
                let sent = Command::decode(&bytes).unwrap();
                assert_eq!(sent.header, "PING");
                assert!(sent.tickers.is_empty());
                assert_eq!(sent, ping);
            }
            Beat::Skip(_) => panic!("expected a datagram"),
        }
    }
}

#[test]
fn a_beat_that_cannot_be_encoded_is_skipped() {
    match CommandSender::beat_of(Err(ParserError::Format("no room".to_string()))) {
        Beat::Skip(line) => assert_eq!(line, "failed to encode PING: Format error: no room"),
        Beat::Transmit(_) => panic!("expected the beat to be skipped"),
    }
    match CommandSender::beat_of(Ok(vec![1, 2])) {
        Beat::Transmit(bytes) => assert_eq!(bytes, vec![1, 2]),
        Beat::Skip(_) => panic!("expected a datagram"),
    }
}

#[test]
fn the_interval_is_two_seconds() {
    assert_eq!(INTERVAL_MS, 2000);
}

#[test]
fn a_sent_beat_is_followed_by_a_pause() {
    let action = CommandSender::after_beat("s:8080", SendOutcome::Sent);
    assert!(matches!(action, KeepaliveAction::Wait));
}

#[test]
fn a_failed_beat_is_logged_and_the_loop_goes_on() {
    for fault in [TransportFault::ConnectionReset, TransportFault::Other] {
        let outcome = SendOutcome::Failed(failure(fault, "connection reset"));
        match CommandSender::after_beat("s:8080", outcome) {
            KeepaliveAction::LogAndWait(line) => {
                assert_eq!(line, "failed to send PING to s:8080: connection reset")
            }
            _ => panic!("expected the loop to go on"),
        }
    }
}

#[test]
fn a_malformed_target_ends_the_keepalive_loop() {
    let outcome = SendOutcome::Failed(failure(TransportFault::InvalidAddress, "invalid address"));
    match CommandSender::after_beat("nowhere", outcome) {
        KeepaliveAction::LogAndStop(line) => {
            assert_eq!(line, "failed to send PING to nowhere: invalid address")
        }
        _ => panic!("expected the loop to end"),
    }
}

#[test]
fn only_a_reset_is_transient() {
    assert!(failure(TransportFault::ConnectionReset, "").transient());
    assert!(!failure(TransportFault::InvalidAddress, "").transient());
    assert!(!failure(TransportFault::Other, "").transient());
}

#[test]
fn every_beat_has_the_same_bytes() {
    let ping = Command::new_ping("10.0.0.7", "4000");
    let first = match CommandSender::beat(&ping) {
        Beat::Transmit(bytes) => bytes,
        Beat::Skip(_) => panic!("expected a datagram"),
    };
    assert_eq!(first, ping.encode().unwrap());
    for _ in 0..100 {
        match CommandSender::beat(&ping) {
            Beat::Transmit(bytes) => assert_eq!(bytes, first),
            Beat::Skip(_) => panic!("expected a datagram"),
        }
        let action = CommandSender::after_beat("s:8080", SendOutcome::Sent);
        assert!(matches!(action, KeepaliveAction::Wait));
    }
}

#[test]
fn every_command_has_a_datagram() {
    let long = "x".repeat(100_000);
    for c in [Command::new("", "", Vec::new()), Command::new(&long, &long, Vec::new())] {
        assert!(CommandSender::datagram(&c).is_ok());
        assert!(c.encode().is_ok());
    }
}

#[test]
fn a_failed_read_is_an_io_error() {
    let broken = TransportError { fault: TransportFault::Other, detail: "broken pipe".to_string() };
    match receive_step(ReadOutcome::Failed(broken)) {
        Reaction::Stop(e) => {
            assert!(matches!(e, ParserError::Io(_)));
            assert_eq!(e.message(), "I/O error: broken pipe");
        }
        _ => panic!("expected the loop to end"),
    }
}
