use quote_client::args::{clean_argument, normalize_path, Args};
use quote_client::error::ParserError;
use quote_client::handshake::{Handshake, Opening};
use quote_client::model::command::Command;
use quote_client::receiver::{receive_step, Reaction};
use quote_client::sender::{Beat, CommandSender, KeepaliveAction, INTERVAL_MS};
use quote_client::transport::{ReadOutcome, SendOutcome, TransportError, TransportFault};

fn names(c: &Command) -> Vec<String> {
    c.tickers.iter().map(|t| t.as_str().to_string()).collect()
}

#[test]
fn path_is_trimmed_and_unquoted() {
    assert_eq!(normalize_path("  ./tickers.txt \n"), "./tickers.txt");
    assert_eq!(normalize_path("\"C:\\My Files\\t.txt\""), "C:\\My Files\\t.txt");
    assert_eq!(normalize_path(" \"a b\" "), "a b");
    assert_eq!(normalize_path("\"\""), "");
    assert_eq!(normalize_path(""), "");
    assert_eq!(normalize_path("   "), "");
}

#[test]
fn lone_or_inner_quotes_stay_in_a_path() {
    assert_eq!(normalize_path("\""), "\"");
    assert_eq!(normalize_path("\"abc"), "\"abc");
    assert_eq!(normalize_path("abc\""), "abc\"");
    assert_eq!(normalize_path("a\"b"), "a\"b");
    assert_eq!(normalize_path("\"\"a\"\""), "\"a\"");
    assert_eq!(normalize_path("\" a \""), " a ");
}

#[test]
fn host_and_port_lose_every_quote() {
    assert_eq!(clean_argument(" \"192.168.0.10\" "), "192.168.0.10");
    assert_eq!(clean_argument("5\"55\"55"), "55555");
    assert_eq!(clean_argument("\" host \""), " host ");
    assert_eq!(clean_argument(""), "");
    assert_eq!(clean_argument("\"\"\""), "");
}

#[test]
fn addresses_are_built_from_the_arguments() {
    let args = Args {
        ip: " \"192.168.0.10\"".to_string(),
        port: "55555 ".to_string(),
        path: " \"./tickers.txt\" ".to_string(),
    };
    assert_eq!(args.server_address(), "192.168.0.10:8080");
    assert_eq!(args.listen_address(), "0.0.0.0:55555");
    assert_eq!(args.ticker_path(), "./tickers.txt");
}

#[test]
fn a_missing_file_means_no_work() {
    assert!(matches!(Handshake::open(None), Opening::Idle));
    assert_eq!(Handshake::exit_code(&Ok(())), 0);
}

#[test]
fn an_empty_file_sends_nothing_and_ends_cleanly() {
    for source in ["", "  ", "\n,\t,\n"] {
        match Handshake::open(Some(source.as_bytes().to_vec())) {
            Opening::Abort(e) => {
                assert!(matches!(e, ParserError::ParseTickersFile(_)));
                assert_eq!(Handshake::exit_code(&Err(e)), 0);
            }
            _ => panic!("expected no subscription"),
        }
    }
}

#[test]
fn a_file_that_is_not_text_is_an_error() {
    match Handshake::open(Some(vec![0xff, 0xfe])) {
        Opening::Abort(e) => {
            assert!(matches!(e, ParserError::Utf8(_)));
            assert!(e.message().starts_with("UTF-8 error: "));
            assert_eq!(Handshake::exit_code(&Err(e)), 1);
        }
        _ => panic!("expected an error"),
    }
}

#[test]
fn errors_other_than_an_empty_list_exit_with_one() {
    assert_eq!(Handshake::exit_code(&Err(ParserError::Io("x".to_string()))), 1);
    assert_eq!(Handshake::exit_code(&Err(ParserError::Format("x".to_string()))), 1);
    assert_eq!(Handshake::exit_code(&Err(ParserError::ParseTickersFile("x".to_string()))), 0);
}

#[test]
fn messages_start_with_the_kind_of_error() {
    assert_eq!(ParserError::Io("gone".to_string()).message(), "I/O error: gone");
    assert_eq!(ParserError::Format("bad".to_string()).message(), "Format error: bad");
    assert_eq!(
        ParserError::ParseTickersFile("none".to_string()).message(),
        "Parse tickers file error: none"
    );
}

fn subscription() -> quote_client::handshake::Subscription {
    let tickers = match Handshake::open(Some(b"ibm, msft".to_vec())) {
        Opening::Proceed(tickers) => tickers,
        _ => panic!("expected tickers"),
    };
    Handshake::subscription("10.0.0.7", "4000", tickers)
}

#[test]
fn the_loops_start_only_after_a_successful_send() {
    let session =
        Handshake::confirm(subscription(), CommandSender::conclude(SendOutcome::Sent)).unwrap();
    assert_eq!(session.ping, Command::new_ping("10.0.0.7", "4000"));
    let failed = SendOutcome::Failed(TransportError {
        fault: TransportFault::Other,
        detail: "network unreachable".to_string(),
    });
    match Handshake::confirm(subscription(), CommandSender::conclude(failed)) {
        Err(ParserError::Format(m)) => assert_eq!(m, "I/O error: network unreachable"),
        _ => panic!("expected a format error"),
    }
    match Handshake::confirm(subscription(), Err(ParserError::Format("no room".to_string()))) {
        Err(ParserError::Format(m)) => assert_eq!(m, "Format error: no room"),
        _ => panic!("expected a format error"),
    }
}

#[test]
fn a_subscription_names_the_client_and_its_tickers() {
    let s = subscription();
    assert_eq!(s.command().header, "J_QUOTE");
    assert_eq!(s.command().connection, "udp");
    assert_eq!(s.command().address, "10.0.0.7");
    assert_eq!(s.command().port, "4000");
    assert_eq!(names(s.command()), vec!["IBM", "MSFT"]);
}

#[test]
fn one_ticker_from_file_to_printed_quote() {
    let tickers = match Handshake::open(Some(b"IBM".to_vec())) {
        Opening::Proceed(tickers) => tickers,
        _ => panic!("expected tickers"),
    };
    let subscription = Handshake::subscription("127.0.0.1", "40000", tickers);

    let first = CommandSender::datagram(subscription.command()).unwrap();
    let sent = Command::decode(&first).unwrap();
    assert_eq!(sent.header, "J_QUOTE");
    assert_eq!(sent.connection, "udp");
    assert_eq!(sent.address, "127.0.0.1");
    assert_eq!(sent.port, "40000");
    assert_eq!(names(&sent), vec!["IBM"]);
    let session =
        Handshake::confirm(subscription, CommandSender::conclude(SendOutcome::Sent)).unwrap();

    assert_eq!(INTERVAL_MS, 2000);
    for _ in 0..5 {
        match CommandSender::beat(&session.ping) {
            Beat::Transmit(bytes) => {
                let ping = Command::decode(&bytes).unwrap();
                assert_eq!(ping.header, "PING");
                assert!(ping.tickers.is_empty());
            }
            Beat::Skip(_) => panic!("expected a datagram"),
        }
        assert!(matches!(
            CommandSender::after_beat("127.0.0.1:8080", SendOutcome::Sent),
            KeepaliveAction::Wait
        ));
    }

    let bytes =
        bincode::encode_to_vec(("IBM", 123.4567f64, 100u64), bincode::config::standard()).unwrap();
    match receive_step(ReadOutcome::Data(bytes)) {
        Reaction::Print(q) => {
            let line = format!(
                "QUOTE RECEIVED: Ticker={} Price={:.4} Volume={}",
                q.ticker,
                f64::from_bits(q.price_bits),
                q.volume
            );
            assert_eq!(line, "QUOTE RECEIVED: Ticker=IBM Price=123.4567 Volume=100");
        }
        _ => panic!("expected a quote"),
    }
}

#[test]
fn resets_on_both_loops_are_survived() {
    let reset = || TransportError {
        fault: TransportFault::ConnectionReset,
        detail: "reset".to_string(),
    };
    assert!(matches!(
        CommandSender::after_beat("s:1", SendOutcome::Failed(reset())),
        KeepaliveAction::LogAndWait(_)
    ));
    assert!(matches!(receive_step(ReadOutcome::Failed(reset())), Reaction::Ignore));
    let other = TransportError { fault: TransportFault::Other, detail: "timed out".to_string() };
    match receive_step(ReadOutcome::Failed(other)) {
        Reaction::Stop(e) => assert_eq!(Handshake::exit_code(&Err(e)), 1),
        _ => panic!("expected the loop to end"),
    }
}
