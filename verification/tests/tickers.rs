use quote_client::error::ParserError;
use quote_client::model::tickers::{Ticker, TickerParser, NO_TICKERS};
use quote_client::text::{chars_of, separator, to_upper, whitespace};

fn texts(tickers: &[Ticker]) -> Vec<String> {
    tickers.iter().map(|t| t.as_str().to_string()).collect()
}

#[test]
fn parses_commas_spaces_and_lines() {
    let tickers = TickerParser::parse_text("AAPL, MSFT\nGOOG").unwrap();
    assert_eq!(texts(&tickers), vec!["AAPL", "MSFT", "GOOG"]);
}

#[test]
fn blank_text_has_no_tickers() {
    let r = TickerParser::parse_text("  ");
    match r {
        Err(ParserError::ParseTickersFile(m)) => assert_eq!(m, NO_TICKERS),
        _ => panic!("expected ParseTickersFile"),
    }
}

#[test]
fn empty_text_has_no_tickers() {
    assert!(matches!(TickerParser::parse_text(""), Err(ParserError::ParseTickersFile(_))));
    assert!(matches!(TickerParser::parse(Vec::new()), Err(ParserError::ParseTickersFile(_))));
}

#[test]
fn separators_alone_have_no_tickers() {
    assert!(matches!(
        TickerParser::parse_text(",, ,\t\n,\n"),
        Err(ParserError::ParseTickersFile(_))
    ));
}

#[test]
fn repeated_tickers_are_compared_in_upper_case() {
    let tickers = TickerParser::parse_text("aapl,AAPL").unwrap();
    assert_eq!(texts(&tickers), vec!["AAPL"]);
}

#[test]
fn first_appearance_decides_the_order() {
    let tickers = TickerParser::parse_text("msft ibm MSFT aapl Ibm goog aapl").unwrap();
    assert_eq!(texts(&tickers), vec!["MSFT", "IBM", "AAPL", "GOOG"]);
}

#[test]
fn runs_of_separators_count_once() {
    let tickers = TickerParser::parse_text(",,IBM,\t , \n\nTSLA,,").unwrap();
    assert_eq!(texts(&tickers), vec!["IBM", "TSLA"]);
}

#[test]
fn carriage_returns_are_trimmed() {
    let tickers = TickerParser::parse_text("ibm\r\nmsft\r\n").unwrap();
    assert_eq!(texts(&tickers), vec!["IBM", "MSFT"]);
}

#[test]
fn a_token_of_white_space_is_dropped() {
    let tickers = TickerParser::parse_text("IBM,\r,\u{a0}\u{2003},AAPL").unwrap();
    assert_eq!(texts(&tickers), vec!["IBM", "AAPL"]);
}

#[test]
fn wide_white_space_is_trimmed() {
    let tickers = TickerParser::parse_text("\u{3000}ibm\u{2028},\u{85}x\u{1680}").unwrap();
    assert_eq!(texts(&tickers), vec!["IBM", "X"]);
}

#[test]
fn inner_white_space_stays() {
    let tickers = TickerParser::parse_text("a\rb").unwrap();
    assert_eq!(texts(&tickers), vec!["A\rB"]);
}

#[test]
fn only_ascii_letters_change_case() {
    let tickers = TickerParser::parse_text("brk.b ünï z9{").unwrap();
    assert_eq!(texts(&tickers), vec!["BRK.B", "üNï", "Z9{"]);
}

#[test]
fn parsed_tickers_are_plain_symbols() {
    let tickers = TickerParser::parse_text(" x,y\tz\nx , Y ").unwrap();
    let names = texts(&tickers);
    assert_eq!(names, vec!["X", "Y", "Z"]);
    for (i, name) in names.iter().enumerate() {
        assert!(!name.is_empty());
        assert_eq!(name.trim(), name);
        assert_eq!(&name.to_ascii_uppercase(), name);
        assert!(!names[..i].contains(name));
        assert!(Ticker::new(name).is_some());
    }
}

#[test]
fn bytes_are_read_as_utf8() {
    let tickers = TickerParser::parse("ibm, msft".as_bytes().to_vec()).unwrap();
    assert_eq!(texts(&tickers), vec!["IBM", "MSFT"]);
}

#[test]
fn bytes_that_are_not_text_are_refused() {
    let r = TickerParser::parse(vec![b'I', b'B', 0xff, b'M']);
    assert!(matches!(r, Err(ParserError::Utf8(_))));
    let r = TickerParser::parse(vec![0xc3]);
    assert!(matches!(r, Err(ParserError::Utf8(_))));
}

#[test]
fn a_ticker_must_be_a_symbol() {
    assert_eq!(Ticker::new("IBM").unwrap().as_str(), "IBM");
    assert_eq!(Ticker::new("BRK.B").unwrap().as_str(), "BRK.B");
    assert!(Ticker::new("").is_none());
    assert!(Ticker::new("ibm").is_none());
    assert!(Ticker::new(" IBM").is_none());
    assert!(Ticker::new("IBM\r").is_none());
    assert!(Ticker::new("I,BM").is_none());
    assert!(Ticker::new("I BM").is_none());
    assert!(Ticker::new("I\tBM").is_none());
    assert!(Ticker::new("I\nBM").is_none());
}

#[test]
fn a_cloned_ticker_is_equal() {
    let t = Ticker::new("IBM").unwrap();
    assert_eq!(t.clone(), t);
}

#[test]
fn character_classes_agree_with_the_standard_library() {
    for code in 0..=0x10ffffu32 {
        if let Some(c) = char::from_u32(code) {
            assert_eq!(whitespace(c), c.is_whitespace(), "white space {:x}", code);
            assert_eq!(to_upper(c), c.to_ascii_uppercase(), "upper case {:x}", code);
            assert_eq!(separator(c), ",\u{20}\t\n".contains(c), "separator {:x}", code);
        }
    }
}

#[test]
fn a_text_is_its_characters() {
    assert_eq!(chars_of("aé\u{1F30D}"), vec!['a', 'é', '\u{1F30D}']);
    assert_eq!(chars_of(""), Vec::<char>::new());
}
