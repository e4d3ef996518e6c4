use koukoku_ws_proxy::parser::{Message, Parser, PayloadKind};

fn houwa(m: Option<Message>) -> String {
    let m = m.expect("a message");
    assert_eq!(m.kind, PayloadKind::Houwa);
    m.payload
}

fn enzetsu(m: Option<Message>) -> String {
    let m = m.expect("a message");
    assert_eq!(m.kind, PayloadKind::Enzetsu);
    m.payload
}

#[test]
fn header_line_is_ignored() {
    let mut p = Parser::new();
    assert!(p.parse("\u{feff}\x1b[0m\r\n").is_none());
    assert!(p.parse("\u{feff}\x1b[0m\r\r\n").is_none());
    // the next ordinary line is still speech
    assert_eq!(enzetsu(p.parse(" hello\r\n")), " hello\r\n");
}

#[test]
fn empty_line_and_header_prefix_count_as_header() {
    let mut p = Parser::new();
    assert!(p.parse("").is_none());
    assert!(p.parse("\u{feff}").is_none());
    assert!(p.parse("\u{feff}\x1b[").is_none());
    assert_eq!(enzetsu(p.parse("\u{feff}x\r\n")), "\u{feff}x\r\n");
}

#[test]
fn speech_passes_through_unchanged() {
    let mut p = Parser::new();
    assert_eq!(enzetsu(p.parse(" some speech >> not a shout\r\n")), " some speech >> not a shout\r\n");
    assert_eq!(enzetsu(p.parse("\r\n")), "\r\n");
}

#[test]
fn one_line_shout_is_kept_verbatim() {
    let mut p = Parser::new();
    assert_eq!(houwa(p.parse(">> hi <<\r\n")), ">> hi <<\r\n");
    assert_eq!(enzetsu(p.parse(" after\r\n")), " after\r\n");
}

#[test]
fn multi_line_shout_is_joined_without_crlf() {
    let mut p = Parser::new();
    assert!(p.parse(">> first\r\n").is_none());
    assert!(p.parse("second\r\n").is_none());
    assert_eq!(houwa(p.parse("third <<\r\n")), ">> firstsecondthird <<");
    // the parser is fresh again
    assert_eq!(enzetsu(p.parse(" speech\r\n")), " speech\r\n");
}

#[test]
fn colored_shouts_open_too() {
    let mut p = Parser::new();
    assert!(p.parse("\x1b[0m\x1b[1m\x1b[31m>> red\r\n").is_none());
    assert_eq!(houwa(p.parse("end <<\r\n")), "\x1b[0m\x1b[1m\x1b[31m>> redend <<");
    assert!(p.parse("\x1b[0m\x1b[1m\x1b[32m>> green\r\n").is_none());
    assert_eq!(houwa(p.parse("\x1b[0m <<\r\n")), "\x1b[0m\x1b[1m\x1b[32m>> green\x1b[0m <<");
}

#[test]
fn lines_inside_a_shout_are_buffered_even_if_they_open_one() {
    let mut p = Parser::new();
    assert!(p.parse(">> a\r\n").is_none());
    assert!(p.parse(">> b\r\n").is_none());
    assert_eq!(houwa(p.parse(" c <<\r\n")), ">> a>> b c <<");
}

#[test]
fn header_inside_a_shout_is_skipped() {
    let mut p = Parser::new();
    assert!(p.parse(">> a\r\n").is_none());
    assert!(p.parse("\u{feff}\x1b[0m\r\n").is_none());
    assert_eq!(houwa(p.parse("b <<\r\n")), ">> ab <<");
}

#[test]
fn crlf_split_across_lines_is_removed() {
    let mut p = Parser::new();
    assert!(p.parse(">> a\r").is_none());
    assert_eq!(houwa(p.parse("\nb <<\r\n")), ">> ab <<");
}

#[test]
fn lone_carriage_returns_and_newlines_stay() {
    let mut p = Parser::new();
    assert!(p.parse(">> a\rb\n").is_none());
    assert_eq!(houwa(p.parse("c\r\r\nd <<\r\n")), ">> a\rb\nc\rd <<");
}

#[test]
fn closing_without_opening_is_speech() {
    let mut p = Parser::new();
    assert_eq!(enzetsu(p.parse(" x <<\r\n")), " x <<\r\n");
}

#[test]
fn closing_needs_crlf() {
    let mut p = Parser::new();
    assert!(p.parse(">> a <<\n").is_none());
    assert!(p.parse("b <<\r").is_none());
    assert_eq!(houwa(p.parse("<<\r\n")), ">> a <<\nb <<\r<<");
}

#[test]
fn start_of_houwa_patterns() {
    assert!(Parser::is_start_of_houwa(">>"));
    assert!(Parser::is_start_of_houwa(">> hello"));
    assert!(Parser::is_start_of_houwa("\x1b[0m\x1b[1m\x1b[31m>>x"));
    assert!(Parser::is_start_of_houwa("\x1b[0m\x1b[1m\x1b[32m>>"));
    assert!(!Parser::is_start_of_houwa(" >>"));
    assert!(!Parser::is_start_of_houwa(">"));
    assert!(!Parser::is_start_of_houwa(""));
    assert!(!Parser::is_start_of_houwa("\x1b[0m\x1b[1m\x1b[33m>>"));
    assert!(!Parser::is_start_of_houwa("\x1b[0m\x1b[1m\x1b[31m>"));
}
