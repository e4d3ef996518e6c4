use koukoku_ws_proxy::text::{closes_shout_line, concat_lines, is_header, opens_shout_line, remove_crlf};
use koukoku_ws_proxy::upstream::{forwarded_text, silence_command, WsFrame};

#[test]
fn remove_crlf_examples() {
    assert_eq!(remove_crlf("a\r\nb\r\n"), "ab");
    assert_eq!(remove_crlf("\r\r\n\n"), "\r\n");
    assert_eq!(remove_crlf("\r"), "\r");
    assert_eq!(remove_crlf(""), "");
    assert_eq!(remove_crlf("日本\r\n語"), "日本語");
    assert_eq!(remove_crlf("\n\r"), "\n\r");
}

#[test]
fn concat_lines_examples() {
    let lines = vec!["ab".to_string(), "".to_string(), "c\r\n".to_string()];
    assert_eq!(concat_lines(&lines), "abc\r\n");
    assert_eq!(concat_lines(&Vec::new()), "");
}

#[test]
fn header_examples() {
    assert!(is_header(""));
    assert!(is_header("\u{feff}\x1b[0m"));
    assert!(is_header("\u{feff}\x1b[0mmore"));
    assert!(!is_header("\u{feff}\x1b[1m"));
    assert!(!is_header("x"));
}

#[test]
fn opening_and_closing_examples() {
    assert!(opens_shout_line(">>"));
    assert!(!opens_shout_line("> >"));
    assert!(closes_shout_line("<<\r\n"));
    assert!(closes_shout_line("x <<\r\n"));
    assert!(!closes_shout_line("<<\n"));
    assert!(!closes_shout_line("<\r\n"));
}

#[test]
fn silence_command_is_nobody() {
    assert_eq!(silence_command(), "nobody\n");
    assert_eq!(silence_command().as_bytes(), b"nobody\n");
}

#[test]
fn only_text_frames_are_forwarded() {
    assert_eq!(forwarded_text(WsFrame::Text("hello\n".to_string())), Some("hello\n".to_string()));
    assert_eq!(forwarded_text(WsFrame::Binary(vec![1, 2])), None);
    assert_eq!(forwarded_text(WsFrame::Ping(vec![])), None);
    assert_eq!(forwarded_text(WsFrame::Pong(vec![])), None);
    assert_eq!(forwarded_text(WsFrame::Close(Some((1000, "bye".to_string())))), None);
    assert_eq!(forwarded_text(WsFrame::Close(None)), None);
}
