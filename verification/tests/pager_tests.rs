use dusk::pager::{digit_count, format_percentage, format_status, LessError, TextBuffer};
use std::io;

#[test]
fn from_string_basic() {
    let buf = TextBuffer::from_string("hello\nworld");
    assert_eq!(buf.line_count(), 2);
    assert_eq!(buf.line(0), Some("hello"));
    assert_eq!(buf.line(1), Some("world"));
}

#[test]
fn from_string_empty() {
    let buf = TextBuffer::from_string("");
    assert_eq!(buf.line_count(), 0);
    assert!(buf.is_empty());
}

#[test]
fn from_string_single_line() {
    let buf = TextBuffer::from_string("just one line");
    assert_eq!(buf.line_count(), 1);
    assert_eq!(buf.line(0), Some("just one line"));
}

#[test]
fn from_string_trailing_newline() {
    let buf = TextBuffer::from_string("line1\nline2\n");
    assert_eq!(buf.line_count(), 2);
}

#[test]
fn line_out_of_bounds() {
    let buf = TextBuffer::from_string("one");
    assert_eq!(buf.line(1), None);
    assert_eq!(buf.line(100), None);
}

#[test]
fn lines_range_basic() {
    let buf = TextBuffer::from_string("a\nb\nc\nd\ne");
    let range = buf.lines_range(1, 4);
    assert_eq!(range.len(), 3);
    assert_eq!(range[0], "b");
    assert_eq!(range[2], "d");
}

#[test]
fn lines_range_clamps() {
    let buf = TextBuffer::from_string("a\nb\nc");
    let range = buf.lines_range(1, 100);
    assert_eq!(range.len(), 2);
}

#[test]
fn lines_range_empty_when_start_past_end() {
    let buf = TextBuffer::from_string("a\nb");
    let range = buf.lines_range(5, 10);
    assert!(range.is_empty());
}

#[test]
fn filename_none_for_string() {
    let buf = TextBuffer::from_string("hi");
    assert!(buf.filename().is_none());
}

#[test]
fn set_filename() {
    let mut buf = TextBuffer::from_string("hi");
    buf.set_filename("stdin".to_string());
    assert_eq!(buf.filename(), Some("stdin"));
}

#[test]
fn is_empty() {
    assert!(TextBuffer::from_string("").is_empty());
    assert!(!TextBuffer::from_string("x").is_empty());
}

#[test]
fn crlf_endings_are_stripped() {
    let buf = TextBuffer::from_string("one\r\ntwo\r\n");
    assert_eq!(buf.line_count(), 2);
    assert_eq!(buf.line(0), Some("one"));
    assert_eq!(buf.line(1), Some("two"));
}

#[test]
fn status_with_filename() {
    let status = format_status(Some("test.txt"), 0, 24, 100, None);
    assert!(status.contains("test.txt"));
}

#[test]
fn status_without_filename() {
    let status = format_status(None, 0, 24, 100, None);
    assert!(status.contains("[stdin]"));
}

#[test]
fn status_empty_buffer() {
    let status = format_status(Some("empty.txt"), 0, 24, 0, None);
    assert!(status.contains("(empty)"));
}

#[test]
fn status_line_position() {
    let status = format_status(Some("f.txt"), 9, 24, 100, None);
    assert!(status.contains("lines 10-33/100"));
}

#[test]
fn status_at_top() {
    let status = format_status(Some("f.txt"), 0, 24, 100, None);
    assert!(status.contains("(top)"));
}

#[test]
fn status_at_end() {
    let status = format_status(Some("f.txt"), 76, 24, 100, None);
    assert!(status.contains("(end)"));
}

#[test]
fn status_all_visible() {
    let status = format_status(Some("f.txt"), 0, 24, 10, None);
    assert!(status.contains("(all)"));
}

#[test]
fn status_with_search() {
    let status = format_status(Some("f.txt"), 0, 24, 100, Some("pattern"));
    assert!(status.contains("/pattern"));
}

#[test]
fn percentage_middle() {
    let pct = format_percentage(50, 24, 100);
    assert_eq!(pct, "74%");
}

#[test]
fn digit_count_values() {
    assert_eq!(digit_count(0), 1);
    assert_eq!(digit_count(1), 1);
    assert_eq!(digit_count(9), 1);
    assert_eq!(digit_count(10), 2);
    assert_eq!(digit_count(99), 2);
    assert_eq!(digit_count(100), 3);
    assert_eq!(digit_count(999), 3);
    assert_eq!(digit_count(1000), 4);
}

#[test]
fn display_io_error() {
    let err = LessError::IoError(io::Error::new(io::ErrorKind::NotFound, "file not found").to_string());
    let msg = err.message();
    assert!(msg.contains("I/O error"));
    assert!(msg.contains("file not found"));
}

#[test]
fn display_invalid_pattern() {
    let err = LessError::InvalidPattern("unclosed group".to_string());
    let msg = err.message();
    assert!(msg.contains("Invalid search pattern"));
    assert!(msg.contains("unclosed group"));
}

#[test]
fn display_terminal_error() {
    let err = LessError::TerminalError("cannot enter raw mode".to_string());
    let msg = err.message();
    assert!(msg.contains("Terminal error"));
    assert!(msg.contains("cannot enter raw mode"));
}

#[test]
fn display_no_input() {
    let err = LessError::NoInput;
    let msg = err.message();
    assert!(msg.contains("No input"));
}

#[test]
fn from_io_error() {
    let io_err = io::Error::new(io::ErrorKind::NotFound, "missing");
    let err = LessError::IoError(io_err.to_string());
    assert!(matches!(err, LessError::IoError(_)));
}

#[test]
fn status_line_exact_shape() {
    let status = format_status(Some("f.txt"), 9, 24, 100, Some("needle"));
    assert_eq!(status, "f.txt lines 10-33/100 33% /needle");
}
