use msiviewer::chat::{data_line, trimmed, EventBuffer, LineStep};

#[test]
fn data_lines_give_their_payload() {
    assert_eq!(data_line("data: {\"a\":1}\n"), Some("{\"a\":1}\n"));
    assert_eq!(data_line("data: "), Some(""));
    assert_eq!(data_line("data:x"), None);
    assert_eq!(data_line(": ping"), None);
    assert_eq!(data_line(""), None);
}

#[test]
fn event_is_handed_out_at_blank_line() {
    let mut b = EventBuffer::new();
    assert!(matches!(b.on_line("data: {\"x\":1}\n"), LineStep::More));
    assert!(matches!(b.on_line("data: more\n"), LineStep::More));
    match b.on_line("\n") {
        LineStep::Message(m) => assert_eq!(m, "{\"x\":1}\n\nmore\n\n"),
        _ => panic!("expected a message"),
    }
    match b.on_line("\n") {
        LineStep::Message(m) => assert_eq!(m, ""),
        _ => panic!("expected an empty message"),
    }
}

#[test]
fn done_mark_ends_stream_around_white_space() {
    let mut b = EventBuffer::new();
    assert!(matches!(b.on_line("data: [DONE]\n"), LineStep::More));
    assert!(matches!(b.on_line("\n"), LineStep::Done));
    let mut c = EventBuffer::new();
    assert!(matches!(c.on_line("data:  \t[DONE]\u{3000}\n"), LineStep::More));
    assert!(matches!(c.on_line(""), LineStep::Done));
}

#[test]
fn done_mark_with_text_around_is_a_message() {
    let mut b = EventBuffer::new();
    assert!(matches!(b.on_line("data: [DONE] now\n"), LineStep::More));
    assert!(matches!(b.on_line("\n"), LineStep::Message(_)));
}

#[test]
fn trimmed_strips_white_space_at_both_ends() {

    assert_eq!(trimmed("  a b\t\n"), "a b");
    assert_eq!(trimmed("\u{3000}\u{a0}x\u{2029}"), "x");
    assert_eq!(trimmed(" \t\n "), "");
    assert_eq!(trimmed(""), "");
    assert_eq!(trimmed("none"), "none");
}
