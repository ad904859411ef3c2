use asmcore::diagn::{Message, MessageKind, Report, Span};

#[test]
fn new_report_is_empty() {
    let report = Report::new();
    assert_eq!(report.len(), 0);
    assert_eq!(report.len_with_submessages(), 0);
    assert!(!report.has_errors());
}

#[test]
fn errors_and_notes_are_kept_in_order() {
    let mut report = Report::new();
    let span = Span::new("main.asm", 3);
    report.note_span("for your information", &span);
    assert!(!report.has_errors());
    report.error_span("first", &span);
    report.error("second");
    assert!(report.has_errors());
    assert_eq!(report.len(), 3);
    assert_eq!(report.messages[0].message.kind, MessageKind::Note);
    assert_eq!(report.messages[1].message.descr, "first");
    assert_eq!(report.messages[1].message.kind, MessageKind::Error);
    assert_eq!(report.messages[2].message.descr, "second");
    assert!(report.messages[2].message.span.is_none());
}

#[test]
fn messages_stand_under_the_open_scopes() {
    let mut report = Report::new();
    let outer = Span::new("main.asm", 1);
    let inner = Span::new("main.asm", 2);
    report.push_parent("outer heading", &outer);
    report.push_parent("inner heading", &inner);
    report.error_span("deep", &inner);
    report.pop_parent();
    report.error_span("shallow", &outer);
    report.pop_parent();
    report.error("plain");
    report.pop_parent();
    assert_eq!(report.len(), 3);
    assert_eq!(report.len_with_submessages(), 6);
    assert_eq!(report.messages[0].context.len(), 2);
    assert_eq!(report.messages[0].context[0].descr, "outer heading");
    assert_eq!(report.messages[0].context[1].descr, "inner heading");
    assert_eq!(report.messages[1].context.len(), 1);
    assert_eq!(report.messages[1].context[0].descr, "outer heading");
    assert_eq!(report.messages[2].context.len(), 0);
}

#[test]
fn transfer_moves_messages_under_the_scopes_of_the_target() {
    let mut source = Report::new();
    let span = Span::new("a.asm", 0);
    source.push_parent("inside", &span);
    source.error_span("one", &span);
    source.pop_parent();
    source.note_span("two", &span);
    let mut target = Report::new();
    target.error("zero");
    target.push_parent("outside", &span);
    source.transfer_to(&mut target);
    target.pop_parent();
    assert_eq!(source.len(), 0);
    assert_eq!(target.len(), 3);
    assert_eq!(target.messages[0].message.descr, "zero");
    assert_eq!(target.messages[1].message.descr, "one");
    assert_eq!(target.messages[1].context.len(), 2);
    assert_eq!(target.messages[1].context[0].descr, "outside");
    assert_eq!(target.messages[1].context[1].descr, "inside");
    assert_eq!(target.messages[2].message.descr, "two");
    assert_eq!(target.messages[2].context.len(), 1);
}

#[test]
fn message_is_found_by_kind_place_and_excerpt() {
    let mut report = Report::new();
    let span = Span::new("main.asm", 4);
    report.push_parent("failed to resolve instruction", &span);
    report.error_span("value is out of range", &Span::new("lib.asm", 9));
    report.pop_parent();
    assert!(report.has_message_at("lib.asm", MessageKind::Error, 9, "out of range"));
    assert!(report.has_message_at("lib.asm", MessageKind::Error, 9, ""));
    assert!(report.has_message_at("main.asm", MessageKind::Error, 4, "failed to resolve"));
    assert!(!report.has_message_at("lib.asm", MessageKind::Note, 9, "out of range"));
    assert!(!report.has_message_at("lib.asm", MessageKind::Error, 8, "out of range"));
    assert!(!report.has_message_at("other.asm", MessageKind::Error, 9, "out of range"));
    assert!(!report.has_message_at("lib.asm", MessageKind::Error, 9, "out of ranges"));
}

#[test]
fn message_without_span_is_found_nowhere() {
    let mut report = Report::new();
    report.error("nowhere");
    assert!(!report.has_message_at("", MessageKind::Error, 0, "nowhere"));
}

#[test]
fn dummy_span_points_nowhere() {
    let span = Span::new_dummy();
    assert_eq!(span.file, "");
    assert_eq!(span.line, 0);
}

#[test]
fn message_copies_are_equal() {
    let message = Message {
        kind: MessageKind::Note,
        descr: String::from("text"),
        span: Some(Span::new("x", 2)),
    };
    let copy = message.clone();
    assert_eq!(copy.kind, MessageKind::Note);
    assert_eq!(copy.descr, "text");
    assert_eq!(copy.span.unwrap().line, 2);
}
