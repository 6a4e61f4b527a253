use debug_log_tool::line::parse;

#[test]
fn ts_plus_category_plus_content() {
    let l = parse("2026-06-06T12:34:56Z [net] received: ping (8 bytes) peer=3");
    assert_eq!(l.timestamp, Some("2026-06-06T12:34:56Z"));
    assert_eq!(l.thread, None);
    assert_eq!(l.category, Some("net"));
    assert_eq!(l.content, "received: ping (8 bytes) peer=3");
}

#[test]
fn ts_plus_thread_plus_category() {
    let l = parse("2026-06-06T12:34:56Z [msghand] [net] processing block");
    assert_eq!(l.thread, Some("msghand"));
    assert_eq!(l.category, Some("net"));
    assert_eq!(l.content, "processing block");
}

#[test]
fn ts_only_no_category() {
    let l = parse("2026-06-06T12:34:56Z UpdateTip: new best=0");
    assert_eq!(l.timestamp, Some("2026-06-06T12:34:56Z"));
    assert_eq!(l.category, None);
    assert_eq!(l.content, "UpdateTip: new best=0");
}

#[test]
fn fractional_timestamp() {
    let l = parse("2026-06-06T12:34:56.123456Z [net] hi");
    assert_eq!(l.timestamp, Some("2026-06-06T12:34:56.123456Z"));
    assert_eq!(l.category, Some("net"));
    assert_eq!(l.content, "hi");
}

#[test]
fn continuation_line_no_timestamp() {
    let l = parse("\tat method (file.cpp:123)");
    assert_eq!(l.timestamp, None);
    assert_eq!(l.thread, None);
    assert_eq!(l.category, None);
    assert_eq!(l.content, "\tat method (file.cpp:123)");
}

#[test]
fn garbage_line_passes_through() {
    let l = parse("???nonsense???");
    assert_eq!(l.timestamp, None);
    assert_eq!(l.content, "???nonsense???");
}

#[test]
fn trailing_newline_stripped() {
    let l = parse("2026-06-06T12:34:56Z [net] hi\r\n");
    assert_eq!(l.content, "hi");
}

#[test]
fn ipv6_in_content_not_consumed_as_bracket_group() {
    // The recognizer guard means an IPv6-port atom further into the
    // line stays in `content` instead of being misparsed as a category.
    let l = parse("2026-06-06T12:34:56Z connect: [2001:db8::1]:8333");
    assert_eq!(l.category, None);
    assert_eq!(l.content, "connect: [2001:db8::1]:8333");
}

#[test]
fn line_ends_make_no_difference() {
    for l in ["", "x", "2026-06-06T12:34:56Z [net] hi", "2026-06-06T12:34:56Z"] {
        assert_eq!(parse(&format!("{l}\n")), parse(l));
        assert_eq!(parse(&format!("{l}\r\n\n")), parse(l));
    }
}

#[test]
fn brackets_that_are_no_tags_stay_in_the_content() {
    let l = parse("2026-06-06T12:34:56Z [a b] x");
    assert_eq!((l.category, l.content), (None, "[a b] x"));
    let l = parse("2026-06-06T12:34:56Z [open x");
    assert_eq!((l.category, l.content), (None, "[open x"));
    let l = parse("2026-06-06T12:34:56Z [] [a] [b] x");
    assert_eq!((l.thread, l.category, l.content), (Some(""), Some("a"), "[b] x"));
    let l = parse("2026-");
    assert_eq!((l.timestamp, l.content), (Some("2026-"), ""));
}
