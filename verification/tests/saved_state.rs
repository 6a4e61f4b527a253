use debug_log_tool::analyzer::{HeaderLine, LoadError, StateLine};
use debug_log_tool::json_read::{
    cluster_line_numbers, meta_numbers, parse_cluster_line, parse_meta, JsonError, JsonParser,
};
use debug_log_tool::json_write::{write_json_string, write_optional_string};
use debug_log_tool::{Analyzer, Slot, TokenKind};

/// The bits of the double that a text is read as.
fn bits(text: Option<&str>) -> Option<u64> {
    text.and_then(|t| t.parse::<f64>().ok()).map(f64::to_bits)
}

fn header(line: &str) -> HeaderLine {
    let (version, depth, threshold) = meta_numbers(line);
    HeaderLine {
        text: line.to_string(),
        version: bits(version),
        depth: bits(depth),
        threshold: bits(threshold),
    }
}

fn state_line(line: &str) -> StateLine {
    let (id, count) = cluster_line_numbers(line);
    StateLine {
        text: line.to_string(),
        id: bits(id),
        count: bits(count),
    }
}

fn load(saved: &str) -> Result<Analyzer, LoadError> {
    let mut lines = saved.lines();
    let first = lines.next().map(header);
    let rest: Vec<StateLine> = lines.map(state_line).collect();
    Analyzer::load(first.as_ref(), &rest)
}

const HEADER: &str = r#"{"_meta":{"version":1,"depth":4,"threshold":0.5}}"#;

/// The error that a state is refused for whose one cluster line is `line`.
fn refused(line: &str) -> JsonError {
    match load(&format!("{HEADER}\n{line}\n")) {
        Err(LoadError::Json(e)) => e,
        other => panic!("expected a refused line, got {other:?}"),
    }
}

#[test]
fn ingest_groups_by_category() {
    let mut a = Analyzer::new(4, 0.5f64.to_bits());
    a.ingest_line("2026-06-06T12:00:00Z [net] received: ping peer=1");
    a.ingest_line("2026-06-06T12:00:01Z [net] received: ping peer=2");
    a.ingest_line("2026-06-06T12:00:02Z [validation] UpdateTip: x");
    a.ingest_line("2026-06-06T12:00:03Z [validation] UpdateTip: y");

    let mut by_cat: std::collections::BTreeMap<Option<String>, u64> =
        std::collections::BTreeMap::new();
    for (cat, c) in a.templates() {
        *by_cat.entry(cat.map(str::to_owned)).or_insert(0) += c.count;
    }
    assert_eq!(by_cat.get(&Some("net".into())), Some(&2));
    assert_eq!(by_cat.get(&Some("validation".into())), Some(&2));
}

#[test]
fn jsonl_round_trip_preserves_clusters() {
    let mut a = Analyzer::new(4, 0.5f64.to_bits());
    for n in 0..5 {
        a.ingest_line(&format!(
            "2026-06-06T12:00:0{n}Z [net] received: ping peer={n}"
        ));
    }
    a.ingest_line("2026-06-06T12:00:09Z [validation] UpdateTip: foo");

    let s = a.save("0.5");

    let b = load(&s).unwrap();
    assert_eq!(a.depth(), b.depth());
    assert_eq!(a.threshold(), b.threshold());

    let total_a: u64 = a.templates().iter().map(|(_, c)| c.count).sum();
    let total_b: u64 = b.templates().iter().map(|(_, c)| c.count).sum();
    assert_eq!(total_a, total_b);

    let cluster_count_a = a.templates().len();
    let cluster_count_b = b.templates().len();
    assert_eq!(cluster_count_a, cluster_count_b);
}

#[test]
fn jsonl_escape_round_trip() {
    // Build a saved file with a literal token containing quote, backslash,
    // and a control char; load it; assert the slot survives intact.
    let saved = format!(
        "{}\n{}\n",
        r#"{"_meta":{"version":1,"depth":4,"threshold":0.5}}"#,
        r#"{"id":1,"category":"net","count":1,"first_seen":null,"last_seen":null,"template":[{"t":"L","v":"hard\"slash\\tab\there"}]}"#,
    );
    let a = load(&saved).unwrap();
    let templates = a.templates();
    let (_, c) = templates[0];
    assert_eq!(c.template.len(), 1);
    match &c.template[0] {
        Slot::Text(s) => assert_eq!(s, "hard\"slash\\tab\there"),
        other => panic!("expected Text slot, got {other:?}"),
    }
}

#[test]
fn a_saved_state_is_written_out() {
    let mut a = Analyzer::new(4, 0.5f64.to_bits());
    a.ingest_line("2026-06-06T12:00:00Z [net] hi peer=1");
    a.ingest_line("2026-06-06T12:00:01Z [net] hi peer=2");
    a.ingest_line("no timestamp");
    assert_eq!(
        a.save("0.5"),
        concat_lines(&[
            r#"{"_meta":{"version":1,"depth":4,"threshold":0.5}}"#,
            r#"{"id":1,"category":"net","count":2,"first_seen":"2026-06-06T12:00:00Z","last_seen":"2026-06-06T12:00:01Z","template":[{"t":"L","v":"hi"},{"t":"W","k":"PEER"}]}"#,
            r#"{"id":1,"category":null,"count":1,"first_seen":null,"last_seen":null,"template":[{"t":"L","v":"no"},{"t":"L","v":"timestamp"}]}"#,
        ])
    );
}

fn concat_lines(lines: &[&str]) -> String {
    lines.iter().map(|l| format!("{l}\n")).collect()
}

#[test]
fn a_loaded_state_is_saved_as_it_was() {
    let mut a = Analyzer::new(3, 0.25f64.to_bits());
    for (i, word) in ["foo", "bar", "q\"uo\\te", "\u{1}\u{8}\u{c}\u{1f}", "höhe"].iter().enumerate() {
        a.ingest_line(&format!("2026-06-06T12:00:0{i}Z [net] event named {word} height=7"));
        a.ingest_line(&format!("{word} continued"));
    }
    let saved = a.save("0.25");
    let b = load(&saved).unwrap();
    assert_eq!(b.save("0.25"), saved);
    assert_eq!(b.depth(), 3);
    assert_eq!(b.threshold(), 0.25f64.to_bits());
}

#[test]
fn a_loaded_state_goes_on_where_it_stopped() {
    let mut a = Analyzer::new(4, 0.5f64.to_bits());
    let lines = [
        "2026-06-06T12:00:00Z [net] received: ping peer=1",
        "2026-06-06T12:00:01Z [net] something else entirely here",
        "2026-06-06T12:00:02Z [net] received: ping peer=3",
        "2026-06-06T12:00:03Z [net] a third kind of line now",
    ];
    for l in lines {
        a.ingest_line(l);
    }
    let mut b = load(&a.save("0.5")).unwrap();
    for l in lines {
        a.ingest_line(l);
        b.ingest_line(l);
    }
    a.ingest_line("2026-06-06T12:00:09Z [net] one that was never seen before");
    b.ingest_line("2026-06-06T12:00:09Z [net] one that was never seen before");
    assert_eq!(a.save("0.5"), b.save("0.5"));
}

#[test]
fn every_line_is_counted_once() {
    let mut a = Analyzer::new(4, 0.5f64.to_bits());
    let lines = ["", "x", "\tat y", "2026-06-06T12:00:00Z [net] x", "2026-06-06T12:00:00Z x", "x"];
    for (i, l) in lines.iter().enumerate() {
        assert!(a.try_ingest_line(l));
        let total: u64 = a.templates().iter().map(|(_, c)| c.count).sum();
        assert_eq!(total, i as u64 + 1);
    }
}

#[test]
fn a_line_leaves_other_categories_alone() {
    let mut a = Analyzer::new(4, 0.5f64.to_bits());
    a.ingest_line("2026-06-06T12:00:00Z [net] x");
    a.ingest_line("2026-06-06T12:00:00Z [rpc] x");
    let counts: Vec<(Option<&str>, u64)> =
        a.templates().iter().map(|(cat, c)| (*cat, c.count)).collect();
    assert_eq!(counts, vec![(Some("net"), 1), (Some("rpc"), 1)]);
}

#[test]
fn a_full_counter_takes_no_line() {
    let max = u64::MAX;
    let line = format!(
        r#"{{"id":1,"category":null,"count":{max},"first_seen":null,"last_seen":null,"template":[{{"t":"L","v":"x"}}]}}"#
    );
    let mut a = load(&format!("{HEADER}\n{line}\n")).unwrap();
    assert!(!a.try_ingest_line("x"));
    assert_eq!(a.templates()[0].1.count, u64::MAX);
    assert!(a.try_ingest_line("y"));
    assert_eq!(a.templates().len(), 2);
}

#[test]
fn the_highest_id_is_not_loaded() {
    let line = r#"{"id":18446744073709551615,"category":null,"count":1,"first_seen":null,"last_seen":null,"template":[]}"#;
    let mut a = Analyzer::begin_load(Some(&header(HEADER))).unwrap();
    assert_eq!(a.try_load_line(&state_line(line)), Ok(false));
    assert_eq!(a.templates().len(), 0);
    let other = line.replace("18446744073709551615", "41");
    assert_eq!(a.try_load_line(&state_line(&other)), Ok(true));
    assert_eq!(a.templates()[0].1.id, 41);
    a.ingest_line("x");
    assert_eq!(a.templates()[1].1.id, 42);
}

#[test]
fn an_empty_state_is_refused() {
    assert!(matches!(load(""), Err(LoadError::Empty)));
}

#[test]
fn blank_lines_are_skipped() {
    let line = r#"{"id":1,"category":"net","count":3,"first_seen":null,"last_seen":null,"template":[{"t":"S"}]}"#;
    let a = load(&format!("{HEADER}\n\n \t \u{a0}\n{line}\n\n")).unwrap();
    assert_eq!(a.templates().len(), 1);
    assert_eq!(a.templates()[0].0, Some("net"));
    assert_eq!(a.templates()[0].1.count, 3);
}

#[test]
fn white_space_between_members_is_allowed() {
    let line = r#" { "id" : 1 , "category" : "net" , "count" : 3.0 , "first_seen" : "a" , "last_seen" : "b" , "template" : [ { "t" : "L" , "v" : "x" } , { "t" : "W" , "k" : "INT" } , { "t" : "S" } ] } trailing"#;
    let (category, c) = parse_cluster_line(line, bits(Some("1")), bits(Some("3.0"))).unwrap();
    assert_eq!(category.as_deref(), Some("net"));
    assert_eq!((c.id, c.count), (1, 3));
    assert_eq!(c.first_seen.as_deref(), Some("a"));
    assert_eq!(c.last_seen.as_deref(), Some("b"));
    assert_eq!(
        c.template,
        vec![Slot::Text("x".into()), Slot::Typed(TokenKind::Int), Slot::Star]
    );
}

#[test]
fn numbers_are_found_in_their_lines() {
    assert_eq!(
        meta_numbers(r#"{"_meta":{"version":1,"depth":40,"threshold":-0.5e+3}}"#),
        (Some("1"), Some("40"), Some("-0.5e+3"))
    );
    assert_eq!(
        meta_numbers(r#"{"_meta":{"version":1,"depth":"x""#),
        (Some("1"), None, None)
    );
    assert_eq!(meta_numbers("x"), (None, None, None));
    assert_eq!(
        cluster_line_numbers(r#"{"id":12,"category":null,"count":7,"#),
        (Some("12"), Some("7"))
    );
    assert_eq!(
        cluster_line_numbers(r#"{"id":12,"category":7"#),
        (Some("12"), None)
    );
    assert_eq!(cluster_line_numbers("{}"), (None, None));
}

#[test]
fn a_header_is_read() {
    let h = header(r#"{"_meta":{"version":7,"depth":4,"threshold":0.75}}"#);
    assert_eq!(
        parse_meta(&h.text, h.version, h.depth, h.threshold),
        Ok((4, 0.75f64.to_bits()))
    );
    assert_eq!(
        parse_meta(&h.text, h.version, h.depth, None),
        Err(JsonError::InvalidNumber)
    );
    assert_eq!(
        parse_meta(&h.text, Some(0.5f64.to_bits()), h.depth, h.threshold),
        Err(JsonError::NotWhole)
    );
    let short = header(r#"{"_meta":{"version":7,"depth":4,"threshold":0.75}"#);
    assert_eq!(
        parse_meta(&short.text, short.version, short.depth, short.threshold),
        Err(JsonError::Expected { wanted: '}', left: 0 })
    );
}

#[test]
fn malformed_lines_are_refused() {
    assert_eq!(refused("x"), JsonError::Expected { wanted: '{', left: 1 });
    assert_eq!(
        refused(r#"{"no":1"#),
        JsonError::ExpectedKey { key: "id".into(), got: "no".into() }
    );
    assert_eq!(refused(r#"{"id":x"#), JsonError::ExpectedNumber);
    assert_eq!(refused(r#"{"id":-"#), JsonError::InvalidNumber);
    assert_eq!(refused(r#"{"id":1.5"#), JsonError::NotWhole);
    assert_eq!(refused(r#"{"id":-1"#), JsonError::NotWhole);
    assert_eq!(refused(r#"{"id":1,"category":"a"#), JsonError::UnterminatedString);
    assert_eq!(refused(r#"{"id":1,"category":"a\"#), JsonError::UnterminatedEscape);
    assert_eq!(refused(r#"{"id":1,"category":"a\u12"#), JsonError::TruncatedEscape);
    assert_eq!(refused(r#"{"id":1,"category":"a\u12x4""#), JsonError::InvalidHex);
    assert_eq!(refused(r#"{"id":1,"category":"a\u1ää""#), JsonError::InvalidHex);
    assert_eq!(refused(r#"{"id":1,"category":"a\ud800""#), JsonError::InvalidCodepoint);
    assert_eq!(refused(r#"{"id":1,"category":"a\x""#), JsonError::UnknownEscape(b'x'));
    assert_eq!(refused(r#"{"id":1,"category":"a\ä""#), JsonError::UnknownEscape(0xC3));
    let with_template = |t: &str| {
        refused(&format!(
            r#"{{"id":1,"category":null,"count":1,"first_seen":null,"last_seen":null,"template":{t}}}"#
        ))
    };
    assert_eq!(
        with_template(r#"[{"t":"S"}x]"#),
        JsonError::ExpectedCommaOrBracket
    );
    assert_eq!(
        with_template(r#"[{"t":"W","k":"NOPE"}]"#),
        JsonError::UnknownKind("NOPE".into())
    );
    assert_eq!(
        with_template(r#"[{"t":"Q"}]"#),
        JsonError::UnknownTag("Q".into())
    );
}

#[test]
fn escapes_are_read() {
    let line = r#"{"id":1,"category":"\"\\\/\b\f\n\r\tA\u+0e9€","count":1,"first_seen":null,"last_seen":null,"template":[]}"#;
    let (category, c) = parse_cluster_line(line, bits(Some("1")), bits(Some("1"))).unwrap();
    assert_eq!(category.as_deref(), Some("\"\\/\u{8}\u{c}\n\r\tA\u{e9}\u{20ac}"));
    assert!(c.template.is_empty());
}

#[test]
fn a_string_reads_back_and_stands_on_one_line() {
    let low: String = (0u8..0x80).map(char::from).collect();
    for s in ["", "hard\"slash\\tab\there", "a\nb\r\u{0}c\u{1f}", "ä€😀\u{7f}\u{2028}", &low] {
        let mut written = String::new();
        write_json_string(&mut written, s);
        assert!(written.bytes().all(|b| b >= 0x20));
        let text = format!("{written}\"tail\" null");
        let mut p = JsonParser::new(&text);
        assert_eq!(p.parse_string().unwrap(), s);
        assert_eq!(p.parse_string().unwrap(), "tail");
        assert_eq!(p.parse_optional_string().unwrap(), None);
        assert!(matches!(p.parse_string(), Err(JsonError::Expected { wanted: '"', left: 0 })));
    }
    let mut written = String::new();
    write_optional_string(&mut written, Some("null"));
    write_optional_string(&mut written, None);
    assert_eq!(written, "\"null\"null");
    let mut p = JsonParser::new(&written);
    assert_eq!(p.parse_optional_string().unwrap().as_deref(), Some("null"));
    assert_eq!(p.parse_optional_string().unwrap(), None);
    assert!(matches!(JsonParser::new("\"abc").parse_string(), Err(JsonError::UnterminatedString)));
}

#[test]
fn numbers_that_a_double_holds_are_read_exactly() {
    for n in [0u64, 1, 7, 1 << 52, (1 << 53) - 1, 1 << 53, 1 << 60] {
        let line = format!(
            r#"{{"id":{n},"category":null,"count":{n},"first_seen":null,"last_seen":null,"template":[]}}"#
        );
        let s = state_line(&line);
        let (_, c) = parse_cluster_line(&s.text, s.id, s.count).unwrap();
        assert_eq!((c.id, c.count), (n, n));
    }
}
