use std::io::{Read, Write};

use debug_log_tool::analyzer::{HeaderLine, StateLine};
use debug_log_tool::json_read::{cluster_line_numbers, meta_numbers};
use debug_log_tool::lines::lines;
use debug_log_tool::templates::{
    detect_kind, json_string, line_content, render, render_template, strip_node_prefix,
    write_json_cluster, InputKind, TemplatesOpts,
};
use debug_log_tool::{Analyzer, Cluster, Slot, TokenKind};
use flate2::read::MultiGzDecoder;
use flate2::write::GzEncoder;
use flate2::Compression;

fn opts(json: bool) -> TemplatesOpts {
    TemplatesOpts {
        depth: 4,
        threshold: 0.5f64.to_bits(),
        min_count: 1,
        categories: Vec::new(),
        top: None,
        json,
    }
}

fn bits(text: Option<&str>) -> Option<u64> {
    text.and_then(|t| t.parse::<f64>().ok()).map(f64::to_bits)
}

fn load(saved: &str) -> Analyzer {
    let mut all = saved.lines();
    let first = all.next().map(|l| {
        let (version, depth, threshold) = meta_numbers(l);
        HeaderLine {
            text: l.to_string(),
            version: bits(version),
            depth: bits(depth),
            threshold: bits(threshold),
        }
    });
    let rest: Vec<StateLine> = all
        .map(|l| {
            let (id, count) = cluster_line_numbers(l);
            StateLine {
                text: l.to_string(),
                id: bits(id),
                count: bits(count),
            }
        })
        .collect();
    Analyzer::load(first.as_ref(), &rest).unwrap()
}

/// Feeds a file's bytes to an analyzer.
fn feed(a: &mut Analyzer, bytes: &[u8]) {
    let kind = detect_kind(&bytes[..bytes.len().min(4)]);
    let mut text = String::new();
    match kind {
        InputKind::Gzip => {
            MultiGzDecoder::new(bytes).read_to_string(&mut text).unwrap();
        }
        InputKind::Zstd => text = String::from_utf8(zstd::decode_all(bytes).unwrap()).unwrap(),
        InputKind::Plain => text = String::from_utf8(bytes.to_vec()).unwrap(),
    }
    for line in lines(&text) {
        a.ingest_line(line_content(kind, line));
    }
}

#[test]
fn templates_extracts_clusters_and_round_trips_state() {
    // 100 `[net] received: ping … peer=N` + 50 `[validation] UpdateTip: … height=N`
    let mut content = String::new();
    for i in 1..=100 {
        content.push_str(&format!(
            "2026-06-06T12:34:56Z [net] received: ping (8 bytes) peer={i}\n"
        ));
    }
    let hash = "0".repeat(64);
    for i in 1..=50 {
        content.push_str(&format!(
            "2026-06-06T12:35:{i:02} [validation] UpdateTip: new best={hash} height={}\n",
            800_000 + i
        ));
    }
    let mut enc = GzEncoder::new(Vec::new(), Compression::default());
    enc.write_all(content.as_bytes()).unwrap();
    let fixture = enc.finish().unwrap();

    let mut first = Analyzer::new(4, 0.5f64.to_bits());
    feed(&mut first, &fixture);
    let state = first.save("0.5");
    let json1 = render(&first, &opts(true));
    let lines1: Vec<&str> = json1.lines().collect();
    assert_eq!(lines1.len(), 2, "expected 2 clusters; got: {json1}");
    let net = lines1
        .iter()
        .find(|l| l.contains(r#""category":"net""#))
        .unwrap();
    let val = lines1
        .iter()
        .find(|l| l.contains(r#""category":"validation""#))
        .unwrap();
    assert!(net.contains(r#""count":100"#), "net count line: {net}");
    assert!(net.contains("<PEER>"), "net should show <PEER>: {net}");
    assert!(net.contains("<BYTES>"), "net should show <BYTES>: {net}");
    assert!(val.contains(r#""count":50"#), "validation count: {val}");
    assert!(
        val.contains("<HASH>"),
        "validation should show <HASH>: {val}"
    );
    assert!(
        val.contains("<HEIGHT>"),
        "validation should show <HEIGHT>: {val}"
    );

    // Second run: load the state of the first, ingest the same fixture.
    // Counts should double.
    let mut second = load(&state);
    feed(&mut second, &fixture);
    let json2 = render(&second, &opts(true));
    assert!(
        json2.contains(r#""count":200"#),
        "expected net count 200 after second pass: {json2}"
    );
    assert!(
        json2.contains(r#""count":100"#),
        "expected validation count 100 after second pass: {json2}"
    );

    // Third run: load the state only (no input). Counts unchanged.
    let third = load(&second.save("0.5"));
    let json3 = render(&third, &opts(true));
    assert!(json3.contains(r#""count":200"#));
    assert!(json3.contains(r#""count":100"#));
}

fn sample() -> Analyzer {
    let mut a = Analyzer::new(4, 0.5f64.to_bits());
    for l in [
        "2026-06-06T12:00:00Z [net] alpha one two",
        "2026-06-06T12:00:01Z [net] beta one",
        "2026-06-06T12:00:02Z [net] beta one",
        "2026-06-06T12:00:03Z [net] gamma",
        "2026-06-06T12:00:04Z [addrman] delta peer=3",
        "no category here",
        "2026-06-06T12:00:05Z [validation] say \"hi\"",
    ] {
        a.ingest_line(l);
    }
    a
}

#[test]
fn the_report_is_sorted_by_category_and_count() {
    assert_eq!(
        render(&sample(), &opts(false)),
        "=== (no category) ===\n     1 no category here\n\n\
         === addrman ===\n     1 delta <PEER>\n\n\
         === net ===\n     2 beta one\n     1 alpha one two\n     1 gamma\n\n\
         === validation ===\n     1 say \"hi\"\n"
    );
}

#[test]
fn the_report_can_be_json() {
    assert_eq!(
        render(&sample(), &opts(true)),
        "{\"category\":null,\"count\":1,\"first_seen\":null,\"template\":\"no category here\"}\n\
         {\"category\":\"addrman\",\"count\":1,\"first_seen\":\"2026-06-06T12:00:04Z\",\"template\":\"delta <PEER>\"}\n\
         {\"category\":\"net\",\"count\":2,\"first_seen\":\"2026-06-06T12:00:01Z\",\"template\":\"beta one\"}\n\
         {\"category\":\"net\",\"count\":1,\"first_seen\":\"2026-06-06T12:00:00Z\",\"template\":\"alpha one two\"}\n\
         {\"category\":\"net\",\"count\":1,\"first_seen\":\"2026-06-06T12:00:03Z\",\"template\":\"gamma\"}\n\
         {\"category\":\"validation\",\"count\":1,\"first_seen\":\"2026-06-06T12:00:05Z\",\"template\":\"say \\\"hi\\\"\"}\n"
    );
}

#[test]
fn the_report_is_filtered() {
    let mut o = opts(false);
    o.min_count = 2;
    assert_eq!(render(&sample(), &o), "=== net ===\n     2 beta one\n");
    let mut o = opts(false);
    o.categories = vec!["validation".to_string(), "addrman".to_string(), "none".to_string()];
    assert_eq!(
        render(&sample(), &o),
        "=== addrman ===\n     1 delta <PEER>\n\n=== validation ===\n     1 say \"hi\"\n"
    );
    let mut o = opts(false);
    o.categories = vec!["net".to_string()];
    o.top = Some(2);
    assert_eq!(
        render(&sample(), &o),
        "=== net ===\n     2 beta one\n     1 alpha one two\n"
    );
    o.top = Some(0);
    assert_eq!(render(&sample(), &o), "=== net ===\n");
    o.json = true;
    assert_eq!(render(&sample(), &o), "");
    assert_eq!(render(&Analyzer::new(4, 0), &opts(false)), "");
}

#[test]
fn counts_wider_than_their_column_are_written_out() {
    let line = r#"{"id":1,"category":"net","count":1234567,"first_seen":null,"last_seen":null,"template":[{"t":"S"}]}"#;
    let header = r#"{"_meta":{"version":1,"depth":4,"threshold":0.5}}"#;
    let a = load(&format!("{header}\n{line}\n"));
    assert_eq!(render(&a, &opts(false)), "=== net ===\n1234567 <*>\n");
}

#[test]
fn templates_are_shown_slot_by_slot() {
    assert_eq!(render_template(&vec![]), "");
    assert_eq!(
        render_template(&vec![
            Slot::Text("a".into()),
            Slot::Typed(TokenKind::Ipv6Port),
            Slot::Star,
            Slot::Text("".into()),
        ]),
        "a <IPv6:PORT> <*> "
    );
}

#[test]
fn report_strings_are_escaped() {
    let mut out = "x".to_string();
    json_string(&mut out, "\"\\\n\r\t\u{8}\u{c}\u{0}\u{1f} \u{7f}ä/");
    assert_eq!(
        out,
        "x\"\\\"\\\\\\n\\r\\t\\u0008\\u000c\\u0000\\u001f \u{7f}ä/\""
    );
    let c = Cluster {
        id: 9,
        template: vec![Slot::Text("a\"b".into())],
        count: 3,
        first_seen: None,
        last_seen: Some("later".into()),
    };
    let mut out = String::new();
    write_json_cluster(&mut out, Some("n\ne"), &c);
    assert_eq!(
        out,
        "{\"category\":\"n\\ne\",\"count\":3,\"first_seen\":null,\"template\":\"a\\\"b\"}\n"
    );
}

#[test]
fn compression_is_told_by_the_first_bytes() {
    assert_eq!(detect_kind(&[0x28, 0xB5, 0x2F, 0xFD]), InputKind::Zstd);
    assert_eq!(detect_kind(&[0x28, 0xB5, 0x2F]), InputKind::Plain);
    assert_eq!(detect_kind(&[0x1F, 0x8B, 0, 0]), InputKind::Gzip);
    assert_eq!(detect_kind(&[0x1F, 0x8B]), InputKind::Gzip);
    assert_eq!(detect_kind(&[0x1F]), InputKind::Plain);
    assert_eq!(detect_kind(&[]), InputKind::Plain);
    assert_eq!(detect_kind(b"2026"), InputKind::Plain);
    assert_eq!(detect_kind(&zstd::encode_all(&b"x"[..], 1).unwrap()[..4]), InputKind::Zstd);
}

#[test]
fn node_prefixes_are_stripped_from_merged_logs() {
    assert_eq!(strip_node_prefix("node1 a b"), "a b");
    assert_eq!(strip_node_prefix("nothing"), "nothing");
    assert_eq!(line_content(InputKind::Zstd, "node1 a b\r\n"), "a b");
    assert_eq!(line_content(InputKind::Gzip, "node1 a b\r\n"), "node1 a b");
    assert_eq!(line_content(InputKind::Plain, "a\n\r\n"), "a");
    let mut merged = Analyzer::new(4, 0.5f64.to_bits());
    let packed = zstd::encode_all(&b"n 2026-06-06T12:00:00Z [net] x\n"[..], 1).unwrap();
    feed(&mut merged, &packed);
    assert_eq!(render(&merged, &opts(false)), "=== net ===\n     1 x\n");
}
