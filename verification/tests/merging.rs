use std::io::{Read, Write};

use debug_log_tool::check::{CheckError, CheckResult, InputHash, RoundTrip};
use debug_log_tool::day::merge_day;
use debug_log_tool::interleave::{push_prefixed, Batcher, Entry, Merger};
use debug_log_tool::lines::lines;
use debug_log_tool::merge::{discover_inputs, plan_days, PlanError};
use debug_log_tool::split::{
    date_from_filename, day_filename, log_filename, split_log, split_log_by_date, split_prefix,
    DatedSplitter, NodeLog, SplitError, Splitter,
};
use debug_log_tool::stream::DayMerge;
use debug_log_tool::summary::{render_result, Tally};
use debug_log_tool::timestamp::parse_timestamp;
use flate2::read::MultiGzDecoder;
use flate2::write::GzEncoder;
use flate2::Compression;

fn log(node: &str, content: &str) -> NodeLog {
    NodeLog {
        node: node.to_string(),
        content: content.to_string(),
    }
}

fn merge(logs: Vec<NodeLog>) -> String {
    merge_day(&logs, false).unwrap().text
}

fn gz(content: &str) -> Vec<u8> {
    let mut enc = GzEncoder::new(Vec::new(), Compression::default());
    enc.write_all(content.as_bytes()).unwrap();
    enc.finish().unwrap()
}

fn read_gz(bytes: &[u8]) -> String {
    let mut s = String::new();
    MultiGzDecoder::new(bytes).read_to_string(&mut s).unwrap();
    s
}

fn strings(names: &[&str]) -> Vec<String> {
    names.iter().map(|n| n.to_string()).collect()
}

#[test]
fn merge_interleaves_by_timestamp() {
    let node1 = gz(
        "2026-05-15T00:06:30 first-on-node1\n\
         2026-05-15T00:06:32.500000Z third-on-node1\n",
    );
    let node2 = gz(
        "2026-05-15T00:06:31.149660Z second-on-node2\n\
         2026-05-15T00:06:33 fourth-on-node2\n",
    );
    assert_eq!(
        merge(vec![
            log("node1", &read_gz(&node1)),
            log("node2", &read_gz(&node2)),
        ]),
        "node1 2026-05-15T00:06:30 first-on-node1\n\
         node2 2026-05-15T00:06:31.149660Z second-on-node2\n\
         node1 2026-05-15T00:06:32.500000Z third-on-node1\n\
         node2 2026-05-15T00:06:33 fourth-on-node2\n",
    );
}

#[test]
fn merge_then_split_round_trips_synthetic_logs() {
    // node1 includes a continuation line (no leading timestamp) to exercise
    // the "inherit previous timestamp" path on both sides.
    let node1 = "2026-05-15T00:06:30 first-on-node1\n\
                 \tcontinuation-line\n\
                 2026-05-15T00:06:32.500000Z third-on-node1\n";
    let node2 = "2026-05-15T00:06:31.149660Z second-on-node2\n\
                 2026-05-15T00:06:33 fourth-on-node2\n";

    let inputs = plan_days(
        discover_inputs(&strings(&[
            "debug.log-20260515-node2.gz",
            "debug.log-20260515-node1.gz",
        ])),
        true,
        false,
    )
    .unwrap();
    assert_eq!(inputs.len(), 1);
    let logs: Vec<NodeLog> = inputs[0]
        .inputs
        .iter()
        .map(|i| log(&i.node, if i.node == "node1" { node1 } else { node2 }))
        .collect();
    let merged = merge(logs);

    let packed = zstd::encode_all(merged.as_bytes(), 19).unwrap();
    let unpacked = String::from_utf8(zstd::decode_all(&packed[..]).unwrap()).unwrap();
    let date = date_from_filename(&day_filename(&inputs[0].date)).unwrap();
    let split = split_log(&unpacked).unwrap();
    let restored: Vec<(String, &str)> = split
        .iter()
        .map(|l| (log_filename(&date, &l.node), l.content.as_str()))
        .collect();
    assert_eq!(
        restored,
        vec![
            ("debug.log-20260515-node1.gz".to_string(), node1),
            ("debug.log-20260515-node2.gz".to_string(), node2),
        ]
    );

    // Under the dates of the lines themselves, the files are the same.
    let mut dated = DatedSplitter::new();
    let mut files: Vec<(String, String)> = Vec::new();
    for line in lines(&unpacked) {
        let route = dated.route(line).unwrap();
        if route.is_new {
            files.push((log_filename(&route.date, route.node), String::new()));
        }
        files[route.writer].1.push_str(route.rest);
    }
    assert_eq!(
        files,
        vec![
            ("debug.log-20260515-node1.gz".to_string(), node1.to_string()),
            ("debug.log-20260515-node2.gz".to_string(), node2.to_string()),
        ]
    );
}

#[test]
fn equal_timestamps_keep_the_order_of_the_inputs() {
    let t = "2026-05-15T00:06:30";
    assert_eq!(
        merge(vec![
            log("b", &format!("{t} b1\n{t} b2\n")),
            log("a", &format!("{t} a1\n")),
        ]),
        format!("b {t} b1\nb {t} b2\na {t} a1\n")
    );
}

#[test]
fn lines_before_any_timestamp_come_first() {
    assert_eq!(
        merge(vec![
            log("a", "2026-05-15T00:06:30 a\n"),
            log("b", "start\n2026-05-15T00:06:29 b\nmore\n"),
        ]),
        "b start\nb 2026-05-15T00:06:29 b\nb more\na 2026-05-15T00:06:30 a\n"
    );
}

#[test]
fn a_log_that_goes_back_keeps_its_order() {
    assert_eq!(
        merge(vec![
            log("a", "2026-05-15T00:06:31 a1\n2026-05-15T00:06:29 a2\n"),
            log("b", "2026-05-15T00:06:30 b1\n"),
        ]),
        "b 2026-05-15T00:06:30 b1\na 2026-05-15T00:06:31 a1\na 2026-05-15T00:06:29 a2\n"
    );
}

#[test]
fn an_empty_log_is_merged_and_checked() {
    let logs = vec![log("a", ""), log("b", "2026-05-15T00:06:30 b\n")];
    let day = merge_day(&logs, true).unwrap();
    assert_eq!(day.text, "b 2026-05-15T00:06:30 b\n");
    assert_eq!(
        day.results,
        vec![
            CheckResult { node: "a".into(), lines: 0, ok: true },
            CheckResult { node: "b".into(), lines: 1, ok: true },
        ]
    );
    assert_eq!(split_log(&day.text).unwrap().len(), 1);
}

#[test]
fn the_check_passes_and_is_sorted_by_node() {
    let logs = vec![
        log("carol", "2026-05-15T00:06:30 x\n\ty\n"),
        log("alice", "2026-05-15T00:06:29 ä\n"),
        log("bob-2", "no timestamp at all"),
    ];
    let day = merge_day(&logs, true).unwrap();
    assert_eq!(
        day.results,
        vec![
            CheckResult { node: "alice".into(), lines: 0, ok: false },
            CheckResult { node: "bob-2".into(), lines: 1, ok: false },
            CheckResult { node: "carol".into(), lines: 2, ok: true },
        ]
    );

    // With its line end, the line that comes first is a line of its own.
    let logs = vec![
        log("carol", "2026-05-15T00:06:30 x\n\ty\n"),
        log("alice", "2026-05-15T00:06:29 ä\n"),
        log("bob-2", "no timestamp at all\n"),
    ];
    let day = merge_day(&logs, true).unwrap();
    assert_eq!(
        day.results,
        vec![
            CheckResult { node: "alice".into(), lines: 1, ok: true },
            CheckResult { node: "bob-2".into(), lines: 1, ok: true },
            CheckResult { node: "carol".into(), lines: 2, ok: true },
        ]
    );
}

#[test]
fn a_log_that_runs_into_the_next_line_fails_the_check() {
    let a = "2026-05-15T00:06:30 x";
    let b = "2026-05-15T00:06:31 y\n";
    let logs = vec![log("a", a), log("b", b)];
    let day = merge_day(&logs, true).unwrap();
    assert_eq!(day.text, format!("a {a}b {b}"));
    assert_eq!(
        day.results,
        vec![
            CheckResult { node: "a".into(), lines: 1, ok: false },
            CheckResult { node: "b".into(), lines: 0, ok: false },
        ]
    );
    let split = split_log(&day.text).unwrap();
    assert_eq!(split.len(), 1);
    assert_eq!((split[0].node.as_str(), split[0].content.as_str()), ("a", format!("{a}b {b}").as_str()));

    // The last line of all needs no line end.
    let logs = vec![log("a", &format!("{a}\n")), log("b", b.trim_end())];
    let day = merge_day(&logs, true).unwrap();
    assert_eq!(
        day.results,
        vec![
            CheckResult { node: "a".into(), lines: 1, ok: true },
            CheckResult { node: "b".into(), lines: 1, ok: true },
        ]
    );
}

#[test]
fn a_node_on_two_lines_fails_the_check() {
    let logs = vec![log("x\ny", "z\n")];
    assert_eq!(
        merge_day(&logs, true).map(|d| d.text),
        Err(CheckError::MissingPrefix(1))
    );
    // The fault is found at the end, where the last line has no line end.
    let logs = vec![log("a", "b\n"), log("c d", "e")];
    assert_eq!(
        merge_day(&logs, true).map(|d| d.text),
        Err(CheckError::UnknownNode { line_no: 2, node: "c".into() })
    );
}

#[test]
fn a_node_with_a_blank_fails_the_check() {
    let logs = vec![log("my node", "2026-05-15T00:06:30 x\n")];
    assert_eq!(
        merge_day(&logs, true).map(|d| d.text),
        Err(CheckError::UnknownNode { line_no: 1, node: "my".into() })
    );
    assert_eq!(merge(logs), "my node 2026-05-15T00:06:30 x\n");
}

#[test]
fn nodes_that_run_together_fail_the_check() {
    let logs = vec![log("my", "a\n"), log("my node", "b\n")];
    let day = merge_day(&logs, true).unwrap();
    assert_eq!(
        day.results,
        vec![
            CheckResult { node: "my".into(), lines: 2, ok: false },
            CheckResult { node: "my node".into(), lines: 0, ok: false },
        ]
    );
}

#[test]
fn a_round_trip_recovers_line_by_line() {
    let nodes = strings(&["a", "b", "a"]);
    let mut reader = Batcher::new(true);
    assert!(reader.push("x y\n".to_string()).is_none());
    let hash = reader.hash().unwrap();
    let inputs = vec![
        InputHash { node: "b".into(), hash },
        InputHash { node: "a".into(), hash },
    ];
    let expected = vec![
        CheckResult { node: "a".into(), lines: 1, ok: true },
        CheckResult { node: "b".into(), lines: 0, ok: false },
    ];
    // The lines count, not the pieces that they come in.
    for pieces in [vec!["a x y\n"], vec!["a", " ", "x y", "\n"], vec!["", "a x y\n", ""]] {
        let mut trip = RoundTrip::new(&nodes);
        for piece in pieces {
            assert!(trip.has_room(piece));
            assert_eq!(trip.feed(piece), Ok(()));
        }
        assert_eq!(trip.results(&inputs).unwrap(), expected);
    }

    let mut trip = RoundTrip::new(&nodes);
    assert_eq!(trip.feed("a x y\nb z\nnothing\n"), Err(CheckError::MissingPrefix(3)));
    let mut trip = RoundTrip::new(&nodes);
    assert_eq!(trip.feed("a x y\nc"), Ok(()));
    assert_eq!(
        trip.feed(" x\nnothing\n"),
        Err(CheckError::UnknownNode { line_no: 2, node: "c".into() })
    );
    let mut trip = RoundTrip::new(&nodes);
    assert_eq!(trip.feed("a x y\nnothing"), Ok(()));
    assert_eq!(trip.results(&inputs), Err(CheckError::MissingPrefix(2)));
    let mut trip = RoundTrip::new(&nodes);
    assert_eq!(trip.feed("b x y\na "), Ok(()));
    assert_eq!(
        trip.results(&inputs).unwrap(),
        vec![
            CheckResult { node: "a".into(), lines: 1, ok: false },
            CheckResult { node: "b".into(), lines: 1, ok: true },
        ]
    );
}

#[test]
fn batches_are_full_at_their_limits() {
    let mut b = Batcher::new(false);
    for i in 0..1023 {
        assert!(b.push(format!("{i}\n")).is_none());
    }
    let batch = b.push("last\n".to_string()).unwrap();
    assert_eq!(batch.len(), 1024);
    assert_eq!(batch[7].line, "7\n");
    assert_eq!(batch[1023].line, "last\n");
    assert!(b.finish().is_none());

    let half = "ä".repeat(64 * 1024);
    assert!(b.push(half.clone()).is_none());
    assert_eq!(b.push(half).unwrap().len(), 2);
    assert!(b.push("rest".to_string()).is_none());
    assert_eq!(b.finish().unwrap().len(), 1);
    assert!(b.hash().is_none());
}

#[test]
fn lines_inherit_the_timestamp_before_them() {
    let mut b = Batcher::new(false);
    b.push("no time\n".to_string());
    b.push("2026-05-15T00:06:30 x\n".to_string());
    b.push("\tmore\n".to_string());
    let batch = b.finish().unwrap();
    let key = parse_timestamp("2026-05-15T00:06:30").unwrap();
    assert_eq!(batch[0].key.year, 0);
    assert_eq!(batch[1].key, key);
    assert_eq!(batch[2].key, key);
}

#[test]
fn the_merger_gives_the_earliest() {
    let entry = |t: &str| Entry {
        key: parse_timestamp(t).unwrap(),
        line: t.to_string(),
    };
    let mut m = Merger::new(3);
    assert!(m.pop().is_none());
    m.put(2, entry("2026-05-15T00:06:30"));
    m.put(0, entry("2026-05-15T00:06:31"));
    m.put(1, entry("2026-05-15T00:06:30"));
    let order: Vec<usize> = std::iter::from_fn(|| m.pop().map(|(i, _)| i)).collect();
    assert_eq!(order, vec![1, 2, 0]);
}

#[test]
fn names_that_are_no_logs_are_skipped() {
    let inputs = discover_inputs(&strings(&[
        "debug.log-20251116-bob.gz",
        "debug.log-20251115-alice.gz",
        "debug.log-20251115.zst",
        "debug.log-20251115-.gz",
        "debug.log--alice.gz",
        "debug.log-alice.gz",
        "debug.log-.gz",
        "debug.log-20251115-alice.gz.bak",
        "other-20251115-alice.gz",
        "debug.log-20251115-node-with-dashes.gz",
        "debug.log",
    ]));
    let found: Vec<(&str, &str, &str)> = inputs
        .iter()
        .map(|i| (i.path.as_str(), i.date.as_str(), i.node.as_str()))
        .collect();
    assert_eq!(
        found,
        vec![
            ("debug.log-20251115-alice.gz", "20251115", "alice"),
            (
                "debug.log-20251115-node-with-dashes.gz",
                "20251115",
                "node-with-dashes"
            ),
            ("debug.log-20251116-bob.gz", "20251116", "bob"),
        ]
    );
    for i in &inputs {
        assert_eq!(log_filename(&i.date, &i.node), i.path);
    }
}

#[test]
fn days_are_planned_in_order() {
    let inputs = || {
        discover_inputs(&strings(&[
            "debug.log-20251117-a.gz",
            "debug.log-20251115-b.gz",
            "debug.log-20251117-c.gz",
            "debug.log-20251116-a.gz",
            "debug.log-20251115-a.gz",
        ]))
    };
    let days = plan_days(inputs(), true, false).unwrap();
    let plan: Vec<(&str, Vec<&str>)> = days
        .iter()
        .map(|d| {
            (
                d.date.as_str(),
                d.inputs.iter().map(|i| i.node.as_str()).collect(),
            )
        })
        .collect();
    assert_eq!(
        plan,
        vec![
            ("20251115", vec!["a", "b"]),
            ("20251116", vec!["a"]),
            ("20251117", vec!["a", "c"]),
        ]
    );
    assert!(plan_days(inputs(), false, true).is_ok());
    assert!(matches!(plan_days(inputs(), false, false), Err(PlanError::NoOutput)));
    assert!(matches!(plan_days(Vec::new(), true, true), Err(PlanError::NoInputs)));
    assert!(matches!(plan_days(Vec::new(), false, false), Err(PlanError::NoInputs)));
}

#[test]
fn dates_are_found_in_names() {
    assert_eq!(date_from_filename("debug.log-20251115.zst"), Ok("20251115".into()));
    assert_eq!(date_from_filename("debug.log-a-b.zst"), Ok("a-b".into()));
    for name in ["debug.log-.zst", "debug.log-20251115.gz", "20251115.zst", "merged.zst", "", "debug.log-zst"] {
        assert_eq!(date_from_filename(name), Err(SplitError::Name));
    }
}

#[test]
fn prefixes_are_split_off() {
    assert_eq!(split_prefix("node1 a b\n", 5), Ok(("node1", "a b\n")));
    assert_eq!(split_prefix(" x", 5), Ok(("", "x")));
    assert_eq!(split_prefix("node1 ", 5), Ok(("node1", "")));
    assert_eq!(split_prefix("node1\n", 5), Err(SplitError::MissingPrefix(5)));
    let mut out = "> ".to_string();
    push_prefixed(&mut out, "node1", "x y\n");
    assert_eq!(out, "> node1 x y\n");
}

#[test]
fn a_line_without_a_node_is_refused_by_its_number() {
    assert_eq!(
        split_log("a x\nb y\nnothing\na z\n").map(|l| l.len()),
        Err(SplitError::MissingPrefix(3))
    );
    let mut s = Splitter::new();
    let first = s.route("a x\n").unwrap();
    assert_eq!((first.writer, first.is_new, first.node, first.rest), (0, true, "a", "x\n"));
    let second = s.route("b x\n").unwrap();
    assert_eq!((second.writer, second.is_new), (1, true));
    let third = s.route("a y\n").unwrap();
    assert_eq!((third.writer, third.is_new, third.rest), (0, false, "y\n"));
    assert_eq!(s.route("\n").map(|r| r.writer), Err(SplitError::MissingPrefix(4)));
    assert_eq!(s.line_no(), 4);
}

#[test]
fn each_line_goes_to_its_node_and_date() {
    let text = "a 2026-05-15T23:59:59 1\n\
                b 2026-05-15T23:59:59 2\n\
                a more\n\
                a 2026-05-16T00:00:00 3\n\
                b  more\n\
                a more\n\
                a 2026-05-15T00:00:00 4\n\
                a last";
    let logs = split_log_by_date(text).unwrap();
    let got: Vec<(&str, &str, &str)> = logs
        .iter()
        .map(|l| (l.node.as_str(), l.date.as_str(), l.content.as_str()))
        .collect();
    assert_eq!(
        got,
        vec![
            (
                "a",
                "20260515",
                "2026-05-15T23:59:59 1\nmore\n2026-05-15T00:00:00 4\nlast"
            ),
            ("b", "20260515", "2026-05-15T23:59:59 2\n more\n"),
            ("a", "20260516", "2026-05-16T00:00:00 3\nmore\n"),
        ]
    );
    assert!(split_log_by_date("").unwrap().is_empty());
    assert_eq!(
        split_log_by_date("a 2026-05-15T23:59:59\nb x\nnothing\n").map(|l| l.len()),
        Err(SplitError::NoDate { line_no: 2, node: "b".into() })
    );
    assert_eq!(
        split_log_by_date("a 2026-05-15T23:59:59\nnothing\nb x\n").map(|l| l.len()),
        Err(SplitError::MissingPrefix(2))
    );
}

#[test]
fn lines_are_split_by_their_own_dates() {
    let mut s = DatedSplitter::new();
    assert_eq!(
        s.route("a no date yet\n").map(|r| r.writer),
        Err(SplitError::NoDate { line_no: 1, node: "a".into() })
    );
    let mut route = |l: &str| {
        let r = s.route(l).unwrap();
        (r.writer, r.is_new, r.date)
    };
    assert_eq!(route("a 2026-05-15T23:59:59 x\n"), (0, true, "20260515".into()));
    assert_eq!(route("b 0007-01-02T23:59:59 x\n"), (1, true, "00070102".into()));
    assert_eq!(route("a \tmore\n"), (0, false, "20260515".into()));
    assert_eq!(route("a 2026-05-16T00:00:00 x\n"), (2, true, "20260516".into()));
    assert_eq!(route("b \tmore\n"), (1, false, "00070102".into()));
    assert_eq!(route("a \tmore\n"), (2, false, "20260516".into()));
    assert_eq!(route("a 2026-05-15T00:00:00 x\n"), (0, false, "20260515".into()));
    assert_eq!(
        s.route("nothing\n").map(|r| r.writer),
        Err(SplitError::MissingPrefix(9))
    );
    assert_eq!(s.line_no(), 9);
}

#[test]
fn texts_are_read_by_lines() {
    assert_eq!(lines(""), Vec::<&str>::new());
    assert_eq!(lines("a"), vec!["a"]);
    assert_eq!(lines("a\n"), vec!["a\n"]);
    assert_eq!(lines("a\n\nä\r\nb"), vec!["a\n", "\n", "ä\r\n", "b"]);
    assert_eq!(lines("a\n\nä\r\nb").concat(), "a\n\nä\r\nb");
}

#[test]
fn a_log_without_a_last_line_end_runs_into_the_next() {
    let merged = merge(vec![log("a", "x"), log("b", "y\n")]);
    assert_eq!(merged, "a xb y\n");
    let alone = merge(vec![log("a", "x\ny")]);
    assert_eq!(split_log(&alone).unwrap()[0].content, "x\ny");
}

#[test]
fn results_are_printed() {
    let result = |node: &str, lines: u64, ok: bool| {
        render_result("20251115", &CheckResult { node: node.into(), lines, ok })
    };
    assert_eq!(result("alice", 39090878, true), "  20251115  alice          OK    39090878 lines");
    assert_eq!(result("bob", 0, false), "  20251115  bob            FAIL  0 lines");
    assert_eq!(
        result("a-rather-long-name", 10, true),
        "  20251115  a-rather-long-name OK    10 lines"
    );
    let mut tally = Tally::new();
    assert!(tally.has_room());
    tally.record(true);
    assert_eq!(tally.render_summary(), "check: 1/1 files round-trip identical");
    assert_eq!(tally.render_failure(), None);
    tally.record(false);
    tally.record(false);
    assert_eq!(tally.render_summary(), "check: 1/3 files round-trip identical");
    assert_eq!(
        tally.render_failure(),
        Some("2 file(s) failed the round-trip check".to_string())
    );
}

#[test]
fn a_merge_is_driven_line_by_line() {
    let entry = |line: &str| Entry {
        key: parse_timestamp(line).unwrap_or_default(),
        line: line.to_string(),
    };
    let a = ["2026-05-15T00:06:30 a1\n", "2026-05-15T00:06:32 a2\n"];
    let b = ["2026-05-15T00:06:31 b1\n"];
    for check in [false, true] {
        let mut merge = DayMerge::new(strings(&["a", "b", "c"]), check);
        let mut left = [a.to_vec(), b.to_vec(), Vec::new()];
        for (i, lines) in left.iter_mut().enumerate() {
            if !lines.is_empty() {
                merge.supply(i, entry(lines.remove(0)));
            }
        }
        let mut out = Vec::new();
        while let Some(step) = merge.next() {
            assert!(merge.has_room(&step.text));
            assert_eq!(merge.verify(&step.text), Ok(()));
            out.push((step.reader, step.text));
            if !left[step.reader].is_empty() {
                merge.supply(step.reader, entry(left[step.reader].remove(0)));
            }
        }
        assert_eq!(
            out,
            vec![
                (0, "a 2026-05-15T00:06:30 a1\n".to_string()),
                (1, "b 2026-05-15T00:06:31 b1\n".to_string()),
                (0, "a 2026-05-15T00:06:32 a2\n".to_string()),
            ]
        );
        let hash = |lines: &[&str]| {
            let mut r = Batcher::new(true);
            for l in lines {
                r.push(l.to_string());
            }
            r.hash().unwrap()
        };
        let results = merge.results(&vec![hash(&a), hash(&a), hash(&[])]).unwrap();
        if check {
            assert_eq!(
                results,
                vec![
                    CheckResult { node: "a".into(), lines: 2, ok: true },
                    CheckResult { node: "b".into(), lines: 1, ok: false },
                    CheckResult { node: "c".into(), lines: 0, ok: true },
                ]
            );
        } else {
            assert!(results.is_empty());
        }
    }
}

#[test]
fn a_merge_of_a_node_with_a_blank_is_stopped() {
    let mut merge = DayMerge::new(strings(&["my node"]), true);
    merge.supply(0, Entry { key: Default::default(), line: "x\n".to_string() });
    let step = merge.next().unwrap();
    assert_eq!(step.text, "my node x\n");
    assert_eq!(
        merge.verify(&step.text),
        Err(CheckError::UnknownNode { line_no: 1, node: "my".into() })
    );
    let mut merge = DayMerge::new(strings(&["my node"]), false);
    merge.supply(0, Entry { key: Default::default(), line: "x\n".to_string() });
    let step = merge.next().unwrap();
    assert_eq!(merge.verify(&step.text), Ok(()));
    assert!(merge.next().is_none());
}

#[test]
fn each_line_goes_to_its_node() {
    let logs = split_log("a 1\nb 2\na  3\n b\nb \n").unwrap();
    let got: Vec<(&str, &str)> = logs
        .iter()
        .map(|l| (l.node.as_str(), l.content.as_str()))
        .collect();
    assert_eq!(got, vec![("a", "1\n 3\n"), ("b", "2\n\n"), ("", "b\n")]);
}
