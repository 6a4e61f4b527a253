use debug_log_tool::{tokenize, Cluster, Drain, Slot, Token, TokenKind};

fn line(s: &str) -> Vec<Token<'_>> {
    tokenize(s)
}

#[test]
fn identical_lines_fold_into_one_cluster() {
    let mut d = Drain::new(4, 0.5f64.to_bits());
    for _ in 0..3 {
        d.add_tokens(&line("received: inv peer=3"), Some("2026-06-06T12:00:00Z"));
    }
    let clusters: Vec<&Cluster> = d.clusters();
    assert_eq!(clusters.len(), 1);
    assert_eq!(clusters[0].count, 3);
}

#[test]
fn typed_position_collapses_without_starring() {
    let mut d = Drain::new(4, 0.5f64.to_bits());
    for n in 1..=5 {
        d.add_tokens(&line(&format!("received: inv peer={n}")), None);
    }
    let clusters: Vec<&Cluster> = d.clusters();
    assert_eq!(clusters.len(), 1);
    assert_eq!(clusters[0].count, 5);
    // The peer=N position stayed as Typed(PeerId), not Star.
    let has_star = clusters[0].template.iter().any(|s| matches!(s, Slot::Star));
    let has_peer = clusters[0]
        .template
        .iter()
        .any(|s| matches!(s, Slot::Typed(TokenKind::PeerId)));
    assert!(!has_star, "no Star expected: {:?}", clusters[0].template);
    assert!(has_peer, "expected Typed(PeerId) in template");
}

#[test]
fn differing_literal_position_demotes_to_star() {
    let mut d = Drain::new(4, 0.5f64.to_bits());
    d.add_tokens(&line("The event named foo is done"), None);
    d.add_tokens(&line("The event named bar is done"), None);
    let clusters: Vec<&Cluster> = d.clusters();
    assert_eq!(clusters.len(), 1);
    assert_eq!(clusters[0].count, 2);
    assert_eq!(
        clusters[0].template,
        vec![
            Slot::Text("The".into()),
            Slot::Text("event".into()),
            Slot::Text("named".into()),
            Slot::Star,
            Slot::Text("is".into()),
            Slot::Text("done".into()),
        ]
    );
}

#[test]
fn disjoint_prefixes_split_into_separate_clusters() {
    let mut d = Drain::new(4, 0.5f64.to_bits());
    d.add_tokens(&line("alpha one two"), None);
    d.add_tokens(&line("beta one two"), None);
    let clusters: Vec<&Cluster> = d.clusters();
    assert_eq!(clusters.len(), 2);
    for c in &clusters {
        assert_eq!(c.count, 1);
    }
}

#[test]
fn first_and_last_seen_track_timestamps() {
    let mut d = Drain::new(4, 0.5f64.to_bits());
    d.add_tokens(&line("hello"), Some("2026-06-01T00:00:00Z"));
    d.add_tokens(&line("hello"), Some("2026-06-05T23:59:59Z"));
    let c = d.clusters()[0];
    assert_eq!(c.first_seen.as_deref(), Some("2026-06-01T00:00:00Z"));
    assert_eq!(c.last_seen.as_deref(), Some("2026-06-05T23:59:59Z"));
}

#[test]
fn insert_cluster_round_trips() {
    let mut a = Drain::new(4, 0.5f64.to_bits());
    a.add_tokens(&line("The event named foo is done"), None);
    a.add_tokens(&line("The event named bar is done"), None);

    let mut b = Drain::new(4, 0.5f64.to_bits());
    for c in a.clusters() {
        b.insert_cluster(c.clone());
    }
    // Re-ingest a matching line via the reloaded tree.
    b.add_tokens(&line("The event named baz is done"), None);
    let clusters: Vec<&Cluster> = b.clusters();
    assert_eq!(clusters.len(), 1);
    assert_eq!(clusters[0].count, 3);
}

fn half() -> Drain {
    Drain::new(4, 0.5f64.to_bits())
}

#[test]
fn a_repeated_line_starts_no_cluster() {
    let mut d = half();
    for l in ["a b c", "", "x", "a b d", "peer=1 y"] {
        d.add_tokens(&line(l), None);
        let n = d.clusters().len();
        d.add_tokens(&line(l), None);
        assert_eq!(d.clusters().len(), n);
    }
}

#[test]
fn new_ids_are_fresh() {
    let mut d = half();
    for (i, l) in ["one", "one two", "three four five", "6"].iter().enumerate() {
        d.add_tokens(&line(l), None);
        assert_eq!(d.clusters().last().unwrap().id, i as u64 + 1);
    }
    d.insert_cluster(Cluster {
        id: 100,
        template: vec![Slot::Text("saved".into()), Slot::Star],
        count: 7,
        first_seen: None,
        last_seen: None,
    });
    d.insert_cluster(Cluster {
        id: 50,
        template: vec![Slot::Text("saved".into()), Slot::Text("again".into())],
        count: 7,
        first_seen: None,
        last_seen: None,
    });
    d.add_tokens(&line("a line of another length here"), None);
    assert_eq!(d.clusters().iter().map(|c| c.id).max(), Some(101));
}

#[test]
fn a_lower_threshold_folds_more() {
    let lines = ["a b x y", "a b z w", "a b x w"];
    let count = |threshold: f64| {
        let mut d = Drain::new(4, threshold.to_bits());
        for l in lines {
            d.add_tokens(&line(l), None);
        }
        d.clusters().len()
    };
    assert_eq!(count(0.25), 1);
    assert_eq!(count(0.5), 1);
    assert_eq!(count(0.75), 2);
    assert_eq!(count(1.0), 3);
    assert_eq!(count(f64::NAN), 3);
    assert_eq!(count(-1.0), 1);
}

#[test]
fn a_fold_never_takes_a_star_back() {
    let mut d = half();
    for l in ["a b x y", "a b z y", "a b x y"] {
        d.add_tokens(&line(l), None);
    }
    assert_eq!(
        d.clusters()[0].template,
        vec![
            Slot::Text("a".into()),
            Slot::Text("b".into()),
            Slot::Star,
            Slot::Text("y".into()),
        ]
    );
}

#[test]
fn the_most_similar_cluster_takes_a_line() {
    let mut d = Drain::new(2, 0.75f64.to_bits());
    d.add_tokens(&line("a b c d"), None);
    d.add_tokens(&line("a b x z"), None);
    assert_eq!(d.clusters().len(), 2);
    d.add_tokens(&line("a b x y"), None);
    let counts: Vec<u64> = d.clusters().iter().map(|c| c.count).collect();
    assert_eq!(counts, vec![1, 2]);
}

#[test]
fn a_depth_below_two_counts_as_two() {
    let mut d = Drain::new(0, 0.5f64.to_bits());
    assert_eq!(d.depth(), 2);
    assert_eq!(d.threshold(), 0.5f64.to_bits());
    d.add_tokens(&line("a x y"), None);
    d.add_tokens(&line("b x y"), None);
    assert_eq!(d.clusters().len(), 1);
}

#[test]
fn a_tree_is_rebuilt_from_its_clusters() {
    let mut a = half();
    for l in ["a b c", "a b d", "x", "peer=3 up", "q r s t"] {
        a.add_tokens(&line(l), Some("2026-06-01T00:00:00Z"));
    }
    let mut b = half();
    for c in a.clusters() {
        b.insert_cluster(c.clone());
    }
    for d in [&mut a, &mut b] {
        d.add_tokens(&line("never seen before this"), None);
    }
    let shape = |d: &Drain| -> Vec<(u64, u64, Vec<Slot>)> {
        d.clusters()
            .iter()
            .map(|c| (c.id, c.count, c.template.clone()))
            .collect()
    };
    assert_eq!(shape(&a), shape(&b));
}

#[test]
fn a_full_counter_is_refused() {
    let mut d = half();
    d.insert_cluster(Cluster {
        id: u64::MAX - 1,
        template: vec![Slot::Text("x".into())],
        count: u64::MAX,
        first_seen: None,
        last_seen: None,
    });
    assert!(!d.try_add_tokens(&line("x"), None));
    assert!(!d.try_add_tokens(&line("y"), None));
    assert_eq!(d.clusters().len(), 1);
}
