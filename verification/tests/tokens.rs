use debug_log_tool::tokenizer::{tokenize, Token, TokenKind};

fn kinds(line: &str) -> Vec<TokenKind> {
    tokenize(line)
        .into_iter()
        .filter_map(|t| t.kind())
        .collect()
}

fn render(line: &str) -> String {
    tokenize(line)
        .into_iter()
        .map(|t| match t.kind() {
            None => t.text().to_string(),
            Some(k) => format!("<{}>", k.label()),
        })
        .collect::<Vec<_>>()
        .join(" ")
}

#[test]
fn token_equality_collapses_typed_values() {
    assert_eq!(Token::PeerId("3"), Token::PeerId("4567"));
    assert_eq!(Token::Int("1"), Token::Int("999"));
    assert_ne!(Token::Text("a"), Token::Text("b"));
    assert_ne!(Token::Int("1"), Token::PeerId("1"));
    assert_ne!(Token::Int("1"), Token::Text("1"));
}

#[test]
fn label_round_trip() {
    for k in [
        TokenKind::PeerId,
        TokenKind::BlockHeight,
        TokenKind::Int,
        TokenKind::Float,
        TokenKind::Hash,
        TokenKind::Hex,
        TokenKind::Ipv4,
        TokenKind::Ipv4Port,
        TokenKind::Ipv6,
        TokenKind::Ipv6Port,
        TokenKind::Onion,
        TokenKind::OnionPort,
        TokenKind::I2P,
        TokenKind::I2PPort,
        TokenKind::ByteCount,
        TokenKind::Duration,
        TokenKind::Bech32,
        TokenKind::Base58,
    ] {
        assert_eq!(TokenKind::from_label(k.label()), Some(k));
    }
    assert!(TokenKind::from_label("NOPE").is_none());
}

#[test]
fn recognizers_positive() {
    assert_eq!(kinds("peer=42"), vec![TokenKind::PeerId]);
    assert_eq!(kinds("height=800000"), vec![TokenKind::BlockHeight]);
    assert_eq!(kinds("37 bytes"), vec![TokenKind::ByteCount]);
    assert_eq!(kinds("12.34ms"), vec![TokenKind::Duration]);
    assert_eq!(kinds("500ns"), vec![TokenKind::Duration]);
    assert_eq!(kinds(&"a".repeat(64)), vec![TokenKind::Hash]);
    assert_eq!(kinds("0x20000000"), vec![TokenKind::Hex]);
    assert_eq!(kinds("deadbeef00"), vec![TokenKind::Hex]); // 10 hex incl. a-f
    assert_eq!(kinds("192.0.2.1"), vec![TokenKind::Ipv4]);
    assert_eq!(kinds("192.0.2.1:8333"), vec![TokenKind::Ipv4Port]);
    assert_eq!(kinds("fe80::1"), vec![TokenKind::Ipv6]);
    assert_eq!(kinds("[::1]:8333"), vec![TokenKind::Ipv6Port]);
    assert_eq!(kinds("abcdefghijklmnop.onion"), vec![TokenKind::Onion]);
    assert_eq!(
        kinds("5pcdrykqq4dewrtm4ngeduhivsqqmzs5rvt5icxnjmazn4c3yxta.b32.i2p"),
        vec![TokenKind::I2P]
    );
    assert_eq!(
        kinds("5pcdrykqq4dewrtm4ngeduhivsqqmzs5rvt5icxnjmazn4c3yxta.b32.i2p:0"),
        vec![TokenKind::I2PPort]
    );
    assert_eq!(
        kinds("abcdefghijklmnop.onion:8333"),
        vec![TokenKind::OnionPort]
    );
    assert_eq!(
        kinds("bc1qw508d6qejxtdg4y5r3zarvary0c5xw7kv8f3t4"),
        vec![TokenKind::Bech32]
    );
    assert_eq!(
        kinds("1BvBMSEYstWetqTFn5Au4m4GFg7xJaNVN2"),
        vec![TokenKind::Base58]
    );
    assert_eq!(kinds("12.34"), vec![TokenKind::Float]);
    assert_eq!(kinds("-7"), vec![TokenKind::Int]);
}

#[test]
fn recognizers_negative_examples_stay_text() {
    // Garbage inputs that *don't* match — confirm they fall through to Text.
    assert!(kinds("peer=abc").is_empty());
    assert!(kinds("height=-1").is_empty());
    assert!(kinds("12.34mss").is_empty()); // not a known unit
    assert!(kinds(&"a".repeat(65)).is_empty()); // hash must be exactly 64
    assert!(kinds("192.0.2").is_empty()); // 3-octet
    assert!(kinds("192.0.2.999").is_empty()); // octet out of range
    assert!(kinds("not.onion").is_empty()); // wrong base length
    assert!(kinds("bc1!").is_empty()); // invalid bech32 alphabet
    assert!(kinds("123").is_empty() || kinds("123") == vec![TokenKind::Int]); // pure digit = Int, not Base58
}

#[test]
fn tokenize_full_lines() {
    assert_eq!(
        render("received: inv (8 bytes) peer=3"),
        "received : inv ( <BYTES> ) <PEER>"
    );
    assert_eq!(
        render("sending inv (2377 bytes) peer=8632"),
        "sending inv ( <BYTES> ) <PEER>"
    );
    assert_eq!(
        render(
            "got inv: wtx 6c83e32df10ff426274085a8dd329fe2525899f9b0616207769389c1a60e1351  have peer=799"
        ),
        "got inv : wtx <HASH> have <PEER>"
    );
    assert_eq!(
        render(
            "got inv: wtx 6c83e32df10ff426274085a8dd329fe2525899f9b0616207769389c1a60e1351  have peer=799"
        ),
        "got inv : wtx <HASH> have <PEER>"
    );
    assert_eq!(
        render(
            "TransactionAddedToMempool: txid=38925028e45fde071a75a7497eb215d3070f33298bda82f5a3b43cd24aa35673 wtxid=f09e953bbcd75f8531ee65ed2822ceb59ca691104cfcabaaddf98c9c57a5f928"
        ),
        "TransactionAddedToMempool : txid = <HASH> wtxid = <HASH>"
    );
    assert_eq!(
        render(
            "1 Selected 5pcdrykqq4dewrtm4ngeduhivszcmzs5rvt5icxnjmazn4c3yxta.b32.i2p:0 from tried"
        ),
        "<INT> Selected <I2P:PORT> from tried"
    );
    assert_eq!(
        render(
            "AcceptToMemoryPool: peer=9: accepted a9d6263d3e2320d1e8c742e9ce8c269f5f8b2ea4d7cefa4e2565215a14cd52d3 (wtxid=8fff3eb19a87650071a65f4dd14cb35ef41438c21dec9c068e8dc370e317b9ef) (poolsz 18829 txn, 87127 kB)"
        ),
        "AcceptToMemoryPool : <PEER> : accepted <HASH> ( wtxid = <HASH> ) ( poolsz <INT> txn , <INT> kB )"
    );
    assert_eq!(
        render(&format!(
            "UpdateTip: new best={} height=800000 progress=1.000000",
            "0".repeat(64)
        )),
        "UpdateTip : new best = <HASH> <HEIGHT> progress = <FLOAT>"
    );
    assert_eq!(
        render("- Connect 100 transactions: 12.34ms (0.123ms/tx)"),
        "- Connect <INT> transactions : <DUR> ( <DUR> / tx )"
    );
}

#[test]
fn structural_punctuation_preserved_as_text() {
    // Parens split structurally; trailing commas are also split off so
    // typed values like hashes and integers are recognised.
    let toks = tokenize("(a, b)");
    let labels: Vec<&str> = toks.iter().map(|t| t.text()).collect();
    assert_eq!(labels, vec!["(", "a", ",", "b", ")"]);
}

#[test]
fn trailing_comma_split_for_typed_tokens() {
    // A hash or integer immediately followed by a comma (as in bitcoind's
    // `wtxid = <hash>,` or `fees = 639,` patterns) must be recognised as
    // the typed token with a separate Text(",").
    let hash = "a".repeat(64);
    assert_eq!(render(&format!("{hash},")), "<HASH> ,");
    assert_eq!(render("fees = 639,"), "fees = <INT> ,");
    // Plain text words also get the trailing comma split off now.
    assert_eq!(render("txn,"), "txn ,");
}

#[test]
fn ipv6_port_brackets_kept_whole() {
    // The atom is preserved through pass 1 so the recognizer sees it.
    assert_eq!(kinds("[2001:db8::1]:8333"), vec![TokenKind::Ipv6Port]);
}

#[test]
fn punctuation_behind_a_value_is_cut() {
    let toks = tokenize("peer=3)");
    assert_eq!(toks.len(), 2);
    assert!(matches!(toks[0], Token::PeerId("peer=3")));
    assert!(matches!(toks[1], Token::Text(")")));
    let toks = tokenize("height=800000]/x:");
    assert_eq!(toks.len(), 4);
    assert!(matches!(toks[0], Token::BlockHeight("height=800000")));
    let rest: Vec<&str> = toks[1..].iter().map(|t| t.text()).collect();
    assert_eq!(rest, vec!["]", "/x", ":"]);
    assert_eq!(render("peer=3),"), "<PEER> ) ,");
    assert_eq!(render("peer=3=4"), "<PEER> = <INT>");
    assert_eq!(render("peer=(3)"), "peer= ( <INT> )");
    // Only at the start of a word is the `=` left alone.
    assert_eq!(render("(peer=3)"), "( peer = <INT> )");
    assert_eq!(render("peer="), "peer=");
}

#[test]
fn slashes_and_addresses_behind_a_name_are_kept() {
    for word in ["peer=3/4", "peer=[::1]:8333", "height=7/[::1]:8333", "height=1/2/3", "peer=3[::1]:8333"] {
        let toks = tokenize(word);
        assert_eq!(toks.len(), 1, "{word}");
        assert!(matches!(toks[0], Token::Text(t) if t == word), "{word}");
    }
    assert_eq!(render("peer=3/4,"), "peer=3/4 ,");
    assert_eq!(render("peer=[::1]"), "peer= [ <IPv6> ]");
    assert_eq!(render("peer=3([::1]:8333:"), "<PEER> ( <IPv6:PORT> :");
    // Any other word is cut at its slashes.
    assert_eq!(render("3/4"), "<INT> / <INT>");
}

#[test]
fn splitting_loses_only_white_space() {
    for content in [
        "(inv peer=3) height=(7)/, peer=:",
        "",
        "  \t ",
        "received: inv (8 bytes) peer=3",
        "a=b,c: [x]/'y' [::1]:8333, height=3: ,: ::",
        "höhe=7 ä: μs\u{a0}x",
    ] {
        let mut joined = String::new();
        for t in tokenize(content) {
            joined.push_str(t.text());
            if t.kind() == Some(TokenKind::ByteCount) {
                joined.push_str("bytes");
            }
        }
        let bare: String = content.chars().filter(|c| !c.is_ascii_whitespace()).collect();
        assert_eq!(joined, bare);
    }
}

#[test]
fn shapes_at_their_limits() {
    assert_eq!(kinds("1.2.3.4:65535"), vec![TokenKind::Ipv4Port]);
    assert!(kinds("1.2.3.4:65536").is_empty());
    assert_eq!(kinds("1.2.3.4:000080"), vec![TokenKind::Ipv4Port]);
    assert_eq!(kinds("255.0.00.010"), vec![TokenKind::Ipv4]);
    assert!(kinds("1.2.3.0004").is_empty());
    assert_eq!(kinds("::1"), vec![TokenKind::Ipv6]);
    assert!(kinds("::").is_empty());
    assert!(kinds("1::2::3").is_empty());
    assert_eq!(kinds("12.34μs"), vec![TokenKind::Duration]);
    assert_eq!(kinds("-5d"), vec![TokenKind::Duration]);
    assert_eq!(kinds("+1.5e-3"), vec![TokenKind::Float]);
    assert!(kinds("1.").is_empty());
    assert!(kinds("1.5e").is_empty());
    assert_eq!(kinds("peer=-1"), vec![TokenKind::PeerId]);
    assert_eq!(kinds("0xG"), vec![]);
    assert_eq!(kinds("0xF"), vec![TokenKind::Hex]);
    assert_eq!(kinds("12345678"), vec![TokenKind::Int]);
    assert_eq!(kinds("8 bytes 9 byte"), vec![TokenKind::ByteCount, TokenKind::Int]);
}

#[test]
fn one_atom_or_two_are_classified() {
    assert_eq!(
        debug_log_tool::classify("8", Some("bytes")),
        (Token::ByteCount("8"), 2)
    );
    assert_eq!(
        debug_log_tool::classify("8", Some("byte")),
        (Token::Int("8"), 1)
    );
    assert_eq!(debug_log_tool::classify("x", None), (Token::Text("x"), 1));
}
