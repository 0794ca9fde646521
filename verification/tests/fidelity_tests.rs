use std::collections::HashMap;

use vtt::prominence::prominent_facts;

use vtt::fidelity::{
    extract_facts, extract_facts_with, fidelity_counts, signature, stoplist_digest, thumbnail_name, Fact,
    NumberUnit, Precision, ReferenceFact, SegmentFidelity, StatedFact,
};

/// The value and precision a number states, as floating-point figures.
fn num(f: &Fact) -> (f64, f64) {
    match f {
        Fact::Number { negative, int_digits, frac_digits, scale, precision, .. } => {
            let text = if frac_digits.is_empty() {
                int_digits.clone()
            } else {
                format!("{int_digits}.{frac_digits}")
            };
            let sign = if *negative { -1.0 } else { 1.0 };
            let mult = 10f64.powi(*scale as i32);
            let value = sign * text.parse::<f64>().unwrap() * mult;
            let step = match precision {
                Precision::Exact => 0.0,
                Precision::Digit { zeros, decimals } => {
                    10f64.powi(*zeros as i32) * 10f64.powi(-(*decimals as i32))
                }
            };
            (value, step * mult)
        }
        _ => panic!("not a number: {f:?}"),
    }
}

fn keys(facts: &[Fact]) -> Vec<String> {
    facts.iter().map(|f| f.key()).collect()
}

#[test]
fn test_extract_numbers_with_units_signs_and_precision() {
    let facts = extract_facts("Market cap fell to $1.66T (-0.25%) from 42,000; volume 706B, 44k, 0.0001671.");
    let by_raw: HashMap<String, &Fact> = facts
        .iter()
        .filter_map(|f| match f {
            Fact::Number { raw, .. } => Some((raw.clone(), f)),
            _ => None,
        })
        .collect();
    assert_eq!(num(by_raw["$1.66T"]), (1.66e12, 1e10));
    assert_eq!(num(by_raw["-0.25%"]), (-0.25, 0.01));
    assert!(matches!(by_raw["-0.25%"], Fact::Number { unit: NumberUnit::Percent, .. }));
    assert_eq!(num(by_raw["42,000"]), (42000.0, 1000.0));
    assert_eq!(num(by_raw["706B"]), (706e9, 1e9));
    assert_eq!(num(by_raw["44k"]), (44000.0, 1000.0));
    let (v, p) = num(by_raw["0.0001671"]);
    assert!((v - 0.0001671).abs() < 1e-12 && (p - 1e-7).abs() < 1e-18);
}

#[test]
fn test_frame_ordinals_skipped_and_numeric_keys_canonical() {
    let keys = keys(&extract_facts(
        "**Frame 3 (00:00:27.000):** price 2.614T; frame 4 shows 2,614,000,000,000 and 02.514T",
    ));
    assert!(!keys.contains(&"n:3".to_string()) && !keys.contains(&"n:4".to_string()), "{keys:?}");
    assert_eq!(
        keys.iter().filter(|k| *k == "n:2614000000000").count(),
        1,
        "2.614T and 2,614,000,000,000 are one fact: {keys:?}"
    );
    assert!(keys.contains(&"n:2514000000000".to_string()), "leading-zero OCR form keys as the true value: {keys:?}");
    assert_eq!(extract_facts("-0.25%")[0].key(), "n:-0.25%");
    assert_eq!(extract_facts("0.0001671")[0].key(), "n:0.0001671");
}

#[test]
fn test_label_stoplist_drops_prose_capitals_only() {
    let stop = vec!["US".to_string(), "THE".to_string()];
    let keys = keys(&extract_facts_with("THE chart in US dollars shows BTC on BITSTAMP", &stop));
    assert_eq!(keys, vec!["l:BTC", "l:BITSTAMP"]);
    assert!(extract_facts("THE chart").iter().any(|f| f.key() == "l:THE"), "no stoplist by default");
}

#[test]
fn test_extract_ohlc_header_values() {
    let facts = extract_facts(
        "Crypto Total Market Cap, $\u{b7} 1W \u{b7}CRYPTOCAP O2.514T H2.632T L2.492T C2.594T +80.784B (+3.21%)",
    );
    let keys = keys(&facts);
    for k in [
        "t:1W",
        "l:CRYPTOCAP",
        "n:2514000000000",
        "n:2632000000000",
        "n:2492000000000",
        "n:2594000000000",
        "n:80784000000",
        "n:3.21%",
    ] {
        assert!(keys.contains(&k.to_string()), "missing {k} in {keys:?}");
    }
    assert!(!keys.iter().any(|k| k.starts_with("l:O2") || k.starts_with("l:C2")), "{keys:?}");
}

#[test]
fn test_extract_timeframes_labels_and_month_rule() {
    let facts = extract_facts("BTC/USD on the 4H and 1D; the 1M and 12M views; 5M volume; RSI at 63.");
    let keys = keys(&facts);
    assert!(keys.contains(&"l:BTC".to_string()) && keys.contains(&"l:USD".to_string()));
    assert!(keys.contains(&"t:4H".to_string()) && keys.contains(&"t:1D".to_string()));
    assert!(keys.contains(&"t:1M".to_string()) && keys.contains(&"t:12M".to_string()));
    assert!(keys.contains(&"n:5000000".to_string()), "5M is a million, not a month: {keys:?}");
    assert!(keys.contains(&"l:RSI".to_string()));
    assert!(keys.contains(&"n:63".to_string()));
    assert!(extract_facts("Bitcoin rose on Feb 12, 2024 a lot")
        .iter()
        .all(|f| matches!(f, Fact::Number { .. })));
}

#[test]
fn test_signature_changes_with_every_scoring_setting() {
    let tol = format!("{}", 0.0f64);
    let persist = format!("{}", 2.0f64);
    let sig = |tol: &str, persist: &str, height: u32, stop: &[String]| {
        signature("kept", tol, persist, height, stop)
    };
    let b = sig(&tol, &persist, 14, &[]);
    assert!(b.starts_with("vtt-fidelity|v:"), "{b}");
    assert_eq!(b, sig(&tol, &persist, 14, &[]), "same settings must give the same signature");
    assert_ne!(b, sig(&format!("{}", 0.01f64), &persist, 14, &[]));
    assert_ne!(b, sig(&tol, &format!("{}", 9.0f64), 14, &[]));
    assert_ne!(b, sig(&tol, &persist, 22, &[]));
    assert_ne!(b, sig(&tol, &persist, 14, &["ZZZ".to_string()]));
    let a1 = sig(&tol, &persist, 14, &["THE".to_string(), "US".to_string()]);
    let a2 = sig(&tol, &persist, 14, &["US".to_string(), "THE".to_string()]);
    assert_eq!(a1, a2);
}

#[test]
fn test_f05_and_thumbnail_name() {
    assert_eq!(thumbnail_name(72_500), "00-01-12.500.jpg");
}

#[test]
fn signature_has_the_documented_shape() {
    let s = signature("candidates", "0", "2", 14, &[]);
    assert_eq!(s, "vtt-fidelity|v:1|ref:candidates|tol:0|persist:2|height:14|stop:0-0");
}

#[test]
fn stoplist_digest_is_fnv1a_xor() {
    fn fnv(w: &str) -> u64 {
        let mut h: u64 = 0xcbf29ce484222325;
        for b in w.as_bytes() {
            h ^= *b as u64;
            h = h.wrapping_mul(0x100000001b3);
        }
        h
    }
    assert_eq!(stoplist_digest(&[]), 0);
    assert_eq!(stoplist_digest(&["a".to_string()]), 0xaf63dc4c8601ec8c);
    let two = vec!["THE".to_string(), "US".to_string()];
    assert_eq!(stoplist_digest(&two), fnv("THE") ^ fnv("US"));
    let rev = vec!["US".to_string(), "THE".to_string()];
    assert_eq!(stoplist_digest(&two), stoplist_digest(&rev));
}

#[test]
fn keys_round_to_ten_decimals() {
    assert_eq!(extract_facts("0.00000000006")[0].key(), "n:0.0000000001");
    assert_eq!(extract_facts("0.00000000004")[0].key(), "n:0");
    assert_eq!(extract_facts("-0.00000000004")[0].key(), "n:0");
    assert_eq!(extract_facts("9.999999999999")[0].key(), "n:10");
    assert_eq!(extract_facts("1.5k")[0].key(), "n:1500");
    assert_eq!(extract_facts("0.25T")[0].key(), "n:250000000000");
    assert_eq!(extract_facts("007")[0].key(), "n:7");
    assert_eq!(extract_facts("-0")[0].key(), "n:0");
}

#[test]
fn precision_follows_how_the_number_was_written() {
    let p = |s: &str| match &extract_facts(s)[0] {
        Fact::Number { precision, .. } => *precision,
        f => panic!("not a number: {f:?}"),
    };
    assert_eq!(p("2020"), Precision::Exact);
    assert_eq!(p("42,000"), Precision::Digit { zeros: 3, decimals: 0 });
    assert_eq!(p("1,000,000"), Precision::Digit { zeros: 6, decimals: 0 });
    assert_eq!(p("0,000"), Precision::Digit { zeros: 0, decimals: 0 });
    assert_eq!(p("1.50"), Precision::Digit { zeros: 0, decimals: 2 });
    assert_eq!(p("44k"), Precision::Digit { zeros: 0, decimals: 0 });
}

#[test]
fn malformed_tokens_are_not_numbers() {
    assert!(extract_facts("1.2.3").is_empty());
    assert!(extract_facts("$").is_empty());
    assert!(extract_facts("%").is_empty());
    assert!(extract_facts("x12").is_empty());
    let keys = keys(&extract_facts("12.") );
    assert_eq!(keys, vec!["n:12"], "a trailing point is punctuation");
    assert!(extract_facts("5M 2M 0m").iter().all(|f| !matches!(f, Fact::Timeframe { text } if text == "2M")));
}

#[test]
fn timeframes_are_normalised() {
    let keys = keys(&extract_facts("15m 4h 1d 1w 015m"));
    assert_eq!(keys, vec!["t:15m", "t:4H", "t:1D", "t:1W"]);
}

fn frame(ts_ms: u64, texts: &[(&str, u32)]) -> vtt::prominence::FrameFacts {
    let mut facts = Vec::new();
    for (t, h) in texts {
        for fact in extract_facts(t) {
            facts.push(vtt::prominence::OcrFact { fact, height_px: *h });
        }
    }
    vtt::prominence::FrameFacts { timestamp_ms: ts_ms, facts }
}

#[test]
fn prominent_facts_persist_and_height_rules() {
    let window = vec![
        frame(0, &[("TOTAL", 14), ("USD", 14), ("1.661T", 16), ("706B", 16), ("tiny 99", 6)]),
        frame(15_000, &[("TOTAL", 14), ("USD", 14), ("1.661T", 16), ("1W", 12)]),
    ];
    let prom = prominent_facts(&window, 5_000, 10);
    let keys: Vec<&str> = prom.iter().map(|p| p.key.as_str()).collect();
    assert_eq!(keys, vec!["l:TOTAL", "l:USD", "n:1661000000000"]);
    assert!(prom.iter().all(|p| p.persist_ms == 15_000));
    assert_eq!(prom[2].height_px, 16);
    match &prom[2].fact {
        Fact::Number { raw, .. } => assert_eq!(raw, "1.661T"),
        f => panic!("not a number: {f:?}"),
    }
}

#[test]
fn prominent_facts_from_candidate_window() {
    let window: Vec<_> = (0..20).map(|i| frame(i * 500, &[("BTC", 14), ("65250", 12)])).collect();
    let prom = prominent_facts(&window, 5_000, 10);
    let keys: Vec<&str> = prom.iter().map(|p| p.key.as_str()).collect();
    assert_eq!(keys, vec!["l:BTC", "n:65250"]);
    assert!(prom.iter().all(|p| p.persist_ms == 9_500));
}

#[test]
fn short_windows_keep_what_is_on_every_frame() {
    let window = vec![frame(0, &[("BTC", 14), ("ETH", 14)]), frame(1_000, &[("BTC", 14)])];
    let prom = prominent_facts(&window, 5_000, 10);
    let keys: Vec<&str> = prom.iter().map(|p| p.key.as_str()).collect();
    assert_eq!(keys, vec!["l:BTC"], "a one-second window: only what never left the screen");
    assert!(prominent_facts(&[], 5_000, 10).is_empty());
    let tall = vec![frame(0, &[("RSI", 8)]), frame(9_000, &[("RSI", 20)])];
    let prom = prominent_facts(&tall, 5_000, 10);
    assert_eq!(prom.len(), 1);
    assert_eq!(prom[0].height_px, 20, "the tallest reading counts");
}

#[test]
fn repeated_readings_in_one_frame_count_once() {
    let window = vec![frame(0, &[("BTC", 9), ("BTC", 30)]), frame(8_000, &[("BTC", 11)])];
    let prom = prominent_facts(&window, 5_000, 10);
    assert_eq!(prom.len(), 1);
    assert_eq!(prom[0].height_px, 11, "only a frame's first reading of a key is measured");
}

#[test]
fn fidelity_counts_add_up_over_segments() {
    let facts = extract_facts("BTC 42,000 and ETH 2,300");
    assert!(facts.len() >= 2);
    let stated = |i: usize, supported: bool| StatedFact {
        key: facts[i].key(),
        fact: facts[i].clone(),
        supported,
        matched: None,
    };
    let prominent = |i: usize, mentioned: bool| ReferenceFact {
        key: facts[i].key(),
        fact: facts[i].clone(),
        mentioned,
        persist_ms: 1_000,
        height_px: 20,
    };
    let seg = |stated: Vec<StatedFact>, prominent: Vec<ReferenceFact>| SegmentFidelity {
        start: "00:00:00.000".to_string(),
        end: "00:00:10.000".to_string(),
        frames: Vec::new(),
        stated,
        prominent,
    };
    let segs = vec![
        seg(vec![stated(0, true), stated(1, false)], vec![prominent(0, true)]),
        seg(vec![stated(1, true)], vec![prominent(0, false), prominent(1, true)]),
        seg(vec![], vec![]),
    ];
    let c = fidelity_counts(&segs);
    assert_eq!((c.segments, c.stated, c.supported, c.prominent, c.mentioned), (3, 3, 2, 3, 2));
    let empty = fidelity_counts(&[]);
    assert_eq!((empty.segments, empty.stated, empty.supported, empty.prominent, empty.mentioned), (0, 0, 0, 0, 0));
}
