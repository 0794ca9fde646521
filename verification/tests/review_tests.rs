use vtt::fidelity::{Fact, NumberUnit, Precision, ReferenceFact, SegmentFidelity, StatedFact};
use vtt::review::{
    esc, pick_thumbs, review_sections, select_items, select_items_capped, shuffle, tally_labels,
    Label, LabelFile, ReviewItem,
};
use vtt::types::{Segment, SegmentType};

fn number(raw: &str) -> Fact {
    Fact::Number {
        negative: false,
        int_digits: raw.to_string(),
        frac_digits: String::new(),
        scale: 0,
        unit: NumberUnit::Plain,
        precision: Precision::Exact,
        raw: raw.to_string(),
    }
}

fn stated(raw: &str, ok: bool) -> StatedFact {
    StatedFact {
        key: format!("n:{raw}"),
        fact: number(raw),
        supported: ok,
        matched: if ok { Some(raw.to_string()) } else { None },
    }
}

fn report_segments() -> Vec<SegmentFidelity> {
    vec![
        SegmentFidelity {
            start: "00:00:00.000".into(),
            end: "00:01:00.000".into(),
            frames: vec!["00:00:00.000".into()],
            stated: vec![stated("100", true), stated("200", false)],
            prominent: vec![ReferenceFact {
                key: "n:300".into(),
                fact: number("300"),
                mentioned: false,
                persist_ms: 10_000,
                height_px: 12,
            }],
        },
        SegmentFidelity {
            start: "00:01:00.000".into(),
            end: "00:02:00.000".into(),
            frames: vec!["00:01:00.000".into()],
            stated: vec![stated("400", true), stated("500", false)],
            prominent: vec![],
        },
    ]
}

#[test]
fn test_select_items_disagreement_first_and_deterministic() {
    let r = report_segments();
    let a = select_items(&r, 3, 7);
    let b = select_items(&r, 3, 7);
    assert_eq!(a, b, "same seed, same sheet");
    assert_eq!(a.iter().filter(|i| i.metric == "unsupported").count(), 2, "all hallucination calls first: {a:?}");
    let all = select_items(&r, 100, 7);
    assert_eq!(all.len(), 5);
    assert_eq!(all.iter().filter(|i| i.kind == "missed").count(), 1);
    // supported facts stop at two thirds of the sample so missed ones get a slice
    let six = select_items(&r, 6, 7);
    assert!(six.iter().any(|i| i.kind == "missed"), "{six:?}");
    let capped = select_items_capped(&r, 100, 7, 1);
    assert_eq!(capped.len(), 2, "one item per segment: {capped:?}");
}

#[test]
fn selected_items_carry_ids_and_verdicts() {
    let r = report_segments();
    let all = select_items(&r, 100, 7);
    let mut ids: Vec<&str> = all.iter().map(|i| i.id.as_str()).collect();
    ids.sort();
    assert_eq!(ids, vec!["m0:n:300", "s0:n:100", "s0:n:200", "s1:n:400", "s1:n:500"]);
    let first_two: Vec<&str> = all[..2].iter().map(|i| i.metric.as_str()).collect();
    assert_eq!(first_two, vec!["unsupported", "unsupported"]);
    let s100 = all.iter().find(|i| i.id == "s0:n:100").unwrap();
    assert_eq!(s100.kind, "stated");
    assert_eq!(s100.display, "100");
    assert_eq!(s100.matched.as_deref(), Some("100"));
    assert_eq!(s100.segment, 0);
    let m = all.iter().find(|i| i.kind == "missed").unwrap();
    assert_eq!(m.metric, "missed");
    assert_eq!(m.matched, None);
    assert!(select_items(&r, 0, 7).is_empty());
}


#[test]
fn shuffle_is_deterministic_and_a_permutation() {
    let mut a: Vec<u32> = (0..50).collect();
    let mut b: Vec<u32> = (0..50).collect();
    shuffle(&mut a, 42);
    shuffle(&mut b, 42);
    assert_eq!(a, b);
    let mut sorted = a.clone();
    sorted.sort();
    assert_eq!(sorted, (0..50).collect::<Vec<u32>>());
    let mut c: Vec<u32> = (0..50).collect();
    shuffle(&mut c, 43);
    assert_ne!(a, c);
}

#[test]
fn shuffle_matches_the_generator() {
    let mut v = vec![1, 2, 3];
    shuffle(&mut v, 0);
    let mut x: u64 = 0u64.wrapping_mul(6364136223846793005).wrapping_add(1442695040888963407);
    let mut w = vec![1, 2, 3];
    for i in (1..w.len()).rev() {
        x = x.wrapping_mul(6364136223846793005).wrapping_add(1442695040888963407);
        let j = (x >> 33) as usize % (i + 1);
        w.swap(i, j);
    }
    assert_eq!(v, w);
    let mut one = vec![9];
    shuffle(&mut one, 5);
    assert_eq!(one, vec![9]);
}

#[test]
fn esc_escapes_html() {
    assert_eq!(esc("a<b>&\"c\""), "a&lt;b&gt;&amp;&quot;c&quot;");
    assert_eq!(esc("plain"), "plain");
}

#[test]
fn thumbnails_spread_over_frames() {
    let frames: Vec<String> = (0..10).map(|i| format!("f{i}")).collect();
    let picked: Vec<&str> = pick_thumbs(&frames, 3).iter().map(|s| s.as_str()).collect();
    assert_eq!(picked, vec!["f0", "f4", "f9"]);
    assert_eq!(pick_thumbs(&frames, 20).len(), 10);
    assert_eq!(pick_thumbs(&frames, 1).len(), 1);
    assert_eq!(pick_thumbs(&frames, 1)[0], "f0");
    assert!(pick_thumbs(&frames, 0).is_empty());
}

#[test]
fn test_cohen_kappa_and_label_scoring() {
    let l = |id: &str, kind: &str, metric: &str, human: &str| Label {
        id: id.to_string(),
        kind: kind.to_string(),
        metric: metric.to_string(),
        human: human.to_string(),
    };
    let file = LabelFile {
        items: vec![
            l("a", "stated", "supported", "yes"),
            l("b", "stated", "unsupported", "yes"),
            l("c", "stated", "supported", "no"),
            l("d", "stated", "supported", "unsure"),
            l("e", "missed", "missed", "yes"),
            l("f", "missed", "missed", "no"),
        ],
    };
    let t = tally_labels(&file);
    assert_eq!(t.pairs, vec![(true, true), (false, true), (true, false)]);
    assert_eq!(t.false_hallucinations, 1);
    assert_eq!(t.missed_hallucinations, 1);
    assert_eq!(t.labelled_missed, 2);
    assert_eq!(t.missed_that_matter, 1);
    assert_eq!(t.disagreements, vec!["b".to_string(), "c".to_string()]);
}

#[test]
fn review_sections_hold_items_and_thumbnails() {
    let r = report_segments();
    let items = select_items(&r, 10, 1);
    let thumbs = vec![("00-00-00.000.jpg".to_string(), vec![0xFF, 0xD8, 0xFF])];
    let html = review_sections(&r, &[], &items, &thumbs, 4);
    assert!(html.contains("data-id=\"s0:n:200\""));
    assert!(html.contains("data:image/jpeg;base64,/9j/"));
    assert!(html.contains("<h3>Segment 1 &middot;"));
    assert_eq!(pick_thumbs(&["a".into(), "b".into(), "c".into(), "d".into(), "e".into()], 3).len(), 3);
}

#[test]
fn review_section_exact_markup() {
    let r = report_segments();
    let items = vec![ReviewItem {
        id: "s0:n:200".into(),
        segment: 0,
        kind: "stated".into(),
        key: "n:200".into(),
        display: "200".into(),
        metric: "unsupported".into(),
        matched: None,
    }];
    let timeline = vec![Segment {
        segment_type: SegmentType::Visual,
        start: "00:00:00.000".into(),
        end: "00:01:00.000".into(),
        content: "BTC <up>".into(),
        frames: vec!["00:00:00.000".into()],
    }];
    let thumbs = vec![("00-00-00.000.jpg".to_string(), vec![0xFF, 0xD8, 0xFF])];
    let html = review_sections(&r, &timeline, &items, &thumbs, 4);
    let expected = [
        "<div class=\"seg\"><h3>Segment 0 &middot; 00:00:00.000 &rarr; 00:01:00.000 &middot; 1 frames</h3>",
        "<div class=\"thumbs\"><img title=\"00:00:00.000\" src=\"data:image/jpeg;base64,/9j/\"></div>",
        "<div class=\"desc\">BTC &lt;up&gt;</div>",
        "<table><tr><th>fact</th><th>kind</th><th>metric</th><th>matched</th><th>your judgment</th></tr>",
        "<tr data-id=\"s0:n:200\" data-kind=\"stated\" data-metric=\"unsupported\"><td><code>200</code></td>",
        "<td>stated</td><td class=\"m-unsupported\">unsupported</td><td></td>",
        "<td>on screen? <label><input type=\"radio\" name=\"s0:n:200\" value=\"yes\">yes</label> ",
        "<label><input type=\"radio\" name=\"s0:n:200\" value=\"no\">no</label> ",
        "<label><input type=\"radio\" name=\"s0:n:200\" value=\"unsure\">unsure</label></td></tr>",
        "</table></div>",
    ]
    .concat();
    assert_eq!(html, expected);
    assert_eq!(review_sections(&r, &timeline, &[], &thumbs, 4), "");
}
