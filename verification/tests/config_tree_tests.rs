use vtt::config_tree::{merge_trees, ConfigTree};

fn table(entries: Vec<(&str, ConfigTree)>) -> ConfigTree {
    ConfigTree::Table(entries.into_iter().map(|(k, v)| (k.to_string(), v)).collect())
}

fn get<'a>(tree: &'a ConfigTree, path: &[&str]) -> Option<&'a ConfigTree> {
    let mut cur = tree;
    for name in path {
        match cur {
            ConfigTree::Table(entries) => {
                cur = &entries.iter().find(|(k, _)| k == name)?.1;
            }
            ConfigTree::Leaf(_) => return None,
        }
    }
    Some(cur)
}

fn leaf(tree: &ConfigTree, path: &[&str]) -> Option<u64> {
    match get(tree, path) {
        Some(ConfigTree::Leaf(v)) => Some(*v),
        _ => None,
    }
}

fn names(tree: &ConfigTree) -> Vec<String> {
    match tree {
        ConfigTree::Table(entries) => entries.iter().map(|(k, _)| k.clone()).collect(),
        ConfigTree::Leaf(_) => Vec::new(),
    }
}

// base: [vision] fps, max_frames_per_request, [vision.adaptive] enabled,
// max_gap_secs, scene_threshold; [whisper] model
fn base() -> ConfigTree {
    table(vec![
        (
            "vision",
            table(vec![
                ("fps", ConfigTree::Leaf(0)),
                (
                    "adaptive",
                    table(vec![
                        ("enabled", ConfigTree::Leaf(1)),
                        ("max_gap_secs", ConfigTree::Leaf(2)),
                        ("scene_threshold", ConfigTree::Leaf(3)),
                    ]),
                ),
                ("max_frames_per_request", ConfigTree::Leaf(4)),
            ]),
        ),
        ("whisper", table(vec![("model", ConfigTree::Leaf(5))])),
    ])
}

#[test]
fn profile_merge_sets_named_keys_and_keeps_the_rest() {
    let over = table(vec![(
        "vision",
        table(vec![
            ("fps", ConfigTree::Leaf(10)),
            (
                "adaptive",
                table(vec![("enabled", ConfigTree::Leaf(11)), ("max_gap_secs", ConfigTree::Leaf(12))]),
            ),
        ]),
    )]);
    let merged = merge_trees(base(), &over);
    assert_eq!(leaf(&merged, &["vision", "fps"]), Some(10));
    assert_eq!(leaf(&merged, &["vision", "adaptive", "enabled"]), Some(11));
    assert_eq!(leaf(&merged, &["vision", "adaptive", "max_gap_secs"]), Some(12));
    // untouched keys keep their base values
    assert_eq!(leaf(&merged, &["vision", "adaptive", "scene_threshold"]), Some(3));
    assert_eq!(leaf(&merged, &["vision", "max_frames_per_request"]), Some(4));
    assert_eq!(leaf(&merged, &["whisper", "model"]), Some(5));
    assert_eq!(names(&merged), vec!["vision".to_string(), "whisper".to_string()]);
}

#[test]
fn profile_merge_adds_keys_the_base_lacks() {
    let over = table(vec![
        ("ocr", table(vec![("enabled", ConfigTree::Leaf(20))])),
        ("whisper", table(vec![("language", ConfigTree::Leaf(21))])),
    ]);
    let merged = merge_trees(base(), &over);
    assert_eq!(names(&merged), vec!["vision".to_string(), "whisper".to_string(), "ocr".to_string()]);
    assert_eq!(leaf(&merged, &["ocr", "enabled"]), Some(20));
    assert_eq!(leaf(&merged, &["whisper", "model"]), Some(5));
    assert_eq!(leaf(&merged, &["whisper", "language"]), Some(21));
    assert_eq!(names(get(&merged, &["whisper"]).unwrap()), vec!["model".to_string(), "language".to_string()]);
}

#[test]
fn profile_merge_value_replaces_table_and_table_replaces_value() {
    let over = table(vec![
        ("vision", ConfigTree::Leaf(30)),
        ("whisper", table(vec![("model", table(vec![("name", ConfigTree::Leaf(31))]))])),
    ]);
    let merged = merge_trees(base(), &over);
    assert_eq!(leaf(&merged, &["vision"]), Some(30));
    assert_eq!(leaf(&merged, &["whisper", "model", "name"]), Some(31));
    // a leaf laid over a leaf replaces it
    match merge_trees(ConfigTree::Leaf(1), &ConfigTree::Leaf(2)) {
        ConfigTree::Leaf(v) => assert_eq!(v, 2),
        ConfigTree::Table(_) => panic!("expected a leaf"),
    }
}

#[test]
fn profile_merge_with_empty_profile_keeps_base() {
    let merged = merge_trees(base(), &table(vec![]));
    for path in [
        &["vision", "fps"][..],
        &["vision", "adaptive", "enabled"][..],
        &["vision", "adaptive", "max_gap_secs"][..],
        &["vision", "adaptive", "scene_threshold"][..],
        &["vision", "max_frames_per_request"][..],
        &["whisper", "model"][..],
    ] {
        assert_eq!(leaf(&merged, path), leaf(&base(), path));
    }
    assert_eq!(names(&merged), names(&base()));
}

fn to_tree(value: &toml::Value, leaves: &mut Vec<toml::Value>) -> ConfigTree {
    match value.as_table() {
        Some(t) => ConfigTree::Table(t.iter().map(|(k, v)| (k.clone(), to_tree(v, leaves))).collect()),
        None => {
            leaves.push(value.clone());
            ConfigTree::Leaf((leaves.len() - 1) as u64)
        }
    }
}

fn from_tree(tree: &ConfigTree, leaves: &[toml::Value]) -> toml::Value {
    match tree {
        ConfigTree::Leaf(i) => leaves[*i as usize].clone(),
        ConfigTree::Table(entries) => {
            let mut t = toml::map::Map::new();
            for (k, v) in entries {
                t.insert(k.clone(), from_tree(v, leaves));
            }
            toml::Value::Table(t)
        }
    }
}

/// The default `[vision]` settings, as the server writes them out.
const DEFAULT_VISION: &str = "[vision]\nfps = 2.0\nmax_tokens = 4096\nmax_frames_per_request = 15\n\
transcript_window = \"full\"\nuse_transcript = true\n[vision.adaptive]\nenabled = false\n\
scene_threshold = 0.08\nmax_gap_secs = 15.0\nmin_trigger_interval_secs = 2.0\nmax_frames_per_chunk = 45\n";

#[test]
fn test_adaptive_table_survives_profile_merge_roundtrip() {
    let base: toml::Value = toml::from_str(DEFAULT_VISION).unwrap();
    let overrides: toml::Value = toml::from_str(
        "[vision]\nfps = 2.0\n[vision.adaptive]\nenabled = true\nmax_gap_secs = 30.0\n",
    )
    .unwrap();
    let mut leaves = Vec::new();
    let base_tree = to_tree(&base, &mut leaves);
    let over_tree = to_tree(&overrides, &mut leaves);
    let merged = from_tree(&merge_trees(base_tree, &over_tree), &leaves);
    let vision = &merged["vision"];
    let adaptive = &vision["adaptive"];
    assert_eq!(adaptive["enabled"].as_bool(), Some(true));
    assert_eq!(adaptive["max_gap_secs"].as_float(), Some(30.0));
    // untouched keys keep their defaults
    assert_eq!(adaptive["scene_threshold"].as_float(), Some(0.08));
    assert_eq!(vision["max_frames_per_request"].as_integer(), Some(15));
}
