use random_episode::{
    get_random_episode, get_shows, load_catalog, selection_at, Catalog, Episode, LoadError,
    Season, Show,
};

fn ep(title: &str, aired: &str, description: &str) -> Episode {
    Episode {
        title: title.to_string(),
        aired: aired.to_string(),
        description: description.to_string(),
    }
}

fn season(title: &str, episodes: Vec<Episode>) -> Season {
    Season { title: title.to_string(), episodes }
}

fn show(title: &str, seasons: Vec<Season>) -> Show {
    Show { title: title.to_string(), seasons }
}

fn demo_catalog() -> Catalog {
    load_catalog(vec![(
        "demo".to_string(),
        show(
            "Demo Show",
            vec![season(
                "Season One",
                vec![ep("Pilot", "2020-01-01", "the first"), ep("Second", "2020-01-08", "the next")],
            )],
        ),
    )])
    .unwrap()
}

fn three_show_catalog() -> Catalog {
    load_catalog(vec![
        (
            "zeta".to_string(),
            show("Zeta", vec![season("Z1", vec![ep("z-a", "", ""), ep("z-b", "", "")])]),
        ),
        (
            "alpha".to_string(),
            show(
                "Alpha",
                vec![
                    season("A1", vec![ep("a-a", "", "")]),
                    season("A2", vec![ep("a-b", "", ""), ep("a-c", "", ""), ep("a-d", "", "")]),
                ],
            ),
        ),
        ("mid".to_string(), show("Mid", vec![season("M1", vec![ep("m-a", "", "")])])),
    ])
    .unwrap()
}

#[test]
fn demo_scenario() {
    let catalog = demo_catalog();
    let shows = get_shows(&catalog);
    assert_eq!(shows, vec![("demo".to_string(), "Demo Show".to_string())]);
    for _ in 0..200 {
        let picked = get_random_episode(&catalog, "demo").unwrap();
        assert_eq!(picked.season_idx, 1);
        assert_eq!(picked.season_name, "Season One");
        assert!(picked.episode_idx == 1 || picked.episode_idx == 2);
        if picked.episode_idx == 1 {
            assert_eq!(picked.episode_name, "Pilot");
        } else {
            assert_eq!(picked.episode_name, "Second");
        }
    }
}

#[test]
fn listing_deterministic_and_sorted() {
    let catalog = three_show_catalog();
    let first = get_shows(&catalog);
    let second = get_shows(&catalog);
    assert_eq!(first, second);
    let keys: Vec<&str> = first.iter().map(|p| p.0.as_str()).collect();
    assert_eq!(keys, vec!["alpha", "mid", "zeta"]);
    for w in first.windows(2) {
        assert!(w[0].0 < w[1].0);
    }
}

#[test]
fn listing_complete() {
    let catalog = three_show_catalog();
    let shows = get_shows(&catalog);
    assert_eq!(shows.len(), 3);
    let mut keys: Vec<String> = shows.iter().map(|p| p.0.clone()).collect();
    keys.sort();
    keys.dedup();
    assert_eq!(keys, vec!["alpha".to_string(), "mid".to_string(), "zeta".to_string()]);
    let titles: Vec<&str> = shows.iter().map(|p| p.1.as_str()).collect();
    assert_eq!(titles, vec!["Alpha", "Mid", "Zeta"]);
}

#[test]
fn unknown_key_yields_not_found() {
    let catalog = three_show_catalog();
    for _ in 0..100 {
        assert!(get_random_episode(&catalog, "does-not-exist").is_none());
    }
    let empty = Catalog::new();
    assert!(get_random_episode(&empty, "does-not-exist").is_none());
}

#[test]
fn range_validity() {
    let catalog = three_show_catalog();
    let bounds = [("zeta", vec![2]), ("alpha", vec![1, 3]), ("mid", vec![1])];
    for (key, episode_counts) in bounds.iter() {
        for _ in 0..10_000 {
            let picked = get_random_episode(&catalog, key).unwrap();
            assert!(picked.season_idx >= 1 && picked.season_idx <= episode_counts.len());
            assert!(picked.episode_idx >= 1);
            assert!(picked.episode_idx <= episode_counts[picked.season_idx - 1]);
        }
    }
}

#[test]
fn fairness_by_season() {
    // Three seasons of very different lengths: each must still be picked
    // about a third of the time.
    let catalog = load_catalog(vec![(
        "skewed".to_string(),
        show(
            "Skewed",
            vec![
                season("S1", (0..1).map(|i| ep(&format!("e{}", i), "", "")).collect()),
                season("S2", (0..5).map(|i| ep(&format!("e{}", i), "", "")).collect()),
                season("S3", (0..20).map(|i| ep(&format!("e{}", i), "", "")).collect()),
            ],
        ),
    )])
    .unwrap();
    let draws = 60_000;
    let mut counts = [0usize; 3];
    for _ in 0..draws {
        let picked = get_random_episode(&catalog, "skewed").unwrap();
        counts[picked.season_idx - 1] += 1;
    }
    // Expected 20_000 each; allow a generous +/- 6% of the total.
    for &c in counts.iter() {
        assert!(c > draws / 3 - 3_600, "season drawn too rarely: {:?}", counts);
        assert!(c < draws / 3 + 3_600, "season drawn too often: {:?}", counts);
    }
}

#[test]
fn field_fidelity() {
    let catalog = demo_catalog();
    let picked = selection_at(&catalog, "demo", 0, 1).unwrap();
    assert_eq!(picked.season_idx, 1);
    assert_eq!(picked.season_name, "Season One");
    assert_eq!(picked.episode_idx, 2);
    assert_eq!(picked.episode_name, "Second");
    assert_eq!(picked.episode_aired, "2020-01-08");
    assert_eq!(picked.episode_description, "the next");
    let catalog = three_show_catalog();
    let titles = [vec!["a-a"], vec!["a-b", "a-c", "a-d"]];
    for _ in 0..500 {
        let picked = get_random_episode(&catalog, "alpha").unwrap();
        assert_eq!(
            picked.episode_name,
            titles[picked.season_idx - 1][picked.episode_idx - 1]
        );
    }
}

#[test]
fn selection_at_rejects_bad_positions() {
    let catalog = demo_catalog();
    assert!(selection_at(&catalog, "demo", 0, 0).is_some());
    assert!(selection_at(&catalog, "demo", 1, 0).is_none());
    assert!(selection_at(&catalog, "demo", 0, 2).is_none());
    assert!(selection_at(&catalog, "missing", 0, 0).is_none());
}

#[test]
fn duplicate_key_rejected() {
    let result = load_catalog(vec![
        ("same".to_string(), show("First", vec![season("S", vec![ep("e", "", "")])])),
        ("same".to_string(), show("Second", vec![season("S", vec![ep("e", "", "")])])),
    ]);
    match result {
        Err(LoadError::DuplicateKey { id }) => assert_eq!(id, "same"),
        _ => panic!("expected a duplicate-key rejection"),
    }
}

#[test]
fn show_without_seasons_rejected() {
    let result = load_catalog(vec![("bare".to_string(), show("Bare", vec![]))]);
    match result {
        Err(LoadError::MalformedDefinition { id }) => assert_eq!(id, "bare"),
        _ => panic!("expected a malformed-definition rejection"),
    }
}

#[test]
fn season_without_episodes_rejected() {
    let result = load_catalog(vec![(
        "hollow".to_string(),
        show("Hollow", vec![season("S1", vec![ep("e", "", "")]), season("S2", vec![])]),
    )]);
    match result {
        Err(LoadError::MalformedDefinition { id }) => assert_eq!(id, "hollow"),
        _ => panic!("expected a malformed-definition rejection"),
    }
}

#[test]
fn load_stops_at_first_bad_definition() {
    let result = load_catalog(vec![
        ("good".to_string(), show("Good", vec![season("S", vec![ep("e", "", "")])])),
        ("broken".to_string(), show("Broken", vec![])),
        ("good".to_string(), show("Dup", vec![season("S", vec![ep("e", "", "")])])),
    ]);
    match result {
        Err(LoadError::MalformedDefinition { id }) => assert_eq!(id, "broken"),
        _ => panic!("expected the first rejection to win"),
    }
}

#[test]
fn empty_catalog() {
    let loaded = load_catalog(vec![]).unwrap();
    assert_eq!(loaded.len(), 0);
    assert!(get_shows(&loaded).is_empty());
    let fresh = Catalog::new();
    assert_eq!(fresh.len(), 0);
    assert!(get_shows(&fresh).is_empty());
}
