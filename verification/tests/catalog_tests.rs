use bgc::catalog::{
    bg_pool_minions, fixture_cards, load_fixture, load_or_refresh, race_allowed, Card, Catalog,
    RawCard,
};

fn raw(
    id: Option<&str>,
    name: Option<&str>,
    tech_level: Option<u8>,
    is_bg_pool: Option<bool>,
    is_duos: Option<bool>,
    race: Option<&str>,
) -> RawCard {
    RawCard {
        id: id.map(|s| s.to_string()),
        name: name.map(|s| s.to_string()),
        tech_level,
        is_bg_pool,
        is_duos,
        race: race.map(|s| s.to_string()),
    }
}

fn card(id: &str, name: &str, tier: u8, race: Option<&str>) -> Card {
    Card {
        id: id.to_string(),
        name: name.to_string(),
        tier,
        race: race.map(|s| s.to_string()),
    }
}

#[test]
fn filter_fixture_by_tier_and_race() {
    let cat = load_fixture();
    let t1 = cat.names_for_tier(1, &[]);
    assert!(t1.iter().any(|n| n.contains("Murloc")));
    assert_eq!(cat.cards_for_tier(1, &[]).len(), 2);
    assert_eq!(cat.cards_for_tier(6, &[]).len(), 2);
    assert!(cat.names_for_tier(4, &[]).iter().any(|n| n.contains("Hydra")));
    let murloc_only = cat.names_for_tier(1, &["MURLOC".into()]);
    assert_eq!(murloc_only, vec!["Fixture Murloc Pup".to_string()]);
}

/// Decodes a HearthstoneJSON card list into database entries, field by
/// field, the way the program's decoder names them.
fn decode(json: &str) -> Vec<RawCard> {
    let v: serde_json::Value = serde_json::from_str(json).unwrap();
    v.as_array()
        .unwrap()
        .iter()
        .map(|e| RawCard {
            id: e.get("id").and_then(|x| x.as_str()).map(|s| s.to_string()),
            name: e.get("name").and_then(|x| x.as_str()).map(|s| s.to_string()),
            tech_level: e.get("techLevel").and_then(|x| x.as_u64()).map(|t| t as u8),
            is_bg_pool: e.get("isBattlegroundsPoolMinion").and_then(|x| x.as_bool()),
            is_duos: e.get("isBattlegroundsDuosExclusive").and_then(|x| x.as_bool()),
            race: e.get("race").and_then(|x| x.as_str()).map(|s| s.to_string()),
        })
        .collect()
}

#[test]
fn parse_keeps_current_pool_drops_duos_and_rotated() {
    let json = r#"[
      {"id":"BG_POOL","name":"Pool Pup","techLevel":1,"isBattlegroundsPoolMinion":true,"race":"MURLOC"},
      {"id":"BG_DUO","name":"Duo Only","techLevel":2,"isBattlegroundsPoolMinion":true,"isBattlegroundsDuosExclusive":true,"race":"MECH"},
      {"id":"BG_OLD","name":"Rotated","techLevel":3,"type":"MINION","race":"BEAST"},
      {"id":"BG_T7","name":"Bad Tier","techLevel":7,"isBattlegroundsPoolMinion":true}
    ]"#;
    let cards = bg_pool_minions(decode(json));
    assert_eq!(cards.len(), 1);
    assert_eq!(cards[0].id, "BG_POOL");
}

#[test]
fn pool_sorted_by_tier_then_name_and_stable() {
    let entries = vec![
        raw(Some("C"), Some("Zeta"), Some(2), Some(true), Some(false), None),
        raw(Some("A"), Some("Beta"), Some(1), Some(true), None, None),
        raw(Some("B"), Some("Alpha"), Some(2), Some(true), None, None),
        raw(Some("D"), Some("Alpha"), Some(2), Some(true), None, Some("BEAST")),
        raw(Some("E"), Some("alpha"), Some(1), Some(true), None, None),
    ];
    let cards = bg_pool_minions(entries);
    let ids: Vec<&str> = cards.iter().map(|c| c.id.as_str()).collect();
    // Tier 1: "Beta" < "alpha" (upper case sorts first); tier 2: the two
    // "Alpha" cards keep their input order, then "Zeta".
    assert_eq!(ids, vec!["A", "E", "B", "D", "C"]);
}

#[test]
fn pool_drops_repeated_neighbour_ids_only() {
    let entries = vec![
        raw(Some("X"), Some("Same"), Some(3), Some(true), None, None),
        raw(Some("X"), Some("Same"), Some(3), Some(true), None, Some("MECH")),
        raw(Some("Y"), Some("Mid"), Some(2), Some(true), None, None),
        raw(Some("X"), Some("Other"), Some(1), Some(true), None, None),
        raw(None, Some("No Id"), Some(1), Some(true), None, None),
        raw(Some("N"), None, Some(1), Some(true), None, None),
        raw(Some("Z"), Some("Zero"), Some(0), Some(true), None, None),
    ];
    let cards = bg_pool_minions(entries);
    // Sorted: X/Other (1), Y/Mid (2), X/Same (3), X/Same (3); only the last
    // repeats the id of its neighbour.
    assert_eq!(cards.len(), 3);
    assert_eq!(cards[0], card("X", "Other", 1, None));
    assert_eq!(cards[1], card("Y", "Mid", 2, None));
    assert_eq!(cards[2], card("X", "Same", 3, None));
}

#[test]
fn race_filter_ignores_ascii_case_and_keeps_neutrals() {
    let races = vec!["beast".to_string()];
    assert!(race_allowed(&Some("BEAST".to_string()), &races));
    assert!(!race_allowed(&Some("MECH".to_string()), &races));
    assert!(race_allowed(&None, &races));
    assert!(race_allowed(&Some("ALL".to_string()), &races));
    assert!(!race_allowed(&Some("all".to_string()), &races));
    assert!(race_allowed(&Some("MECH".to_string()), &[]));
}

#[test]
fn tier_filter_with_lobby_races() {
    let cat = load_fixture();
    let races = vec!["DRAGON".to_string()];
    assert_eq!(
        cat.names_for_tier(6, &races),
        vec!["Fixture Kalecgos".to_string(), "Fixture Amalgadon".to_string()]
    );
    assert_eq!(cat.names_for_tier(5, &races), vec!["Fixture Lightfang Enforcer".to_string()]);
    assert!(cat.names_for_tier(4, &races).is_empty());
    assert!(cat.names_for_tier(7, &[]).is_empty());
}

#[test]
fn fixture_has_ten_cards() {
    let cards = fixture_cards();
    assert_eq!(cards.len(), 10);
    assert_eq!(cards[9], card("BG_FIXTURE_10", "Fixture Amalgadon", 6, Some("ALL")));
    assert_eq!(load_fixture().source, "fixture");
}

#[test]
fn refresh_prefers_fetched_then_cache_then_fixture() {
    let fresh = vec![card("F", "Fresh", 1, None)];
    let cached = vec![card("K", "Kept", 2, None)];
    let c = load_or_refresh(Ok(fresh.clone()), Some(cached.clone()));
    assert_eq!(c.source, "hearthstonejson");
    assert_eq!(c.cards, fresh);
    let c = load_or_refresh(Err("offline".to_string()), Some(cached.clone()));
    assert_eq!(c.source, "cache");
    assert_eq!(c.cards, cached);
    let c = load_or_refresh(Ok(Vec::new()), Some(cached.clone()));
    assert_eq!(c.source, "cache");
    let c = load_or_refresh(Err("offline".to_string()), Some(Vec::new()));
    assert_eq!(c.source, "fixture");
    assert_eq!(c.cards.len(), 10);
    let c = load_or_refresh(Err("offline".to_string()), None);
    assert_eq!(c.source, "fixture");
    assert!(!c.cards.is_empty());
}

#[test]
fn default_catalog_is_empty() {
    let c = Catalog::default();
    assert!(c.cards.is_empty());
    assert!(c.source.is_empty());
    assert!(c.names_for_tier(1, &[]).is_empty());
}

#[test]
fn catalog_clone_keeps_cards_and_source() {
    let c = load_fixture();
    let d = c.clone();
    assert_eq!(d.cards, c.cards);
    assert_eq!(d.source, c.source);
}
