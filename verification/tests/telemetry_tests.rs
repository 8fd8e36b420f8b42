use bgc::state::{apply, BoardMinion, Event, GameState, OpponentBoard};
use bgc::telemetry::{build_combat_doc, build_combat_doc_at, clock_reading, now_iso};
use bgc::utc::{clock_stamp, utc_timestamp};

fn opponent() -> OpponentBoard {
    OpponentBoard {
        player_id: "p9".into(),
        hero: "Hero".into(),
        minions: vec![BoardMinion {
            card_id: "C1".into(),
            name: "Pup".into(),
            atk: 3,
            health: 1,
            position: 2,
        }],
    }
}

#[test]
fn combat_doc_fields() {
    let mut s = apply(GameState::default(), Event::EnterMatch { game_id: "g7".into() });
    s = apply(s, Event::SetRaces(vec!["BEAST".into()]));
    s = apply(s, Event::EndCombat { opponent: opponent() });
    let d = build_combat_doc_at(&s, &opponent(), "1700000000".to_string());
    assert_eq!(d.schema, "combat_v1");
    assert_eq!(d.captured_at, "1700000000");
    assert_eq!(d.game_id, "g7");
    assert_eq!(d.combat_index, 1);
    assert_eq!(d.available_races, vec!["BEAST".to_string()]);
    assert_eq!(d.board_opponent, opponent().minions);
    assert_eq!(d.opponent_hero, "Hero");
    assert_eq!(d.opponent_player_id, "p9");
}

#[test]
fn combat_doc_without_game_id() {
    let d = build_combat_doc(&GameState::default(), &opponent());
    assert_eq!(d.game_id, "unknown");
    assert_eq!(d.combat_index, 0);
    assert_rfc3339_shape(&d.captured_at);
    let again = d.clone();
    assert_eq!(again.captured_at, d.captured_at);
    assert_eq!(again.board_opponent, d.board_opponent);
}

fn assert_rfc3339_shape(t: &str) {
    let b = t.as_bytes();
    assert_eq!(b.len(), 20, "{t}");
    for (i, c) in b.iter().enumerate() {
        match i {
            4 | 7 => assert_eq!(*c, b'-'),
            10 => assert_eq!(*c, b'T'),
            13 | 16 => assert_eq!(*c, b':'),
            19 => assert_eq!(*c, b'Z'),
            _ => assert!(c.is_ascii_digit()),
        }
    }
}

#[test]
fn now_is_an_rfc3339_utc_timestamp() {
    let t = now_iso();
    assert_rfc3339_shape(&t);
    assert!(t.as_str() >= "2020-01-01T00:00:00Z");
    let reading = clock_reading().unwrap();
    assert!(reading > 1_600_000_000);
}

#[test]
fn utc_timestamps() {
    assert_eq!(utc_timestamp(0), "1970-01-01T00:00:00Z");
    assert_eq!(utc_timestamp(86400 + 3661), "1970-01-02T01:01:01Z");
    assert_eq!(utc_timestamp(951_782_400), "2000-02-29T00:00:00Z");
    assert_eq!(utc_timestamp(951_868_800), "2000-03-01T00:00:00Z");
    assert_eq!(utc_timestamp(1_700_000_000), "2023-11-14T22:13:20Z");
    assert_eq!(utc_timestamp(4_107_542_399), "2100-02-28T23:59:59Z");
    assert_eq!(utc_timestamp(4_107_542_400), "2100-03-01T00:00:00Z");
    assert_eq!(utc_timestamp(253_402_300_799), "9999-12-31T23:59:59Z");
    assert_eq!(utc_timestamp(253_402_300_800), "10000-01-01T00:00:00Z");
    assert_eq!(clock_stamp(None), "1970-01-01T00:00:00Z");
    assert_eq!(clock_stamp(Some(59)), "1970-01-01T00:00:59Z");
    let far = utc_timestamp(u64::MAX);
    assert!(far.ends_with("Z"));
}

fn is_leap(y: u64) -> bool {
    y % 4 == 0 && (y % 100 != 0 || y % 400 == 0)
}

#[test]
fn utc_dates_agree_with_day_by_day_counting() {
    let (mut y, mut m, mut d) = (1970u64, 1u64, 1u64);
    for day in 0u64..150_000 {
        let expected = format!("{y:04}-{m:02}-{d:02}T12:00:00Z");
        assert_eq!(utc_timestamp(day * 86400 + 43200), expected);
        let len = match m {
            2 => {
                if is_leap(y) {
                    29
                } else {
                    28
                }
            }
            4 | 6 | 9 | 11 => 30,
            _ => 31,
        };
        d += 1;
        if d > len {
            d = 1;
            m += 1;
            if m > 12 {
                m = 1;
                y += 1;
            }
        }
    }
}
