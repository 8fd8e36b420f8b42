use bgc::overlay::{opponent_text, status_text, OverlaySnapshot, UiMsg};
use bgc::session::{handle_event, startup_status, telemetry_status};
use bgc::state::{apply, BoardMinion, Event, GameState, OpponentBoard};

fn minion(name: &str, atk: i32, health: i32) -> BoardMinion {
    BoardMinion {
        card_id: "id".into(),
        name: name.into(),
        atk,
        health,
        position: 0,
    }
}

#[test]
fn opponent_row_text() {
    let s = GameState::default();
    assert_eq!(opponent_text(&s), "Last opponent board: (none)");
    let s = apply(
        s,
        Event::EndCombat {
            opponent: OpponentBoard {
                player_id: "p2".into(),
                hero: "Hero".into(),
                minions: vec![minion("Pup", 2, 3), minion("Golem", -1, 10)],
            },
        },
    );
    assert_eq!(opponent_text(&s), "Last opponent (p2) Hero: Pup 2/3, Golem -1/10");
    let s = apply(
        s,
        Event::EndCombat {
            opponent: OpponentBoard {
                player_id: "p3".into(),
                hero: "Other".into(),
                minions: vec![],
            },
        },
    );
    assert_eq!(opponent_text(&s), "Last opponent (p3) Other: (empty)");
}

#[test]
fn status_row_text() {
    let s = apply(GameState::default(), Event::EnterLobby);
    assert_eq!(status_text("demo mode", &s, "fixture"), "demo mode | phase=Lobby | fixture");
}

#[test]
fn snapshot_and_messages() {
    let snap = OverlaySnapshot {
        status: "x".into(),
        state: GameState::default(),
        selected_tier: 3,
    };
    assert_eq!(snap.selected_tier, 3);
    let copy = snap.clone();
    assert_eq!(copy.status, "x");
    assert_eq!(copy.state, snap.state);
    assert_eq!(copy.selected_tier, 3);
    assert_eq!(UiMsg::SelectTier(2), UiMsg::SelectTier(2));
    assert_ne!(UiMsg::SelectTier(2), UiMsg::Quit);
}

#[test]
fn handle_event_records_combats_only() {
    let opp = OpponentBoard {
        player_id: "p1".into(),
        hero: "H".into(),
        minions: vec![minion("Pup", 1, 1)],
    };
    let (s, rec) = handle_event(GameState::default(), Event::EnterCombat);
    assert!(rec.is_none());
    let (s, rec) = handle_event(s, Event::EndCombat { opponent: opp.clone() });
    assert_eq!(rec, Some(opp));
    assert_eq!(s.combat_index, 1);
}

#[test]
fn status_lines() {
    assert_eq!(telemetry_status(&Ok(42)), "telemetry combat id=42");
    assert_eq!(
        telemetry_status(&Err("disk full".to_string())),
        "telemetry error: disk full"
    );
    assert_eq!(startup_status(Some("/x/Power.log"), false), "logs: /x/Power.log");
    assert_eq!(startup_status(None, false), "waiting for logs");
    assert_eq!(startup_status(Some("/x/Power.log"), true), "demo mode");
}
