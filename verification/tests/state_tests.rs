use bgc::state::{apply, BoardMinion, Event, GameState, OpponentBoard, Phase};

fn minion(name: &str, atk: i32, health: i32) -> BoardMinion {
    BoardMinion {
        card_id: "X".into(),
        name: name.into(),
        atk,
        health,
        position: 0,
    }
}

fn board(id: &str, hero: &str, minions: Vec<BoardMinion>) -> OpponentBoard {
    OpponentBoard {
        player_id: id.into(),
        hero: hero.into(),
        minions,
    }
}

#[test]
fn apply_match_and_combat() {
    let s = GameState::default();
    let s = apply(s, Event::EnterLobby);
    assert_eq!(s.phase, Phase::Lobby);
    let s = apply(
        s,
        Event::EnterMatch {
            game_id: "g1".into(),
        },
    );
    assert_eq!(s.phase, Phase::Match);
    let s = apply(s, Event::SetRaces(vec!["BEAST".into(), "MECH".into()]));
    assert_eq!(s.available_races.len(), 2);
    let s = apply(s, Event::EnterCombat);
    assert_eq!(s.phase, Phase::Combat);
    let s = apply(
        s,
        Event::EndCombat {
            opponent: OpponentBoard {
                player_id: "p2".into(),
                hero: "Hero".into(),
                minions: vec![BoardMinion {
                    card_id: "X".into(),
                    name: "Pup".into(),
                    atk: 2,
                    health: 2,
                    position: 0,
                }],
            },
        },
    );
    assert_eq!(s.phase, Phase::Match);
    assert_eq!(s.combat_index, 1);
    assert!(s.last_opponent_board().unwrap().minions[0].name == "Pup");
}

#[test]
fn default_state_is_idle_and_empty() {
    let s = GameState::default();
    assert_eq!(s.phase, Phase::Idle);
    assert_eq!(Phase::default(), Phase::Idle);
    assert!(s.game_id.is_none());
    assert!(s.last_opponent_board().is_none());
    assert_eq!(s.combat_index, 0);
    assert_eq!(s.phase_label(), "Idle");
    assert_eq!(s.races_label(), "Races: Unknown");
}

#[test]
fn fight_history_keeps_last_board_per_opponent() {
    let mut s = apply(GameState::default(), Event::EnterMatch { game_id: "g".into() });
    s = apply(s, Event::EndCombat { opponent: board("p1", "A", vec![minion("One", 1, 1)]) });
    s = apply(s, Event::EndCombat { opponent: board("p2", "B", vec![]) });
    s = apply(s, Event::EndCombat { opponent: board("p1", "A", vec![minion("Two", 3, 4)]) });
    assert_eq!(s.combat_index, 3);
    assert_eq!(s.opponent_boards.len(), 2);
    let last = s.last_opponent_board().unwrap();
    assert_eq!(last.player_id, "p1");
    assert_eq!(last.minions[0].name, "Two");
    let p2 = s.opponent_boards.iter().find(|b| b.player_id == "p2").unwrap();
    assert_eq!(p2.hero, "B");
}

#[test]
fn match_end_and_lobby_forget_the_match() {
    let mut s = apply(GameState::default(), Event::EnterMatch { game_id: "g".into() });
    s = apply(s, Event::SetRaces(vec!["BEAST".into()]));
    s = apply(s, Event::EndCombat { opponent: board("p1", "A", vec![]) });
    let ended = apply(s.clone(), Event::MatchEnd);
    assert_eq!(ended, GameState::default());
    assert_eq!(ended.races_label(), "Races: Unknown");
    let lobby = apply(s.clone(), Event::EnterLobby);
    assert_eq!(lobby.phase, Phase::Lobby);
    assert!(lobby.available_races.is_empty());
    assert!(lobby.last_opponent_board().is_none());
    assert_eq!(lobby.combat_index, 0);
    let rematch = apply(s, Event::EnterMatch { game_id: "h".into() });
    assert_eq!(rematch.game_id.as_deref(), Some("h"));
    assert_eq!(rematch.available_races, vec!["BEAST".to_string()]);
    assert!(rematch.opponent_boards.is_empty());
    assert!(rematch.last_opponent_board().is_none());
}

#[test]
fn races_and_combat_start_keep_boards() {
    let mut s = apply(GameState::default(), Event::EnterMatch { game_id: "g".into() });
    s = apply(s, Event::EndCombat { opponent: board("p1", "A", vec![]) });
    s = apply(s, Event::SetRaces(vec!["MECH".into(), "MURLOC".into()]));
    s = apply(s, Event::EnterCombat);
    assert_eq!(s.phase, Phase::Combat);
    assert_eq!(s.phase_label(), "Combat");
    assert_eq!(s.last_opponent_board().unwrap().player_id, "p1");
    assert_eq!(s.races_label(), "Races: MECH, MURLOC");
}

#[test]
fn combat_index_saturates() {
    let mut s = GameState::default();
    s.combat_index = u32::MAX;
    let s = apply(s, Event::EndCombat { opponent: board("p", "H", vec![]) });
    assert_eq!(s.combat_index, u32::MAX);
    assert_eq!(s.phase, Phase::Match);
}

#[test]
fn phase_labels() {
    let mut s = GameState::default();
    s.phase = Phase::Lobby;
    assert_eq!(s.phase_label(), "Lobby");
    s.phase = Phase::Match;
    assert_eq!(s.phase_label(), "Match");
}

#[test]
fn equality_ignores_the_order_opponents_were_met() {
    let start = apply(GameState::default(), Event::EnterMatch { game_id: "g".into() });
    let one = |id: &str| Event::EndCombat { opponent: board(id, "H", vec![minion("M", 1, 1)]) };
    let mut a = start.clone();
    for id in ["p1", "p2", "p1"] {
        a = apply(a, one(id));
    }
    let mut b = start.clone();
    for id in ["p2", "p1", "p1"] {
        b = apply(b, one(id));
    }
    assert_eq!(a, b);
    let c = apply(b.clone(), Event::EndCombat { opponent: board("p2", "H", vec![]) });
    assert_ne!(a, c);
    assert_ne!(a, apply(a.clone(), Event::EnterCombat));
}

#[test]
fn event_clone_is_equal() {
    let e = Event::EndCombat { opponent: board("p", "H", vec![minion("M", 2, 3)]) };
    assert_eq!(e.clone(), e);
    let r = Event::SetRaces(vec!["BEAST".into()]);
    assert_eq!(r.clone(), r);
}
