use bgc::logs::{find_power_log, log_rel_candidates, parse_line, text_events_exec, LogTailer};
use bgc::state::Event;
use std::path::PathBuf;

#[test]
fn parse_races_marker() {
    let e = parse_line("BGC_RACES=BEAST,MECH").unwrap();
    match e {
        Event::SetRaces(r) => assert_eq!(r, vec!["BEAST", "MECH"]),
        _ => panic!("expected races"),
    }
}

#[test]
fn races_marker_splits_on_commas_and_whitespace() {
    let e = parse_line("  D 12:00 BGC_RACES= beast ,,MECH\tMURLOC BGC_RACES=DRAGON  ").unwrap();
    match e {
        Event::SetRaces(r) => assert_eq!(r, vec!["beast", "MECH", "MURLOC"]),
        _ => panic!("expected races"),
    }
    match parse_line("BGC_RACES=").unwrap() {
        Event::SetRaces(r) => assert!(r.is_empty()),
        _ => panic!("expected races"),
    }
}

#[test]
fn combat_end_markers() {
    for line in [
        "BGC_DEMO_COMBAT_END",
        "x TAG_CHANGE Entity=1 tag=BOARD_VISUAL_STATE value=2",
        "BGC_DEMO_COMBAT_END GameType=GT_BATTLEGROUNDS",
    ] {
        match parse_line(line).unwrap() {
            Event::EndCombat { opponent } => {
                assert_eq!(opponent.player_id, "log_opp");
                assert_eq!(opponent.hero, "Unknown");
                assert_eq!(opponent.minions.len(), 1);
                assert_eq!(opponent.minions[0].name, "Parsed Minion");
                assert_eq!(opponent.minions[0].card_id, "LOG");
                assert_eq!(opponent.minions[0].atk, 1);
            }
            _ => panic!("expected combat end"),
        }
    }
    assert!(parse_line("TAG_CHANGE only").is_none());
}

#[test]
fn match_start_markers() {
    for line in [
        "GameType=GT_BATTLEGROUNDS",
        "CREATE_GAME for Battlegrounds",
        "GameType=GT_BATTLEGROUNDS BGC_RACES=BEAST",
    ] {
        assert_eq!(
            parse_line(line),
            Some(Event::EnterMatch {
                game_id: "log_game".to_string()
            })
        );
    }
    assert_eq!(parse_line("CREATE_GAME"), None);
    assert_eq!(parse_line(""), None);
    assert_eq!(parse_line("   \t "), None);
    assert_eq!(parse_line("bgc_races=BEAST"), None);
}

#[test]
fn lines_of_appended_text() {
    let events = text_events_exec("BGC_RACES=A\r\nnoise\n\nGameType=GT_BATTLEGROUNDS\nBGC_RACES=B");
    assert_eq!(events.len(), 3);
    assert_eq!(events[0], Event::SetRaces(vec!["A".to_string()]));
    assert_eq!(
        events[1],
        Event::EnterMatch {
            game_id: "log_game".to_string()
        }
    );
    assert_eq!(events[2], Event::SetRaces(vec!["B".to_string()]));
    assert!(text_events_exec("").is_empty());
    assert_eq!(text_events_exec("BGC_RACES=C\n").len(), 1);
}

#[test]
fn events_of_whole_lines_concatenate() {
    let a = "BGC_RACES=A\nBGC_DEMO_COMBAT_END\n";
    let b = "GameType=GT_BATTLEGROUNDS\n";
    let whole = format!("{a}{b}");
    let mut separate = text_events_exec(a);
    separate.extend(text_events_exec(b));
    assert_eq!(text_events_exec(&whole), separate);
}

#[test]
fn first_present_log_candidate() {
    assert_eq!(log_rel_candidates().len(), 4);
    assert_eq!(
        log_rel_candidates()[0],
        "drive_c/Program Files (x86)/Hearthstone/Logs/Power.log"
    );
    assert_eq!(find_power_log(&vec![false, true, true, false]), Some(1));
    assert_eq!(find_power_log(&vec![false, false, false, false]), None);
    assert_eq!(find_power_log(&vec![]), None);
}

#[test]
fn tailer_reads_only_new_text() {
    let mut t = LogTailer::new(PathBuf::from("/tmp/Power.log"), 10);
    assert_eq!(t.pos(), 10);
    assert_eq!(t.path(), &PathBuf::from("/tmp/Power.log"));
    assert_eq!(t.begin_poll(10), None);
    assert_eq!(t.begin_poll(25), Some(10));
    let ev = t.finish_poll(25, "BGC_RACES=MECH\n");
    assert_eq!(ev, vec![Event::SetRaces(vec!["MECH".to_string()])]);
    assert_eq!(t.pos(), 25);
    assert_eq!(t.begin_poll(25), None);
    // truncated log: start over
    assert_eq!(t.begin_poll(5), Some(0));
    assert_eq!(t.pos(), 0);
    assert_eq!(t.begin_poll(0), None);
}

#[test]
fn surrounding_whitespace_does_not_matter() {
    for line in ["BGC_RACES=BEAST", "GameType=GT_BATTLEGROUNDS", "BGC_DEMO_COMBAT_END", "noise"] {
        let padded = format!(" \t{line}\u{3000}\r");
        assert_eq!(parse_line(&padded), parse_line(line));
        assert_eq!(parse_line(padded.trim()), parse_line(&padded));
    }
}
