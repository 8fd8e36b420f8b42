//! Combat telemetry documents (`combat_v1`).

use std::time::{Duration, SystemTime, UNIX_EPOCH};
use vstd::prelude::*;
use crate::state::{
    BoardMinion, BoardMinionView, GameState, GameStateView, OpponentBoard, OpponentBoardView,
    clone_minions, minions_view,
};
use crate::text::strings_view;
use crate::utc::{clock_secs, clock_stamp, utc_stamp};

verus! {

broadcast use vstd::string::group_string_axioms;

#[derive(Debug)]
pub struct CombatDoc {
    pub schema: String,
    pub captured_at: String,
    pub game_id: String,
    pub combat_index: u32,
    pub available_races: Vec<String>,
    pub board_opponent: Vec<BoardMinion>,
    pub opponent_hero: String,
    pub opponent_player_id: String,
}

pub struct CombatDocView {
    pub schema: Seq<char>,
    pub captured_at: Seq<char>,
    pub game_id: Seq<char>,
    pub combat_index: u32,
    pub available_races: Seq<Seq<char>>,
    pub board_opponent: Seq<BoardMinionView>,
    pub opponent_hero: Seq<char>,
    pub opponent_player_id: Seq<char>,
}

impl View for CombatDoc {
    type V = CombatDocView;

    open spec fn view(&self) -> CombatDocView {
        CombatDocView {
            schema: self.schema@,
            captured_at: self.captured_at@,
            game_id: self.game_id@,
            combat_index: self.combat_index,
            available_races: strings_view(self.available_races@),
            board_opponent: minions_view(self.board_opponent@),
            opponent_hero: self.opponent_hero@,
            opponent_player_id: self.opponent_player_id@,
        }
    }
}

impl Clone for CombatDoc {
    fn clone(&self) -> (r: Self)
        ensures
            r@ == self@,
    {
        let races = self.available_races.clone();
        assert(strings_view(races@) =~= strings_view(self.available_races@));
        CombatDoc {
            schema: self.schema.clone(),
            captured_at: self.captured_at.clone(),
            game_id: self.game_id.clone(),
            combat_index: self.combat_index,
            available_races: races,
            board_opponent: clone_minions(&self.board_opponent),
            opponent_hero: self.opponent_hero.clone(),
            opponent_player_id: self.opponent_player_id.clone(),
        }
    }
}

/// The document recorded for a combat against `o` in state `s`, stamped
/// `captured_at`.
pub open spec fn combat_doc(
    s: GameStateView,
    o: OpponentBoardView,
    captured_at: Seq<char>,
) -> CombatDocView {
    CombatDocView {
        schema: "combat_v1"@,
        captured_at,
        game_id: match s.game_id {
            Some(g) => g,
            None => "unknown"@,
        },
        combat_index: s.combat_index,
        available_races: s.available_races,
        board_opponent: o.minions,
        opponent_hero: o.hero,
        opponent_player_id: o.player_id,
    }
}

/// `std::time::SystemTime`, an instant passed from one clock call to the
/// next; nothing is claimed of it.
#[verifier::external_type_specification]
#[verifier::external_body]
pub struct ExSystemTime(SystemTime);

/// Calls `SystemTime::now`. Nothing is claimed of the instant it returns.
#[verifier::external_body]
fn system_now() -> SystemTime {
    SystemTime::now()
}

/// Calls `SystemTime::duration_since(UNIX_EPOCH)`: the time from the epoch
/// to `t`, or `None` when `t` lies before the epoch (the call's error).
/// Nothing is claimed of the duration.
#[verifier::external_body]
fn since_epoch(t: SystemTime) -> Option<Duration> {
    match t.duration_since(UNIX_EPOCH) {
        Ok(d) => Some(d),
        Err(_) => None,
    }
}

/// Calls `Duration::as_secs`: the whole seconds of `d`. Nothing is claimed
/// of the number.
#[verifier::external_body]
fn whole_secs(d: Duration) -> u64 {
    d.as_secs()
}

/// Reads the clock: whole seconds since the Unix epoch, or `None` when the
/// clock reads before the epoch.
pub fn clock_reading() -> Option<u64> {
    match since_epoch(system_now()) {
        Some(d) => Some(whole_secs(d)),
        None => None,
    }
}

/// UTC timestamp of the current time, `YYYY-MM-DDTHH:MM:SSZ` (the epoch
/// when the clock reads before it).
pub fn now_iso() -> (s: String)
    ensures
        exists|reading: Option<u64>| s@ == utc_stamp(clock_secs(reading)),
{
    let reading = clock_reading();
    clock_stamp(reading)
}

/// The combat document for `opponent` in `state`, stamped `captured_at`.
pub fn build_combat_doc_at(state: &GameState, opponent: &OpponentBoard, captured_at: String) -> (d:
    CombatDoc)
    ensures
        d@ == combat_doc(state@, opponent@, captured_at@),
{
    let game_id = match &state.game_id {
        Some(g) => g.clone(),
        None => String::from_str("unknown"),
    };
    let races = state.available_races.clone();
    assert(strings_view(races@) =~= strings_view(state.available_races@));
    CombatDoc {
        schema: String::from_str("combat_v1"),
        captured_at,
        game_id,
        combat_index: state.combat_index,
        available_races: races,
        board_opponent: clone_minions(&opponent.minions),
        opponent_hero: opponent.hero.clone(),
        opponent_player_id: opponent.player_id.clone(),
    }
}

/// The combat document for `opponent` in `state`, stamped with the current
/// time.
pub fn build_combat_doc(state: &GameState, opponent: &OpponentBoard) -> (d: CombatDoc)
    ensures
        exists|reading: Option<u64>| d@ == combat_doc(
            state@,
            opponent@,
            utc_stamp(clock_secs(reading)),
        ),
{
    let stamp = now_iso();
    let ghost st = stamp@;
    let d = build_combat_doc_at(state, opponent, stamp);
    assert(d@ == combat_doc(state@, opponent@, st));
    d
}

/// A combat document is a `combat_v1` document carrying the stamp, the
/// match's game id (`unknown` outside a match), its combat count and races,
/// and the opponent's board, hero and player id.
pub proof fn law_combat_doc_fields(s: GameStateView, o: OpponentBoardView, at: Seq<char>)
    ensures
        combat_doc(s, o, at).schema == "combat_v1"@,
        combat_doc(s, o, at).captured_at == at,
        (s.game_id matches Some(g)) ==> combat_doc(s, o, at).game_id == s.game_id->0,
        s.game_id is None ==> combat_doc(s, o, at).game_id == "unknown"@,
        combat_doc(s, o, at).combat_index == s.combat_index,
        combat_doc(s, o, at).available_races == s.available_races,
        combat_doc(s, o, at).board_opponent == o.minions,
        combat_doc(s, o, at).opponent_hero == o.hero,
        combat_doc(s, o, at).opponent_player_id == o.player_id,
{
}

} // verus!
