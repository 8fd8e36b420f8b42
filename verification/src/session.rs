//! Decisions of the companion's main loop: what an event does to the state,
//! when a combat is to be recorded, and the status line shown.

use vstd::prelude::*;
use crate::state::{Event, EventView, GameState, OpponentBoard, apply, next_state};
use crate::text::{append_signed_decimal, signed_decimal};

verus! {

broadcast use vstd::string::group_string_axioms;

/// Applies `event`; when it ends a combat, also returns the opponent's
/// board, which is to be recorded as telemetry with the new state.
pub fn handle_event(state: GameState, event: Event) -> (r: (GameState, Option<OpponentBoard>))
    ensures
        r.0@ == next_state(state@, event@),
        match event@ {
            EventView::EndCombat { opponent } => r.1 is Some && r.1->0@ == opponent,
            _ => r.1 is None,
        },
{
    let opponent_for_telem = match &event {
        Event::EndCombat { opponent } => Some(opponent.clone()),
        _ => None,
    };
    let next = apply(state, event);
    (next, opponent_for_telem)
}

/// Status line after recording a combat: its row id, or the error.
pub open spec fn telemetry_status_text(r: Result<i64, Seq<char>>) -> Seq<char> {
    match r {
        Ok(id) => "telemetry combat id="@ + signed_decimal(id as int),
        Err(e) => "telemetry error: "@ + e,
    }
}

pub fn telemetry_status(result: &Result<i64, String>) -> (s: String)
    ensures
        s@ == telemetry_status_text(
            match result {
                Ok(id) => Ok(*id),
                Err(e) => Err(e@),
            },
        ),
{
    match result {
        Ok(id) => {
            let mut s = String::from_str("telemetry combat id=");
            append_signed_decimal(&mut s, *id);
            s
        },
        Err(e) => {
            let mut s = String::from_str("telemetry error: ");
            s.append(e.as_str());
            s
        },
    }
}

/// Status line at start-up: demo mode, the log found, or waiting for one.
pub open spec fn startup_status_text(log_path: Option<Seq<char>>, demo: bool) -> Seq<char> {
    if demo {
        "demo mode"@
    } else {
        match log_path {
            Some(p) => "logs: "@ + p,
            None => "waiting for logs"@,
        }
    }
}

pub fn startup_status(log_path: Option<&str>, demo: bool) -> (s: String)
    ensures
        s@ == startup_status_text(
            match log_path {
                Some(p) => Some(p@),
                None => None,
            },
            demo,
        ),
{
    if demo {
        return String::from_str("demo mode");
    }
    match log_path {
        Some(p) => {
            let mut s = String::from_str("logs: ");
            s.append(p);
            s
        },
        None => String::from_str("waiting for logs"),
    }
}

/// The status lines: the row id of a recorded combat or the error that
/// stopped it; at start-up demo mode first, then the log found, else the
/// wait for one.
pub proof fn law_status_lines(id: i64, e: Seq<char>, p: Seq<char>)
    ensures
        telemetry_status_text(Ok(id)) == "telemetry combat id="@ + signed_decimal(id as int),
        telemetry_status_text(Err(e)) == "telemetry error: "@ + e,
        startup_status_text(Some(p), true) == "demo mode"@,
        startup_status_text(None, true) == "demo mode"@,
        startup_status_text(Some(p), false) == "logs: "@ + p,
        startup_status_text(None, false) == "waiting for logs"@,
{
}

} // verus!
