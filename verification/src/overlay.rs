//! What the overlay shows: the snapshot it is handed, the messages it sends
//! back, and the text of its status and last-opponent rows.

use vstd::prelude::*;
use crate::state::{
    BoardMinionView, GameState, GameStateView, OpponentBoardView, last_board, minions_view,
    phase_name,
};
use crate::text::{append_joined, append_signed_decimal, join, signed_decimal};

verus! {

broadcast use vstd::string::group_string_axioms;

/// UI-facing snapshot pushed from the app loop.
#[derive(Debug)]
pub struct OverlaySnapshot {
    pub status: String,
    pub state: GameState,
    pub selected_tier: u8,
}

impl Clone for OverlaySnapshot {
    fn clone(&self) -> (r: Self)
        ensures
            r.status@ == self.status@,
            r.state@ == self.state@,
            r.selected_tier == self.selected_tier,
    {
        OverlaySnapshot {
            status: self.status.clone(),
            state: self.state.clone(),
            selected_tier: self.selected_tier,
        }
    }
}

/// Messages from UI → app (tier clicks).
#[derive(Debug, Clone, Copy, PartialEq, Eq, Structural)]
pub enum UiMsg {
    SelectTier(u8),
    Quit,
}

/// One minion as the overlay lists it: `name atk/health`.
pub open spec fn minion_text(m: BoardMinionView) -> Seq<char> {
    m.name + " "@ + signed_decimal(m.atk as int) + "/"@ + signed_decimal(m.health as int)
}

pub open spec fn minion_text_fn() -> spec_fn(BoardMinionView) -> Seq<char> {
    |m: BoardMinionView| minion_text(m)
}

/// The last-opponent row for board `b`.
pub open spec fn board_text(b: OpponentBoardView) -> Seq<char> {
    "Last opponent ("@ + b.player_id + ") "@ + b.hero + ": "@ + if b.minions.len() == 0 {
        "(empty)"@
    } else {
        join(b.minions.map_values(minion_text_fn()), ", "@)
    }
}

/// The last-opponent row of the overlay for state `s`.
pub open spec fn opponent_row(s: GameStateView) -> Seq<char> {
    match last_board(s) {
        None => "Last opponent board: (none)"@,
        Some(b) => board_text(b),
    }
}

/// Text of the last-opponent row.
pub fn opponent_text(state: &GameState) -> (r: String)
    ensures
        r@ == opponent_row(state@),
{
    match state.last_opponent_board() {
        None => String::from_str("Last opponent board: (none)"),
        Some(b) => {
            let ghost mv = minions_view(b.minions@);
            let mut mins: Vec<String> = Vec::new();
            let mut i: usize = 0;
            while i < b.minions.len()
                invariant
                    i <= b.minions.len(),
                    mv == minions_view(b.minions@),
                    mins@.map_values(|x: String| x@) == mv.take(i as int).map_values(
                        minion_text_fn(),
                    ),
                decreases b.minions.len() - i,
            {
                let m = &b.minions[i];
                let mut t = m.name.clone();
                t.append(" ");
                append_signed_decimal(&mut t, m.atk as i64);
                t.append("/");
                append_signed_decimal(&mut t, m.health as i64);
                let ghost m0 = mins@;
                proof {
                    assert(mv[i as int] == m@);
                    assert(t@ =~= minion_text(m@));
                    assert(mv.take(i + 1) =~= mv.take(i as int).push(mv[i as int]));
                }
                mins.push(t);
                assert(mins@.map_values(|x: String| x@) =~= m0.map_values(|x: String| x@).push(
                    t@,
                ));
                assert(mins@.map_values(|x: String| x@) =~= mv.take(i + 1).map_values(
                    minion_text_fn(),
                ));
                i = i + 1;
            }
            assert(mv.take(b.minions.len() as int) =~= mv);
            let mut out = String::from_str("Last opponent (");
            out.append(b.player_id.as_str());
            out.append(") ");
            out.append(b.hero.as_str());
            out.append(": ");
            if mins.len() == 0 {
                out.append("(empty)");
            } else {
                append_joined(&mut out, &mins, ", ");
            }
            assert(out@ =~= board_text(b@));
            out
        },
    }
}

/// The status row: `status | phase=<phase> | <catalog source>`.
pub fn status_text(status: &str, state: &GameState, source: &str) -> (r: String)
    ensures
        r@ == status@ + " | phase="@ + phase_name(state.phase) + " | "@ + source@,
{
    let mut out = String::from_str(status);
    out.append(" | phase=");
    out.append(state.phase_label());
    out.append(" | ");
    out.append(source);
    out
}

/// The last-opponent row lists every minion of the board, in order: an
/// empty board reads `(empty)`, a single minion reads as its text, and one
/// more minion on a non-empty board adds `, ` and its text to the row.
pub proof fn law_board_text_lists_every_minion(b: OpponentBoardView, m: BoardMinionView)
    ensures
        minion_text(m) == m.name + " "@ + signed_decimal(m.atk as int) + "/"@ + signed_decimal(
            m.health as int,
        ),
        board_text(OpponentBoardView { minions: Seq::empty(), ..b }) == "Last opponent ("@
            + b.player_id + ") "@ + b.hero + ": "@ + "(empty)"@,
        board_text(OpponentBoardView { minions: seq![m], ..b }) == "Last opponent ("@ + b.player_id
            + ") "@ + b.hero + ": "@ + m.name + " "@ + signed_decimal(m.atk as int) + "/"@
            + signed_decimal(m.health as int),
        b.minions.len() > 0 ==> board_text(OpponentBoardView { minions: b.minions.push(m), ..b })
            == board_text(b) + ", "@ + minion_text(m),
{
    let one = seq![m].map_values(minion_text_fn());
    assert(one =~= seq![minion_text(m)]);
    if b.minions.len() > 0 {
        let t = b.minions.map_values(minion_text_fn());
        let u = b.minions.push(m).map_values(minion_text_fn());
        assert(u =~= t.push(minion_text(m)));
        assert(u.drop_last() =~= t);
        assert(join(u, ", "@) == join(t, ", "@) + ", "@ + minion_text(m));
    }
}

/// With no opponent met, or no board kept for the last one, the row says
/// so; otherwise it shows the board of the last opponent.
pub proof fn law_opponent_row(s: GameStateView)
    ensures
        last_board(s) is None ==> opponent_row(s) == "Last opponent board: (none)"@,
        s.last_opponent_id is None ==> opponent_row(s) == "Last opponent board: (none)"@,
        (last_board(s) matches Some(b)) ==> opponent_row(s) == board_text(last_board(s)->0),
{
}

} // verus!
