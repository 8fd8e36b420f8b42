//! Battlegrounds game state: phases, lobby races and the last known board of
//! each opponent, advanced one event at a time.

use vstd::prelude::*;
use crate::text::{append_joined, join, opt_string_view, strings_view};
use vstd::std_specs::cmp::PartialEqSpecImpl;

verus! {

broadcast use vstd::string::group_string_axioms;

#[derive(Debug, Clone, Copy, PartialEq, Eq, Structural)]
pub enum Phase {
    Idle,
    Lobby,
    Match,
    Combat,
}

impl Default for Phase {
    fn default() -> (p: Self)
        ensures
            p == Phase::Idle,
    {
        Phase::Idle
    }
}

#[derive(Debug, PartialEq, Eq)]
pub struct BoardMinion {
    pub card_id: String,
    pub name: String,
    pub atk: i32,
    pub health: i32,
    pub position: u8,
}

pub struct BoardMinionView {
    pub card_id: Seq<char>,
    pub name: Seq<char>,
    pub atk: i32,
    pub health: i32,
    pub position: u8,
}

impl View for BoardMinion {
    type V = BoardMinionView;

    open spec fn view(&self) -> BoardMinionView {
        BoardMinionView {
            card_id: self.card_id@,
            name: self.name@,
            atk: self.atk,
            health: self.health,
            position: self.position,
        }
    }
}

impl Clone for BoardMinion {
    fn clone(&self) -> (r: Self)
        ensures
            r@ == self@,
    {
        BoardMinion {
            card_id: self.card_id.clone(),
            name: self.name.clone(),
            atk: self.atk,
            health: self.health,
            position: self.position,
        }
    }
}

pub open spec fn minions_view(v: Seq<BoardMinion>) -> Seq<BoardMinionView> {
    v.map_values(|m: BoardMinion| m@)
}

/// A copy of `v`, minion by minion.
pub fn clone_minions(v: &Vec<BoardMinion>) -> (r: Vec<BoardMinion>)
    ensures
        minions_view(r@) == minions_view(v@),
{
    let mut r: Vec<BoardMinion> = Vec::new();
    let mut i: usize = 0;
    while i < v.len()
        invariant
            i <= v.len(),
            minions_view(r@) == minions_view(v@.take(i as int)),
        decreases v.len() - i,
    {
        let m = v[i].clone();
        let ghost r0 = r@;
        r.push(m);
        proof {
            assert(r@ == r0.push(m));
            assert(v@.take(i + 1) =~= v@.take(i as int).push(v@[i as int]));
            assert(minions_view(r@) =~= minions_view(r0).push(m@));
            assert(minions_view(r@) =~= minions_view(v@.take(i + 1)));
        }
        i = i + 1;
    }
    assert(v@.take(v.len() as int) =~= v@);
    r
}

#[derive(Debug, PartialEq, Eq)]
pub struct OpponentBoard {
    pub player_id: String,
    pub hero: String,
    pub minions: Vec<BoardMinion>,
}

pub struct OpponentBoardView {
    pub player_id: Seq<char>,
    pub hero: Seq<char>,
    pub minions: Seq<BoardMinionView>,
}

impl View for OpponentBoard {
    type V = OpponentBoardView;

    open spec fn view(&self) -> OpponentBoardView {
        OpponentBoardView {
            player_id: self.player_id@,
            hero: self.hero@,
            minions: minions_view(self.minions@),
        }
    }
}

impl Clone for OpponentBoard {
    fn clone(&self) -> (r: Self)
        ensures
            r@ == self@,
    {
        OpponentBoard {
            player_id: self.player_id.clone(),
            hero: self.hero.clone(),
            minions: clone_minions(&self.minions),
        }
    }
}

impl Default for OpponentBoard {
    fn default() -> (b: Self)
        ensures
            b@.player_id == Seq::<char>::empty(),
            b@.hero == Seq::<char>::empty(),
            b@.minions == Seq::<BoardMinionView>::empty(),
    {
        let b = OpponentBoard { player_id: String::new(), hero: String::new(), minions: Vec::new() };
        assert(b@.minions =~= Seq::<BoardMinionView>::empty());
        b
    }
}

/// The boards kept in `s`, by player id; a later entry for an id stands
/// over an earlier one.
pub open spec fn boards_map(s: Seq<OpponentBoardView>) -> Map<Seq<char>, OpponentBoardView>
    decreases s.len(),
{
    if s.len() == 0 {
        Map::empty()
    } else {
        boards_map(s.drop_last()).insert(s.last().player_id, s.last())
    }
}

pub open spec fn boards_view(v: Seq<OpponentBoard>) -> Seq<OpponentBoardView> {
    v.map_values(|b: OpponentBoard| b@)
}

/// State of the current Battlegrounds session.
///
/// `opponent_boards` holds one board per opponent player id (the last one
/// seen); its view is the map from player id to board.
#[derive(Debug)]
pub struct GameState {
    pub phase: Phase,
    pub game_id: Option<String>,
    pub available_races: Vec<String>,
    pub combat_index: u32,
    /// Last known board per opponent player id.
    pub opponent_boards: Vec<OpponentBoard>,
    pub last_opponent_id: Option<String>,
}

pub struct GameStateView {
    pub phase: Phase,
    pub game_id: Option<Seq<char>>,
    pub available_races: Seq<Seq<char>>,
    pub combat_index: u32,
    pub opponent_boards: Map<Seq<char>, OpponentBoardView>,
    pub last_opponent_id: Option<Seq<char>>,
}

impl View for GameState {
    type V = GameStateView;

    open spec fn view(&self) -> GameStateView {
        GameStateView {
            phase: self.phase,
            game_id: opt_string_view(self.game_id),
            available_races: strings_view(self.available_races@),
            combat_index: self.combat_index,
            opponent_boards: boards_map(boards_view(self.opponent_boards@)),
            last_opponent_id: opt_string_view(self.last_opponent_id),
        }
    }
}

/// The state before any event: idle, nothing known.
pub open spec fn initial_state() -> GameStateView {
    GameStateView {
        phase: Phase::Idle,
        game_id: None,
        available_races: Seq::empty(),
        combat_index: 0,
        opponent_boards: Map::empty(),
        last_opponent_id: None,
    }
}

impl Default for GameState {
    fn default() -> (s: Self)
        ensures
            s@ == initial_state(),
    {
        let s = GameState {
            phase: Phase::Idle,
            game_id: None,
            available_races: Vec::new(),
            combat_index: 0,
            opponent_boards: Vec::new(),
            last_opponent_id: None,
        };
        assert(s@.available_races =~= Seq::<Seq<char>>::empty());
        assert(boards_view(s.opponent_boards@) =~= Seq::<OpponentBoardView>::empty());
        s
    }
}

impl Clone for GameState {
    fn clone(&self) -> (r: Self)
        ensures
            r@ == self@,
    {
        let mut boards: Vec<OpponentBoard> = Vec::new();
        let mut i: usize = 0;
        while i < self.opponent_boards.len()
            invariant
                i <= self.opponent_boards.len(),
                boards_view(boards@) == boards_view(self.opponent_boards@.take(i as int)),
            decreases self.opponent_boards.len() - i,
        {
            let b = self.opponent_boards[i].clone();
            let ghost r0 = boards@;
            boards.push(b);
            proof {
                assert(self.opponent_boards@.take(i + 1) =~= self.opponent_boards@.take(i as int).push(self.opponent_boards@[i as int]));
                assert(boards_view(boards@) =~= boards_view(r0).push(b@));
                assert(boards_view(boards@) =~= boards_view(self.opponent_boards@.take(i + 1)));
            }
            i = i + 1;
        }
        assert(self.opponent_boards@.take(self.opponent_boards.len() as int)
            =~= self.opponent_boards@);
        let races = self.available_races.clone();
        assert(strings_view(races@) =~= strings_view(self.available_races@));
        GameState {
            phase: self.phase,
            game_id: self.game_id.clone(),
            available_races: races,
            combat_index: self.combat_index,
            opponent_boards: boards,
            last_opponent_id: self.last_opponent_id.clone(),
        }
    }
}

#[derive(Debug, PartialEq, Eq)]
pub enum Event {
    EnterLobby,
    EnterMatch { game_id: String },
    SetRaces(Vec<String>),
    EnterCombat,
    EndCombat { opponent: OpponentBoard },
    MatchEnd,
}

pub enum EventView {
    EnterLobby,
    EnterMatch { game_id: Seq<char> },
    SetRaces(Seq<Seq<char>>),
    EnterCombat,
    EndCombat { opponent: OpponentBoardView },
    MatchEnd,
}

impl View for Event {
    type V = EventView;

    open spec fn view(&self) -> EventView {
        match self {
            Event::EnterLobby => EventView::EnterLobby,
            Event::EnterMatch { game_id } => EventView::EnterMatch { game_id: game_id@ },
            Event::SetRaces(r) => EventView::SetRaces(strings_view(r@)),
            Event::EnterCombat => EventView::EnterCombat,
            Event::EndCombat { opponent } => EventView::EndCombat { opponent: opponent@ },
            Event::MatchEnd => EventView::MatchEnd,
        }
    }
}

impl Clone for Event {
    fn clone(&self) -> (r: Self)
        ensures
            r@ == self@,
    {
        match self {
            Event::EnterLobby => Event::EnterLobby,
            Event::EnterMatch { game_id } => Event::EnterMatch { game_id: game_id.clone() },
            Event::SetRaces(r) => {
                let c = r.clone();
                assert(strings_view(c@) =~= strings_view(r@));
                Event::SetRaces(c)
            },
            Event::EnterCombat => Event::EnterCombat,
            Event::EndCombat { opponent } => Event::EndCombat { opponent: opponent.clone() },
            Event::MatchEnd => Event::MatchEnd,
        }
    }
}

/// The state after `e`.
pub open spec fn next_state(s: GameStateView, e: EventView) -> GameStateView {
    match e {
        EventView::EnterLobby => GameStateView {
            phase: Phase::Lobby,
            game_id: None,
            available_races: Seq::empty(),
            combat_index: 0,
            opponent_boards: Map::empty(),
            last_opponent_id: None,
        },
        EventView::EnterMatch { game_id } => GameStateView {
            phase: Phase::Match,
            game_id: Some(game_id),
            combat_index: 0,
            opponent_boards: Map::empty(),
            last_opponent_id: None,
            ..s
        },
        EventView::SetRaces(races) => GameStateView { available_races: races, ..s },
        EventView::EnterCombat => GameStateView { phase: Phase::Combat, ..s },
        EventView::EndCombat { opponent } => GameStateView {
            phase: Phase::Match,
            combat_index: if s.combat_index < u32::MAX {
                (s.combat_index + 1) as u32
            } else {
                u32::MAX
            },
            last_opponent_id: Some(opponent.player_id),
            opponent_boards: s.opponent_boards.insert(opponent.player_id, opponent),
            ..s
        },
        EventView::MatchEnd => initial_state(),
    }
}

/// The board of the opponent faced last, when one is known.
pub open spec fn last_board(s: GameStateView) -> Option<OpponentBoardView> {
    match s.last_opponent_id {
        Some(id) => if s.opponent_boards.contains_key(id) {
            Some(s.opponent_boards[id])
        } else {
            None
        },
        None => None,
    }
}

/// `j` is the last index of `s` whose player id is `k`.
pub open spec fn is_last_with_id(s: Seq<OpponentBoardView>, k: Seq<char>, j: int) -> bool {
    &&& 0 <= j < s.len()
    &&& s[j].player_id == k
    &&& forall|t: int| j < t < s.len() ==> s[t].player_id != k
}

proof fn lemma_boards_map_last(s: Seq<OpponentBoardView>, k: Seq<char>, j: int)
    requires
        is_last_with_id(s, k, j),
    ensures
        boards_map(s).contains_key(k),
        boards_map(s)[k] == s[j],
    decreases s.len(),
{
    if j < s.len() - 1 {
        lemma_boards_map_last(s.drop_last(), k, j);
    }
}

proof fn lemma_boards_map_absent(s: Seq<OpponentBoardView>, k: Seq<char>)
    requires
        forall|t: int| 0 <= t < s.len() ==> s[t].player_id != k,
    ensures
        !boards_map(s).contains_key(k),
    decreases s.len(),
{
    if s.len() > 0 {
        lemma_boards_map_absent(s.drop_last(), k);
    }
}

proof fn lemma_boards_map_replace(s: Seq<OpponentBoardView>, j: int, b: OpponentBoardView)
    requires
        is_last_with_id(s, b.player_id, j),
    ensures
        boards_map(s.update(j, b)) == boards_map(s).insert(b.player_id, b),
    decreases s.len(),
{
    let u = s.update(j, b);
    if j == s.len() - 1 {
        assert(u.drop_last() =~= s.drop_last());
        assert(boards_map(u) =~= boards_map(s).insert(b.player_id, b));
    } else {
        lemma_boards_map_replace(s.drop_last(), j, b);
        assert(u.drop_last() =~= s.drop_last().update(j, b));
        assert(boards_map(u) =~= boards_map(s).insert(b.player_id, b));
    }
}

/// Index of the last board of player `id`, if any.
fn find_board(boards: &Vec<OpponentBoard>, id: &String) -> (r: Option<usize>)
    ensures
        match r {
            Some(j) => is_last_with_id(boards_view(boards@), id@, j as int),
            None => forall|t: int|
                0 <= t < boards@.len() ==> boards_view(boards@)[t].player_id != id@,
        },
{
    let mut j = boards.len();
    while j > 0
        invariant
            j <= boards.len(),
            forall|t: int| j <= t < boards@.len() ==> boards_view(boards@)[t].player_id != id@,
        decreases j,
    {
        if boards[j - 1].player_id == *id {
            return Some(j - 1);
        }
        j = j - 1;
    }
    None
}

/// Records `board` as the last known board of its player.
fn record_board(boards: &mut Vec<OpponentBoard>, board: OpponentBoard)
    ensures
        boards_map(boards_view(final(boards)@)) == boards_map(boards_view(old(boards)@)).insert(
            board@.player_id,
            board@,
        ),
{
    let ghost b = board@;
    match find_board(boards, &board.player_id) {
        Some(j) => {
            proof {
                lemma_boards_map_replace(boards_view(boards@), j as int, b);
            }
            boards.set(j, board);
            assert(boards_view(boards@) =~= boards_view(old(boards)@).update(j as int, b));
        },
        None => {
            boards.push(board);
            assert(boards_view(boards@).drop_last() =~= boards_view(old(boards)@));
        },
    }
}

/// Apply one event; returns updated state (functional style).
pub fn apply(state: GameState, event: Event) -> (r: GameState)
    ensures
        r@ == next_state(state@, event@),
{
    let ghost s0 = state@;
    let ghost e0 = event@;
    let mut state = state;
    match event {
        Event::EnterLobby => {
            state.phase = Phase::Lobby;
            state.game_id = None;
            state.available_races.clear();
            state.opponent_boards.clear();
            state.last_opponent_id = None;
            state.combat_index = 0;
        },
        Event::EnterMatch { game_id } => {
            state.phase = Phase::Match;
            state.game_id = Some(game_id);
            state.opponent_boards.clear();
            state.last_opponent_id = None;
            state.combat_index = 0;
        },
        Event::SetRaces(races) => {
            state.available_races = races;
        },
        Event::EnterCombat => {
            state.phase = Phase::Combat;
        },
        Event::EndCombat { opponent } => {
            state.phase = Phase::Match;
            state.combat_index = state.combat_index.saturating_add(1);
            state.last_opponent_id = Some(opponent.player_id.clone());
            record_board(&mut state.opponent_boards, opponent);
        },
        Event::MatchEnd => {
            state.phase = Phase::Idle;
            state.game_id = None;
            state.available_races.clear();
            state.opponent_boards.clear();
            state.last_opponent_id = None;
            state.combat_index = 0;
        },
    }
    proof {
        assert(strings_view(state.available_races@) =~= state@.available_races);
        if state.opponent_boards@.len() == 0 {
            assert(boards_view(state.opponent_boards@) =~= Seq::<OpponentBoardView>::empty());
        }
        let n = next_state(s0, e0);
        assert(state@.available_races =~= n.available_races);
        assert(state@.opponent_boards =~= n.opponent_boards);
    }
    state
}

pub open spec fn phase_name(p: Phase) -> Seq<char> {
    match p {
        Phase::Idle => "Idle"@,
        Phase::Lobby => "Lobby"@,
        Phase::Match => "Match"@,
        Phase::Combat => "Combat"@,
    }
}

/// The text of the races row: the lobby races joined with `", "`, or
/// `Unknown` while none are known.
pub open spec fn races_text(races: Seq<Seq<char>>) -> Seq<char> {
    if races.len() == 0 {
        "Races: Unknown"@
    } else {
        "Races: "@ + join(races, ", "@)
    }
}

impl GameState {
    pub fn races_label(&self) -> (r: String)
        ensures
            r@ == races_text(self@.available_races),
    {
        if self.available_races.len() == 0 {
            String::from_str("Races: Unknown")
        } else {
            let mut out = String::from_str("Races: ");
            append_joined(&mut out, &self.available_races, ", ");
            out
        }
    }

    pub fn last_opponent_board(&self) -> (r: Option<&OpponentBoard>)
        ensures
            match r {
                Some(b) => last_board(self@) == Some(b@),
                None => last_board(self@) is None,
            },
    {
        match &self.last_opponent_id {
            None => None,
            Some(id) => match find_board(&self.opponent_boards, id) {
                Some(j) => {
                    proof {
                        lemma_boards_map_last(boards_view(self.opponent_boards@), id@, j as int);
                    }
                    Some(&self.opponent_boards[j])
                },
                None => {
                    proof {
                        lemma_boards_map_absent(boards_view(self.opponent_boards@), id@);
                    }
                    None
                },
            },
        }
    }

    pub fn phase_label(&self) -> (r: &'static str)
        ensures
            r@ == phase_name(self.phase),
    {
        match self.phase {
            Phase::Idle => "Idle",
            Phase::Lobby => "Lobby",
            Phase::Match => "Match",
            Phase::Combat => "Combat",
        }
    }
}

// ---------------------------------------------------------------------------
// Laws
// ---------------------------------------------------------------------------

/// After a combat ends, the last opponent board is the board of that combat.
pub proof fn law_end_combat_shows_last_board(s: GameStateView, o: OpponentBoardView)
    ensures
        last_board(next_state(s, EventView::EndCombat { opponent: o })) == Some(o),
{
}

/// Ending a combat keeps the boards of every other opponent unchanged.
pub proof fn law_end_combat_keeps_other_boards(
    s: GameStateView,
    o: OpponentBoardView,
    k: Seq<char>,
)
    requires
        k != o.player_id,
    ensures
        next_state(s, EventView::EndCombat { opponent: o }).opponent_boards.contains_key(k)
            == s.opponent_boards.contains_key(k),
        s.opponent_boards.contains_key(k) ==> next_state(
            s,
            EventView::EndCombat { opponent: o },
        ).opponent_boards[k] == s.opponent_boards[k],
{
}

/// The end of a match forgets everything about it: back to the initial
/// idle state, with no races, no boards and no last opponent.
pub proof fn law_match_end_forgets(s: GameStateView)
    ensures
        next_state(s, EventView::MatchEnd) == initial_state(),
        initial_state().phase == Phase::Idle,
        initial_state().game_id is None,
        initial_state().available_races.len() == 0,
        initial_state().combat_index == 0,
        initial_state().opponent_boards.dom().len() == 0,
        initial_state().last_opponent_id is None,
        last_board(next_state(s, EventView::MatchEnd)) is None,
        races_text(next_state(s, EventView::MatchEnd).available_races) == "Races: Unknown"@,
{
}

/// Entering a lobby forgets the previous match.
pub proof fn law_enter_lobby_forgets(s: GameStateView)
    ensures
        next_state(s, EventView::EnterLobby).phase == Phase::Lobby,
        next_state(s, EventView::EnterLobby).game_id is None,
        next_state(s, EventView::EnterLobby).available_races.len() == 0,
        next_state(s, EventView::EnterLobby).opponent_boards == Map::<
            Seq<char>,
            OpponentBoardView,
        >::empty(),
        next_state(s, EventView::EnterLobby).combat_index == 0,
        next_state(s, EventView::EnterLobby).last_opponent_id is None,
        last_board(next_state(s, EventView::EnterLobby)) is None,
{
}

/// Entering a match starts a fresh board history but keeps the races
/// already known for the lobby.
pub proof fn law_enter_match_fresh_history(s: GameStateView, game_id: Seq<char>)
    ensures
        next_state(s, EventView::EnterMatch { game_id }).phase == Phase::Match,
        next_state(s, EventView::EnterMatch { game_id }).last_opponent_id is None,
        next_state(s, EventView::EnterMatch { game_id }).game_id == Some(game_id),
        next_state(s, EventView::EnterMatch { game_id }).opponent_boards == Map::<
            Seq<char>,
            OpponentBoardView,
        >::empty(),
        next_state(s, EventView::EnterMatch { game_id }).combat_index == 0,
        next_state(s, EventView::EnterMatch { game_id }).available_races == s.available_races,
        last_board(next_state(s, EventView::EnterMatch { game_id })) is None,
{
}

/// Races and combat start touch nothing but the races and the phase.
pub proof fn law_races_and_combat_start_keep_history(s: GameStateView, races: Seq<Seq<char>>)
    ensures
        next_state(s, EventView::SetRaces(races)).available_races == races,
        next_state(s, EventView::SetRaces(races)).opponent_boards == s.opponent_boards,
        last_board(next_state(s, EventView::SetRaces(races))) == last_board(s),
        next_state(s, EventView::EnterCombat).phase == Phase::Combat,
        next_state(s, EventView::EnterCombat).opponent_boards == s.opponent_boards,
        last_board(next_state(s, EventView::EnterCombat)) == last_board(s),
{
}

/// Setting the lobby's races replaces the races and changes nothing else:
/// not the phase, the game, the combat count or the boards.
pub proof fn law_set_races_changes_only_races(s: GameStateView, races: Seq<Seq<char>>)
    ensures
        next_state(s, EventView::SetRaces(races)).available_races == races,
        next_state(s, EventView::SetRaces(races)).phase == s.phase,
        next_state(s, EventView::SetRaces(races)).game_id == s.game_id,
        next_state(s, EventView::SetRaces(races)).combat_index == s.combat_index,
        next_state(s, EventView::SetRaces(races)).opponent_boards == s.opponent_boards,
        next_state(s, EventView::SetRaces(races)).last_opponent_id == s.last_opponent_id,
{
}

/// A combat start sets the phase to `Combat` and changes nothing else.
pub proof fn law_enter_combat_changes_only_phase(s: GameStateView)
    ensures
        next_state(s, EventView::EnterCombat).phase == Phase::Combat,
        next_state(s, EventView::EnterCombat).available_races == s.available_races,
        next_state(s, EventView::EnterCombat).game_id == s.game_id,
        next_state(s, EventView::EnterCombat).combat_index == s.combat_index,
        next_state(s, EventView::EnterCombat).opponent_boards == s.opponent_boards,
        next_state(s, EventView::EnterCombat).last_opponent_id == s.last_opponent_id,
{
}

/// A combat end goes back to the `Match` phase, counts one more combat
/// (stopping at the largest count), records the opponent's board under its
/// player id as the last one, and keeps the game and the races.
pub proof fn law_end_combat_effects(s: GameStateView, o: OpponentBoardView)
    ensures
        next_state(s, EventView::EndCombat { opponent: o }).phase == Phase::Match,
        s.combat_index < u32::MAX ==> next_state(s, EventView::EndCombat { opponent: o }).combat_index
            == s.combat_index + 1,
        s.combat_index == u32::MAX ==> next_state(
            s,
            EventView::EndCombat { opponent: o },
        ).combat_index == u32::MAX,
        next_state(s, EventView::EndCombat { opponent: o }).last_opponent_id == Some(o.player_id),
        next_state(s, EventView::EndCombat { opponent: o }).opponent_boards.contains_key(
            o.player_id,
        ),
        next_state(s, EventView::EndCombat { opponent: o }).opponent_boards[o.player_id] == o,
        next_state(s, EventView::EndCombat { opponent: o }).game_id == s.game_id,
        next_state(s, EventView::EndCombat { opponent: o }).available_races == s.available_races,
{
}

/// The races arriving before or after a combat start or end make no
/// difference, and only the last list of races counts.
pub proof fn law_set_races_commutes(
    s: GameStateView,
    a: Seq<Seq<char>>,
    b: Seq<Seq<char>>,
    o: OpponentBoardView,
)
    ensures
        next_state(next_state(s, EventView::SetRaces(a)), EventView::EnterCombat) == next_state(
            next_state(s, EventView::EnterCombat),
            EventView::SetRaces(a),
        ),
        next_state(next_state(s, EventView::SetRaces(a)), EventView::EndCombat { opponent: o })
            == next_state(
            next_state(s, EventView::EndCombat { opponent: o }),
            EventView::SetRaces(a),
        ),
        next_state(next_state(s, EventView::SetRaces(a)), EventView::SetRaces(b)) == next_state(
            s,
            EventView::SetRaces(b),
        ),
{
}

/// The races row: `Races: Unknown` while no race is known; one race reads
/// `Races: <race>`; each further race adds `, <race>`.
pub proof fn law_races_row(races: Seq<Seq<char>>, r: Seq<char>)
    ensures
        races_text(Seq::empty()) == "Races: Unknown"@,
        races_text(seq![r]) == "Races: "@ + r,
        races.len() > 0 ==> races_text(races.push(r)) == races_text(races) + ", "@ + r,
{
    if races.len() > 0 {
        assert(races.push(r).drop_last() =~= races);
    }
}

/// The phase names shown on the status row.
pub proof fn law_phase_names()
    ensures
        phase_name(Phase::Idle) == "Idle"@,
        phase_name(Phase::Lobby) == "Lobby"@,
        phase_name(Phase::Match) == "Match"@,
        phase_name(Phase::Combat) == "Combat"@,
{
}

/// The state after a run of fights against `opps`, in order.
pub open spec fn after_fights(s: GameStateView, opps: Seq<OpponentBoardView>) -> GameStateView
    decreases opps.len(),
{
    if opps.len() == 0 {
        s
    } else {
        next_state(after_fights(s, opps.drop_last()), EventView::EndCombat { opponent: opps.last() })
    }
}

/// Over a run of fights the combat index counts the fights (saturating),
/// each opponent's board is the one of the last fight against that
/// player, and the last board shown is the one of the last fight.
pub proof fn law_fight_history(s: GameStateView, opps: Seq<OpponentBoardView>)
    ensures
        after_fights(s, opps).combat_index == if s.combat_index + opps.len() < u32::MAX {
            s.combat_index + opps.len()
        } else {
            u32::MAX as int
        },
        forall|i: int|
            #![trigger opps[i]]
            0 <= i < opps.len() && (forall|t: int| i < t < opps.len() ==> opps[t].player_id
                != opps[i].player_id) ==> after_fights(s, opps).opponent_boards.contains_key(
                opps[i].player_id,
            ) && after_fights(s, opps).opponent_boards[opps[i].player_id] == opps[i],
        opps.len() > 0 ==> last_board(after_fights(s, opps)) == Some(opps.last()),
    decreases opps.len(),
{
    if opps.len() > 0 {
        let prev = opps.drop_last();
        law_fight_history(s, prev);
        let a = after_fights(s, opps);
        assert forall|i: int|
            #![trigger opps[i]]
            0 <= i < opps.len() && (forall|t: int| i < t < opps.len() ==> opps[t].player_id
                != opps[i].player_id) implies a.opponent_boards.contains_key(opps[i].player_id)
            && a.opponent_boards[opps[i].player_id] == opps[i] by {
            if i < opps.len() - 1 {
                assert(opps.last() == opps[opps.len() - 1]);
                assert(prev[i] == opps[i]);
                assert forall|t: int| i < t < prev.len() implies prev[t].player_id
                    != prev[i].player_id by {
                    assert(prev[t] == opps[t]);
                }
            }
        }
    }
}

// ---------------------------------------------------------------------------
// Equality of states
// ---------------------------------------------------------------------------

fn minion_eq(a: &BoardMinion, b: &BoardMinion) -> (r: bool)
    ensures
        r == (a@ == b@),
{
    a.card_id == b.card_id && a.name == b.name && a.atk == b.atk && a.health == b.health
        && a.position == b.position
}

fn board_eq(a: &OpponentBoard, b: &OpponentBoard) -> (r: bool)
    ensures
        r == (a@ == b@),
{
    let ghost av = minions_view(a.minions@);
    let ghost bv = minions_view(b.minions@);
    if !(a.player_id == b.player_id && a.hero == b.hero) {
        return false;
    }
    if a.minions.len() != b.minions.len() {
        assert(av.len() != bv.len());
        return false;
    }
    let mut i: usize = 0;
    while i < a.minions.len()
        invariant
            a.minions.len() == b.minions.len(),
            av == minions_view(a.minions@),
            bv == minions_view(b.minions@),
            i <= a.minions.len(),
            forall|k: int| 0 <= k < i ==> av[k] == bv[k],
        decreases a.minions.len() - i,
    {
        if !minion_eq(&a.minions[i], &b.minions[i]) {
            assert(av[i as int] != bv[i as int]);
            return false;
        }
        i = i + 1;
    }
    assert(av =~= bv);
    true
}

fn strings_eq(a: &Vec<String>, b: &Vec<String>) -> (r: bool)
    ensures
        r == (strings_view(a@) == strings_view(b@)),
{
    if a.len() != b.len() {
        return false;
    }
    let mut i: usize = 0;
    while i < a.len()
        invariant
            a.len() == b.len(),
            i <= a.len(),
            forall|k: int| 0 <= k < i ==> strings_view(a@)[k] == strings_view(b@)[k],
        decreases a.len() - i,
    {
        if a[i] != b[i] {
            assert(strings_view(a@)[i as int] != strings_view(b@)[i as int]);
            return false;
        }
        i = i + 1;
    }
    assert(strings_view(a@) =~= strings_view(b@));
    true
}

fn opt_string_eq(a: &Option<String>, b: &Option<String>) -> (r: bool)
    ensures
        r == (opt_string_view(*a) == opt_string_view(*b)),
{
    match (a, b) {
        (Some(x), Some(y)) => *x == *y,
        (None, None) => true,
        _ => false,
    }
}

proof fn lemma_boards_map_has_index(s: Seq<OpponentBoardView>, k: Seq<char>)
    requires
        boards_map(s).contains_key(k),
    ensures
        exists|t: int| 0 <= t < s.len() && s[t].player_id == k,
{
    if !(exists|t: int| 0 <= t < s.len() && s[t].player_id == k) {
        lemma_boards_map_absent(s, k);
    }
}

proof fn lemma_boards_map_present(s: Seq<OpponentBoardView>, k: Seq<char>, t: int)
    requires
        0 <= t < s.len(),
        s[t].player_id == k,
    ensures
        boards_map(s).contains_key(k),
    decreases s.len(),
{
    if t < s.len() - 1 {
        lemma_boards_map_present(s.drop_last(), k, t);
    }
}

/// The two lists keep the same board for every player.
fn boards_agree(a: &Vec<OpponentBoard>, b: &Vec<OpponentBoard>) -> (r: bool)
    ensures
        r == (boards_map(boards_view(a@)) == boards_map(boards_view(b@))),
{
    let ghost ma = boards_map(boards_view(a@));
    let ghost mb = boards_map(boards_view(b@));
    let mut i: usize = 0;
    while i < a.len()
        invariant
            ma == boards_map(boards_view(a@)),
            mb == boards_map(boards_view(b@)),
            i <= a.len(),
            forall|t: int|
                0 <= t < i ==> mb.contains_key(#[trigger] boards_view(a@)[t].player_id)
                    && ma.contains_key(boards_view(a@)[t].player_id) && mb[boards_view(a@)[t].player_id] == ma[boards_view(a@)[t].player_id],
        decreases a.len() - i,
    {
        let id = &a[i].player_id;
        let ghost k = id@;
        proof {
            assert(boards_view(a@)[i as int].player_id == k);
        }
        let ja = match find_board(a, id) {
            Some(j) => j,
            None => {
                assert(false);
                return false;
            },
        };
        proof {
            lemma_boards_map_last(boards_view(a@), k, ja as int);
        }
        match find_board(b, id) {
            Some(jb) => {
                proof {
                    lemma_boards_map_last(boards_view(b@), k, jb as int);
                }
                if !board_eq(&a[ja], &b[jb]) {
                    return false;
                }
            },
            None => {
                proof {
                    lemma_boards_map_absent(boards_view(b@), k);
                }
                return false;
            },
        }
        i = i + 1;
    }
    let mut j: usize = 0;
    while j < b.len()
        invariant
            ma == boards_map(boards_view(a@)),
            mb == boards_map(boards_view(b@)),
            j <= b.len(),
            forall|t: int|
                0 <= t < a.len() ==> mb.contains_key(#[trigger] boards_view(a@)[t].player_id)
                    && ma.contains_key(boards_view(a@)[t].player_id) && mb[boards_view(a@)[t].player_id] == ma[boards_view(a@)[t].player_id],
            forall|t: int| 0 <= t < j ==> ma.contains_key(#[trigger] boards_view(b@)[t].player_id),
        decreases b.len() - j,
    {
        let id = &b[j].player_id;
        let ghost k = id@;
        proof {
            assert(boards_view(b@)[j as int].player_id == k);
        }
        match find_board(a, id) {
            Some(ja) => {
                proof {
                    lemma_boards_map_last(boards_view(a@), k, ja as int);
                }
            },
            None => {
                proof {
                    lemma_boards_map_absent(boards_view(a@), k);
                    lemma_boards_map_present(boards_view(b@), k, j as int);
                }
                return false;
            },
        }
        j = j + 1;
    }
    proof {
        let av = boards_view(a@);
        let bv = boards_view(b@);
        assert forall|k: Seq<char>| #[trigger] ma.dom().contains(k) == mb.dom().contains(k) by {
            if ma.contains_key(k) {
                lemma_boards_map_has_index(av, k);
                let t = choose|t: int| 0 <= t < av.len() && av[t].player_id == k;
                assert(mb.contains_key(av[t].player_id));
            }
            if mb.contains_key(k) {
                lemma_boards_map_has_index(bv, k);
                let t = choose|t: int| 0 <= t < bv.len() && bv[t].player_id == k;
                assert(ma.contains_key(bv[t].player_id));
            }
        }
        assert forall|k: Seq<char>| #[trigger] ma.contains_key(k) implies mb[k] == ma[k] by {
            lemma_boards_map_has_index(av, k);
            let t = choose|t: int| 0 <= t < av.len() && av[t].player_id == k;
            assert(mb[av[t].player_id] == ma[av[t].player_id]);
        }
        assert(ma.dom() =~= mb.dom());
        assert(ma =~= mb);
    }
    true
}

impl PartialEq for GameState {
    fn eq(&self, other: &Self) -> (r: bool) {
        self.phase == other.phase && opt_string_eq(&self.game_id, &other.game_id) && strings_eq(
            &self.available_races,
            &other.available_races,
        ) && self.combat_index == other.combat_index && opt_string_eq(
            &self.last_opponent_id,
            &other.last_opponent_id,
        ) && boards_agree(&self.opponent_boards, &other.opponent_boards)
    }
}

impl PartialEqSpecImpl for GameState {
    open spec fn obeys_eq_spec() -> bool {
        true
    }

    /// Two states are equal when their views are: in particular the order
    /// in which opponents were met does not matter.
    open spec fn eq_spec(&self, other: &GameState) -> bool {
        self@ == other@
    }
}

impl Eq for GameState {

}

} // verus!
