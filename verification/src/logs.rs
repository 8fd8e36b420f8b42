//! Power.log: where it lives under the Proton prefix, how its lines map to
//! state events, and how a polling tailer tracks what it has read.

use std::path::PathBuf;
use vstd::prelude::*;
use crate::seq_facts::lemma_filter_map_push;
use crate::state::{
    BoardMinion, BoardMinionView, Event, EventView, OpponentBoard, OpponentBoardView,
    minions_view,
};
use crate::text::{
    chars_of, find, first_match, has_substring, lemma_first_match_unique, trim_end, trim_start,
    is_whitespace, lemma_split_after_sep, lemma_split_word, law_trim_idempotent, law_trim_keeps_words, lemma_split_pieces_push, lemma_split_pieces_shape, list_items, list_items_exec, matches_at,
    split_pieces, strings_view, sub_vec, trim, trim_bounds,
};

verus! {

broadcast use vstd::string::group_string_axioms;

// ---------------------------------------------------------------------------
// Log discovery
// ---------------------------------------------------------------------------

/// Candidate paths of Power.log relative to the Proton prefix, in the order
/// they are tried.
pub open spec fn log_rel_candidates_spec() -> Seq<Seq<char>> {
    seq![
        "drive_c/Program Files (x86)/Hearthstone/Logs/Power.log"@,
        "drive_c/Program Files/Hearthstone/Logs/Power.log"@,
        "drive_c/program files (x86)/hearthstone/logs/Power.log"@,
        "drive_c/program files (x86)/Hearthstone/Logs/power.log"@,
    ]
}

pub fn log_rel_candidates() -> (v: Vec<&'static str>)
    ensures
        v@.map_values(|s: &str| s@) == log_rel_candidates_spec(),
{
    let mut v: Vec<&'static str> = Vec::new();
    v.push("drive_c/Program Files (x86)/Hearthstone/Logs/Power.log");
    v.push("drive_c/Program Files/Hearthstone/Logs/Power.log");
    v.push("drive_c/program files (x86)/hearthstone/logs/Power.log");
    v.push("drive_c/program files (x86)/Hearthstone/Logs/power.log");
    assert(v@.map_values(|s: &str| s@) =~= log_rel_candidates_spec());
    v
}

/// Resolve the first existing Power.log: given, for each candidate of
/// `log_rel_candidates` in order, whether that file exists under the
/// prefix, the index of the first one that does.
pub fn find_power_log(present: &Vec<bool>) -> (r: Option<usize>)
    ensures
        match r {
            Some(i) => i < present.len() && present@[i as int] && forall|j: int|
                0 <= j < i ==> !present@[j],
            None => forall|j: int| 0 <= j < present.len() ==> !present@[j],
        },
{
    let mut i: usize = 0;
    while i < present.len()
        invariant
            i <= present.len(),
            forall|j: int| 0 <= j < i ==> !present@[j],
        decreases present.len() - i,
    {
        if present[i] {
            return Some(i);
        }
        i = i + 1;
    }
    None
}

// ---------------------------------------------------------------------------
// Line parsing
// ---------------------------------------------------------------------------

/// The stand-in board reported for a combat end seen in the log.
pub open spec fn log_opponent() -> OpponentBoardView {
    OpponentBoardView {
        player_id: "log_opp"@,
        hero: "Unknown"@,
        minions: seq![
            BoardMinionView {
                card_id: "LOG"@,
                name: "Parsed Minion"@,
                atk: 1,
                health: 1,
                position: 0,
            },
        ],
    }
}

pub open spec fn races_marker() -> Seq<char> {
    "BGC_RACES="@
}

/// The text after the first `m` in `l`, up to the next `m` or the end:
/// the second piece of `l` split at `m`.
pub open spec fn after_marker(l: Seq<char>, m: Seq<char>) -> Seq<char> {
    let rest = l.subrange(first_match(l, m) + m.len(), l.len() as int);
    if has_substring(rest, m) {
        rest.subrange(0, first_match(rest, m))
    } else {
        rest
    }
}

/// The event a Power.log line stands for, if any.
pub open spec fn line_event(line: Seq<char>) -> Option<EventView> {
    let l = trim(line);
    if has_substring(l, "BGC_DEMO_COMBAT_END"@) || (has_substring(l, "TAG_CHANGE"@)
        && has_substring(l, "BOARD_VISUAL_STATE"@)) {
        Some(EventView::EndCombat { opponent: log_opponent() })
    } else if has_substring(l, "GameType=GT_BATTLEGROUNDS"@) || (has_substring(l, "CREATE_GAME"@)
        && has_substring(l, "Battlegrounds"@)) {
        Some(EventView::EnterMatch { game_id: "log_game"@ })
    } else if has_substring(l, races_marker()) {
        Some(EventView::SetRaces(list_items(after_marker(l, races_marker()))))
    } else {
        None
    }
}

pub open spec fn event_opt_view(r: Option<Event>) -> Option<EventView> {
    match r {
        Some(e) => Some(e@),
        None => None,
    }
}

fn contains_exec(hay: &Vec<char>, pat: &str) -> (b: bool)
    ensures
        b == has_substring(hay@, pat@),
{
    let p = chars_of(pat);
    match find(hay, &p) {
        Some(i) => {
            assert(matches_at(hay@, p@, i as int));
            true
        },
        None => false,
    }
}

fn log_opponent_exec() -> (b: OpponentBoard)
    ensures
        b@ == log_opponent(),
{
    let mut minions: Vec<BoardMinion> = Vec::new();
    minions.push(
        BoardMinion {
            card_id: String::from_str("LOG"),
            name: String::from_str("Parsed Minion"),
            atk: 1,
            health: 1,
            position: 0,
        },
    );
    let b = OpponentBoard {
        player_id: String::from_str("log_opp"),
        hero: String::from_str("Unknown"),
        minions,
    };
    assert(minions_view(b.minions@) =~= log_opponent().minions);
    b
}

/// Map a Power.log line into an optional state event (stub markers).
pub fn parse_line(line: &str) -> (r: Option<Event>)
    ensures
        event_opt_view(r) == line_event(line@),
{
    let v = chars_of(line);
    let (a, b) = trim_bounds(&v);
    let l = sub_vec(&v, a, b);
    if contains_exec(&l, "BGC_DEMO_COMBAT_END") || (contains_exec(&l, "TAG_CHANGE")
        && contains_exec(&l, "BOARD_VISUAL_STATE")) {
        return Some(Event::EndCombat { opponent: log_opponent_exec() });
    }
    if contains_exec(&l, "GameType=GT_BATTLEGROUNDS") || (contains_exec(&l, "CREATE_GAME")
        && contains_exec(&l, "Battlegrounds")) {
        return Some(Event::EnterMatch { game_id: String::from_str("log_game") });
    }
    let m = chars_of("BGC_RACES=");
    match find(&l, &m) {
        Some(i) => {
            let start = i + m.len();
            let rest = sub_vec(&l, start, l.len());
            let end = match find(&rest, &m) {
                Some(j) => {
                    proof {
                        lemma_first_match_unique(rest@, m@, j as int);
                        assert(matches_at(rest@, m@, j as int));
                    }
                    start + j
                },
                None => l.len(),
            };
            proof {
                lemma_first_match_unique(l@, m@, i as int);
                assert(matches_at(l@, m@, i as int));
                assert(v@.subrange(a + start, a + end) =~= after_marker(l@, m@));
            }
            let races = list_items_exec(line, &v, a + start, a + end);
            let e = Event::SetRaces(races);
            assert(e@ == EventView::SetRaces(strings_view(races@)));
            Some(e)
        },
        None => None,
    }
}

// ---------------------------------------------------------------------------
// Lines of appended text
// ---------------------------------------------------------------------------

pub open spec fn newline() -> spec_fn(char) -> bool {
    |c: char| c == '\n'
}

/// A line without the `\r` of a `\r\n` ending.
pub open spec fn strip_cr(p: Seq<char>) -> Seq<char> {
    if p.len() > 0 && p.last() == '\r' {
        p.drop_last()
    } else {
        p
    }
}

pub open spec fn strip_cr_fn() -> spec_fn(Seq<char>) -> Seq<char> {
    |p: Seq<char>| strip_cr(p)
}

/// The lines of `s`, as `str::lines` yields them: split at `\n`, a `\r`
/// before a `\n` dropped, and no empty line after a final `\n`.
pub open spec fn text_lines(s: Seq<char>) -> Seq<Seq<char>> {
    let p = split_pieces(s, newline());
    let body = p.drop_last().map_values(strip_cr_fn());
    if p.last().len() == 0 {
        body
    } else {
        body.push(p.last())
    }
}

pub open spec fn line_event_fn() -> spec_fn(Seq<char>) -> Option<EventView> {
    |l: Seq<char>| line_event(l)
}

/// The events of the lines of `s`, in order.
pub open spec fn text_events(s: Seq<char>) -> Seq<EventView> {
    text_lines(s).filter_map(line_event_fn())
}

pub open spec fn events_view(v: Seq<Event>) -> Seq<EventView> {
    v.map_values(|e: Event| e@)
}

/// Events of the lines of `text`, in order.
pub fn text_events_exec(text: &str) -> (r: Vec<Event>)
    ensures
        events_view(r@) == text_events(text@),
{
    let v = chars_of(text);
    let n = v.len();
    let mut out: Vec<Event> = Vec::new();
    let mut start: usize = 0;
    let mut i: usize = 0;
    proof {
        assert(v@.subrange(0, 0) =~= Seq::<char>::empty());
        assert(split_pieces(Seq::<char>::empty(), newline()).drop_last() =~= Seq::<Seq<char>>::empty());
        assert(events_view(out@) =~= Seq::<EventView>::empty());
    }
    while i < n
        invariant
            v@ == text@,
            n == v.len(),
            start <= i <= n,
            split_pieces(v@.subrange(0, i as int), newline()).last() == v@.subrange(
                start as int,
                i as int,
            ),
            events_view(out@) == split_pieces(v@.subrange(0, i as int), newline()).drop_last().map_values(
                strip_cr_fn(),
            ).filter_map(line_event_fn()),
        decreases n - i,
    {
        let ghost s = v@.subrange(0, i as int);
        let ghost p = split_pieces(s, newline());
        proof {
            assert(v@.subrange(0, i + 1) =~= s.push(v@[i as int]));
            lemma_split_pieces_push(s, newline(), v@[i as int]);
            lemma_split_pieces_shape(s, newline());
        }
        if v[i] == '\n' {
            let end = if i > start && v[i - 1] == '\r' {
                i - 1
            } else {
                i
            };
            let piece = text.substring_char(start, end);
            proof {
                assert(piece@ =~= strip_cr(v@.subrange(start as int, i as int)));
                assert(p =~= p.drop_last().push(p.last()));
                assert(p.map_values(strip_cr_fn()) =~= p.drop_last().map_values(
                    strip_cr_fn(),
                ).push(strip_cr(p.last())));
                lemma_filter_map_push(
                    p.drop_last().map_values(strip_cr_fn()),
                    strip_cr(p.last()),
                    line_event_fn(),
                );
            }
            let ghost before = events_view(out@);
            match parse_line(piece) {
                Some(e) => {
                    out.push(e);
                    assert(events_view(out@) =~= before.push(e@));
                },
                None => {},
            }
            proof {
                let p2 = split_pieces(v@.subrange(0, i + 1), newline());
                assert(p2.drop_last() =~= p);
                assert(v@.subrange(i + 1, i + 1) =~= Seq::<char>::empty());
            }
            start = i + 1;
        } else {
            proof {
                let p2 = split_pieces(v@.subrange(0, i + 1), newline());
                assert(p2.drop_last() =~= p.drop_last());
                assert(v@.subrange(start as int, i + 1) =~= v@.subrange(start as int, i as int).push(
                    v@[i as int],
                ));
            }
        }
        i = i + 1;
    }
    proof {
        assert(v@.subrange(0, n as int) =~= v@);
        lemma_split_pieces_shape(v@, newline());
    }
    if start < n {
        let piece = text.substring_char(start, n);
        let ghost before = events_view(out@);
        proof {
            let p = split_pieces(v@, newline());
            lemma_filter_map_push(p.drop_last().map_values(strip_cr_fn()), p.last(), line_event_fn());
        }
        match parse_line(piece) {
            Some(e) => {
                out.push(e);
                assert(events_view(out@) =~= before.push(e@));
            },
            None => {},
        }
    }
    out
}

// ---------------------------------------------------------------------------
// Polling tailer
// ---------------------------------------------------------------------------

/// `std::path::PathBuf`, carried through the tailer unopened; nothing is
/// claimed of its contents.
#[verifier::external_type_specification]
#[verifier::external_body]
pub struct ExPathBuf(PathBuf);

/// Where a poll starts reading, for a tailer at `pos` and a file of `len`
/// bytes: from the start after the file was truncated, else from `pos`.
pub open spec fn poll_start(pos: u64, len: u64) -> u64 {
    if len < pos {
        0
    } else {
        pos
    }
}

/// The offset a poll reads from, or `None` when nothing new was appended.
pub open spec fn poll_offset(pos: u64, len: u64) -> Option<u64> {
    if poll_start(pos, len) == len {
        None
    } else {
        Some(poll_start(pos, len))
    }
}

/// Polling tailer: remembers the log's path and how far it has read.
pub struct LogTailer {
    path: PathBuf,
    pos: u64,
}

impl LogTailer {
    /// Byte offset up to which the log has been read.
    pub closed spec fn position(&self) -> u64 {
        self.pos
    }

    pub closed spec fn log_path(&self) -> PathBuf {
        self.path
    }

    /// A tailer of the log at `path` whose current length is `len`: only
    /// text appended later is read.
    pub fn new(path: PathBuf, len: u64) -> (t: Self)
        ensures
            t.position() == len,
            t.log_path() == path,
    {
        LogTailer { path, pos: len }
    }

    pub fn path(&self) -> (p: &PathBuf)
        ensures
            *p == self.log_path(),
    {
        &self.path
    }

    pub fn pos(&self) -> (p: u64)
        ensures
            p == self.position(),
    {
        self.pos
    }

    /// First half of a poll, given the log's current length: forgets what
    /// was read if the log was truncated, and returns where to read from,
    /// or `None` when nothing new was appended.
    pub fn begin_poll(&mut self, len: u64) -> (r: Option<u64>)
        ensures
            final(self).position() == poll_start(old(self).position(), len),
            final(self).log_path() == old(self).log_path(),
            r == poll_offset(old(self).position(), len),
    {
        if len < self.pos {
            self.pos = 0;
        }
        if len == self.pos {
            None
        } else {
            Some(self.pos)
        }
    }

    /// Second half of a poll: `text` was read up to `len`; returns the
    /// events of its lines.
    pub fn finish_poll(&mut self, len: u64, text: &str) -> (r: Vec<Event>)
        ensures
            final(self).position() == len,
            final(self).log_path() == old(self).log_path(),
            events_view(r@) == text_events(text@),
    {
        self.pos = len;
        text_events_exec(text)
    }
}

/// A poll reads exactly what was appended since the last one: nothing when
/// the length is unchanged, from the old position when the log grew, and
/// from the start when it shrank.
pub proof fn law_poll_reads_only_new_text(pos: u64, len: u64)
    ensures
        len == pos ==> poll_offset(pos, len) is None,
        len > pos ==> poll_offset(pos, len) == Some(pos),
        len < pos ==> poll_offset(pos, len) == if len == 0 {
            None::<u64>
        } else {
            Some(0u64)
        },
{
}

proof fn lemma_filter_map_concat<A, B>(s: Seq<A>, t: Seq<A>, f: spec_fn(A) -> Option<B>)
    ensures
        (s + t).filter_map(f) == s.filter_map(f) + t.filter_map(f),
    decreases t.len(),
{
    if t.len() == 0 {
        assert(s + t =~= s);
        assert(s.filter_map(f) + t.filter_map(f) =~= s.filter_map(f));
    } else {
        let t1 = t.drop_last();
        lemma_filter_map_concat(s, t1, f);
        assert(s + t =~= (s + t1).push(t.last()));
        assert(t =~= t1.push(t.last()));
        lemma_filter_map_push(s + t1, t.last(), f);
        lemma_filter_map_push(t1, t.last(), f);
        match f(t.last()) {
            Some(e) => {
                assert((s.filter_map(f) + t1.filter_map(f)).push(e) =~= s.filter_map(f) + t1.filter_map(f).push(e));
            },
            None => {},
        }
    }
}

proof fn lemma_text_lines_concat(a: Seq<char>, b: Seq<char>)
    requires
        a.len() > 0,
        a.last() == '\n',
    ensures
        text_lines(a + b) == text_lines(a) + text_lines(b),
{
    let sep = newline();
    lemma_split_after_sep(a, b, sep);
    lemma_split_pieces_shape(b, sep);
    assert(a.drop_last().push(a.last()) =~= a);
    lemma_split_pieces_push(a.drop_last(), sep, a.last());
    let x = split_pieces(a, sep).drop_last();
    let y = split_pieces(b, sep);
    let p = split_pieces(a + b, sep);
    assert(p.drop_last() =~= x + y.drop_last());
    assert(p.last() == y.last());
    assert((x + y.drop_last()).map_values(strip_cr_fn()) =~= x.map_values(strip_cr_fn())
        + y.drop_last().map_values(strip_cr_fn()));
    assert(text_lines(a) =~= x.map_values(strip_cr_fn()));
    if y.last().len() == 0 {
        assert(text_lines(a + b) =~= text_lines(a) + text_lines(b));
    } else {
        assert(text_lines(a + b) =~= text_lines(a) + text_lines(b));
    }
}

/// Lines are read independently: the events of two chunks, the first of
/// which ends at a line break, are the events of each, one after the other.
pub proof fn law_events_of_whole_lines(a: Seq<char>, b: Seq<char>)
    requires
        a.len() > 0,
        a.last() == '\n',
    ensures
        text_events(a + b) == text_events(a) + text_events(b),
{
    lemma_text_lines_concat(a, b);
    lemma_filter_map_concat(text_lines(a), text_lines(b), line_event_fn());
}

/// A line means the same with or without surrounding whitespace.
pub proof fn law_line_event_ignores_surrounding_whitespace(line: Seq<char>)
    ensures
        line_event(trim(line)) == line_event(line),
{
    law_trim_idempotent(line);
}

proof fn lemma_word_bgc_demo_combat_end(l: Seq<char>)
    ensures
        has_substring(trim(l), "BGC_DEMO_COMBAT_END"@) == has_substring(l, "BGC_DEMO_COMBAT_END"@),
{
    reveal_strlit("BGC_DEMO_COMBAT_END");
    let w = "BGC_DEMO_COMBAT_END"@;
    assert forall|k: int| 0 <= k < w.len() implies !is_whitespace(#[trigger] w[k]) by {
        assert(33 <= (w[k] as u32) <= 126);
    }
    law_trim_keeps_words(l, w);
}

proof fn lemma_word_tag_change(l: Seq<char>)
    ensures
        has_substring(trim(l), "TAG_CHANGE"@) == has_substring(l, "TAG_CHANGE"@),
{
    reveal_strlit("TAG_CHANGE");
    let w = "TAG_CHANGE"@;
    assert forall|k: int| 0 <= k < w.len() implies !is_whitespace(#[trigger] w[k]) by {
        assert(33 <= (w[k] as u32) <= 126);
    }
    law_trim_keeps_words(l, w);
}

proof fn lemma_word_board_visual_state(l: Seq<char>)
    ensures
        has_substring(trim(l), "BOARD_VISUAL_STATE"@) == has_substring(l, "BOARD_VISUAL_STATE"@),
{
    reveal_strlit("BOARD_VISUAL_STATE");
    let w = "BOARD_VISUAL_STATE"@;
    assert forall|k: int| 0 <= k < w.len() implies !is_whitespace(#[trigger] w[k]) by {
        assert(33 <= (w[k] as u32) <= 126);
    }
    law_trim_keeps_words(l, w);
}

proof fn lemma_word_gametype_eqgt_battlegrounds(l: Seq<char>)
    ensures
        has_substring(trim(l), "GameType=GT_BATTLEGROUNDS"@) == has_substring(l, "GameType=GT_BATTLEGROUNDS"@),
{
    reveal_strlit("GameType=GT_BATTLEGROUNDS");
    let w = "GameType=GT_BATTLEGROUNDS"@;
    assert forall|k: int| 0 <= k < w.len() implies !is_whitespace(#[trigger] w[k]) by {
        assert(33 <= (w[k] as u32) <= 126);
    }
    law_trim_keeps_words(l, w);
}

proof fn lemma_word_create_game(l: Seq<char>)
    ensures
        has_substring(trim(l), "CREATE_GAME"@) == has_substring(l, "CREATE_GAME"@),
{
    reveal_strlit("CREATE_GAME");
    let w = "CREATE_GAME"@;
    assert forall|k: int| 0 <= k < w.len() implies !is_whitespace(#[trigger] w[k]) by {
        assert(33 <= (w[k] as u32) <= 126);
    }
    law_trim_keeps_words(l, w);
}

proof fn lemma_word_battlegrounds(l: Seq<char>)
    ensures
        has_substring(trim(l), "Battlegrounds"@) == has_substring(l, "Battlegrounds"@),
{
    reveal_strlit("Battlegrounds");
    let w = "Battlegrounds"@;
    assert forall|k: int| 0 <= k < w.len() implies !is_whitespace(#[trigger] w[k]) by {
        assert(33 <= (w[k] as u32) <= 126);
    }
    law_trim_keeps_words(l, w);
}

proof fn lemma_word_bgc_races_eq(l: Seq<char>)
    ensures
        has_substring(trim(l), "BGC_RACES="@) == has_substring(l, "BGC_RACES="@),
{
    reveal_strlit("BGC_RACES=");
    let w = "BGC_RACES="@;
    assert forall|k: int| 0 <= k < w.len() implies !is_whitespace(#[trigger] w[k]) by {
        assert(33 <= (w[k] as u32) <= 126);
    }
    law_trim_keeps_words(l, w);
}

/// What a Power.log line stands for is decided by the markers it holds,
/// anywhere in the line: a combat end for `BGC_DEMO_COMBAT_END`, or for
/// `TAG_CHANGE` together with `BOARD_VISUAL_STATE`; else a match start for
/// `GameType=GT_BATTLEGROUNDS`, or for `CREATE_GAME` together with
/// `Battlegrounds`; else the lobby races for `BGC_RACES=`; else nothing.
/// A combat end reports the stand-in board of `log_opp`, a match start the
/// game `log_game`.
pub proof fn law_line_event_kinds(l: Seq<char>)
    ensures
        (line_event(l) matches Some(EventView::EndCombat { .. })) == (has_substring(l, "BGC_DEMO_COMBAT_END"@) || (has_substring(l, "TAG_CHANGE"@) && has_substring(l, "BOARD_VISUAL_STATE"@))),
        (has_substring(l, "BGC_DEMO_COMBAT_END"@) || (has_substring(l, "TAG_CHANGE"@) && has_substring(l, "BOARD_VISUAL_STATE"@))) ==> line_event(l) == Some(EventView::EndCombat {
            opponent: OpponentBoardView {
                player_id: "log_opp"@,
                hero: "Unknown"@,
                minions: seq![
                    BoardMinionView {
                        card_id: "LOG"@,
                        name: "Parsed Minion"@,
                        atk: 1,
                        health: 1,
                        position: 0,
                    },
                ],
            },
        }),
        (line_event(l) matches Some(EventView::EnterMatch { .. })) == (!(has_substring(l, "BGC_DEMO_COMBAT_END"@) || (has_substring(l, "TAG_CHANGE"@) && has_substring(l, "BOARD_VISUAL_STATE"@))) && (has_substring(l, "GameType=GT_BATTLEGROUNDS"@) || (has_substring(l, "CREATE_GAME"@) && has_substring(l, "Battlegrounds"@)))),
        (!(has_substring(l, "BGC_DEMO_COMBAT_END"@) || (has_substring(l, "TAG_CHANGE"@) && has_substring(l, "BOARD_VISUAL_STATE"@))) && (has_substring(l, "GameType=GT_BATTLEGROUNDS"@) || (has_substring(l, "CREATE_GAME"@) && has_substring(l, "Battlegrounds"@)))) ==> line_event(l) == Some(
            EventView::EnterMatch { game_id: "log_game"@ },
        ),
        (line_event(l) matches Some(EventView::SetRaces(_))) == (!(has_substring(l, "BGC_DEMO_COMBAT_END"@) || (has_substring(l, "TAG_CHANGE"@) && has_substring(l, "BOARD_VISUAL_STATE"@))) && !(has_substring(l, "GameType=GT_BATTLEGROUNDS"@) || (has_substring(l, "CREATE_GAME"@) && has_substring(l, "Battlegrounds"@))) && has_substring(l, "BGC_RACES="@)),
        (line_event(l) is None) == (!(has_substring(l, "BGC_DEMO_COMBAT_END"@) || (has_substring(l, "TAG_CHANGE"@) && has_substring(l, "BOARD_VISUAL_STATE"@))) && !(has_substring(l, "GameType=GT_BATTLEGROUNDS"@) || (has_substring(l, "CREATE_GAME"@) && has_substring(l, "Battlegrounds"@))) && !has_substring(l, "BGC_RACES="@)),
{
    lemma_word_bgc_demo_combat_end(l);
    lemma_word_tag_change(l);
    lemma_word_board_visual_state(l);
    lemma_word_gametype_eqgt_battlegrounds(l);
    lemma_word_create_game(l);
    lemma_word_battlegrounds(l);
    lemma_word_bgc_races_eq(l);
}

/// A text without line breaks is one line (none when empty); ended by a
/// line break it is the same line, less a `\r` just before the break.
pub proof fn law_single_line(l: Seq<char>)
    requires
        forall|k: int| 0 <= k < l.len() ==> #[trigger] l[k] != '\n',
    ensures
        text_lines(Seq::empty()).len() == 0,
        l.len() > 0 ==> text_lines(l) == seq![l],
        text_lines(l.push('\n')) == seq![
            if l.len() > 0 && l.last() == '\r' {
                l.drop_last()
            } else {
                l
            },
        ],
{
    let nl = newline();
    lemma_split_word(Seq::<char>::empty(), nl);
    assert forall|k: int| 0 <= k < l.len() implies !nl(#[trigger] l[k]) by {
        assert(l[k] != '\n');
    }
    lemma_split_word(l, nl);
    assert(seq![l].drop_last() =~= Seq::<Seq<char>>::empty());
    lemma_split_pieces_push(l, nl, '\n');
    let p = split_pieces(l.push('\n'), nl);
    assert(p == seq![l].push(Seq::<char>::empty()));
    assert(p.drop_last() =~= seq![l]);
    assert(p.drop_last().map_values(strip_cr_fn()) =~= seq![strip_cr(l)]);
}

proof fn lemma_trim_keeps_unpadded(l: Seq<char>)
    requires
        l.len() > 0,
        !is_whitespace(l[0]),
        !is_whitespace(l.last()),
    ensures
        trim(l) == l,
{
    assert(trim_start(l) == l);
    assert(trim_end(l) == l);
}

/// A races line lists the races after the marker: for a line
/// `BGC_RACES=<list>` whose list holds no `=`, does not end in whitespace
/// and holds none of the combat or match markers, the event sets the races
/// to the items of the list.
pub proof fn law_races_line(rest: Seq<char>)
    requires
        forall|k: int| 0 <= k < rest.len() ==> #[trigger] rest[k] != '=',
        rest.len() == 0 || !is_whitespace(rest.last()),
        !has_substring("BGC_RACES="@ + rest, "BGC_DEMO_COMBAT_END"@),
        !has_substring("BGC_RACES="@ + rest, "TAG_CHANGE"@),
        !has_substring("BGC_RACES="@ + rest, "CREATE_GAME"@),
    ensures
        line_event("BGC_RACES="@ + rest) == Some(EventView::SetRaces(list_items(rest))),
{
    reveal_strlit("BGC_RACES=");
    reveal_strlit("GameType=GT_BATTLEGROUNDS");
    let m = "BGC_RACES="@;
    let l = m + rest;
    assert(l[0] == 'B');
    assert(l.last() == if rest.len() == 0 {
        '='
    } else {
        rest.last()
    });
    lemma_trim_keeps_unpadded(l);
    assert(l.subrange(0, m.len() as int) =~= m);
    assert(matches_at(l, m, 0));
    lemma_first_match_unique(l, m, 0);
    assert(l.subrange(m.len() as int, l.len() as int) =~= rest);
    if has_substring(rest, m) {
        let j = choose|j: int| matches_at(rest, m, j);
        assert(rest.subrange(j, j + m.len())[9] == m[9]);
        assert(rest[j + 9] == '=');
    }
    let g = "GameType=GT_BATTLEGROUNDS"@;
    if has_substring(l, g) {
        let j = choose|j: int| matches_at(l, g, j);
        assert(l.subrange(j, j + g.len())[8] == g[8]);
        if j + 8 >= 10 {
            assert(l[j + 8] == rest[j + 8 - 10]);
        }
        assert(l.subrange(j, j + g.len())[0] == g[0]);
        assert(l.subrange(j, j + g.len())[1] == g[1]);
        assert(l[j] == g[0] && l[j + 1] == g[1]);
        assert(false);
    }
    assert(!has_substring(l, g));
    assert(line_event(l) == Some(EventView::SetRaces(list_items(after_marker(l, m)))));
}

} // verus!
