//! Card catalog: the Battlegrounds minion pool, its tier/race filter, the
//! offline fixture, and the choice between fresh, cached and fixture data.

use vstd::prelude::*;
use crate::seq_facts::lemma_filter_map_push;
use crate::text::{
    chars_eq_ignore_ascii_case, chars_lt, chars_of, eq_ignore_ascii_case, lemma_lex_lt_irreflexive,
    lemma_lex_lt_total, lemma_lex_lt_transitive, lex_lt, opt_string_view, str_eq, strings_view,
};

verus! {

broadcast use vstd::string::group_string_axioms;

/// One Battlegrounds pool minion (or fixture stand-in).
#[derive(Debug, PartialEq, Eq)]
pub struct Card {
    pub id: String,
    pub name: String,
    pub tier: u8,
    pub race: Option<String>,
}

pub struct CardView {
    pub id: Seq<char>,
    pub name: Seq<char>,
    pub tier: u8,
    pub race: Option<Seq<char>>,
}

impl View for Card {
    type V = CardView;

    open spec fn view(&self) -> CardView {
        CardView { id: self.id@, name: self.name@, tier: self.tier, race: opt_string_view(self.race) }
    }
}

impl Clone for Card {
    fn clone(&self) -> (r: Self)
        ensures
            r@ == self@,
    {
        Card {
            id: self.id.clone(),
            name: self.name.clone(),
            tier: self.tier,
            race: self.race.clone(),
        }
    }
}

pub open spec fn cards_view(v: Seq<Card>) -> Seq<CardView> {
    v.map_values(|c: Card| c@)
}

/// In-memory catalog of BG minions.
#[derive(Debug)]
pub struct Catalog {
    pub cards: Vec<Card>,
    pub source: String,
}

/// A copy of `v`, card by card.
pub fn clone_cards(v: &Vec<Card>) -> (r: Vec<Card>)
    ensures
        cards_view(r@) == cards_view(v@),
{
    let mut r: Vec<Card> = Vec::new();
    let mut i: usize = 0;
    while i < v.len()
        invariant
            i <= v.len(),
            cards_view(r@) == cards_view(v@.take(i as int)),
        decreases v.len() - i,
    {
        let c = v[i].clone();
        let ghost r0 = r@;
        r.push(c);
        proof {
            assert(v@.take(i + 1) =~= v@.take(i as int).push(v@[i as int]));
            assert(cards_view(r@) =~= cards_view(r0).push(c@));
            assert(cards_view(r@) =~= cards_view(v@.take(i + 1)));
        }
        i = i + 1;
    }
    assert(v@.take(v.len() as int) =~= v@);
    r
}

impl Clone for Catalog {
    fn clone(&self) -> (c: Self)
        ensures
            cards_view(c.cards@) == cards_view(self.cards@),
            c.source@ == self.source@,
    {
        Catalog { cards: clone_cards(&self.cards), source: self.source.clone() }
    }
}

impl Default for Catalog {
    fn default() -> (c: Self)
        ensures
            c.cards@.len() == 0,
            c.source@ == Seq::<char>::empty(),
    {
        Catalog { cards: Vec::new(), source: String::new() }
    }
}

// ---------------------------------------------------------------------------
// Tier and race filter
// ---------------------------------------------------------------------------

/// A card of tribe `race` may be offered in a lobby with tribes
/// `available`: every card when the lobby's tribes are unknown, neutral
/// and all-tribe (`ALL`) cards always, others when their tribe is one of
/// the lobby's (compared ignoring ASCII case).
pub open spec fn race_allowed_spec(race: Option<Seq<char>>, available: Seq<Seq<char>>) -> bool {
    available.len() == 0 || match race {
        None => true,
        Some(r) => r == "ALL"@ || exists|i: int|
            0 <= i < available.len() && eq_ignore_ascii_case(#[trigger] available[i], r),
    }
}

pub fn race_allowed(race: &Option<String>, available: &[String]) -> (b: bool)
    ensures
        b == race_allowed_spec(opt_string_view(*race), strings_view(available@)),
{
    let ghost av = strings_view(available@);
    if available.len() == 0 {
        return true;
    }
    match race {
        None => true,
        Some(r) => {
            if str_eq(r.as_str(), "ALL") {
                return true;
            }
            let rc = chars_of(r.as_str());
            let mut i: usize = 0;
            while i < available.len()
                invariant
                    av == strings_view(available@),
                    available@.len() > 0,
                    opt_string_view(*race) == Some(r@),
                    rc@ == r@,
                    i <= available.len(),
                    forall|k: int| 0 <= k < i ==> !eq_ignore_ascii_case(#[trigger] av[k], r@),
                decreases available.len() - i,
            {
                let ac = chars_of(available[i].as_str());
                assert(av[i as int] == ac@);
                if chars_eq_ignore_ascii_case(&ac, &rc) {
                    assert(eq_ignore_ascii_case(av[i as int], r@));
                    return true;
                }
                i = i + 1;
            }
            false
        },
    }
}

/// The filter that `cards_for_tier` applies.
pub open spec fn tier_filter(tier: u8, races: Seq<Seq<char>>) -> spec_fn(CardView) -> bool {
    |c: CardView| c.tier == tier && race_allowed_spec(c.race, races)
}

/// The cards of `cards` that `cards_for_tier` keeps, in catalog order.
pub open spec fn tier_cards(cards: Seq<CardView>, tier: u8, races: Seq<Seq<char>>) -> Seq<
    CardView,
> {
    cards.filter(tier_filter(tier, races))
}

pub open spec fn card_name() -> spec_fn(CardView) -> Seq<char> {
    |c: CardView| c.name
}

impl Catalog {
    /// Tier minions; if `races` is non-empty, keep neutrals/`ALL` plus matching tribes.
    pub fn names_for_tier(&self, tier: u8, races: &[String]) -> (r: Vec<String>)
        ensures
            strings_view(r@) == tier_cards(
                cards_view(self.cards@),
                tier,
                strings_view(races@),
            ).map_values(card_name()),
    {
        let cards = self.cards_for_tier(tier, races);
        let ghost sel = tier_cards(cards_view(self.cards@), tier, strings_view(races@));
        let mut out: Vec<String> = Vec::new();
        let mut i: usize = 0;
        while i < cards.len()
            invariant
                i <= cards.len(),
                cards@.map_values(|c: &Card| c@) == sel,
                strings_view(out@) == sel.take(i as int).map_values(card_name()),
            decreases cards.len() - i,
        {
            let name = cards[i].name.clone();
            let ghost o0 = out@;
            out.push(name);
            proof {
                assert(sel[i as int] == cards@[i as int]@);
                assert(sel.take(i + 1) =~= sel.take(i as int).push(sel[i as int]));
                assert(strings_view(out@) =~= strings_view(o0).push(name@));
                assert(strings_view(out@) =~= sel.take(i + 1).map_values(card_name()));
            }
            i = i + 1;
        }
        assert(sel.take(cards.len() as int) =~= sel);
        out
    }

    pub fn cards_for_tier(&self, tier: u8, races: &[String]) -> (r: Vec<&Card>)
        ensures
            r@.map_values(|c: &Card| c@) == tier_cards(
                cards_view(self.cards@),
                tier,
                strings_view(races@),
            ),
    {
        let ghost all = cards_view(self.cards@);
        let ghost rv = strings_view(races@);
        let ghost pred = tier_filter(tier, rv);
        let mut out: Vec<&Card> = Vec::new();
        let mut i: usize = 0;
        proof {
            assert(all.take(0) =~= Seq::<CardView>::empty());
            reveal_with_fuel(Seq::filter, 1);
            assert(out@.map_values(|c: &Card| c@) =~= all.take(0).filter(pred));
        }
        while i < self.cards.len()
            invariant
                all == cards_view(self.cards@),
                rv == strings_view(races@),
                pred == tier_filter(tier, rv),
                i <= self.cards.len(),
                out@.map_values(|c: &Card| c@) == all.take(i as int).filter(pred),
            decreases self.cards.len() - i,
        {
            let c = &self.cards[i];
            proof {
                assert(all.take(i + 1) =~= all.take(i as int).push(all[i as int]));
                all.take(i as int).lemma_filter_push(all[i as int], pred);
                assert(all[i as int] == c@);
            }
            if c.tier == tier && race_allowed(&c.race, races) {
                let ghost o0 = out@;
                out.push(c);
                assert(out@.map_values(|c: &Card| c@) =~= o0.map_values(|c: &Card| c@).push(c@));
            }
            i = i + 1;
        }
        assert(all.take(self.cards.len() as int) =~= all);
        out
    }
}

// ---------------------------------------------------------------------------
// Fixture
// ---------------------------------------------------------------------------

pub open spec fn fixture_card(id: Seq<char>, name: Seq<char>, tier: u8, race: Option<Seq<char>>) -> CardView {
    CardView { id, name, tier, race }
}

/// The ten cards of the offline fixture.
pub open spec fn fixture_spec() -> Seq<CardView> {
    seq![
        fixture_card("BG_FIXTURE_1"@, "Fixture Murloc Pup"@, 1, Some("MURLOC"@)),
        fixture_card("BG_FIXTURE_2"@, "Fixture Alleycat"@, 1, Some("BEAST"@)),
        fixture_card("BG_FIXTURE_3"@, "Fixture Harvest Golem"@, 2, Some("MECH"@)),
        fixture_card("BG_FIXTURE_4"@, "Fixture Sellemental"@, 2, Some("ELEMENTAL"@)),
        fixture_card("BG_FIXTURE_5"@, "Fixture Imp Gang Boss"@, 3, Some("DEMON"@)),
        fixture_card("BG_FIXTURE_6"@, "Fixture Bronze Warden"@, 3, Some("DRAGON"@)),
        fixture_card("BG_FIXTURE_7"@, "Fixture Cave Hydra"@, 4, Some("BEAST"@)),
        fixture_card("BG_FIXTURE_8"@, "Fixture Lightfang Enforcer"@, 5, None),
        fixture_card("BG_FIXTURE_9"@, "Fixture Kalecgos"@, 6, Some("DRAGON"@)),
        fixture_card("BG_FIXTURE_10"@, "Fixture Amalgadon"@, 6, Some("ALL"@)),
    ]
}

fn make_card(id: &str, name: &str, tier: u8, race: Option<&str>) -> (c: Card)
    ensures
        c@ == fixture_card(
            id@,
            name@,
            tier,
            match race {
                Some(r) => Some(r@),
                None => None,
            },
        ),
{
    Card {
        id: String::from_str(id),
        name: String::from_str(name),
        tier,
        race: match race {
            Some(r) => Some(String::from_str(r)),
            None => None,
        },
    }
}

/// Tiny offline fixture so UI works with no network/cache.
pub fn fixture_cards() -> (v: Vec<Card>)
    ensures
        cards_view(v@) == fixture_spec(),
{
    let mut v: Vec<Card> = Vec::new();
    v.push(make_card("BG_FIXTURE_1", "Fixture Murloc Pup", 1, Some("MURLOC")));
    v.push(make_card("BG_FIXTURE_2", "Fixture Alleycat", 1, Some("BEAST")));
    v.push(make_card("BG_FIXTURE_3", "Fixture Harvest Golem", 2, Some("MECH")));
    v.push(make_card("BG_FIXTURE_4", "Fixture Sellemental", 2, Some("ELEMENTAL")));
    v.push(make_card("BG_FIXTURE_5", "Fixture Imp Gang Boss", 3, Some("DEMON")));
    v.push(make_card("BG_FIXTURE_6", "Fixture Bronze Warden", 3, Some("DRAGON")));
    v.push(make_card("BG_FIXTURE_7", "Fixture Cave Hydra", 4, Some("BEAST")));
    v.push(make_card("BG_FIXTURE_8", "Fixture Lightfang Enforcer", 5, None));
    v.push(make_card("BG_FIXTURE_9", "Fixture Kalecgos", 6, Some("DRAGON")));
    v.push(make_card("BG_FIXTURE_10", "Fixture Amalgadon", 6, Some("ALL")));
    assert(cards_view(v@) =~= fixture_spec());
    v
}

/// Build catalog only from fixture (tests / forced offline).
pub fn load_fixture() -> (c: Catalog)
    ensures
        cards_view(c.cards@) == fixture_spec(),
        c.source@ == "fixture"@,
{
    Catalog { cards: fixture_cards(), source: String::from_str("fixture") }
}

// ---------------------------------------------------------------------------
// Fresh, cached or fixture data
// ---------------------------------------------------------------------------

/// The cards and source name that `load_or_refresh` settles on: the fetched
/// pool when the fetch succeeded with cards, else the cached pool when it
/// holds cards, else the fixture.
pub open spec fn refresh_choice(
    fetched: Result<Seq<CardView>, Seq<char>>,
    cached: Option<Seq<CardView>>,
) -> (Seq<CardView>, Seq<char>) {
    match fetched {
        Ok(cards) if cards.len() > 0 => (cards, "hearthstonejson"@),
        _ => match cached {
            Some(cards) if cards.len() > 0 => (cards, "cache"@),
            _ => (fixture_spec(), "fixture"@),
        },
    }
}

pub open spec fn fetched_view(r: Result<Vec<Card>, String>) -> Result<Seq<CardView>, Seq<char>> {
    match r {
        Ok(v) => Ok(cards_view(v@)),
        Err(e) => Err(e@),
    }
}

pub open spec fn cached_view(o: Option<Vec<Card>>) -> Option<Seq<CardView>> {
    match o {
        Some(v) => Some(cards_view(v@)),
        None => None,
    }
}

/// Refresh from network when possible; else cache; else fixture.
///
/// `fetched` is the outcome of downloading and parsing the card database,
/// `cached` the pool read back from the cache file, if it could be read.
/// A catalog whose source is `hearthstonejson` is the one to write back to
/// the cache.
pub fn load_or_refresh(fetched: Result<Vec<Card>, String>, cached: Option<Vec<Card>>) -> (c:
    Catalog)
    ensures
        (cards_view(c.cards@), c.source@) == refresh_choice(
            fetched_view(fetched),
            cached_view(cached),
        ),
{
    match fetched {
        Ok(cards) => {
            if cards.len() > 0 {
                return Catalog { cards, source: String::from_str("hearthstonejson") };
            }
        },
        Err(_) => {},
    }
    match cached {
        Some(cards) => {
            if cards.len() > 0 {
                return Catalog { cards, source: String::from_str("cache") };
            }
        },
        None => {},
    }
    load_fixture()
}

// ---------------------------------------------------------------------------
// Pool selection from the card database
// ---------------------------------------------------------------------------

/// One entry of the card database, with the fields the pool needs.
#[derive(Debug)]
pub struct RawCard {
    pub id: Option<String>,
    pub name: Option<String>,
    pub tech_level: Option<u8>,
    pub is_bg_pool: Option<bool>,
    pub is_duos: Option<bool>,
    pub race: Option<String>,
}

pub struct RawCardView {
    pub id: Option<Seq<char>>,
    pub name: Option<Seq<char>>,
    pub tech_level: Option<u8>,
    pub is_bg_pool: Option<bool>,
    pub is_duos: Option<bool>,
    pub race: Option<Seq<char>>,
}

impl View for RawCard {
    type V = RawCardView;

    open spec fn view(&self) -> RawCardView {
        RawCardView {
            id: opt_string_view(self.id),
            name: opt_string_view(self.name),
            tech_level: self.tech_level,
            is_bg_pool: self.is_bg_pool,
            is_duos: self.is_duos,
            race: opt_string_view(self.race),
        }
    }
}

pub open spec fn raw_view(v: Seq<RawCard>) -> Seq<RawCardView> {
    v.map_values(|r: RawCard| r@)
}

/// The pool card an entry stands for: current pool minions only (flagged
/// as pool minions, not Duos-exclusive), with a tavern tier from 1 to 6 and
/// both an id and a name.
pub open spec fn pool_card(r: RawCardView) -> Option<CardView> {
    if r.is_bg_pool != Some(true) || r.is_duos == Some(true) {
        None
    } else if let Some(t) = r.tech_level {
        if 1 <= t <= 6 {
            if let Some(id) = r.id {
                if let Some(name) = r.name {
                    Some(CardView { id, name, tier: t, race: r.race })
                } else {
                    None
                }
            } else {
                None
            }
        } else {
            None
        }
    } else {
        None
    }
}

pub open spec fn pool_card_fn() -> spec_fn(RawCardView) -> Option<CardView> {
    |r: RawCardView| pool_card(r)
}

/// `a` may stand before `b`: ordered by tier, then by name.
pub open spec fn card_le(a: CardView, b: CardView) -> bool {
    a.tier < b.tier || (a.tier == b.tier && !lex_lt(b.name, a.name))
}

/// `x` inserted into `s` after every card it may stand after: one step of
/// a stable insertion sort.
pub open spec fn insert_sorted(s: Seq<CardView>, x: CardView) -> Seq<CardView>
    decreases s.len(),
{
    if s.len() == 0 {
        seq![x]
    } else if card_le(s.last(), x) {
        s.push(x)
    } else {
        insert_sorted(s.drop_last(), x).push(s.last())
    }
}

/// `s` sorted by tier, then name, keeping the order of equal cards.
pub open spec fn sort_cards(s: Seq<CardView>) -> Seq<CardView>
    decreases s.len(),
{
    if s.len() == 0 {
        s
    } else {
        insert_sorted(sort_cards(s.drop_last()), s.last())
    }
}

/// `s` with each card dropped whose id equals that of the card kept just
/// before it, as `Vec::dedup_by` on ids does.
pub open spec fn dedup_ids(s: Seq<CardView>) -> Seq<CardView>
    decreases s.len(),
{
    if s.len() == 0 {
        s
    } else {
        let d = dedup_ids(s.drop_last());
        if d.len() > 0 && d.last().id == s.last().id {
            d
        } else {
            d.push(s.last())
        }
    }
}

/// The pool the card database yields.
pub open spec fn pool_spec(raw: Seq<RawCardView>) -> Seq<CardView> {
    dedup_ids(sort_cards(raw.filter_map(pool_card_fn())))
}

fn pool_card_exec(r: RawCard) -> (c: Option<Card>)
    ensures
        match c {
            Some(c) => pool_card(r@) == Some(c@),
            None => pool_card(r@) is None,
        },
{
    if r.is_bg_pool != Some(true) || r.is_duos == Some(true) {
        return None;
    }
    let tier = match r.tech_level {
        Some(t) => {
            if 1 <= t && t <= 6 {
                t
            } else {
                return None;
            }
        },
        None => {
            return None;
        },
    };
    match (r.id, r.name) {
        (Some(id), Some(name)) => Some(Card { id, name, tier, race: r.race }),
        _ => None,
    }
}

fn card_le_exec(a: &Card, b: &Card) -> (r: bool)
    ensures
        r == card_le(a@, b@),
{
    if a.tier != b.tier {
        a.tier < b.tier
    } else {
        let an = chars_of(a.name.as_str());
        let bn = chars_of(b.name.as_str());
        !chars_lt(&bn, &an)
    }
}

proof fn lemma_insert_at(s: Seq<CardView>, x: CardView, j: int)
    requires
        0 <= j <= s.len(),
        forall|k: int| j <= k < s.len() ==> !card_le(#[trigger] s[k], x),
        j == 0 || card_le(s[j - 1], x),
    ensures
        insert_sorted(s, x) == s.insert(j, x),
    decreases s.len(),
{
    if s.len() == 0 {
        assert(s.insert(j, x) =~= seq![x]);
    } else if j == s.len() {
        assert(s.insert(j, x) =~= s.push(x));
    } else {
        assert(!card_le(s[s.len() - 1], x));
        let d = s.drop_last();
        if j > 0 {
            assert(d[j - 1] == s[j - 1]);
        }
        assert forall|k: int| j <= k < d.len() implies !card_le(#[trigger] d[k], x) by {
            assert(d[k] == s[k]);
        }
        lemma_insert_at(d, x, j);
        assert(d.insert(j, x).push(s.last()) =~= s.insert(j, x));
    }
}

/// The pool cards of `raw`, in database order.
fn pool_cards_exec(raw: Vec<RawCard>) -> (out: Vec<Card>)
    ensures
        cards_view(out@) == raw_view(raw@).filter_map(pool_card_fn()),
{
    let ghost rv = raw_view(raw@);
    let mut out: Vec<Card> = Vec::new();
    proof {
        assert(raw_view(raw@.take(0)) =~= Seq::<RawCardView>::empty());
        assert(cards_view(out@) =~= Seq::<CardView>::empty());
    }
    for r in it: raw.into_iter()
        invariant
            rv == raw_view(it.seq()),
            cards_view(out@) == rv.take(it.index() as int).filter_map(pool_card_fn()),
    {
        let ghost k = it.index();
        let ghost rr = r@;
        proof {
            assert(it.seq()[k] == r);
            assert(rv.take(k + 1) =~= rv.take(k).push(rr));
            lemma_filter_map_push(rv.take(k), rr, pool_card_fn());
        }
        let ghost o0 = out@;
        match pool_card_exec(r) {
            Some(c) => {
                out.push(c);
                assert(cards_view(out@) =~= cards_view(o0).push(c@));
            },
            None => {},
        }
    }
    proof {
        assert(rv.take(rv.len() as int) =~= rv);
    }
    out
}

/// `cards` sorted by tier, then name, keeping the order of equal cards.
fn sort_cards_exec(cards: Vec<Card>) -> (out: Vec<Card>)
    ensures
        cards_view(out@) == sort_cards(cards_view(cards@)),
{
    let ghost cv = cards_view(cards@);
    let mut out: Vec<Card> = Vec::new();
    proof {
        assert(cv.take(0) =~= Seq::<CardView>::empty());
        assert(cards_view(out@) =~= Seq::<CardView>::empty());
    }
    for x in it: cards.into_iter()
        invariant
            cv == cards_view(it.seq()),
            cards_view(out@) == sort_cards(cv.take(it.index() as int)),
    {
        let ghost k = it.index();
        proof {
            assert(it.seq()[k] == x);
            assert(cv.take(k + 1).drop_last() =~= cv.take(k));
            assert(cv.take(k + 1).last() == x@);
        }
        let ghost ov = cards_view(out@);
        let mut j = out.len();
        while j > 0 && !card_le_exec(&out[j - 1], &x)
            invariant
                j <= out.len(),
                ov == cards_view(out@),
                forall|t: int| j <= t < ov.len() ==> !card_le(#[trigger] ov[t], x@),
            decreases j,
        {
            j = j - 1;
        }
        proof {
            lemma_insert_at(ov, x@, j as int);
        }
        out.insert(j, x);
        assert(cards_view(out@) =~= ov.insert(j as int, x@));
    }
    proof {
        assert(cv.take(cv.len() as int) =~= cv);
    }
    out
}

/// `cards` with each card dropped whose id equals that of the card kept
/// just before it.
fn dedup_ids_exec(cards: Vec<Card>) -> (out: Vec<Card>)
    ensures
        cards_view(out@) == dedup_ids(cards_view(cards@)),
{
    let ghost cv = cards_view(cards@);
    let mut out: Vec<Card> = Vec::new();
    proof {
        assert(cv.take(0) =~= Seq::<CardView>::empty());
        assert(cards_view(out@) =~= Seq::<CardView>::empty());
    }
    for x in it: cards.into_iter()
        invariant
            cv == cards_view(it.seq()),
            cards_view(out@) == dedup_ids(cv.take(it.index() as int)),
    {
        let ghost k = it.index();
        proof {
            assert(it.seq()[k] == x);
            assert(cv.take(k + 1).drop_last() =~= cv.take(k));
            assert(cv.take(k + 1).last() == x@);
        }
        let ghost ov = cards_view(out@);
        let n = out.len();
        if n > 0 && out[n - 1].id == x.id {
            assert(ov.last() == out@[n - 1]@);
        } else {
            out.push(x);
            assert(cards_view(out@) =~= ov.push(x@));
        }
    }
    proof {
        assert(cv.take(cv.len() as int) =~= cv);
    }
    out
}

/// The current pool in the card database `raw`: pool minions that are not
/// Duos-exclusive, of tier 1 to 6, with an id and a name; sorted by tier,
/// then name; a card dropped when its id repeats that of the card before.
pub fn bg_pool_minions(raw: Vec<RawCard>) -> (out: Vec<Card>)
    ensures
        cards_view(out@) == pool_spec(raw_view(raw@)),
{
    let pool = pool_cards_exec(raw);
    let sorted = sort_cards_exec(pool);
    dedup_ids_exec(sorted)
}

// ---------------------------------------------------------------------------
// Laws of the pool order
// ---------------------------------------------------------------------------

proof fn lemma_card_le_total(a: CardView, b: CardView)
    ensures
        card_le(a, b) || card_le(b, a),
{
    lemma_lex_lt_total(a.name, b.name);
    if a.name == b.name {
        lemma_lex_lt_irreflexive(a.name);
    }
    if lex_lt(a.name, b.name) && lex_lt(b.name, a.name) {
        lemma_lex_lt_transitive(a.name, b.name, a.name);
        lemma_lex_lt_irreflexive(a.name);
    }
}

proof fn lemma_card_le_transitive(a: CardView, b: CardView, c: CardView)
    requires
        card_le(a, b),
        card_le(b, c),
    ensures
        card_le(a, c),
{
    if a.tier == b.tier && b.tier == c.tier {
        lemma_lex_lt_total(a.name, b.name);
        if lex_lt(c.name, a.name) {
            if a.name != b.name {
                lemma_lex_lt_transitive(c.name, a.name, b.name);
            }
        }
    }
}

/// Cards of the same tier and name are interchangeable in the order.
proof fn lemma_card_le_same_key(a: CardView, b: CardView)
    requires
        a.tier == b.tier,
        a.name == b.name,
    ensures
        card_le(a, b),
{
    lemma_lex_lt_irreflexive(a.name);
}

proof fn lemma_insert_sorted_shape(s: Seq<CardView>, x: CardView) -> (j: int)
    ensures
        0 <= j <= s.len(),
        insert_sorted(s, x) == s.insert(j, x),
        forall|k: int| j <= k < s.len() ==> !card_le(#[trigger] s[k], x),
        j == 0 || card_le(s[j - 1], x),
    decreases s.len(),
{
    if s.len() == 0 {
        assert(s.insert(0, x) =~= seq![x]);
        0
    } else if card_le(s.last(), x) {
        assert(s.insert(s.len() as int, x) =~= s.push(x));
        s.len() as int
    } else {
        let d = s.drop_last();
        let j = lemma_insert_sorted_shape(d, x);
        assert(d.insert(j, x).push(s.last()) =~= s.insert(j, x));
        assert forall|k: int| j <= k < s.len() implies !card_le(#[trigger] s[k], x) by {
            if k < s.len() - 1 {
                assert(s[k] == d[k]);
            }
        }
        if j > 0 {
            assert(s[j - 1] == d[j - 1]);
        }
        j
    }
}

/// Cards are in pool order: by tier, then by name.
pub open spec fn in_pool_order(s: Seq<CardView>) -> bool {
    forall|i: int, j: int| 0 <= i < j < s.len() ==> card_le(#[trigger] s[i], #[trigger] s[j])
}

proof fn lemma_insert_sorted_ordered(s: Seq<CardView>, x: CardView)
    requires
        in_pool_order(s),
    ensures
        in_pool_order(insert_sorted(s, x)),
{
    let j = lemma_insert_sorted_shape(s, x);
    let r = s.insert(j, x);
    if j < s.len() {
        lemma_card_le_total(s[j], x);
    }
    assert forall|a: int, b: int| 0 <= a < b < r.len() implies card_le(#[trigger] r[a], #[trigger] r[b]) by {
        if b < j {
            assert(r[a] == s[a] && r[b] == s[b]);
        } else if b == j {
            assert(r[b] == x);
            assert(r[a] == s[a]);
            if a < j - 1 {
                lemma_card_le_transitive(s[a], s[j - 1], x);
            }
        } else if a > j {
            assert(r[a] == s[a - 1] && r[b] == s[b - 1]);
        } else if a == j {
            assert(r[a] == x && r[b] == s[b - 1]);
            if b - 1 > j {
                lemma_card_le_transitive(x, s[j], s[b - 1]);
            }
        } else {
            assert(r[a] == s[a] && r[b] == s[b - 1]);
        }
    }
}

/// The pool is in order: by tier, then by name.
pub proof fn law_sort_orders_by_tier_then_name(s: Seq<CardView>)
    ensures
        in_pool_order(sort_cards(s)),
    decreases s.len(),
{
    if s.len() > 0 {
        law_sort_orders_by_tier_then_name(s.drop_last());
        lemma_insert_sorted_ordered(sort_cards(s.drop_last()), s.last());
    }
}

pub open spec fn same_key(tier: u8, name: Seq<char>) -> spec_fn(CardView) -> bool {
    |c: CardView| c.tier == tier && c.name == name
}

/// Sorting keeps every card and keeps cards of equal tier and name in the
/// order they came in: for each tier and name, the cards with that tier and
/// name are the same, in the same order, before and after. With
/// `law_sort_orders_by_tier_then_name` this pins the sorted pool down.
pub proof fn law_sort_is_stable(s: Seq<CardView>, tier: u8, name: Seq<char>)
    ensures
        sort_cards(s).filter(same_key(tier, name)) == s.filter(same_key(tier, name)),
    decreases s.len(),
{
    let p = same_key(tier, name);
    if s.len() == 0 {
    } else {
        let d = s.drop_last();
        let x = s.last();
        law_sort_is_stable(d, tier, name);
        let t = sort_cards(d);
        let j = lemma_insert_sorted_shape(t, x);
        assert(t.insert(j, x) =~= t.take(j) + seq![x] + t.skip(j));
        assert(t =~= t.take(j) + t.skip(j));
        Seq::filter_distributes_over_add(t.take(j) + seq![x], t.skip(j), p);
        Seq::filter_distributes_over_add(t.take(j), seq![x], p);
        Seq::filter_distributes_over_add(t.take(j), t.skip(j), p);
        assert(seq![x] =~= Seq::<CardView>::empty().push(x));
        Seq::<CardView>::empty().lemma_filter_push(x, p);
        reveal_with_fuel(Seq::filter, 1);
        assert(s =~= d.push(x));
        d.lemma_filter_push(x, p);
        if p(x) {
            assert forall|k: int| 0 <= k < t.skip(j).len() implies !p(#[trigger] t.skip(j)[k]) by {
                assert(t.skip(j)[k] == t[j + k]);
                if p(t[j + k]) {
                    lemma_card_le_same_key(t[j + k], x);
                }
            }
            t.skip(j).lemma_all_neg_filter_empty(p);
            assert(t.take(j).filter(p) + seq![x] + t.skip(j).filter(p) =~= (t.take(j).filter(p)
                + t.skip(j).filter(p)).push(x));
        } else {
            assert(t.take(j).filter(p) + Seq::<CardView>::empty() + t.skip(j).filter(p)
                =~= t.take(j).filter(p) + t.skip(j).filter(p));
        }
    }
}

proof fn lemma_dedup_neighbours(s: Seq<CardView>)
    ensures
        forall|i: int|
            0 <= i < dedup_ids(s).len() - 1 ==> (#[trigger] dedup_ids(s)[i]).id != dedup_ids(s)[i
                + 1].id,
    decreases s.len(),
{
    if s.len() > 0 {
        let p = s.drop_last();
        lemma_dedup_neighbours(p);
        let d = dedup_ids(p);
        let r = dedup_ids(s);
        assert forall|i: int| 0 <= i < r.len() - 1 implies (#[trigger] r[i]).id != r[i + 1].id by {
            if i + 1 < d.len() {
                assert(r[i] == d[i] && r[i + 1] == d[i + 1]);
            } else {
                assert(r[i] == d[i]);
                assert(d[i] == d.last());
            }
        }
    }
}

proof fn lemma_dedup_subset(s: Seq<CardView>)
    ensures
        forall|i: int| 0 <= i < dedup_ids(s).len() ==> s.contains(#[trigger] dedup_ids(s)[i]),
    decreases s.len(),
{
    if s.len() > 0 {
        let p = s.drop_last();
        lemma_dedup_subset(p);
        let d = dedup_ids(p);
        let r = dedup_ids(s);
        assert forall|i: int| 0 <= i < r.len() implies s.contains(#[trigger] r[i]) by {
            if i < d.len() {
                assert(r[i] == d[i]);
                assert(p.contains(d[i]));
                let w = choose|w: int| 0 <= w < p.len() && p[w] == d[i];
                assert(s[w] == p[w]);
            } else {
                assert(r[i] == s[s.len() - 1]);
            }
        }
    }
}

proof fn lemma_dedup_covers(s: Seq<CardView>)
    ensures
        forall|i: int|
            0 <= i < s.len() ==> exists|k: int|
                0 <= k < dedup_ids(s).len() && (#[trigger] dedup_ids(s)[k]).id == (
                #[trigger] s[i]).id,
    decreases s.len(),
{
    if s.len() > 0 {
        let p = s.drop_last();
        lemma_dedup_covers(p);
        let d = dedup_ids(p);
        let r = dedup_ids(s);
        assert forall|i: int| 0 <= i < s.len() implies exists|k: int|
            0 <= k < r.len() && (#[trigger] r[k]).id == (#[trigger] s[i]).id by {
            if i < s.len() - 1 {
                assert(s[i] == p[i]);
                let k = choose|k: int| 0 <= k < d.len() && (#[trigger] d[k]).id == p[i].id;
                assert(r[k] == d[k]);
            } else if r.len() > d.len() {
                assert(r[r.len() - 1] == s[i]);
            } else {
                assert(r[d.len() - 1] == d.last());
            }
        }
    }
}

/// Neighbours in the pool never share an id; every card kept comes from
/// the input; and every id of the input is still present.
pub proof fn law_dedup_ids(s: Seq<CardView>)
    ensures
        forall|i: int|
            0 <= i < dedup_ids(s).len() - 1 ==> (#[trigger] dedup_ids(s)[i]).id != dedup_ids(s)[i
                + 1].id,
        forall|i: int| 0 <= i < dedup_ids(s).len() ==> s.contains(#[trigger] dedup_ids(s)[i]),
        forall|i: int|
            0 <= i < s.len() ==> exists|k: int|
                0 <= k < dedup_ids(s).len() && (#[trigger] dedup_ids(s)[k]).id == (
                #[trigger] s[i]).id,
{
    lemma_dedup_neighbours(s);
    lemma_dedup_subset(s);
    lemma_dedup_covers(s);
}

proof fn lemma_sort_keeps_cards(s: Seq<CardView>)
    ensures
        sort_cards(s).len() == s.len(),
        forall|i: int| 0 <= i < sort_cards(s).len() ==> s.contains(#[trigger] sort_cards(s)[i]),
    decreases s.len(),
{
    if s.len() > 0 {
        let d = s.drop_last();
        lemma_sort_keeps_cards(d);
        let t = sort_cards(d);
        let j = lemma_insert_sorted_shape(t, s.last());
        let r = sort_cards(s);
        assert forall|i: int| 0 <= i < r.len() implies s.contains(#[trigger] r[i]) by {
            if i == j {
                assert(s[s.len() - 1] == r[i]);
            } else {
                let k = if i < j {
                    i
                } else {
                    i - 1
                };
                assert(r[i] == t[k]);
                assert(d.contains(t[k]));
                let w = choose|w: int| 0 <= w < d.len() && d[w] == t[k];
                assert(s[w] == d[w]);
            }
        }
    }
}

/// The pool holds only current-pool minions: each card is the pool card of
/// an entry of the database, so of tier 1 to 6 and neither rotated out nor
/// Duos-exclusive.
pub proof fn law_pool_holds_only_pool_minions(raw: Seq<RawCardView>)
    ensures
        forall|i: int|
            0 <= i < pool_spec(raw).len() ==> 1 <= (#[trigger] pool_spec(raw)[i]).tier <= 6
                && exists|r: RawCardView|
                raw.contains(r) && r.is_bg_pool == Some(true) && r.is_duos != Some(true)
                    && pool_card(r) == Some(pool_spec(raw)[i]),
{
    let f = raw.filter_map(pool_card_fn());
    let t = sort_cards(f);
    lemma_sort_keeps_cards(f);
    lemma_dedup_subset(t);
    assert forall|i: int| 0 <= i < pool_spec(raw).len() implies 1 <= (
    #[trigger] pool_spec(raw)[i]).tier <= 6 && exists|r: RawCardView|
        raw.contains(r) && r.is_bg_pool == Some(true) && r.is_duos != Some(true) && pool_card(r)
            == Some(pool_spec(raw)[i]) by {
        let c = pool_spec(raw)[i];
        assert(t.contains(c));
        let a = choose|a: int| 0 <= a < t.len() && t[a] == c;
        assert(f.contains(t[a]));
        raw.lemma_filter_map_contains(pool_card_fn(), c);
        let r = choose|r: RawCardView| #[trigger] raw.contains(r) && pool_card_fn()(r) == Some(c);
        assert(pool_card(r) == Some(c));
    }
}

// ---------------------------------------------------------------------------
// Laws of the tier browser
// ---------------------------------------------------------------------------

/// A card is listed for a tier exactly when it is in the catalog, of that
/// tier, and allowed in the lobby.
pub proof fn law_tier_cards_members(
    cards: Seq<CardView>,
    tier: u8,
    races: Seq<Seq<char>>,
    c: CardView,
)
    ensures
        tier_cards(cards, tier, races).contains(c) <==> (cards.contains(c) && c.tier == tier
            && race_allowed_spec(c.race, races)),
{
    let p = tier_filter(tier, races);
    if tier_cards(cards, tier, races).contains(c) {
        cards.lemma_filter_contains_rev(p, c);
        let k = choose|k: int| 0 <= k < cards.filter(p).len() && cards.filter(p)[k] == c;
        cards.lemma_filter_pred(p, k);
    }
    if cards.contains(c) && c.tier == tier && race_allowed_spec(c.race, races) {
        let k = choose|k: int| 0 <= k < cards.len() && cards[k] == c;
        cards.lemma_filter_contains(p, k);
    }
}

/// Neutral and all-tribe cards are offered in every lobby, and while the
/// lobby's tribes are unknown every card is.
pub proof fn law_neutral_and_unknown_lobby_allowed(race: Option<Seq<char>>, races: Seq<Seq<char>>)
    ensures
        race is None ==> race_allowed_spec(race, races),
        race == Some("ALL"@) ==> race_allowed_spec(race, races),
        races.len() == 0 ==> race_allowed_spec(race, races),
{
}

/// Whatever the network and the cache hold, the catalog is never empty.
pub proof fn law_catalog_never_empty(
    fetched: Result<Seq<CardView>, Seq<char>>,
    cached: Option<Seq<CardView>>,
)
    ensures
        refresh_choice(fetched, cached).0.len() > 0,
{
}

/// An entry of the card database stands for a pool card exactly when it is
/// flagged as a pool minion, is not Duos-exclusive, has a tech level from 1
/// to 6, an id and a name; the card then carries those, and the race.
pub proof fn law_pool_card_conditions(r: RawCardView)
    ensures
        (pool_card(r) is Some) == (r.is_bg_pool == Some(true) && r.is_duos != Some(true)
            && (r.tech_level is Some) && 1 <= r.tech_level->0 <= 6 && (r.id is Some)
            && (r.name is Some)),
        (pool_card(r) is Some) ==> pool_card(r)->0 == (CardView {
            id: r.id->0,
            name: r.name->0,
            tier: r.tech_level->0,
            race: r.race,
        }),
{
}

proof fn lemma_filter_map_has<A, B>(s: Seq<A>, x: A, f: spec_fn(A) -> Option<B>, y: B)
    requires
        s.contains(x),
        f(x) == Some(y),
    ensures
        s.filter_map(f).contains(y),
    decreases s.len(),
{
    let t = s.drop_last();
    lemma_filter_map_push(t, s.last(), f);
    assert(t.push(s.last()) =~= s);
    if s.last() == x {
        assert(s.filter_map(f)[s.filter_map(f).len() - 1] == y);
    } else {
        let i = choose|i: int| 0 <= i < s.len() && s[i] == x;
        assert(t[i] == x);
        lemma_filter_map_has(t, x, f, y);
        let k = choose|k: int| 0 <= k < t.filter_map(f).len() && t.filter_map(f)[k] == y;
        match f(s.last()) {
            Some(e) => {
                assert(s.filter_map(f)[k] == y);
            },
            None => {},
        }
    }
}

/// Sorting loses no card.
proof fn lemma_sort_has(s: Seq<CardView>, c: CardView)
    requires
        s.contains(c),
    ensures
        sort_cards(s).contains(c),
{
    let p = same_key(c.tier, c.name);
    law_sort_is_stable(s, c.tier, c.name);
    let i = choose|i: int| 0 <= i < s.len() && s[i] == c;
    s.lemma_filter_contains(p, i);
    sort_cards(s).lemma_filter_contains_rev(p, c);
}

/// The pool is complete: every entry of the database that is a pool
/// minion, not Duos-exclusive, of tech level 1 to 6, with an id and a name,
/// has a card with its id in the pool.
pub proof fn law_pool_complete(raw: Seq<RawCardView>, r: RawCardView)
    requires
        raw.contains(r),
        r.is_bg_pool == Some(true),
        r.is_duos != Some(true),
        (r.tech_level is Some),
        1 <= r.tech_level->0 <= 6,
        (r.id is Some),
        (r.name is Some),
    ensures
        (exists|k: int| 0 <= k < pool_spec(raw).len() && (#[trigger] pool_spec(raw)[k]).id
            == r.id->0),
{
    law_pool_card_conditions(r);
    let c = pool_card(r)->0;
    let f = raw.filter_map(pool_card_fn());
    lemma_filter_map_has(raw, r, pool_card_fn(), c);
    let t = sort_cards(f);
    lemma_sort_has(f, c);
    let i = choose|i: int| 0 <= i < t.len() && t[i] == c;
    lemma_dedup_covers(t);
    let d = dedup_ids(t);
    assert(pool_spec(raw) == d);
    assert(exists|k: int| 0 <= k < d.len() && (#[trigger] d[k]).id == t[i].id);
    let k = choose|k: int| 0 <= k < d.len() && (#[trigger] d[k]).id == t[i].id;
    assert(pool_spec(raw)[k].id == r.id->0);
}

/// In a lobby with known tribes, a tribal card other than `ALL` is offered
/// exactly when one of the lobby's tribes is its tribe, up to ASCII case;
/// in particular whenever its tribe is listed as is.
pub proof fn law_race_filter_matches_any_lobby_tribe(r: Seq<char>, races: Seq<Seq<char>>, i: int)
    requires
        races.len() > 0,
        r != "ALL"@,
    ensures
        race_allowed_spec(Some(r), races) == (exists|j: int|
            0 <= j < races.len() && eq_ignore_ascii_case(#[trigger] races[j], r)),
        0 <= i < races.len() && eq_ignore_ascii_case(races[i], r) ==> race_allowed_spec(
            Some(r),
            races,
        ),
        0 <= i < races.len() && races[i] == r ==> race_allowed_spec(Some(r), races),
{
    if 0 <= i < races.len() && races[i] == r {
        assert(eq_ignore_ascii_case(races[i], r));
    }
}

/// The tier list grows with the catalog, in catalog order: a card added at
/// the end is listed at the end when it has the tier and its tribe is
/// allowed in the lobby, and leaves the list unchanged otherwise; the names
/// listed are the cards' names.
pub proof fn law_tier_list_in_catalog_order(
    cards: Seq<CardView>,
    c: CardView,
    tier: u8,
    races: Seq<Seq<char>>,
)
    ensures
        tier_cards(Seq::empty(), tier, races).len() == 0,
        (c.tier == tier && race_allowed_spec(c.race, races)) ==> tier_cards(
            cards.push(c),
            tier,
            races,
        ) == tier_cards(cards, tier, races).push(c),
        !(c.tier == tier && race_allowed_spec(c.race, races)) ==> tier_cards(
            cards.push(c),
            tier,
            races,
        ) == tier_cards(cards, tier, races),
        card_name()(c) == c.name,
{
    reveal_with_fuel(Seq::filter, 1);
    cards.lemma_filter_push(c, tier_filter(tier, races));
}

/// A card is dropped from the sorted pool exactly when the card just before
/// it has the same id: the first card of each run of equal ids stays.
pub proof fn law_dedup_drops_repeated_neighbour(s: Seq<CardView>, x: CardView)
    ensures
        dedup_ids(Seq::empty()).len() == 0,
        (s.len() > 0 && s.last().id == x.id) ==> dedup_ids(s.push(x)) == dedup_ids(s),
        !(s.len() > 0 && s.last().id == x.id) ==> dedup_ids(s.push(x)) == dedup_ids(s).push(x),
{
    assert(s.push(x).drop_last() =~= s);
    assert(s.push(x).last() == x);
    if s.len() > 0 {
        lemma_dedup_last(s);
    }
}

proof fn lemma_dedup_last(s: Seq<CardView>)
    requires
        s.len() > 0,
    ensures
        dedup_ids(s).len() > 0,
        dedup_ids(s).last().id == s.last().id,
{
}

/// The catalog comes from the network when the download gave cards, else
/// from the cache when it holds cards, else from the ten-card fixture; the
/// source names which.
pub proof fn law_refresh_fallback(
    fetched: Result<Seq<CardView>, Seq<char>>,
    cached: Option<Seq<CardView>>,
)
    ensures
        (fetched matches Ok(c) && c.len() > 0) ==> refresh_choice(fetched, cached) == (
        fetched->Ok_0, "hearthstonejson"@),
        !(fetched matches Ok(c) && c.len() > 0) && (cached matches Some(c) && c.len() > 0)
            ==> refresh_choice(fetched, cached) == (cached->0, "cache"@),
        !(fetched matches Ok(c) && c.len() > 0) && !(cached matches Some(c) && c.len() > 0)
            ==> refresh_choice(fetched, cached).1 == "fixture"@ && refresh_choice(
            fetched,
            cached,
        ).0 == fixture_spec(),
        fixture_spec().len() == 10,
{
}

/// The fixture offers a card at every tavern tier from 1 to 6.
pub proof fn law_fixture_covers_every_tier()
    ensures
        (exists|i: int| 0 <= i < fixture_spec().len() && (#[trigger] fixture_spec()[i]).tier == 1),
        (exists|i: int| 0 <= i < fixture_spec().len() && (#[trigger] fixture_spec()[i]).tier == 2),
        (exists|i: int| 0 <= i < fixture_spec().len() && (#[trigger] fixture_spec()[i]).tier == 3),
        (exists|i: int| 0 <= i < fixture_spec().len() && (#[trigger] fixture_spec()[i]).tier == 4),
        (exists|i: int| 0 <= i < fixture_spec().len() && (#[trigger] fixture_spec()[i]).tier == 5),
        (exists|i: int| 0 <= i < fixture_spec().len() && (#[trigger] fixture_spec()[i]).tier == 6),
{
    let f = fixture_spec();
    assert(f[0].tier == 1);
    assert(f[2].tier == 2);
    assert(f[4].tier == 3);
    assert(f[6].tier == 4);
    assert(f[7].tier == 5);
    assert(f[8].tier == 6);
}

/// The pool order: by tier, then by name in dictionary order; cards of
/// the same tier and name may stand either way round.
pub proof fn law_pool_order(a: CardView, b: CardView)
    ensures
        card_le(a, b) == (a.tier < b.tier || (a.tier == b.tier && (a.name == b.name || lex_lt(
            a.name,
            b.name,
        )))),
{
    lemma_lex_lt_total(a.name, b.name);
    lemma_lex_lt_irreflexive(a.name);
    if lex_lt(a.name, b.name) && lex_lt(b.name, a.name) {
        lemma_lex_lt_transitive(a.name, b.name, a.name);
    }
}

} // verus!
