//! Snapshots of the state for display: what the player's panels show. Not the
//! truth itself; bookkeeping stats and flags, secrets of others, and hidden
//! goals are left out before anything reaches the screen.
use vstd::prelude::*;

use crate::brief::{lemma_filter_map_step, shown_flag};
use crate::brief::is_present;
use crate::site::{normalize, unescape_newlines};
use crate::spine::{first_goal, present_spec, reached_spec, CharacterDef, GoalDef, Scenario, ScenarioError, ScenarioErrorModel};
use crate::text::{trim, trim_spec};
use crate::state::{GameState, PLAYER};
use crate::strmap::{ascending, item_views, last_value, seq_lt, str_eq, unique_views, StrMap, StrSet};
use crate::turn::{log_views, svs, TurnLog, TurnLogModel};

verus! {

broadcast use vstd::std_specs::vec::group_vec_axioms;

#[derive(Debug)]
pub struct StatView {
    pub key: String,
    pub value: i64,
}

#[derive(Debug)]
pub struct StatStrView {
    pub key: String,
    pub value: String,
}

/// One entity's panel: shown stats, skills, items, attributes and profile.
#[derive(Debug)]
pub struct EntityView {
    pub id: String,
    pub stats: Vec<StatView>,
    pub skills: Vec<String>,
    pub items: Vec<String>,
    pub attributes: Vec<StatStrView>,
    pub profile: String,
}

/// A flag set true: its key, display title, the turn it was set and what
/// happened that turn (from the chronicle).
#[derive(Debug)]
pub struct FlagView {
    pub key: String,
    pub title: String,
    pub turn: Option<u32>,
    pub cause: Option<String>,
}

#[derive(Debug)]
pub struct GoalView {
    pub id: String,
    pub title: String,
    pub hint: String,
}

#[derive(Debug)]
pub struct StateView {
    pub turn: u32,
    pub location: String,
    pub location_title: String,
    /// The protagonist's items.
    pub inventory: Vec<String>,
    pub flags: Vec<FlagView>,
    pub entities: Vec<EntityView>,
    pub goal_reached: bool,
    pub goals: Vec<GoalView>,
    pub reached_goal: Option<String>,
}

pub struct EntityModel {
    pub id: Seq<char>,
    pub stats: Seq<(Seq<char>, i64)>,
    pub skills: Seq<Seq<char>>,
    pub items: Seq<Seq<char>>,
    pub attributes: Seq<(Seq<char>, Seq<char>)>,
    pub profile: Seq<char>,
}

pub struct FlagModel {
    pub key: Seq<char>,
    pub title: Seq<char>,
    pub turn: Option<u32>,
    pub cause: Option<Seq<char>>,
}

pub open spec fn opt_str(o: Option<String>) -> Option<Seq<char>> {
    match o {
        Some(s) => Some(s@),
        None => None,
    }
}

impl View for EntityView {
    type V = EntityModel;

    open spec fn view(&self) -> EntityModel {
        EntityModel {
            id: self.id@,
            stats: self.stats@.map_values(|s: StatView| (s.key@, s.value)),
            skills: svs(self.skills@),
            items: svs(self.items@),
            attributes: self.attributes@.map_values(|s: StatStrView| (s.key@, s.value@)),
            profile: self.profile@,
        }
    }
}

impl View for FlagView {
    type V = FlagModel;

    open spec fn view(&self) -> FlagModel {
        FlagModel { key: self.key@, title: self.title@, turn: self.turn, cause: opt_str(self.cause) }
    }
}

// ---------------------------------------------------------------------------
// What is shown.
// ---------------------------------------------------------------------------

/// An entity's stats without the bookkeeping ones, in entry order.
pub open spec fn stats_of(sc: Scenario, st: GameState, id: Seq<char>) -> Seq<(Seq<char>, i64)> {
    match last_value(st.entities.entries@, id) {
        Some(m) => m.entries@.filter(|p: (String, i64)| !sc.hidden_stats@.contains(p.0@)).map_values(
            |p: (String, i64)| (p.0@, p.1),
        ),
        None => Seq::empty(),
    }
}

/// The members of an entity's set (skills or items), in order.
pub open spec fn set_of(es: Seq<(String, StrSet)>, id: Seq<char>) -> Seq<Seq<char>> {
    match last_value(es, id) {
        Some(s) => svs(s.items@),
        None => Seq::empty(),
    }
}

/// An attribute shown on an entity's panel: never a hidden one; a secret one
/// only on the protagonist's own panel.
pub open spec fn attr_shown(sc: Scenario, id: Seq<char>, k: Seq<char>) -> bool {
    !sc.hidden_attributes@.contains(k) && (id == PLAYER@ || !sc.secret_attributes@.contains(k))
}

pub open spec fn attrs_of(sc: Scenario, st: GameState, id: Seq<char>) -> Seq<(Seq<char>, Seq<char>)> {
    match last_value(st.attributes.entries@, id) {
        Some(a) => a.entries@.filter(|p: (String, String)| attr_shown(sc, id, p.0@)).map_values(
            |p: (String, String)| (p.0@, p.1@),
        ),
        None => Seq::empty(),
    }
}

/// The protagonist's profile, or the character's, or nothing.
pub open spec fn profile_of(sc: Scenario, id: Seq<char>) -> Seq<char> {
    if id == PLAYER@ {
        sc.protagonist.profile@
    } else if sc.characters@.contains_key(id) {
        sc.characters@[id].profile@
    } else {
        Seq::empty()
    }
}

pub open spec fn entity_view_spec(sc: Scenario, st: GameState, id: Seq<char>) -> EntityModel {
    EntityModel {
        id,
        stats: stats_of(sc, st, id),
        skills: set_of(st.skills.entries@, id),
        items: set_of(st.inventory.entries@, id),
        attributes: attrs_of(sc, st, id),
        profile: profile_of(sc, id),
    }
}

/// The entities with stats, skills, items or attributes.
pub open spec fn entity_ids(st: GameState) -> Set<Seq<char>> {
    st.entities@.dom().union(st.skills@.dom()).union(st.inventory@.dom()).union(st.attributes@.dom())
}

/// The summary of the first chronicle line of turn `n`.
pub open spec fn cause_of(h: Seq<TurnLogModel>, n: u32) -> Option<Seq<char>>
    decreases h.len(),
{
    if h.len() == 0 {
        None
    } else if h[0].turn == n {
        Some(h[0].summary)
    } else {
        cause_of(h.drop_first(), n)
    }
}

pub open spec fn flag_view_spec(sc: Scenario, st: GameState, h: Seq<TurnLogModel>, k: Seq<char>) -> FlagModel {
    let turn = if st.flag_turns@.contains_key(k) {
        Some(st.flag_turns@[k])
    } else {
        None
    };
    FlagModel {
        key: k,
        title: if sc.flag_titles@.contains_key(k) {
            sc.flag_titles@[k]
        } else {
            Seq::empty()
        },
        turn,
        cause: match turn {
            Some(n) => cause_of(h, n),
            None => None,
        },
    }
}

/// The flags set true and not bookkeeping, in entry order.
pub open spec fn flag_views_spec(sc: Scenario, st: GameState, h: Seq<TurnLogModel>) -> Seq<FlagModel> {
    st.flags.entries@.filter(|e: (String, bool)| shown_flag(sc, e)).map_values(
        |e: (String, bool)| flag_view_spec(sc, st, h, e.0@),
    )
}

/// A goal is listed when visible, or once it is the one reached.
pub open spec fn goal_listed(g: GoalDef, reached: Option<Seq<char>>) -> bool {
    g.visible || reached == Some(g.id@)
}

pub open spec fn goal_views_spec(sc: Scenario, st: GameState) -> Seq<(Seq<char>, Seq<char>, Seq<char>)> {
    let reached = reached_spec(sc, st@);
    sc.goals@.filter(|g: GoalDef| goal_listed(g, reached)).map_values(|g: GoalDef| (g.id@, g.title@, g.hint@))
}

// ---------------------------------------------------------------------------
// Building the views.
// ---------------------------------------------------------------------------

fn copy_items(s: &StrSet) -> (r: Vec<String>)
    ensures
        svs(r@) == svs(s.items@),
{
    let mut out: Vec<String> = Vec::new();
    let mut i: usize = 0;
    while i < s.items.len()
        invariant
            i <= s.items@.len(),
            svs(out@) =~= svs(s.items@).take(i as int),
        decreases s.items@.len() - i,
    {
        let ghost b = svs(out@);
        out.push(s.items[i].clone());
        assert(svs(out@) =~= b.push(s.items@[i as int]@));
        i = i + 1;
    }
    assert(svs(s.items@).take(i as int) =~= svs(s.items@));
    out
}

fn set_of_exec(m: &StrMap<StrSet>, id: &str) -> (r: Vec<String>)
    ensures
        svs(r@) == set_of(m.entries@, id@),
{
    match m.get_value(id) {
        Some(s) => copy_items(s),
        None => {
            let r: Vec<String> = Vec::new();
            assert(svs(r@) =~= Seq::<Seq<char>>::empty());
            r
        },
    }
}

fn stats_exec(sc: &Scenario, st: &GameState, id: &str) -> (r: Vec<StatView>)
    ensures
        r@.map_values(|s: StatView| (s.key@, s.value)) == stats_of(*sc, *st, id@),
{
    let mut out: Vec<StatView> = Vec::new();
    match st.entities.get_value(id) {
        Some(m) => {
            let ghost es = m.entries@;
            let ghost p = |q: (String, i64)| !sc.hidden_stats@.contains(q.0@);
            let ghost f = |q: (String, i64)| (q.0@, q.1);
            let mut i: usize = 0;
            while i < m.entries.len()
                invariant
                    i <= es.len(),
                    es == m.entries@,
                    p == (|q: (String, i64)| !sc.hidden_stats@.contains(q.0@)),
                    f == (|q: (String, i64)| (q.0@, q.1)),
                    out@.map_values(|s: StatView| (s.key@, s.value)) == es.take(i as int).filter(p).map_values(f),
                decreases es.len() - i,
            {
                proof {
                    lemma_filter_map_step(es, i as int, p, f);
                }
                let q = &m.entries[i];
                if !sc.hidden_stats.contains(q.0.as_str()) {
                    let ghost b = out@.map_values(|s: StatView| (s.key@, s.value));
                    out.push(StatView { key: q.0.clone(), value: q.1 });
                    assert(out@.map_values(|s: StatView| (s.key@, s.value)) =~= b.push(f(es[i as int])));
                }
                i = i + 1;
            }
            assert(es.take(i as int) =~= es);
        },
        None => {
            assert(out@.map_values(|s: StatView| (s.key@, s.value)) =~= Seq::<(Seq<char>, i64)>::empty());
        },
    }
    out
}

fn attrs_exec(sc: &Scenario, st: &GameState, id: &str) -> (r: Vec<StatStrView>)
    ensures
        r@.map_values(|s: StatStrView| (s.key@, s.value@)) == attrs_of(*sc, *st, id@),
{
    let mut out: Vec<StatStrView> = Vec::new();
    let is_player = str_eq(id, PLAYER);
    match st.attributes.get_value(id) {
        Some(a) => {
            let ghost es = a.entries@;
            let ghost p = |q: (String, String)| attr_shown(*sc, id@, q.0@);
            let ghost f = |q: (String, String)| (q.0@, q.1@);
            let mut i: usize = 0;
            while i < a.entries.len()
                invariant
                    i <= es.len(),
                    es == a.entries@,
                    is_player == (id@ == PLAYER@),
                    p == (|q: (String, String)| attr_shown(*sc, id@, q.0@)),
                    f == (|q: (String, String)| (q.0@, q.1@)),
                    out@.map_values(|s: StatStrView| (s.key@, s.value@)) == es.take(i as int).filter(p).map_values(f),
                decreases es.len() - i,
            {
                proof {
                    lemma_filter_map_step(es, i as int, p, f);
                }
                let q = &a.entries[i];
                if !sc.hidden_attributes.contains(q.0.as_str()) && (is_player || !sc.secret_attributes.contains(
                    q.0.as_str(),
                )) {
                    let ghost b = out@.map_values(|s: StatStrView| (s.key@, s.value@));
                    out.push(StatStrView { key: q.0.clone(), value: q.1.clone() });
                    assert(out@.map_values(|s: StatStrView| (s.key@, s.value@)) =~= b.push(f(es[i as int])));
                }
                i = i + 1;
            }
            assert(es.take(i as int) =~= es);
        },
        None => {
            assert(out@.map_values(|s: StatStrView| (s.key@, s.value@)) =~= Seq::<(Seq<char>, Seq<char>)>::empty());
        },
    }
    out
}

/// One entity's panel (see `entity_view_spec`).
pub fn entity_view(state: &GameState, scenario: &Scenario, id: &str) -> (r: EntityView)
    ensures
        r@ == entity_view_spec(*scenario, *state, id@),
{
    let profile = if str_eq(id, PLAYER) {
        scenario.protagonist.profile.clone()
    } else {
        match scenario.characters.get(id) {
            Some(c) => c.profile.clone(),
            None => String::new(),
        }
    };
    EntityView {
        id: String::from_str(id),
        stats: stats_exec(scenario, state, id),
        skills: set_of_exec(&state.skills, id),
        items: set_of_exec(&state.inventory, id),
        attributes: attrs_exec(scenario, state, id),
        profile,
    }
}

/// Some of the first `n` entries has the key `k`.
pub open spec fn key_before<V>(es: Seq<(String, V)>, n: int, k: Seq<char>) -> bool {
    exists|j: int| 0 <= j < n && #[trigger] es[j].0@ == k
}

fn add_keys<V: View>(ids: &mut StrSet, m: &StrMap<V>)
    requires
        unique_views(old(ids).items@),
        old(ids).sorted(),
    ensures
        final(ids)@ == old(ids)@.union(m@.dom()),
        unique_views(final(ids).items@),
        final(ids).sorted(),
{
    let ghost base = ids@;
    let ghost es = m.entries@;
    let mut i: usize = 0;
    assert(base.union(Set::new(|k: Seq<char>| key_before(es, 0, k))) =~= base);
    while i < m.entries.len()
        invariant
            i <= es.len(),
            es == m.entries@,
            ids@ == base.union(Set::new(|k: Seq<char>| key_before(es, i as int, k))),
            unique_views(ids.items@),
            ids.sorted(),
        decreases es.len() - i,
    {
        ids.insert(m.entries[i].0.clone());
        assert forall|k: Seq<char>| #[trigger] key_before(es, i + 1, k) == (key_before(es, i as int, k) || k
            == es[i as int].0@) by {
            if k == es[i as int].0@ {
                assert(es[i as int].0@ == k);
            }
            if key_before(es, i + 1, k) {
                let j = choose|j: int| 0 <= j < i + 1 && #[trigger] es[j].0@ == k;
                if j < i {
                    assert(key_before(es, i as int, k));
                }
            }
            if key_before(es, i as int, k) {
                let j = choose|j: int| 0 <= j < i && #[trigger] es[j].0@ == k;
                assert(key_before(es, i + 1, k));
            }
        }
        assert(ids@ =~= base.union(Set::new(|k: Seq<char>| key_before(es, i + 1, k))));
        i = i + 1;
    }
    assert forall|k: Seq<char>| #[trigger] m@.dom().contains(k) == key_before(es, es.len() as int, k) by {
        crate::strmap::lemma_pairs_view_dom(es, k);
    }
    assert(ids@ =~= base.union(m@.dom()));
}

/// The ids of every entity with stats, skills, items or attributes, each once.
pub fn entity_id_set(state: &GameState) -> (r: StrSet)
    ensures
        r@ == entity_ids(*state),
        unique_views(r.items@),
        r.sorted(),
{
    let mut ids = StrSet::new();
    assert(unique_views(ids.items@));
    add_keys(&mut ids, &state.entities);
    add_keys(&mut ids, &state.skills);
    add_keys(&mut ids, &state.inventory);
    add_keys(&mut ids, &state.attributes);
    ids
}

fn cause_exec(history: &[TurnLog], n: u32) -> (r: Option<String>)
    ensures
        opt_str(r) == cause_of(log_views(history@), n),
{
    let ghost h = log_views(history@);
    let mut i: usize = 0;
    assert(h.skip(0) =~= h);
    while i < history.len()
        invariant
            i <= history@.len(),
            h == log_views(history@),
            cause_of(h, n) == cause_of(h.skip(i as int), n),
        decreases history@.len() - i,
    {
        assert(h.skip(i as int)[0] == history@[i as int]@);
        assert(h.skip(i as int).drop_first() =~= h.skip(i + 1));
        if history[i].turn == n {
            return Some(history[i].summary.clone());
        }
        i = i + 1;
    }
    assert(h.skip(i as int) =~= Seq::<TurnLogModel>::empty());
    None
}

/// The flags set true and shown, with titles and causes (see `flag_views_spec`).
pub fn flag_views(state: &GameState, scenario: &Scenario, history: &[TurnLog]) -> (r: Vec<FlagView>)
    ensures
        r@.map_values(|f: FlagView| f@) == flag_views_spec(*scenario, *state, log_views(history@)),
{
    let ghost es = state.flags.entries@;
    let ghost h = log_views(history@);
    let ghost p = |e: (String, bool)| shown_flag(*scenario, e);
    let ghost f = |e: (String, bool)| flag_view_spec(*scenario, *state, h, e.0@);
    let mut out: Vec<FlagView> = Vec::new();
    let mut i: usize = 0;
    while i < state.flags.entries.len()
        invariant
            i <= es.len(),
            es == state.flags.entries@,
            h == log_views(history@),
            p == (|e: (String, bool)| shown_flag(*scenario, e)),
            f == (|e: (String, bool)| flag_view_spec(*scenario, *state, h, e.0@)),
            out@.map_values(|v: FlagView| v@) == es.take(i as int).filter(p).map_values(f),
        decreases es.len() - i,
    {
        proof {
            lemma_filter_map_step(es, i as int, p, f);
        }
        let e = &state.flags.entries[i];
        if e.1 && !scenario.hidden_flags.contains(e.0.as_str()) {
            let turn = match state.flag_turns.get(e.0.as_str()) {
                Some(n) => Some(*n),
                None => None,
            };
            let cause = match turn {
                Some(n) => cause_exec(history, n),
                None => None,
            };
            let title = match scenario.flag_titles.get(e.0.as_str()) {
                Some(t) => t.clone(),
                None => String::new(),
            };
            let v = FlagView { key: e.0.clone(), title, turn, cause };
            assert(v@ == f(es[i as int]));
            let ghost b = out@.map_values(|v: FlagView| v@);
            out.push(v);
            assert(out@.map_values(|v: FlagView| v@) =~= b.push(f(es[i as int])));
        }
        i = i + 1;
    }
    assert(es.take(i as int) =~= es);
    out
}

/// The goals listed to the player: visible ones, and a hidden one once reached.
pub fn goal_views(state: &GameState, scenario: &Scenario) -> (r: Vec<GoalView>)
    ensures
        r@.map_values(|g: GoalView| (g.id@, g.title@, g.hint@)) == goal_views_spec(*scenario, *state),
{
    let reached = scenario.reached(state);
    let ghost rv = reached_spec(*scenario, state@);
    let ghost es = scenario.goals@;
    let ghost p = |g: GoalDef| goal_listed(g, rv);
    let ghost f = |g: GoalDef| (g.id@, g.title@, g.hint@);
    let mut out: Vec<GoalView> = Vec::new();
    let mut i: usize = 0;
    while i < scenario.goals.len()
        invariant
            i <= es.len(),
            es == scenario.goals@,
            rv == reached_spec(*scenario, state@),
            match reached {
                Some(id) => rv == Some(id@),
                None => rv is None,
            },
            p == (|g: GoalDef| goal_listed(g, rv)),
            f == (|g: GoalDef| (g.id@, g.title@, g.hint@)),
            out@.map_values(|g: GoalView| (g.id@, g.title@, g.hint@)) == es.take(i as int).filter(p).map_values(f),
        decreases es.len() - i,
    {
        proof {
            lemma_filter_map_step(es, i as int, p, f);
        }
        let g = &scenario.goals[i];
        let hit = match &reached {
            Some(id) => str_eq(id.as_str(), g.id.as_str()),
            None => false,
        };
        if g.visible || hit {
            let ghost b = out@.map_values(|g: GoalView| (g.id@, g.title@, g.hint@));
            out.push(GoalView { id: g.id.clone(), title: g.title.clone(), hint: g.hint.clone() });
            assert(out@.map_values(|g: GoalView| (g.id@, g.title@, g.hint@)) =~= b.push(f(es[i as int])));
        }
        i = i + 1;
    }
    assert(es.take(i as int) =~= es);
    out
}

/// The whole panel: turn, place and its title, the protagonist's items, the
/// flags, every entity's panel (each id of `entity_ids` once), whether and
/// which goal is reached, and the listed goals.
pub fn state_view(state: &GameState, scenario: &Scenario, history: &[TurnLog]) -> (r: StateView)
    ensures
        r.turn == state.turn,
        r.location@ == state.location@,
        r.location_title@ == if scenario.locations@.contains_key(state.location@) {
            scenario.locations@[state.location@].title@
        } else {
            Seq::<char>::empty()
        },
        svs(r.inventory@) == set_of(state.inventory.entries@, PLAYER@),
        r.flags@.map_values(|f: FlagView| f@) == flag_views_spec(*scenario, *state, log_views(history@)),
        forall|i: int| 0 <= i < r.entities@.len() ==> #[trigger] r.entities@[i]@ == entity_view_spec(
            *scenario,
            *state,
            r.entities@[i].id@,
        ),
        forall|i: int, j: int| 0 <= i < j < r.entities@.len() ==> seq_lt(#[trigger] r.entities@[i].id@, #[trigger] r.entities@[j].id@),
        forall|k: Seq<char>| entity_ids(*state).contains(k) <==> exists|i: int| 0 <= i < r.entities@.len() && #[trigger] r.entities@[i].id@ == k,
        r.goal_reached == (reached_spec(*scenario, state@) is Some),
        r.goals@.map_values(|g: GoalView| (g.id@, g.title@, g.hint@)) == goal_views_spec(*scenario, *state),
        opt_str(r.reached_goal) == reached_spec(*scenario, state@),
{
    let ids = entity_id_set(state);
    let ghost items = ids.items@;
    let mut entities: Vec<EntityView> = Vec::new();
    let mut i: usize = 0;
    while i < ids.items.len()
        invariant
            i <= items.len(),
            items == ids.items@,
            ids@ == entity_ids(*state),
            unique_views(items),
            ascending(item_views(items)),
            entities@.len() == i,
            forall|j: int| 0 <= j < i ==> #[trigger] entities@[j]@ == entity_view_spec(*scenario, *state, entities@[j].id@),
            forall|j: int| 0 <= j < i ==> #[trigger] entities@[j].id@ == items[j]@,
        decreases items.len() - i,
    {
        let v = entity_view(state, scenario, ids.items[i].as_str());
        entities.push(v);
        i = i + 1;
    }
    let location_title = match scenario.location(state.location.as_str()) {
        Some(l) => l.title.clone(),
        None => String::new(),
    };
    let reached = scenario.reached(state);
    let r = StateView {
        turn: state.turn,
        location: state.location.clone(),
        location_title,
        inventory: set_of_exec(&state.inventory, PLAYER),
        flags: flag_views(state, scenario, history),
        entities,
        goal_reached: reached.is_some(),
        goals: goal_views(state, scenario),
        reached_goal: reached,
    };
    proof {
        assert forall|a: int, b: int| 0 <= a < b < r.entities@.len() implies seq_lt(#[trigger] r.entities@[a].id@, #[trigger] r.entities@[b].id@) by {
            assert(item_views(items)[a] == items[a]@ && item_views(items)[b] == items[b]@);
        }
        assert forall|k: Seq<char>| entity_ids(*state).contains(k) <==> exists|i: int| 0 <= i < r.entities@.len() && #[trigger] r.entities@[i].id@ == k by {
            if entity_ids(*state).contains(k) {
                assert(crate::strmap::has_view(items, k));
                let j = choose|j: int| 0 <= j < items.len() && #[trigger] items[j]@ == k;
                assert(r.entities@[j].id@ == k);
            }
            if exists|i: int| 0 <= i < r.entities@.len() && #[trigger] r.entities@[i].id@ == k {
                let i = choose|i: int| 0 <= i < r.entities@.len() && #[trigger] r.entities@[i].id@ == k;
                assert(items[i]@ == k);
                assert(crate::strmap::has_view(items, k));
            }
        }
    }
    r
}


// ---------------------------------------------------------------------------
// The reached ending, the faces on screen, the author's warnings.
// ---------------------------------------------------------------------------

/// The reached named goal for display: its id, its title (when not blank)
/// and its ending narration with escaped line breaks turned into real ones
/// (when not blank); nothing when no named goal is reached.
pub open spec fn goal_view_spec(sc: Scenario, st: GameState) -> (Option<Seq<char>>, Option<Seq<char>>, Option<Seq<char>>) {
    match first_goal(sc.goals@, st@) {
        Some(i) => {
            let g = sc.goals@[i];
            (
                Some(g.id@),
                if trim_spec(g.title@).len() > 0 {
                    Some(g.title@)
                } else {
                    None
                },
                if trim_spec(g.narration@).len() > 0 {
                    Some(unescape_newlines(g.narration@))
                } else {
                    None
                },
            )
        },
        None => (None, None, None),
    }
}

pub fn goal_view(state: &GameState, scenario: &Scenario) -> (r: (Option<String>, Option<String>, Option<String>))
    ensures
        (opt_str(r.0), opt_str(r.1), opt_str(r.2)) == goal_view_spec(*scenario, *state),
{
    match scenario.reached_goal(state) {
        Some(g) => {
            let t = trim(g.title.as_str());
            let n = trim(g.narration.as_str());
            let title = if t.unicode_len() > 0 {
                Some(g.title.clone())
            } else {
                None
            };
            let narration = if n.unicode_len() > 0 {
                Some(normalize(g.narration.as_str()))
            } else {
                None
            };
            (Some(g.id.clone()), title, narration)
        },
        None => (None, None, None),
    }
}

/// One face on screen: id, display name and icon asset id.
#[derive(Debug)]
pub struct CharacterView {
    pub id: String,
    pub name: String,
    pub icon: Option<String>,
}

/// The faces on screen: the protagonist first (named, or `あなた`), then the
/// characters present, in the scenario's order (named, or by id).
pub open spec fn present_characters_spec(sc: Scenario, st: GameState) -> Seq<(Seq<char>, Seq<char>, Option<Seq<char>>)> {
    seq![(
        PLAYER@,
        if trim_spec(sc.protagonist.name@).len() == 0 {
            "あなた"@
        } else {
            sc.protagonist.name@
        },
        opt_str(sc.protagonist.icon),
    )] + sc.characters.entries@.filter(|e: (String, CharacterDef)| is_present(sc, st, e)).map_values(
        |e: (String, CharacterDef)| (e.0@, if e.1.name@.len() == 0 {
            e.0@
        } else {
            e.1.name@
        }, opt_str(e.1.icon)),
    )
}

pub open spec fn face(c: CharacterView) -> (Seq<char>, Seq<char>, Option<Seq<char>>) {
    (c.id@, c.name@, opt_str(c.icon))
}

pub fn present_characters(scenario: &Scenario, state: &GameState) -> (r: Vec<CharacterView>)
    ensures
        r@.map_values(|c: CharacterView| face(c)) == present_characters_spec(*scenario, *state),
{
    let present = scenario.present_at(state);
    let name = if trim(scenario.protagonist.name.as_str()).unicode_len() == 0 {
        String::from_str("あなた")
    } else {
        scenario.protagonist.name.clone()
    };
    let icon = match &scenario.protagonist.icon {
        Some(i) => Some(i.clone()),
        None => None,
    };
    let mut out: Vec<CharacterView> = Vec::new();
    out.push(CharacterView { id: String::from_str(PLAYER), name, icon });
    let ghost head = out@.map_values(|c: CharacterView| face(c));
    let ghost es = scenario.characters.entries@;
    let ghost p = |e: (String, CharacterDef)| is_present(*scenario, *state, e);
    let ghost f = |e: (String, CharacterDef)| (e.0@, if e.1.name@.len() == 0 {
        e.0@
    } else {
        e.1.name@
    }, opt_str(e.1.icon));
    let mut i: usize = 0;
    while i < scenario.characters.entries.len()
        invariant
            i <= es.len(),
            es == scenario.characters.entries@,
            present@ == present_spec(*scenario, state@),
            p == (|e: (String, CharacterDef)| is_present(*scenario, *state, e)),
            f == (|e: (String, CharacterDef)| (e.0@, if e.1.name@.len() == 0 {
                e.0@
            } else {
                e.1.name@
            }, opt_str(e.1.icon))),
            out@.map_values(|c: CharacterView| face(c)) == head + es.take(i as int).filter(p).map_values(f),
        decreases es.len() - i,
    {
        proof {
            lemma_filter_map_step(es, i as int, p, f);
        }
        let e = &scenario.characters.entries[i];
        if present.contains(e.0.as_str()) {
            let nm = if e.1.name.unicode_len() == 0 {
                e.0.clone()
            } else {
                e.1.name.clone()
            };
            let ic = match &e.1.icon {
                Some(x) => Some(x.clone()),
                None => None,
            };
            let ghost b = out@.map_values(|c: CharacterView| face(c));
            out.push(CharacterView { id: e.0.clone(), name: nm, icon: ic });
            assert(out@.map_values(|c: CharacterView| face(c)) =~= b.push(f(es[i as int])));
        }
        i = i + 1;
    }
    assert(es.take(i as int) =~= es);
    assert(head =~= seq![(PLAYER@, if trim_spec(scenario.protagonist.name@).len() == 0 {
        "あなた"@
    } else {
        scenario.protagonist.name@
    }, opt_str(scenario.protagonist.icon))]);
    out
}

/// The author-facing text of a lint that has a worded explanation (a hint on a
/// flag only authored effects set); none for the others.
pub open spec fn lint_message_spec(e: ScenarioErrorModel) -> Option<Seq<char>> {
    match e {
        ScenarioErrorModel::FlagHintOnAuthoredOnly { flag } => Some(
            "フラグ「"@ + flag + "」の flag_hint は GM に届きません（トリガー/challenge が立てる専権フラグのため）。GM に立てさせるならトリガー/challenge 側の set_flag を外し、筋書きで立てるならヒントを外してください"@,
        ),
        _ => None,
    }
}

pub fn lint_message(e: &ScenarioError) -> (r: Option<String>)
    ensures
        opt_str(r) == lint_message_spec(e@),
{
    match e {
        ScenarioError::FlagHintOnAuthoredOnly { flag } => {
            let mut s = String::from_str("フラグ「");
            s.append(flag.as_str());
            s.append("」の flag_hint は GM に届きません（トリガー/challenge が立てる専権フラグのため）。GM に立てさせるならトリガー/challenge 側の set_flag を外し、筋書きで立てるならヒントを外してください");
            Some(s)
        },
        _ => None,
    }
}
} // verus!
