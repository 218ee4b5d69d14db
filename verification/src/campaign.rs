//! Campaigns: the authored map of modules. Reaching an ending picks an edge,
//! the edge names the next module, and the state is carried over by the
//! scenario's transition. The map and the ending alone decide; no narrator.
use vstd::prelude::*;

use crate::spine::{reached_spec, roles_fit, transition_spec, Scenario};
use crate::state::{GameState, StateModel};
use crate::strmap::{str_eq, StrMap};

verus! {

broadcast use vstd::std_specs::vec::group_vec_axioms;

/// One edge: reaching `on_goal` in module `from` leads to module `to`.
#[derive(Debug)]
pub struct CampaignEdge {
    pub from: String,
    pub on_goal: String,
    pub to: String,
}

/// The authored topology of modules.
#[derive(Debug)]
pub struct Campaign {
    /// Display only.
    pub title: String,
    /// The starting module.
    pub start: String,
    /// Module id to scenario file path (relative to the package root).
    pub modules: StrMap<String>,
    /// The edges, matched in authored order.
    pub edges: Vec<CampaignEdge>,
}

/// The index of the first edge from `from` on `goal`.
pub open spec fn first_edge(edges: Seq<CampaignEdge>, from: Seq<char>, goal: Seq<char>, i: int) -> Option<int>
    decreases edges.len() - i,
{
    if i < 0 || i >= edges.len() {
        None
    } else if edges[i].from@ == from && edges[i].on_goal@ == goal {
        Some(i)
    } else {
        first_edge(edges, from, goal, i + 1)
    }
}

/// The module the first matching edge leads to; none for a terminal ending.
pub open spec fn next_spec(c: Campaign, from: Seq<char>, goal: Seq<char>) -> Option<Seq<char>> {
    match first_edge(c.edges@, from, goal, 0) {
        Some(i) => Some(c.edges@[i].to@),
        None => None,
    }
}

proof fn lemma_first_edge(edges: Seq<CampaignEdge>, from: Seq<char>, goal: Seq<char>, i: int)
    requires
        0 <= i,
    ensures
        first_edge(edges, from, goal, i) matches Some(k) ==> i <= k < edges.len(),
    decreases edges.len() - i,
{
    if i < edges.len() && !(edges[i].from@ == from && edges[i].on_goal@ == goal) {
        lemma_first_edge(edges, from, goal, i + 1);
    }
}

impl Campaign {
    /// The next module for `(from, goal)`: the first edge in authored order.
    pub fn next(&self, from: &str, goal: &str) -> (r: Option<&String>)
        ensures
            match r {
                Some(to) => next_spec(*self, from@, goal@) == Some(to@),
                None => next_spec(*self, from@, goal@) is None,
            },
    {
        let mut i: usize = 0;
        while i < self.edges.len()
            invariant
                i <= self.edges@.len(),
                first_edge(self.edges@, from@, goal@, 0) == first_edge(self.edges@, from@, goal@, i as int),
            decreases self.edges@.len() - i,
        {
            let e = &self.edges[i];
            if str_eq(e.from.as_str(), from) && str_eq(e.on_goal.as_str(), goal) {
                return Some(&e.to);
            }
            i = i + 1;
        }
        None
    }

    /// The scenario file of a module.
    pub fn module_file(&self, id: &str) -> (r: Option<&str>)
        ensures
            match r {
                Some(p) => self.modules@.contains_key(id@) && self.modules@[id@] == p@,
                None => !self.modules@.contains_key(id@),
            },
    {
        match self.modules.get(id) {
            Some(p) => Some(p.as_str()),
            None => None,
        }
    }
}

/// Where a campaign goes from the current module: nowhere before an ending is
/// reached, nowhere from a terminal ending, else the module of the first edge.
pub open spec fn advance_target_spec(c: Campaign, current: Seq<char>, sc: Scenario, m: StateModel) -> Option<
    Seq<char>,
> {
    match reached_spec(sc, m) {
        None => None,
        Some(goal) => next_spec(c, current, goal),
    }
}

/// The module to advance to (see `advance_target_spec`). Loading it is the
/// caller's part; `advance_into` then carries the state over.
pub fn advance_target(campaign: &Campaign, current_module: &str, scenario: &Scenario, state: &GameState) -> (r:
    Option<String>)
    ensures
        match r {
            Some(id) => advance_target_spec(*campaign, current_module@, *scenario, state@) == Some(id@),
            None => advance_target_spec(*campaign, current_module@, *scenario, state@) is None,
        },
{
    let goal = match scenario.reached(state) {
        Some(g) => g,
        None => return None,
    };
    match campaign.next(current_module, goal.as_str()) {
        Some(to) => Some(to.clone()),
        None => None,
    }
}

/// The result of an advance: the next module, its scenario, and the state
/// carried over into it.
#[derive(Debug)]
pub struct Advance {
    pub module_id: String,
    pub scenario: Scenario,
    pub state: GameState,
}

/// Enters the next module: its scenario, with the previous state threaded
/// through `transition` (stats, items, skills, world flags carried; local
/// flags and fired beats left behind).
pub fn advance_into(module_id: String, next: Scenario, prev_scenario: &Scenario, prev_state: &GameState) -> (r:
    Advance)
    requires
        roles_fit(next),
    ensures
        r.module_id@ == module_id@,
        r.scenario == next,
        r.state@ == transition_spec(next, prev_state@, *prev_scenario),
        prev_state.keys_sorted() ==> r.state.keys_sorted(),
{
    let state = next.transition(prev_state, prev_scenario);
    Advance { module_id, scenario: next, state }
}

/// What an accepted turn leads to: play on, the end of the game, or the next
/// module of a campaign.
#[derive(Debug)]
pub enum AfterTurn {
    /// No ending is reached.
    Continue,
    /// An ending of a single scenario, or an ending of a campaign module with
    /// no edge out of it: the game is over.
    Finished { goal: String },
    /// An ending with an edge: the campaign moves to `next`.
    Advance { goal: String, next: String },
}

pub enum AfterModel {
    Continue,
    Finished { goal: Seq<char> },
    Advance { goal: Seq<char>, next: Seq<char> },
}

impl View for AfterTurn {
    type V = AfterModel;

    open spec fn view(&self) -> AfterModel {
        match self {
            AfterTurn::Continue => AfterModel::Continue,
            AfterTurn::Finished { goal } => AfterModel::Finished { goal: goal@ },
            AfterTurn::Advance { goal, next } => AfterModel::Advance { goal: goal@, next: next@ },
        }
    }
}

/// The decision after an accepted turn, from the ending reached (if any), the
/// campaign map (if the game is a campaign) and the current module.
pub open spec fn after_turn_spec(sc: Scenario, m: StateModel, campaign: Option<Campaign>, current: Seq<char>) -> AfterModel {
    match reached_spec(sc, m) {
        None => AfterModel::Continue,
        Some(goal) => match campaign {
            None => AfterModel::Finished { goal },
            Some(c) => match next_spec(c, current, goal) {
                Some(next) => AfterModel::Advance { goal, next },
                None => AfterModel::Finished { goal },
            },
        },
    }
}

pub fn after_turn(scenario: &Scenario, state: &GameState, campaign: Option<&Campaign>, current_module: &str) -> (r:
    AfterTurn)
    ensures
        r@ == after_turn_spec(
            *scenario,
            state@,
            match campaign {
                Some(c) => Some(*c),
                None => None,
            },
            current_module@,
        ),
{
    let goal = match scenario.reached(state) {
        Some(g) => g,
        None => return AfterTurn::Continue,
    };
    match campaign {
        None => AfterTurn::Finished { goal },
        Some(c) => match c.next(current_module, goal.as_str()) {
            Some(to) => AfterTurn::Advance { goal, next: to.clone() },
            None => AfterTurn::Finished { goal },
        },
    }
}

} // verus!
