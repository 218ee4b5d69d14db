//! The scenario spine: places, gates, characters, triggers and challenges that
//! keep improvised play on the authored track.
use vstd::prelude::*;

use crate::gate::{gate_holds, Gate, GateModel};
use crate::state::{
    attribute_spec, nested_put, new_state_spec, roll_spec, next_cursor, set_add, stat_spec, GameState, RngState, StateModel, StateOp, PLAYER,
};
use crate::strmap::{maps_sorted, sets_sorted, has_view, pairs_view, str_eq, Dup, StrMap, StrSet};

verus! {

broadcast use vstd::std_specs::vec::group_vec_axioms;

/// An exit from a location, open when its gate holds.
#[derive(Debug)]
pub struct Exit {
    pub to: String,
    pub gate: Gate,
}

/// How an item at a location can be taken.
#[derive(Clone, Copy, PartialEq, Eq, Structural, Debug)]
pub enum TakeMode {
    /// Once: taking it removes it from the place for good.
    Once,
    /// Any number of times (it stays).
    Infinite,
    /// Fixed in place: it can be used there but never taken.
    Fixed,
}

/// An item placed at a location: the old form is a bare gate (take once), the
/// new form a gate plus a take mode.
#[derive(Debug)]
pub enum LocationItem {
    Legacy(Gate),
    Def { when: Gate, take: TakeMode },
}

impl LocationItem {
    pub open spec fn when_spec(&self) -> Gate {
        match self {
            LocationItem::Legacy(g) => *g,
            LocationItem::Def { when, .. } => *when,
        }
    }

    pub open spec fn take_spec(&self) -> TakeMode {
        match self {
            LocationItem::Legacy(_) => TakeMode::Once,
            LocationItem::Def { take, .. } => *take,
        }
    }

    /// The condition that must hold to take the item.
    pub fn when(&self) -> (g: &Gate)
        ensures
            *g == self.when_spec(),
    {
        match self {
            LocationItem::Legacy(g) => g,
            LocationItem::Def { when, .. } => when,
        }
    }

    /// The take mode (the old form is once).
    pub fn take(&self) -> (t: TakeMode)
        ensures
            t == self.take_spec(),
    {
        match self {
            LocationItem::Legacy(_) => TakeMode::Once,
            LocationItem::Def { take, .. } => *take,
        }
    }
}

#[derive(Debug)]
pub struct Location {
    /// Display name (empty: the presentation falls back to the id).
    pub title: String,
    pub description: String,
    /// Background image asset id (opaque to the engine).
    pub image: Option<String>,
    /// Looping music asset id (opaque to the engine).
    pub bgm: Option<String>,
    /// Characters present here (explicit; empty means nobody).
    pub present: StrSet,
    pub items: StrMap<LocationItem>,
    pub exits: Vec<Exit>,
}

/// A stat declaration: initial value and clamp bounds (`max` absent: unbounded).
#[derive(Clone, Copy, PartialEq, Eq, Structural, Debug)]
pub struct StatDecl {
    pub initial: i64,
    pub min: i64,
    pub max: Option<i64>,
}

/// A character: authored, unchanging content plus the declaration of its mutable state.
#[derive(Debug)]
pub struct CharacterDef {
    pub name: String,
    pub profile: String,
    pub stats: StrMap<StatDecl>,
    pub skills: StrSet,
    pub inventory: StrSet,
    pub icon: Option<String>,
    pub attributes: StrMap<String>,
    /// Hard taboos: a delta that makes one of these turn true is rejected.
    pub taboos: Vec<Gate>,
}

/// How an event picture is shown.
#[derive(Clone, Copy, PartialEq, Eq, Structural, Debug)]
pub enum ImageMode {
    Background,
    Overlay,
}

/// A reactive beat: when `when` becomes true after a delta is applied, its
/// authored `effects` are applied and its narration surfaced.
#[derive(Debug)]
pub struct Trigger {
    pub id: String,
    pub when: Gate,
    pub effects: Vec<StateOp>,
    pub narration: String,
    /// A cue handed through to the memory layer (never interpreted here).
    pub recall: Option<String>,
    pub image: Option<String>,
    pub image_mode: Option<ImageMode>,
    pub sound: Option<String>,
    /// A repeatable trigger does not latch: it may fire again in a later apply,
    /// but at most once within one apply.
    pub repeatable: bool,
}

/// Which natural (unmodified) die face selects a tier.
#[derive(Clone, Copy, PartialEq, Eq, Structural, Debug)]
pub enum Natural {
    /// The face 1.
    Min,
    /// The face `sides`.
    Max,
    /// A face at most `threshold`.
    AtMost,
    /// A face at least `threshold`.
    AtLeast,
}

/// An authored extreme outcome of a challenge (fumble, critical, ...).
#[derive(Debug)]
pub struct TierDef {
    pub natural: Natural,
    pub threshold: Option<u32>,
    pub effects: Vec<StateOp>,
    pub flag: Option<String>,
    pub narration: String,
    pub sound: String,
}

/// The authored consequence of an ordinary success or failure.
#[derive(Debug)]
pub struct ChallengeOutcome {
    pub flag: Option<String>,
    pub effects: Vec<StateOp>,
    pub narration: String,
    pub sound: String,
}

/// A conditional modifier: `bonus` is added when `when` holds.
#[derive(Debug)]
pub struct ChallengeMod {
    pub when: Gate,
    pub bonus: i64,
}

/// An authored challenge: the narrator only chooses it; stat, die, difficulty
/// and consequences are all authored.
#[derive(Debug)]
pub struct ChallengeDef {
    pub description: String,
    /// When set, the check is made for this entity whatever the op says.
    pub entity: Option<String>,
    pub requires: Option<Gate>,
    pub modifiers: Vec<ChallengeMod>,
    pub stat: Option<String>,
    pub sides: u32,
    pub dc: u32,
    pub on_success: Option<ChallengeOutcome>,
    pub on_failure: Option<ChallengeOutcome>,
    pub tiers: StrMap<TierDef>,
}

/// Random role assignment at game start (a hidden-role board). The engine
/// deals the roles from the seed alone, without drawing on the game's dice.
/// The declaration also declares its attribute key (its values are the pool's
/// roles), so triggers and challenges may set that key.
#[derive(Debug)]
pub struct RoleAssignment {
    pub key: String,
    pub pool: StrMap<u32>,
    pub among: Vec<String>,
}

/// An attribute equality requirement (`attributes[key] == value`).
#[derive(Debug)]
pub struct AttrRequirement {
    pub key: String,
    pub value: String,
}

/// A voting-right declaration.
#[derive(Debug)]
pub struct VoteRule {
    pub when: Gate,
    pub voter_attribute: Option<AttrRequirement>,
}

/// A named goal (ending).
#[derive(Debug)]
pub struct GoalDef {
    pub id: String,
    pub when: Gate,
    pub title: String,
    /// A hidden goal is not listed until reached.
    pub visible: bool,
    pub hint: String,
    pub narration: String,
}

/// The protagonist's narrative setting.
#[derive(Debug)]
pub struct Protagonist {
    pub name: String,
    pub profile: String,
    pub icon: Option<String>,
}

/// A whole scenario.
#[derive(Debug)]
pub struct Scenario {
    pub title: String,
    pub world: String,
    pub protagonist: Protagonist,
    pub start: String,
    pub allowed_flags: StrSet,
    /// Flags carried across a transition to the next module.
    pub global_flags: StrSet,
    /// Flags remembered for this module when it is revisited.
    pub persistent_flags: StrSet,
    /// The condition that must hold to set a flag true (absent: always).
    pub flag_rules: StrMap<Gate>,
    pub flag_hints: StrMap<String>,
    pub flag_titles: StrMap<String>,
    pub hidden_flags: StrSet,
    pub role_assignment: Option<RoleAssignment>,
    pub secret_attributes: StrSet,
    pub hidden_attributes: StrSet,
    pub vote_rules: Vec<VoteRule>,
    /// The protagonist's stats (min 0, no max).
    pub initial_stats: StrMap<i64>,
    pub hidden_stats: StrSet,
    pub initial_skills: StrSet,
    pub initial_inventory: StrSet,
    pub initial_attributes: StrMap<String>,
    pub cast: StrSet,
    pub characters: StrMap<CharacterDef>,
    pub triggers: Vec<Trigger>,
    pub challenges: StrMap<ChallengeDef>,
    pub locations: StrMap<Location>,
    /// A single unnamed goal.
    pub goal: Option<Gate>,
    /// Named goals in authored order (take precedence over `goal`).
    pub goals: Vec<GoalDef>,
}

impl View for Location {
    type V = Location;

    open spec fn view(&self) -> Location {
        *self
    }
}

impl View for LocationItem {
    type V = LocationItem;

    open spec fn view(&self) -> LocationItem {
        *self
    }
}

impl View for StatDecl {
    type V = StatDecl;

    open spec fn view(&self) -> StatDecl {
        *self
    }
}

impl View for CharacterDef {
    type V = CharacterDef;

    open spec fn view(&self) -> CharacterDef {
        *self
    }
}

impl View for TierDef {
    type V = TierDef;

    open spec fn view(&self) -> TierDef {
        *self
    }
}

impl View for ChallengeDef {
    type V = ChallengeDef;

    open spec fn view(&self) -> ChallengeDef {
        *self
    }
}

/// A static consistency violation of a scenario.
#[derive(Debug)]
pub enum ScenarioError {
    ChallengeFlagUndeclared { challenge: String, tier: String, flag: String },
    GlobalFlagUndeclared { flag: String },
    PersistentFlagUndeclared { flag: String },
    FlagHintUndeclared { flag: String },
    /// A hint on a flag that only authored effects set (a lint, not fatal).
    FlagHintOnAuthoredOnly { flag: String },
    FlagTitleUndeclared { flag: String },
    HiddenFlagUndeclared { flag: String },
    AttributeKeyUndeclared { trigger: String, entity: String, key: String },
    SecretAttributeUndeclared { key: String },
    HiddenAttributeUndeclared { key: String },
    VoteRuleAttributeUndeclared { key: String },
    ChallengeEffectRecursive { challenge: String },
    ChallengeStatUndeclared { challenge: String, entity: String, stat: String },
    TierThresholdOutOfRange { challenge: String, tier: String, threshold: u32, sides: u32 },
    RoleAssignmentCountMismatch { pool_total: u32, among: usize },
    RoleAssignmentUnknownEntity { entity: String },
    RoleAssignmentDuplicateEntity { entity: String },
    NoGoal,
}

/// The meaning of a scenario error.
pub enum ScenarioErrorModel {
    ChallengeFlagUndeclared { challenge: Seq<char>, tier: Seq<char>, flag: Seq<char> },
    GlobalFlagUndeclared { flag: Seq<char> },
    PersistentFlagUndeclared { flag: Seq<char> },
    FlagHintUndeclared { flag: Seq<char> },
    FlagHintOnAuthoredOnly { flag: Seq<char> },
    FlagTitleUndeclared { flag: Seq<char> },
    HiddenFlagUndeclared { flag: Seq<char> },
    AttributeKeyUndeclared { trigger: Seq<char>, entity: Seq<char>, key: Seq<char> },
    SecretAttributeUndeclared { key: Seq<char> },
    HiddenAttributeUndeclared { key: Seq<char> },
    VoteRuleAttributeUndeclared { key: Seq<char> },
    ChallengeEffectRecursive { challenge: Seq<char> },
    ChallengeStatUndeclared { challenge: Seq<char>, entity: Seq<char>, stat: Seq<char> },
    TierThresholdOutOfRange { challenge: Seq<char>, tier: Seq<char>, threshold: u32, sides: u32 },
    RoleAssignmentCountMismatch { pool_total: u32, among: usize },
    RoleAssignmentUnknownEntity { entity: Seq<char> },
    RoleAssignmentDuplicateEntity { entity: Seq<char> },
    NoGoal,
}

impl View for ScenarioError {
    type V = ScenarioErrorModel;

    open spec fn view(&self) -> ScenarioErrorModel {
        match self {
            ScenarioError::ChallengeFlagUndeclared { challenge, tier, flag } => ScenarioErrorModel::ChallengeFlagUndeclared {
                challenge: challenge@,
                tier: tier@,
                flag: flag@,
            },
            ScenarioError::GlobalFlagUndeclared { flag } => ScenarioErrorModel::GlobalFlagUndeclared { flag: flag@ },
            ScenarioError::PersistentFlagUndeclared { flag } => ScenarioErrorModel::PersistentFlagUndeclared { flag: flag@ },
            ScenarioError::FlagHintUndeclared { flag } => ScenarioErrorModel::FlagHintUndeclared { flag: flag@ },
            ScenarioError::FlagHintOnAuthoredOnly { flag } => ScenarioErrorModel::FlagHintOnAuthoredOnly { flag: flag@ },
            ScenarioError::FlagTitleUndeclared { flag } => ScenarioErrorModel::FlagTitleUndeclared { flag: flag@ },
            ScenarioError::HiddenFlagUndeclared { flag } => ScenarioErrorModel::HiddenFlagUndeclared { flag: flag@ },
            ScenarioError::AttributeKeyUndeclared { trigger, entity, key } => ScenarioErrorModel::AttributeKeyUndeclared {
                trigger: trigger@,
                entity: entity@,
                key: key@,
            },
            ScenarioError::SecretAttributeUndeclared { key } => ScenarioErrorModel::SecretAttributeUndeclared { key: key@ },
            ScenarioError::HiddenAttributeUndeclared { key } => ScenarioErrorModel::HiddenAttributeUndeclared { key: key@ },
            ScenarioError::VoteRuleAttributeUndeclared { key } => ScenarioErrorModel::VoteRuleAttributeUndeclared { key: key@ },
            ScenarioError::ChallengeEffectRecursive { challenge } => ScenarioErrorModel::ChallengeEffectRecursive { challenge: challenge@ },
            ScenarioError::ChallengeStatUndeclared { challenge, entity, stat } => ScenarioErrorModel::ChallengeStatUndeclared {
                challenge: challenge@,
                entity: entity@,
                stat: stat@,
            },
            ScenarioError::TierThresholdOutOfRange { challenge, tier, threshold, sides } => ScenarioErrorModel::TierThresholdOutOfRange {
                challenge: challenge@,
                tier: tier@,
                threshold: *threshold,
                sides: *sides,
            },
            ScenarioError::RoleAssignmentCountMismatch { pool_total, among } => ScenarioErrorModel::RoleAssignmentCountMismatch {
                pool_total: *pool_total,
                among: *among,
            },
            ScenarioError::RoleAssignmentUnknownEntity { entity } => ScenarioErrorModel::RoleAssignmentUnknownEntity { entity: entity@ },
            ScenarioError::RoleAssignmentDuplicateEntity { entity } => ScenarioErrorModel::RoleAssignmentDuplicateEntity { entity: entity@ },
            ScenarioError::NoGoal => ScenarioErrorModel::NoGoal,
        }
    }
}

/// The models of a sequence of errors.
pub open spec fn error_views(s: Seq<ScenarioError>) -> Seq<ScenarioErrorModel> {
    s.map_values(|e: ScenarioError| e@)
}

// ---------------------------------------------------------------------------
// Scenario queries, as mathematics.
// ---------------------------------------------------------------------------

/// The entity exists in the scenario (the protagonist or a character).
pub open spec fn knows_entity_spec(sc: Scenario, e: Seq<char>) -> bool {
    e == PLAYER@ || sc.characters@.contains_key(e)
}

/// The entity has declared the stat (the protagonist's `initial_stats` count).
pub open spec fn knows_stat_spec(sc: Scenario, e: Seq<char>, k: Seq<char>) -> bool {
    (e == PLAYER@ && sc.initial_stats@.contains_key(k)) || (sc.characters@.contains_key(e)
        && sc.characters@[e].stats@.contains_key(k))
}

/// The clamp bounds of a stat: the character's declaration, else `(0, none)`.
pub open spec fn stat_bounds_spec(sc: Scenario, e: Seq<char>, k: Seq<char>) -> (i64, Option<i64>) {
    if sc.characters@.contains_key(e) && sc.characters@[e].stats@.contains_key(k) {
        (sc.characters@[e].stats@[k].min, sc.characters@[e].stats@[k].max)
    } else {
        (0, None)
    }
}

/// The condition guarding a flag (absent rule: always).
pub open spec fn flag_gate_spec(sc: Scenario, k: Seq<char>) -> GateModel {
    if sc.flag_rules@.contains_key(k) {
        sc.flag_rules@[k]
    } else {
        GateModel::Always
    }
}

/// The effective presence of an entity at the current location: an override
/// wins, else the location's declaration; only the scenario's characters count.
pub open spec fn present_spec(sc: Scenario, m: StateModel) -> Set<Seq<char>> {
    let base = if sc.locations@.contains_key(m.location) {
        sc.locations@[m.location].present@
    } else {
        Set::empty()
    };
    Set::new(
        |e: Seq<char>|
            sc.characters@.contains_key(e) && if m.present_overrides.contains_key(e) {
                m.present_overrides[e]
            } else {
                base.contains(e)
            },
    )
}

/// The flag an op sets, if it is a `SetFlag`.
pub open spec fn op_sets_flag(op: StateOp, k: Seq<char>) -> bool {
    match op {
        StateOp::SetFlag { key, .. } => key@ == k,
        _ => false,
    }
}

/// Some op of a list sets the flag.
pub open spec fn ops_set_flag(ops: Seq<StateOp>, k: Seq<char>) -> bool {
    exists|o: int| 0 <= o < ops.len() && #[trigger] op_sets_flag(ops[o], k)
}

/// Some trigger's effects set the flag.
pub open spec fn triggers_set_flag(ts: Seq<Trigger>, k: Seq<char>) -> bool {
    exists|t: int| 0 <= t < ts.len() && #[trigger] ops_set_flag(ts[t].effects@, k)
}

/// An optional outcome sets the flag: its own flag, or a `set_flag` among its effects.
pub open spec fn outcome_sets_flag(o: Option<ChallengeOutcome>, k: Seq<char>) -> bool {
    match o {
        Some(out) => opt_flag_is(out.flag, k) || ops_set_flag(out.effects@, k),
        None => false,
    }
}

/// An optional flag is `k`.
pub open spec fn opt_flag_is(f: Option<String>, k: Seq<char>) -> bool {
    match f {
        Some(f) => f@ == k,
        None => false,
    }
}

/// A tier sets the flag: its own flag, or a `set_flag` among its effects.
pub open spec fn tier_sets_flag(t: TierDef, k: Seq<char>) -> bool {
    opt_flag_is(t.flag, k) || ops_set_flag(t.effects@, k)
}

/// Some tier sets the flag.
pub open spec fn tiers_set_flag(tiers: Seq<(String, TierDef)>, k: Seq<char>) -> bool {
    exists|i: int| 0 <= i < tiers.len() && #[trigger] tier_sets_flag(tiers[i].1, k)
}

/// A challenge's outcomes or tiers set the flag.
pub open spec fn challenge_sets_flag(c: ChallengeDef, k: Seq<char>) -> bool {
    outcome_sets_flag(c.on_success, k) || outcome_sets_flag(c.on_failure, k) || tiers_set_flag(
        c.tiers.entries@,
        k,
    )
}

/// Some challenge sets the flag.
pub open spec fn challenges_set_flag(cs: Seq<(String, ChallengeDef)>, k: Seq<char>) -> bool {
    exists|i: int| 0 <= i < cs.len() && #[trigger] challenge_sets_flag(cs[i].1, k)
}

/// Flags written only by authored effects: by trigger effects, and by
/// challenge outcomes and tiers (their flags and their effects).
pub open spec fn authored_only_spec(sc: Scenario) -> Set<Seq<char>> {
    Set::new(
        |k: Seq<char>|
            triggers_set_flag(sc.triggers@, k) || challenges_set_flag(sc.challenges.entries@, k),
    )
}

/// The hints on flags that only authored effects set (dead hints), in key order.
pub open spec fn lint_spec(sc: Scenario, hints: Seq<(String, String)>) -> Seq<ScenarioErrorModel>
    decreases hints.len(),
{
    if hints.len() == 0 {
        seq![]
    } else {
        let k = hints.last().0@;
        lint_spec(sc, hints.drop_last()) + if sc.allowed_flags@.contains(k)
            && authored_only_spec(sc).contains(k) {
            seq![ScenarioErrorModel::FlagHintOnAuthoredOnly { flag: k }]
        } else {
            seq![]
        }
    }
}

/// The goal reached first in authored order (named goals), or the default id
/// for a single goal; `None` when no ending is reached.
pub open spec fn first_goal(goals: Seq<GoalDef>, m: StateModel) -> Option<int>
    decreases goals.len(),
{
    if goals.len() == 0 {
        None
    } else if gate_holds(goals[0].when@, m) {
        Some(0)
    } else {
        match first_goal(goals.drop_first(), m) {
            Some(i) => Some(i + 1),
            None => None,
        }
    }
}

pub open spec fn reached_spec(sc: Scenario, m: StateModel) -> Option<Seq<char>> {
    if sc.goals@.len() > 0 {
        match first_goal(sc.goals@, m) {
            Some(i) => Some(sc.goals@[i].id@),
            None => None,
        }
    } else {
        match sc.goal {
            Some(g) => if gate_holds(g@, m) {
                Some(crate::state::DEFAULT_GOAL@)
            } else {
                None
            },
            None => None,
        }
    }
}

pub proof fn lemma_first_goal(goals: Seq<GoalDef>, m: StateModel)
    ensures
        match first_goal(goals, m) {
            Some(i) => 0 <= i < goals.len() && gate_holds(goals[i].when@, m) && forall|j: int|
                0 <= j < i ==> !gate_holds(#[trigger] goals[j].when@, m),
            None => forall|j: int| 0 <= j < goals.len() ==> !gate_holds(#[trigger] goals[j].when@, m),
        },
    decreases goals.len(),
{
    if goals.len() > 0 && !gate_holds(goals[0].when@, m) {
        lemma_first_goal(goals.drop_first(), m);
        match first_goal(goals.drop_first(), m) {
            Some(i) => {
                assert forall|j: int| 0 <= j < i + 1 implies !gate_holds(#[trigger] goals[j].when@, m) by {
                    if j > 0 {
                        assert(goals[j] == goals.drop_first()[j - 1]);
                        assert(!gate_holds(goals.drop_first()[j - 1].when@, m));
                    } else {
                        assert(!gate_holds(goals[0].when@, m));
                    }
                }
            },
            None => {
                assert forall|j: int| 0 <= j < goals.len() implies !gate_holds(#[trigger] goals[j].when@, m) by {
                    if j > 0 {
                        assert(goals[j] == goals.drop_first()[j - 1]);
                        assert(!gate_holds(goals.drop_first()[j - 1].when@, m));
                    } else {
                        assert(!gate_holds(goals[0].when@, m));
                    }
                }
            },
        }
    }
}

impl Scenario {
    /// The location with this id.
    pub fn location(&self, id: &str) -> (r: Option<&Location>)
        ensures
            match r {
                Some(l) => self.locations@.contains_key(id@) && self.locations@[id@] == *l,
                None => !self.locations@.contains_key(id@),
            },
    {
        self.locations.get(id)
    }

    /// The condition guarding a flag; `Always` when no rule is given.
    pub fn flag_gate(&self, key: &str) -> (g: Gate)
        ensures
            g@ == flag_gate_spec(*self, key@),
    {
        match self.flag_rules.get(key) {
            Some(g) => g.dup(),
            None => Gate::Always,
        }
    }

    /// The entity exists here (the protagonist or a character).
    pub fn knows_entity(&self, entity: &str) -> (b: bool)
        ensures
            b == knows_entity_spec(*self, entity@),
    {
        proof {
            reveal_strlit("player");
        }
        str_eq(entity, PLAYER) || self.characters.contains_key(entity)
    }

    /// The authored challenge with this id.
    pub fn challenge(&self, id: &str) -> (r: Option<&ChallengeDef>)
        ensures
            match r {
                Some(c) => self.challenges@.contains_key(id@) && self.challenges@[id@] == *c,
                None => !self.challenges@.contains_key(id@),
            },
    {
        self.challenges.get(id)
    }

    /// Whether the entity has declared the stat.
    pub fn knows_stat(&self, entity: &str, key: &str) -> (b: bool)
        ensures
            b == knows_stat_spec(*self, entity@, key@),
    {
        if str_eq(entity, PLAYER) && self.initial_stats.contains_key(key) {
            return true;
        }
        match self.characters.get(entity) {
            Some(c) => c.stats.contains_key(key),
            None => false,
        }
    }

    /// The clamp bounds `(min, max)` of a stat; `(0, None)` when undeclared.
    pub fn stat_bounds(&self, entity: &str, key: &str) -> (r: (i64, Option<i64>))
        ensures
            r == stat_bounds_spec(*self, entity@, key@),
    {
        match self.characters.get(entity) {
            Some(c) => match c.stats.get(key) {
                Some(d) => (d.min, d.max),
                None => (0, None),
            },
            None => (0, None),
        }
    }

    /// The characters present at the current location (see `present_spec`).
    pub fn present_at(&self, state: &GameState) -> (r: StrSet)
        ensures
            r@ == present_spec(*self, state@),
    {
        let mut set = StrSet::new();
        let ghost base = if self.locations@.contains_key(state@.location) {
            self.locations@[state@.location].present@
        } else {
            Set::<Seq<char>>::empty()
        };
        match self.location(state.location.as_str()) {
            Some(loc) => {
                let mut i: usize = 0;
                while i < loc.present.items.len()
                    invariant
                        i <= loc.present.items@.len(),
                        base == loc.present@,
                        forall|e: Seq<char>|
                            #[trigger] set@.contains(e) <==> (self.characters@.contains_key(e)
                                && has_view(loc.present.items@.take(i as int), e)),
                    decreases loc.present.items@.len() - i,
                {
                    let e = &loc.present.items[i];
                    if self.characters.contains_key(e.as_str()) {
                        set.insert(e.clone());
                    }
                    proof {
                        let t = loc.present.items@.take(i + 1);
                        assert forall|x: Seq<char>|
                            #[trigger] set@.contains(x) <==> (self.characters@.contains_key(x)
                                && has_view(t, x)) by {
                            if has_view(t, x) {
                                let j = choose|j: int| 0 <= j < t.len() && #[trigger] t[j]@ == x;
                                if j < i {
                                    assert(loc.present.items@.take(i as int)[j]@ == x);
                                }
                            }
                            if has_view(loc.present.items@.take(i as int), x) {
                                let j = choose|j: int| 0 <= j < i && #[trigger] loc.present.items@.take(i as int)[j]@ == x;
                                assert(t[j]@ == x);
                            }
                            if x == e@ {
                                assert(t[i as int]@ == x);
                            }
                        }
                    }
                    i = i + 1;
                }
                assert(loc.present.items@.take(i as int) =~= loc.present.items@);
            },
            None => {},
        }
        // Overrides, in entry order; a later entry for the same entity wins.
        let ov = &state.present_overrides.entries;
        let mut j: usize = 0;
        while j < ov.len()
            invariant
                j <= ov@.len(),
                *ov == state.present_overrides.entries,
                forall|e: Seq<char>|
                    #[trigger] set@.contains(e) <==> (self.characters@.contains_key(e) && if pairs_view(
                        ov@.take(j as int),
                    ).contains_key(e) {
                        pairs_view(ov@.take(j as int))[e]
                    } else {
                        base.contains(e)
                    }),
            decreases ov@.len() - j,
        {
            let (e, present) = (&ov[j].0, ov[j].1);
            if present {
                if self.characters.contains_key(e.as_str()) {
                    set.insert(e.clone());
                }
            } else {
                set.remove(e.as_str());
            }
            proof {
                let t = ov@.take(j + 1);
                assert(t.drop_last() =~= ov@.take(j as int));
            }
            j = j + 1;
        }
        assert(ov@.take(j as int) =~= ov@);
        assert(set@ =~= present_spec(*self, state@));
        set
    }
}

impl Scenario {
    /// Index of the first named goal, in authored order, whose condition holds.
    fn first_goal_index(&self, state: &GameState) -> (r: Option<usize>)
        ensures
            match r {
                Some(i) => first_goal(self.goals@, state@) == Some(i as int) && i < self.goals@.len(),
                None => first_goal(self.goals@, state@) is None,
            },
    {
        proof {
            lemma_first_goal(self.goals@, state@);
        }
        let mut i: usize = 0;
        while i < self.goals.len()
            invariant
                i <= self.goals@.len(),
                forall|j: int| 0 <= j < i ==> !gate_holds(#[trigger] self.goals@[j].when@, state@),
                match first_goal(self.goals@, state@) {
                    Some(k) => 0 <= k < self.goals@.len() && gate_holds(self.goals@[k].when@, state@)
                        && forall|j: int| 0 <= j < k ==> !gate_holds(#[trigger] self.goals@[j].when@, state@),
                    None => forall|j: int|
                        0 <= j < self.goals@.len() ==> !gate_holds(#[trigger] self.goals@[j].when@, state@),
                },
            decreases self.goals@.len() - i,
        {
            if self.goals[i].when.eval(state) {
                return Some(i);
            }
            i = i + 1;
        }
        None
    }

    /// The ending reached: the first named goal in authored order whose
    /// condition holds, or, with no named goals, the default id when the single
    /// goal holds; `None` while no ending is reached.
    pub fn reached(&self, state: &GameState) -> (r: Option<String>)
        ensures
            match r {
                Some(id) => reached_spec(*self, state@) == Some(id@),
                None => reached_spec(*self, state@) is None,
            },
    {
        if self.goals.len() > 0 {
            match self.first_goal_index(state) {
                Some(i) => Some(self.goals[i].id.clone()),
                None => None,
            }
        } else {
            match &self.goal {
                Some(g) => {
                    if g.eval(state) {
                        Some(String::from_str(crate::state::DEFAULT_GOAL))
                    } else {
                        None
                    }
                },
                None => None,
            }
        }
    }

    /// The named goal reached (id and ending narration): the first in authored
    /// order whose condition holds. A single unnamed goal has no definition, so
    /// this is `None` for it (use `reached`).
    pub fn reached_goal(&self, state: &GameState) -> (r: Option<&GoalDef>)
        ensures
            match r {
                Some(g) => match first_goal(self.goals@, state@) {
                    Some(i) => *g == self.goals@[i],
                    None => false,
                },
                None => first_goal(self.goals@, state@) is None,
            },
    {
        match self.first_goal_index(state) {
            Some(i) => Some(&self.goals[i]),
            None => None,
        }
    }
}

/// Adds the flags an op list sets to `set`.
fn add_set_flags(set: &mut StrSet, ops: &Vec<StateOp>)
    ensures
        forall|k: Seq<char>| #[trigger] final(set)@.contains(k) <==> (old(set)@.contains(k) || ops_set_flag(ops@, k)),
{
    let ghost s0 = set@;
    let mut i: usize = 0;
    while i < ops.len()
        invariant
            i <= ops@.len(),
            forall|k: Seq<char>| #[trigger] set@.contains(k) <==> (s0.contains(k) || ops_set_flag(ops@.take(i as int), k)),
        decreases ops@.len() - i,
    {
        match &ops[i] {
            StateOp::SetFlag { key, .. } => {
                set.insert(key.clone());
            },
            _ => {},
        }
        proof {
            let t = ops@.take(i + 1);
            assert forall|k: Seq<char>| #[trigger] set@.contains(k) <==> (s0.contains(k) || ops_set_flag(t, k)) by {
                if ops_set_flag(t, k) {
                    let o = choose|o: int| 0 <= o < t.len() && #[trigger] op_sets_flag(t[o], k);
                    if o < i {
                        assert(ops@.take(i as int)[o] == t[o]);
                        assert(ops_set_flag(ops@.take(i as int), k));
                    }
                }
                if ops_set_flag(ops@.take(i as int), k) {
                    let o = choose|o: int| 0 <= o < i && #[trigger] op_sets_flag(ops@.take(i as int)[o], k);
                    assert(t[o] == ops@.take(i as int)[o]);
                }
                if op_sets_flag(ops@[i as int], k) {
                    assert(t[i as int] == ops@[i as int]);
                }
            }
        }
        i = i + 1;
    }
    assert(ops@.take(i as int) =~= ops@);
}

/// Adds an optional flag to `set`.
fn add_opt_flag(set: &mut StrSet, f: &Option<String>)
    ensures
        forall|k: Seq<char>| #[trigger] final(set)@.contains(k) <==> (old(set)@.contains(k) || opt_flag_is(*f, k)),
{
    match f {
        Some(x) => {
            set.insert(x.clone());
        },
        None => {},
    }
}

impl Scenario {
    /// Flags that only authored effects write (trigger effects, challenge
    /// outcomes and tiers): a narrator should never set them.
    #[verifier::spinoff_prover]
    pub fn authored_only_flags(&self) -> (r: StrSet)
        ensures
            r@ == authored_only_spec(*self),
    {
        let mut set = StrSet::new();
        let mut t: usize = 0;
        while t < self.triggers.len()
            invariant
                t <= self.triggers@.len(),
                forall|k: Seq<char>| #[trigger] set@.contains(k) <==> triggers_set_flag(self.triggers@.take(t as int), k),
            decreases self.triggers@.len() - t,
        {
            let ghost s0 = set@;
            add_set_flags(&mut set, &self.triggers[t].effects);
            proof {
                let tk = self.triggers@.take(t + 1);
                let tp = self.triggers@.take(t as int);
                assert forall|k: Seq<char>| #[trigger] set@.contains(k) <==> triggers_set_flag(tk, k) by {
                    if triggers_set_flag(tk, k) {
                        let j = choose|j: int| 0 <= j < tk.len() && #[trigger] ops_set_flag(tk[j].effects@, k);
                        if j < t {
                            assert(tp[j] == tk[j]);
                            assert(triggers_set_flag(tp, k));
                        }
                    }
                    if triggers_set_flag(tp, k) {
                        let j = choose|j: int| 0 <= j < tp.len() && #[trigger] ops_set_flag(tp[j].effects@, k);
                        assert(tk[j] == tp[j]);
                    }
                    if ops_set_flag(self.triggers@[t as int].effects@, k) {
                        assert(tk[t as int] == self.triggers@[t as int]);
                    }
                }
            }
            t = t + 1;
        }
        assert(self.triggers@.take(t as int) =~= self.triggers@);
        let cs = &self.challenges.entries;
        let ghost base = set@;
        let mut c: usize = 0;
        while c < cs.len()
            invariant
                c <= cs@.len(),
                *cs == self.challenges.entries,
                forall|k: Seq<char>| #[trigger] base.contains(k) <==> triggers_set_flag(self.triggers@, k),
                forall|k: Seq<char>| #[trigger] set@.contains(k) <==> (base.contains(k) || challenges_set_flag(cs@.take(c as int), k)),
            decreases cs@.len() - c,
        {
            let def = &cs[c].1;
            let ghost s0 = set@;
            match &def.on_success {
                Some(o) => {
                    add_opt_flag(&mut set, &o.flag);
                    add_set_flags(&mut set, &o.effects);
                },
                None => {},
            }
            match &def.on_failure {
                Some(o) => {
                    add_opt_flag(&mut set, &o.flag);
                    add_set_flags(&mut set, &o.effects);
                },
                None => {},
            }
            let ghost s1 = set@;
            let mut i: usize = 0;
            while i < def.tiers.entries.len()
                invariant
                    i <= def.tiers.entries@.len(),
                    forall|k: Seq<char>| #[trigger] set@.contains(k) <==> (s1.contains(k) || tiers_set_flag(def.tiers.entries@.take(i as int), k)),
                decreases def.tiers.entries@.len() - i,
            {
                add_opt_flag(&mut set, &def.tiers.entries[i].1.flag);
                add_set_flags(&mut set, &def.tiers.entries[i].1.effects);
                proof {
                    let tk = def.tiers.entries@.take(i + 1);
                    let tp = def.tiers.entries@.take(i as int);
                    assert forall|k: Seq<char>| #[trigger] set@.contains(k) <==> (s1.contains(k) || tiers_set_flag(tk, k)) by {
                        if tiers_set_flag(tk, k) {
                            let j = choose|j: int| 0 <= j < tk.len() && #[trigger] tier_sets_flag(tk[j].1, k);
                            if j < i {
                                assert(tp[j] == tk[j]);
                                assert(tier_sets_flag(tp[j].1, k));
                                assert(tiers_set_flag(tp, k));
                            }
                        }
                        if tiers_set_flag(tp, k) {
                            let j = choose|j: int| 0 <= j < tp.len() && #[trigger] tier_sets_flag(tp[j].1, k);
                            assert(tk[j] == tp[j]);
                        }
                        if tier_sets_flag(def.tiers.entries@[i as int].1, k) {
                            assert(tk[i as int] == def.tiers.entries@[i as int]);
                        }
                    }
                }
                i = i + 1;
            }
            assert(def.tiers.entries@.take(i as int) =~= def.tiers.entries@);
            proof {
                let ck = cs@.take(c + 1);
                let cp = cs@.take(c as int);
                assert forall|k: Seq<char>| #[trigger] set@.contains(k) <==> (base.contains(k) || challenges_set_flag(ck, k)) by {
                    if challenges_set_flag(ck, k) {
                        let j = choose|j: int| 0 <= j < ck.len() && #[trigger] challenge_sets_flag(ck[j].1, k);
                        if j < c {
                            assert(cp[j] == ck[j]);
                            assert(challenges_set_flag(cp, k));
                        }
                    }
                    if challenges_set_flag(cp, k) {
                        let j = choose|j: int| 0 <= j < cp.len() && #[trigger] challenge_sets_flag(cp[j].1, k);
                        assert(ck[j] == cp[j]);
                    }
                    if challenge_sets_flag(cs@[c as int].1, k) {
                        assert(ck[c as int] == cs@[c as int]);
                    }
                }
            }
            c = c + 1;
        }
        assert(cs@.take(c as int) =~= cs@);
        assert(set@ =~= authored_only_spec(*self));
        set
    }

    /// The flags a narrator may set: the allowed flags less the authored-only ones.
    pub fn usable_flags(&self) -> (r: StrSet)
        ensures
            r@ == self.allowed_flags@.difference(authored_only_spec(*self)),
    {
        let authored = self.authored_only_flags();
        let mut out = StrSet::new();
        let items = &self.allowed_flags.items;
        let mut i: usize = 0;
        while i < items.len()
            invariant
                i <= items@.len(),
                *items == self.allowed_flags.items,
                authored@ == authored_only_spec(*self),
                forall|k: Seq<char>| #[trigger] out@.contains(k) <==> (has_view(items@.take(i as int), k) && !authored@.contains(k)),
            decreases items@.len() - i,
        {
            if !authored.contains(items[i].as_str()) {
                out.insert(items[i].clone());
            }
            proof {
                let tk = items@.take(i + 1);
                let tp = items@.take(i as int);
                assert forall|k: Seq<char>| #[trigger] out@.contains(k) <==> (has_view(tk, k) && !authored@.contains(k)) by {
                    if has_view(tk, k) {
                        let j = choose|j: int| 0 <= j < tk.len() && #[trigger] tk[j]@ == k;
                        if j < i {
                            assert(tp[j] == tk[j]);
                        }
                    }
                    if has_view(tp, k) {
                        let j = choose|j: int| 0 <= j < tp.len() && #[trigger] tp[j]@ == k;
                        assert(tk[j] == tp[j]);
                    }
                    if k == items@[i as int]@ {
                        assert(tk[i as int] == items@[i as int]);
                    }
                }
            }
            i = i + 1;
        }
        assert(items@.take(i as int) =~= items@);
        assert(out@ =~= self.allowed_flags@.difference(authored_only_spec(*self)));
        out
    }

    /// Warnings that do not stop play: hints on flags that only authored
    /// effects set (the narrator never sees such flags, so the hint is dead).
    pub fn lints(&self) -> (r: Vec<ScenarioError>)
        ensures
            error_views(r@) == lint_spec(*self, self.flag_hints.entries@),
    {
        let authored = self.authored_only_flags();
        let hints = &self.flag_hints.entries;
        let mut warns: Vec<ScenarioError> = Vec::new();
        assert(error_views(warns@) =~= lint_spec(*self, hints@.take(0)));
        let mut i: usize = 0;
        while i < hints.len()
            invariant
                i <= hints@.len(),
                *hints == self.flag_hints.entries,
                authored@ == authored_only_spec(*self),
                error_views(warns@) == lint_spec(*self, hints@.take(i as int)),
            decreases hints@.len() - i,
        {
            let k = &hints[i].0;
            let ghost w0 = warns@;
            if self.allowed_flags.contains(k.as_str()) && authored.contains(k.as_str()) {
                warns.push(ScenarioError::FlagHintOnAuthoredOnly { flag: k.clone() });
            }
            assert(hints@.take(i + 1).drop_last() =~= hints@.take(i as int));
            assert(error_views(warns@) =~= lint_spec(*self, hints@.take(i + 1)));
            i = i + 1;
        }
        assert(hints@.take(i as int) =~= hints@);
        warns
    }
}

// ---------------------------------------------------------------------------
// Static consistency, as mathematics.
// ---------------------------------------------------------------------------

/// The attribute key is declared for the entity: the protagonist's initial
/// attributes, or that character's attributes.
pub open spec fn attr_declared_for(sc: Scenario, entity: Seq<char>, key: Seq<char>) -> bool {
    if entity == PLAYER@ {
        sc.initial_attributes@.contains_key(key)
    } else {
        sc.characters@.contains_key(entity) && sc.characters@[entity].attributes@.contains_key(key)
    }
}

/// The key is the one that role assignment writes.
pub open spec fn role_key_is(sc: Scenario, key: Seq<char>) -> bool {
    match sc.role_assignment {
        Some(ra) => ra.key@ == key,
        None => false,
    }
}

/// Some character declares the attribute key.
pub open spec fn any_character_declares(chars: Seq<(String, CharacterDef)>, key: Seq<char>) -> bool {
    exists|i: int| 0 <= i < chars.len() && #[trigger] chars[i].1.attributes@.contains_key(key)
}

/// The attribute key is declared somewhere: the protagonist, a character, or role assignment.
pub open spec fn attr_declared_anywhere(sc: Scenario, key: Seq<char>) -> bool {
    sc.initial_attributes@.contains_key(key) || any_character_declares(sc.characters.entries@, key)
        || role_key_is(sc, key)
}

/// Tier flags that are not allowed flags.
pub open spec fn tier_flag_errors(sc: Scenario, cid: Seq<char>, tiers: Seq<(String, TierDef)>) -> Seq<
    ScenarioErrorModel,
>
    decreases tiers.len(),
{
    if tiers.len() == 0 {
        seq![]
    } else {
        tier_flag_errors(sc, cid, tiers.drop_last()) + match tiers.last().1.flag {
            Some(f) => if !sc.allowed_flags@.contains(f@) {
                seq![ScenarioErrorModel::ChallengeFlagUndeclared { challenge: cid, tier: tiers.last().0@, flag: f@ }]
            } else {
                seq![]
            },
            None => seq![],
        }
    }
}

/// An outcome flag that is not an allowed flag.
pub open spec fn outcome_flag_error(sc: Scenario, cid: Seq<char>, label: Seq<char>, o: Option<ChallengeOutcome>) -> Seq<
    ScenarioErrorModel,
> {
    match o {
        Some(out) => match out.flag {
            Some(f) => if !sc.allowed_flags@.contains(f@) {
                seq![ScenarioErrorModel::ChallengeFlagUndeclared { challenge: cid, tier: label, flag: f@ }]
            } else {
                seq![]
            },
            None => seq![],
        },
        None => seq![],
    }
}

/// An authored subject that has not declared the challenge's stat.
pub open spec fn subject_stat_error(sc: Scenario, cid: Seq<char>, def: ChallengeDef) -> Seq<ScenarioErrorModel> {
    match (def.entity, def.stat) {
        (Some(e), Some(st)) => if !knows_stat_spec(sc, e@, st@) {
            seq![ScenarioErrorModel::ChallengeStatUndeclared { challenge: cid, entity: e@, stat: st@ }]
        } else {
            seq![]
        },
        _ => seq![],
    }
}

/// Band thresholds missing or outside `1..=sides` (a missing one counts as 0).
pub open spec fn threshold_errors(cid: Seq<char>, tiers: Seq<(String, TierDef)>, sides: u32) -> Seq<
    ScenarioErrorModel,
>
    decreases tiers.len(),
{
    if tiers.len() == 0 {
        seq![]
    } else {
        let t = tiers.last().1;
        let n: u32 = match t.threshold {
            Some(n) => n,
            None => 0,
        };
        threshold_errors(cid, tiers.drop_last(), sides) + if (t.natural == Natural::AtMost
            || t.natural == Natural::AtLeast) && (n < 1 || n > sides) {
            seq![ScenarioErrorModel::TierThresholdOutOfRange { challenge: cid, tier: tiers.last().0@, threshold: n, sides }]
        } else {
            seq![]
        }
    }
}

/// Errors in a challenge's consequence effects: a nested challenge attempt, or
/// an attribute write to an undeclared key.
pub open spec fn effect_errors(sc: Scenario, cid: Seq<char>, ops: Seq<StateOp>) -> Seq<ScenarioErrorModel>
    decreases ops.len(),
{
    if ops.len() == 0 {
        seq![]
    } else {
        effect_errors(sc, cid, ops.drop_last()) + match ops.last() {
            StateOp::AttemptChallenge { .. } => seq![ScenarioErrorModel::ChallengeEffectRecursive { challenge: cid }],
            StateOp::SetAttribute { entity, key, .. } => if !(attr_declared_for(sc, entity@, key@)
                || role_key_is(sc, key@)) {
                seq![
                    ScenarioErrorModel::AttributeKeyUndeclared {
                        trigger: "challenge:"@ + cid,
                        entity: entity@,
                        key: key@,
                    },
                ]
            } else {
                seq![]
            },
            _ => seq![],
        }
    }
}

pub open spec fn tiers_effect_errors(sc: Scenario, cid: Seq<char>, tiers: Seq<(String, TierDef)>) -> Seq<
    ScenarioErrorModel,
>
    decreases tiers.len(),
{
    if tiers.len() == 0 {
        seq![]
    } else {
        tiers_effect_errors(sc, cid, tiers.drop_last()) + effect_errors(sc, cid, tiers.last().1.effects@)
    }
}

pub open spec fn outcome_effect_errors(sc: Scenario, cid: Seq<char>, o: Option<ChallengeOutcome>) -> Seq<
    ScenarioErrorModel,
> {
    match o {
        Some(out) => effect_errors(sc, cid, out.effects@),
        None => seq![],
    }
}

/// Everything wrong with one challenge, in the order it is reported.
pub open spec fn challenge_errors(sc: Scenario, cid: Seq<char>, def: ChallengeDef) -> Seq<ScenarioErrorModel> {
    tier_flag_errors(sc, cid, def.tiers.entries@) + outcome_flag_error(sc, cid, "on_success"@, def.on_success)
        + outcome_flag_error(sc, cid, "on_failure"@, def.on_failure) + subject_stat_error(sc, cid, def)
        + threshold_errors(cid, def.tiers.entries@, def.sides) + tiers_effect_errors(sc, cid, def.tiers.entries@)
        + outcome_effect_errors(sc, cid, def.on_success) + outcome_effect_errors(sc, cid, def.on_failure)
}

pub open spec fn challenges_errors(sc: Scenario, cs: Seq<(String, ChallengeDef)>) -> Seq<ScenarioErrorModel>
    decreases cs.len(),
{
    if cs.len() == 0 {
        seq![]
    } else {
        challenges_errors(sc, cs.drop_last()) + challenge_errors(sc, cs.last().0@, cs.last().1)
    }
}

/// Which declaration a list of flag keys comes from.
#[derive(Debug)]
pub enum FlagList {
    Global,
    Persistent,
    Hint,
    Title,
    Hidden,
}

pub open spec fn flag_error(kind: FlagList, flag: Seq<char>) -> ScenarioErrorModel {
    match kind {
        FlagList::Global => ScenarioErrorModel::GlobalFlagUndeclared { flag },
        FlagList::Persistent => ScenarioErrorModel::PersistentFlagUndeclared { flag },
        FlagList::Hint => ScenarioErrorModel::FlagHintUndeclared { flag },
        FlagList::Title => ScenarioErrorModel::FlagTitleUndeclared { flag },
        FlagList::Hidden => ScenarioErrorModel::HiddenFlagUndeclared { flag },
    }
}

/// Keys of a declaration that are not allowed flags.
pub open spec fn flag_errors(sc: Scenario, kind: FlagList, keys: Seq<Seq<char>>) -> Seq<ScenarioErrorModel>
    decreases keys.len(),
{
    if keys.len() == 0 {
        seq![]
    } else {
        flag_errors(sc, kind, keys.drop_last()) + if !sc.allowed_flags@.contains(keys.last()) {
            seq![flag_error(kind, keys.last())]
        } else {
            seq![]
        }
    }
}

pub open spec fn item_keys(items: Seq<String>) -> Seq<Seq<char>> {
    items.map_values(|s: String| s@)
}

pub open spec fn entry_keys(es: Seq<(String, String)>) -> Seq<Seq<char>> {
    es.map_values(|p: (String, String)| p.0@)
}

/// Trigger attribute writes to keys not declared for their entity.
pub open spec fn trigger_effect_errors(sc: Scenario, id: Seq<char>, ops: Seq<StateOp>) -> Seq<ScenarioErrorModel>
    decreases ops.len(),
{
    if ops.len() == 0 {
        seq![]
    } else {
        trigger_effect_errors(sc, id, ops.drop_last()) + match ops.last() {
            StateOp::SetAttribute { entity, key, .. } => if !(attr_declared_for(sc, entity@, key@) || role_key_is(
                sc,
                key@,
            )) {
                seq![ScenarioErrorModel::AttributeKeyUndeclared { trigger: id, entity: entity@, key: key@ }]
            } else {
                seq![]
            },
            _ => seq![],
        }
    }
}

pub open spec fn triggers_errors(sc: Scenario, ts: Seq<Trigger>) -> Seq<ScenarioErrorModel>
    decreases ts.len(),
{
    if ts.len() == 0 {
        seq![]
    } else {
        triggers_errors(sc, ts.drop_last()) + trigger_effect_errors(sc, ts.last().id@, ts.last().effects@)
    }
}

/// Voting rules whose voter attribute is declared nowhere.
pub open spec fn vote_errors(sc: Scenario, rules: Seq<VoteRule>) -> Seq<ScenarioErrorModel>
    decreases rules.len(),
{
    if rules.len() == 0 {
        seq![]
    } else {
        vote_errors(sc, rules.drop_last()) + match rules.last().voter_attribute {
            Some(va) => if !attr_declared_anywhere(sc, va.key@) {
                seq![ScenarioErrorModel::VoteRuleAttributeUndeclared { key: va.key@ }]
            } else {
                seq![]
            },
            None => seq![],
        }
    }
}

/// Secret (`hidden == false`) or hidden attribute keys declared nowhere.
pub open spec fn attr_list_errors(sc: Scenario, hidden: bool, keys: Seq<Seq<char>>) -> Seq<ScenarioErrorModel>
    decreases keys.len(),
{
    if keys.len() == 0 {
        seq![]
    } else {
        attr_list_errors(sc, hidden, keys.drop_last()) + if !attr_declared_anywhere(sc, keys.last()) {
            if hidden {
                seq![ScenarioErrorModel::HiddenAttributeUndeclared { key: keys.last() }]
            } else {
                seq![ScenarioErrorModel::SecretAttributeUndeclared { key: keys.last() }]
            }
        } else {
            seq![]
        }
    }
}

/// The number of roles in a pool.
pub open spec fn pool_sum(pool: Seq<(String, u32)>) -> int
    decreases pool.len(),
{
    if pool.len() == 0 {
        0
    } else {
        pool_sum(pool.drop_last()) + pool.last().1
    }
}

/// The recipients of roles that are unknown, and those listed twice (from the second time on).
pub open spec fn among_errors(sc: Scenario, among: Seq<String>) -> Seq<ScenarioErrorModel>
    decreases among.len(),
{
    if among.len() == 0 {
        seq![]
    } else {
        let e = among.last()@;
        among_errors(sc, among.drop_last()) + (if e != PLAYER@ && !sc.characters@.contains_key(e) {
            seq![ScenarioErrorModel::RoleAssignmentUnknownEntity { entity: e }]
        } else {
            seq![]
        }) + (if has_view(among.drop_last(), e) {
            seq![ScenarioErrorModel::RoleAssignmentDuplicateEntity { entity: e }]
        } else {
            seq![]
        })
    }
}

pub open spec fn role_errors(sc: Scenario) -> Seq<ScenarioErrorModel> {
    match sc.role_assignment {
        Some(ra) => (if pool_sum(ra.pool.entries@) != ra.among@.len() {
            seq![
                ScenarioErrorModel::RoleAssignmentCountMismatch {
                    pool_total: pool_sum(ra.pool.entries@) as u32,
                    among: ra.among@.len() as usize,
                },
            ]
        } else {
            seq![]
        }) + among_errors(sc, ra.among@),
        None => seq![],
    }
}

/// Every static inconsistency of a scenario, in the order it is reported.
pub open spec fn validate_spec(sc: Scenario) -> Seq<ScenarioErrorModel> {
    challenges_errors(sc, sc.challenges.entries@)
        + flag_errors(sc, FlagList::Global, item_keys(sc.global_flags.items@))
        + flag_errors(sc, FlagList::Persistent, item_keys(sc.persistent_flags.items@))
        + flag_errors(sc, FlagList::Hint, entry_keys(sc.flag_hints.entries@))
        + flag_errors(sc, FlagList::Title, entry_keys(sc.flag_titles.entries@))
        + flag_errors(sc, FlagList::Hidden, item_keys(sc.hidden_flags.items@))
        + triggers_errors(sc, sc.triggers@)
        + vote_errors(sc, sc.vote_rules@)
        + attr_list_errors(sc, false, item_keys(sc.secret_attributes.items@))
        + attr_list_errors(sc, true, item_keys(sc.hidden_attributes.items@))
        + role_errors(sc)
        + if sc.goal is None && sc.goals@.len() == 0 {
            seq![ScenarioErrorModel::NoGoal]
        } else {
            seq![]
        }
}

/// The role pool of a scenario fits the counter it is summed in.
pub open spec fn pool_fits(sc: Scenario) -> bool {
    match sc.role_assignment {
        Some(ra) => pool_sum(ra.pool.entries@) <= u32::MAX,
        None => true,
    }
}

// ---------------------------------------------------------------------------
// Static consistency.
// ---------------------------------------------------------------------------

fn push_err(errs: &mut Vec<ScenarioError>, e: ScenarioError)
    ensures
        error_views(final(errs)@) == error_views(old(errs)@) + seq![e@],
{
    let ghost before = errs@;
    errs.push(e);
    assert(error_views(errs@) =~= error_views(before) + seq![e@]);
}

impl Scenario {
    fn attr_declared_for_exec(&self, entity: &str, key: &str) -> (b: bool)
        ensures
            b == attr_declared_for(*self, entity@, key@),
    {
        proof {
            reveal_strlit("player");
        }
        if str_eq(entity, PLAYER) {
            self.initial_attributes.contains_key(key)
        } else {
            match self.characters.get(entity) {
                Some(c) => c.attributes.contains_key(key),
                None => false,
            }
        }
    }

    fn role_key_is_exec(&self, key: &str) -> (b: bool)
        ensures
            b == role_key_is(*self, key@),
    {
        match &self.role_assignment {
            Some(ra) => str_eq(ra.key.as_str(), key),
            None => false,
        }
    }

    fn attr_declared_anywhere_exec(&self, key: &str) -> (b: bool)
        ensures
            b == attr_declared_anywhere(*self, key@),
    {
        if self.initial_attributes.contains_key(key) {
            return true;
        }
        let chars = &self.characters.entries;
        let mut i: usize = 0;
        while i < chars.len()
            invariant
                i <= chars@.len(),
                *chars == self.characters.entries,
                forall|j: int| 0 <= j < i ==> !(#[trigger] chars@[j].1.attributes@.contains_key(key@)),
            decreases chars@.len() - i,
        {
            if chars[i].1.attributes.contains_key(key) {
                return true;
            }
            i = i + 1;
        }
        self.role_key_is_exec(key)
    }

    fn push_effect_errors(&self, errs: &mut Vec<ScenarioError>, cid: &String, ops: &Vec<StateOp>)
        ensures
            error_views(final(errs)@) == error_views(old(errs)@) + effect_errors(*self, cid@, ops@),
    {
        let ghost e0 = error_views(errs@);
        assert(e0 + effect_errors(*self, cid@, ops@.take(0)) =~= e0);
        let mut i: usize = 0;
        while i < ops.len()
            invariant
                i <= ops@.len(),
                error_views(errs@) == e0 + effect_errors(*self, cid@, ops@.take(i as int)),
            decreases ops@.len() - i,
        {
            let ghost e1 = error_views(errs@);
            match &ops[i] {
                StateOp::AttemptChallenge { .. } => {
                    push_err(errs, ScenarioError::ChallengeEffectRecursive { challenge: cid.clone() });
                },
                StateOp::SetAttribute { entity, key, .. } => {
                    if !(self.attr_declared_for_exec(entity.as_str(), key.as_str())
                        || self.role_key_is_exec(key.as_str())) {
                        let mut label = String::from_str("challenge:");
                        label.append(cid.as_str());
                        push_err(
                            errs,
                            ScenarioError::AttributeKeyUndeclared {
                                trigger: label,
                                entity: entity.clone(),
                                key: key.clone(),
                            },
                        );
                    }
                },
                _ => {},
            }
            assert(ops@.take(i + 1).drop_last() =~= ops@.take(i as int));
            assert(ops@.take(i + 1).last() == ops@[i as int]);
            assert(error_views(errs@) =~= e0 + effect_errors(*self, cid@, ops@.take(i + 1)));
            i = i + 1;
        }
        assert(ops@.take(i as int) =~= ops@);
    }

    fn push_tier_flag_errors(&self, errs: &mut Vec<ScenarioError>, cid: &String, def: &ChallengeDef)
        ensures
            error_views(final(errs)@) == error_views(old(errs)@) + tier_flag_errors(*self, cid@, def.tiers.entries@),
    {
        let ghost e0 = error_views(errs@);
        let tiers = &def.tiers.entries;
        assert(e0 + tier_flag_errors(*self, cid@, tiers@.take(0)) =~= e0);
        let mut i: usize = 0;
        while i < tiers.len()
            invariant
                i <= tiers@.len(),
                *tiers == def.tiers.entries,
                error_views(errs@) == e0 + tier_flag_errors(*self, cid@, tiers@.take(i as int)),
            decreases tiers@.len() - i,
        {
            match &tiers[i].1.flag {
                Some(f) => {
                    if !self.allowed_flags.contains(f.as_str()) {
                        push_err(
                            errs,
                            ScenarioError::ChallengeFlagUndeclared {
                                challenge: cid.clone(),
                                tier: tiers[i].0.clone(),
                                flag: f.clone(),
                            },
                        );
                    }
                },
                None => {},
            }
            assert(tiers@.take(i + 1).drop_last() =~= tiers@.take(i as int));
            assert(tiers@.take(i + 1).last() == tiers@[i as int]);
            assert(error_views(errs@) =~= e0 + tier_flag_errors(*self, cid@, tiers@.take(i + 1)));
            i = i + 1;
        }
        assert(tiers@.take(i as int) =~= tiers@);
    }

    fn push_outcome_flag_error(
        &self,
        errs: &mut Vec<ScenarioError>,
        cid: &String,
        label: &str,
        o: &Option<ChallengeOutcome>,
    )
        ensures
            error_views(final(errs)@) == error_views(old(errs)@) + outcome_flag_error(*self, cid@, label@, *o),
    {
        let ghost e0 = error_views(errs@);
        match o {
            Some(out) => match &out.flag {
                Some(f) => {
                    if !self.allowed_flags.contains(f.as_str()) {
                        push_err(
                            errs,
                            ScenarioError::ChallengeFlagUndeclared {
                                challenge: cid.clone(),
                                tier: String::from_str(label),
                                flag: f.clone(),
                            },
                        );
                    }
                },
                None => {},
            },
            None => {},
        }
        assert(error_views(errs@) =~= e0 + outcome_flag_error(*self, cid@, label@, *o));
    }

    fn push_threshold_errors(&self, errs: &mut Vec<ScenarioError>, cid: &String, def: &ChallengeDef)
        ensures
            error_views(final(errs)@) == error_views(old(errs)@) + threshold_errors(cid@, def.tiers.entries@, def.sides),
    {
        let ghost e4 = error_views(errs@);
        let tiers = &def.tiers.entries;
        assert(e4 + threshold_errors(cid@, tiers@.take(0), def.sides) =~= e4);
        let mut i: usize = 0;
        while i < tiers.len()
            invariant
                i <= tiers@.len(),
                *tiers == def.tiers.entries,
                error_views(errs@) == e4 + threshold_errors(cid@, tiers@.take(i as int), def.sides),
            decreases tiers@.len() - i,
        {
            let t = &tiers[i].1;
            let n: u32 = match t.threshold {
                Some(n) => n,
                None => 0,
            };
            if (t.natural == Natural::AtMost || t.natural == Natural::AtLeast) && (n < 1 || n > def.sides) {
                push_err(
                    errs,
                    ScenarioError::TierThresholdOutOfRange {
                        challenge: cid.clone(),
                        tier: tiers[i].0.clone(),
                        threshold: n,
                        sides: def.sides,
                    },
                );
            }
            assert(tiers@.take(i + 1).drop_last() =~= tiers@.take(i as int));
            assert(tiers@.take(i + 1).last() == tiers@[i as int]);
            assert(error_views(errs@) =~= e4 + threshold_errors(cid@, tiers@.take(i + 1), def.sides));
            i = i + 1;
        }
        assert(tiers@.take(i as int) =~= tiers@);
    }

    fn push_tiers_effect_errors(&self, errs: &mut Vec<ScenarioError>, cid: &String, def: &ChallengeDef)
        ensures
            error_views(final(errs)@) == error_views(old(errs)@) + tiers_effect_errors(*self, cid@, def.tiers.entries@),
    {
        let ghost e5 = error_views(errs@);
        let tiers = &def.tiers.entries;
        assert(e5 + tiers_effect_errors(*self, cid@, tiers@.take(0)) =~= e5);
        let mut i: usize = 0;
        while i < tiers.len()
            invariant
                i <= tiers@.len(),
                *tiers == def.tiers.entries,
                error_views(errs@) == e5 + tiers_effect_errors(*self, cid@, tiers@.take(i as int)),
            decreases tiers@.len() - i,
        {
            self.push_effect_errors(errs, cid, &tiers[i].1.effects);
            assert(tiers@.take(i + 1).drop_last() =~= tiers@.take(i as int));
            assert(tiers@.take(i + 1).last() == tiers@[i as int]);
            assert(error_views(errs@) =~= e5 + tiers_effect_errors(*self, cid@, tiers@.take(i + 1)));
            i = i + 1;
        }
        assert(tiers@.take(i as int) =~= tiers@);
    }

    #[verifier::spinoff_prover]
    #[verifier::rlimit(40)]
    fn push_challenge_errors(&self, errs: &mut Vec<ScenarioError>, cid: &String, def: &ChallengeDef)
        ensures
            error_views(final(errs)@) == error_views(old(errs)@) + challenge_errors(*self, cid@, *def),
    {
        let ghost e0 = error_views(errs@);
        self.push_tier_flag_errors(errs, cid, def);
        let ghost e1 = error_views(errs@);
        self.push_outcome_flag_error(errs, cid, "on_success", &def.on_success);
        let ghost e2 = error_views(errs@);
        self.push_outcome_flag_error(errs, cid, "on_failure", &def.on_failure);
        let ghost e3 = error_views(errs@);
        match (&def.entity, &def.stat) {
            (Some(e), Some(st)) => {
                if !self.knows_stat(e.as_str(), st.as_str()) {
                    push_err(
                        errs,
                        ScenarioError::ChallengeStatUndeclared {
                            challenge: cid.clone(),
                            entity: e.clone(),
                            stat: st.clone(),
                        },
                    );
                }
            },
            _ => {},
        }
        assert(error_views(errs@) =~= e3 + subject_stat_error(*self, cid@, *def));
        let ghost e4 = error_views(errs@);
        self.push_threshold_errors(errs, cid, def);
        let ghost e5 = error_views(errs@);
        self.push_tiers_effect_errors(errs, cid, def);
        let ghost e6 = error_views(errs@);
        match &def.on_success {
            Some(o) => self.push_effect_errors(errs, cid, &o.effects),
            None => {},
        }
        assert(error_views(errs@) =~= e6 + outcome_effect_errors(*self, cid@, def.on_success));
        let ghost e7 = error_views(errs@);
        match &def.on_failure {
            Some(o) => self.push_effect_errors(errs, cid, &o.effects),
            None => {},
        }
        assert(error_views(errs@) =~= e7 + outcome_effect_errors(*self, cid@, def.on_failure));
        assert(error_views(errs@) =~= e0 + challenge_errors(*self, cid@, *def));
    }

    fn push_flag_errors(&self, errs: &mut Vec<ScenarioError>, kind: FlagList, keys: &Vec<String>)
        ensures
            error_views(final(errs)@) == error_views(old(errs)@) + flag_errors(*self, kind, item_keys(keys@)),
    {
        let ghost e0 = error_views(errs@);
        assert(item_keys(keys@.take(0)) =~= Seq::<Seq<char>>::empty());
        assert(e0 + flag_errors(*self, kind, item_keys(keys@.take(0))) =~= e0);
        let mut i: usize = 0;
        while i < keys.len()
            invariant
                i <= keys@.len(),
                error_views(errs@) == e0 + flag_errors(*self, kind, item_keys(keys@.take(i as int))),
            decreases keys@.len() - i,
        {
            let f = &keys[i];
            if !self.allowed_flags.contains(f.as_str()) {
                let e = match kind {
                    FlagList::Global => ScenarioError::GlobalFlagUndeclared { flag: f.clone() },
                    FlagList::Persistent => ScenarioError::PersistentFlagUndeclared { flag: f.clone() },
                    FlagList::Hint => ScenarioError::FlagHintUndeclared { flag: f.clone() },
                    FlagList::Title => ScenarioError::FlagTitleUndeclared { flag: f.clone() },
                    FlagList::Hidden => ScenarioError::HiddenFlagUndeclared { flag: f.clone() },
                };
                assert(e@ == flag_error(kind, f@));
                push_err(errs, e);
            }
            assert(item_keys(keys@.take(i + 1)).drop_last() =~= item_keys(keys@.take(i as int)));
            assert(item_keys(keys@.take(i + 1)).last() == f@);
            assert(error_views(errs@) =~= e0 + flag_errors(*self, kind, item_keys(keys@.take(i + 1))));
            i = i + 1;
        }
        assert(keys@.take(i as int) =~= keys@);
    }

    fn push_map_flag_errors(&self, errs: &mut Vec<ScenarioError>, kind: FlagList, es: &Vec<(String, String)>)
        ensures
            error_views(final(errs)@) == error_views(old(errs)@) + flag_errors(*self, kind, entry_keys(es@)),
    {
        let mut keys: Vec<String> = Vec::new();
        let mut i: usize = 0;
        while i < es.len()
            invariant
                i <= es@.len(),
                item_keys(keys@) =~= entry_keys(es@.take(i as int)),
            decreases es@.len() - i,
        {
            let ghost k0 = keys@;
            keys.push(es[i].0.clone());
            proof {
                assert(item_keys(keys@) =~= item_keys(k0).push(es@[i as int].0@));
                assert(entry_keys(es@.take(i + 1)) =~= entry_keys(es@.take(i as int)).push(es@[i as int].0@));
            }
            i = i + 1;
        }
        assert(es@.take(i as int) =~= es@);
        self.push_flag_errors(errs, kind, &keys);
    }

    fn push_trigger_errors(&self, errs: &mut Vec<ScenarioError>)
        ensures
            error_views(final(errs)@) == error_views(old(errs)@) + triggers_errors(*self, self.triggers@),
    {
        let ghost e0 = error_views(errs@);
        assert(e0 + triggers_errors(*self, self.triggers@.take(0)) =~= e0);
        let mut t: usize = 0;
        while t < self.triggers.len()
            invariant
                t <= self.triggers@.len(),
                error_views(errs@) == e0 + triggers_errors(*self, self.triggers@.take(t as int)),
            decreases self.triggers@.len() - t,
        {
            let trig = &self.triggers[t];
            let ghost e1 = error_views(errs@);
            assert(e1 + trigger_effect_errors(*self, trig.id@, trig.effects@.take(0)) =~= e1);
            let mut i: usize = 0;
            while i < trig.effects.len()
                invariant
                    i <= trig.effects@.len(),
                    error_views(errs@) == e1 + trigger_effect_errors(*self, trig.id@, trig.effects@.take(i as int)),
                decreases trig.effects@.len() - i,
            {
                match &trig.effects[i] {
                    StateOp::SetAttribute { entity, key, .. } => {
                        if !(self.attr_declared_for_exec(entity.as_str(), key.as_str()) || self.role_key_is_exec(
                            key.as_str(),
                        )) {
                            push_err(
                                errs,
                                ScenarioError::AttributeKeyUndeclared {
                                    trigger: trig.id.clone(),
                                    entity: entity.clone(),
                                    key: key.clone(),
                                },
                            );
                        }
                    },
                    _ => {},
                }
                assert(trig.effects@.take(i + 1).drop_last() =~= trig.effects@.take(i as int));
                assert(trig.effects@.take(i + 1).last() == trig.effects@[i as int]);
                assert(error_views(errs@) =~= e1 + trigger_effect_errors(*self, trig.id@, trig.effects@.take(i + 1)));
                i = i + 1;
            }
            assert(trig.effects@.take(i as int) =~= trig.effects@);
            assert(self.triggers@.take(t + 1).drop_last() =~= self.triggers@.take(t as int));
            assert(self.triggers@.take(t + 1).last() == self.triggers@[t as int]);
            assert(error_views(errs@) =~= e0 + triggers_errors(*self, self.triggers@.take(t + 1)));
            t = t + 1;
        }
        assert(self.triggers@.take(t as int) =~= self.triggers@);
    }

    fn push_vote_errors(&self, errs: &mut Vec<ScenarioError>)
        ensures
            error_views(final(errs)@) == error_views(old(errs)@) + vote_errors(*self, self.vote_rules@),
    {
        let ghost e0 = error_views(errs@);
        assert(e0 + vote_errors(*self, self.vote_rules@.take(0)) =~= e0);
        let mut i: usize = 0;
        while i < self.vote_rules.len()
            invariant
                i <= self.vote_rules@.len(),
                error_views(errs@) == e0 + vote_errors(*self, self.vote_rules@.take(i as int)),
            decreases self.vote_rules@.len() - i,
        {
            match &self.vote_rules[i].voter_attribute {
                Some(va) => {
                    if !self.attr_declared_anywhere_exec(va.key.as_str()) {
                        push_err(errs, ScenarioError::VoteRuleAttributeUndeclared { key: va.key.clone() });
                    }
                },
                None => {},
            }
            assert(self.vote_rules@.take(i + 1).drop_last() =~= self.vote_rules@.take(i as int));
            assert(self.vote_rules@.take(i + 1).last() == self.vote_rules@[i as int]);
            assert(error_views(errs@) =~= e0 + vote_errors(*self, self.vote_rules@.take(i + 1)));
            i = i + 1;
        }
        assert(self.vote_rules@.take(i as int) =~= self.vote_rules@);
    }

    fn push_attr_list_errors(&self, errs: &mut Vec<ScenarioError>, hidden: bool, keys: &Vec<String>)
        ensures
            error_views(final(errs)@) == error_views(old(errs)@) + attr_list_errors(*self, hidden, item_keys(keys@)),
    {
        let ghost e0 = error_views(errs@);
        assert(item_keys(keys@.take(0)) =~= Seq::<Seq<char>>::empty());
        assert(e0 + attr_list_errors(*self, hidden, item_keys(keys@.take(0))) =~= e0);
        let mut i: usize = 0;
        while i < keys.len()
            invariant
                i <= keys@.len(),
                error_views(errs@) == e0 + attr_list_errors(*self, hidden, item_keys(keys@.take(i as int))),
            decreases keys@.len() - i,
        {
            let k = &keys[i];
            if !self.attr_declared_anywhere_exec(k.as_str()) {
                if hidden {
                    push_err(errs, ScenarioError::HiddenAttributeUndeclared { key: k.clone() });
                } else {
                    push_err(errs, ScenarioError::SecretAttributeUndeclared { key: k.clone() });
                }
            }
            assert(item_keys(keys@.take(i + 1)).drop_last() =~= item_keys(keys@.take(i as int)));
            assert(item_keys(keys@.take(i + 1)).last() == k@);
            assert(error_views(errs@) =~= e0 + attr_list_errors(*self, hidden, item_keys(keys@.take(i + 1))));
            i = i + 1;
        }
        assert(keys@.take(i as int) =~= keys@);
    }

    fn push_role_errors(&self, errs: &mut Vec<ScenarioError>)
        requires
            pool_fits(*self),
        ensures
            error_views(final(errs)@) == error_views(old(errs)@) + role_errors(*self),
    {
        let ghost e0 = error_views(errs@);
        match &self.role_assignment {
            None => {
                assert(error_views(errs@) =~= e0 + role_errors(*self));
            },
            Some(ra) => {
                let pool = &ra.pool.entries;
                let mut total: u64 = 0;
                let mut i: usize = 0;
                while i < pool.len()
                    invariant
                        i <= pool@.len(),
                        *pool == ra.pool.entries,
                        pool_sum(pool@) <= u32::MAX,
                        total == pool_sum(pool@.take(i as int)),
                    decreases pool@.len() - i,
                {
                    assert(pool@.take(i + 1).drop_last() =~= pool@.take(i as int));
                    proof {
                        lemma_pool_sum_prefix(pool@, i + 1);
                    }
                    total = total + pool[i].1 as u64;
                    i = i + 1;
                }
                assert(pool@.take(i as int) =~= pool@);
                let pool_total = total as u32;
                if (pool_total as usize) != ra.among.len() {
                    push_err(
                        errs,
                        ScenarioError::RoleAssignmentCountMismatch { pool_total, among: ra.among.len() },
                    );
                }
                let ghost e1 = error_views(errs@);
                assert(error_views(errs@) =~= e0 + (if pool_sum(ra.pool.entries@) != ra.among@.len() {
                    seq![
                        ScenarioErrorModel::RoleAssignmentCountMismatch {
                            pool_total: pool_sum(ra.pool.entries@) as u32,
                            among: ra.among@.len() as usize,
                        },
                    ]
                } else {
                    seq![]
                }));
                let among = &ra.among;
                assert(e1 + among_errors(*self, among@.take(0)) =~= e1);
                let mut seen = StrSet::new();
                let mut j: usize = 0;
                while j < among.len()
                    invariant
                        j <= among@.len(),
                        forall|x: Seq<char>| #[trigger] seen@.contains(x) <==> has_view(among@.take(j as int), x),
                        error_views(errs@) == e1 + among_errors(*self, among@.take(j as int)),
                    decreases among@.len() - j,
                {
                    let e = &among[j];
                    proof {
                        reveal_strlit("player");
                    }
                    if !str_eq(e.as_str(), PLAYER) && !self.characters.contains_key(e.as_str()) {
                        push_err(errs, ScenarioError::RoleAssignmentUnknownEntity { entity: e.clone() });
                    }
                    let dup = seen.contains(e.as_str());
                    if dup {
                        push_err(errs, ScenarioError::RoleAssignmentDuplicateEntity { entity: e.clone() });
                    } else {
                        seen.insert(e.clone());
                    }
                    proof {
                        let tk = among@.take(j + 1);
                        let tp = among@.take(j as int);
                        assert(tk.drop_last() =~= tp);
                        assert(tk.last() == *e);
                        assert forall|x: Seq<char>| #[trigger] seen@.contains(x) <==> has_view(tk, x) by {
                            if has_view(tk, x) {
                                let q = choose|q: int| 0 <= q < tk.len() && #[trigger] tk[q]@ == x;
                                if q < j {
                                    assert(tp[q] == tk[q]);
                                }
                            }
                            if has_view(tp, x) {
                                let q = choose|q: int| 0 <= q < tp.len() && #[trigger] tp[q]@ == x;
                                assert(tk[q] == tp[q]);
                            }
                            if x == e@ {
                                assert(tk[j as int] == *e);
                            }
                        }
                    }
                    assert(error_views(errs@) =~= e1 + among_errors(*self, among@.take(j + 1)));
                    j = j + 1;
                }
                assert(among@.take(j as int) =~= among@);
            },
        }
    }

    /// The static inconsistencies of a scenario, checked when it is loaded;
    /// empty when it is sound (see `validate_spec` for what is checked, in order).
    pub fn validate(&self) -> (r: Vec<ScenarioError>)
        requires
            pool_fits(*self),
        ensures
            error_views(r@) == validate_spec(*self),
    {
        let mut errs: Vec<ScenarioError> = Vec::new();
        let cs = &self.challenges.entries;
        assert(error_views(errs@) + challenges_errors(*self, cs@.take(0)) =~= Seq::<ScenarioErrorModel>::empty());
        let mut i: usize = 0;
        while i < cs.len()
            invariant
                i <= cs@.len(),
                *cs == self.challenges.entries,
                error_views(errs@) == challenges_errors(*self, cs@.take(i as int)),
            decreases cs@.len() - i,
        {
            self.push_challenge_errors(&mut errs, &cs[i].0, &cs[i].1);
            assert(cs@.take(i + 1).drop_last() =~= cs@.take(i as int));
            assert(cs@.take(i + 1).last() == cs@[i as int]);
            i = i + 1;
        }
        assert(cs@.take(i as int) =~= cs@);
        self.push_flag_errors(&mut errs, FlagList::Global, &self.global_flags.items);
        self.push_flag_errors(&mut errs, FlagList::Persistent, &self.persistent_flags.items);
        self.push_map_flag_errors(&mut errs, FlagList::Hint, &self.flag_hints.entries);
        self.push_map_flag_errors(&mut errs, FlagList::Title, &self.flag_titles.entries);
        self.push_flag_errors(&mut errs, FlagList::Hidden, &self.hidden_flags.items);
        self.push_trigger_errors(&mut errs);
        self.push_vote_errors(&mut errs);
        self.push_attr_list_errors(&mut errs, false, &self.secret_attributes.items);
        self.push_attr_list_errors(&mut errs, true, &self.hidden_attributes.items);
        self.push_role_errors(&mut errs);
        let ghost e9 = error_views(errs@);
        if self.goal.is_none() && self.goals.len() == 0 {
            push_err(&mut errs, ScenarioError::NoGoal);
        }
        assert(error_views(errs@) =~= validate_spec(*self));
        errs
    }
}

proof fn lemma_pool_sum_prefix(pool: Seq<(String, u32)>, n: int)
    requires
        0 <= n <= pool.len(),
    ensures
        pool_sum(pool.take(n)) <= pool_sum(pool),
        pool_sum(pool.take(n)) >= 0,
    decreases pool.len() - n,
{
    if n < pool.len() {
        lemma_pool_sum_prefix(pool, n + 1);
        assert(pool.take(n + 1).drop_last() =~= pool.take(n));
    } else {
        assert(pool.take(n) =~= pool);
    }
    lemma_pool_sum_nonneg(pool.take(n));
}

proof fn lemma_pool_sum_nonneg(pool: Seq<(String, u32)>)
    ensures
        pool_sum(pool) >= 0,
    decreases pool.len(),
{
    if pool.len() > 0 {
        lemma_pool_sum_nonneg(pool.drop_last());
    }
}

// ---------------------------------------------------------------------------
// The initial state, as mathematics.
// ---------------------------------------------------------------------------

/// Stats written for an entity, in order.
pub open spec fn put_stats(m: StateModel, e: Seq<char>, stats: Seq<(String, i64)>) -> StateModel
    decreases stats.len(),
{
    if stats.len() == 0 {
        m
    } else {
        let m1 = put_stats(m, e, stats.drop_last());
        StateModel { entities: nested_put(m1.entities, e, stats.last().0@, stats.last().1), ..m1 }
    }
}

/// Declared stats written at their initial values, in order.
pub open spec fn put_decl_stats(m: StateModel, e: Seq<char>, stats: Seq<(String, StatDecl)>) -> StateModel
    decreases stats.len(),
{
    if stats.len() == 0 {
        m
    } else {
        let m1 = put_decl_stats(m, e, stats.drop_last());
        StateModel { entities: nested_put(m1.entities, e, stats.last().0@, stats.last().1.initial), ..m1 }
    }
}

/// Skills granted to an entity, in order.
pub open spec fn grant_all(m: StateModel, e: Seq<char>, skills: Seq<String>) -> StateModel
    decreases skills.len(),
{
    if skills.len() == 0 {
        m
    } else {
        let m1 = grant_all(m, e, skills.drop_last());
        StateModel { skills: set_add(m1.skills, e, skills.last()@), ..m1 }
    }
}

/// Items given to an entity, in order.
pub open spec fn give_all(m: StateModel, e: Seq<char>, items: Seq<String>) -> StateModel
    decreases items.len(),
{
    if items.len() == 0 {
        m
    } else {
        let m1 = give_all(m, e, items.drop_last());
        StateModel { inventory: set_add(m1.inventory, e, items.last()@), ..m1 }
    }
}

/// Attributes written for an entity, in order.
pub open spec fn put_attrs(m: StateModel, e: Seq<char>, attrs: Seq<(String, String)>) -> StateModel
    decreases attrs.len(),
{
    if attrs.len() == 0 {
        m
    } else {
        let m1 = put_attrs(m, e, attrs.drop_last());
        StateModel { attributes: nested_put(m1.attributes, e, attrs.last().0@, attrs.last().1@), ..m1 }
    }
}

/// A character's declarations: stats, skills, items, attributes.
pub open spec fn seed_character(m: StateModel, e: Seq<char>, def: CharacterDef) -> StateModel {
    put_attrs(
        give_all(grant_all(put_decl_stats(m, e, def.stats.entries@), e, def.skills.items@), e, def.inventory.items@),
        e,
        def.attributes.entries@,
    )
}

pub open spec fn seed_characters(m: StateModel, chars: Seq<(String, CharacterDef)>) -> StateModel
    decreases chars.len(),
{
    if chars.len() == 0 {
        m
    } else {
        seed_character(seed_characters(m, chars.drop_last()), chars.last().0@, chars.last().1)
    }
}

/// The seed of the separate stream that deals roles (the main dice stream is untouched).
pub open spec fn role_seed(seed: u64) -> u64 {
    seed ^ 0x524F_4C45_5F52_4E47u64
}

/// `x`, `n` times.
pub open spec fn repeat(x: Seq<char>, n: nat) -> Seq<Seq<char>> {
    Seq::new(n, |i: int| x)
}

/// The pool laid out in key order, each role as many times as it is counted.
pub open spec fn expand_pool(pool: Seq<(String, u32)>) -> Seq<Seq<char>>
    decreases pool.len(),
{
    if pool.len() == 0 {
        seq![]
    } else {
        expand_pool(pool.drop_last()) + repeat(pool.last().0@, pool.last().1 as nat)
    }
}

pub open spec fn swap_at(s: Seq<Seq<char>>, i: int, j: int) -> Seq<Seq<char>> {
    s.update(i, s[j]).update(j, s[i])
}

/// Fisher–Yates from position `i` down to 1: position `i` swaps with the
/// position a die of `i + 1` faces picks (less one).
pub open spec fn shuffle_down(s: Seq<Seq<char>>, seed: u64, cursor: u64, i: int) -> Seq<Seq<char>>
    decreases i,
{
    if i <= 0 {
        s
    } else {
        let j = roll_spec(seed, cursor, (i + 1) as u32) - 1;
        shuffle_down(swap_at(s, i, j), seed, next_cursor(cursor), i - 1)
    }
}

/// The dealt roles, in the order they go to the recipients.
pub open spec fn dealt_roles(pool: Seq<(String, u32)>, seed: u64) -> Seq<Seq<char>> {
    let roles = expand_pool(pool);
    shuffle_down(roles, role_seed(seed), 0, roles.len() - 1)
}

/// Recipient `k` gets role `k` (as an attribute) and the alive marker.
pub open spec fn deal_roles(m: StateModel, key: Seq<char>, among: Seq<String>, roles: Seq<Seq<char>>, n: int) -> StateModel
    decreases n,
{
    if n <= 0 {
        m
    } else {
        let m1 = deal_roles(m, key, among, roles, n - 1);
        let e = among[n - 1]@;
        StateModel {
            attributes: nested_put(m1.attributes, e, key, roles[n - 1]),
            entities: nested_put(m1.entities, e, "生存"@, 1),
            ..m1
        }
    }
}

/// The protagonist's counters per role: alive count and its lead over the rest.
pub open spec fn role_counters(m: StateModel, pool: Seq<(String, u32)>, total: i64) -> StateModel
    decreases pool.len(),
{
    if pool.len() == 0 {
        m
    } else {
        let m1 = role_counters(m, pool.drop_last(), total);
        let role = pool.last().0@;
        let n = pool.last().1 as i64;
        let e1 = nested_put(m1.entities, PLAYER@, "生存"@ + role + "数"@, n);
        StateModel { entities: nested_put(e1, PLAYER@, role + "優位"@, (2 * n - total) as i64), ..m1 }
    }
}

pub open spec fn min_int(a: int, b: int) -> int {
    if a < b {
        a
    } else {
        b
    }
}

/// The state a scenario starts in: the start location and seed, the
/// protagonist's declarations, each character's, then the dealt roles.
pub open spec fn initial_spec(sc: Scenario, seed: u64) -> StateModel {
    let m0 = new_state_spec(sc.start@, seed);
    let m1 = put_stats(m0, PLAYER@, sc.initial_stats.entries@);
    let m2 = grant_all(m1, PLAYER@, sc.initial_skills.items@);
    let m3 = give_all(m2, PLAYER@, sc.initial_inventory.items@);
    let m4 = put_attrs(m3, PLAYER@, sc.initial_attributes.entries@);
    let m5 = seed_characters(m4, sc.characters.entries@);
    match sc.role_assignment {
        None => m5,
        Some(ra) => {
            let roles = dealt_roles(ra.pool.entries@, seed);
            let m6 = deal_roles(m5, ra.key@, ra.among@, roles, min_int(ra.among@.len() as int, roles.len() as int));
            let total = ra.among@.len() as i64;
            let m7 = StateModel { entities: nested_put(m6.entities, PLAYER@, "生存者数"@, total), ..m6 };
            role_counters(m7, ra.pool.entries@, total)
        },
    }
}

/// The role declaration fits the counters it is dealt and counted with.
pub open spec fn roles_fit(sc: Scenario) -> bool {
    match sc.role_assignment {
        Some(ra) => pool_sum(ra.pool.entries@) <= u32::MAX && ra.among@.len() <= u32::MAX,
        None => true,
    }
}

/// Whether the role pool's total and the number of recipients fit in a `u32`
/// (see `roles_fit`); the state of such a scenario can be built.
pub fn role_counts_fit(sc: &Scenario) -> (b: bool)
    ensures
        b == roles_fit(*sc),
{
    match &sc.role_assignment {
        None => true,
        Some(ra) => {
            let mut total: u64 = 0;
            let mut i: usize = 0;
            let ghost pool = ra.pool.entries@;
            while i < ra.pool.entries.len()
                invariant
                    i <= pool.len(),
                    pool == ra.pool.entries@,
                    sc.role_assignment == Some(*ra),
                    total == pool_sum(pool.take(i as int)),
                    total <= u32::MAX,
                decreases pool.len() - i,
            {
                assert(pool.take(i + 1).drop_last() =~= pool.take(i as int));
                assert(pool.take(i + 1).last() == pool[i as int]);
                let next: u64 = total + ra.pool.entries[i].1 as u64;
                assert(next == pool_sum(pool.take(i + 1)));
                if next > u32::MAX as u64 {
                    proof {
                        lemma_pool_sum_prefix(pool, i + 1);
                    }
                    return false;
                }
                total = next;
                i = i + 1;
            }
            assert(pool.take(i as int) =~= pool);
            ra.among.len() <= u32::MAX as usize
        },
    }
}


// ---------------------------------------------------------------------------
// The initial state.
// ---------------------------------------------------------------------------

fn put_stats_exec(s: &mut GameState, e: &str, stats: &Vec<(String, i64)>)
    ensures
        final(s)@ == put_stats(old(s)@, e@, stats@),
        old(s).keys_sorted() ==> final(s).keys_sorted(),
{
    let ghost was = s.keys_sorted();
    let ghost m0 = s@;
    let mut i: usize = 0;
    while i < stats.len()
        invariant
            i <= stats@.len(),
            was ==> s.keys_sorted(),
            s@ == put_stats(m0, e@, stats@.take(i as int)),
        decreases stats@.len() - i,
    {
        assert(stats@.take(i + 1).drop_last() =~= stats@.take(i as int));
        assert(stats@.take(i + 1).last() == stats@[i as int]);
        s.set_stat(e, stats[i].0.as_str(), stats[i].1);
        i = i + 1;
    }
    assert(stats@.take(i as int) =~= stats@);
}

fn put_decl_stats_exec(s: &mut GameState, e: &str, stats: &Vec<(String, StatDecl)>)
    ensures
        final(s)@ == put_decl_stats(old(s)@, e@, stats@),
        old(s).keys_sorted() ==> final(s).keys_sorted(),
{
    let ghost was = s.keys_sorted();
    let ghost m0 = s@;
    let mut i: usize = 0;
    while i < stats.len()
        invariant
            i <= stats@.len(),
            was ==> s.keys_sorted(),
            s@ == put_decl_stats(m0, e@, stats@.take(i as int)),
        decreases stats@.len() - i,
    {
        assert(stats@.take(i + 1).drop_last() =~= stats@.take(i as int));
        assert(stats@.take(i + 1).last() == stats@[i as int]);
        s.set_stat(e, stats[i].0.as_str(), stats[i].1.initial);
        i = i + 1;
    }
    assert(stats@.take(i as int) =~= stats@);
}

fn grant_all_exec(s: &mut GameState, e: &str, skills: &Vec<String>)
    ensures
        final(s)@ == grant_all(old(s)@, e@, skills@),
        old(s).keys_sorted() ==> final(s).keys_sorted(),
{
    let ghost was = s.keys_sorted();
    let ghost m0 = s@;
    let mut i: usize = 0;
    while i < skills.len()
        invariant
            i <= skills@.len(),
            was ==> s.keys_sorted(),
            s@ == grant_all(m0, e@, skills@.take(i as int)),
        decreases skills@.len() - i,
    {
        assert(skills@.take(i + 1).drop_last() =~= skills@.take(i as int));
        assert(skills@.take(i + 1).last() == skills@[i as int]);
        s.grant_skill(e, skills[i].as_str());
        i = i + 1;
    }
    assert(skills@.take(i as int) =~= skills@);
}

fn give_all_exec(s: &mut GameState, e: &str, items: &Vec<String>)
    ensures
        final(s)@ == give_all(old(s)@, e@, items@),
        old(s).keys_sorted() ==> final(s).keys_sorted(),
{
    let ghost was = s.keys_sorted();
    let ghost m0 = s@;
    let mut i: usize = 0;
    while i < items.len()
        invariant
            i <= items@.len(),
            was ==> s.keys_sorted(),
            s@ == give_all(m0, e@, items@.take(i as int)),
        decreases items@.len() - i,
    {
        assert(items@.take(i + 1).drop_last() =~= items@.take(i as int));
        assert(items@.take(i + 1).last() == items@[i as int]);
        s.add_to_inventory(e, items[i].as_str());
        i = i + 1;
    }
    assert(items@.take(i as int) =~= items@);
}

fn put_attrs_exec(s: &mut GameState, e: &str, attrs: &Vec<(String, String)>)
    ensures
        final(s)@ == put_attrs(old(s)@, e@, attrs@),
        old(s).keys_sorted() ==> final(s).keys_sorted(),
{
    let ghost was = s.keys_sorted();
    let ghost m0 = s@;
    let mut i: usize = 0;
    while i < attrs.len()
        invariant
            i <= attrs@.len(),
            was ==> s.keys_sorted(),
            s@ == put_attrs(m0, e@, attrs@.take(i as int)),
        decreases attrs@.len() - i,
    {
        assert(attrs@.take(i + 1).drop_last() =~= attrs@.take(i as int));
        assert(attrs@.take(i + 1).last() == attrs@[i as int]);
        s.set_attribute(e, attrs[i].0.as_str(), attrs[i].1.as_str());
        i = i + 1;
    }
    assert(attrs@.take(i as int) =~= attrs@);
}

/// The pool laid out in key order.
fn expand_pool_exec(pool: &Vec<(String, u32)>) -> (r: Vec<String>)
    ensures
        crate::spine::item_keys(r@) == expand_pool(pool@),
{
    let mut roles: Vec<String> = Vec::new();
    let mut i: usize = 0;
    assert(item_keys(roles@) =~= expand_pool(pool@.take(0)));
    while i < pool.len()
        invariant
            i <= pool@.len(),
            item_keys(roles@) == expand_pool(pool@.take(i as int)),
        decreases pool@.len() - i,
    {
        let ghost r0 = item_keys(roles@);
        let n = pool[i].1;
        let mut c: u32 = 0;
        while c < n
            invariant
                i < pool@.len(),
                c <= n,
                n == pool@[i as int].1,
                item_keys(roles@) == r0 + repeat(pool@[i as int].0@, c as nat),
            decreases n - c,
        {
            let ghost before = item_keys(roles@);
            roles.push(pool[i].0.clone());
            assert(item_keys(roles@) =~= before.push(pool@[i as int].0@));
            assert(r0 + repeat(pool@[i as int].0@, (c + 1) as nat) =~= (r0 + repeat(pool@[i as int].0@, c as nat)).push(pool@[i as int].0@));
            c = c + 1;
        }
        assert(pool@.take(i + 1).drop_last() =~= pool@.take(i as int));
        assert(pool@.take(i + 1).last() == pool@[i as int]);
        i = i + 1;
    }
    assert(pool@.take(i as int) =~= pool@);
    roles
}

/// Fisher–Yates on the role stream (see `shuffle_down`).
fn shuffle_roles(roles: &mut Vec<String>, seed: u64)
    requires
        old(roles)@.len() <= u32::MAX,
    ensures
        item_keys(final(roles)@) == shuffle_down(item_keys(old(roles)@), role_seed(seed), 0, old(roles)@.len() - 1),
{
    let ghost goal = shuffle_down(item_keys(roles@), role_seed(seed), 0, roles@.len() - 1);
    let mut rng = RngState { seed: seed ^ 0x524F_4C45_5F52_4E47u64, cursor: 0 };
    let n = roles.len();
    if n <= 1 {
        return;
    }
    let mut i: usize = n - 1;
    while i > 0
        invariant
            i < n,
            roles@.len() == n,
            n <= u32::MAX,
            rng.seed == role_seed(seed),
            shuffle_down(item_keys(roles@), rng.seed, rng.cursor, i as int) == goal,
        decreases i,
    {
        let ghost cur = item_keys(roles@);
        let ghost c0 = rng.cursor;
        let face = rng.roll((i + 1) as u32);
        proof {
            crate::engine::law_roll_in_range(role_seed(seed), c0, (i + 1) as u32);
        }
        let j = (face - 1) as usize;
        let a = roles[i].clone();
        let b = roles[j].clone();
        roles.set(i, b);
        roles.set(j, a);
        assert(item_keys(roles@) =~= swap_at(cur, i as int, j as int));
        i = i - 1;
    }
}

/// Recipient `k` gets role `k` and the alive marker.
fn deal_roles_exec(s: &mut GameState, key: &str, among: &Vec<String>, roles: &Vec<String>)
    ensures
        final(s)@ == deal_roles(old(s)@, key@, among@, item_keys(roles@), min_int(among@.len() as int, roles@.len() as int)),
        old(s).keys_sorted() ==> final(s).keys_sorted(),
{
    let ghost was = s.keys_sorted();
    let ghost m0 = s@;
    let n = if among.len() < roles.len() {
        among.len()
    } else {
        roles.len()
    };
    let mut k: usize = 0;
    while k < n
        invariant
            k <= n,
            was ==> s.keys_sorted(),
            n == min_int(among@.len() as int, roles@.len() as int),
            s@ == deal_roles(m0, key@, among@, item_keys(roles@), k as int),
        decreases n - k,
    {
        s.set_attribute(among[k].as_str(), key, roles[k].as_str());
        s.set_stat(among[k].as_str(), "生存", 1);
        k = k + 1;
    }
}

/// The protagonist's counters per role.
fn role_counters_exec(s: &mut GameState, pool: &Vec<(String, u32)>, total: i64)
    requires
        0 <= total <= u32::MAX,
    ensures
        final(s)@ == role_counters(old(s)@, pool@, total),
        old(s).keys_sorted() ==> final(s).keys_sorted(),
{
    let ghost was = s.keys_sorted();
    let ghost m0 = s@;
    let mut i: usize = 0;
    while i < pool.len()
        invariant
            i <= pool@.len(),
            was ==> s.keys_sorted(),
            0 <= total <= u32::MAX,
            s@ == role_counters(m0, pool@.take(i as int), total),
        decreases pool@.len() - i,
    {
        assert(pool@.take(i + 1).drop_last() =~= pool@.take(i as int));
        assert(pool@.take(i + 1).last() == pool@[i as int]);
        let role = &pool[i].0;
        let n = pool[i].1 as i64;
        let mut alive = String::from_str("生存");
        alive.append(role.as_str());
        alive.append("数");
        s.set_stat(PLAYER, alive.as_str(), n);
        let mut lead = role.clone();
        lead.append("優位");
        s.set_stat(PLAYER, lead.as_str(), 2 * n - total);
        i = i + 1;
    }
    assert(pool@.take(i as int) =~= pool@);
}

impl Scenario {
    /// The state this scenario starts in (see `initial_spec`).
    pub fn initial_state(&self, seed: u64) -> (s: GameState)
        requires
            roles_fit(*self),
        ensures
            s@ == initial_spec(*self, seed),
            s.keys_sorted(),
    {
        let mut s = GameState::new(self.start.as_str(), seed);
        put_stats_exec(&mut s, PLAYER, &self.initial_stats.entries);
        grant_all_exec(&mut s, PLAYER, &self.initial_skills.items);
        give_all_exec(&mut s, PLAYER, &self.initial_inventory.items);
        put_attrs_exec(&mut s, PLAYER, &self.initial_attributes.entries);
        let chars = &self.characters.entries;
        let ghost m4 = s@;
        let mut i: usize = 0;
        while i < chars.len()
            invariant
                i <= chars@.len(),
                *chars == self.characters.entries,
                s@ == seed_characters(m4, chars@.take(i as int)),
                s.keys_sorted(),
            decreases chars@.len() - i,
        {
            assert(chars@.take(i + 1).drop_last() =~= chars@.take(i as int));
            assert(chars@.take(i + 1).last() == chars@[i as int]);
            let eid = chars[i].0.as_str();
            let def = &chars[i].1;
            put_decl_stats_exec(&mut s, eid, &def.stats.entries);
            grant_all_exec(&mut s, eid, &def.skills.items);
            give_all_exec(&mut s, eid, &def.inventory.items);
            put_attrs_exec(&mut s, eid, &def.attributes.entries);
            i = i + 1;
        }
        assert(chars@.take(i as int) =~= chars@);
        match &self.role_assignment {
            None => {},
            Some(ra) => {
                let mut roles = expand_pool_exec(&ra.pool.entries);
                proof {
                    lemma_expand_pool_len(ra.pool.entries@);
                }
                shuffle_roles(&mut roles, seed);
                deal_roles_exec(&mut s, ra.key.as_str(), &ra.among, &roles);
                let total = ra.among.len() as i64;
                s.set_stat(PLAYER, "生存者数", total);
                role_counters_exec(&mut s, &ra.pool.entries, total);
            },
        }
        s
    }
}

proof fn lemma_expand_pool_len(pool: Seq<(String, u32)>)
    ensures
        expand_pool(pool).len() == pool_sum(pool),
    decreases pool.len(),
{
    if pool.len() > 0 {
        lemma_expand_pool_len(pool.drop_last());
    }
}

// ---------------------------------------------------------------------------
// Transition to the next module, as mathematics.
// ---------------------------------------------------------------------------

pub open spec fn inner_of<T>(m: Map<Seq<char>, Map<Seq<char>, T>>, e: Seq<char>) -> Map<Seq<char>, T> {
    if m.contains_key(e) {
        m[e]
    } else {
        Map::empty()
    }
}

pub open spec fn set_of(m: Map<Seq<char>, Set<Seq<char>>>, e: Seq<char>) -> Set<Seq<char>> {
    if m.contains_key(e) {
        m[e]
    } else {
        Set::empty()
    }
}

/// `base` with, for every entity of `over`, its entries written over base's.
pub open spec fn merge_nested<T>(
    base: Map<Seq<char>, Map<Seq<char>, T>>,
    over: Map<Seq<char>, Map<Seq<char>, T>>,
) -> Map<Seq<char>, Map<Seq<char>, T>> {
    Map::new(
        |e: Seq<char>| base.contains_key(e) || over.contains_key(e),
        |e: Seq<char>|
            if over.contains_key(e) {
                inner_of(base, e).union_prefer_right(over[e])
            } else {
                base[e]
            },
    )
}

/// `base` with, for every entity of `over`, its members added.
pub open spec fn merge_sets(base: Map<Seq<char>, Set<Seq<char>>>, over: Map<Seq<char>, Set<Seq<char>>>) -> Map<
    Seq<char>,
    Set<Seq<char>>,
> {
    Map::new(
        |e: Seq<char>| base.contains_key(e) || over.contains_key(e),
        |e: Seq<char>|
            if over.contains_key(e) {
                set_of(base, e).union(over[e])
            } else {
                base[e]
            },
    )
}

/// The flags the previous module declared global, with their values.
pub open spec fn carried_flags(prev: StateModel, global: Set<Seq<char>>) -> Map<Seq<char>, bool> {
    Map::new(|k: Seq<char>| global.contains(k) && prev.flags.contains_key(k), |k: Seq<char>| prev.flags[k])
}

/// The state after moving to this module: this module's initial state with the
/// previous state carried over it — stats, items, skills, attributes and
/// presence overrides kept, the dice stream and the turn continued, the
/// previous module's global flags kept (and the turns they became true), all
/// other flags and the latches dropped, and the location reset to the start.
pub open spec fn transition_spec(sc: Scenario, prev: StateModel, prev_sc: Scenario) -> StateModel {
    let init = initial_spec(sc, prev.seed);
    let flags = init.flags.union_prefer_right(carried_flags(prev, prev_sc.global_flags@));
    StateModel {
        location: init.location,
        inventory: merge_sets(init.inventory, prev.inventory),
        flags,
        entities: merge_nested(init.entities, prev.entities),
        seed: prev.seed,
        cursor: prev.cursor,
        turn: prev.turn,
        fired: init.fired,
        skills: merge_sets(init.skills, prev.skills),
        attributes: merge_nested(init.attributes, prev.attributes),
        present_overrides: prev.present_overrides,
        votes: init.votes,
        flag_turns: Map::new(
            |k: Seq<char>| prev.flag_turns.contains_key(k) && flags.contains_key(k),
            |k: Seq<char>| prev.flag_turns[k],
        ),
        taken: init.taken,
    }
}

// ---------------------------------------------------------------------------
// Transition.
// ---------------------------------------------------------------------------

/// Writes every entry of `src` over `dst`, entity by entity.
fn merge_nested_exec<V: Dup>(dst: &mut StrMap<StrMap<V>>, src: &StrMap<StrMap<V>>)
    ensures
        final(dst)@ == merge_nested(old(dst)@, src@),
        old(dst).sorted() ==> final(dst).sorted(),
        maps_sorted(*old(dst)) ==> maps_sorted(*final(dst)),
{
    let ghost was = dst.sorted();
    let ghost deep = maps_sorted(*dst);
    let ghost base = dst@;
    let ghost over = src@;
    let es = &src.entries;
    let mut i: usize = 0;
    while i < es.len()
        invariant
            i <= es@.len(),
            was ==> dst.sorted(),
            deep ==> maps_sorted(*dst),
            *es == src.entries,
            over == src@,
            dst@ == Map::new(
                |e: Seq<char>| base.contains_key(e) || (has_key(es@.take(i as int), e) && over.contains_key(e)),
                |e: Seq<char>|
                    if has_key(es@.take(i as int), e) && over.contains_key(e) {
                        inner_of(base, e).union_prefer_right(over[e])
                    } else {
                        base[e]
                    },
            ),
        decreases es@.len() - i,
    {
        let e = &es[i].0;
        proof {
            crate::strmap::lemma_pairs_view_dom(es@, e@);
            assert(es@[i as int].0@ == e@);
        }
        let inner = match src.get(e.as_str()) {
            Some(m) => m,
            None => {
                proof {
                    assert(false);
                }
                return;
            },
        };
        let ghost es0 = dst.entries@;
        let ghost d0 = dst@;
        let mut cur = match dst.take(e.as_str()) {
            Some(m) => m,
            None => StrMap::new(),
        };
        proof {
            if deep {
                assert forall|q: int| 0 <= q < dst.entries@.len() implies (#[trigger] dst.entries@[q]).1.sorted() by {
                    let w = choose|w: int| 0 <= w < es0.len() && es0[w] == dst.entries@[q];
                    assert(es0[w].1.sorted());
                }
                if exists|q: int| 0 <= q < es0.len() && #[trigger] es0[q].1 == cur {
                    let q = choose|q: int| 0 <= q < es0.len() && #[trigger] es0[q].1 == cur;
                    assert(es0[q].1.sorted());
                }
            }
        }
        let ghost c0 = cur@;
        assert(c0 == inner_of(d0, e@));
        let ks = &inner.entries;
        let mut j: usize = 0;
        while j < ks.len()
            invariant
                deep ==> maps_sorted(*dst) && cur.sorted(),
                j <= ks@.len(),
                was ==> dst.sorted(),
                *ks == inner.entries,
                cur@ == c0.union_prefer_right(inner@.restrict(Set::new(|k: Seq<char>| has_key(ks@.take(j as int), k)))),
            decreases ks@.len() - j,
        {
            let k = &ks[j].0;
            proof {
                crate::strmap::lemma_pairs_view_dom(ks@, k@);
                assert(ks@[j as int].0@ == k@);
            }
            match inner.get(k.as_str()) {
                Some(v) => {
                    cur.insert(k.clone(), v.dup());
                },
                None => {
                    proof {
                        assert(false);
                    }
                },
            }
            proof {
                let tk = ks@.take(j + 1);
                let tp = ks@.take(j as int);
                assert(tk.drop_last() =~= tp);
                assert(tk.last() == ks@[j as int]);
                assert forall|x: Seq<char>| #[trigger] has_key(tk, x) == (has_key(tp, x) || x == k@) by {
                    lemma_has_key_push(tp, ks@[j as int], x);
                }
                assert(cur@ =~= c0.union_prefer_right(inner@.restrict(Set::new(|x: Seq<char>| has_key(tk, x)))));
            }
            j = j + 1;
        }
        proof {
            assert(ks@.take(j as int) =~= ks@);
            assert forall|x: Seq<char>| #[trigger] has_key(ks@, x) == inner@.contains_key(x) by {
                crate::strmap::lemma_pairs_view_dom(ks@, x);
            }
            assert(inner@.restrict(Set::new(|x: Seq<char>| has_key(ks@, x))) =~= inner@);
        }
        let ghost es1 = dst.entries@;
        let ghost c = cur;
        dst.insert(e.clone(), cur);
        proof {
            if deep {
                assert forall|q: int| 0 <= q < dst.entries@.len() implies (#[trigger] dst.entries@[q]).1.sorted() by {
                    if dst.entries@[q].1 != c {
                        let w = choose|w: int| 0 <= w < es1.len() && es1[w] == dst.entries@[q];
                        assert(es1[w].1.sorted());
                    }
                }
            }
        }
        proof {
            let tk = es@.take(i + 1);
            let tp = es@.take(i as int);
            assert(tk.drop_last() =~= tp);
            assert(tk.last() == es@[i as int]);
            assert forall|x: Seq<char>| #[trigger] has_key(tk, x) == (has_key(tp, x) || x == e@) by {
                lemma_has_key_push(tp, es@[i as int], x);
            }
            assert(over[e@] == inner@);
            let target = Map::new(
                |x: Seq<char>| base.contains_key(x) || (has_key(tk, x) && over.contains_key(x)),
                |x: Seq<char>|
                    if has_key(tk, x) && over.contains_key(x) {
                        inner_of(base, x).union_prefer_right(over[x])
                    } else {
                        base[x]
                    },
            );
            if has_key(tp, e@) {
                assert(c0 == inner_of(base, e@).union_prefer_right(over[e@]));
                assert(c0.union_prefer_right(inner@) =~= inner_of(base, e@).union_prefer_right(over[e@]));
            } else {
                assert(c0 == inner_of(base, e@));
            }
            assert(dst@ =~= target);
        }
        i = i + 1;
    }
    proof {
        assert(es@.take(i as int) =~= es@);
        assert forall|x: Seq<char>| #[trigger] has_key(es@, x) == over.contains_key(x) by {
            crate::strmap::lemma_pairs_view_dom(es@, x);
        }
        assert(dst@ =~= merge_nested(base, over));
    }
}

/// Some entry of `s` has key `k`.
pub open spec fn has_key<V>(s: Seq<(String, V)>, k: Seq<char>) -> bool {
    exists|i: int| 0 <= i < s.len() && #[trigger] s[i].0@ == k
}

proof fn lemma_has_key_push<V>(s: Seq<(String, V)>, p: (String, V), k: Seq<char>)
    ensures
        has_key(s.push(p), k) == (has_key(s, k) || p.0@ == k),
{
    if has_key(s.push(p), k) {
        let i = choose|i: int| 0 <= i < s.push(p).len() && #[trigger] s.push(p)[i].0@ == k;
        if i < s.len() {
            assert(s[i] == s.push(p)[i]);
        }
    }
    if has_key(s, k) {
        let i = choose|i: int| 0 <= i < s.len() && #[trigger] s[i].0@ == k;
        assert(s.push(p)[i] == s[i]);
    }
    if p.0@ == k {
        assert(s.push(p)[s.len() as int] == p);
    }
}

/// Adds every member of `src` to `dst`, entity by entity.
fn merge_sets_exec(dst: &mut StrMap<StrSet>, src: &StrMap<StrSet>)
    ensures
        final(dst)@ == merge_sets(old(dst)@, src@),
        old(dst).sorted() ==> final(dst).sorted(),
        sets_sorted(*old(dst)) ==> sets_sorted(*final(dst)),
{
    let ghost was = dst.sorted();
    let ghost deep = sets_sorted(*dst);
    let ghost base = dst@;
    let ghost over = src@;
    let es = &src.entries;
    let mut i: usize = 0;
    while i < es.len()
        invariant
            i <= es@.len(),
            was ==> dst.sorted(),
            deep ==> sets_sorted(*dst),
            *es == src.entries,
            over == src@,
            dst@ == Map::new(
                |e: Seq<char>| base.contains_key(e) || (has_key(es@.take(i as int), e) && over.contains_key(e)),
                |e: Seq<char>|
                    if has_key(es@.take(i as int), e) && over.contains_key(e) {
                        set_of(base, e).union(over[e])
                    } else {
                        base[e]
                    },
            ),
        decreases es@.len() - i,
    {
        let e = &es[i].0;
        proof {
            crate::strmap::lemma_pairs_view_dom(es@, e@);
            assert(es@[i as int].0@ == e@);
        }
        let inner = match src.get(e.as_str()) {
            Some(m) => m,
            None => {
                proof {
                    assert(false);
                }
                return;
            },
        };
        let ghost es0 = dst.entries@;
        let ghost d0 = dst@;
        let mut cur = match dst.take(e.as_str()) {
            Some(m) => m,
            None => StrSet::new(),
        };
        proof {
            if deep {
                assert forall|q: int| 0 <= q < dst.entries@.len() implies (#[trigger] dst.entries@[q]).1.sorted() by {
                    let w = choose|w: int| 0 <= w < es0.len() && es0[w] == dst.entries@[q];
                    assert(es0[w].1.sorted());
                }
                if exists|q: int| 0 <= q < es0.len() && #[trigger] es0[q].1 == cur {
                    let q = choose|q: int| 0 <= q < es0.len() && #[trigger] es0[q].1 == cur;
                    assert(es0[q].1.sorted());
                }
            }
        }
        let ghost c0 = cur@;
        assert(c0 == set_of(d0, e@));
        let items = &inner.items;
        let mut j: usize = 0;
        while j < items.len()
            invariant
                deep ==> sets_sorted(*dst) && cur.sorted(),
                j <= items@.len(),
                was ==> dst.sorted(),
                *items == inner.items,
                cur@ == c0.union(Set::new(|x: Seq<char>| has_view(items@.take(j as int), x))),
            decreases items@.len() - j,
        {
            let ghost cprev = cur@;
            cur.insert(items[j].clone());
            proof {
                let tk = items@.take(j + 1);
                let tp = items@.take(j as int);
                assert forall|x: Seq<char>| #[trigger] has_view(tk, x) == (has_view(tp, x) || x == items@[j as int]@) by {
                    if has_view(tk, x) {
                        let q = choose|q: int| 0 <= q < tk.len() && #[trigger] tk[q]@ == x;
                        if q < j {
                            assert(tp[q] == tk[q]);
                        }
                    }
                    if has_view(tp, x) {
                        let q = choose|q: int| 0 <= q < tp.len() && #[trigger] tp[q]@ == x;
                        assert(tk[q] == tp[q]);
                    }
                    if x == items@[j as int]@ {
                        assert(tk[j as int] == items@[j as int]);
                    }
                }
                assert(cur@ =~= c0.union(Set::new(|x: Seq<char>| has_view(tk, x))));
            }
            j = j + 1;
        }
        proof {
            assert(items@.take(j as int) =~= items@);
            assert(Set::new(|x: Seq<char>| has_view(items@, x)) =~= inner@);
        }
        let ghost es1 = dst.entries@;
        let ghost c = cur;
        dst.insert(e.clone(), cur);
        proof {
            if deep {
                assert forall|q: int| 0 <= q < dst.entries@.len() implies (#[trigger] dst.entries@[q]).1.sorted() by {
                    if dst.entries@[q].1 != c {
                        let w = choose|w: int| 0 <= w < es1.len() && es1[w] == dst.entries@[q];
                        assert(es1[w].1.sorted());
                    }
                }
            }
        }
        proof {
            let tk = es@.take(i + 1);
            let tp = es@.take(i as int);
            assert(tk.drop_last() =~= tp);
            assert(tk.last() == es@[i as int]);
            assert forall|x: Seq<char>| #[trigger] has_key(tk, x) == (has_key(tp, x) || x == e@) by {
                lemma_has_key_push(tp, es@[i as int], x);
            }
            assert(over[e@] == inner@);
            let target = Map::new(
                |x: Seq<char>| base.contains_key(x) || (has_key(tk, x) && over.contains_key(x)),
                |x: Seq<char>|
                    if has_key(tk, x) && over.contains_key(x) {
                        set_of(base, x).union(over[x])
                    } else {
                        base[x]
                    },
            );
            if has_key(tp, e@) {
                assert(c0 == set_of(base, e@).union(over[e@]));
                assert(c0.union(inner@) =~= set_of(base, e@).union(over[e@]));
            } else {
                assert(c0 == set_of(base, e@));
            }
            assert(dst@ =~= target);
        }
        i = i + 1;
    }
    proof {
        assert(es@.take(i as int) =~= es@);
        assert forall|x: Seq<char>| #[trigger] has_key(es@, x) == over.contains_key(x) by {
            crate::strmap::lemma_pairs_view_dom(es@, x);
        }
        assert(dst@ =~= merge_sets(base, over));
    }
}

impl Scenario {
    /// Moves to this module carrying the previous state over its initial
    /// state (see `transition_spec`).
    pub fn transition(&self, prev: &GameState, prev_scenario: &Scenario) -> (s: GameState)
        requires
            roles_fit(*self),
        ensures
            s@ == transition_spec(*self, prev@, *prev_scenario),
            prev.keys_sorted() ==> s.keys_sorted(),
    {
        let mut s = self.initial_state(prev.rng.seed);
        let ghost init = s@;
        s.rng = RngState { seed: prev.rng.seed, cursor: prev.rng.cursor };
        s.turn = prev.turn;
        merge_nested_exec(&mut s.entities, &prev.entities);
        merge_sets_exec(&mut s.inventory, &prev.inventory);
        merge_sets_exec(&mut s.skills, &prev.skills);
        merge_nested_exec(&mut s.attributes, &prev.attributes);
        s.present_overrides = prev.present_overrides.dup();
        // Flags: only those the previous module declared global.
        let globals = &prev_scenario.global_flags.items;
        let mut flags: StrMap<bool> = StrMap::new();
        std::mem::swap(&mut flags, &mut s.flags);
        let ghost f0 = flags@;
        let mut i: usize = 0;
        while i < globals.len()
            invariant
                i <= globals@.len(),
                *globals == prev_scenario.global_flags.items,
                flags.sorted(),
                prev.keys_sorted() ==> (s.inventory.sorted() && s.entities.sorted() && s.skills.sorted()
                    && s.attributes.sorted() && s.present_overrides.sorted() && s.fired.sorted() && s.votes.sorted()
                    && s.taken.sorted()),
                flags@ == f0.union_prefer_right(
                    Map::new(
                        |k: Seq<char>| has_view(globals@.take(i as int), k) && prev@.flags.contains_key(k),
                        |k: Seq<char>| prev@.flags[k],
                    ),
                ),
            decreases globals@.len() - i,
        {
            let key = &globals[i];
            match prev.flags.get(key.as_str()) {
                Some(v) => {
                    flags.insert(key.clone(), *v);
                },
                None => {},
            }
            proof {
                let tk = globals@.take(i + 1);
                let tp = globals@.take(i as int);
                assert forall|x: Seq<char>| #[trigger] has_view(tk, x) == (has_view(tp, x) || x == key@) by {
                    if has_view(tk, x) {
                        let q = choose|q: int| 0 <= q < tk.len() && #[trigger] tk[q]@ == x;
                        if q < i {
                            assert(tp[q] == tk[q]);
                        }
                    }
                    if has_view(tp, x) {
                        let q = choose|q: int| 0 <= q < tp.len() && #[trigger] tp[q]@ == x;
                        assert(tk[q] == tp[q]);
                    }
                    if x == key@ {
                        assert(tk[i as int] == globals@[i as int]);
                    }
                }
                assert(flags@ =~= f0.union_prefer_right(
                    Map::new(
                        |k: Seq<char>| has_view(tk, k) && prev@.flags.contains_key(k),
                        |k: Seq<char>| prev@.flags[k],
                    ),
                ));
            }
            i = i + 1;
        }
        assert(globals@.take(i as int) =~= globals@);
        s.flags = flags;
        assert(Map::new(
            |k: Seq<char>| has_view(globals@, k) && prev@.flags.contains_key(k),
            |k: Seq<char>| prev@.flags[k],
        ) =~= carried_flags(prev@, prev_scenario.global_flags@));
        // The turn each flag became true, for the flags that survive.
        let mut ft: StrMap<u32> = StrMap::new();
        let es = &prev.flag_turns.entries;
        let mut j: usize = 0;
        while j < es.len()
            invariant
                j <= es@.len(),
                *es == prev.flag_turns.entries,
                ft.sorted(),
                s.flags.sorted(),
                prev.keys_sorted() ==> (s.inventory.sorted() && s.entities.sorted() && s.skills.sorted()
                    && s.attributes.sorted() && s.present_overrides.sorted() && s.fired.sorted() && s.votes.sorted()
                    && s.taken.sorted()),
                ft@ == Map::new(
                    |k: Seq<char>| has_key(es@.take(j as int), k) && prev@.flag_turns.contains_key(k) && s.flags@.contains_key(k),
                    |k: Seq<char>| prev@.flag_turns[k],
                ),
            decreases es@.len() - j,
        {
            let k = &es[j].0;
            if s.flags.contains_key(k.as_str()) {
                match prev.flag_turns.get(k.as_str()) {
                    Some(t) => {
                        ft.insert(k.clone(), *t);
                    },
                    None => {},
                }
            }
            proof {
                let tk = es@.take(j + 1);
                let tp = es@.take(j as int);
                assert(tk =~= tp.push(es@[j as int]));
                assert forall|x: Seq<char>| #[trigger] has_key(tk, x) == (has_key(tp, x) || x == k@) by {
                    lemma_has_key_push(tp, es@[j as int], x);
                }
                assert(ft@ =~= Map::new(
                    |x: Seq<char>| has_key(tk, x) && prev@.flag_turns.contains_key(x) && s.flags@.contains_key(x),
                    |x: Seq<char>| prev@.flag_turns[x],
                ));
            }
            j = j + 1;
        }
        proof {
            assert(es@.take(j as int) =~= es@);
            assert forall|x: Seq<char>| #[trigger] has_key(es@, x) == prev@.flag_turns.contains_key(x) by {
                crate::strmap::lemma_pairs_view_dom(es@, x);
            }
        }
        s.flag_turns = ft;
        proof {
            let t = transition_spec(*self, prev@, *prev_scenario);
            assert(init == initial_spec(*self, prev@.seed));
            assert(s@.location == t.location);
            assert(s@.inventory == t.inventory);
            assert(s@.flags == t.flags);
            assert(s@.entities == t.entities);
            assert(s@.skills == t.skills);
            assert(s@.attributes == t.attributes);
            assert(s@.present_overrides == t.present_overrides);
            assert(s@.flag_turns =~= t.flag_turns);
        }
        assert(s@ =~= transition_spec(*self, prev@, *prev_scenario));
        s
    }
}

// ---------------------------------------------------------------------------
// Laws of the spine.
// ---------------------------------------------------------------------------

proof fn lemma_shuffle_down_perm(s: Seq<Seq<char>>, seed: u64, cursor: u64, i: int)
    requires
        i < s.len(),
        s.len() <= u32::MAX,
    ensures
        shuffle_down(s, seed, cursor, i).to_multiset() == s.to_multiset(),
        shuffle_down(s, seed, cursor, i).len() == s.len(),
    decreases i,
{
    broadcast use vstd::seq_lib::group_to_multiset_ensures;
    broadcast use vstd::multiset::group_multiset_properties;

    if i > 0 {
        let j = roll_spec(seed, cursor, (i + 1) as u32) - 1;
        crate::engine::law_roll_in_range(seed, cursor, (i + 1) as u32);
        assert(0 <= j <= i);
        let s1 = s.update(i, s[j]);
        let s2 = s1.update(j, s[i]);
        assert(s1.to_multiset() == s.to_multiset().insert(s[j]).remove(s[i]));
        assert(s2.to_multiset() == s1.to_multiset().insert(s[i]).remove(s1[j]));
        assert(s1[j] == s[j]);
        assert(s2.to_multiset() =~= s.to_multiset());
        lemma_shuffle_down_perm(swap_at(s, i, j), seed, next_cursor(cursor), i - 1);
    }
}

/// Role dealing hands out exactly the pool: the dealt roles are a permutation
/// of the pool laid out in key order (each role as many times as it counts).
pub proof fn law_dealt_roles_are_the_pool(pool: Seq<(String, u32)>, seed: u64)
    requires
        pool_sum(pool) <= u32::MAX,
    ensures
        dealt_roles(pool, seed).to_multiset() == expand_pool(pool).to_multiset(),
        dealt_roles(pool, seed).len() == pool_sum(pool),
{
    lemma_expand_pool_len(pool);
    let roles = expand_pool(pool);
    if roles.len() > 0 {
        lemma_shuffle_down_perm(roles, role_seed(seed), 0, roles.len() - 1);
    }
}

/// The ending reached: with named goals, the first one in authored order whose
/// gate holds (none when no gate holds); without them, the single goal under
/// the default id when its gate holds. A goal is reached exactly when some
/// ending is, and the goal record handed out is the one whose id is reported.
pub proof fn law_reached_is_the_first_satisfied_goal(sc: Scenario, m: StateModel)
    ensures
        sc.goals@.len() > 0 ==> (reached_spec(sc, m) is None <==> forall|i: int|
            0 <= i < sc.goals@.len() ==> !gate_holds(#[trigger] sc.goals@[i].when@, m)),
        forall|i: int|
            0 <= i < sc.goals@.len() && gate_holds(#[trigger] sc.goals@[i].when@, m) && (forall|j: int|
                0 <= j < i ==> !gate_holds(#[trigger] sc.goals@[j].when@, m)) ==> reached_spec(sc, m) == Some(
                sc.goals@[i].id@,
            ) && first_goal(sc.goals@, m) == Some(i),
        sc.goals@.len() == 0 ==> reached_spec(sc, m) == match sc.goal {
            Some(g) => if gate_holds(g@, m) {
                Some("goal"@)
            } else {
                None
            },
            None => None,
        },
        sc.goals@.len() == 0 ==> first_goal(sc.goals@, m) is None,
        sc.goals@.len() > 0 ==> reached_spec(sc, m) == match first_goal(sc.goals@, m) {
            Some(i) => Some(sc.goals@[i].id@),
            None => None,
        },
{
    reveal_strlit("goal");
    lemma_first_goal(sc.goals@, m);
    assert forall|i: int|
        0 <= i < sc.goals@.len() && gate_holds(#[trigger] sc.goals@[i].when@, m) && (forall|j: int|
            0 <= j < i ==> !gate_holds(#[trigger] sc.goals@[j].when@, m)) implies reached_spec(sc, m) == Some(
        sc.goals@[i].id@,
    ) && first_goal(sc.goals@, m) == Some(i) by {
        match first_goal(sc.goals@, m) {
            Some(k) => {
                if k < i {
                    assert(!gate_holds(sc.goals@[k].when@, m));
                } else if k > i {
                    assert(!gate_holds(sc.goals@[i].when@, m));
                }
            },
            None => {
                assert(!gate_holds(sc.goals@[i].when@, m));
            },
        }
    }
}

/// A consequence of the challenge (an outcome's or a tier's effect) attempts a
/// challenge.
pub open spec fn attempts_in_consequences(def: ChallengeDef) -> bool {
    ||| (def.on_success matches Some(o) && exists|i: int|
        0 <= i < o.effects@.len() && (#[trigger] o.effects@[i]) is AttemptChallenge)
    ||| (def.on_failure matches Some(o) && exists|i: int|
        0 <= i < o.effects@.len() && (#[trigger] o.effects@[i]) is AttemptChallenge)
    ||| exists|t: int, i: int|
        0 <= t < def.tiers.entries@.len() && 0 <= i < def.tiers.entries@[t].1.effects@.len()
            && (#[trigger] def.tiers.entries@[t].1.effects@[i]) is AttemptChallenge
}

proof fn lemma_contains_concat<A>(a: Seq<A>, b: Seq<A>, x: A)
    requires
        a.contains(x) || b.contains(x),
    ensures
        (a + b).contains(x),
{
    if a.contains(x) {
        let i = choose|i: int| 0 <= i < a.len() && a[i] == x;
        assert((a + b)[i] == x);
    } else {
        let i = choose|i: int| 0 <= i < b.len() && b[i] == x;
        assert((a + b)[a.len() + i] == x);
    }
}

proof fn lemma_effect_recursive(sc: Scenario, cid: Seq<char>, ops: Seq<StateOp>, i: int)
    requires
        0 <= i < ops.len(),
        ops[i] is AttemptChallenge,
    ensures
        effect_errors(sc, cid, ops).contains(ScenarioErrorModel::ChallengeEffectRecursive { challenge: cid }),
    decreases ops.len(),
{
    let e = ScenarioErrorModel::ChallengeEffectRecursive { challenge: cid };
    let own = match ops.last() {
        StateOp::AttemptChallenge { .. } => seq![ScenarioErrorModel::ChallengeEffectRecursive { challenge: cid }],
        StateOp::SetAttribute { entity, key, .. } => if !(attr_declared_for(sc, entity@, key@) || role_key_is(sc, key@)) {
            seq![ScenarioErrorModel::AttributeKeyUndeclared { trigger: "challenge:"@ + cid, entity: entity@, key: key@ }]
        } else {
            seq![]
        },
        _ => seq![],
    };
    assert(effect_errors(sc, cid, ops) == effect_errors(sc, cid, ops.drop_last()) + own);
    if i < ops.len() - 1 {
        assert(ops.drop_last()[i] == ops[i]);
        lemma_effect_recursive(sc, cid, ops.drop_last(), i);
    } else {
        assert(own[0] == e);
    }
    lemma_contains_concat(effect_errors(sc, cid, ops.drop_last()), own, e);
}

proof fn lemma_tiers_recursive(sc: Scenario, cid: Seq<char>, tiers: Seq<(String, TierDef)>, t: int, i: int)
    requires
        0 <= t < tiers.len(),
        0 <= i < tiers[t].1.effects@.len(),
        tiers[t].1.effects@[i] is AttemptChallenge,
    ensures
        tiers_effect_errors(sc, cid, tiers).contains(ScenarioErrorModel::ChallengeEffectRecursive { challenge: cid }),
    decreases tiers.len(),
{
    let e = ScenarioErrorModel::ChallengeEffectRecursive { challenge: cid };
    if t < tiers.len() - 1 {
        assert(tiers.drop_last()[t] == tiers[t]);
        lemma_tiers_recursive(sc, cid, tiers.drop_last(), t, i);
    } else {
        lemma_effect_recursive(sc, cid, tiers.last().1.effects@, i);
    }
    lemma_contains_concat(tiers_effect_errors(sc, cid, tiers.drop_last()), effect_errors(sc, cid, tiers.last().1.effects@), e);
}

proof fn lemma_challenge_recursive(sc: Scenario, cid: Seq<char>, def: ChallengeDef)
    requires
        attempts_in_consequences(def),
    ensures
        challenge_errors(sc, cid, def).contains(ScenarioErrorModel::ChallengeEffectRecursive { challenge: cid }),
{
    let e = ScenarioErrorModel::ChallengeEffectRecursive { challenge: cid };
    let a = tier_flag_errors(sc, cid, def.tiers.entries@) + outcome_flag_error(sc, cid, "on_success"@, def.on_success)
        + outcome_flag_error(sc, cid, "on_failure"@, def.on_failure) + subject_stat_error(sc, cid, def)
        + threshold_errors(cid, def.tiers.entries@, def.sides);
    let b = tiers_effect_errors(sc, cid, def.tiers.entries@);
    let c = outcome_effect_errors(sc, cid, def.on_success);
    let d = outcome_effect_errors(sc, cid, def.on_failure);
    if def.on_failure matches Some(o) && exists|i: int|
        0 <= i < o.effects@.len() && (#[trigger] o.effects@[i]) is AttemptChallenge {
        let o = def.on_failure->0;
        let i = choose|i: int| 0 <= i < o.effects@.len() && (#[trigger] o.effects@[i]) is AttemptChallenge;
        lemma_effect_recursive(sc, cid, o.effects@, i);
        lemma_contains_concat(a + b + c, d, e);
    } else {
        if def.on_success matches Some(o) && exists|i: int|
            0 <= i < o.effects@.len() && (#[trigger] o.effects@[i]) is AttemptChallenge {
            let o = def.on_success->0;
            let i = choose|i: int| 0 <= i < o.effects@.len() && (#[trigger] o.effects@[i]) is AttemptChallenge;
            lemma_effect_recursive(sc, cid, o.effects@, i);
            lemma_contains_concat(a + b, c, e);
        } else {
            let (t, i) = choose|t: int, i: int|
                0 <= t < def.tiers.entries@.len() && 0 <= i < def.tiers.entries@[t].1.effects@.len()
                    && (#[trigger] def.tiers.entries@[t].1.effects@[i]) is AttemptChallenge;
            lemma_tiers_recursive(sc, cid, def.tiers.entries@, t, i);
            lemma_contains_concat(a, b, e);
            lemma_contains_concat(a + b, c, e);
        }
        lemma_contains_concat(a + b + c, d, e);
    }
    assert(challenge_errors(sc, cid, def) == a + b + c + d);
}

proof fn lemma_challenges_recursive(sc: Scenario, cs: Seq<(String, ChallengeDef)>, j: int)
    requires
        0 <= j < cs.len(),
        attempts_in_consequences(cs[j].1),
    ensures
        challenges_errors(sc, cs).contains(ScenarioErrorModel::ChallengeEffectRecursive { challenge: cs[j].0@ }),
    decreases cs.len(),
{
    let e = ScenarioErrorModel::ChallengeEffectRecursive { challenge: cs[j].0@ };
    if j < cs.len() - 1 {
        assert(cs.drop_last()[j] == cs[j]);
        lemma_challenges_recursive(sc, cs.drop_last(), j);
    } else {
        lemma_challenge_recursive(sc, cs.last().0@, cs.last().1);
    }
    lemma_contains_concat(challenges_errors(sc, cs.drop_last()), challenge_errors(sc, cs.last().0@, cs.last().1), e);
}

/// A challenge whose consequences (an outcome's or a tier's effects) attempt a
/// challenge is reported: validation names it as recursive.
pub proof fn law_recursive_challenge_effects_are_reported(sc: Scenario, j: int)
    requires
        0 <= j < sc.challenges.entries@.len(),
        attempts_in_consequences(sc.challenges.entries@[j].1),
    ensures
        validate_spec(sc).contains(
            ScenarioErrorModel::ChallengeEffectRecursive { challenge: sc.challenges.entries@[j].0@ },
        ),
{
    let e = ScenarioErrorModel::ChallengeEffectRecursive { challenge: sc.challenges.entries@[j].0@ };
    let a1 = challenges_errors(sc, sc.challenges.entries@);
    lemma_challenges_recursive(sc, sc.challenges.entries@, j);
    let v = validate_spec(sc);
    let i = choose|i: int| 0 <= i < a1.len() && a1[i] == e;
    assert(v == a1 + (v.subrange(a1.len() as int, v.len() as int)));
    assert(v[i] == e);
}

proof fn lemma_flag_errors_report(sc: Scenario, kind: FlagList, keys: Seq<Seq<char>>, j: int)
    requires
        0 <= j < keys.len(),
        !sc.allowed_flags@.contains(keys[j]),
    ensures
        flag_errors(sc, kind, keys).contains(flag_error(kind, keys[j])),
    decreases keys.len(),
{
    let own = if !sc.allowed_flags@.contains(keys.last()) {
        seq![flag_error(kind, keys.last())]
    } else {
        seq![]
    };
    if j < keys.len() - 1 {
        assert(keys.drop_last()[j] == keys[j]);
        lemma_flag_errors_report(sc, kind, keys.drop_last(), j);
    } else {
        assert(own[0] == flag_error(kind, keys[j]));
    }
    lemma_contains_concat(flag_errors(sc, kind, keys.drop_last()), own, flag_error(kind, keys[j]));
}

/// A world flag that is not among the allowed flags is reported.
pub proof fn law_undeclared_global_flags_are_reported(sc: Scenario, j: int)
    requires
        0 <= j < sc.global_flags.items@.len(),
        !sc.allowed_flags@.contains(sc.global_flags.items@[j]@),
    ensures
        validate_spec(sc).contains(ScenarioErrorModel::GlobalFlagUndeclared { flag: sc.global_flags.items@[j]@ }),
{
    let keys = item_keys(sc.global_flags.items@);
    assert(keys[j] == sc.global_flags.items@[j]@);
    lemma_flag_errors_report(sc, FlagList::Global, keys, j);
    let e = ScenarioErrorModel::GlobalFlagUndeclared { flag: keys[j] };
    let a1 = challenges_errors(sc, sc.challenges.entries@);
    let a2 = flag_errors(sc, FlagList::Global, keys);
    lemma_contains_concat(a1, a2, e);
    let v = validate_spec(sc);
    let h = a1 + a2;
    let i = choose|i: int| 0 <= i < h.len() && h[i] == e;
    assert(v == h + v.subrange(h.len() as int, v.len() as int));
    assert(v[i] == e);
}

proof fn lemma_tier_flag_report(sc: Scenario, cid: Seq<char>, tiers: Seq<(String, TierDef)>, t: int)
    requires
        0 <= t < tiers.len(),
        tiers[t].1.flag is Some,
        !sc.allowed_flags@.contains(tiers[t].1.flag->0@),
    ensures
        tier_flag_errors(sc, cid, tiers).contains(
            ScenarioErrorModel::ChallengeFlagUndeclared { challenge: cid, tier: tiers[t].0@, flag: tiers[t].1.flag->0@ },
        ),
    decreases tiers.len(),
{
    let e = ScenarioErrorModel::ChallengeFlagUndeclared { challenge: cid, tier: tiers[t].0@, flag: tiers[t].1.flag->0@ };
    let own = match tiers.last().1.flag {
        Some(f) => if !sc.allowed_flags@.contains(f@) {
            seq![ScenarioErrorModel::ChallengeFlagUndeclared { challenge: cid, tier: tiers.last().0@, flag: f@ }]
        } else {
            seq![]
        },
        None => seq![],
    };
    if t < tiers.len() - 1 {
        assert(tiers.drop_last()[t] == tiers[t]);
        lemma_tier_flag_report(sc, cid, tiers.drop_last(), t);
    } else {
        assert(own[0] == e);
    }
    lemma_contains_concat(tier_flag_errors(sc, cid, tiers.drop_last()), own, e);
}

proof fn lemma_challenges_contain(sc: Scenario, cs: Seq<(String, ChallengeDef)>, j: int, e: ScenarioErrorModel)
    requires
        0 <= j < cs.len(),
        challenge_errors(sc, cs[j].0@, cs[j].1).contains(e),
    ensures
        challenges_errors(sc, cs).contains(e),
    decreases cs.len(),
{
    if j < cs.len() - 1 {
        assert(cs.drop_last()[j] == cs[j]);
        lemma_challenges_contain(sc, cs.drop_last(), j, e);
    }
    lemma_contains_concat(challenges_errors(sc, cs.drop_last()), challenge_errors(sc, cs.last().0@, cs.last().1), e);
}

/// A challenge tier that raises a flag which is not among the allowed flags is
/// reported, naming the challenge, the tier and the flag.
pub proof fn law_undeclared_tier_flags_are_reported(sc: Scenario, j: int, t: int)
    requires
        0 <= j < sc.challenges.entries@.len(),
        0 <= t < sc.challenges.entries@[j].1.tiers.entries@.len(),
        sc.challenges.entries@[j].1.tiers.entries@[t].1.flag is Some,
        !sc.allowed_flags@.contains(sc.challenges.entries@[j].1.tiers.entries@[t].1.flag->0@),
    ensures
        validate_spec(sc).contains(
            ScenarioErrorModel::ChallengeFlagUndeclared {
                challenge: sc.challenges.entries@[j].0@,
                tier: sc.challenges.entries@[j].1.tiers.entries@[t].0@,
                flag: sc.challenges.entries@[j].1.tiers.entries@[t].1.flag->0@,
            },
        ),
{
    let cid = sc.challenges.entries@[j].0@;
    let def = sc.challenges.entries@[j].1;
    let tiers = def.tiers.entries@;
    let e = ScenarioErrorModel::ChallengeFlagUndeclared { challenge: cid, tier: tiers[t].0@, flag: tiers[t].1.flag->0@ };
    lemma_tier_flag_report(sc, cid, tiers, t);
    let a = tier_flag_errors(sc, cid, tiers);
    let ce = challenge_errors(sc, cid, def);
    let i = choose|i: int| 0 <= i < a.len() && a[i] == e;
    assert(ce == a + ce.subrange(a.len() as int, ce.len() as int));
    assert(ce[i] == e);
    lemma_challenges_contain(sc, sc.challenges.entries@, j, e);
    let a1 = challenges_errors(sc, sc.challenges.entries@);
    let v = validate_spec(sc);
    let k = choose|k: int| 0 <= k < a1.len() && a1[k] == e;
    assert(v == a1 + v.subrange(a1.len() as int, v.len() as int));
    assert(v[k] == e);
}

/// What the initial-state writes leave alone.
pub open spec fn start_frame(a: StateModel, b: StateModel) -> bool {
    &&& a.location == b.location
    &&& a.flags == b.flags
    &&& a.seed == b.seed
    &&& a.cursor == b.cursor
    &&& a.turn == b.turn
    &&& a.fired == b.fired
    &&& a.present_overrides == b.present_overrides
    &&& a.votes == b.votes
    &&& a.flag_turns == b.flag_turns
    &&& a.taken == b.taken
}

proof fn lemma_put_stats_frame(m: StateModel, e: Seq<char>, stats: Seq<(String, i64)>)
    ensures
        start_frame(put_stats(m, e, stats), m),
    decreases stats.len(),
{
    if stats.len() > 0 {
        lemma_put_stats_frame(m, e, stats.drop_last());
    }
}

proof fn lemma_put_decl_stats_frame(m: StateModel, e: Seq<char>, stats: Seq<(String, StatDecl)>)
    ensures
        start_frame(put_decl_stats(m, e, stats), m),
    decreases stats.len(),
{
    if stats.len() > 0 {
        lemma_put_decl_stats_frame(m, e, stats.drop_last());
    }
}

proof fn lemma_grant_all_frame(m: StateModel, e: Seq<char>, skills: Seq<String>)
    ensures
        start_frame(grant_all(m, e, skills), m),
    decreases skills.len(),
{
    if skills.len() > 0 {
        lemma_grant_all_frame(m, e, skills.drop_last());
    }
}

proof fn lemma_give_all_frame(m: StateModel, e: Seq<char>, items: Seq<String>)
    ensures
        start_frame(give_all(m, e, items), m),
    decreases items.len(),
{
    if items.len() > 0 {
        lemma_give_all_frame(m, e, items.drop_last());
    }
}

proof fn lemma_put_attrs_frame(m: StateModel, e: Seq<char>, attrs: Seq<(String, String)>)
    ensures
        start_frame(put_attrs(m, e, attrs), m),
    decreases attrs.len(),
{
    if attrs.len() > 0 {
        lemma_put_attrs_frame(m, e, attrs.drop_last());
    }
}

proof fn lemma_seed_characters_frame(m: StateModel, chars: Seq<(String, CharacterDef)>)
    ensures
        start_frame(seed_characters(m, chars), m),
    decreases chars.len(),
{
    if chars.len() > 0 {
        lemma_seed_characters_frame(m, chars.drop_last());
        let m0 = seed_characters(m, chars.drop_last());
        let e = chars.last().0@;
        let def = chars.last().1;
        lemma_put_decl_stats_frame(m0, e, def.stats.entries@);
        let m1 = put_decl_stats(m0, e, def.stats.entries@);
        lemma_grant_all_frame(m1, e, def.skills.items@);
        let m2 = grant_all(m1, e, def.skills.items@);
        lemma_give_all_frame(m2, e, def.inventory.items@);
        let m3 = give_all(m2, e, def.inventory.items@);
        lemma_put_attrs_frame(m3, e, def.attributes.entries@);
    }
}

proof fn lemma_deal_roles_frame(m: StateModel, key: Seq<char>, among: Seq<String>, roles: Seq<Seq<char>>, n: int)
    ensures
        start_frame(deal_roles(m, key, among, roles, n), m),
    decreases n,
{
    if n > 0 {
        lemma_deal_roles_frame(m, key, among, roles, n - 1);
    }
}

proof fn lemma_role_counters_frame(m: StateModel, pool: Seq<(String, u32)>, total: i64)
    ensures
        start_frame(role_counters(m, pool, total), m),
    decreases pool.len(),
{
    if pool.len() > 0 {
        lemma_role_counters_frame(m, pool.drop_last(), total);
    }
}

/// A scenario starts at its start location, with the given seed, turn 0, no
/// flag set and no trigger latched.
pub proof fn law_initial_state_starts_clean(sc: Scenario, seed: u64)
    ensures
        initial_spec(sc, seed).location == sc.start@,
        initial_spec(sc, seed).seed == seed,
        initial_spec(sc, seed).cursor == 0,
        initial_spec(sc, seed).turn == 0,
        initial_spec(sc, seed).flags == Map::<Seq<char>, bool>::empty(),
        initial_spec(sc, seed).fired == Set::<Seq<char>>::empty(),
{
    let m0 = new_state_spec(sc.start@, seed);
    lemma_put_stats_frame(m0, PLAYER@, sc.initial_stats.entries@);
    let m1 = put_stats(m0, PLAYER@, sc.initial_stats.entries@);
    lemma_grant_all_frame(m1, PLAYER@, sc.initial_skills.items@);
    let m2 = grant_all(m1, PLAYER@, sc.initial_skills.items@);
    lemma_give_all_frame(m2, PLAYER@, sc.initial_inventory.items@);
    let m3 = give_all(m2, PLAYER@, sc.initial_inventory.items@);
    lemma_put_attrs_frame(m3, PLAYER@, sc.initial_attributes.entries@);
    let m4 = put_attrs(m3, PLAYER@, sc.initial_attributes.entries@);
    lemma_seed_characters_frame(m4, sc.characters.entries@);
    let m5 = seed_characters(m4, sc.characters.entries@);
    match sc.role_assignment {
        None => {},
        Some(ra) => {
            let roles = dealt_roles(ra.pool.entries@, seed);
            let n = min_int(ra.among@.len() as int, roles.len() as int);
            lemma_deal_roles_frame(m5, ra.key@, ra.among@, roles, n);
            let m6 = deal_roles(m5, ra.key@, ra.among@, roles, n);
            let total = ra.among@.len() as i64;
            let m7 = StateModel { entities: nested_put(m6.entities, PLAYER@, "生存者数"@, total), ..m6 };
            lemma_role_counters_frame(m7, ra.pool.entries@, total);
        },
    }
}

/// The entities of a list are distinct.
pub open spec fn distinct_entities(among: Seq<String>) -> bool {
    forall|a: int, b: int| 0 <= a < b < among.len() ==> #[trigger] among[a]@ != #[trigger] among[b]@
}

proof fn lemma_deal_roles_each(m: StateModel, key: Seq<char>, among: Seq<String>, roles: Seq<Seq<char>>, n: int, i: int)
    requires
        0 <= i < n <= among.len(),
        n <= roles.len(),
        distinct_entities(among),
    ensures
        attribute_spec(deal_roles(m, key, among, roles, n), among[i]@, key) == roles[i],
        stat_spec(deal_roles(m, key, among, roles, n), among[i]@, "生存"@) == 1,
    decreases n,
{
    if i < n - 1 {
        lemma_deal_roles_each(m, key, among, roles, n - 1, i);
        assert(among[i]@ != among[n - 1]@);
    }
}

proof fn lemma_role_counters_keep(m: StateModel, pool: Seq<(String, u32)>, total: i64, e: Seq<char>, k: Seq<char>)
    requires
        k == "生存"@ || k == "生存者数"@,
        forall|j: int| 0 <= j < pool.len() ==> #[trigger] pool[j].0@ != "者"@,
    ensures
        stat_spec(role_counters(m, pool, total), e, k) == stat_spec(m, e, k),
        role_counters(m, pool, total).attributes == m.attributes,
    decreases pool.len(),
{
    reveal_strlit("生存");
    reveal_strlit("生存者数");
    reveal_strlit("数");
    reveal_strlit("優位");
    if pool.len() > 0 {
        lemma_role_counters_keep(m, pool.drop_last(), total, e, k);
        let role = pool.last().0@;
        assert(pool.last().0@ != "者"@);
        let c1 = "生存"@ + role + "数"@;
        let c2 = role + "優位"@;
        if c1 == k {
            if k == "生存"@ {
                assert(c1.len() == k.len());
            } else {
                reveal_strlit("者");
                assert(c1.len() == role.len() + 3);
                assert(role.len() == 1);
                assert(c1[2] == role[0]);
                assert(c1[2] == k[2]);
                assert(role =~= "者"@);
            }
        }
        if c2 == k {
            assert(c2.len() == role.len() + 2);
            assert(c2[c2.len() - 1] == '位');
            assert(k[k.len() - 1] != '位');
        }
    }
}

/// Roles are dealt to the listed entities (when they are distinct and as many
/// as the pool holds): the roles they get are exactly the pool, each of them
/// starts alive, and the protagonist's survivor count is their number (unless
/// a role is named so that its counter takes that name).
pub proof fn law_roles_dealt_to_the_listed(sc: Scenario, seed: u64)
    requires
        sc.role_assignment is Some,
        pool_sum(sc.role_assignment->0.pool.entries@) == sc.role_assignment->0.among@.len(),
        pool_sum(sc.role_assignment->0.pool.entries@) <= u32::MAX,
        distinct_entities(sc.role_assignment->0.among@),
        forall|j: int|
            0 <= j < sc.role_assignment->0.pool.entries@.len() ==> #[trigger] sc.role_assignment->0.pool.entries@[j].0@
                != "者"@,
    ensures
        ({
            let ra = sc.role_assignment->0;
            let m = initial_spec(sc, seed);
            &&& ra.among@.map_values(|e: String| attribute_spec(m, e@, ra.key@)).to_multiset()
                == expand_pool(ra.pool.entries@).to_multiset()
            &&& forall|i: int| 0 <= i < ra.among@.len() ==> stat_spec(m, #[trigger] ra.among@[i]@, "生存"@) == 1
            &&& stat_spec(m, PLAYER@, "生存者数"@) == ra.among@.len()
        }),
{
    reveal_strlit("生存");
    reveal_strlit("生存者数");
    let ra = sc.role_assignment->0;
    let pool = ra.pool.entries@;
    law_dealt_roles_are_the_pool(pool, seed);
    let roles = dealt_roles(pool, seed);
    let n = min_int(ra.among@.len() as int, roles.len() as int);
    assert(n == ra.among@.len());
    let m4 = put_attrs(
        give_all(
            grant_all(put_stats(new_state_spec(sc.start@, seed), PLAYER@, sc.initial_stats.entries@), PLAYER@, sc.initial_skills.items@),
            PLAYER@,
            sc.initial_inventory.items@,
        ),
        PLAYER@,
        sc.initial_attributes.entries@,
    );
    let m5 = seed_characters(m4, sc.characters.entries@);
    let m6 = deal_roles(m5, ra.key@, ra.among@, roles, n);
    let total = ra.among@.len() as i64;
    let m7 = StateModel { entities: nested_put(m6.entities, PLAYER@, "生存者数"@, total), ..m6 };
    let m = initial_spec(sc, seed);
    assert(m == role_counters(m7, pool, total));
    lemma_role_counters_keep(m7, pool, total, PLAYER@, "生存者数"@);
    let got = ra.among@.map_values(|e: String| attribute_spec(m, e@, ra.key@));
    assert forall|i: int| 0 <= i < ra.among@.len() implies stat_spec(m, #[trigger] ra.among@[i]@, "生存"@) == 1 by {
        lemma_deal_roles_each(m5, ra.key@, ra.among@, roles, n, i);
        lemma_role_counters_keep(m7, pool, total, ra.among@[i]@, "生存"@);
        assert("生存者数"@ != "生存"@);
    }
    assert forall|i: int| 0 <= i < got.len() implies #[trigger] got[i] == roles[i] by {
        lemma_deal_roles_each(m5, ra.key@, ra.among@, roles, n, i);
        lemma_role_counters_keep(m7, pool, total, ra.among@[i]@, "生存"@);
    }
    assert(got =~= roles);
}

/// Moving to the next module keeps every stat, item, skill and attribute of
/// the previous state, its presence overrides, the dice stream and the turn;
/// play resumes at the new module's start with no trigger latched, and a flag
/// survives only when the previous module declared it global.
pub proof fn law_transition_carries_state(sc: Scenario, prev: StateModel, prev_sc: Scenario)
    ensures
        ({
            let s = transition_spec(sc, prev, prev_sc);
            &&& forall|e: Seq<char>, k: Seq<char>|
                prev.entities.contains_key(e) && #[trigger] prev.entities[e].contains_key(k)
                    ==> s.entities.contains_key(e) && s.entities[e].contains_key(k)
                    && s.entities[e][k] == prev.entities[e][k]
            &&& forall|e: Seq<char>, x: Seq<char>|
                #[trigger] crate::state::holds(prev, e, x) ==> crate::state::holds(s, e, x)
            &&& forall|e: Seq<char>, x: Seq<char>|
                #[trigger] crate::state::has_skill_spec(prev, e, x) ==> crate::state::has_skill_spec(s, e, x)
            &&& forall|e: Seq<char>, k: Seq<char>|
                prev.attributes.contains_key(e) && #[trigger] prev.attributes[e].contains_key(k)
                    ==> s.attributes.contains_key(e) && s.attributes[e].contains_key(k)
                    && s.attributes[e][k] == prev.attributes[e][k]
            &&& s.present_overrides == prev.present_overrides
            &&& s.seed == prev.seed && s.cursor == prev.cursor && s.turn == prev.turn
            &&& s.location == sc.start@
            &&& s.fired == Set::<Seq<char>>::empty()
            &&& forall|k: Seq<char>|
                #[trigger] s.flags.contains_key(k) <==> (prev_sc.global_flags@.contains(k)
                    && prev.flags.contains_key(k))
            &&& forall|k: Seq<char>| #[trigger] s.flags.contains_key(k) ==> s.flags[k] == prev.flags[k]
        }),
{
    law_initial_state_starts_clean(sc, prev.seed);
}


// ---------------------------------------------------------------------------
// Where the missing-goal error comes from.
// ---------------------------------------------------------------------------

/// No entry of the list is the missing-goal error or the hint warning.
pub open spec fn goal_free(s: Seq<ScenarioErrorModel>) -> bool {
    forall|j: int| 0 <= j < s.len() ==> !(#[trigger] s[j] is NoGoal) && !(s[j] is FlagHintOnAuthoredOnly)
}

proof fn lemma_goal_free_add(a: Seq<ScenarioErrorModel>, b: Seq<ScenarioErrorModel>)
    requires
        goal_free(a),
        goal_free(b),
    ensures
        goal_free(a + b),
{
    assert forall|j: int| 0 <= j < (a + b).len() implies !(#[trigger] (a + b)[j] is NoGoal) && !((a + b)[j] is FlagHintOnAuthoredOnly) by {
        if j < a.len() {
            assert((a + b)[j] == a[j]);
        } else {
            assert((a + b)[j] == b[j - a.len()]);
        }
    }
}

proof fn lemma_tier_flag_goal_free(sc: Scenario, cid: Seq<char>, tiers: Seq<(String, TierDef)>)
    ensures
        goal_free(tier_flag_errors(sc, cid, tiers)),
    decreases tiers.len(),
{
    if tiers.len() > 0 {
        lemma_tier_flag_goal_free(sc, cid, tiers.drop_last());
        let last = match tiers.last().1.flag {
            Some(f) => if !sc.allowed_flags@.contains(f@) {
                seq![ScenarioErrorModel::ChallengeFlagUndeclared { challenge: cid, tier: tiers.last().0@, flag: f@ }]
            } else {
                seq![]
            },
            None => seq![],
        };
        lemma_goal_free_add(tier_flag_errors(sc, cid, tiers.drop_last()), last);
    }
}

proof fn lemma_threshold_goal_free(cid: Seq<char>, tiers: Seq<(String, TierDef)>, sides: u32)
    ensures
        goal_free(threshold_errors(cid, tiers, sides)),
    decreases tiers.len(),
{
    if tiers.len() > 0 {
        lemma_threshold_goal_free(cid, tiers.drop_last(), sides);
        let t = tiers.last().1;
        let n: u32 = match t.threshold {
            Some(n) => n,
            None => 0,
        };
        let last = if (t.natural == Natural::AtMost || t.natural == Natural::AtLeast) && (n < 1 || n > sides) {
            seq![ScenarioErrorModel::TierThresholdOutOfRange { challenge: cid, tier: tiers.last().0@, threshold: n, sides }]
        } else {
            seq![]
        };
        lemma_goal_free_add(threshold_errors(cid, tiers.drop_last(), sides), last);
    }
}

proof fn lemma_effect_goal_free(sc: Scenario, cid: Seq<char>, ops: Seq<StateOp>)
    ensures
        goal_free(effect_errors(sc, cid, ops)),
    decreases ops.len(),
{
    if ops.len() > 0 {
        lemma_effect_goal_free(sc, cid, ops.drop_last());
        let e = effect_errors(sc, cid, ops);
        let p = effect_errors(sc, cid, ops.drop_last());
        assert forall|j: int| 0 <= j < e.len() implies !(#[trigger] e[j] is NoGoal) && !(e[j] is FlagHintOnAuthoredOnly) by {
            if j < p.len() {
                assert(e[j] == p[j]);
            }
        }
    }
}

proof fn lemma_tiers_effect_goal_free(sc: Scenario, cid: Seq<char>, tiers: Seq<(String, TierDef)>)
    ensures
        goal_free(tiers_effect_errors(sc, cid, tiers)),
    decreases tiers.len(),
{
    if tiers.len() > 0 {
        lemma_tiers_effect_goal_free(sc, cid, tiers.drop_last());
        lemma_effect_goal_free(sc, cid, tiers.last().1.effects@);
        lemma_goal_free_add(
            tiers_effect_errors(sc, cid, tiers.drop_last()),
            effect_errors(sc, cid, tiers.last().1.effects@),
        );
    }
}

proof fn lemma_challenge_goal_free(sc: Scenario, cid: Seq<char>, def: ChallengeDef)
    ensures
        goal_free(challenge_errors(sc, cid, def)),
{
    lemma_tier_flag_goal_free(sc, cid, def.tiers.entries@);
    lemma_threshold_goal_free(cid, def.tiers.entries@, def.sides);
    lemma_tiers_effect_goal_free(sc, cid, def.tiers.entries@);
    match def.on_success {
        Some(o) => lemma_effect_goal_free(sc, cid, o.effects@),
        None => {},
    }
    match def.on_failure {
        Some(o) => lemma_effect_goal_free(sc, cid, o.effects@),
        None => {},
    }
    let a = tier_flag_errors(sc, cid, def.tiers.entries@);
    let b = outcome_flag_error(sc, cid, "on_success"@, def.on_success);
    let c = outcome_flag_error(sc, cid, "on_failure"@, def.on_failure);
    let d = subject_stat_error(sc, cid, def);
    let e = threshold_errors(cid, def.tiers.entries@, def.sides);
    let f = tiers_effect_errors(sc, cid, def.tiers.entries@);
    let g = outcome_effect_errors(sc, cid, def.on_success);
    let h = outcome_effect_errors(sc, cid, def.on_failure);
    assert(goal_free(b));
    assert(goal_free(c));
    assert(goal_free(d));
    assert(goal_free(g));
    assert(goal_free(h));
    lemma_goal_free_add(a, b);
    lemma_goal_free_add(a + b, c);
    lemma_goal_free_add(a + b + c, d);
    lemma_goal_free_add(a + b + c + d, e);
    lemma_goal_free_add(a + b + c + d + e, f);
    lemma_goal_free_add(a + b + c + d + e + f, g);
    lemma_goal_free_add(a + b + c + d + e + f + g, h);
}

proof fn lemma_challenges_goal_free(sc: Scenario, cs: Seq<(String, ChallengeDef)>)
    ensures
        goal_free(challenges_errors(sc, cs)),
    decreases cs.len(),
{
    if cs.len() > 0 {
        lemma_challenges_goal_free(sc, cs.drop_last());
        lemma_challenge_goal_free(sc, cs.last().0@, cs.last().1);
        lemma_goal_free_add(challenges_errors(sc, cs.drop_last()), challenge_errors(sc, cs.last().0@, cs.last().1));
    }
}

proof fn lemma_flag_goal_free(sc: Scenario, kind: FlagList, keys: Seq<Seq<char>>)
    ensures
        goal_free(flag_errors(sc, kind, keys)),
    decreases keys.len(),
{
    if keys.len() > 0 {
        lemma_flag_goal_free(sc, kind, keys.drop_last());
        let last = if !sc.allowed_flags@.contains(keys.last()) {
            seq![flag_error(kind, keys.last())]
        } else {
            seq![]
        };
        assert(goal_free(last));
        lemma_goal_free_add(flag_errors(sc, kind, keys.drop_last()), last);
    }
}

proof fn lemma_trigger_effect_goal_free(sc: Scenario, id: Seq<char>, ops: Seq<StateOp>)
    ensures
        goal_free(trigger_effect_errors(sc, id, ops)),
    decreases ops.len(),
{
    if ops.len() > 0 {
        lemma_trigger_effect_goal_free(sc, id, ops.drop_last());
        let e = trigger_effect_errors(sc, id, ops);
        let p = trigger_effect_errors(sc, id, ops.drop_last());
        assert forall|j: int| 0 <= j < e.len() implies !(#[trigger] e[j] is NoGoal) && !(e[j] is FlagHintOnAuthoredOnly) by {
            if j < p.len() {
                assert(e[j] == p[j]);
            }
        }
    }
}

proof fn lemma_triggers_goal_free(sc: Scenario, ts: Seq<Trigger>)
    ensures
        goal_free(triggers_errors(sc, ts)),
    decreases ts.len(),
{
    if ts.len() > 0 {
        lemma_triggers_goal_free(sc, ts.drop_last());
        lemma_trigger_effect_goal_free(sc, ts.last().id@, ts.last().effects@);
        lemma_goal_free_add(triggers_errors(sc, ts.drop_last()), trigger_effect_errors(sc, ts.last().id@, ts.last().effects@));
    }
}

proof fn lemma_vote_goal_free(sc: Scenario, rules: Seq<VoteRule>)
    ensures
        goal_free(vote_errors(sc, rules)),
    decreases rules.len(),
{
    if rules.len() > 0 {
        lemma_vote_goal_free(sc, rules.drop_last());
        let e = vote_errors(sc, rules);
        let p = vote_errors(sc, rules.drop_last());
        assert forall|j: int| 0 <= j < e.len() implies !(#[trigger] e[j] is NoGoal) && !(e[j] is FlagHintOnAuthoredOnly) by {
            if j < p.len() {
                assert(e[j] == p[j]);
            }
        }
    }
}

proof fn lemma_attr_list_goal_free(sc: Scenario, hidden: bool, keys: Seq<Seq<char>>)
    ensures
        goal_free(attr_list_errors(sc, hidden, keys)),
    decreases keys.len(),
{
    if keys.len() > 0 {
        lemma_attr_list_goal_free(sc, hidden, keys.drop_last());
        let e = attr_list_errors(sc, hidden, keys);
        let p = attr_list_errors(sc, hidden, keys.drop_last());
        assert forall|j: int| 0 <= j < e.len() implies !(#[trigger] e[j] is NoGoal) && !(e[j] is FlagHintOnAuthoredOnly) by {
            if j < p.len() {
                assert(e[j] == p[j]);
            }
        }
    }
}

proof fn lemma_among_goal_free(sc: Scenario, among: Seq<String>)
    ensures
        goal_free(among_errors(sc, among)),
    decreases among.len(),
{
    if among.len() > 0 {
        lemma_among_goal_free(sc, among.drop_last());
        let e = among_errors(sc, among);
        let p = among_errors(sc, among.drop_last());
        assert forall|j: int| 0 <= j < e.len() implies !(#[trigger] e[j] is NoGoal) && !(e[j] is FlagHintOnAuthoredOnly) by {
            if j < p.len() {
                assert(e[j] == p[j]);
            }
        }
    }
}

/// Where the missing-goal error stands in the report, and that the hint
/// warning never stands there.
proof fn lemma_validate_errors_shape(sc: Scenario)
    ensures
        validate_spec(sc).contains(ScenarioErrorModel::NoGoal) <==> (sc.goal is None && sc.goals@.len() == 0),
        forall|j: int| 0 <= j < validate_spec(sc).len() ==> !(#[trigger] validate_spec(sc)[j] is FlagHintOnAuthoredOnly),
{
    lemma_challenges_goal_free(sc, sc.challenges.entries@);
    lemma_flag_goal_free(sc, FlagList::Global, item_keys(sc.global_flags.items@));
    lemma_flag_goal_free(sc, FlagList::Persistent, item_keys(sc.persistent_flags.items@));
    lemma_flag_goal_free(sc, FlagList::Hint, entry_keys(sc.flag_hints.entries@));
    lemma_flag_goal_free(sc, FlagList::Title, entry_keys(sc.flag_titles.entries@));
    lemma_flag_goal_free(sc, FlagList::Hidden, item_keys(sc.hidden_flags.items@));
    lemma_triggers_goal_free(sc, sc.triggers@);
    lemma_vote_goal_free(sc, sc.vote_rules@);
    lemma_attr_list_goal_free(sc, false, item_keys(sc.secret_attributes.items@));
    lemma_attr_list_goal_free(sc, true, item_keys(sc.hidden_attributes.items@));
    match sc.role_assignment {
        Some(ra) => lemma_among_goal_free(sc, ra.among@),
        None => {},
    }
    let a1 = challenges_errors(sc, sc.challenges.entries@);
    let a2 = flag_errors(sc, FlagList::Global, item_keys(sc.global_flags.items@));
    let a3 = flag_errors(sc, FlagList::Persistent, item_keys(sc.persistent_flags.items@));
    let a4 = flag_errors(sc, FlagList::Hint, entry_keys(sc.flag_hints.entries@));
    let a5 = flag_errors(sc, FlagList::Title, entry_keys(sc.flag_titles.entries@));
    let a6 = flag_errors(sc, FlagList::Hidden, item_keys(sc.hidden_flags.items@));
    let a7 = triggers_errors(sc, sc.triggers@);
    let a8 = vote_errors(sc, sc.vote_rules@);
    let a9 = attr_list_errors(sc, false, item_keys(sc.secret_attributes.items@));
    let a10 = attr_list_errors(sc, true, item_keys(sc.hidden_attributes.items@));
    let a11 = role_errors(sc);
    match sc.role_assignment {
        Some(ra) => {
            let c = if pool_sum(ra.pool.entries@) != ra.among@.len() {
                seq![
                    ScenarioErrorModel::RoleAssignmentCountMismatch {
                        pool_total: pool_sum(ra.pool.entries@) as u32,
                        among: ra.among@.len() as usize,
                    },
                ]
            } else {
                seq![]
            };
            assert(goal_free(c));
            lemma_goal_free_add(c, among_errors(sc, ra.among@));
        },
        None => {},
    }
    lemma_goal_free_add(a1, a2);
    lemma_goal_free_add(a1 + a2, a3);
    lemma_goal_free_add(a1 + a2 + a3, a4);
    lemma_goal_free_add(a1 + a2 + a3 + a4, a5);
    lemma_goal_free_add(a1 + a2 + a3 + a4 + a5, a6);
    lemma_goal_free_add(a1 + a2 + a3 + a4 + a5 + a6, a7);
    lemma_goal_free_add(a1 + a2 + a3 + a4 + a5 + a6 + a7, a8);
    lemma_goal_free_add(a1 + a2 + a3 + a4 + a5 + a6 + a7 + a8, a9);
    lemma_goal_free_add(a1 + a2 + a3 + a4 + a5 + a6 + a7 + a8 + a9, a10);
    lemma_goal_free_add(a1 + a2 + a3 + a4 + a5 + a6 + a7 + a8 + a9 + a10, a11);
    let head = a1 + a2 + a3 + a4 + a5 + a6 + a7 + a8 + a9 + a10 + a11;
    let tail = if sc.goal is None && sc.goals@.len() == 0 {
        seq![ScenarioErrorModel::NoGoal]
    } else {
        seq![]
    };
    let v = validate_spec(sc);
    assert(v == head + tail);
    if sc.goal is None && sc.goals@.len() == 0 {
        assert(v[head.len() as int] == ScenarioErrorModel::NoGoal);
    } else {
        assert(v =~= head);
        if v.contains(ScenarioErrorModel::NoGoal) {
            let j = choose|j: int| 0 <= j < v.len() && v[j] == ScenarioErrorModel::NoGoal;
            assert(!(head[j] is NoGoal));
        }
    }
    assert forall|j: int| 0 <= j < v.len() implies !(#[trigger] v[j] is FlagHintOnAuthoredOnly) by {
        if j < head.len() {
            assert(v[j] == head[j]);
        } else {
            assert(v[j] == tail[j - head.len()]);
        }
    }
}

/// A scenario is reported as having no goal exactly when it has neither a
/// single goal nor named goals.
pub proof fn law_no_goal_reported_exactly_without_goals(sc: Scenario)
    ensures
        validate_spec(sc).contains(ScenarioErrorModel::NoGoal) <==> (sc.goal is None && sc.goals@.len() == 0),
{
    lemma_validate_errors_shape(sc);
}

/// A hint on an authored-only flag is a warning and never an error: the
/// warnings are exactly the hinted flags (in hint order) that are allowed and
/// authored-only, and the error report never holds one.
pub proof fn law_hint_warning_is_never_fatal(sc: Scenario)
    ensures
        forall|j: int| 0 <= j < validate_spec(sc).len() ==> !(#[trigger] validate_spec(sc)[j] is FlagHintOnAuthoredOnly),
        lint_spec(sc, sc.flag_hints.entries@) == entry_keys(sc.flag_hints.entries@).filter(
            |k: Seq<char>| sc.allowed_flags@.contains(k) && authored_only_spec(sc).contains(k),
        ).map_values(|k: Seq<char>| ScenarioErrorModel::FlagHintOnAuthoredOnly { flag: k }),
{
    lemma_validate_errors_shape(sc);
    lemma_lints_are_filtered_hints(sc, sc.flag_hints.entries@);
}

proof fn lemma_lints_are_filtered_hints(sc: Scenario, hints: Seq<(String, String)>)
    ensures
        lint_spec(sc, hints) == entry_keys(hints).filter(
            |k: Seq<char>| sc.allowed_flags@.contains(k) && authored_only_spec(sc).contains(k),
        ).map_values(|k: Seq<char>| ScenarioErrorModel::FlagHintOnAuthoredOnly { flag: k }),
    decreases hints.len(),
{
    let p = |k: Seq<char>| sc.allowed_flags@.contains(k) && authored_only_spec(sc).contains(k);
    let f = |k: Seq<char>| ScenarioErrorModel::FlagHintOnAuthoredOnly { flag: k };
    if hints.len() == 0 {
        assert(entry_keys(hints) =~= Seq::<Seq<char>>::empty());
        assert(entry_keys(hints).filter(p) =~= Seq::<Seq<char>>::empty());
    } else {
        lemma_lints_are_filtered_hints(sc, hints.drop_last());
        let ks = entry_keys(hints);
        assert(ks.drop_last() =~= entry_keys(hints.drop_last()));
        assert(ks.last() == hints.last().0@);
        reveal(Seq::filter);
        assert(ks.filter(p) == if p(ks.last()) {
            ks.drop_last().filter(p).push(ks.last())
        } else {
            ks.drop_last().filter(p)
        });
        if p(ks.last()) {
            assert(ks.filter(p).map_values(f) =~= ks.drop_last().filter(p).map_values(f) + seq![f(ks.last())]);
        }
    }
}

} // verus!
