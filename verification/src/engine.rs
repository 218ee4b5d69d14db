//! The adjudicator: judges proposed deltas and, only when it accepts one,
//! applies it to the state as a whole.
use vstd::prelude::*;

use crate::gate::{gate_holds, lemma_gate_ignores_flag_turns, Gate, GateModel};
use crate::reason::{reason_views, ReasonModel, RejectReason};
use crate::spine::{
    flag_gate_spec, knows_entity_spec, knows_stat_spec, reached_spec, stat_bounds_spec,
    ChallengeDef, ChallengeMod, ChallengeOutcome, CharacterDef, Location, LocationItem, Natural,
    Scenario, TakeMode, TierDef, Trigger,
};
use crate::state::{
    attribute_spec, flag_spec, has_skill_spec, holds, mix_spec, nested_put, next_cursor, roll_spec, set_add, set_del, stat_spec, GameState,
    RngState, StateDelta, StateModel, StateOp, PLAYER,
};
use crate::strmap::{pairs_view, str_eq, Dup, StrMap, StrSet};

verus! {

broadcast use vstd::std_specs::vec::group_vec_axioms;

// ---------------------------------------------------------------------------
// Results.
// ---------------------------------------------------------------------------

/// The judgement on a delta. A rejection carries structured reasons.
#[derive(Debug)]
pub enum Verdict {
    Accept,
    Reject { reasons: Vec<RejectReason> },
}

/// The meaning of a verdict.
pub enum VerdictModel {
    Accept,
    Reject { reasons: Seq<ReasonModel> },
}

impl View for Verdict {
    type V = VerdictModel;

    open spec fn view(&self) -> VerdictModel {
        match self {
            Verdict::Accept => VerdictModel::Accept,
            Verdict::Reject { reasons } => VerdictModel::Reject { reasons: reason_views(reasons@) },
        }
    }
}

impl Verdict {
    pub fn is_accept(&self) -> (b: bool)
        ensures
            b == (self@ is Accept),
    {
        match self {
            Verdict::Accept => true,
            Verdict::Reject { .. } => false,
        }
    }
}

/// A die rolled by the engine at a narrator's request.
#[derive(Clone, Copy, PartialEq, Eq, Structural, Debug)]
pub struct RollOutcome {
    pub sides: u32,
    pub dc: u32,
    pub result: u32,
    pub success: bool,
}

/// A skill check: `1d{sides} + modifier` against `dc`; the engine decides everything.
#[derive(Debug)]
pub struct CheckOutcome {
    pub entity: String,
    pub stat: String,
    pub sides: u32,
    pub roll: u32,
    pub modifier: i64,
    pub total: i64,
    pub dc: u32,
    pub success: bool,
    /// The authored extreme that the natural roll hit, if any.
    pub tier: Option<String>,
    /// The authored ending narration of a challenge (empty when there is none).
    pub narration: String,
    /// The authored ending sound of a challenge (empty when there is none).
    pub sound: String,
}

/// The meaning of a check outcome.
pub struct CheckModel {
    pub entity: Seq<char>,
    pub stat: Seq<char>,
    pub sides: u32,
    pub roll: u32,
    pub modifier: i64,
    pub total: i64,
    pub dc: u32,
    pub success: bool,
    pub tier: Option<Seq<char>>,
    pub narration: Seq<char>,
    pub sound: Seq<char>,
}

pub open spec fn opt_view(o: Option<String>) -> Option<Seq<char>> {
    match o {
        Some(s) => Some(s@),
        None => None,
    }
}

impl View for CheckOutcome {
    type V = CheckModel;

    open spec fn view(&self) -> CheckModel {
        CheckModel {
            entity: self.entity@,
            stat: self.stat@,
            sides: self.sides,
            roll: self.roll,
            modifier: self.modifier,
            total: self.total,
            dc: self.dc,
            success: self.success,
            tier: opt_view(self.tier),
            narration: self.narration@,
            sound: self.sound@,
        }
    }
}

pub open spec fn check_views(s: Seq<CheckOutcome>) -> Seq<CheckModel> {
    s.map_values(|c: CheckOutcome| c@)
}

/// A reactive beat that fired; `recall` is the memory cue, handed through.
#[derive(Debug)]
pub struct FiredTrigger {
    pub id: String,
    pub narration: String,
    pub recall: Option<String>,
}

pub struct FiredModel {
    pub id: Seq<char>,
    pub narration: Seq<char>,
    pub recall: Option<Seq<char>>,
}

impl View for FiredTrigger {
    type V = FiredModel;

    open spec fn view(&self) -> FiredModel {
        FiredModel { id: self.id@, narration: self.narration@, recall: opt_view(self.recall) }
    }
}

pub open spec fn fired_views(s: Seq<FiredTrigger>) -> Seq<FiredModel> {
    s.map_values(|f: FiredTrigger| f@)
}

/// What an accepted delta produced: dice, checks and the beats it fired.
#[derive(Debug)]
pub struct ApplyOutcome {
    pub rolls: Vec<RollOutcome>,
    pub checks: Vec<CheckOutcome>,
    pub fired: Vec<FiredTrigger>,
}

pub struct OutcomeModel {
    pub rolls: Seq<RollOutcome>,
    pub checks: Seq<CheckModel>,
    pub fired: Seq<FiredModel>,
}

impl View for ApplyOutcome {
    type V = OutcomeModel;

    open spec fn view(&self) -> OutcomeModel {
        OutcomeModel {
            rolls: self.rolls@,
            checks: check_views(self.checks@),
            fired: fired_views(self.fired@),
        }
    }
}

// ---------------------------------------------------------------------------
// Saturating arithmetic on stats.
// ---------------------------------------------------------------------------

/// An integer brought into the range of `i64`.
pub open spec fn clamp_i64(v: int) -> i64 {
    if v > i64::MAX {
        i64::MAX
    } else if v < i64::MIN {
        i64::MIN
    } else {
        v as i64
    }
}

pub open spec fn sat_add(a: i64, b: i64) -> i64 {
    clamp_i64(a + b)
}

pub open spec fn sat_mul(a: i64, b: i64) -> i64 {
    clamp_i64(a * b)
}

pub open spec fn abs_int(a: int) -> int {
    if a < 0 {
        -a
    } else {
        a
    }
}

/// Integer division rounding toward zero (Rust's `/`).
pub open spec fn trunc_div(a: int, d: int) -> int {
    if (a < 0) == (d < 0) {
        abs_int(a) / abs_int(d)
    } else {
        -(abs_int(a) / abs_int(d))
    }
}

/// A stat brought within its declared bounds `[min, max]` (no `max`: unbounded).
pub open spec fn clamp_spec(sc: Scenario, entity: Seq<char>, key: Seq<char>, v: i64) -> i64 {
    let (lo, hi) = stat_bounds_spec(sc, entity, key);
    let w = if v < lo {
        lo
    } else {
        v
    };
    match hi {
        Some(h) => if w > h {
            h
        } else {
            w
        },
        None => w,
    }
}

// ---------------------------------------------------------------------------
// What each op requires (adjudication), as mathematics.
// ---------------------------------------------------------------------------

/// The item declared at a location, if any.
pub open spec fn loc_item(sc: Scenario, at: Seq<char>, item: Seq<char>) -> Option<LocationItem> {
    if sc.locations@.contains_key(at) && sc.locations@[at].items@.contains_key(item) {
        Some(sc.locations@[at].items@[item])
    } else {
        None
    }
}

/// A once-only item already taken from this location.
pub open spec fn taken_here(m: StateModel, item: Seq<char>) -> bool {
    m.taken.contains_key(m.location) && m.taken[m.location].contains(item)
}

/// The first exit, from position `i` on, that leads to `to`.
pub open spec fn first_exit(exits: Seq<crate::spine::Exit>, to: Seq<char>, i: int) -> Option<int>
    decreases exits.len() - i,
{
    if i < 0 || i >= exits.len() {
        None
    } else if exits[i].to@ == to {
        Some(i)
    } else {
        first_exit(exits, to, i + 1)
    }
}

/// The entity that a challenge is made for: its authored entity, else the op's.
pub open spec fn subject_spec(def: ChallengeDef, entity: Seq<char>) -> Seq<char> {
    match def.entity {
        Some(e) => e@,
        None => entity,
    }
}

/// The reasons that a single op is refused, judged against the state before the delta.
pub open spec fn op_reasons(sc: Scenario, loc: Location, m: StateModel, op: StateOp) -> Seq<ReasonModel> {
    match op {
        StateOp::AddItem { item } => if holds(m, PLAYER@, item@) {
            seq![ReasonModel::ItemAlreadyHeld { item: item@ }]
        } else if !loc.items@.contains_key(item@) {
            seq![ReasonModel::ItemNotHere { item: item@ }]
        } else {
            let li = loc.items@[item@];
            if li.take_spec() == TakeMode::Fixed {
                seq![ReasonModel::ItemFixed { item: item@ }]
            } else if li.take_spec() == TakeMode::Once && taken_here(m, item@) {
                seq![ReasonModel::ItemNotHere { item: item@ }]
            } else if !gate_holds(li.when_spec()@, m) {
                seq![ReasonModel::ItemGateUnmet { item: item@ }]
            } else {
                seq![]
            }
        },
        StateOp::RemoveItem { item } => if !holds(m, PLAYER@, item@) {
            seq![ReasonModel::ItemNotHeld { item: item@ }]
        } else {
            seq![]
        },
        StateOp::GiveItem { from, to, item } => (if !holds(m, from@, item@) {
            seq![ReasonModel::ItemNotHeld { item: item@ }]
        } else {
            seq![]
        }) + (if !knows_entity_spec(sc, to@) {
            seq![ReasonModel::UnknownEntity { entity: to@ }]
        } else {
            seq![]
        }),
        StateOp::SetFlag { key, value } => if !sc.allowed_flags@.contains(key@) {
            seq![ReasonModel::FlagNotAllowed { key: key@ }]
        } else if value && !gate_holds(flag_gate_spec(sc, key@), m) {
            seq![ReasonModel::FlagGateUnmet { key: key@ }]
        } else {
            seq![]
        },
        StateOp::Move { to } => match first_exit(loc.exits@, to@, 0) {
            None => seq![ReasonModel::NoExit { to: to@ }],
            Some(i) => if !gate_holds(loc.exits@[i].gate@, m) {
                seq![ReasonModel::MoveGateUnmet { to: to@ }]
            } else {
                seq![]
            },
        },
        StateOp::RequestRoll { sides, dc } => if sides < 1 {
            seq![ReasonModel::DiceSidesInvalid]
        } else {
            seq![]
        },
        StateOp::Check { entity, stat, sides, dc } => (if sides < 1 {
            seq![ReasonModel::DiceSidesInvalid]
        } else {
            seq![]
        }) + (if !knows_stat_spec(sc, entity@, stat@) {
            seq![ReasonModel::UnknownStat { entity: entity@, key: stat@ }]
        } else {
            seq![]
        }),
        StateOp::AttemptChallenge { entity, challenge } => if !sc.challenges@.contains_key(
            challenge@,
        ) {
            seq![ReasonModel::UnknownChallenge { challenge: challenge@ }]
        } else {
            let def = sc.challenges@[challenge@];
            let subject = subject_spec(def, entity@);
            (match def.requires {
                Some(g) => if !gate_holds(g@, m) {
                    seq![ReasonModel::ChallengeLocked { challenge: challenge@ }]
                } else {
                    seq![]
                },
                None => seq![],
            }) + (match def.stat {
                Some(s) => if !knows_stat_spec(sc, subject, s@) {
                    seq![ReasonModel::UnknownStat { entity: subject, key: s@ }]
                } else {
                    seq![]
                },
                None => seq![],
            }) + (if def.sides < 1 {
                seq![ReasonModel::DiceSidesInvalid]
            } else {
                seq![]
            })
        },
        StateOp::AdjustStat { entity, key, delta } => if !knows_stat_spec(sc, entity@, key@) {
            seq![ReasonModel::UnknownStat { entity: entity@, key: key@ }]
        } else {
            seq![]
        },
        StateOp::ScaleStat { entity, key, num, den } => (if !knows_stat_spec(sc, entity@, key@) {
            seq![ReasonModel::UnknownStat { entity: entity@, key: key@ }]
        } else {
            seq![]
        }) + (if den == 0 {
            seq![ReasonModel::DivideByZero { key: key@ }]
        } else {
            seq![]
        }),
        StateOp::GrantSkill { entity, skill } => seq![
            ReasonModel::SkillGrantNotAllowed { entity: entity@, skill: skill@ },
        ],
        StateOp::SetAttribute { entity, key, value } => seq![
            ReasonModel::AttributeSetNotAllowed { entity: entity@, key: key@ },
        ],
        StateOp::RecordTurn { entity, key } => seq![
            ReasonModel::TurnRecordNotAllowed { entity: entity@, key: key@ },
        ],
        StateOp::SetPresence { entity, present } => seq![
            ReasonModel::PresenceSetNotAllowed { entity: entity@ },
        ],
    }
}

/// The reasons of every op, in op order.
pub open spec fn ops_reasons(sc: Scenario, loc: Location, m: StateModel, ops: Seq<StateOp>) -> Seq<
    ReasonModel,
>
    decreases ops.len(),
{
    if ops.len() == 0 {
        seq![]
    } else {
        ops_reasons(sc, loc, m, ops.drop_last()) + op_reasons(sc, loc, m, ops.last())
    }
}

// ---------------------------------------------------------------------------
// What applying ops does, as mathematics.
// ---------------------------------------------------------------------------

/// The state together with the dice and checks produced so far.
pub struct Trace {
    pub state: StateModel,
    pub rolls: Seq<RollOutcome>,
    pub checks: Seq<CheckModel>,
}

/// Whether an authored tier is selected by a natural roll.
pub open spec fn tier_hits(t: TierDef, roll: u32, sides: u32) -> bool {
    match t.natural {
        Natural::Min => roll == 1,
        Natural::Max => roll == sides,
        Natural::AtMost => match t.threshold {
            Some(n) => roll <= n,
            None => false,
        },
        Natural::AtLeast => match t.threshold {
            Some(n) => roll >= n,
            None => false,
        },
    }
}

/// The first tier, in key order from position `i` on, selected by a natural roll.
pub open spec fn first_tier(tiers: Seq<(String, TierDef)>, roll: u32, sides: u32, i: int) -> Option<int>
    decreases tiers.len() - i,
{
    if i < 0 || i >= tiers.len() {
        None
    } else if tier_hits(tiers[i].1, roll, sides) {
        Some(i)
    } else {
        first_tier(tiers, roll, sides, i + 1)
    }
}

/// The sum (saturating) of the bonuses whose condition holds.
pub open spec fn cond_bonus(mods: Seq<ChallengeMod>, m: StateModel) -> i64
    decreases mods.len(),
{
    if mods.len() == 0 {
        0
    } else {
        let rest = cond_bonus(mods.drop_last(), m);
        if gate_holds(mods.last().when@, m) {
            sat_add(rest, mods.last().bonus)
        } else {
            rest
        }
    }
}

/// Sets a flag true (the direct write of an authored consequence).
pub open spec fn raise_flag(m: StateModel, f: Option<String>) -> StateModel {
    match f {
        Some(k) => StateModel { flags: m.flags.insert(k@, true), ..m },
        None => m,
    }
}

/// The flag of an optional outcome.
pub open spec fn outcome_flag(o: Option<ChallengeOutcome>) -> Option<String> {
    match o {
        Some(out) => out.flag,
        None => None,
    }
}

/// A tier's text if it is not empty, else the outcome's text, else nothing.
pub open spec fn prefer_text(tier_text: Option<Seq<char>>, outcome_text: Option<Seq<char>>) -> Seq<char> {
    match tier_text {
        Some(t) => if t.len() > 0 {
            t
        } else {
            match outcome_text {
                Some(o) => o,
                None => Seq::empty(),
            }
        },
        None => match outcome_text {
            Some(o) => o,
            None => Seq::empty(),
        },
    }
}

/// The state after one roll of the die: the cursor moves on.
pub open spec fn after_roll(m: StateModel) -> StateModel {
    StateModel { cursor: next_cursor(m.cursor), ..m }
}

/// Marks `item` as taken from the current location when it is a once-only item there.
pub open spec fn record_take(sc: Scenario, m: StateModel, item: Seq<char>) -> Map<Seq<char>, Set<Seq<char>>> {
    match loc_item(sc, m.location, item) {
        Some(li) => if li.take_spec() == TakeMode::Once {
            set_add(m.taken, m.location, item)
        } else {
            m.taken
        },
        None => m.taken,
    }
}

/// The roll of an authored challenge by `subject`, with its check recorded and
/// its flags raised; also the outcome taken and the tier hit.
pub open spec fn challenge_roll(t: Trace, subject: Seq<char>, def: ChallengeDef) -> (
    Trace,
    Option<ChallengeOutcome>,
    Option<int>,
) {
    let m0 = t.state;
    let roll = roll_spec(m0.seed, m0.cursor, def.sides);
    let m1 = after_roll(m0);
    let stat_mod: i64 = match def.stat {
        Some(s) => stat_spec(m1, subject, s@),
        None => 0,
    };
    let modifier = sat_add(stat_mod, cond_bonus(def.modifiers@, m1));
    let total = sat_add(roll as i64, modifier);
    let success = total >= def.dc;
    let outcome = if success {
        def.on_success
    } else {
        def.on_failure
    };
    let m2 = raise_flag(m1, outcome_flag(outcome));
    let hit = first_tier(def.tiers.entries@, roll, def.sides, 0);
    let m3 = match hit {
        Some(i) => raise_flag(m2, def.tiers.entries@[i].1.flag),
        None => m2,
    };
    let tier_narr: Option<Seq<char>> = match hit {
        Some(i) => Some(def.tiers.entries@[i].1.narration@),
        None => None,
    };
    let tier_sound: Option<Seq<char>> = match hit {
        Some(i) => Some(def.tiers.entries@[i].1.sound@),
        None => None,
    };
    let out_narr: Option<Seq<char>> = match outcome {
        Some(o) => Some(o.narration@),
        None => None,
    };
    let out_sound: Option<Seq<char>> = match outcome {
        Some(o) => Some(o.sound@),
        None => None,
    };
    let check = CheckModel {
        entity: subject,
        stat: match def.stat {
            Some(s) => s@,
            None => Seq::empty(),
        },
        sides: def.sides,
        roll,
        modifier,
        total,
        dc: def.dc,
        success,
        tier: match hit {
            Some(i) => Some(def.tiers.entries@[i].0@),
            None => None,
        },
        narration: prefer_text(tier_narr, out_narr),
        sound: prefer_text(tier_sound, out_sound),
    };
    (Trace { state: m3, rolls: t.rolls, checks: t.checks.push(check) }, outcome, hit)
}

/// An authored challenge attempted by `subject`: the roll and its check and
/// flags, then the outcome's effects, then the tier's effects.
pub open spec fn challenge_step(sc: Scenario, t: Trace, subject: Seq<char>, def: ChallengeDef) -> Trace
    decreases 1int, 0int, 0int,
{
    let (t1, outcome, hit) = challenge_roll(t, subject, def);
    let t2 = match outcome {
        Some(o) => steps(sc, t1, o.effects@, true),
        None => t1,
    };
    match hit {
        Some(i) => steps(sc, t2, def.tiers.entries@[i].1.effects@, true),
        None => t2,
    }
}

/// One op applied without judgement. Inside a challenge's consequences
/// (`nested`) an attempt at another challenge does nothing. An authored effect
/// that cannot be carried out (a die without faces, a division by zero, a
/// challenge whose die has no faces) leaves the trace as it is; a proposal
/// holding such an op never gets here, `adjudicate` refuses it.
pub open spec fn step(sc: Scenario, t: Trace, op: StateOp, nested: bool) -> Trace
    decreases (if nested {
        0int
    } else {
        1int
    }), 0int, 1int,
{
    let m = t.state;
    match op {
        StateOp::AddItem { item } => Trace {
            state: StateModel {
                inventory: set_add(m.inventory, PLAYER@, item@),
                taken: record_take(sc, m, item@),
                ..m
            },
            ..t
        },
        StateOp::RemoveItem { item } => Trace {
            state: StateModel { inventory: set_del(m.inventory, PLAYER@, item@), ..m },
            ..t
        },
        StateOp::GiveItem { from, to, item } => Trace {
            state: StateModel {
                inventory: set_add(set_del(m.inventory, from@, item@), to@, item@),
                ..m
            },
            ..t
        },
        StateOp::SetFlag { key, value } => Trace {
            state: StateModel { flags: m.flags.insert(key@, value), ..m },
            ..t
        },
        StateOp::Move { to } => Trace { state: StateModel { location: to@, ..m }, ..t },
        StateOp::RequestRoll { sides, dc } => if sides == 0 {
            t
        } else {
            let r = roll_spec(m.seed, m.cursor, sides);
            Trace {
                state: after_roll(m),
                rolls: t.rolls.push(RollOutcome { sides, dc, result: r, success: r >= dc }),
                checks: t.checks,
            }
        },
        StateOp::Check { entity, stat, sides, dc } => if sides == 0 {
            t
        } else {
            let r = roll_spec(m.seed, m.cursor, sides);
            let m1 = after_roll(m);
            let modifier = stat_spec(m1, entity@, stat@);
            let total = sat_add(r as i64, modifier);
            Trace {
                state: m1,
                rolls: t.rolls,
                checks: t.checks.push(
                    CheckModel {
                        entity: entity@,
                        stat: stat@,
                        sides,
                        roll: r,
                        modifier,
                        total,
                        dc,
                        success: total >= dc,
                        tier: None,
                        narration: Seq::empty(),
                        sound: Seq::empty(),
                    },
                ),
            }
        },
        StateOp::AttemptChallenge { entity, challenge } => if nested || !sc.challenges@.contains_key(
            challenge@,
        ) || sc.challenges@[challenge@].sides == 0 {
            t
        } else {
            let def = sc.challenges@[challenge@];
            challenge_step(sc, t, subject_spec(def, entity@), def)
        },
        StateOp::AdjustStat { entity, key, delta } => {
            let next = sat_add(stat_spec(m, entity@, key@), delta);
            Trace {
                state: StateModel {
                    entities: nested_put(
                        m.entities,
                        entity@,
                        key@,
                        clamp_spec(sc, entity@, key@, next),
                    ),
                    ..m
                },
                ..t
            }
        },
        StateOp::ScaleStat { entity, key, num, den } => if den == 0 {
            t
        } else {
            let next = clamp_i64(trunc_div(sat_mul(stat_spec(m, entity@, key@), num) as int, den as int));
            Trace {
                state: StateModel {
                    entities: nested_put(
                        m.entities,
                        entity@,
                        key@,
                        clamp_spec(sc, entity@, key@, next),
                    ),
                    ..m
                },
                ..t
            }
        },
        StateOp::GrantSkill { entity, skill } => Trace {
            state: StateModel { skills: set_add(m.skills, entity@, skill@), ..m },
            ..t
        },
        StateOp::SetAttribute { entity, key, value } => Trace {
            state: StateModel { attributes: nested_put(m.attributes, entity@, key@, value@), ..m },
            ..t
        },
        StateOp::RecordTurn { entity, key } => Trace {
            state: StateModel { entities: nested_put(m.entities, entity@, key@, m.turn as i64), ..m },
            ..t
        },
        StateOp::SetPresence { entity, present } => Trace {
            state: StateModel {
                present_overrides: m.present_overrides.insert(entity@, present),
                ..m
            },
            ..t
        },
    }
}

/// Ops applied in order.
pub open spec fn steps(sc: Scenario, t: Trace, ops: Seq<StateOp>, nested: bool) -> Trace
    decreases (if nested {
        0int
    } else {
        1int
    }), ops.len(), 2int,
{
    if ops.len() == 0 {
        t
    } else {
        step(sc, steps(sc, t, ops.drop_last(), nested), ops.last(), nested)
    }
}

pub open spec fn trace_of(m: StateModel, rolls: Seq<RollOutcome>, checks: Seq<CheckOutcome>) -> Trace {
    Trace { state: m, rolls, checks: check_views(checks) }
}

// ---------------------------------------------------------------------------
// Arithmetic.
// ---------------------------------------------------------------------------

fn sat_add_i64(a: i64, b: i64) -> (r: i64)
    ensures
        r == sat_add(a, b),
{
    let s: i128 = a as i128 + b as i128;
    if s > i64::MAX as i128 {
        i64::MAX
    } else if s < i64::MIN as i128 {
        i64::MIN
    } else {
        s as i64
    }
}

fn sat_mul_i64(a: i64, b: i64) -> (r: i64)
    ensures
        r == sat_mul(a, b),
{
    match a.checked_mul(b) {
        Some(p) => p,
        None => {
            if (a < 0) == (b < 0) {
                assert(a * b >= 0) by (nonlinear_arith)
                    requires
                        (a < 0) == (b < 0),
                ;
                i64::MAX
            } else {
                assert(a * b <= 0) by (nonlinear_arith)
                    requires
                        (a < 0) != (b < 0),
                ;
                i64::MIN
            }
        },
    }
}

pub(crate) fn trunc_div_i64(a: i64, d: i64) -> (r: i64)
    requires
        d != 0,
    ensures
        r == clamp_i64(trunc_div(a as int, d as int)),
{
    let ua: u64 = if a < 0 {
        (-(a as i128)) as u64
    } else {
        a as u64
    };
    let ud: u64 = if d < 0 {
        (-(d as i128)) as u64
    } else {
        d as u64
    };
    assert(ua as int == abs_int(a as int));
    assert(ud as int == abs_int(d as int));
    let q: u64 = ua / ud;
    assert(q <= ua) by (nonlinear_arith)
        requires
            ud >= 1,
            q == ua / ud,
    ;
    if (a < 0) == (d < 0) {
        if q > i64::MAX as u64 {
            i64::MAX
        } else {
            q as i64
        }
    } else {
        (-(q as i128)) as i64
    }
}

/// A stat brought within its declared bounds.
fn clamp_stat(sc: &Scenario, entity: &str, key: &str, value: i64) -> (r: i64)
    ensures
        r == clamp_spec(*sc, entity@, key@, value),
{
    let (lo, hi) = sc.stat_bounds(entity, key);
    let w = if value < lo {
        lo
    } else {
        value
    };
    match hi {
        Some(h) => if w > h {
            h
        } else {
            w
        },
        None => w,
    }
}

/// Whether a tier is selected by a natural roll.
fn tier_hits_exec(t: &TierDef, roll: u32, sides: u32) -> (b: bool)
    ensures
        b == tier_hits(*t, roll, sides),
{
    match t.natural {
        Natural::Min => roll == 1,
        Natural::Max => roll == sides,
        Natural::AtMost => match t.threshold {
            Some(n) => roll <= n,
            None => false,
        },
        Natural::AtLeast => match t.threshold {
            Some(n) => roll >= n,
            None => false,
        },
    }
}

/// The first tier (in key order) that a natural roll selects.
fn find_tier(tiers: &Vec<(String, TierDef)>, roll: u32, sides: u32) -> (r: Option<usize>)
    ensures
        match r {
            Some(i) => first_tier(tiers@, roll, sides, 0) == Some(i as int) && i < tiers@.len(),
            None => first_tier(tiers@, roll, sides, 0) is None,
        },
{
    let mut i: usize = 0;
    while i < tiers.len()
        invariant
            i <= tiers@.len(),
            first_tier(tiers@, roll, sides, 0) == first_tier(tiers@, roll, sides, i as int),
        decreases tiers@.len() - i,
    {
        if tier_hits_exec(&tiers[i].1, roll, sides) {
            return Some(i);
        }
        i = i + 1;
    }
    None
}

/// The saturating sum of the bonuses whose condition holds.
fn conditional_bonus(mods: &Vec<ChallengeMod>, s: &GameState) -> (r: i64)
    ensures
        r == cond_bonus(mods@, s@),
{
    let mut acc: i64 = 0;
    let mut i: usize = 0;
    while i < mods.len()
        invariant
            i <= mods@.len(),
            acc == cond_bonus(mods@.take(i as int), s@),
        decreases mods@.len() - i,
    {
        assert(mods@.take(i + 1).drop_last() =~= mods@.take(i as int));
        if mods[i].when.eval(s) {
            acc = sat_add_i64(acc, mods[i].bonus);
        }
        i = i + 1;
    }
    assert(mods@.take(i as int) =~= mods@);
    acc
}

// ---------------------------------------------------------------------------
// Applying ops.
// ---------------------------------------------------------------------------

/// A tier's text unless it is empty, else the outcome's text, else nothing.
fn prefer_text_exec(tier_text: Option<&str>, outcome_text: Option<&str>) -> (r: String)
    ensures
        r@ == prefer_text(
            match tier_text {
                Some(t) => Some(t@),
                None => None,
            },
            match outcome_text {
                Some(o) => Some(o@),
                None => None,
            },
        ),
{
    match tier_text {
        Some(t) => {
            if t.unicode_len() > 0 {
                return String::from_str(t);
            }
        },
        None => {},
    }
    match outcome_text {
        Some(o) => String::from_str(o),
        None => String::new(),
    }
}

/// Applies ops in order, without judgement.
fn apply_ops(
    state: &mut GameState,
    sc: &Scenario,
    ops: &Vec<StateOp>,
    nested: bool,
    rolls: &mut Vec<RollOutcome>,
    checks: &mut Vec<CheckOutcome>,
)
    ensures
        trace_of(final(state)@, final(rolls)@, final(checks)@) == steps(
            *sc,
            trace_of(old(state)@, old(rolls)@, old(checks)@),
            ops@,
            nested,
        ),
        old(state).keys_sorted() ==> final(state).keys_sorted(),
    decreases (if nested {
        0int
    } else {
        1int
    }), 2int,
{
    let ghost t0 = trace_of(state@, rolls@, checks@);
    let ghost was = state.keys_sorted();
    assert(ops@.take(0) =~= Seq::<StateOp>::empty());
    let mut i: usize = 0;
    while i < ops.len()
        invariant
            i <= ops@.len(),
            trace_of(state@, rolls@, checks@) == steps(*sc, t0, ops@.take(i as int), nested),
            was ==> state.keys_sorted(),
        decreases ops@.len() - i,
    {
        assert(ops@.take(i + 1).drop_last() =~= ops@.take(i as int));
        assert(ops@.take(i + 1).last() == ops@[i as int]);
        apply_one(state, sc, &ops[i], nested, rolls, checks);
        i = i + 1;
    }
    assert(ops@.take(i as int) =~= ops@);
}

/// Applies one op, without judgement.
fn apply_one(
    state: &mut GameState,
    sc: &Scenario,
    op: &StateOp,
    nested: bool,
    rolls: &mut Vec<RollOutcome>,
    checks: &mut Vec<CheckOutcome>,
)
    ensures
        trace_of(final(state)@, final(rolls)@, final(checks)@) == step(
            *sc,
            trace_of(old(state)@, old(rolls)@, old(checks)@),
            *op,
            nested,
        ),
        old(state).keys_sorted() ==> final(state).keys_sorted(),
    decreases (if nested {
        0int
    } else {
        1int
    }), 1int,
{
    match op {
        StateOp::AddItem { item } => {
            let once = match sc.location(state.location.as_str()) {
                Some(loc) => match loc.items.get(item.as_str()) {
                    Some(li) => li.take() == TakeMode::Once,
                    None => false,
                },
                None => false,
            };
            if once {
                state.mark_taken(item.as_str());
            }
            state.add_to_inventory(PLAYER, item.as_str());
        },
        StateOp::RemoveItem { item } => {
            state.remove_from_inventory(PLAYER, item.as_str());
        },
        StateOp::GiveItem { from, to, item } => {
            state.remove_from_inventory(from.as_str(), item.as_str());
            state.add_to_inventory(to.as_str(), item.as_str());
        },
        StateOp::SetFlag { key, value } => {
            state.flags.insert(key.clone(), *value);
        },
        StateOp::Move { to } => {
            state.location = to.clone();
        },
        StateOp::RequestRoll { sides, dc } => if *sides >= 1 {
            let r = state.rng.roll(*sides);
            rolls.push(RollOutcome { sides: *sides, dc: *dc, result: r, success: r >= *dc });
        },
        StateOp::Check { entity, stat, sides, dc } => if *sides >= 1 {
            let r = state.rng.roll(*sides);
            let modifier = state.stat_of(entity.as_str(), stat.as_str());
            let total = sat_add_i64(r as i64, modifier);
            let c = CheckOutcome {
                entity: entity.clone(),
                stat: stat.clone(),
                sides: *sides,
                roll: r,
                modifier,
                total,
                dc: *dc,
                success: total >= *dc as i64,
                tier: None,
                narration: String::new(),
                sound: String::new(),
            };
            let ghost before = checks@;
            checks.push(c);
            assert(check_views(checks@) =~= check_views(before).push(c@));
        },
        StateOp::AttemptChallenge { entity, challenge } => {
            if !nested {
                match sc.challenge(challenge.as_str()) {
                    Some(def) => if def.sides >= 1 {
                        let subject: &str = match &def.entity {
                            Some(e) => e.as_str(),
                            None => entity.as_str(),
                        };
                        attempt_challenge(state, sc, subject, def, rolls, checks);
                    },
                    None => {},
                }
            }
        },
        StateOp::AdjustStat { entity, key, delta } => {
            let next = sat_add_i64(state.stat_of(entity.as_str(), key.as_str()), *delta);
            let c = clamp_stat(sc, entity.as_str(), key.as_str(), next);
            state.set_stat(entity.as_str(), key.as_str(), c);
        },
        StateOp::ScaleStat { entity, key, num, den } => if *den != 0 {
            let p = sat_mul_i64(state.stat_of(entity.as_str(), key.as_str()), *num);
            let q = trunc_div_i64(p, *den);
            let c = clamp_stat(sc, entity.as_str(), key.as_str(), q);
            state.set_stat(entity.as_str(), key.as_str(), c);
        },
        StateOp::GrantSkill { entity, skill } => {
            state.grant_skill(entity.as_str(), skill.as_str());
        },
        StateOp::SetAttribute { entity, key, value } => {
            state.set_attribute(entity.as_str(), key.as_str(), value.as_str());
        },
        StateOp::RecordTurn { entity, key } => {
            let t = state.turn as i64;
            state.set_stat(entity.as_str(), key.as_str(), t);
        },
        StateOp::SetPresence { entity, present } => {
            state.present_overrides.insert(entity.clone(), *present);
        },
    }
}

/// An authored challenge attempted by `subject`.
fn attempt_challenge(
    state: &mut GameState,
    sc: &Scenario,
    subject: &str,
    def: &ChallengeDef,
    rolls: &mut Vec<RollOutcome>,
    checks: &mut Vec<CheckOutcome>,
)
    requires
        def.sides >= 1,
    ensures
        trace_of(final(state)@, final(rolls)@, final(checks)@) == challenge_step(
            *sc,
            trace_of(old(state)@, old(rolls)@, old(checks)@),
            subject@,
            *def,
        ),
        old(state).keys_sorted() ==> final(state).keys_sorted(),
    decreases 1int, 0int,
{
    let roll = state.rng.roll(def.sides);
    let stat_mod: i64 = match &def.stat {
        Some(s) => state.stat_of(subject, s.as_str()),
        None => 0,
    };
    let bonus = conditional_bonus(&def.modifiers, state);
    let modifier = sat_add_i64(stat_mod, bonus);
    let total = sat_add_i64(roll as i64, modifier);
    let success = total >= def.dc as i64;
    let outcome: &Option<ChallengeOutcome> = if success {
        &def.on_success
    } else {
        &def.on_failure
    };
    match outcome {
        Some(o) => match &o.flag {
            Some(f) => {
                state.flags.insert(f.clone(), true);
            },
            None => {},
        },
        None => {},
    }
    let hit = find_tier(&def.tiers.entries, roll, def.sides);
    match hit {
        Some(i) => match &def.tiers.entries[i].1.flag {
            Some(f) => {
                state.flags.insert(f.clone(), true);
            },
            None => {},
        },
        None => {},
    }
    let tier_narr: Option<&str> = match hit {
        Some(i) => Some(def.tiers.entries[i].1.narration.as_str()),
        None => None,
    };
    let tier_sound: Option<&str> = match hit {
        Some(i) => Some(def.tiers.entries[i].1.sound.as_str()),
        None => None,
    };
    let out_narr: Option<&str> = match outcome {
        Some(o) => Some(o.narration.as_str()),
        None => None,
    };
    let out_sound: Option<&str> = match outcome {
        Some(o) => Some(o.sound.as_str()),
        None => None,
    };
    let c = CheckOutcome {
        entity: String::from_str(subject),
        stat: match &def.stat {
            Some(s) => s.clone(),
            None => String::new(),
        },
        sides: def.sides,
        roll,
        modifier,
        total,
        dc: def.dc,
        success,
        tier: match hit {
            Some(i) => Some(def.tiers.entries[i].0.clone()),
            None => None,
        },
        narration: prefer_text_exec(tier_narr, out_narr),
        sound: prefer_text_exec(tier_sound, out_sound),
    };
    let ghost before = checks@;
    checks.push(c);
    assert(check_views(checks@) =~= check_views(before).push(c@));
    match outcome {
        Some(o) => {
            apply_ops(state, sc, &o.effects, true, rolls, checks);
        },
        None => {},
    }
    match hit {
        Some(i) => {
            apply_ops(state, sc, &def.tiers.entries[i].1.effects, true, rolls, checks);
        },
        None => {},
    }
}

// ---------------------------------------------------------------------------
// Reactive beats, as mathematics.
// ---------------------------------------------------------------------------

/// A trigger may fire: not yet fired in this apply, not latched, its condition true.
pub open spec fn eligible(sc: Scenario, m: StateModel, done: Seq<bool>, i: int) -> bool {
    &&& !done[i]
    &&& !m.fired.contains(sc.triggers@[i].id@)
    &&& gate_holds(sc.triggers@[i].when@, m)
}

/// The first eligible trigger in authored order, from position `i` on.
pub open spec fn next_trigger(sc: Scenario, m: StateModel, done: Seq<bool>, i: int) -> Option<int>
    decreases sc.triggers@.len() - i,
{
    if i < 0 || i >= sc.triggers@.len() {
        None
    } else if eligible(sc, m, done, i) {
        Some(i)
    } else {
        next_trigger(sc, m, done, i + 1)
    }
}

pub proof fn lemma_next_trigger(sc: Scenario, m: StateModel, done: Seq<bool>, i: int)
    requires
        done.len() == sc.triggers@.len(),
    ensures
        match next_trigger(sc, m, done, i) {
            Some(j) => i <= j < sc.triggers@.len() && eligible(sc, m, done, j),
            None => true,
        },
    decreases sc.triggers@.len() - i,
{
    if 0 <= i < sc.triggers@.len() && !eligible(sc, m, done, i) {
        lemma_next_trigger(sc, m, done, i + 1);
    }
}

/// How many entries are still false.
pub open spec fn count_false(s: Seq<bool>) -> nat
    decreases s.len(),
{
    if s.len() == 0 {
        0
    } else {
        count_false(s.drop_last()) + if s.last() {
            0nat
        } else {
            1nat
        }
    }
}

pub proof fn lemma_count_false_update(s: Seq<bool>, i: int)
    requires
        0 <= i < s.len(),
        !s[i],
    ensures
        count_false(s.update(i, true)) + 1 == count_false(s),
    decreases s.len(),
{
    if i < s.len() - 1 {
        lemma_count_false_update(s.drop_last(), i);
        assert(s.update(i, true).drop_last() =~= s.drop_last().update(i, true));
    } else {
        assert(s.update(i, true).drop_last() =~= s.drop_last());
    }
}

/// A trigger firing: its effects, then its latch unless it is repeatable.
pub open spec fn fire_one(sc: Scenario, t: Trace, i: int) -> Trace {
    let trig = sc.triggers@[i];
    let t1 = steps(sc, t, trig.effects@, false);
    if trig.repeatable {
        t1
    } else {
        Trace { state: StateModel { fired: t1.state.fired.insert(trig.id@), ..t1.state }, ..t1 }
    }
}

pub open spec fn fired_model(trig: Trigger) -> FiredModel {
    FiredModel { id: trig.id@, narration: trig.narration@, recall: opt_view(trig.recall) }
}

/// Fires eligible triggers, first in authored order, until none is left; each
/// trigger fires at most once in one settling.
pub open spec fn settle(sc: Scenario, t: Trace, done: Seq<bool>, fired: Seq<FiredModel>) -> (
    Trace,
    Seq<FiredModel>,
)
    decreases count_false(done),
{
    if done.len() != sc.triggers@.len() {
        (t, fired)
    } else {
        match next_trigger(sc, t.state, done, 0) {
            None => (t, fired),
            Some(i) => {
                proof {
                    lemma_next_trigger(sc, t.state, done, 0);
                    lemma_count_false_update(done, i);
                }
                settle(
                    sc,
                    fire_one(sc, t, i),
                    done.update(i, true),
                    fired.push(fired_model(sc.triggers@[i])),
                )
            },
        }
    }
}

pub open spec fn none_done(n: nat) -> Seq<bool> {
    Seq::new(n, |i: int| false)
}

// ---------------------------------------------------------------------------
// Taboos, adjudication and the whole apply, as mathematics.
// ---------------------------------------------------------------------------

/// The taboos of one entity that the delta turns from false to true.
pub open spec fn entity_taboos(eid: Seq<char>, taboos: Seq<Gate>, m0: StateModel, m1: StateModel) -> Seq<
    ReasonModel,
>
    decreases taboos.len(),
{
    if taboos.len() == 0 {
        seq![]
    } else {
        entity_taboos(eid, taboos.drop_last(), m0, m1) + if !gate_holds(taboos.last()@, m0)
            && gate_holds(taboos.last()@, m1) {
            seq![ReasonModel::TabooViolated { entity: eid }]
        } else {
            seq![]
        }
    }
}

/// The taboos broken, character by character in key order.
pub open spec fn taboo_reasons(chars: Seq<(String, CharacterDef)>, m0: StateModel, m1: StateModel) -> Seq<
    ReasonModel,
>
    decreases chars.len(),
{
    if chars.len() == 0 {
        seq![]
    } else {
        taboo_reasons(chars.drop_last(), m0, m1) + entity_taboos(
            chars.last().0@,
            chars.last().1.taboos@,
            m0,
            m1,
        )
    }
}

pub open spec fn empty_trace(m: StateModel) -> Trace {
    Trace { state: m, rolls: seq![], checks: seq![] }
}

/// The state a delta would lead to (dice rolled, no beats fired).
pub open spec fn projected(sc: Scenario, m: StateModel, ops: Seq<StateOp>) -> StateModel {
    steps(sc, empty_trace(m), ops, false).state
}

/// The judgement: a missing current location; else every op's reasons; else
/// every taboo the delta would break; else acceptance.
pub open spec fn adjudicate_spec(m: StateModel, sc: Scenario, ops: Seq<StateOp>) -> VerdictModel {
    if !sc.locations@.contains_key(m.location) {
        VerdictModel::Reject { reasons: seq![ReasonModel::CurrentLocationMissing { location: m.location }] }
    } else {
        let rs = ops_reasons(sc, sc.locations@[m.location], m, ops);
        if rs.len() > 0 {
            VerdictModel::Reject { reasons: rs }
        } else {
            let ts = taboo_reasons(sc.characters.entries@, m, projected(sc, m, ops));
            if ts.len() > 0 {
                VerdictModel::Reject { reasons: ts }
            } else {
                VerdictModel::Accept
            }
        }
    }
}

/// A flag that is true after but was not true before.
pub open spec fn newly_true(before: Map<Seq<char>, bool>, after: Map<Seq<char>, bool>, k: Seq<char>) -> bool {
    after.contains_key(k) && after[k] && !(before.contains_key(k) && before[k])
}

/// Records `turn` as the turn at which each newly true flag became true.
pub open spec fn stamp_flags(before: Map<Seq<char>, bool>, m: StateModel, turn: u32) -> StateModel {
    StateModel {
        flag_turns: Map::new(
            |k: Seq<char>| m.flag_turns.contains_key(k) || newly_true(before, m.flags, k),
            |k: Seq<char>|
                if newly_true(before, m.flags, k) {
                    turn
                } else {
                    m.flag_turns[k]
                },
        ),
        ..m
    }
}

/// An accepted delta: its ops in order, the turn moves on, reactive beats
/// settle, and newly true flags are stamped with the new turn.
pub open spec fn apply_spec(m0: StateModel, sc: Scenario, ops: Seq<StateOp>) -> (StateModel, OutcomeModel) {
    let t1 = steps(sc, empty_trace(m0), ops, false);
    let turn = (m0.turn + 1) as u32;
    let t2 = Trace { state: StateModel { turn, ..t1.state }, ..t1 };
    let (t3, fired) = settle(sc, t2, none_done(sc.triggers@.len()), seq![]);
    (stamp_flags(m0.flags, t3.state, turn), OutcomeModel { rolls: t3.rolls, checks: t3.checks, fired })
}

// ---------------------------------------------------------------------------
// Firing reactive beats.
// ---------------------------------------------------------------------------

fn clone_opt(o: &Option<String>) -> (r: Option<String>)
    ensures
        opt_view(r) == opt_view(*o),
{
    match o {
        Some(s) => Some(s.clone()),
        None => None,
    }
}

/// The first eligible trigger in authored order.
fn find_next_trigger(state: &GameState, sc: &Scenario, done: &Vec<bool>) -> (r: Option<usize>)
    requires
        done@.len() == sc.triggers@.len(),
    ensures
        match r {
            Some(i) => next_trigger(*sc, state@, done@, 0) == Some(i as int) && i < sc.triggers@.len(),
            None => next_trigger(*sc, state@, done@, 0) is None,
        },
{
    let mut i: usize = 0;
    while i < sc.triggers.len()
        invariant
            i <= sc.triggers@.len(),
            done@.len() == sc.triggers@.len(),
            next_trigger(*sc, state@, done@, 0) == next_trigger(*sc, state@, done@, i as int),
        decreases sc.triggers@.len() - i,
    {
        let t = &sc.triggers[i];
        if !done[i] && !state.fired.contains(t.id.as_str()) && t.when.eval(state) {
            return Some(i);
        }
        i = i + 1;
    }
    None
}

/// Fires every trigger whose condition holds until none is left (see `settle`).
fn fire_triggers(
    state: &mut GameState,
    sc: &Scenario,
    rolls: &mut Vec<RollOutcome>,
    checks: &mut Vec<CheckOutcome>,
) -> (fired: Vec<FiredTrigger>)
    ensures
        (trace_of(final(state)@, final(rolls)@, final(checks)@), fired_views(fired@)) == settle(
            *sc,
            trace_of(old(state)@, old(rolls)@, old(checks)@),
            none_done(sc.triggers@.len()),
            seq![],
        ),
        old(state).keys_sorted() ==> final(state).keys_sorted(),
{
    let ghost was = state.keys_sorted();
    let ghost goal = settle(
        *sc,
        trace_of(state@, rolls@, checks@),
        none_done(sc.triggers@.len()),
        seq![],
    );
    let mut done: Vec<bool> = Vec::new();
    let mut k: usize = 0;
    while k < sc.triggers.len()
        invariant
            k <= sc.triggers@.len(),
            done@ =~= none_done(k as nat),
        decreases sc.triggers@.len() - k,
    {
        done.push(false);
        k = k + 1;
    }
    let mut fired: Vec<FiredTrigger> = Vec::new();
    assert(fired_views(fired@) =~= Seq::<FiredModel>::empty());
    loop
        invariant
            done@.len() == sc.triggers@.len(),
            settle(*sc, trace_of(state@, rolls@, checks@), done@, fired_views(fired@)) == goal,
            was ==> state.keys_sorted(),
        ensures
            (trace_of(state@, rolls@, checks@), fired_views(fired@)) == goal,
            was ==> state.keys_sorted(),
        decreases count_false(done@),
    {
        match find_next_trigger(state, sc, &done) {
            None => {
                break;
            },
            Some(i) => {
                proof {
                    lemma_next_trigger(*sc, state@, done@, 0);
                    lemma_count_false_update(done@, i as int);
                }
                let ghost t0 = trace_of(state@, rolls@, checks@);
                let ghost f0 = fired_views(fired@);
                let trig = &sc.triggers[i];
                apply_ops(state, sc, &trig.effects, false, rolls, checks);
                if !trig.repeatable {
                    state.fired.insert(trig.id.clone());
                }
                let f = FiredTrigger {
                    id: trig.id.clone(),
                    narration: trig.narration.clone(),
                    recall: clone_opt(&trig.recall),
                };
                fired.push(f);
                assert(fired_views(fired@) =~= f0.push(fired_model(sc.triggers@[i as int])));
                done.set(i, true);
                assert(trace_of(state@, rolls@, checks@) == fire_one(*sc, t0, i as int));
            },
        }
    }
    fired
}

// ---------------------------------------------------------------------------
// Adjudication.
// ---------------------------------------------------------------------------

fn push_reason(reasons: &mut Vec<RejectReason>, r: RejectReason)
    ensures
        reason_views(final(reasons)@) == reason_views(old(reasons)@) + seq![r@],
{
    let ghost before = reasons@;
    reasons.push(r);
    assert(reason_views(reasons@) =~= reason_views(before) + seq![r@]);
}

/// Index of the first exit leading to `to`.
fn find_exit(exits: &Vec<crate::spine::Exit>, to: &str) -> (r: Option<usize>)
    ensures
        match r {
            Some(i) => first_exit(exits@, to@, 0) == Some(i as int) && i < exits@.len(),
            None => first_exit(exits@, to@, 0) is None,
        },
{
    let mut i: usize = 0;
    while i < exits.len()
        invariant
            i <= exits@.len(),
            first_exit(exits@, to@, 0) == first_exit(exits@, to@, i as int),
        decreases exits@.len() - i,
    {
        if str_eq(exits[i].to.as_str(), to) {
            return Some(i);
        }
        i = i + 1;
    }
    None
}

/// Appends the reasons that one op is refused (see `op_reasons`).
fn push_op_reasons(
    reasons: &mut Vec<RejectReason>,
    state: &GameState,
    sc: &Scenario,
    loc: &Location,
    op: &StateOp,
)
    ensures
        reason_views(final(reasons)@) == reason_views(old(reasons)@) + op_reasons(*sc, *loc, state@, *op),
{
    let ghost r0 = reason_views(reasons@);
    match op {
        StateOp::AddItem { item } => {
            if state.has_item(PLAYER, item.as_str()) {
                push_reason(reasons, RejectReason::ItemAlreadyHeld { item: item.clone() });
            } else {
                match loc.items.get(item.as_str()) {
                    None => {
                        push_reason(reasons, RejectReason::ItemNotHere { item: item.clone() });
                    },
                    Some(li) => {
                        let tk = li.take();
                        let taken = match state.taken.get(state.location.as_str()) {
                            Some(t) => t.contains(item.as_str()),
                            None => false,
                        };
                        if tk == TakeMode::Fixed {
                            push_reason(reasons, RejectReason::ItemFixed { item: item.clone() });
                        } else if tk == TakeMode::Once && taken {
                            push_reason(reasons, RejectReason::ItemNotHere { item: item.clone() });
                        } else if !li.when().eval(state) {
                            push_reason(reasons, RejectReason::ItemGateUnmet { item: item.clone() });
                        } else {
                            assert(reason_views(reasons@) =~= r0 + op_reasons(*sc, *loc, state@, *op));
                        }
                    },
                }
            }
        },
        StateOp::RemoveItem { item } => {
            if !state.has_item(PLAYER, item.as_str()) {
                push_reason(reasons, RejectReason::ItemNotHeld { item: item.clone() });
            } else {
                assert(reason_views(reasons@) =~= r0 + op_reasons(*sc, *loc, state@, *op));
            }
        },
        StateOp::GiveItem { from, to, item } => {
            let a = !state.has_item(from.as_str(), item.as_str());
            if a {
                push_reason(reasons, RejectReason::ItemNotHeld { item: item.clone() });
            }
            let ghost r1 = reason_views(reasons@);
            if !sc.knows_entity(to.as_str()) {
                push_reason(reasons, RejectReason::UnknownEntity { entity: to.clone() });
            }
            assert(reason_views(reasons@) =~= r0 + op_reasons(*sc, *loc, state@, *op));
        },
        StateOp::SetFlag { key, value } => {
            if !sc.allowed_flags.contains(key.as_str()) {
                push_reason(reasons, RejectReason::FlagNotAllowed { key: key.clone() });
            } else if *value && !sc.flag_gate(key.as_str()).eval(state) {
                push_reason(reasons, RejectReason::FlagGateUnmet { key: key.clone() });
            } else {
                assert(reason_views(reasons@) =~= r0 + op_reasons(*sc, *loc, state@, *op));
            }
        },
        StateOp::Move { to } => {
            match find_exit(&loc.exits, to.as_str()) {
                None => {
                    push_reason(reasons, RejectReason::NoExit { to: to.clone() });
                },
                Some(i) => {
                    if !loc.exits[i].gate.eval(state) {
                        push_reason(reasons, RejectReason::MoveGateUnmet { to: to.clone() });
                    } else {
                        assert(reason_views(reasons@) =~= r0 + op_reasons(*sc, *loc, state@, *op));
                    }
                },
            }
        },
        StateOp::RequestRoll { sides, dc } => {
            if *sides < 1 {
                push_reason(reasons, RejectReason::DiceSidesInvalid);
            } else {
                assert(reason_views(reasons@) =~= r0 + op_reasons(*sc, *loc, state@, *op));
            }
        },
        StateOp::Check { entity, stat, sides, dc } => {
            if *sides < 1 {
                push_reason(reasons, RejectReason::DiceSidesInvalid);
            }
            if !sc.knows_stat(entity.as_str(), stat.as_str()) {
                push_reason(
                    reasons,
                    RejectReason::UnknownStat { entity: entity.clone(), key: stat.clone() },
                );
            }
            assert(reason_views(reasons@) =~= r0 + op_reasons(*sc, *loc, state@, *op));
        },
        StateOp::AttemptChallenge { entity, challenge } => {
            match sc.challenge(challenge.as_str()) {
                None => {
                    push_reason(
                        reasons,
                        RejectReason::UnknownChallenge { challenge: challenge.clone() },
                    );
                },
                Some(def) => {
                    let subject: &str = match &def.entity {
                        Some(e) => e.as_str(),
                        None => entity.as_str(),
                    };
                    match &def.requires {
                        Some(g) => {
                            if !g.eval(state) {
                                push_reason(
                                    reasons,
                                    RejectReason::ChallengeLocked { challenge: challenge.clone() },
                                );
                            }
                        },
                        None => {},
                    }
                    match &def.stat {
                        Some(st) => {
                            if !sc.knows_stat(subject, st.as_str()) {
                                push_reason(
                                    reasons,
                                    RejectReason::UnknownStat {
                                        entity: String::from_str(subject),
                                        key: st.clone(),
                                    },
                                );
                            }
                        },
                        None => {},
                    }
                    if def.sides < 1 {
                        push_reason(reasons, RejectReason::DiceSidesInvalid);
                    }
                    assert(reason_views(reasons@) =~= r0 + op_reasons(*sc, *loc, state@, *op));
                },
            }
        },
        StateOp::AdjustStat { entity, key, delta } => {
            if !sc.knows_stat(entity.as_str(), key.as_str()) {
                push_reason(
                    reasons,
                    RejectReason::UnknownStat { entity: entity.clone(), key: key.clone() },
                );
            } else {
                assert(reason_views(reasons@) =~= r0 + op_reasons(*sc, *loc, state@, *op));
            }
        },
        StateOp::ScaleStat { entity, key, num, den } => {
            if !sc.knows_stat(entity.as_str(), key.as_str()) {
                push_reason(
                    reasons,
                    RejectReason::UnknownStat { entity: entity.clone(), key: key.clone() },
                );
            }
            if *den == 0 {
                push_reason(reasons, RejectReason::DivideByZero { key: key.clone() });
            }
            assert(reason_views(reasons@) =~= r0 + op_reasons(*sc, *loc, state@, *op));
        },
        StateOp::GrantSkill { entity, skill } => {
            push_reason(
                reasons,
                RejectReason::SkillGrantNotAllowed { entity: entity.clone(), skill: skill.clone() },
            );
        },
        StateOp::SetAttribute { entity, key, value } => {
            push_reason(
                reasons,
                RejectReason::AttributeSetNotAllowed { entity: entity.clone(), key: key.clone() },
            );
        },
        StateOp::RecordTurn { entity, key } => {
            push_reason(
                reasons,
                RejectReason::TurnRecordNotAllowed { entity: entity.clone(), key: key.clone() },
            );
        },
        StateOp::SetPresence { entity, present } => {
            push_reason(reasons, RejectReason::PresenceSetNotAllowed { entity: entity.clone() });
        },
    }
}

/// The reasons of every op of a delta, in order.
fn validate_ops(
    reasons: &mut Vec<RejectReason>,
    state: &GameState,
    sc: &Scenario,
    loc: &Location,
    delta: &StateDelta,
)
    ensures
        reason_views(final(reasons)@) == reason_views(old(reasons)@) + ops_reasons(
            *sc,
            *loc,
            state@,
            delta.ops@,
        ),
{
    let ghost r0 = reason_views(reasons@);
    assert(delta.ops@.take(0) =~= Seq::<StateOp>::empty());
    assert(r0 + ops_reasons(*sc, *loc, state@, delta.ops@.take(0)) =~= r0);
    let mut i: usize = 0;
    while i < delta.ops.len()
        invariant
            i <= delta.ops@.len(),
            reason_views(reasons@) == r0 + ops_reasons(*sc, *loc, state@, delta.ops@.take(i as int)),
        decreases delta.ops@.len() - i,
    {
        assert(delta.ops@.take(i + 1).drop_last() =~= delta.ops@.take(i as int));
        assert(delta.ops@.take(i + 1).last() == delta.ops@[i as int]);
        push_op_reasons(reasons, state, sc, loc, &delta.ops[i]);
        assert(reason_views(reasons@) =~= r0 + ops_reasons(*sc, *loc, state@, delta.ops@.take(i + 1)));
        i = i + 1;
    }
    assert(delta.ops@.take(i as int) =~= delta.ops@);
}

/// Appends a taboo violation for each taboo of every character that the
/// projected state turns from false to true.
fn check_taboos(
    reasons: &mut Vec<RejectReason>,
    before: &GameState,
    after: &GameState,
    sc: &Scenario,
)
    ensures
        reason_views(final(reasons)@) == reason_views(old(reasons)@) + taboo_reasons(
            sc.characters.entries@,
            before@,
            after@,
        ),
{
    let ghost r0 = reason_views(reasons@);
    let chars = &sc.characters.entries;
    assert(chars@.take(0) =~= Seq::<(String, CharacterDef)>::empty());
    assert(r0 + taboo_reasons(chars@.take(0), before@, after@) =~= r0);
    let mut i: usize = 0;
    while i < chars.len()
        invariant
            i <= chars@.len(),
            *chars == sc.characters.entries,
            reason_views(reasons@) == r0 + taboo_reasons(chars@.take(i as int), before@, after@),
        decreases chars@.len() - i,
    {
        let eid = &chars[i].0;
        let taboos = &chars[i].1.taboos;
        let ghost r1 = reason_views(reasons@);
        assert(taboos@.take(0) =~= Seq::<Gate>::empty());
        assert(r1 + entity_taboos(eid@, taboos@.take(0), before@, after@) =~= r1);
        let mut j: usize = 0;
        while j < taboos.len()
            invariant
                j <= taboos@.len(),
                reason_views(reasons@) == r1 + entity_taboos(eid@, taboos@.take(j as int), before@, after@),
            decreases taboos@.len() - j,
        {
            assert(taboos@.take(j + 1).drop_last() =~= taboos@.take(j as int));
            assert(taboos@.take(j + 1).last() == taboos@[j as int]);
            if !taboos[j].eval(before) && taboos[j].eval(after) {
                push_reason(reasons, RejectReason::TabooViolated { entity: eid.clone() });
            }
            assert(reason_views(reasons@) =~= r1 + entity_taboos(eid@, taboos@.take(j + 1), before@, after@));
            j = j + 1;
        }
        assert(taboos@.take(j as int) =~= taboos@);
        assert(chars@.take(i + 1).drop_last() =~= chars@.take(i as int));
        assert(chars@.take(i + 1).last() == chars@[i as int]);
        assert(reason_views(reasons@) =~= r0 + taboo_reasons(chars@.take(i + 1), before@, after@));
        i = i + 1;
    }
    assert(chars@.take(i as int) =~= chars@);
}

/// The only judge. It never changes the state: a delta with a single bad op
/// is refused as a whole, with every reason found.
pub fn adjudicate(state: &GameState, scenario: &Scenario, delta: &StateDelta) -> (v: Verdict)
    ensures
        v@ == adjudicate_spec(state@, *scenario, delta.ops@),
{
    let loc = match scenario.location(state.location.as_str()) {
        Some(l) => l,
        None => {
            let mut reasons: Vec<RejectReason> = Vec::new();
            push_reason(
                &mut reasons,
                RejectReason::CurrentLocationMissing { location: state.location.clone() },
            );
            assert(reason_views(reasons@) =~= seq![ReasonModel::CurrentLocationMissing { location: state@.location }]);
            return Verdict::Reject { reasons };
        },
    };
    let mut reasons: Vec<RejectReason> = Vec::new();
    validate_ops(&mut reasons, state, scenario, loc, delta);
    assert(reason_views(reasons@) =~= ops_reasons(*scenario, *loc, state@, delta.ops@));
    if reasons.len() == 0 {
        let mut projection = state.dup();
        let mut rolls: Vec<RollOutcome> = Vec::new();
        let mut checks: Vec<CheckOutcome> = Vec::new();
        assert(check_views(checks@) =~= Seq::<CheckModel>::empty());
        assert(rolls@ =~= Seq::<RollOutcome>::empty());
        assert(trace_of(projection@, rolls@, checks@) == empty_trace(state@));
        apply_ops(&mut projection, scenario, &delta.ops, false, &mut rolls, &mut checks);
        check_taboos(&mut reasons, state, &projection, scenario);
        assert(reason_views(reasons@) =~= taboo_reasons(scenario.characters.entries@, state@, projected(*scenario, state@, delta.ops@)));
    }
    if reasons.len() == 0 {
        Verdict::Accept
    } else {
        Verdict::Reject { reasons }
    }
}

// ---------------------------------------------------------------------------
// Applying an accepted delta.
// ---------------------------------------------------------------------------

/// `stamp_flags` computed entry by entry over the first `i` entries of the flags.
pub open spec fn stamp_upto(
    ft: Map<Seq<char>, u32>,
    before: Map<Seq<char>, bool>,
    after: Map<Seq<char>, bool>,
    es: Seq<(String, bool)>,
    i: int,
    turn: u32,
) -> Map<Seq<char>, u32>
    decreases i,
{
    if i <= 0 {
        ft
    } else {
        let prev = stamp_upto(ft, before, after, es, i - 1, turn);
        let k = es[i - 1].0@;
        if newly_true(before, after, k) {
            prev.insert(k, turn)
        } else {
            prev
        }
    }
}

proof fn lemma_stamp_upto(
    ft: Map<Seq<char>, u32>,
    before: Map<Seq<char>, bool>,
    after: Map<Seq<char>, bool>,
    es: Seq<(String, bool)>,
    i: int,
    turn: u32,
    k: Seq<char>,
)
    requires
        0 <= i <= es.len(),
    ensures
        ({
            let seen = newly_true(before, after, k) && exists|j: int|
                0 <= j < i && #[trigger] es[j].0@ == k;
            &&& stamp_upto(ft, before, after, es, i, turn).contains_key(k) <==> (ft.contains_key(k)
                || seen)
            &&& stamp_upto(ft, before, after, es, i, turn).contains_key(k) ==> stamp_upto(
                ft,
                before,
                after,
                es,
                i,
                turn,
            )[k] == if seen {
                turn
            } else {
                ft[k]
            }
        }),
    decreases i,
{
    if i > 0 {
        lemma_stamp_upto(ft, before, after, es, i - 1, turn, k);
        if newly_true(before, after, k) && exists|j: int| 0 <= j < i && #[trigger] es[j].0@ == k {
            let j = choose|j: int| 0 <= j < i && #[trigger] es[j].0@ == k;
            if j < i - 1 {
                assert(exists|j: int| 0 <= j < i - 1 && #[trigger] es[j].0@ == k);
            }
        }
        if exists|j: int| 0 <= j < i - 1 && #[trigger] es[j].0@ == k {
            let j = choose|j: int| 0 <= j < i - 1 && #[trigger] es[j].0@ == k;
            assert(0 <= j < i && es[j].0@ == k);
        }
        if es[i - 1].0@ == k {
            assert(0 <= i - 1 < i && es[i - 1].0@ == k);
        }
    }
}

/// Stamps the current turn on every flag that is true now and was not true in `before`.
fn stamp_new_flags(state: &mut GameState, before: &StrMap<bool>)
    ensures
        final(state)@ == stamp_flags(before@, old(state)@, old(state).turn),
        old(state).keys_sorted() ==> final(state).keys_sorted(),
{
    let ghost was = state.keys_sorted();
    let turn = state.turn;
    let ghost m0 = state@;
    let ghost flags0 = state.flags;
    let ghost es = state.flags.entries@;
    let mut i: usize = 0;
    while i < state.flags.entries.len()
        invariant
            i <= es.len(),
            state.flags == flags0,
            was ==> state.keys_sorted(),
            es == flags0.entries@,
            m0.flags == flags0@,
            turn == m0.turn,
            state@ == (StateModel {
                flag_turns: stamp_upto(m0.flag_turns, before@, m0.flags, es, i as int, turn),
                ..m0
            }),
        decreases es.len() - i,
    {
        let k = state.flags.entries[i].0.clone();
        let now = state.flag(k.as_str());
        let was = match before.get(k.as_str()) {
            Some(v) => *v,
            None => false,
        };
        if now && !was {
            state.flag_turns.insert(k, turn);
        }
        i = i + 1;
    }
    proof {
        let target = stamp_flags(before@, m0, turn).flag_turns;
        let got = stamp_upto(m0.flag_turns, before@, m0.flags, es, es.len() as int, turn);
        assert forall|k: Seq<char>| #[trigger] got.contains_key(k) == target.contains_key(k) by {
            lemma_stamp_upto(m0.flag_turns, before@, m0.flags, es, es.len() as int, turn, k);
            crate::strmap::lemma_pairs_view_dom(es, k);
        }
        assert forall|k: Seq<char>| got.contains_key(k) implies #[trigger] got[k] == target[k] by {
            lemma_stamp_upto(m0.flag_turns, before@, m0.flags, es, es.len() as int, turn, k);
            crate::strmap::lemma_pairs_view_dom(es, k);
        }
        assert(got =~= target);
    }
}

/// Applies a delta only when `adjudicate` accepts it, and then as a whole.
///
/// A refused delta leaves the state exactly as it was. An accepted one has its
/// dice rolled by the engine, moves the turn on by one, and then fires the
/// reactive beats whose conditions became true (see `apply_spec`).
pub fn apply(state: &mut GameState, scenario: &Scenario, delta: &StateDelta) -> (r: Result<
    ApplyOutcome,
    Verdict,
>)
    requires
        adjudicate_spec(old(state)@, *scenario, delta.ops@) is Accept ==> old(state).turn < u32::MAX,
    ensures
        match r {
            Err(v) => {
                &&& adjudicate_spec(old(state)@, *scenario, delta.ops@) is Reject
                &&& v@ == adjudicate_spec(old(state)@, *scenario, delta.ops@)
                &&& *final(state) == *old(state)
            },
            Ok(out) => {
                &&& adjudicate_spec(old(state)@, *scenario, delta.ops@) is Accept
                &&& (final(state)@, out@) == apply_spec(old(state)@, *scenario, delta.ops@)
            },
        },
        old(state).keys_sorted() ==> final(state).keys_sorted(),
{
    let v = adjudicate(state, scenario, delta);
    if !v.is_accept() {
        return Err(v);
    }
    let ghost m0 = state@;
    let turn0 = state.turn;
    let before = state.flags.dup();
    let mut rolls: Vec<RollOutcome> = Vec::new();
    let mut checks: Vec<CheckOutcome> = Vec::new();
    assert(check_views(checks@) =~= Seq::<CheckModel>::empty());
    assert(rolls@ =~= Seq::<RollOutcome>::empty());
    assert(trace_of(state@, rolls@, checks@) == empty_trace(m0));
    apply_ops(state, scenario, &delta.ops, false, &mut rolls, &mut checks);
    proof {
        lemma_steps_frame(*scenario, empty_trace(m0), delta.ops@, false);
    }
    state.turn = turn0 + 1;
    let ghost t2 = trace_of(state@, rolls@, checks@);
    proof {
        lemma_settle_frame(*scenario, t2, none_done(scenario.triggers@.len()), seq![]);
    }
    let fired = fire_triggers(state, scenario, &mut rolls, &mut checks);
    stamp_new_flags(state, &before);
    let out = ApplyOutcome { rolls, checks, fired };
    proof {
        let (m, o) = apply_spec(m0, *scenario, delta.ops@);
        assert(out@.rolls == o.rolls);
        assert(out@.checks == o.checks);
        assert(out@.fired == o.fired);
        assert(out@ == o);
        assert(state@ == m);
        assert(adjudicate_spec(m0, *scenario, delta.ops@) is Accept);
    }
    Ok(out)
}

// ---------------------------------------------------------------------------
// What applying ops leaves alone.
// ---------------------------------------------------------------------------

/// Ops never touch the turn, the seed or the latched triggers.
pub open spec fn same_frame(a: StateModel, b: StateModel) -> bool {
    a.turn == b.turn && a.seed == b.seed && a.fired == b.fired
}

pub proof fn lemma_steps_frame(sc: Scenario, t: Trace, ops: Seq<StateOp>, nested: bool)
    ensures
        same_frame(steps(sc, t, ops, nested).state, t.state),
    decreases (if nested {
        0int
    } else {
        1int
    }), ops.len(), 2int,
{
    if ops.len() > 0 {
        lemma_steps_frame(sc, t, ops.drop_last(), nested);
        lemma_step_frame(sc, steps(sc, t, ops.drop_last(), nested), ops.last(), nested);
    }
}

pub proof fn lemma_step_frame(sc: Scenario, t: Trace, op: StateOp, nested: bool)
    ensures
        same_frame(step(sc, t, op, nested).state, t.state),
    decreases (if nested {
        0int
    } else {
        1int
    }), 0int, 1int,
{
    match op {
        StateOp::AttemptChallenge { entity, challenge } => {
            if !nested && sc.challenges@.contains_key(challenge@) {
                let def = sc.challenges@[challenge@];
                lemma_challenge_frame(sc, t, subject_spec(def, entity@), def);
            }
        },
        _ => {},
    }
}

pub proof fn lemma_challenge_frame(sc: Scenario, t: Trace, subject: Seq<char>, def: ChallengeDef)
    ensures
        same_frame(challenge_step(sc, t, subject, def).state, t.state),
    decreases 1int, 0int, 0int,
{
    let (t1, outcome, hit) = challenge_roll(t, subject, def);
    assert(same_frame(t1.state, t.state));
    let t2 = match outcome {
        Some(o) => steps(sc, t1, o.effects@, true),
        None => t1,
    };
    match outcome {
        Some(o) => lemma_steps_frame(sc, t1, o.effects@, true),
        None => {},
    }
    match hit {
        Some(i) => lemma_steps_frame(sc, t2, def.tiers.entries@[i].1.effects@, true),
        None => {},
    }
}

/// Settling beats keeps the turn and the seed, and only adds latches.
pub proof fn lemma_settle_frame(sc: Scenario, t: Trace, done: Seq<bool>, fired: Seq<FiredModel>)
    ensures
        settle(sc, t, done, fired).0.state.turn == t.state.turn,
        settle(sc, t, done, fired).0.state.seed == t.state.seed,
        t.state.fired.subset_of(settle(sc, t, done, fired).0.state.fired),
        fired.is_prefix_of(settle(sc, t, done, fired).1),
    decreases count_false(done),
{
    if done.len() == sc.triggers@.len() {
        match next_trigger(sc, t.state, done, 0) {
            None => {
                assert(fired.is_prefix_of(fired));
            },
            Some(i) => {
                lemma_next_trigger(sc, t.state, done, 0);
                lemma_count_false_update(done, i);
                lemma_steps_frame(sc, t, sc.triggers@[i].effects@, false);
                let f1 = fired.push(fired_model(sc.triggers@[i]));
                lemma_settle_frame(sc, fire_one(sc, t, i), done.update(i, true), f1);
                let out = settle(sc, fire_one(sc, t, i), done.update(i, true), f1).1;
                assert forall|j: int| 0 <= j < fired.len() implies #[trigger] fired[j] == out[j] by {
                    assert(f1[j] == fired[j]);
                }
            },
        }
    } else {
        assert(fired.is_prefix_of(fired));
    }
}

// ---------------------------------------------------------------------------
// Laws of the adjudicator.
// ---------------------------------------------------------------------------

/// The trigger positions that settling fires, in firing order.
pub open spec fn settle_order(sc: Scenario, t: Trace, done: Seq<bool>) -> Seq<int>
    decreases count_false(done),
{
    if done.len() != sc.triggers@.len() {
        seq![]
    } else {
        match next_trigger(sc, t.state, done, 0) {
            None => seq![],
            Some(i) => {
                proof {
                    lemma_next_trigger(sc, t.state, done, 0);
                    lemma_count_false_update(done, i);
                }
                seq![i] + settle_order(sc, fire_one(sc, t, i), done.update(i, true))
            },
        }
    }
}

proof fn lemma_settle_order(sc: Scenario, t: Trace, done: Seq<bool>, fired: Seq<FiredModel>)
    requires
        done.len() == sc.triggers@.len(),
    ensures
        ({
            let order = settle_order(sc, t, done);
            let out = settle(sc, t, done, fired).1;
            &&& out.len() == fired.len() + order.len()
            &&& forall|j: int| 0 <= j < fired.len() ==> out[j] == fired[j]
            &&& forall|j: int|
                0 <= j < order.len() ==> out[fired.len() + j] == fired_model(
                    sc.triggers@[#[trigger] order[j]],
                )
            &&& forall|j: int|
                0 <= j < order.len() ==> 0 <= #[trigger] order[j] < sc.triggers@.len() && !done[order[j]]
                    && !t.state.fired.contains(sc.triggers@[order[j]].id@)
            &&& forall|a: int, b: int| 0 <= a < b < order.len() ==> order[a] != order[b]
        }),
    decreases count_false(done),
{
    match next_trigger(sc, t.state, done, 0) {
        None => {},
        Some(i) => {
            lemma_next_trigger(sc, t.state, done, 0);
            lemma_count_false_update(done, i);
            let t1 = fire_one(sc, t, i);
            let d1 = done.update(i, true);
            let f1 = fired.push(fired_model(sc.triggers@[i]));
            lemma_settle_order(sc, t1, d1, f1);
            lemma_steps_frame(sc, t, sc.triggers@[i].effects@, false);
            assert(t.state.fired.subset_of(t1.state.fired));
            let rest = settle_order(sc, t1, d1);
            let order = settle_order(sc, t, done);
            assert(order == seq![i] + rest);
            let out = settle(sc, t, done, fired).1;
            assert(out == settle(sc, t1, d1, f1).1);
            assert forall|j: int| 0 <= j < order.len() implies out[fired.len() + j] == fired_model(
                sc.triggers@[#[trigger] order[j]],
            ) by {
                if j > 0 {
                    assert(order[j] == rest[j - 1]);
                    assert(out[f1.len() + (j - 1)] == fired_model(sc.triggers@[rest[j - 1]]));
                }
            }
            assert forall|j: int| 0 <= j < order.len() implies 0 <= #[trigger] order[j] < sc.triggers@.len()
                && !done[order[j]] && !t.state.fired.contains(sc.triggers@[order[j]].id@) by {
                if j > 0 {
                    assert(order[j] == rest[j - 1]);
                    assert(!d1[rest[j - 1]]);
                }
            }
            assert forall|a: int, b: int| 0 <= a < b < order.len() implies order[a] != order[b] by {
                assert(order[b] == rest[b - 1]);
                assert(!d1[rest[b - 1]]);
                if a > 0 {
                    assert(order[a] == rest[a - 1]);
                }
            }
        },
    }
}

/// Within one apply each trigger fires at most once, in authored-first order,
/// and a trigger that was latched before the delta never fires: every beat
/// reported is the beat of a distinct trigger whose id was not latched.
pub proof fn law_each_trigger_fires_at_most_once(m: StateModel, sc: Scenario, ops: Seq<StateOp>)
    ensures
        ({
            let fired = apply_spec(m, sc, ops).1.fired;
            exists|order: Seq<int>|
                {
                    &&& order.len() == fired.len()
                    &&& forall|j: int|
                        0 <= j < order.len() ==> 0 <= #[trigger] order[j] < sc.triggers@.len()
                            && fired[j] == fired_model(sc.triggers@[order[j]])
                            && !m.fired.contains(sc.triggers@[order[j]].id@)
                    &&& forall|a: int, b: int| 0 <= a < b < order.len() ==> order[a] != order[b]
                }
        }),
{
    let t1 = steps(sc, empty_trace(m), ops, false);
    let turn = (m.turn + 1) as u32;
    let t2 = Trace { state: StateModel { turn, ..t1.state }, ..t1 };
    let done = none_done(sc.triggers@.len());
    lemma_steps_frame(sc, empty_trace(m), ops, false);
    lemma_settle_order(sc, t2, done, seq![]);
    let order = settle_order(sc, t2, done);
    let fired = apply_spec(m, sc, ops).1.fired;
    assert(fired == settle(sc, t2, done, seq![]).1);
    assert forall|j: int| 0 <= j < order.len() implies 0 <= #[trigger] order[j] < sc.triggers@.len()
        && fired[j] == fired_model(sc.triggers@[order[j]]) && !m.fired.contains(
        sc.triggers@[order[j]].id@,
    ) by {
        assert(fired[0 + j] == fired_model(sc.triggers@[order[j]]));
    }
}

/// Settling ends only when no trigger is left to fire: a trigger that is not
/// repeatable and whose condition holds at the end is latched.
proof fn lemma_settle_complete(sc: Scenario, t: Trace, done: Seq<bool>, fired: Seq<FiredModel>)
    requires
        done.len() == sc.triggers@.len(),
        forall|j: int|
            0 <= j < done.len() && done[j] && !sc.triggers@[j].repeatable ==> t.state.fired.contains(
                #[trigger] sc.triggers@[j].id@,
            ),
    ensures
        forall|j: int|
            0 <= j < sc.triggers@.len() && !sc.triggers@[j].repeatable && gate_holds(
                sc.triggers@[j].when@,
                settle(sc, t, done, fired).0.state,
            ) ==> settle(sc, t, done, fired).0.state.fired.contains(#[trigger] sc.triggers@[j].id@),
    decreases count_false(done),
{
    match next_trigger(sc, t.state, done, 0) {
        None => {
            assert forall|j: int|
                0 <= j < sc.triggers@.len() && !sc.triggers@[j].repeatable && gate_holds(
                    sc.triggers@[j].when@,
                    t.state,
                ) implies t.state.fired.contains(#[trigger] sc.triggers@[j].id@) by {
                lemma_next_none(sc, t.state, done, 0, j);
            }
        },
        Some(i) => {
            lemma_next_trigger(sc, t.state, done, 0);
            lemma_count_false_update(done, i);
            lemma_steps_frame(sc, t, sc.triggers@[i].effects@, false);
            let t1 = fire_one(sc, t, i);
            let d1 = done.update(i, true);
            assert forall|j: int|
                0 <= j < d1.len() && d1[j] && !sc.triggers@[j].repeatable implies t1.state.fired.contains(
                    #[trigger] sc.triggers@[j].id@,
                ) by {
                if j != i {
                    assert(done[j]);
                    assert(t.state.fired.contains(sc.triggers@[j].id@));
                }
            }
            lemma_settle_complete(sc, t1, d1, fired.push(fired_model(sc.triggers@[i])));
        },
    }
}

proof fn lemma_next_none(sc: Scenario, m: StateModel, done: Seq<bool>, i: int, j: int)
    requires
        done.len() == sc.triggers@.len(),
        0 <= i <= j < sc.triggers@.len(),
        next_trigger(sc, m, done, i) is None,
    ensures
        !eligible(sc, m, done, j),
    decreases j - i,
{
    if i < j {
        lemma_next_none(sc, m, done, i + 1, j);
    }
}

/// After an accepted delta every trigger that is not repeatable and whose
/// condition holds in the new state is latched: settling leaves no such
/// trigger unfired.
pub proof fn law_settled_triggers_are_latched(m: StateModel, sc: Scenario, ops: Seq<StateOp>, j: int)
    requires
        0 <= j < sc.triggers@.len(),
        !sc.triggers@[j].repeatable,
        gate_holds(sc.triggers@[j].when@, apply_spec(m, sc, ops).0),
    ensures
        apply_spec(m, sc, ops).0.fired.contains(sc.triggers@[j].id@),
{
    let t1 = steps(sc, empty_trace(m), ops, false);
    let turn = (m.turn + 1) as u32;
    let t2 = Trace { state: StateModel { turn, ..t1.state }, ..t1 };
    let done = none_done(sc.triggers@.len());
    let t3 = settle(sc, t2, done, seq![]).0;
    lemma_settle_complete(sc, t2, done, seq![]);
    let m3 = apply_spec(m, sc, ops).0;
    assert(m3 == stamp_flags(m.flags, t3.state, turn));
    lemma_gate_ignores_flag_turns(sc.triggers@[j].when@, t3.state, m3);
}

/// What settling adds to the latches: only ids of triggers that are not repeatable.
proof fn lemma_settle_latches(sc: Scenario, t: Trace, done: Seq<bool>, fired: Seq<FiredModel>, k: Seq<char>)
    requires
        settle(sc, t, done, fired).0.state.fired.contains(k),
    ensures
        t.state.fired.contains(k) || exists|i: int|
            0 <= i < sc.triggers@.len() && !sc.triggers@[i].repeatable && #[trigger] sc.triggers@[i].id@ == k,
    decreases count_false(done),
{
    if done.len() == sc.triggers@.len() {
        match next_trigger(sc, t.state, done, 0) {
            None => {},
            Some(i) => {
                lemma_next_trigger(sc, t.state, done, 0);
                lemma_count_false_update(done, i);
                lemma_steps_frame(sc, t, sc.triggers@[i].effects@, false);
                lemma_settle_latches(sc, fire_one(sc, t, i), done.update(i, true), fired.push(fired_model(sc.triggers@[i])), k);
            },
        }
    }
}

/// The ids of the beats reported from position `n` on.
pub open spec fn fired_ids_from(fired: Seq<FiredModel>, n: int) -> Set<Seq<char>> {
    Set::new(|k: Seq<char>| exists|j: int| n <= j < fired.len() && #[trigger] fired[j].id == k)
}

proof fn lemma_settle_latch_set(sc: Scenario, t: Trace, done: Seq<bool>, fired: Seq<FiredModel>)
    requires
        done.len() == sc.triggers@.len(),
        forall|j: int| 0 <= j < sc.triggers@.len() ==> !(#[trigger] sc.triggers@[j]).repeatable,
    ensures
        settle(sc, t, done, fired).0.state.fired == t.state.fired.union(
            fired_ids_from(settle(sc, t, done, fired).1, fired.len() as int),
        ),
    decreases count_false(done),
{
    let out = settle(sc, t, done, fired).1;
    match next_trigger(sc, t.state, done, 0) {
        None => {
            assert(out == fired);
            assert(fired_ids_from(out, fired.len() as int) =~= Set::<Seq<char>>::empty());
            assert(t.state.fired.union(Set::<Seq<char>>::empty()) =~= t.state.fired);
        },
        Some(i) => {
            lemma_next_trigger(sc, t.state, done, 0);
            lemma_count_false_update(done, i);
            lemma_steps_frame(sc, t, sc.triggers@[i].effects@, false);
            let t1 = fire_one(sc, t, i);
            let d1 = done.update(i, true);
            let f1 = fired.push(fired_model(sc.triggers@[i]));
            lemma_settle_latch_set(sc, t1, d1, f1);
            lemma_settle_order(sc, t1, d1, f1);
            assert(out == settle(sc, t1, d1, f1).1);
            assert(out[fired.len() as int] == f1[fired.len() as int]);
            let id = sc.triggers@[i].id@;
            assert(t1.state.fired == t.state.fired.insert(id));
            assert forall|k: Seq<char>| #[trigger] fired_ids_from(out, fired.len() as int).contains(k) == (k == id
                || fired_ids_from(out, f1.len() as int).contains(k)) by {
                if fired_ids_from(out, fired.len() as int).contains(k) {
                    let j = choose|j: int| fired.len() <= j < out.len() && #[trigger] out[j].id == k;
                    if j > fired.len() {
                        assert(f1.len() <= j < out.len() && out[j].id == k);
                    }
                }
                if k == id {
                    assert(out[fired.len() as int].id == k);
                }
                if fired_ids_from(out, f1.len() as int).contains(k) {
                    let j = choose|j: int| f1.len() <= j < out.len() && #[trigger] out[j].id == k;
                    assert(fired.len() <= j < out.len() && out[j].id == k);
                }
            }
            assert(settle(sc, t, done, fired).0.state.fired =~= t.state.fired.union(
                fired_ids_from(out, fired.len() as int),
            ));
        },
    }
}

/// Where no trigger is repeatable, the latches after a delta are exactly the
/// latches before it together with the ids of the beats it reports.
pub proof fn law_latches_are_old_plus_fired(m: StateModel, sc: Scenario, ops: Seq<StateOp>)
    requires
        forall|j: int| 0 <= j < sc.triggers@.len() ==> !(#[trigger] sc.triggers@[j]).repeatable,
    ensures
        apply_spec(m, sc, ops).0.fired == m.fired.union(
            Set::new(|k: Seq<char>| exists|j: int| 0 <= j < apply_spec(m, sc, ops).1.fired.len()
                && #[trigger] apply_spec(m, sc, ops).1.fired[j].id == k),
        ),
{
    let t1 = steps(sc, empty_trace(m), ops, false);
    let turn = (m.turn + 1) as u32;
    let t2 = Trace { state: StateModel { turn, ..t1.state }, ..t1 };
    let done = none_done(sc.triggers@.len());
    lemma_steps_frame(sc, empty_trace(m), ops, false);
    lemma_settle_latch_set(sc, t2, done, seq![]);
    let fired = apply_spec(m, sc, ops).1.fired;
    assert(fired == settle(sc, t2, done, seq![]).1);
    assert(fired_ids_from(fired, 0) =~= Set::new(|k: Seq<char>| exists|j: int| 0 <= j < fired.len()
        && #[trigger] fired[j].id == k));
}

/// A repeatable trigger is never latched: when its id is not latched before
/// a delta (and no other trigger shares the id), it is not latched after, so
/// it can fire again whenever its condition turns true again.
pub proof fn law_repeatable_triggers_stay_unlatched(m: StateModel, sc: Scenario, ops: Seq<StateOp>, j: int)
    requires
        0 <= j < sc.triggers@.len(),
        sc.triggers@[j].repeatable,
        !m.fired.contains(sc.triggers@[j].id@),
        forall|a: int, b: int|
            0 <= a < b < sc.triggers@.len() ==> #[trigger] sc.triggers@[a].id@ != #[trigger] sc.triggers@[b].id@,
    ensures
        !apply_spec(m, sc, ops).0.fired.contains(sc.triggers@[j].id@),
{
    let t1 = steps(sc, empty_trace(m), ops, false);
    let turn = (m.turn + 1) as u32;
    let t2 = Trace { state: StateModel { turn, ..t1.state }, ..t1 };
    let done = none_done(sc.triggers@.len());
    lemma_steps_frame(sc, empty_trace(m), ops, false);
    let k = sc.triggers@[j].id@;
    if settle(sc, t2, done, seq![]).0.state.fired.contains(k) {
        lemma_settle_latches(sc, t2, done, seq![], k);
        if !t2.state.fired.contains(k) {
            let i = choose|i: int|
                0 <= i < sc.triggers@.len() && !sc.triggers@[i].repeatable && #[trigger] sc.triggers@[i].id@ == k;
            if i < j {
                assert(sc.triggers@[i].id@ != sc.triggers@[j].id@);
            } else if j < i {
                assert(sc.triggers@[j].id@ != sc.triggers@[i].id@);
            }
        }
    }
}

/// On a board without reactive beats the state after a delta is the state
/// after its ops, with the turn moved on and the turns of new flags stamped.
proof fn lemma_no_beats_apply(m: StateModel, sc: Scenario, ops: Seq<StateOp>)
    requires
        sc.triggers@.len() == 0,
    ensures
        ({
            let a = apply_spec(m, sc, ops).0;
            let b = steps(sc, empty_trace(m), ops, false).state;
            &&& a.inventory == b.inventory
            &&& a.flags == b.flags
            &&& a.location == b.location
            &&& a.entities == b.entities
            &&& a.skills == b.skills
            &&& a.attributes == b.attributes
            &&& a.present_overrides == b.present_overrides
        }),
{
    let t1 = steps(sc, empty_trace(m), ops, false);
    let turn = (m.turn + 1) as u32;
    let t2 = Trace { state: StateModel { turn, ..t1.state }, ..t1 };
    assert(next_trigger(sc, t2.state, none_done(0), 0) is None);
    assert(none_done(sc.triggers@.len()) =~= none_done(0));
}

/// Dropping an item takes it out of the player's hands: on a board without
/// reactive beats, after a delta whose last op removes an item the player does
/// not hold it; a delta of that one op changes no other holding.
pub proof fn law_removed_item_is_no_longer_held(m: StateModel, sc: Scenario, ops: Seq<StateOp>, item: String)
    requires
        sc.triggers@.len() == 0,
        ops.len() > 0,
        ops.last() == (StateOp::RemoveItem { item }),
    ensures
        !holds(apply_spec(m, sc, ops).0, PLAYER@, item@),
        ops.len() == 1 ==> forall|e: Seq<char>, x: Seq<char>|
            #[trigger] holds(apply_spec(m, sc, ops).0, e, x) == (holds(m, e, x) && !(e == PLAYER@ && x == item@)),
{
    lemma_no_beats_apply(m, sc, ops);
    let t1 = steps(sc, empty_trace(m), ops.drop_last(), false);
    assert(steps(sc, empty_trace(m), ops, false) == step(sc, t1, ops.last(), false));
    if ops.len() == 1 {
        assert(ops.drop_last() =~= Seq::<StateOp>::empty());
        assert(t1 == empty_trace(m));
    }
}

/// What one op does, on a board without reactive beats: taking an item puts it
/// in the player's hands and changes no other holding; giving moves it to the
/// receiver; setting a flag gives it that value and leaves the other flags;
/// moving changes the place; granting a skill, writing an attribute, stamping
/// the turn and forcing presence do what they say.
pub proof fn law_single_op_effects(m: StateModel, sc: Scenario, op: StateOp)
    requires
        sc.triggers@.len() == 0,
    ensures
        ({
            let a = apply_spec(m, sc, seq![op]).0;
            &&& op matches StateOp::AddItem { item } ==> holds(a, PLAYER@, item@) && forall|e: Seq<char>, x: Seq<char>|
                !(e == PLAYER@ && x == item@) ==> #[trigger] holds(a, e, x) == holds(m, e, x)
            &&& op matches StateOp::GiveItem { from, to, item } ==> holds(a, to@, item@) && (from@ != to@ ==> !holds(
                a,
                from@,
                item@,
            ))
            &&& op matches StateOp::SetFlag { key, value } ==> flag_spec(a, key@) == value && a.flags.contains_key(key@)
                && forall|k: Seq<char>| k != key@ ==> #[trigger] flag_spec(a, k) == flag_spec(m, k)
            &&& op matches StateOp::Move { to } ==> a.location == to@
            &&& op matches StateOp::GrantSkill { entity, skill } ==> has_skill_spec(a, entity@, skill@)
            &&& op matches StateOp::SetAttribute { entity, key, value } ==> attribute_spec(a, entity@, key@) == value@
            &&& op matches StateOp::RecordTurn { entity, key } ==> stat_spec(a, entity@, key@) == m.turn as i64
            &&& op matches StateOp::SetPresence { entity, present } ==> a.present_overrides.contains_key(entity@)
                && a.present_overrides[entity@] == present
        }),
{
    let ops = seq![op];
    lemma_no_beats_apply(m, sc, ops);
    assert(ops.drop_last() =~= Seq::<StateOp>::empty());
    assert(steps(sc, empty_trace(m), ops.drop_last(), false) == empty_trace(m));
    assert(ops.last() == op);
    assert(steps(sc, empty_trace(m), ops, false) == step(sc, empty_trace(m), op, false));
}

/// The judgement of a delta is a refusal that names the reason.
pub open spec fn refused_with(m: StateModel, sc: Scenario, ops: Seq<StateOp>, r: ReasonModel) -> bool {
    adjudicate_spec(m, sc, ops) matches VerdictModel::Reject { reasons } && reasons.contains(r)
}

proof fn lemma_op_reason_refuses(m: StateModel, sc: Scenario, ops: Seq<StateOp>, i: int, r: ReasonModel)
    requires
        sc.locations@.contains_key(m.location),
        0 <= i < ops.len(),
        op_reasons(sc, sc.locations@[m.location], m, ops[i]).contains(r),
    ensures
        refused_with(m, sc, ops, r),
{
    lemma_ops_reasons_hold_each(sc, sc.locations@[m.location], m, ops, i);
}

proof fn lemma_first_exit_none(exits: Seq<crate::spine::Exit>, to: Seq<char>, i: int)
    requires
        0 <= i,
        forall|j: int| i <= j < exits.len() ==> #[trigger] exits[j].to@ != to,
    ensures
        first_exit(exits, to, i) is None,
    decreases exits.len() - i,
{
    if i < exits.len() {
        lemma_first_exit_none(exits, to, i + 1);
    }
}

/// An op wherever it stands in a delta gets the delta refused, naming the
/// fault: taking an item already held, or one that is not at the place;
/// giving an item the giver does not hold, or to an unknown entity; setting an
/// undeclared flag; moving where no exit leads.
pub proof fn law_faulty_ops_are_refused_by_name(m: StateModel, sc: Scenario, ops: Seq<StateOp>, i: int)
    requires
        sc.locations@.contains_key(m.location),
        0 <= i < ops.len(),
    ensures
        ({
            let loc = sc.locations@[m.location];
            &&& ops[i] matches StateOp::AddItem { item } ==> (holds(m, PLAYER@, item@) ==> refused_with(
                m,
                sc,
                ops,
                ReasonModel::ItemAlreadyHeld { item: item@ },
            ))
            &&& ops[i] matches StateOp::AddItem { item } ==> (!holds(m, PLAYER@, item@) && !loc.items@.contains_key(item@)
                ==> refused_with(m, sc, ops, ReasonModel::ItemNotHere { item: item@ }))
            &&& ops[i] matches StateOp::GiveItem { from, to, item } ==> (!holds(m, from@, item@) ==> refused_with(
                m,
                sc,
                ops,
                ReasonModel::ItemNotHeld { item: item@ },
            ))
            &&& ops[i] matches StateOp::GiveItem { from, to, item } ==> (!(to@ == PLAYER@ || sc.characters@.contains_key(
                to@,
            )) ==> refused_with(m, sc, ops, ReasonModel::UnknownEntity { entity: to@ }))
            &&& ops[i] matches StateOp::SetFlag { key, value } ==> (!sc.allowed_flags@.contains(key@) ==> refused_with(
                m,
                sc,
                ops,
                ReasonModel::FlagNotAllowed { key: key@ },
            ))
            &&& ops[i] matches StateOp::Move { to } ==> ((forall|j: int|
                0 <= j < loc.exits@.len() ==> #[trigger] loc.exits@[j].to@ != to@) ==> refused_with(
                m,
                sc,
                ops,
                ReasonModel::NoExit { to: to@ },
            ))
        }),
{
    let loc = sc.locations@[m.location];
    let own = op_reasons(sc, loc, m, ops[i]);
    match ops[i] {
        StateOp::AddItem { item } => {
            if holds(m, PLAYER@, item@) || !loc.items@.contains_key(item@) {
                assert(own.contains(own[0]));
                lemma_op_reason_refuses(m, sc, ops, i, own[0]);
            }
        },
        StateOp::GiveItem { from, to, item } => {
            let a = if !holds(m, from@, item@) {
                seq![ReasonModel::ItemNotHeld { item: item@ }]
            } else {
                seq![]
            };
            let b = if !knows_entity_spec(sc, to@) {
                seq![ReasonModel::UnknownEntity { entity: to@ }]
            } else {
                seq![]
            };
            assert(own == a + b);
            if !holds(m, from@, item@) {
                assert(own[0] == a[0]);
                assert(own.contains(a[0]));
                lemma_op_reason_refuses(m, sc, ops, i, a[0]);
            }
            if !knows_entity_spec(sc, to@) {
                assert(own[a.len() as int] == b[0]);
                assert(own.contains(b[0]));
                lemma_op_reason_refuses(m, sc, ops, i, b[0]);
            }
        },
        StateOp::SetFlag { key, value } => {
            if !sc.allowed_flags@.contains(key@) {
                assert(own.contains(own[0]));
                lemma_op_reason_refuses(m, sc, ops, i, own[0]);
            }
        },
        StateOp::Move { to } => {
            if forall|j: int| 0 <= j < loc.exits@.len() ==> #[trigger] loc.exits@[j].to@ != to@ {
                lemma_first_exit_none(loc.exits@, to@, 0);
                assert(own.contains(own[0]));
                lemma_op_reason_refuses(m, sc, ops, i, own[0]);
            }
        },
        _ => {},
    }
}

/// An op that drops an item the player does not hold gets the delta refused,
/// with the item named among the reasons (wherever the op stands in the delta).
pub proof fn law_dropping_an_unheld_item_is_refused(m: StateModel, sc: Scenario, ops: Seq<StateOp>, i: int, item: String)
    requires
        sc.locations@.contains_key(m.location),
        0 <= i < ops.len(),
        ops[i] == (StateOp::RemoveItem { item }),
        !holds(m, PLAYER@, item@),
    ensures
        adjudicate_spec(m, sc, ops) matches VerdictModel::Reject { reasons } && reasons.contains(
            ReasonModel::ItemNotHeld { item: item@ },
        ),
{
    let loc = sc.locations@[m.location];
    lemma_ops_reasons_hold_each(sc, loc, m, ops, i);
    let own = op_reasons(sc, loc, m, ops[i]);
    assert(own[0] == ReasonModel::ItemNotHeld { item: item@ });
    assert(own.contains(ReasonModel::ItemNotHeld { item: item@ }));
    assert(ops_reasons(sc, loc, m, ops).contains(ReasonModel::ItemNotHeld { item: item@ }));
}

/// How a tier is picked by the natural roll: scanning from a tier, that tier is
/// picked exactly when the roll is the lowest face (`Min`), the highest face
/// (`Max`), at most its threshold (`AtMost`) or at least its threshold
/// (`AtLeast`); a threshold form without a threshold never picks. The tier of
/// an attempt is the first tier, in authored order, picked this way.
pub proof fn law_tier_is_the_first_natural_match(tiers: Seq<(String, TierDef)>, roll: u32, sides: u32)
    ensures
        forall|i: int|
            0 <= i < tiers.len() ==> (#[trigger] first_tier(tiers, roll, sides, i) == Some(i) <==> match tiers[i].1.natural {
                Natural::Min => roll == 1,
                Natural::Max => roll == sides,
                Natural::AtMost => tiers[i].1.threshold matches Some(n) && roll <= n,
                Natural::AtLeast => tiers[i].1.threshold matches Some(n) && roll >= n,
            }),
        match first_tier(tiers, roll, sides, 0) {
            Some(i) => 0 <= i < tiers.len() && first_tier(tiers, roll, sides, i) == Some(i) && forall|j: int|
                0 <= j < i ==> #[trigger] first_tier(tiers, roll, sides, j) != Some(j),
            None => forall|j: int| 0 <= j < tiers.len() ==> #[trigger] first_tier(tiers, roll, sides, j) != Some(j),
        },
{
    assert forall|i: int| 0 <= i < tiers.len() implies (#[trigger] first_tier(tiers, roll, sides, i) == Some(i) <==> match tiers[i].1.natural {
        Natural::Min => roll == 1,
        Natural::Max => roll == sides,
        Natural::AtMost => tiers[i].1.threshold matches Some(n) && roll <= n,
        Natural::AtLeast => tiers[i].1.threshold matches Some(n) && roll >= n,
    }) by {
        if !tier_hits(tiers[i].1, roll, sides) {
            lemma_first_tier_after(tiers, roll, sides, i + 1);
        }
    }
    lemma_first_tier_first(tiers, roll, sides, 0);
}

/// Scanning from `i` never picks a tier before `i`.
proof fn lemma_first_tier_after(tiers: Seq<(String, TierDef)>, roll: u32, sides: u32, i: int)
    requires
        0 <= i,
    ensures
        match first_tier(tiers, roll, sides, i) {
            Some(j) => i <= j < tiers.len(),
            None => true,
        },
    decreases tiers.len() - i,
{
    if i < tiers.len() && !tier_hits(tiers[i].1, roll, sides) {
        lemma_first_tier_after(tiers, roll, sides, i + 1);
    }
}

/// The scan from `i` picks the first tier from `i` on that hits.
proof fn lemma_first_tier_first(tiers: Seq<(String, TierDef)>, roll: u32, sides: u32, i: int)
    requires
        0 <= i,
    ensures
        match first_tier(tiers, roll, sides, i) {
            Some(k) => i <= k < tiers.len() && first_tier(tiers, roll, sides, k) == Some(k) && forall|j: int|
                i <= j < k ==> #[trigger] first_tier(tiers, roll, sides, j) != Some(j),
            None => forall|j: int| i <= j < tiers.len() ==> #[trigger] first_tier(tiers, roll, sides, j) != Some(j),
        },
    decreases tiers.len() - i,
{
    if i < tiers.len() && !tier_hits(tiers[i].1, roll, sides) {
        lemma_first_tier_first(tiers, roll, sides, i + 1);
        assert forall|j: int| i <= j < tiers.len() && !tier_hits(tiers[j].1, roll, sides) implies #[trigger] first_tier(tiers, roll, sides, j) != Some(j) by {
            lemma_first_tier_after(tiers, roll, sides, j + 1);
        }
    }
}

/// The check of an attempt reports the tier picked by the natural roll (see
/// `law_tier_is_the_first_natural_match`), and that tier's flag is raised; the
/// roll is a face of the die; the check succeeds exactly when its total reaches
/// the difficulty, and the flag of the outcome taken is raised.
pub proof fn law_attempt_reports_the_picked_tier(t: Trace, subject: Seq<char>, def: ChallengeDef)
    ensures
        ({
            let roll = roll_spec(t.state.seed, t.state.cursor, def.sides);
            let (t1, _, hit) = challenge_roll(t, subject, def);
            &&& hit == first_tier(def.tiers.entries@, roll, def.sides, 0)
            &&& t1.checks.last().roll == roll
            &&& t1.checks.last().tier == match hit {
                Some(i) => Some(def.tiers.entries@[i].0@),
                None => None,
            }
            &&& hit matches Some(i) ==> (def.tiers.entries@[i].1.flag matches Some(f) ==> t1.state.flags.contains_key(f@)
                && t1.state.flags[f@])
            &&& def.sides >= 1 ==> 1 <= roll <= def.sides
            &&& t1.checks.last().success == (t1.checks.last().total >= def.dc)
            &&& t1.checks.last().success ==> (def.on_success matches Some(o) ==> (o.flag matches Some(f)
                ==> t1.state.flags.contains_key(f@) && t1.state.flags[f@]))
            &&& !t1.checks.last().success ==> (def.on_failure matches Some(o) ==> (o.flag matches Some(f)
                ==> t1.state.flags.contains_key(f@) && t1.state.flags[f@]))
        }),
{
    if def.sides >= 1 {
        law_roll_in_range(t.state.seed, t.state.cursor, def.sides);
    }
}

/// The die requests among ops, in order.
pub open spec fn roll_requests(ops: Seq<StateOp>) -> Seq<StateOp> {
    ops.filter(|o: StateOp| o is RequestRoll)
}

/// The checks among ops, in order: plain checks and challenge attempts.
pub open spec fn check_requests(ops: Seq<StateOp>) -> Seq<StateOp> {
    ops.filter(|o: StateOp| o is Check || o is AttemptChallenge)
}

/// Ops that throw no die of their own.
pub open spec fn dice_free(ops: Seq<StateOp>) -> bool {
    forall|i: int| 0 <= i < ops.len() ==> !(#[trigger] ops[i] is RequestRoll) && !(ops[i] is Check)
}

/// A challenge whose consequences (outcome and tier effects) throw no die.
pub open spec fn quiet_challenge(def: ChallengeDef) -> bool {
    &&& (def.on_success matches Some(o) ==> dice_free(o.effects@))
    &&& (def.on_failure matches Some(o) ==> dice_free(o.effects@))
    &&& forall|i: int| 0 <= i < def.tiers.entries@.len() ==> dice_free(#[trigger] def.tiers.entries@[i].1.effects@)
}

/// Every challenge of the scenario is quiet.
pub open spec fn quiet_challenges(sc: Scenario) -> bool {
    forall|c: Seq<char>| #[trigger] sc.challenges@.contains_key(c) ==> quiet_challenge(sc.challenges@[c])
}

/// One op whose die, if it throws one, can be thrown.
pub open spec fn plain_die(sc: Scenario, op: StateOp) -> bool {
    &&& (op is RequestRoll ==> op->RequestRoll_sides >= 1)
    &&& (op is Check ==> op->Check_sides >= 1)
    &&& (op is AttemptChallenge ==> sc.challenges@.contains_key(op->AttemptChallenge_challenge@)
        && sc.challenges@[op->AttemptChallenge_challenge@].sides >= 1)
}

/// Ops whose dice can all be thrown.
pub open spec fn plain_dice(sc: Scenario, ops: Seq<StateOp>) -> bool {
    forall|i: int| 0 <= i < ops.len() ==> plain_die(sc, #[trigger] ops[i])
}

/// A reported roll of a die with `sides` faces against `dc`: in range, and a
/// success exactly when it reaches the difficulty.
pub open spec fn fair_roll(r: RollOutcome, sides: u32, dc: u32) -> bool {
    &&& r.sides == sides
    &&& r.dc == dc
    &&& 1 <= r.result <= sides
    &&& r.success == (r.result >= dc)
}

/// Consequences that throw no die leave the dice, the rolls and the checks alone.
proof fn lemma_quiet_steps(sc: Scenario, t: Trace, ops: Seq<StateOp>)
    requires
        dice_free(ops),
    ensures
        steps(sc, t, ops, true).rolls == t.rolls,
        steps(sc, t, ops, true).checks == t.checks,
        steps(sc, t, ops, true).state.cursor == t.state.cursor,
    decreases ops.len(),
{
    if ops.len() > 0 {
        let init = ops.drop_last();
        assert forall|i: int| 0 <= i < init.len() implies !(#[trigger] init[i] is RequestRoll) && !(init[i] is Check) by {
            assert(init[i] == ops[i]);
        }
        lemma_quiet_steps(sc, t, init);
        let t1 = steps(sc, t, init, true);
        assert(!(ops[ops.len() - 1] is RequestRoll) && !(ops[ops.len() - 1] is Check));
        assert(steps(sc, t, ops, true) == step(sc, t1, ops.last(), true));
    }
}

/// A quiet challenge throws its one die: one check more, no roll, the dice
/// stream one further.
proof fn lemma_quiet_challenge(sc: Scenario, t: Trace, subject: Seq<char>, def: ChallengeDef)
    requires
        quiet_challenge(def),
        t.state.cursor < u64::MAX,
    ensures
        challenge_step(sc, t, subject, def).rolls == t.rolls,
        challenge_step(sc, t, subject, def).checks.len() == t.checks.len() + 1,
        challenge_step(sc, t, subject, def).state.cursor == t.state.cursor + 1,
{
    let (t1, outcome, hit) = challenge_roll(t, subject, def);
    assert(t1.rolls == t.rolls && t1.checks.len() == t.checks.len() + 1);
    assert(t1.state.cursor == t.state.cursor + 1);
    let t2 = match outcome {
        Some(o) => steps(sc, t1, o.effects@, true),
        None => t1,
    };
    match outcome {
        Some(o) => {
            lemma_quiet_steps(sc, t1, o.effects@);
        },
        None => {},
    }
    match hit {
        Some(i) => {
            let roll = roll_spec(t.state.seed, t.state.cursor, def.sides);
            lemma_first_tier_in_range(def.tiers.entries@, roll, def.sides, 0);
            assert(dice_free(def.tiers.entries@[i].1.effects@));
            lemma_quiet_steps(sc, t2, def.tiers.entries@[i].1.effects@);
        },
        None => {},
    }
}

/// What one op does to the dice.
proof fn lemma_step_dice(sc: Scenario, t: Trace, op: StateOp)
    requires
        plain_die(sc, op),
        quiet_challenges(sc),
        t.state.cursor < u64::MAX,
    ensures
        ({
            let t2 = step(sc, t, op, false);
            &&& op is RequestRoll ==> t2.rolls.len() == t.rolls.len() + 1 && t2.rolls.drop_last() == t.rolls
                && fair_roll(t2.rolls.last(), op->RequestRoll_sides, op->RequestRoll_dc) && t2.checks == t.checks
                && t2.state.cursor == t.state.cursor + 1
            &&& (op is Check || op is AttemptChallenge) ==> t2.rolls == t.rolls && t2.checks.len() == t.checks.len() + 1
                && t2.state.cursor == t.state.cursor + 1
            &&& !(op is RequestRoll || op is Check || op is AttemptChallenge) ==> t2.rolls == t.rolls && t2.checks
                == t.checks && t2.state.cursor == t.state.cursor
        }),
{
    let t2 = step(sc, t, op, false);
    match op {
        StateOp::RequestRoll { sides, dc } => {
            law_roll_in_range(t.state.seed, t.state.cursor, sides);
            assert(t2.rolls.drop_last() =~= t.rolls);
        },
        StateOp::Check { .. } => {},
        StateOp::AttemptChallenge { entity, challenge } => {
            let def = sc.challenges@[challenge@];
            assert(quiet_challenge(def));
            lemma_quiet_challenge(sc, t, subject_spec(def, entity@), def);
        },
        _ => {},
    }
}

/// What an op list does to the dice: one fair roll per die request, in order,
/// one check per check or challenge attempt, and the dice stream one further
/// for each.
proof fn lemma_steps_dice(sc: Scenario, t: Trace, ops: Seq<StateOp>)
    requires
        plain_dice(sc, ops),
        quiet_challenges(sc),
        t.state.cursor + ops.len() <= u64::MAX,
    ensures
        ({
            let t2 = steps(sc, t, ops, false);
            let rr = roll_requests(ops);
            &&& t2.rolls.len() == t.rolls.len() + rr.len()
            &&& forall|k: int| 0 <= k < t.rolls.len() ==> #[trigger] t2.rolls[k] == t.rolls[k]
            &&& forall|k: int|
                0 <= k < rr.len() ==> fair_roll(
                    #[trigger] t2.rolls[t.rolls.len() + k],
                    rr[k]->RequestRoll_sides,
                    rr[k]->RequestRoll_dc,
                )
            &&& t2.checks.len() == t.checks.len() + check_requests(ops).len()
            &&& t2.state.cursor == t.state.cursor + rr.len() + check_requests(ops).len()
            &&& rr.len() + check_requests(ops).len() <= ops.len()
        }),
    decreases ops.len(),
{
    if ops.len() > 0 {
        let init = ops.drop_last();
        let last = ops.last();
        assert(ops =~= init.push(last));
        assert forall|i: int| 0 <= i < init.len() implies plain_die(sc, #[trigger] init[i]) by {
            assert(init[i] == ops[i]);
        }
        assert(plain_die(sc, ops[ops.len() - 1]));
        lemma_steps_dice(sc, t, init);
        init.lemma_filter_push(last, |o: StateOp| o is RequestRoll);
        init.lemma_filter_push(last, |o: StateOp| o is Check || o is AttemptChallenge);
        let t1 = steps(sc, t, init, false);
        let rr0 = roll_requests(init);
        let rr = roll_requests(ops);
        assert(steps(sc, t, ops, false) == step(sc, t1, last, false));
        lemma_step_dice(sc, t1, last);
        let t2 = steps(sc, t, ops, false);
        if last is RequestRoll {
            assert(rr == rr0.push(last));
            assert forall|k: int| 0 <= k < rr.len() implies fair_roll(
                #[trigger] t2.rolls[t.rolls.len() + k],
                rr[k]->RequestRoll_sides,
                rr[k]->RequestRoll_dc,
            ) by {
                if k < rr0.len() {
                    assert(rr[k] == rr0[k]);
                    assert(t2.rolls[t.rolls.len() + k] == t2.rolls.drop_last()[t.rolls.len() + k]);
                } else {
                    assert(t2.rolls[t.rolls.len() + k] == t2.rolls.last());
                }
            }
            assert forall|k: int| 0 <= k < t.rolls.len() implies #[trigger] t2.rolls[k] == t.rolls[k] by {
                assert(t2.rolls[k] == t2.rolls.drop_last()[k]);
            }
        } else {
            assert(rr == rr0);
        }
    } else {
        assert(roll_requests(ops) =~= Seq::<StateOp>::empty());
        assert(check_requests(ops) =~= Seq::<StateOp>::empty());
    }
}

/// On a board without reactive beats whose challenges throw no die in their
/// consequences, an accepted delta reports exactly one roll per die request,
/// in order, each with that request's die and difficulty, in range, and a
/// success exactly when it reaches the difficulty; one check per check or
/// challenge attempt; no beat. The dice stream moves on by one per roll and
/// check, the seed stays and the turn advances by one.
pub proof fn law_rolls_follow_requests(m: StateModel, sc: Scenario, ops: Seq<StateOp>)
    requires
        adjudicate_spec(m, sc, ops) is Accept,
        sc.triggers@.len() == 0,
        quiet_challenges(sc),
        m.cursor + ops.len() <= u64::MAX,
        m.turn < u32::MAX,
    ensures
        ({
            let (m2, out) = apply_spec(m, sc, ops);
            let rr = roll_requests(ops);
            &&& out.rolls.len() == rr.len()
            &&& forall|k: int|
                0 <= k < rr.len() ==> fair_roll(#[trigger] out.rolls[k], rr[k]->RequestRoll_sides, rr[k]->RequestRoll_dc)
            &&& out.checks.len() == check_requests(ops).len()
            &&& out.fired.len() == 0
            &&& m2.cursor == m.cursor + rr.len() + check_requests(ops).len()
            &&& m2.seed == m.seed
            &&& m2.turn == m.turn + 1
        }),
{
    let loc = sc.locations@[m.location];
    assert forall|i: int| 0 <= i < ops.len() implies plain_die(sc, #[trigger] ops[i]) by {
        lemma_ops_reasons_hold_each(sc, loc, m, ops, i);
    }
    let t0 = empty_trace(m);
    lemma_steps_dice(sc, t0, ops);
    let t1 = steps(sc, t0, ops, false);
    let turn = (m.turn + 1) as u32;
    let t2 = Trace { state: StateModel { turn, ..t1.state }, ..t1 };
    assert(next_trigger(sc, t2.state, none_done(0), 0) is None);
    assert(none_done(sc.triggers@.len()) =~= none_done(0));
    lemma_steps_frame(sc, t0, ops, false);
    assert forall|k: int| 0 <= k < roll_requests(ops).len() implies fair_roll(
        #[trigger] apply_spec(m, sc, ops).1.rolls[k],
        roll_requests(ops)[k]->RequestRoll_sides,
        roll_requests(ops)[k]->RequestRoll_dc,
    ) by {
        assert(fair_roll(t1.rolls[0 + k], roll_requests(ops)[k]->RequestRoll_sides, roll_requests(ops)[k]->RequestRoll_dc));
    }
}

/// Latches only accumulate: an accepted delta never un-fires a trigger.
pub proof fn law_latches_only_grow(m: StateModel, sc: Scenario, ops: Seq<StateOp>)
    ensures
        m.fired.subset_of(apply_spec(m, sc, ops).0.fired),
{
    let t1 = steps(sc, empty_trace(m), ops, false);
    let turn = (m.turn + 1) as u32;
    let t2 = Trace { state: StateModel { turn, ..t1.state }, ..t1 };
    lemma_steps_frame(sc, empty_trace(m), ops, false);
    lemma_settle_frame(sc, t2, none_done(sc.triggers@.len()), seq![]);
}

/// An accepted delta moves the turn on by exactly one and keeps the dice
/// stream's seed.
pub proof fn law_turn_advances_by_one(m: StateModel, sc: Scenario, ops: Seq<StateOp>)
    requires
        m.turn < u32::MAX,
    ensures
        apply_spec(m, sc, ops).0.turn == m.turn + 1,
        apply_spec(m, sc, ops).0.seed == m.seed,
{
    let t1 = steps(sc, empty_trace(m), ops, false);
    let turn = (m.turn + 1) as u32;
    let t2 = Trace { state: StateModel { turn, ..t1.state }, ..t1 };
    lemma_steps_frame(sc, empty_trace(m), ops, false);
    lemma_settle_frame(sc, t2, none_done(sc.triggers@.len()), seq![]);
}

/// A die with at least one face shows a face in `1..=sides`.
pub proof fn law_roll_in_range(seed: u64, cursor: u64, sides: u32)
    requires
        sides >= 1,
    ensures
        1 <= roll_spec(seed, cursor, sides) <= sides,
{
    let x = mix_spec(seed, cursor);
    assert(x % (sides as u64) < sides);
}

/// A stat is clamped into its declared bounds (when they are consistent).
pub proof fn law_clamp_within_bounds(sc: Scenario, entity: Seq<char>, key: Seq<char>, v: i64)
    ensures
        ({
            let (lo, hi) = stat_bounds_spec(sc, entity, key);
            let c = clamp_spec(sc, entity, key, v);
            &&& match hi {
                Some(h) => lo <= h ==> lo <= c <= h,
                None => lo <= c,
            }
            &&& (lo <= v && match hi {
                Some(h) => v <= h,
                None => true,
            }) ==> c == v
        }),
{
}

/// Ops that only authored content may carry: skills, attributes, turn stamps
/// and presence.
pub open spec fn authored_only_op(op: StateOp) -> bool {
    ||| op is GrantSkill
    ||| op is SetAttribute
    ||| op is RecordTurn
    ||| op is SetPresence
}

proof fn lemma_ops_reasons_hold_each(sc: Scenario, loc: Location, m: StateModel, ops: Seq<StateOp>, i: int)
    requires
        0 <= i < ops.len(),
    ensures
        ops_reasons(sc, loc, m, ops).len() >= op_reasons(sc, loc, m, ops[i]).len(),
        forall|r: ReasonModel| #[trigger] op_reasons(sc, loc, m, ops[i]).contains(r) ==> ops_reasons(sc, loc, m, ops).contains(r),
    decreases ops.len(),
{
    let all = ops_reasons(sc, loc, m, ops);
    let head = ops_reasons(sc, loc, m, ops.drop_last());
    let own = op_reasons(sc, loc, m, ops.last());
    assert(all == head + own);
    if i < ops.len() - 1 {
        lemma_ops_reasons_hold_each(sc, loc, m, ops.drop_last(), i);
        assert(ops.drop_last()[i] == ops[i]);
        assert forall|r: ReasonModel| #[trigger] op_reasons(sc, loc, m, ops[i]).contains(r) implies all.contains(r) by {
            let j = choose|j: int| 0 <= j < head.len() && head[j] == r;
            assert(all[j] == r);
        }
    } else {
        assert forall|r: ReasonModel| #[trigger] op_reasons(sc, loc, m, ops[i]).contains(r) implies all.contains(r) by {
            let j = choose|j: int| 0 <= j < own.len() && own[j] == r;
            assert(all[head.len() + j] == r);
        }
    }
}

/// The reason an authored-only op is refused with.
pub open spec fn authored_only_reason(op: StateOp) -> ReasonModel {
    match op {
        StateOp::GrantSkill { entity, skill } => ReasonModel::SkillGrantNotAllowed { entity: entity@, skill: skill@ },
        StateOp::SetAttribute { entity, key, .. } => ReasonModel::AttributeSetNotAllowed { entity: entity@, key: key@ },
        StateOp::RecordTurn { entity, key } => ReasonModel::TurnRecordNotAllowed { entity: entity@, key: key@ },
        StateOp::SetPresence { entity, .. } => ReasonModel::PresenceSetNotAllowed { entity: entity@ },
        _ => ReasonModel::DiceSidesInvalid,
    }
}

/// The narrator cannot grant a skill, rewrite an attribute, stamp a turn or
/// move someone on or off screen: a delta holding any such op is refused as a
/// whole, and (when the current location exists) each such op is named among
/// the reasons.
pub proof fn law_authored_only_ops_are_refused(m: StateModel, sc: Scenario, ops: Seq<StateOp>, i: int)
    requires
        0 <= i < ops.len(),
        authored_only_op(ops[i]),
    ensures
        adjudicate_spec(m, sc, ops) is Reject,
        sc.locations@.contains_key(m.location) ==> adjudicate_spec(m, sc, ops)->reasons.contains(
            authored_only_reason(ops[i]),
        ),
{
    if sc.locations@.contains_key(m.location) {
        let loc = sc.locations@[m.location];
        lemma_ops_reasons_hold_each(sc, loc, m, ops, i);
        assert(op_reasons(sc, loc, m, ops[i])[0] == authored_only_reason(ops[i]));
        assert(op_reasons(sc, loc, m, ops[i]).contains(authored_only_reason(ops[i])));
    }
}

/// An accepted delta turns no taboo of any character from false to true in
/// the state its ops lead to.
pub proof fn law_accepted_breaks_no_taboo(m: StateModel, sc: Scenario, ops: Seq<StateOp>, i: int, j: int)
    requires
        adjudicate_spec(m, sc, ops) is Accept,
        0 <= i < sc.characters.entries@.len(),
        0 <= j < sc.characters.entries@[i].1.taboos@.len(),
    ensures
        ({
            let g = sc.characters.entries@[i].1.taboos@[j]@;
            gate_holds(g, projected(sc, m, ops)) ==> gate_holds(g, m)
        }),
{
    lemma_taboo_reasons_empty(sc.characters.entries@, m, projected(sc, m, ops), i, j);
}

proof fn lemma_taboo_reasons_empty(
    chars: Seq<(String, CharacterDef)>,
    m0: StateModel,
    m1: StateModel,
    i: int,
    j: int,
)
    requires
        taboo_reasons(chars, m0, m1).len() == 0,
        0 <= i < chars.len(),
        0 <= j < chars[i].1.taboos@.len(),
    ensures
        gate_holds(chars[i].1.taboos@[j]@, m1) ==> gate_holds(chars[i].1.taboos@[j]@, m0),
    decreases chars.len(),
{
    if i < chars.len() - 1 {
        lemma_taboo_reasons_empty(chars.drop_last(), m0, m1, i, j);
    } else {
        lemma_entity_taboos_empty(chars[i].0@, chars[i].1.taboos@, m0, m1, j);
    }
}

proof fn lemma_entity_taboos_empty(eid: Seq<char>, taboos: Seq<Gate>, m0: StateModel, m1: StateModel, j: int)
    requires
        entity_taboos(eid, taboos, m0, m1).len() == 0,
        0 <= j < taboos.len(),
    ensures
        gate_holds(taboos[j]@, m1) ==> gate_holds(taboos[j]@, m0),
    decreases taboos.len(),
{
    if j < taboos.len() - 1 {
        lemma_entity_taboos_empty(eid, taboos.drop_last(), m0, m1, j);
    }
}

/// A roll as the engine reports it: a face of the die, judged against the difficulty.
pub open spec fn roll_ok(r: RollOutcome) -> bool {
    1 <= r.result <= r.sides && r.success == (r.result >= r.dc)
}

/// A check as the engine reports it: a face of the die plus the modifier,
/// judged against the difficulty.
pub open spec fn check_ok(c: CheckModel) -> bool {
    &&& 1 <= c.roll <= c.sides
    &&& c.total == sat_add(c.roll as i64, c.modifier)
    &&& c.success == (c.total >= c.dc)
}

pub open spec fn trace_ok(t: Trace) -> bool {
    &&& forall|i: int| 0 <= i < t.rolls.len() ==> #[trigger] roll_ok(t.rolls[i])
    &&& forall|i: int| 0 <= i < t.checks.len() ==> #[trigger] check_ok(t.checks[i])
}

pub proof fn lemma_steps_ok(sc: Scenario, t: Trace, ops: Seq<StateOp>, nested: bool)
    requires
        trace_ok(t),
    ensures
        trace_ok(steps(sc, t, ops, nested)),
    decreases (if nested {
        0int
    } else {
        1int
    }), ops.len(), 2int,
{
    if ops.len() > 0 {
        lemma_steps_ok(sc, t, ops.drop_last(), nested);
        lemma_step_ok(sc, steps(sc, t, ops.drop_last(), nested), ops.last(), nested);
    }
}

pub proof fn lemma_step_ok(sc: Scenario, t: Trace, op: StateOp, nested: bool)
    requires
        trace_ok(t),
    ensures
        trace_ok(step(sc, t, op, nested)),
    decreases (if nested {
        0int
    } else {
        1int
    }), 0int, 1int,
{
    let m = t.state;
    match op {
        StateOp::RequestRoll { sides, dc } => if sides >= 1 {
            law_roll_in_range(m.seed, m.cursor, sides);
            let t1 = step(sc, t, op, nested);
            assert forall|i: int| 0 <= i < t1.rolls.len() implies #[trigger] roll_ok(t1.rolls[i]) by {
                if i < t.rolls.len() {
                    assert(t1.rolls[i] == t.rolls[i]);
                }
            }
        },
        StateOp::Check { entity, stat, sides, dc } => if sides >= 1 {
            law_roll_in_range(m.seed, m.cursor, sides);
            let t1 = step(sc, t, op, nested);
            assert forall|i: int| 0 <= i < t1.checks.len() implies #[trigger] check_ok(t1.checks[i]) by {
                if i < t.checks.len() {
                    assert(t1.checks[i] == t.checks[i]);
                }
            }
        },
        StateOp::AttemptChallenge { entity, challenge } => {
            if !nested && sc.challenges@.contains_key(challenge@) && sc.challenges@[challenge@].sides >= 1 {
                let def = sc.challenges@[challenge@];
                lemma_challenge_ok(sc, t, subject_spec(def, entity@), def);
            }
        },
        _ => {},
    }
}

pub proof fn lemma_challenge_ok(sc: Scenario, t: Trace, subject: Seq<char>, def: ChallengeDef)
    requires
        def.sides >= 1,
        trace_ok(t),
    ensures
        trace_ok(challenge_step(sc, t, subject, def)),
    decreases 1int, 0int, 0int,
{
    let (t1, outcome, hit) = challenge_roll(t, subject, def);
    law_roll_in_range(t.state.seed, t.state.cursor, def.sides);
    assert forall|i: int| 0 <= i < t1.checks.len() implies #[trigger] check_ok(t1.checks[i]) by {
        if i < t.checks.len() {
            assert(t1.checks[i] == t.checks[i]);
        }
    }
    assert(trace_ok(t1));
    let t2 = match outcome {
        Some(o) => steps(sc, t1, o.effects@, true),
        None => t1,
    };
    match outcome {
        Some(o) => lemma_steps_ok(sc, t1, o.effects@, true),
        None => {},
    }
    lemma_first_tier_in_range(def.tiers.entries@, t1.checks.last().roll, def.sides, 0);
    match hit {
        Some(i) => {
            lemma_steps_ok(sc, t2, def.tiers.entries@[i].1.effects@, true);
        },
        None => {},
    }
}

proof fn lemma_settle_ok(sc: Scenario, t: Trace, done: Seq<bool>, fired: Seq<FiredModel>)
    requires
        trace_ok(t),
    ensures
        trace_ok(settle(sc, t, done, fired).0),
    decreases count_false(done),
{
    if done.len() == sc.triggers@.len() {
        match next_trigger(sc, t.state, done, 0) {
            None => {},
            Some(i) => {
                lemma_next_trigger(sc, t.state, done, 0);
                lemma_count_false_update(done, i);
                lemma_steps_ok(sc, t, sc.triggers@[i].effects@, false);
                lemma_settle_ok(
                    sc,
                    fire_one(sc, t, i),
                    done.update(i, true),
                    fired.push(fired_model(sc.triggers@[i])),
                );
            },
        }
    }
}

/// Every die the engine reports for an accepted delta shows a face of the die
/// and is judged against its difficulty; every check adds its modifier to the
/// face and is judged against its difficulty.
pub proof fn law_reported_dice_are_fair(m: StateModel, sc: Scenario, ops: Seq<StateOp>)
    requires
        adjudicate_spec(m, sc, ops) is Accept,
    ensures
        forall|i: int|
            0 <= i < apply_spec(m, sc, ops).1.rolls.len() ==> #[trigger] roll_ok(
                apply_spec(m, sc, ops).1.rolls[i],
            ),
        forall|i: int|
            0 <= i < apply_spec(m, sc, ops).1.checks.len() ==> #[trigger] check_ok(
                apply_spec(m, sc, ops).1.checks[i],
            ),
{
    let t0 = empty_trace(m);
    lemma_steps_ok(sc, t0, ops, false);
    let t1 = steps(sc, t0, ops, false);
    let turn = (m.turn + 1) as u32;
    let t2 = Trace { state: StateModel { turn, ..t1.state }, ..t1 };
    lemma_settle_ok(sc, t2, none_done(sc.triggers@.len()), seq![]);
}

proof fn lemma_first_tier_in_range(tiers: Seq<(String, TierDef)>, roll: u32, sides: u32, i: int)
    ensures
        match first_tier(tiers, roll, sides, i) {
            Some(j) => 0 <= j < tiers.len(),
            None => true,
        },
    decreases tiers.len() - i,
{
    if 0 <= i < tiers.len() && !tier_hits(tiers[i].1, roll, sides) {
        lemma_first_tier_in_range(tiers, roll, sides, i + 1);
    }
}

/// Whether the game is over: some ending has been reached.
pub fn is_goal(state: &GameState, scenario: &Scenario) -> (b: bool)
    ensures
        b == (reached_spec(*scenario, state@) is Some),
{
    scenario.reached(state).is_some()
}

} // verus!
