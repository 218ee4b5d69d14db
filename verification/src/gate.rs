//! Conditions evaluated against the game state.
use vstd::prelude::*;

use crate::state::{attribute_spec, flag_spec, has_skill_spec, holds, stat_spec, GameState, StateModel};
use crate::strmap::Dup;

verus! {

broadcast use vstd::std_specs::vec::group_vec_axioms;

/// A condition on the state. `All`/`Any` combine sub-conditions.
#[allow(inconsistent_fields)]
#[derive(Debug)]
pub enum Gate {
    /// Always holds.
    Always,
    /// The entity holds the item.
    HasItem { entity: String, item: String },
    /// The flag has the given value (unset flags are false).
    FlagIs { key: String, value: bool },
    /// The current location is `at`.
    LocationIs { at: String },
    /// The entity's stat is at least `value` (unset is 0).
    StatAtLeast { entity: String, key: String, value: i64 },
    /// The entity's stat is at most `value` (unset is 0).
    StatAtMost { entity: String, key: String, value: i64 },
    /// The entity has the skill.
    HasSkill { entity: String, skill: String },
    /// The entity's attribute equals `value` (unset is empty).
    AttributeIs { entity: String, key: String, value: String },
    /// At least `turns` turns have passed since the turn stamped in the stat.
    TurnsSince { entity: String, key: String, turns: u32 },
    /// The entity's vote is in the ballot box.
    HasVoted { entity: String },
    /// Every sub-condition holds.
    All { of: Vec<Gate> },
    /// Some sub-condition holds.
    Any { of: Vec<Gate> },
}

/// The meaning of a gate: the same shape over plain values.
#[allow(inconsistent_fields)]
pub enum GateModel {
    Always,
    HasItem { entity: Seq<char>, item: Seq<char> },
    FlagIs { key: Seq<char>, value: bool },
    LocationIs { at: Seq<char> },
    StatAtLeast { entity: Seq<char>, key: Seq<char>, value: i64 },
    StatAtMost { entity: Seq<char>, key: Seq<char>, value: i64 },
    HasSkill { entity: Seq<char>, skill: Seq<char> },
    AttributeIs { entity: Seq<char>, key: Seq<char>, value: Seq<char> },
    TurnsSince { entity: Seq<char>, key: Seq<char>, turns: u32 },
    HasVoted { entity: Seq<char> },
    All { of: Seq<GateModel> },
    Any { of: Seq<GateModel> },
}

pub open spec fn gate_model(g: Gate) -> GateModel
    decreases g, 0int,
{
    match g {
        Gate::Always => GateModel::Always,
        Gate::HasItem { entity, item } => GateModel::HasItem { entity: entity@, item: item@ },
        Gate::FlagIs { key, value } => GateModel::FlagIs { key: key@, value },
        Gate::LocationIs { at } => GateModel::LocationIs { at: at@ },
        Gate::StatAtLeast { entity, key, value } => GateModel::StatAtLeast {
            entity: entity@,
            key: key@,
            value,
        },
        Gate::StatAtMost { entity, key, value } => GateModel::StatAtMost {
            entity: entity@,
            key: key@,
            value,
        },
        Gate::HasSkill { entity, skill } => GateModel::HasSkill { entity: entity@, skill: skill@ },
        Gate::AttributeIs { entity, key, value } => GateModel::AttributeIs {
            entity: entity@,
            key: key@,
            value: value@,
        },
        Gate::TurnsSince { entity, key, turns } => GateModel::TurnsSince {
            entity: entity@,
            key: key@,
            turns,
        },
        Gate::HasVoted { entity } => GateModel::HasVoted { entity: entity@ },
        Gate::All { of } => GateModel::All { of: gate_models(of@, of@.len() as int) },
        Gate::Any { of } => GateModel::Any { of: gate_models(of@, of@.len() as int) },
    }
}

/// The models of the first `n` gates of a sequence.
pub open spec fn gate_models(s: Seq<Gate>, n: int) -> Seq<GateModel>
    decreases s, n,
    when 0 <= n <= s.len()
{
    if n <= 0 {
        Seq::empty()
    } else {
        gate_models(s, n - 1).push(gate_model(s[n - 1]))
    }
}

pub proof fn lemma_gate_models(s: Seq<Gate>, n: int)
    requires
        0 <= n <= s.len(),
    ensures
        gate_models(s, n).len() == n,
        forall|i: int| 0 <= i < n ==> #[trigger] gate_models(s, n)[i] == gate_model(s[i]),
    decreases n,
{
    if n > 0 {
        lemma_gate_models(s, n - 1);
    }
}

impl View for Gate {
    type V = GateModel;

    open spec fn view(&self) -> GateModel {
        gate_model(*self)
    }
}

/// Whether a gate holds in a state.
pub open spec fn gate_holds(g: GateModel, m: StateModel) -> bool
    decreases g, 0int,
{
    match g {
        GateModel::Always => true,
        GateModel::HasItem { entity, item } => holds(m, entity, item),
        GateModel::FlagIs { key, value } => flag_spec(m, key) == value,
        GateModel::LocationIs { at } => m.location == at,
        GateModel::StatAtLeast { entity, key, value } => stat_spec(m, entity, key) >= value,
        GateModel::StatAtMost { entity, key, value } => stat_spec(m, entity, key) <= value,
        GateModel::HasSkill { entity, skill } => has_skill_spec(m, entity, skill),
        GateModel::AttributeIs { entity, key, value } => attribute_spec(m, entity, key) == value,
        GateModel::TurnsSince { entity, key, turns } => m.turn - stat_spec(m, entity, key) >= turns,
        GateModel::HasVoted { entity } => m.votes.contains_key(entity),
        GateModel::All { of } => all_hold(of, of.len() as int, m),
        GateModel::Any { of } => any_holds(of, of.len() as int, m),
    }
}

/// Every one of the first `n` gates holds.
pub open spec fn all_hold(gs: Seq<GateModel>, n: int, m: StateModel) -> bool
    decreases gs, n,
    when 0 <= n <= gs.len()
{
    if n <= 0 {
        true
    } else {
        all_hold(gs, n - 1, m) && gate_holds(gs[n - 1], m)
    }
}

/// Some one of the first `n` gates holds.
pub open spec fn any_holds(gs: Seq<GateModel>, n: int, m: StateModel) -> bool
    decreases gs, n,
    when 0 <= n <= gs.len()
{
    if n <= 0 {
        false
    } else {
        any_holds(gs, n - 1, m) || gate_holds(gs[n - 1], m)
    }
}

proof fn lemma_all_hold_prefix(gs: Seq<GateModel>, n: int, k: int, m: StateModel)
    requires
        0 <= n <= k <= gs.len(),
        !all_hold(gs, n, m),
    ensures
        !all_hold(gs, k, m),
    decreases k - n,
{
    if n < k {
        lemma_all_hold_prefix(gs, n + 1, k, m);
    }
}

proof fn lemma_any_holds_prefix(gs: Seq<GateModel>, n: int, k: int, m: StateModel)
    requires
        0 <= n <= k <= gs.len(),
        any_holds(gs, n, m),
    ensures
        any_holds(gs, k, m),
    decreases k - n,
{
    if n < k {
        lemma_any_holds_prefix(gs, n + 1, k, m);
    }
}

proof fn lemma_all_hold_forall(gs: Seq<GateModel>, n: int, m: StateModel)
    requires
        0 <= n <= gs.len(),
    ensures
        all_hold(gs, n, m) <==> forall|i: int| 0 <= i < n ==> gate_holds(#[trigger] gs[i], m),
    decreases n,
{
    if n > 0 {
        lemma_all_hold_forall(gs, n - 1, m);
    }
}

proof fn lemma_any_holds_exists(gs: Seq<GateModel>, n: int, m: StateModel)
    requires
        0 <= n <= gs.len(),
    ensures
        any_holds(gs, n, m) <==> exists|i: int| 0 <= i < n && gate_holds(#[trigger] gs[i], m),
    decreases n,
{
    if n > 0 {
        lemma_any_holds_exists(gs, n - 1, m);
        if gate_holds(gs[n - 1], m) {
            assert(gate_holds(gs[n - 1], m));
        }
    }
}

/// What each kind of gate asks of a state. An unset flag reads false, an unset
/// stat 0 and an unset attribute empty; `All` of nothing holds and `Any` of
/// nothing does not.
pub proof fn law_gate_by_variant(g: GateModel, m: StateModel)
    ensures
        g is Always ==> gate_holds(g, m),
        g matches GateModel::FlagIs { key, value } ==> (gate_holds(g, m) <==> (m.flags.contains_key(key)
            && m.flags[key]) == value),
        g matches GateModel::HasItem { entity, item } ==> (gate_holds(g, m) <==> holds(m, entity, item)),
        g matches GateModel::HasSkill { entity, skill } ==> (gate_holds(g, m) <==> has_skill_spec(m, entity, skill)),
        g matches GateModel::LocationIs { at } ==> (gate_holds(g, m) <==> m.location == at),
        g matches GateModel::StatAtLeast { entity, key, value } ==> (gate_holds(g, m) <==> stat_spec(m, entity, key)
            >= value),
        g matches GateModel::StatAtMost { entity, key, value } ==> (gate_holds(g, m) <==> stat_spec(m, entity, key)
            <= value),
        g matches GateModel::AttributeIs { entity, key, value } ==> (gate_holds(g, m) <==> attribute_spec(m, entity, key)
            == value),
        g matches GateModel::TurnsSince { entity, key, turns } ==> (gate_holds(g, m) <==> m.turn - stat_spec(m, entity, key)
            >= turns),
        g matches GateModel::HasVoted { entity } ==> (gate_holds(g, m) <==> m.votes.contains_key(entity)),
        g matches GateModel::All { of } ==> (gate_holds(g, m) <==> forall|i: int| 0 <= i < of.len() ==> gate_holds(#[trigger] of[i], m)),
        g matches GateModel::Any { of } ==> (gate_holds(g, m) <==> exists|i: int| 0 <= i < of.len() && gate_holds(#[trigger] of[i], m)),
        forall|e: Seq<char>, k: Seq<char>| !(m.entities.contains_key(e) && m.entities[e].contains_key(k)) ==> #[trigger] stat_spec(m, e, k) == 0,
        forall|e: Seq<char>, k: Seq<char>| !(m.attributes.contains_key(e) && m.attributes[e].contains_key(k)) ==> #[trigger] attribute_spec(m, e, k) == Seq::<char>::empty(),
        forall|k: Seq<char>| !m.flags.contains_key(k) ==> !#[trigger] flag_spec(m, k),
{
    match g {
        GateModel::All { of } => lemma_all_hold_forall(of, of.len() as int, m),
        GateModel::Any { of } => lemma_any_holds_exists(of, of.len() as int, m),
        _ => {},
    }
}

/// The leaf conditions that make a false gate false: the false children of an
/// `All` (recursively), or the condition itself. Empty when it holds.
pub open spec fn unmet_spec(g: GateModel, m: StateModel) -> Seq<GateModel>
    decreases g, 0int,
{
    if gate_holds(g, m) {
        Seq::empty()
    } else {
        match g {
            GateModel::All { of } => unmet_all(of, of.len() as int, m),
            _ => seq![g],
        }
    }
}

/// The unmet leaves of the first `n` gates, in order.
pub open spec fn unmet_all(gs: Seq<GateModel>, n: int, m: StateModel) -> Seq<GateModel>
    decreases gs, n,
    when 0 <= n <= gs.len()
{
    if n <= 0 {
        Seq::empty()
    } else {
        unmet_all(gs, n - 1, m) + unmet_spec(gs[n - 1], m)
    }
}

/// The models of a sequence of gates.
pub open spec fn gate_views(s: Seq<Gate>) -> Seq<GateModel> {
    s.map_values(|g: Gate| g@)
}

impl Gate {
    /// Whether this condition holds in the state.
    pub fn eval(&self, s: &GameState) -> (b: bool)
        ensures
            b == gate_holds(self@, s@),
        decreases self,
    {
        match self {
            Gate::Always => true,
            Gate::HasItem { entity, item } => s.has_item(entity.as_str(), item.as_str()),
            Gate::FlagIs { key, value } => s.flag(key.as_str()) == *value,
            Gate::LocationIs { at } => crate::strmap::str_eq(s.location.as_str(), at.as_str()),
            Gate::StatAtLeast { entity, key, value } => s.stat_of(entity.as_str(), key.as_str()) >= *value,
            Gate::StatAtMost { entity, key, value } => s.stat_of(entity.as_str(), key.as_str()) <= *value,
            Gate::HasSkill { entity, skill } => s.has_skill(entity.as_str(), skill.as_str()),
            Gate::AttributeIs { entity, key, value } => crate::strmap::str_eq(
                s.attribute_of(entity.as_str(), key.as_str()),
                value.as_str(),
            ),
            Gate::TurnsSince { entity, key, turns } => {
                let stamped = s.stat_of(entity.as_str(), key.as_str()) as i128;
                (s.turn as i128) - stamped >= (*turns as i128)
            },
            Gate::HasVoted { entity } => s.votes.contains_key(entity.as_str()),
            Gate::All { of } => {
                proof {
                    lemma_gate_models(of@, of@.len() as int);
                }
                let ghost gs = gate_models(of@, of@.len() as int);
                let mut i: usize = 0;
                while i < of.len()
                    invariant
                        i <= of@.len(),
                        gs == gate_models(of@, of@.len() as int),
                        gs.len() == of@.len(),
                        forall|j: int| 0 <= j < of@.len() ==> #[trigger] gs[j] == gate_model(of@[j]),
                        all_hold(gs, i as int, s@),
                        *self == (Gate::All { of: *of }),
                    decreases of@.len() - i,
                {
                    proof {
                        assert(self->All_of == *of || self->Any_of == *of);
                        assert(decreases_to!(*self => *of));
                        assert(decreases_to!(*of => of[i as int]));
                    }
                    let ok = of[i].eval(s);
                    assert(gs[i as int] == of@[i as int]@);
                    if !ok {
                        proof {
                            lemma_all_hold_prefix(gs, i + 1, gs.len() as int, s@);
                            assert(self@ == GateModel::All { of: gs });
                        }
                        return false;
                    }
                    i = i + 1;
                }
                true
            },
            Gate::Any { of } => {
                proof {
                    lemma_gate_models(of@, of@.len() as int);
                }
                let ghost gs = gate_models(of@, of@.len() as int);
                let mut i: usize = 0;
                while i < of.len()
                    invariant
                        i <= of@.len(),
                        gs == gate_models(of@, of@.len() as int),
                        gs.len() == of@.len(),
                        forall|j: int| 0 <= j < of@.len() ==> #[trigger] gs[j] == gate_model(of@[j]),
                        !any_holds(gs, i as int, s@),
                        *self == (Gate::Any { of: *of }),
                    decreases of@.len() - i,
                {
                    proof {
                        assert(self->All_of == *of || self->Any_of == *of);
                        assert(decreases_to!(*self => *of));
                        assert(decreases_to!(*of => of[i as int]));
                    }
                    let ok = of[i].eval(s);
                    assert(gs[i as int] == of@[i as int]@);
                    if ok {
                        proof {
                            lemma_any_holds_prefix(gs, i + 1, gs.len() as int, s@);
                            assert(self@ == GateModel::Any { of: gs });
                        }
                        return true;
                    }
                    i = i + 1;
                }
                false
            },
        }
    }

    /// When this condition is false, the leaf conditions that are not met (see `unmet_spec`).
    pub fn unmet(&self, s: &GameState) -> (r: Vec<Gate>)
        ensures
            gate_views(r@) == unmet_spec(self@, s@),
        decreases self,
    {
        if self.eval(s) {
            let r: Vec<Gate> = Vec::new();
            assert(gate_views(r@) =~= Seq::<GateModel>::empty());
            return r;
        }
        match self {
            Gate::All { of } => {
                proof {
                    lemma_gate_models(of@, of@.len() as int);
                }
                let ghost gs = gate_models(of@, of@.len() as int);
                let mut out: Vec<Gate> = Vec::new();
                let mut i: usize = 0;
                while i < of.len()
                    invariant
                        i <= of@.len(),
                        gs == gate_models(of@, of@.len() as int),
                        gs.len() == of@.len(),
                        forall|j: int| 0 <= j < of@.len() ==> #[trigger] gs[j] == gate_model(of@[j]),
                        gate_views(out@) == unmet_all(gs, i as int, s@),
                        *self == (Gate::All { of: *of }),
                    decreases of@.len() - i,
                {
                    proof {
                        assert(self->All_of == *of || self->Any_of == *of);
                        assert(decreases_to!(*self => *of));
                        assert(decreases_to!(*of => of[i as int]));
                    }
                    let mut part = of[i].unmet(s);
                    let ghost before = out@;
                    out.append(&mut part);
                    proof {
                        assert(gate_views(out@) =~= gate_views(before) + unmet_spec(gs[i as int], s@));
                    }
                    i = i + 1;
                }
                out
            },
            _ => {
                let mut r: Vec<Gate> = Vec::new();
                r.push(self.dup());
                assert(gate_views(r@) =~= seq![self@]);
                r
            },
        }
    }
}

impl Dup for Gate {
    fn dup(&self) -> (r: Self)
        decreases self,
    {
        match self {
            Gate::Always => Gate::Always,
            Gate::HasItem { entity, item } => Gate::HasItem { entity: entity.clone(), item: item.clone() },
            Gate::FlagIs { key, value } => Gate::FlagIs { key: key.clone(), value: *value },
            Gate::LocationIs { at } => Gate::LocationIs { at: at.clone() },
            Gate::StatAtLeast { entity, key, value } => Gate::StatAtLeast {
                entity: entity.clone(),
                key: key.clone(),
                value: *value,
            },
            Gate::StatAtMost { entity, key, value } => Gate::StatAtMost {
                entity: entity.clone(),
                key: key.clone(),
                value: *value,
            },
            Gate::HasSkill { entity, skill } => Gate::HasSkill { entity: entity.clone(), skill: skill.clone() },
            Gate::AttributeIs { entity, key, value } => Gate::AttributeIs {
                entity: entity.clone(),
                key: key.clone(),
                value: value.clone(),
            },
            Gate::TurnsSince { entity, key, turns } => Gate::TurnsSince {
                entity: entity.clone(),
                key: key.clone(),
                turns: *turns,
            },
            Gate::HasVoted { entity } => Gate::HasVoted { entity: entity.clone() },
            Gate::All { of } => {
                proof {
                    lemma_gate_models(of@, of@.len() as int);
                }
                let mut v: Vec<Gate> = Vec::new();
                let mut i: usize = 0;
                while i < of.len()
                    invariant
                        i <= of@.len(),
                        v@.len() == i,
                        forall|j: int| 0 <= j < i ==> #[trigger] gate_model(v@[j]) == gate_model(of@[j]),
                        *self == (Gate::All { of: *of }),
                    decreases of@.len() - i,
                {
                    proof {
                        assert(self->All_of == *of || self->Any_of == *of);
                        assert(decreases_to!(*self => *of));
                        assert(decreases_to!(*of => of[i as int]));
                    }
                    v.push(of[i].dup());
                    i = i + 1;
                }
                proof {
                    lemma_gate_models(v@, v@.len() as int);
                    assert(gate_models(v@, v@.len() as int) =~= gate_models(of@, of@.len() as int));
                }
                Gate::All { of: v }
            },
            Gate::Any { of } => {
                proof {
                    lemma_gate_models(of@, of@.len() as int);
                }
                let mut v: Vec<Gate> = Vec::new();
                let mut i: usize = 0;
                while i < of.len()
                    invariant
                        i <= of@.len(),
                        v@.len() == i,
                        forall|j: int| 0 <= j < i ==> #[trigger] gate_model(v@[j]) == gate_model(of@[j]),
                        *self == (Gate::Any { of: *of }),
                    decreases of@.len() - i,
                {
                    proof {
                        assert(self->All_of == *of || self->Any_of == *of);
                        assert(decreases_to!(*self => *of));
                        assert(decreases_to!(*of => of[i as int]));
                    }
                    v.push(of[i].dup());
                    i = i + 1;
                }
                proof {
                    lemma_gate_models(v@, v@.len() as int);
                    assert(gate_models(v@, v@.len() as int) =~= gate_models(of@, of@.len() as int));
                }
                Gate::Any { of: v }
            },
        }
    }
}

/// A condition does not read the turns at which flags became true.
pub proof fn lemma_gate_ignores_flag_turns(g: GateModel, m: StateModel, m2: StateModel)
    requires
        m2 == (StateModel { flag_turns: m2.flag_turns, ..m }),
    ensures
        gate_holds(g, m2) == gate_holds(g, m),
    decreases g, 0int,
{
    match g {
        GateModel::All { of } => lemma_all_ignores_flag_turns(of, of.len() as int, m, m2),
        GateModel::Any { of } => lemma_any_ignores_flag_turns(of, of.len() as int, m, m2),
        _ => {},
    }
}

proof fn lemma_all_ignores_flag_turns(gs: Seq<GateModel>, n: int, m: StateModel, m2: StateModel)
    requires
        0 <= n <= gs.len(),
        m2 == (StateModel { flag_turns: m2.flag_turns, ..m }),
    ensures
        all_hold(gs, n, m2) == all_hold(gs, n, m),
    decreases gs, n,
{
    if n > 0 {
        lemma_all_ignores_flag_turns(gs, n - 1, m, m2);
        lemma_gate_ignores_flag_turns(gs[n - 1], m, m2);
    }
}

proof fn lemma_any_ignores_flag_turns(gs: Seq<GateModel>, n: int, m: StateModel, m2: StateModel)
    requires
        0 <= n <= gs.len(),
        m2 == (StateModel { flag_turns: m2.flag_turns, ..m }),
    ensures
        any_holds(gs, n, m2) == any_holds(gs, n, m),
    decreases gs, n,
{
    if n > 0 {
        lemma_any_ignores_flag_turns(gs, n - 1, m, m2);
        lemma_gate_ignores_flag_turns(gs[n - 1], m, m2);
    }
}

} // verus!
