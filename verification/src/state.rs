//! The mutable game state owned by the engine, and the deltas a narrator may propose.
use vstd::prelude::*;

use crate::strmap::{maps_sorted, sets_sorted, Dup, StrMap, StrSet};

verus! {

/// The goal id that a scenario with a single unnamed `goal` reports when it is reached.
pub const DEFAULT_GOAL: &'static str = "goal";

/// The conventional entity id of the protagonist.
pub const PLAYER: &'static str = "player";

/// The entity used when an op or gate leaves `entity` out: the protagonist.
pub fn default_entity() -> (r: String)
    ensures
        r@ == PLAYER@,
{
    String::from_str(PLAYER)
}

/// The meaning of a game state: every field as plain mathematical values.
pub struct StateModel {
    pub location: Seq<char>,
    pub inventory: Map<Seq<char>, Set<Seq<char>>>,
    pub flags: Map<Seq<char>, bool>,
    pub entities: Map<Seq<char>, Map<Seq<char>, i64>>,
    pub seed: u64,
    pub cursor: u64,
    pub turn: u32,
    pub fired: Set<Seq<char>>,
    pub skills: Map<Seq<char>, Set<Seq<char>>>,
    pub attributes: Map<Seq<char>, Map<Seq<char>, Seq<char>>>,
    pub present_overrides: Map<Seq<char>, bool>,
    pub votes: Map<Seq<char>, Seq<char>>,
    pub flag_turns: Map<Seq<char>, u32>,
    pub taken: Map<Seq<char>, Set<Seq<char>>>,
}

/// The only truth of the game. Only the engine changes it.
#[derive(Debug)]
pub struct GameState {
    pub location: String,
    /// Items held, per entity.
    pub inventory: StrMap<StrSet>,
    pub flags: StrMap<bool>,
    /// Numeric stats, per entity.
    pub entities: StrMap<StrMap<i64>>,
    pub rng: RngState,
    pub turn: u32,
    /// Ids of triggers that have fired and stay latched.
    pub fired: StrSet,
    /// Skills held, per entity (a closed world: only declared or awakened skills exist).
    pub skills: StrMap<StrSet>,
    /// String attributes (class, role, ...), per entity.
    pub attributes: StrMap<StrMap<String>>,
    /// Forced presence (`true`) or absence (`false`) of an entity on screen.
    pub present_overrides: StrMap<bool>,
    /// The ballot box: voter to target.
    pub votes: StrMap<String>,
    /// The turn at which a flag was recorded true.
    pub flag_turns: StrMap<u32>,
    /// Items taken from a location whose take mode is once, per location.
    pub taken: StrMap<StrSet>,
}

impl View for GameState {
    type V = StateModel;

    open spec fn view(&self) -> StateModel {
        StateModel {
            location: self.location@,
            inventory: self.inventory@,
            flags: self.flags@,
            entities: self.entities@,
            seed: self.rng.seed,
            cursor: self.rng.cursor,
            turn: self.turn,
            fired: self.fired@,
            skills: self.skills@,
            attributes: self.attributes@,
            present_overrides: self.present_overrides@,
            votes: self.votes@,
            flag_turns: self.flag_turns@,
            taken: self.taken@,
        }
    }
}

// ---------------------------------------------------------------------------
// Reading a state model.
// ---------------------------------------------------------------------------

/// An entity holds an item.
pub open spec fn holds(m: StateModel, entity: Seq<char>, item: Seq<char>) -> bool {
    m.inventory.contains_key(entity) && m.inventory[entity].contains(item)
}

/// An entity has a skill.
pub open spec fn has_skill_spec(m: StateModel, entity: Seq<char>, skill: Seq<char>) -> bool {
    m.skills.contains_key(entity) && m.skills[entity].contains(skill)
}

/// A flag's value; an unset flag is false.
pub open spec fn flag_spec(m: StateModel, key: Seq<char>) -> bool {
    m.flags.contains_key(key) && m.flags[key]
}

/// An entity's stat; an unset stat is 0.
pub open spec fn stat_spec(m: StateModel, entity: Seq<char>, key: Seq<char>) -> i64 {
    if m.entities.contains_key(entity) && m.entities[entity].contains_key(key) {
        m.entities[entity][key]
    } else {
        0
    }
}

/// An entity's string attribute; an unset attribute is empty.
pub open spec fn attribute_spec(m: StateModel, entity: Seq<char>, key: Seq<char>) -> Seq<char> {
    if m.attributes.contains_key(entity) && m.attributes[entity].contains_key(key) {
        m.attributes[entity][key]
    } else {
        Seq::empty()
    }
}

// ---------------------------------------------------------------------------
// Writing a state model.
// ---------------------------------------------------------------------------

/// Adds `v` to the set stored under `k` (creating it).
pub open spec fn set_add(
    m: Map<Seq<char>, Set<Seq<char>>>,
    k: Seq<char>,
    v: Seq<char>,
) -> Map<Seq<char>, Set<Seq<char>>> {
    let cur = if m.contains_key(k) { m[k] } else { Set::empty() };
    m.insert(k, cur.insert(v))
}

/// Removes `v` from the set stored under `k`, if there is one.
pub open spec fn set_del(
    m: Map<Seq<char>, Set<Seq<char>>>,
    k: Seq<char>,
    v: Seq<char>,
) -> Map<Seq<char>, Set<Seq<char>>> {
    if m.contains_key(k) {
        m.insert(k, m[k].remove(v))
    } else {
        m
    }
}

/// Stores `v` under `(k1, k2)` in a map of maps (creating the inner map).
pub open spec fn nested_put<T>(
    m: Map<Seq<char>, Map<Seq<char>, T>>,
    k1: Seq<char>,
    k2: Seq<char>,
    v: T,
) -> Map<Seq<char>, Map<Seq<char>, T>> {
    let cur = if m.contains_key(k1) { m[k1] } else { Map::empty() };
    m.insert(k1, cur.insert(k2, v))
}

/// A fresh state at a location, with a seed and nothing else.
pub open spec fn new_state_spec(location: Seq<char>, seed: u64) -> StateModel {
    StateModel {
        location,
        inventory: Map::empty(),
        flags: Map::empty(),
        entities: Map::empty(),
        seed,
        cursor: 0,
        turn: 0,
        fired: Set::empty(),
        skills: Map::empty(),
        attributes: Map::empty(),
        present_overrides: Map::empty(),
        votes: Map::empty(),
        flag_turns: Map::empty(),
        taken: Map::empty(),
    }
}

/// Adds `v` to the string set under `k` in a map of sets (creating it).
fn strset_map_add(m: &mut StrMap<StrSet>, k: &str, v: &str)
    ensures
        final(m)@ == set_add(old(m)@, k@, v@),
        old(m).sorted() ==> final(m).sorted(),
        sets_sorted(*old(m)) ==> sets_sorted(*final(m)),
{
    let ghost was = sets_sorted(*m);
    let ghost es0 = m.entries@;
    let mut cur = match m.take(k) {
        Some(s) => s,
        None => StrSet::new(),
    };
    proof {
        if was {
            assert forall|i: int| 0 <= i < m.entries@.len() implies (#[trigger] m.entries@[i]).1.sorted() by {
                let j = choose|j: int| 0 <= j < es0.len() && es0[j] == m.entries@[i];
                assert(es0[j].1.sorted());
            }
            if exists|i: int| 0 <= i < es0.len() && #[trigger] es0[i].1 == cur {
                let i = choose|i: int| 0 <= i < es0.len() && #[trigger] es0[i].1 == cur;
                assert(es0[i].1.sorted());
            }
        }
    }
    let ghost es1 = m.entries@;
    cur.insert(String::from_str(v));
    let ghost c = cur;
    m.insert(String::from_str(k), cur);
    proof {
        if was {
            assert forall|i: int| 0 <= i < m.entries@.len() implies (#[trigger] m.entries@[i]).1.sorted() by {
                if m.entries@[i].1 != c {
                    let j = choose|j: int| 0 <= j < es1.len() && es1[j] == m.entries@[i];
                    assert(es1[j].1.sorted());
                }
            }
        }
    }
}

/// Removes `v` from the string set under `k`, if there is one.
fn strset_map_del(m: &mut StrMap<StrSet>, k: &str, v: &str)
    ensures
        final(m)@ == set_del(old(m)@, k@, v@),
        old(m).sorted() ==> final(m).sorted(),
        sets_sorted(*old(m)) ==> sets_sorted(*final(m)),
{
    let ghost was = sets_sorted(*m);
    let ghost es0 = m.entries@;
    match m.take(k) {
        Some(mut s) => {
            proof {
                if was {
                    let i = choose|i: int| 0 <= i < es0.len() && #[trigger] es0[i].1 == s;
                    assert(es0[i].1.sorted());
                }
            }
            let ghost es1 = m.entries@;
            s.remove(v);
            let ghost c = s;
            m.insert(String::from_str(k), s);
            proof {
                if was {
                    assert forall|i: int| 0 <= i < m.entries@.len() implies (#[trigger] m.entries@[i]).1.sorted() by {
                        if m.entries@[i].1 != c {
                            let j = choose|j: int| 0 <= j < es1.len() && es1[j] == m.entries@[i];
                            let q = choose|q: int| 0 <= q < es0.len() && es0[q] == es1[j];
                            assert(es0[q].1.sorted());
                        }
                    }
                }
            }
        },
        None => {
            proof {
                if was {
                    assert forall|i: int| 0 <= i < m.entries@.len() implies (#[trigger] m.entries@[i]).1.sorted() by {
                        let j = choose|j: int| 0 <= j < es0.len() && es0[j] == m.entries@[i];
                        assert(es0[j].1.sorted());
                    }
                }
            }
        },
    }
}

/// Stores `v` under `(k1, k2)` in a map of string-keyed maps.
fn nested_insert<V: View>(m: &mut StrMap<StrMap<V>>, k1: &str, k2: &str, v: V)
    ensures
        final(m)@ == nested_put(old(m)@, k1@, k2@, v@),
        old(m).sorted() ==> final(m).sorted(),
        maps_sorted(*old(m)) ==> maps_sorted(*final(m)),
{
    let ghost was = maps_sorted(*m);
    let ghost es0 = m.entries@;
    let mut cur = match m.take(k1) {
        Some(s) => s,
        None => StrMap::new(),
    };
    proof {
        if was {
            assert forall|i: int| 0 <= i < m.entries@.len() implies (#[trigger] m.entries@[i]).1.sorted() by {
                let j = choose|j: int| 0 <= j < es0.len() && es0[j] == m.entries@[i];
                assert(es0[j].1.sorted());
            }
            if exists|i: int| 0 <= i < es0.len() && #[trigger] es0[i].1 == cur {
                let i = choose|i: int| 0 <= i < es0.len() && #[trigger] es0[i].1 == cur;
                assert(es0[i].1.sorted());
            }
        }
    }
    let ghost es1 = m.entries@;
    cur.insert(String::from_str(k2), v);
    let ghost c = cur;
    m.insert(String::from_str(k1), cur);
    proof {
        if was {
            assert forall|i: int| 0 <= i < m.entries@.len() implies (#[trigger] m.entries@[i]).1.sorted() by {
                if m.entries@[i].1 != c {
                    let j = choose|j: int| 0 <= j < es1.len() && es1[j] == m.entries@[i];
                    assert(es1[j].1.sorted());
                }
            }
        }
    }
}

impl GameState {
    /// Every map and set of the state, and every set or map it holds per
    /// entity or place, keeps its keys in ascending order, each once.
    pub open spec fn keys_sorted(&self) -> bool {
        &&& self.inventory.sorted()
        &&& self.flags.sorted()
        &&& self.entities.sorted()
        &&& self.fired.sorted()
        &&& self.skills.sorted()
        &&& self.attributes.sorted()
        &&& self.present_overrides.sorted()
        &&& self.votes.sorted()
        &&& self.flag_turns.sorted()
        &&& self.taken.sorted()
        &&& sets_sorted(self.inventory)
        &&& sets_sorted(self.skills)
        &&& sets_sorted(self.taken)
        &&& maps_sorted(self.entities)
        &&& maps_sorted(self.attributes)
    }

    /// An initial state at a starting location with an RNG seed.
    pub fn new(location: &str, seed: u64) -> (s: Self)
        ensures
            s@ == new_state_spec(location@, seed),
            s.keys_sorted(),
    {
        GameState {
            location: String::from_str(location),
            inventory: StrMap::new(),
            flags: StrMap::new(),
            entities: StrMap::new(),
            rng: RngState { seed, cursor: 0 },
            turn: 0,
            fired: StrSet::new(),
            skills: StrMap::new(),
            attributes: StrMap::new(),
            present_overrides: StrMap::new(),
            votes: StrMap::new(),
            flag_turns: StrMap::new(),
            taken: StrMap::new(),
        }
    }

    /// Whether an entity has acquired a skill.
    pub fn has_skill(&self, entity: &str, skill: &str) -> (b: bool)
        ensures
            b == has_skill_spec(self@, entity@, skill@),
    {
        match self.skills.get(entity) {
            Some(s) => s.contains(skill),
            None => false,
        }
    }

    /// Grants a skill to an entity.
    pub fn grant_skill(&mut self, entity: &str, skill: &str)
        ensures
            final(self)@ == (StateModel { skills: set_add(old(self)@.skills, entity@, skill@), ..old(self)@ }),
            old(self).keys_sorted() ==> final(self).keys_sorted(),
    {
        strset_map_add(&mut self.skills, entity, skill);
    }

    /// Whether an entity holds an item.
    pub fn has_item(&self, entity: &str, item: &str) -> (b: bool)
        ensures
            b == holds(self@, entity@, item@),
    {
        match self.inventory.get(entity) {
            Some(s) => s.contains(item),
            None => false,
        }
    }

    /// Adds an item to an entity's inventory.
    pub fn add_to_inventory(&mut self, entity: &str, item: &str)
        ensures
            final(self)@ == (StateModel { inventory: set_add(old(self)@.inventory, entity@, item@), ..old(self)@ }),
            old(self).keys_sorted() ==> final(self).keys_sorted(),
    {
        strset_map_add(&mut self.inventory, entity, item);
    }

    /// Removes an item from an entity's inventory.
    pub fn remove_from_inventory(&mut self, entity: &str, item: &str)
        ensures
            final(self)@ == (StateModel { inventory: set_del(old(self)@.inventory, entity@, item@), ..old(self)@ }),
            old(self).keys_sorted() ==> final(self).keys_sorted(),
    {
        strset_map_del(&mut self.inventory, entity, item);
    }

    /// A flag's value; unset flags are false.
    pub fn flag(&self, key: &str) -> (b: bool)
        ensures
            b == flag_spec(self@, key@),
    {
        match self.flags.get(key) {
            Some(v) => *v,
            None => false,
        }
    }

    /// An entity's stat; unset stats are 0.
    pub fn stat_of(&self, entity: &str, key: &str) -> (v: i64)
        ensures
            v == stat_spec(self@, entity@, key@),
    {
        match self.entities.get(entity) {
            Some(stats) => match stats.get(key) {
                Some(v) => *v,
                None => 0,
            },
            None => 0,
        }
    }

    /// The protagonist's stat; unset stats are 0.
    pub fn stat(&self, key: &str) -> (v: i64)
        ensures
            v == stat_spec(self@, PLAYER@, key@),
    {
        self.stat_of(PLAYER, key)
    }

    /// Sets an entity's stat (creating the entity).
    pub fn set_stat(&mut self, entity: &str, key: &str, value: i64)
        ensures
            final(self)@ == (StateModel { entities: nested_put(old(self)@.entities, entity@, key@, value), ..old(self)@ }),
            old(self).keys_sorted() ==> final(self).keys_sorted(),
    {
        nested_insert(&mut self.entities, entity, key, value);
    }

    /// An entity's string attribute; unset attributes are empty.
    pub fn attribute_of(&self, entity: &str, key: &str) -> (r: &str)
        ensures
            r@ == attribute_spec(self@, entity@, key@),
    {
        match self.attributes.get(entity) {
            Some(attrs) => match attrs.get(key) {
                Some(v) => v.as_str(),
                None => {
                    proof {
                        reveal_strlit("");
                    }
                    ""
                },
            },
            None => {
                proof {
                    reveal_strlit("");
                }
                ""
            },
        }
    }

    /// Records that a once-only item was taken from the current location.
    pub fn mark_taken(&mut self, item: &str)
        ensures
            final(self)@ == (StateModel { taken: set_add(old(self)@.taken, old(self)@.location, item@), ..old(self)@ }),
            old(self).keys_sorted() ==> final(self).keys_sorted(),
    {
        let at = self.location.clone();
        strset_map_add(&mut self.taken, at.as_str(), item);
    }

    /// Sets an entity's string attribute.
    pub fn set_attribute(&mut self, entity: &str, key: &str, value: &str)
        ensures
            final(self)@ == (StateModel { attributes: nested_put(old(self)@.attributes, entity@, key@, value@), ..old(self)@ }),
            old(self).keys_sorted() ==> final(self).keys_sorted(),
    {
        nested_insert(&mut self.attributes, entity, key, String::from_str(value));
    }
}

impl Dup for GameState {
    fn dup(&self) -> (r: Self) {
        GameState {
            location: self.location.clone(),
            inventory: self.inventory.dup(),
            flags: self.flags.dup(),
            entities: self.entities.dup(),
            rng: RngState { seed: self.rng.seed, cursor: self.rng.cursor },
            turn: self.turn,
            fired: self.fired.dup(),
            skills: self.skills.dup(),
            attributes: self.attributes.dup(),
            present_overrides: self.present_overrides.dup(),
            votes: self.votes.dup(),
            flag_turns: self.flag_turns.dup(),
            taken: self.taken.dup(),
        }
    }
}

/// Deterministic random state: reproducible from `seed` and `cursor` alone.
#[derive(Debug)]
pub struct RngState {
    pub seed: u64,
    pub cursor: u64,
}

/// The splitmix64 output for a seed and cursor.
pub open spec fn mix_spec(seed: u64, cursor: u64) -> u64 {
    let z0 = vstd::wrapping::u64_specs::wrapping_add(
        seed,
        vstd::wrapping::u64_specs::wrapping_mul(
            vstd::wrapping::u64_specs::wrapping_add(cursor, 1),
            0x9E37_79B9_7F4A_7C15u64,
        ),
    );
    let z1 = vstd::wrapping::u64_specs::wrapping_mul(z0 ^ (z0 >> 30u64), 0xBF58_476D_1CE4_E5B9u64);
    let z2 = vstd::wrapping::u64_specs::wrapping_mul(z1 ^ (z1 >> 27u64), 0x94D0_49BB_1331_11EBu64);
    z2 ^ (z2 >> 31u64)
}

/// The face shown by a `sides`-sided die at a seed and cursor.
pub open spec fn roll_spec(seed: u64, cursor: u64, sides: u32) -> u32 {
    ((mix_spec(seed, cursor) % (sides as u64)) + 1) as u32
}

/// The cursor after one roll.
pub open spec fn next_cursor(cursor: u64) -> u64 {
    vstd::wrapping::u64_specs::wrapping_add(cursor, 1)
}

impl RngState {
    /// Rolls 1d`sides` (a face in `1..=sides`) and advances the cursor by one.
    pub fn roll(&mut self, sides: u32) -> (r: u32)
        requires
            sides >= 1,
        ensures
            r == roll_spec(old(self).seed, old(self).cursor, sides),
            1 <= r <= sides,
            final(self).seed == old(self).seed,
            final(self).cursor == next_cursor(old(self).cursor),
    {
        let mut z = self.seed.wrapping_add(
            self.cursor.wrapping_add(1).wrapping_mul(0x9E37_79B9_7F4A_7C15u64),
        );
        z = (z ^ (z >> 30u64)).wrapping_mul(0xBF58_476D_1CE4_E5B9u64);
        z = (z ^ (z >> 27u64)).wrapping_mul(0x94D0_49BB_1331_11EBu64);
        z = z ^ (z >> 31u64);
        self.cursor = self.cursor.wrapping_add(1);
        let face = z % (sides as u64);
        assert(face < sides);
        (face as u32) + 1
    }
}

/// The smallest unit of state change, as a narrator proposes it.
#[allow(inconsistent_fields)]
#[derive(Debug)]
pub enum StateOp {
    /// The protagonist picks an item up at the current location.
    AddItem { item: String },
    /// The protagonist lets go of an item.
    RemoveItem { item: String },
    /// Hands an item from one entity to another.
    GiveItem { from: String, to: String, item: String },
    SetFlag { key: String, value: bool },
    Move { to: String },
    /// Asks the engine for a die roll against a difficulty; the result is the engine's.
    RequestRoll { sides: u32, dc: u32 },
    /// A skill check: 1d`sides` plus the entity's stat against `dc`.
    Check { entity: String, stat: String, sides: u32, dc: u32 },
    /// Attempts an authored challenge; everything about it is authored.
    AttemptChallenge { entity: String, challenge: String },
    /// Adds to a stat; the engine clamps the result.
    AdjustStat { entity: String, key: String, delta: i64 },
    /// Multiplies a stat by `num / den`; the engine clamps the result.
    ScaleStat { entity: String, key: String, num: i64, den: i64 },
    /// Grants a skill (authored triggers only).
    GrantSkill { entity: String, skill: String },
    /// Rewrites a string attribute (authored triggers only).
    SetAttribute { entity: String, key: String, value: String },
    /// Stamps the current turn into a stat (authored triggers only).
    RecordTurn { entity: String, key: String },
    /// Forces an entity on or off screen (authored triggers only).
    SetPresence { entity: String, present: bool },
}

/// What a narrator returns each turn: prose plus the ops that change the state.
#[derive(Debug)]
pub struct StateDelta {
    pub narration: String,
    /// One line of what happened this turn, for the chronicle.
    pub summary: String,
    /// Lines proposed for the shared list of agreed facts.
    pub facts: Vec<String>,
    pub ops: Vec<StateOp>,
}

impl StateDelta {
    pub fn new(narration: &str, ops: Vec<StateOp>) -> (d: Self)
        ensures
            d.narration@ == narration@,
            d.summary@ == Seq::<char>::empty(),
            d.facts@.len() == 0,
            d.ops@ == ops@,
    {
        StateDelta { narration: String::from_str(narration), summary: String::new(), facts: Vec::new(), ops }
    }
}

} // verus!
