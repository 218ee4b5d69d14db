//! The board and the state as text: what the narrator may take as true.
use vstd::prelude::*;

use crate::gate::gate_holds;
use crate::prompt::concat_spec;
use crate::prompt::{gate_brief, gate_brief_spec};
use crate::spine::{
    authored_only_spec, present_spec, ChallengeDef, CharacterDef, Exit, GoalDef, Location, LocationItem, Protagonist, Scenario,
    TakeMode, VoteRule,
};
use crate::state::{attribute_spec, GameState, PLAYER};
use crate::strmap::{str_eq, StrMap, StrSet};
use crate::text::{dec, dec_spec, int_spec, int_str, join, join_spec, trim, trim_spec};
use crate::turn::svs;

verus! {

broadcast use vstd::std_specs::vec::group_vec_axioms;

/// One step of a filtered and mapped prefix.
pub proof fn lemma_filter_map_step<A, B>(s: Seq<A>, i: int, p: spec_fn(A) -> bool, f: spec_fn(A) -> B)
    requires
        0 <= i < s.len(),
    ensures
        s.take(i + 1).filter(p).map_values(f) == if p(s[i]) {
            s.take(i).filter(p).map_values(f).push(f(s[i]))
        } else {
            s.take(i).filter(p).map_values(f)
        },
{
    assert(s.take(i + 1) =~= s.take(i).push(s[i]));
    s.take(i).lemma_filter_push(s[i], p);
    if p(s[i]) {
        assert(s.take(i).filter(p).push(s[i]).map_values(f) =~= s.take(i).filter(p).map_values(f).push(f(s[i])));
    }
}

proof fn lemma_join_svs(parts: Seq<String>)
    ensures
        parts.map_values(|p: String| p@) == svs(parts),
{
    assert(parts.map_values(|p: String| p@) =~= svs(parts));
}

// ---------------------------------------------------------------------------
// Per-entity sets (items, skills).
// ---------------------------------------------------------------------------

pub open spec fn set_nonempty(e: (String, StrSet)) -> bool {
    e.1.items@.len() > 0
}

/// `id: a, b` for an entity's set.
pub open spec fn set_entry_line(e: (String, StrSet)) -> Seq<char> {
    e.0@ + ": "@ + join_spec(svs(e.1.items@), ", "@)
}

/// The entities with a non-empty set, each as `id: a, b`, joined by ` / `;
/// `なし` when every set is empty.
pub open spec fn per_entity_sets(es: Seq<(String, StrSet)>) -> Seq<char> {
    let kept = es.filter(|e: (String, StrSet)| set_nonempty(e));
    if kept.len() == 0 {
        "なし"@
    } else {
        join_spec(kept.map_values(|e: (String, StrSet)| set_entry_line(e)), " / "@)
    }
}

pub(crate) fn per_entity_sets_exec(m: &StrMap<StrSet>) -> (r: String)
    ensures
        r@ == per_entity_sets(m.entries@),
{
    let ghost es = m.entries@;
    let ghost p = |e: (String, StrSet)| set_nonempty(e);
    let ghost f = |e: (String, StrSet)| set_entry_line(e);
    let mut parts: Vec<String> = Vec::new();
    let mut i: usize = 0;
    while i < m.entries.len()
        invariant
            i <= es.len(),
            es == m.entries@,
            p == (|e: (String, StrSet)| set_nonempty(e)),
            f == (|e: (String, StrSet)| set_entry_line(e)),
            svs(parts@) == es.take(i as int).filter(p).map_values(f),
        decreases es.len() - i,
    {
        proof {
            lemma_filter_map_step(es, i as int, p, f);
        }
        let e = &m.entries[i];
        if e.1.items.len() > 0 {
            let mut line = e.0.clone();
            line.append(": ");
            let j = join(&e.1.items, ", ");
            proof {
                lemma_join_svs(e.1.items@);
            }
            line.append(j.as_str());
            let ghost before = svs(parts@);
            parts.push(line);
            assert(svs(parts@) =~= before.push(f(es[i as int])));
        }
        i = i + 1;
    }
    assert(es.take(i as int) =~= es);
    if parts.len() == 0 {
        return String::from_str("なし");
    }
    proof {
        lemma_join_svs(parts@);
    }
    join(&parts, " / ")
}

// ---------------------------------------------------------------------------
// Flags.
// ---------------------------------------------------------------------------

/// A flag shown to the narrator: set true and not a bookkeeping flag.
pub open spec fn shown_flag(sc: Scenario, e: (String, bool)) -> bool {
    e.1 && !sc.hidden_flags@.contains(e.0@)
}

/// A flag id with its display title, when it has a non-blank one.
pub open spec fn titled_flag(sc: Scenario, k: Seq<char>) -> Seq<char> {
    if sc.flag_titles@.contains_key(k) && trim_spec(sc.flag_titles@[k]).len() > 0 {
        k + "（"@ + trim_spec(sc.flag_titles@[k]) + "）"@
    } else {
        k
    }
}

/// The flags set, in entry order, joined by `, `; `なし` when none is.
pub open spec fn flags_line(st: GameState, sc: Scenario) -> Seq<char> {
    let kept = st.flags.entries@.filter(|e: (String, bool)| shown_flag(sc, e));
    if kept.len() == 0 {
        "なし"@
    } else {
        join_spec(kept.map_values(|e: (String, bool)| titled_flag(sc, e.0@)), ", "@)
    }
}

fn titled_flag_exec(sc: &Scenario, k: &String) -> (r: String)
    ensures
        r@ == titled_flag(*sc, k@),
{
    match sc.flag_titles.get(k.as_str()) {
        Some(t) => {
            let tt = trim(t.as_str());
            if tt.unicode_len() > 0 {
                let mut s = k.clone();
                s.append("（");
                s.append(tt.as_str());
                s.append("）");
                s
            } else {
                k.clone()
            }
        },
        None => k.clone(),
    }
}

fn flags_line_exec(st: &GameState, sc: &Scenario) -> (r: String)
    ensures
        r@ == flags_line(*st, *sc),
{
    let ghost es = st.flags.entries@;
    let ghost p = |e: (String, bool)| shown_flag(*sc, e);
    let ghost f = |e: (String, bool)| titled_flag(*sc, e.0@);
    let mut parts: Vec<String> = Vec::new();
    let mut i: usize = 0;
    while i < st.flags.entries.len()
        invariant
            i <= es.len(),
            es == st.flags.entries@,
            p == (|e: (String, bool)| shown_flag(*sc, e)),
            f == (|e: (String, bool)| titled_flag(*sc, e.0@)),
            svs(parts@) == es.take(i as int).filter(p).map_values(f),
        decreases es.len() - i,
    {
        proof {
            lemma_filter_map_step(es, i as int, p, f);
        }
        let e = &st.flags.entries[i];
        if e.1 && !sc.hidden_flags.contains(e.0.as_str()) {
            let line = titled_flag_exec(sc, &e.0);
            let ghost before = svs(parts@);
            parts.push(line);
            assert(svs(parts@) =~= before.push(f(es[i as int])));
        }
        i = i + 1;
    }
    assert(es.take(i as int) =~= es);
    if parts.len() == 0 {
        return String::from_str("なし");
    }
    proof {
        lemma_join_svs(parts@);
    }
    join(&parts, ", ")
}

// ---------------------------------------------------------------------------
// Stats.
// ---------------------------------------------------------------------------

pub open spec fn shown_stat(sc: Scenario, p: (String, i64)) -> bool {
    !sc.hidden_stats@.contains(p.0@)
}

pub open spec fn stat_kv(p: (String, i64)) -> Seq<char> {
    p.0@ + "="@ + int_spec(p.1 as int)
}

/// An entity's stats that are not bookkeeping, as `k=v` joined by `, `.
pub open spec fn shown_stats(sc: Scenario, stats: StrMap<i64>) -> Seq<Seq<char>> {
    stats.entries@.filter(|p: (String, i64)| shown_stat(sc, p)).map_values(|p: (String, i64)| stat_kv(p))
}

pub open spec fn has_shown_stats(sc: Scenario, e: (String, StrMap<i64>)) -> bool {
    shown_stats(sc, e.1).len() > 0
}

pub open spec fn stats_entry_line(sc: Scenario, e: (String, StrMap<i64>)) -> Seq<char> {
    e.0@ + ": "@ + join_spec(shown_stats(sc, e.1), ", "@)
}

/// Each entity with a shown stat as `id: k=v, ...`, joined by ` / `; `なし`
/// when there is no entity at all.
pub open spec fn stats_line(st: GameState, sc: Scenario) -> Seq<char> {
    if st.entities.entries@.len() == 0 {
        "なし"@
    } else {
        join_spec(
            st.entities.entries@.filter(|e: (String, StrMap<i64>)| has_shown_stats(sc, e)).map_values(
                |e: (String, StrMap<i64>)| stats_entry_line(sc, e),
            ),
            " / "@,
        )
    }
}

fn shown_stats_exec(sc: &Scenario, stats: &StrMap<i64>) -> (r: Vec<String>)
    ensures
        svs(r@) == shown_stats(*sc, *stats),
{
    let ghost es = stats.entries@;
    let ghost p = |q: (String, i64)| shown_stat(*sc, q);
    let ghost f = |q: (String, i64)| stat_kv(q);
    let mut parts: Vec<String> = Vec::new();
    let mut i: usize = 0;
    while i < stats.entries.len()
        invariant
            i <= es.len(),
            es == stats.entries@,
            p == (|q: (String, i64)| shown_stat(*sc, q)),
            f == (|q: (String, i64)| stat_kv(q)),
            svs(parts@) == es.take(i as int).filter(p).map_values(f),
        decreases es.len() - i,
    {
        proof {
            lemma_filter_map_step(es, i as int, p, f);
        }
        let q = &stats.entries[i];
        if !sc.hidden_stats.contains(q.0.as_str()) {
            let mut line = q.0.clone();
            line.append("=");
            let v = int_str(q.1);
            line.append(v.as_str());
            let ghost before = svs(parts@);
            parts.push(line);
            assert(svs(parts@) =~= before.push(f(es[i as int])));
        }
        i = i + 1;
    }
    assert(es.take(i as int) =~= es);
    parts
}

fn stats_line_exec(st: &GameState, sc: &Scenario) -> (r: String)
    ensures
        r@ == stats_line(*st, *sc),
{
    if st.entities.entries.len() == 0 {
        return String::from_str("なし");
    }
    let ghost es = st.entities.entries@;
    let ghost p = |e: (String, StrMap<i64>)| has_shown_stats(*sc, e);
    let ghost f = |e: (String, StrMap<i64>)| stats_entry_line(*sc, e);
    let mut parts: Vec<String> = Vec::new();
    let mut i: usize = 0;
    while i < st.entities.entries.len()
        invariant
            i <= es.len(),
            es == st.entities.entries@,
            p == (|e: (String, StrMap<i64>)| has_shown_stats(*sc, e)),
            f == (|e: (String, StrMap<i64>)| stats_entry_line(*sc, e)),
            svs(parts@) == es.take(i as int).filter(p).map_values(f),
        decreases es.len() - i,
    {
        proof {
            lemma_filter_map_step(es, i as int, p, f);
        }
        let e = &st.entities.entries[i];
        let kv = shown_stats_exec(sc, &e.1);
        if kv.len() > 0 {
            let mut line = e.0.clone();
            line.append(": ");
            let j = join(&kv, ", ");
            proof {
                lemma_join_svs(kv@);
            }
            line.append(j.as_str());
            let ghost before = svs(parts@);
            parts.push(line);
            assert(svs(parts@) =~= before.push(f(es[i as int])));
        }
        i = i + 1;
    }
    assert(es.take(i as int) =~= es);
    proof {
        lemma_join_svs(parts@);
    }
    join(&parts, " / ")
}

// ---------------------------------------------------------------------------
// Attributes.
// ---------------------------------------------------------------------------

/// `k=v`, marked `〔秘匿〕` for a secret attribute.
pub open spec fn attr_kv(sc: Scenario, p: (String, String)) -> Seq<char> {
    p.0@ + "="@ + p.1@ + if sc.secret_attributes@.contains(p.0@) {
        "〔秘匿〕"@
    } else {
        Seq::empty()
    }
}

pub open spec fn attrs_nonempty(e: (String, StrMap<String>)) -> bool {
    e.1.entries@.len() > 0
}

pub open spec fn attrs_entry_line(sc: Scenario, e: (String, StrMap<String>)) -> Seq<char> {
    e.0@ + ": "@ + join_spec(e.1.entries@.map_values(|p: (String, String)| attr_kv(sc, p)), ", "@)
}

/// Each entity with attributes as `id: k=v, ...`, joined by ` / `; `なし`
/// when no entity has one.
pub open spec fn attributes_line(st: GameState, sc: Scenario) -> Seq<char> {
    let kept = st.attributes.entries@.filter(|e: (String, StrMap<String>)| attrs_nonempty(e));
    if kept.len() == 0 {
        "なし"@
    } else {
        join_spec(kept.map_values(|e: (String, StrMap<String>)| attrs_entry_line(sc, e)), " / "@)
    }
}

fn attrs_kv_exec(sc: &Scenario, attrs: &StrMap<String>) -> (r: String)
    ensures
        r@ == join_spec(attrs.entries@.map_values(|p: (String, String)| attr_kv(*sc, p)), ", "@),
{
    let ghost es = attrs.entries@;
    let ghost f = |p: (String, String)| attr_kv(*sc, p);
    let mut parts: Vec<String> = Vec::new();
    let mut i: usize = 0;
    while i < attrs.entries.len()
        invariant
            i <= es.len(),
            es == attrs.entries@,
            f == (|p: (String, String)| attr_kv(*sc, p)),
            svs(parts@) =~= es.take(i as int).map_values(f),
        decreases es.len() - i,
    {
        let q = &attrs.entries[i];
        let mut line = q.0.clone();
        line.append("=");
        line.append(q.1.as_str());
        if sc.secret_attributes.contains(q.0.as_str()) {
            line.append("〔秘匿〕");
        }
        let ghost before = svs(parts@);
        parts.push(line);
        assert(es.take(i + 1).map_values(f) =~= es.take(i as int).map_values(f).push(f(es[i as int])));
        assert(svs(parts@) =~= before.push(f(es[i as int])));
        i = i + 1;
    }
    assert(es.take(i as int) =~= es);
    proof {
        lemma_join_svs(parts@);
    }
    join(&parts, ", ")
}

fn attributes_line_exec(st: &GameState, sc: &Scenario) -> (r: String)
    ensures
        r@ == attributes_line(*st, *sc),
{
    let ghost es = st.attributes.entries@;
    let ghost p = |e: (String, StrMap<String>)| attrs_nonempty(e);
    let ghost f = |e: (String, StrMap<String>)| attrs_entry_line(*sc, e);
    let mut parts: Vec<String> = Vec::new();
    let mut i: usize = 0;
    while i < st.attributes.entries.len()
        invariant
            i <= es.len(),
            es == st.attributes.entries@,
            p == (|e: (String, StrMap<String>)| attrs_nonempty(e)),
            f == (|e: (String, StrMap<String>)| attrs_entry_line(*sc, e)),
            svs(parts@) == es.take(i as int).filter(p).map_values(f),
        decreases es.len() - i,
    {
        proof {
            lemma_filter_map_step(es, i as int, p, f);
        }
        let e = &st.attributes.entries[i];
        if e.1.entries.len() > 0 {
            let mut line = e.0.clone();
            line.append(": ");
            let kv = attrs_kv_exec(sc, &e.1);
            line.append(kv.as_str());
            let ghost before = svs(parts@);
            parts.push(line);
            assert(svs(parts@) =~= before.push(f(es[i as int])));
        }
        i = i + 1;
    }
    assert(es.take(i as int) =~= es);
    if parts.len() == 0 {
        return String::from_str("なし");
    }
    proof {
        lemma_join_svs(parts@);
    }
    join(&parts, " / ")
}


// ---------------------------------------------------------------------------
// Presence.
// ---------------------------------------------------------------------------

/// A character's display label: `name (id)` when it has a trimmed name other
/// than its id, else the id.
pub open spec fn name_label(sc: Scenario, id: Seq<char>) -> Seq<char> {
    if sc.characters@.contains_key(id) && trim_spec(sc.characters@[id].name@).len() > 0 && trim_spec(
        sc.characters@[id].name@,
    ) != id {
        trim_spec(sc.characters@[id].name@) + " ("@ + id + ")"@
    } else {
        id
    }
}

fn name_label_exec(sc: &Scenario, id: &String) -> (r: String)
    ensures
        r@ == name_label(*sc, id@),
{
    match sc.characters.get(id.as_str()) {
        Some(c) => {
            let n = trim(c.name.as_str());
            if n.unicode_len() > 0 && !str_eq(n.as_str(), id.as_str()) {
                let mut s = n;
                s.append(" (");
                s.append(id.as_str());
                s.append(")");
                s
            } else {
                id.clone()
            }
        },
        None => id.clone(),
    }
}

pub open spec fn is_present(sc: Scenario, st: GameState, e: (String, CharacterDef)) -> bool {
    present_spec(sc, st@).contains(e.0@)
}

/// Who is present, in the order of the scenario's characters, labelled;
/// a note that nobody is when no one is.
pub open spec fn present_line(st: GameState, sc: Scenario) -> Seq<char> {
    let kept = sc.characters.entries@.filter(|e: (String, CharacterDef)| is_present(sc, st, e));
    if kept.len() == 0 {
        "誰もいない (主人公のみ)"@
    } else {
        join_spec(kept.map_values(|e: (String, CharacterDef)| name_label(sc, e.0@)), ", "@)
    }
}

fn present_line_exec(st: &GameState, sc: &Scenario) -> (r: String)
    ensures
        r@ == present_line(*st, *sc),
{
    let present = sc.present_at(st);
    let ghost es = sc.characters.entries@;
    let ghost p = |e: (String, CharacterDef)| is_present(*sc, *st, e);
    let ghost f = |e: (String, CharacterDef)| name_label(*sc, e.0@);
    let mut parts: Vec<String> = Vec::new();
    let mut i: usize = 0;
    while i < sc.characters.entries.len()
        invariant
            i <= es.len(),
            es == sc.characters.entries@,
            present@ == present_spec(*sc, st@),
            p == (|e: (String, CharacterDef)| is_present(*sc, *st, e)),
            f == (|e: (String, CharacterDef)| name_label(*sc, e.0@)),
            svs(parts@) == es.take(i as int).filter(p).map_values(f),
        decreases es.len() - i,
    {
        proof {
            lemma_filter_map_step(es, i as int, p, f);
        }
        let e = &sc.characters.entries[i];
        if present.contains(e.0.as_str()) {
            let line = name_label_exec(sc, &e.0);
            let ghost before = svs(parts@);
            parts.push(line);
            assert(svs(parts@) =~= before.push(f(es[i as int])));
        }
        i = i + 1;
    }
    assert(es.take(i as int) =~= es);
    if parts.len() == 0 {
        return String::from_str("誰もいない (主人公のみ)");
    }
    proof {
        lemma_join_svs(parts@);
    }
    join(&parts, ", ")
}

// ---------------------------------------------------------------------------
// Open votes.
// ---------------------------------------------------------------------------

/// The order laid on each NPC that may vote now.
pub const NPC_VOTE_DUTY: &'static str = " — **この者たちの票をこのターンの ops に cast_vote で必ず並べよ** (各自の視点から独立に決める。票を出さなければこの局面では何も起きない)。";

/// Said when the player's vote is already in the box.
pub const PLAYER_VOTED: &'static str = "プレイヤー (player) の票は受領済み。";

/// Said when the player may vote: never cast it for them.
pub const PLAYER_VOTE_DUTY: &'static str = "プレイヤー (player) にも投票権がある — **票を代行するな**。行動文で対象を指名していれば (襲う/占う/投票する等の言い回しを問わず) **その票を必ず voter=player の cast_vote として ops に含めよ — narration で襲撃や占いを描写するだけでは正本には何も起きていない**。まだ指名していなければ narration の結びでプレイヤーに対象の指名を促せ。";

/// The heading of the open-vote line.
pub const OPEN_VOTES_HEAD: &'static str = "\n- ⚠ **いま投票が開いている**。";

/// An entity is alive unless its `生存` stat is set to something other than 1.
pub open spec fn alive(st: GameState, e: Seq<char>) -> bool {
    !(st.entities@.contains_key(e) && st.entities@[e].contains_key("生存"@) && st.entities@[e]["生存"@] != 1)
}

/// A rule lets an entity vote: it asks no attribute, or the entity has it.
pub open spec fn rule_admits(st: GameState, r: VoteRule, id: Seq<char>) -> bool {
    match r.voter_attribute {
        None => true,
        Some(va) => attribute_spec(st@, id, va.key@) == va.value@,
    }
}

pub open spec fn voting_npc(st: GameState, r: VoteRule, e: (String, CharacterDef)) -> bool {
    alive(st, e.0@) && rule_admits(st, r, e.0@)
}

/// The characters that may vote under a rule now, labelled, in order.
pub open spec fn vote_npcs(sc: Scenario, st: GameState, r: VoteRule) -> Seq<Seq<char>> {
    sc.characters.entries@.filter(|e: (String, CharacterDef)| voting_npc(st, r, e)).map_values(
        |e: (String, CharacterDef)| name_label(sc, e.0@),
    )
}

pub open spec fn player_votes(st: GameState, r: VoteRule) -> bool {
    alive(st, PLAYER@) && rule_admits(st, r, PLAYER@)
}

/// A rule is open when its condition holds and someone may vote under it.
pub open spec fn rule_open(sc: Scenario, st: GameState, r: VoteRule) -> bool {
    gate_holds(r.when@, st@) && (vote_npcs(sc, st, r).len() > 0 || player_votes(st, r))
}

pub open spec fn vote_who(r: VoteRule) -> Seq<char> {
    match r.voter_attribute {
        Some(va) => va.key@ + "="@ + va.value@ + " の生存者"@,
        None => "生存者なら誰でも"@,
    }
}

/// What an open rule asks: the NPCs whose votes are owed, and the player's
/// standing (already voted, or may vote and must not be voted for).
pub open spec fn vote_note(sc: Scenario, st: GameState, r: VoteRule) -> Seq<char> {
    let npcs = vote_npcs(sc, st, r);
    "("@ + vote_who(r) + ") "@ + (if npcs.len() > 0 {
        join_spec(npcs, ", "@) + NPC_VOTE_DUTY@
    } else {
        Seq::empty()
    }) + (if player_votes(st, r) {
        if st.votes@.contains_key(PLAYER@) {
            PLAYER_VOTED@
        } else {
            PLAYER_VOTE_DUTY@
        }
    } else {
        Seq::empty()
    })
}

/// The open votes as a line of duties; nothing when no rule is open.
pub open spec fn open_votes_line(st: GameState, sc: Scenario) -> Seq<char> {
    let notes = sc.vote_rules@.filter(|r: VoteRule| rule_open(sc, st, r)).map_values(
        |r: VoteRule| vote_note(sc, st, r),
    );
    if notes.len() == 0 {
        Seq::empty()
    } else {
        OPEN_VOTES_HEAD@ + join_spec(notes, " ／ "@)
    }
}

fn alive_exec(st: &GameState, e: &str) -> (b: bool)
    ensures
        b == alive(*st, e@),
{
    match st.entities.get(e) {
        Some(stats) => match stats.get("生存") {
            Some(v) => *v == 1,
            None => true,
        },
        None => true,
    }
}

fn rule_admits_exec(st: &GameState, r: &VoteRule, id: &str) -> (b: bool)
    ensures
        b == rule_admits(*st, *r, id@),
{
    match &r.voter_attribute {
        None => true,
        Some(va) => str_eq(st.attribute_of(id, va.key.as_str()), va.value.as_str()),
    }
}

fn vote_npcs_exec(sc: &Scenario, st: &GameState, r: &VoteRule) -> (out: Vec<String>)
    ensures
        svs(out@) == vote_npcs(*sc, *st, *r),
{
    let ghost es = sc.characters.entries@;
    let ghost p = |e: (String, CharacterDef)| voting_npc(*st, *r, e);
    let ghost f = |e: (String, CharacterDef)| name_label(*sc, e.0@);
    let mut parts: Vec<String> = Vec::new();
    let mut i: usize = 0;
    while i < sc.characters.entries.len()
        invariant
            i <= es.len(),
            es == sc.characters.entries@,
            p == (|e: (String, CharacterDef)| voting_npc(*st, *r, e)),
            f == (|e: (String, CharacterDef)| name_label(*sc, e.0@)),
            svs(parts@) == es.take(i as int).filter(p).map_values(f),
        decreases es.len() - i,
    {
        proof {
            lemma_filter_map_step(es, i as int, p, f);
        }
        let e = &sc.characters.entries[i];
        if alive_exec(st, e.0.as_str()) && rule_admits_exec(st, r, e.0.as_str()) {
            let line = name_label_exec(sc, &e.0);
            let ghost before = svs(parts@);
            parts.push(line);
            assert(svs(parts@) =~= before.push(f(es[i as int])));
        }
        i = i + 1;
    }
    assert(es.take(i as int) =~= es);
    parts
}

fn vote_note_exec(sc: &Scenario, st: &GameState, r: &VoteRule, npcs: &Vec<String>, player_ok: bool) -> (s: String)
    requires
        svs(npcs@) == vote_npcs(*sc, *st, *r),
        player_ok == player_votes(*st, *r),
    ensures
        s@ == vote_note(*sc, *st, *r),
{
    let mut s = String::from_str("(");
    match &r.voter_attribute {
        Some(va) => {
            s.append(va.key.as_str());
            s.append("=");
            s.append(va.value.as_str());
            s.append(" の生存者");
        },
        None => {
            s.append("生存者なら誰でも");
        },
    }
    s.append(") ");
    if npcs.len() > 0 {
        let j = join(npcs, ", ");
        proof {
            lemma_join_svs(npcs@);
        }
        s.append(j.as_str());
        s.append(NPC_VOTE_DUTY);
    }
    if player_ok {
        if st.votes.contains_key(PLAYER) {
            s.append(PLAYER_VOTED);
        } else {
            s.append(PLAYER_VOTE_DUTY);
        }
    }
    s
}

fn open_votes_exec(st: &GameState, sc: &Scenario) -> (r: String)
    ensures
        r@ == open_votes_line(*st, *sc),
{
    let ghost es = sc.vote_rules@;
    let ghost p = |r: VoteRule| rule_open(*sc, *st, r);
    let ghost f = |r: VoteRule| vote_note(*sc, *st, r);
    let mut notes: Vec<String> = Vec::new();
    let mut i: usize = 0;
    while i < sc.vote_rules.len()
        invariant
            i <= es.len(),
            es == sc.vote_rules@,
            p == (|r: VoteRule| rule_open(*sc, *st, r)),
            f == (|r: VoteRule| vote_note(*sc, *st, r)),
            svs(notes@) == es.take(i as int).filter(p).map_values(f),
        decreases es.len() - i,
    {
        proof {
            lemma_filter_map_step(es, i as int, p, f);
        }
        let rule = &sc.vote_rules[i];
        if rule.when.eval(st) {
            let npcs = vote_npcs_exec(sc, st, rule);
            let player_ok = alive_exec(st, PLAYER) && rule_admits_exec(st, rule, PLAYER);
            if npcs.len() > 0 || player_ok {
                let note = vote_note_exec(sc, st, rule, &npcs, player_ok);
                let ghost before = svs(notes@);
                notes.push(note);
                assert(svs(notes@) =~= before.push(f(es[i as int])));
            }
        }
        i = i + 1;
    }
    assert(es.take(i as int) =~= es);
    if notes.len() == 0 {
        return String::new();
    }
    let mut s = String::from_str(OPEN_VOTES_HEAD);
    let j = join(&notes, " ／ ");
    proof {
        lemma_join_svs(notes@);
    }
    s.append(j.as_str());
    s
}

// ---------------------------------------------------------------------------
// The state.
// ---------------------------------------------------------------------------

/// The current state, the only snapshot of the truth the narrator sees: turn,
/// location, who is present, items, flags, stats, skills, attributes and the
/// votes open now.
pub open spec fn state_brief_spec(st: GameState, sc: Scenario) -> Seq<char> {
    "# 現在の状態 (turn "@ + dec_spec(st.turn as nat) + ")\n- 現在地: "@ + st.location@ + "\n- この場にいる: "@
        + present_line(st, sc) + "\n- 所持品: "@ + per_entity_sets(st.inventory.entries@) + "\n- 立っている状態: "@
        + flags_line(st, sc) + "\n- 能力値: "@ + stats_line(st, sc) + "\n- 使える能力: "@ + per_entity_sets(
        st.skills.entries@,
    ) + "\n- 属性: "@ + attributes_line(st, sc) + open_votes_line(st, sc)
}

pub fn state_brief(state: &GameState, scenario: &Scenario) -> (r: String)
    ensures
        r@ == state_brief_spec(*state, *scenario),
{
    let present = present_line_exec(state, scenario);
    let inv = per_entity_sets_exec(&state.inventory);
    let flags = flags_line_exec(state, scenario);
    let stats = stats_line_exec(state, scenario);
    let skills = per_entity_sets_exec(&state.skills);
    let attrs = attributes_line_exec(state, scenario);
    let votes = open_votes_exec(state, scenario);
    let mut s = String::from_str("# 現在の状態 (turn ");
    let t = dec(state.turn as u64);
    s.append(t.as_str());
    s.append(")\n- 現在地: ");
    s.append(state.location.as_str());
    s.append("\n- この場にいる: ");
    s.append(present.as_str());
    s.append("\n- 所持品: ");
    s.append(inv.as_str());
    s.append("\n- 立っている状態: ");
    s.append(flags.as_str());
    s.append("\n- 能力値: ");
    s.append(stats.as_str());
    s.append("\n- 使える能力: ");
    s.append(skills.as_str());
    s.append("\n- 属性: ");
    s.append(attrs.as_str());
    s.append(votes.as_str());
    s
}

// ---------------------------------------------------------------------------
// The board.
// ---------------------------------------------------------------------------

proof fn lemma_concat_map_step<A>(s: Seq<A>, i: int, f: spec_fn(A) -> Seq<char>)
    requires
        0 <= i < s.len(),
    ensures
        concat_spec(s.take(i + 1).map_values(f)) == concat_spec(s.take(i).map_values(f)) + f(s[i]),
{
    assert(s.take(i + 1).map_values(f) =~= s.take(i).map_values(f).push(f(s[i])));
    assert(s.take(i).map_values(f).push(f(s[i])).drop_last() =~= s.take(i).map_values(f));
}

proof fn lemma_concat_filter_step<A>(s: Seq<A>, i: int, p: spec_fn(A) -> bool, f: spec_fn(A) -> Seq<char>)
    requires
        0 <= i < s.len(),
    ensures
        concat_spec(s.take(i + 1).filter(p).map_values(f)) == if p(s[i]) {
            concat_spec(s.take(i).filter(p).map_values(f)) + f(s[i])
        } else {
            concat_spec(s.take(i).filter(p).map_values(f))
        },
{
    lemma_filter_map_step(s, i, p, f);
    if p(s[i]) {
        assert(s.take(i).filter(p).map_values(f).push(f(s[i])).drop_last() =~= s.take(i).filter(p).map_values(f));
    }
}

pub open spec fn world_block(sc: Scenario) -> Seq<char> {
    if trim_spec(sc.world@).len() > 0 {
        "\n## 世界観\n"@ + trim_spec(sc.world@) + "\n"@
    } else {
        Seq::empty()
    }
}

pub open spec fn protagonist_block(p: Protagonist) -> Seq<char> {
    let n = trim_spec(p.name@);
    let pr = trim_spec(p.profile@);
    if n.len() > 0 || pr.len() > 0 {
        "\n## 主人公（プレイヤー）\n"@ + (if n.len() > 0 {
            "- 呼称: "@ + n + "\n"@
        } else {
            Seq::empty()
        }) + (if pr.len() > 0 {
            "- 設定: "@ + pr + "\n"@
        } else {
            Seq::empty()
        })
    } else {
        Seq::empty()
    }
}

pub open spec fn character_block(e: (String, CharacterDef)) -> Seq<char> {
    "### "@ + (if e.1.name@.len() == 0 {
        e.0@
    } else {
        e.1.name@
    }) + " ("@ + e.0@ + ")\n"@ + if trim_spec(e.1.profile@).len() > 0 {
        trim_spec(e.1.profile@) + "\n"@
    } else {
        Seq::empty()
    }
}

pub open spec fn characters_block(sc: Scenario) -> Seq<char> {
    if sc.characters.entries@.len() > 0 {
        "\n## 登場人物\n"@ + concat_spec(sc.characters.entries@.map_values(|e: (String, CharacterDef)| character_block(e)))
    } else {
        Seq::empty()
    }
}

/// An item line: fixed items are usable in place, others show the condition to take
/// them (and whether they can be taken again).
pub open spec fn item_line(e: (String, LocationItem)) -> Seq<char> {
    match e.1.take_spec() {
        TakeMode::Fixed => "  - "@ + e.0@ + " (備え付け・取得不可。取らずにその場で使える)\n"@,
        TakeMode::Infinite => "  - "@ + e.0@ + " (取得条件: "@ + gate_brief_spec(e.1.when_spec()@) + "。何度でも取れる)\n"@,
        TakeMode::Once => "  - "@ + e.0@ + " (取得条件: "@ + gate_brief_spec(e.1.when_spec()@) + ")\n"@,
    }
}

pub open spec fn exit_line(x: Exit) -> Seq<char> {
    "  - "@ + x.to@ + " (移動条件: "@ + gate_brief_spec(x.gate@) + ")\n"@
}

pub open spec fn location_block(e: (String, Location)) -> Seq<char> {
    "### "@ + e.0@ + "\n"@ + e.1.description@ + "\n"@ + (if e.1.items.entries@.len() > 0 {
        "- アイテム:\n"@ + concat_spec(e.1.items.entries@.map_values(|i: (String, LocationItem)| item_line(i)))
    } else {
        Seq::empty()
    }) + (if e.1.exits@.len() > 0 {
        "- 出口:\n"@ + concat_spec(e.1.exits@.map_values(|x: Exit| exit_line(x)))
    } else {
        Seq::empty()
    })
}

pub open spec fn challenge_line(e: (String, ChallengeDef)) -> Seq<char> {
    "- "@ + (if trim_spec(e.1.description@).len() == 0 {
        e.0@
    } else {
        trim_spec(e.1.description@)
    }) + " (id: "@ + e.0@ + "): "@ + (match e.1.stat {
        Some(st) => st@ + " 判定"@,
        None => "運 (能力に依らない)"@,
    }) + (match e.1.requires {
        Some(g) => "【前提: "@ + gate_brief_spec(g@) + "】"@,
        None => Seq::empty(),
    }) + "\n"@
}

/// The heading of the challenge list.
pub const CHALLENGES_HEAD: &'static str = "\n## 挑戦 (不確実な行動の判定。attempt_challenge で id を選んで挑む)\n";

pub open spec fn challenges_block(sc: Scenario) -> Seq<char> {
    if sc.challenges.entries@.len() > 0 {
        CHALLENGES_HEAD@ + concat_spec(sc.challenges.entries@.map_values(|e: (String, ChallengeDef)| challenge_line(e)))
    } else {
        Seq::empty()
    }
}

/// A flag the narrator may set and should see: not set by authored effects
/// alone, and not a bookkeeping flag.
pub open spec fn listed_flag(sc: Scenario, f: String) -> bool {
    !authored_only_spec(sc).contains(f@) && !sc.hidden_flags@.contains(f@)
}

pub open spec fn flag_vocab_line(sc: Scenario, f: String) -> Seq<char> {
    "- "@ + f@ + (if sc.flag_titles@.contains_key(f@) && trim_spec(sc.flag_titles@[f@]).len() > 0 {
        "（"@ + trim_spec(sc.flag_titles@[f@]) + "）"@
    } else {
        Seq::empty()
    }) + (if sc.flag_hints@.contains_key(f@) && trim_spec(sc.flag_hints@[f@]).len() > 0 {
        ": "@ + trim_spec(sc.flag_hints@[f@])
    } else {
        Seq::empty()
    }) + "\n"@
}

/// The heading of the flag vocabulary.
pub const FLAGS_HEAD: &'static str = "\n## 状態フラグ (set_flag で立てられるのはこれだけ。条件が満たされた瞬間に立てる)\n";

/// The closed vocabulary of flags the narrator may set, in the order of the
/// allowed flags, with titles and hints.
pub open spec fn flags_block(sc: Scenario) -> Seq<char> {
    let kept = sc.allowed_flags.items@.filter(|f: String| listed_flag(sc, f));
    if kept.len() > 0 {
        FLAGS_HEAD@ + concat_spec(kept.map_values(|f: String| flag_vocab_line(sc, f)))
    } else {
        Seq::empty()
    }
}

pub open spec fn vote_rule_line(r: VoteRule) -> Seq<char> {
    "- "@ + gate_brief_spec(r.when@) + " のとき: "@ + (match r.voter_attribute {
        None => "生存者なら誰でも投票できる"@,
        Some(va) => va.key@ + "="@ + va.value@ + " の者だけが投票できる"@,
    }) + "\n"@
}

/// The heading of the voting rules.
pub const VOTES_HEAD: &'static str = "\n## 投票 (票は cast_vote op で入れる。開票は筋書きの出来事が行う)\n";

pub open spec fn votes_block(sc: Scenario) -> Seq<char> {
    if sc.vote_rules@.len() > 0 {
        VOTES_HEAD@ + concat_spec(sc.vote_rules@.map_values(|r: VoteRule| vote_rule_line(r)))
    } else {
        Seq::empty()
    }
}

pub open spec fn goal_line(g: GoalDef) -> Seq<char> {
    "- "@ + g.id@ + ": "@ + gate_brief_spec(g.when@) + "\n"@
}

/// The named goals, or else the single goal, or nothing.
pub open spec fn goals_block(sc: Scenario) -> Seq<char> {
    if sc.goals@.len() > 0 {
        "\n## クリア条件 (いずれかの結末へ)\n"@ + concat_spec(sc.goals@.map_values(|g: GoalDef| goal_line(g)))
    } else {
        match sc.goal {
            Some(g) => "\n## クリア条件\n"@ + gate_brief_spec(g@) + "\n"@,
            None => Seq::empty(),
        }
    }
}

/// The board: title, world, protagonist, characters, places (items and
/// exits), challenges, the flag vocabulary, voting rules and goals.
pub open spec fn scenario_brief_spec(sc: Scenario) -> Seq<char> {
    "# シナリオ: "@ + sc.title@ + "\n"@ + world_block(sc) + protagonist_block(sc.protagonist) + characters_block(sc)
        + "\n## 場所\n"@ + concat_spec(sc.locations.entries@.map_values(|e: (String, Location)| location_block(e)))
        + challenges_block(sc) + flags_block(sc) + votes_block(sc) + goals_block(sc)
}

fn world_exec(sc: &Scenario) -> (r: String)
    ensures
        r@ == world_block(*sc),
{
    let w = trim(sc.world.as_str());
    if w.unicode_len() > 0 {
        let mut s = String::from_str("\n## 世界観\n");
        s.append(w.as_str());
        s.append("\n");
        s
    } else {
        String::new()
    }
}

fn protagonist_exec(p: &Protagonist) -> (r: String)
    ensures
        r@ == protagonist_block(*p),
{
    let n = trim(p.name.as_str());
    let pr = trim(p.profile.as_str());
    if n.unicode_len() > 0 || pr.unicode_len() > 0 {
        let mut s = String::from_str("\n## 主人公（プレイヤー）\n");
        if n.unicode_len() > 0 {
            s.append("- 呼称: ");
            s.append(n.as_str());
            s.append("\n");
        }
        if pr.unicode_len() > 0 {
            s.append("- 設定: ");
            s.append(pr.as_str());
            s.append("\n");
        }
        s
    } else {
        String::new()
    }
}

fn characters_exec(sc: &Scenario) -> (r: String)
    ensures
        r@ == characters_block(*sc),
{
    let n = sc.characters.entries.len();
    if n == 0 {
        return String::new();
    }
    let ghost es = sc.characters.entries@;
    let ghost f = |e: (String, CharacterDef)| character_block(e);
    let mut s = String::from_str("\n## 登場人物\n");
    let ghost pre = s@;
    let mut i: usize = 0;
    while i < n
        invariant
            i <= n == es.len(),
            es == sc.characters.entries@,
            f == (|e: (String, CharacterDef)| character_block(e)),
            s@ == pre + concat_spec(es.take(i as int).map_values(f)),
        decreases n - i,
    {
        proof {
            lemma_concat_map_step(es, i as int, f);
        }
        let e = &sc.characters.entries[i];
        s.append("### ");
        if e.1.name.unicode_len() == 0 {
            s.append(e.0.as_str());
        } else {
            s.append(e.1.name.as_str());
        }
        s.append(" (");
        s.append(e.0.as_str());
        s.append(")\n");
        let pf = trim(e.1.profile.as_str());
        if pf.unicode_len() > 0 {
            s.append(pf.as_str());
            s.append("\n");
        }
        assert(s@ =~= pre + concat_spec(es.take(i + 1).map_values(f)));
        i = i + 1;
    }
    assert(es.take(i as int) =~= es);
    s
}

fn item_line_exec(e: &(String, LocationItem)) -> (r: String)
    ensures
        r@ == item_line(*e),
{
    let mut s = String::from_str("  - ");
    s.append(e.0.as_str());
    match e.1.take() {
        TakeMode::Fixed => {
            s.append(" (備え付け・取得不可。取らずにその場で使える)\n");
        },
        TakeMode::Infinite => {
            s.append(" (取得条件: ");
            let g = gate_brief(e.1.when());
            s.append(g.as_str());
            s.append("。何度でも取れる)\n");
        },
        TakeMode::Once => {
            s.append(" (取得条件: ");
            let g = gate_brief(e.1.when());
            s.append(g.as_str());
            s.append(")\n");
        },
    }
    s
}

fn location_exec(e: &(String, Location)) -> (r: String)
    ensures
        r@ == location_block(*e),
{
    let mut s = String::from_str("### ");
    s.append(e.0.as_str());
    s.append("\n");
    s.append(e.1.description.as_str());
    s.append("\n");
    let ghost head = s@;
    let ni = e.1.items.entries.len();
    if ni > 0 {
        let ghost es = e.1.items.entries@;
        let ghost f = |i: (String, LocationItem)| item_line(i);
        s.append("- アイテム:\n");
        let ghost pre = s@;
        let mut i: usize = 0;
        while i < ni
            invariant
                i <= ni == es.len(),
                es == e.1.items.entries@,
                f == (|i: (String, LocationItem)| item_line(i)),
                s@ == pre + concat_spec(es.take(i as int).map_values(f)),
            decreases ni - i,
        {
            proof {
                lemma_concat_map_step(es, i as int, f);
            }
            let line = item_line_exec(&e.1.items.entries[i]);
            s.append(line.as_str());
            assert(s@ =~= pre + concat_spec(es.take(i + 1).map_values(f)));
            i = i + 1;
        }
        assert(es.take(i as int) =~= es);
    }
    let ghost mid = s@;
    let nx = e.1.exits.len();
    if nx > 0 {
        let ghost es = e.1.exits@;
        let ghost f = |x: Exit| exit_line(x);
        s.append("- 出口:\n");
        let ghost pre = s@;
        let mut i: usize = 0;
        while i < nx
            invariant
                i <= nx == es.len(),
                es == e.1.exits@,
                f == (|x: Exit| exit_line(x)),
                s@ == pre + concat_spec(es.take(i as int).map_values(f)),
            decreases nx - i,
        {
            proof {
                lemma_concat_map_step(es, i as int, f);
            }
            let x = &e.1.exits[i];
            s.append("  - ");
            s.append(x.to.as_str());
            s.append(" (移動条件: ");
            let g = gate_brief(&x.gate);
            s.append(g.as_str());
            s.append(")\n");
            assert(s@ =~= pre + concat_spec(es.take(i + 1).map_values(f)));
            i = i + 1;
        }
        assert(es.take(i as int) =~= es);
    }
    assert(s@ =~= location_block(*e));
    s
}

fn locations_exec(sc: &Scenario) -> (r: String)
    ensures
        r@ == concat_spec(sc.locations.entries@.map_values(|e: (String, Location)| location_block(e))),
{
    let n = sc.locations.entries.len();
    let ghost es = sc.locations.entries@;
    let ghost f = |e: (String, Location)| location_block(e);
    let mut s = String::new();
    let mut i: usize = 0;
    while i < n
        invariant
            i <= n == es.len(),
            es == sc.locations.entries@,
            f == (|e: (String, Location)| location_block(e)),
            s@ == concat_spec(es.take(i as int).map_values(f)),
        decreases n - i,
    {
        proof {
            lemma_concat_map_step(es, i as int, f);
        }
        let b = location_exec(&sc.locations.entries[i]);
        s.append(b.as_str());
        i = i + 1;
    }
    assert(es.take(i as int) =~= es);
    s
}

fn challenge_line_exec(e: &(String, ChallengeDef)) -> (r: String)
    ensures
        r@ == challenge_line(*e),
{
    let mut s = String::from_str("- ");
    let d = trim(e.1.description.as_str());
    if d.unicode_len() == 0 {
        s.append(e.0.as_str());
    } else {
        s.append(d.as_str());
    }
    s.append(" (id: ");
    s.append(e.0.as_str());
    s.append("): ");
    match &e.1.stat {
        Some(st) => {
            s.append(st.as_str());
            s.append(" 判定");
        },
        None => {
            s.append("運 (能力に依らない)");
        },
    }
    match &e.1.requires {
        Some(g) => {
            s.append("【前提: ");
            let b = gate_brief(g);
            s.append(b.as_str());
            s.append("】");
        },
        None => {},
    }
    s.append("\n");
    s
}

fn challenges_exec(sc: &Scenario) -> (r: String)
    ensures
        r@ == challenges_block(*sc),
{
    let n = sc.challenges.entries.len();
    if n == 0 {
        return String::new();
    }
    let ghost es = sc.challenges.entries@;
    let ghost f = |e: (String, ChallengeDef)| challenge_line(e);
    let mut s = String::from_str(CHALLENGES_HEAD);
    let ghost pre = s@;
    let mut i: usize = 0;
    while i < n
        invariant
            i <= n == es.len(),
            es == sc.challenges.entries@,
            f == (|e: (String, ChallengeDef)| challenge_line(e)),
            s@ == pre + concat_spec(es.take(i as int).map_values(f)),
        decreases n - i,
    {
        proof {
            lemma_concat_map_step(es, i as int, f);
        }
        let line = challenge_line_exec(&sc.challenges.entries[i]);
        s.append(line.as_str());
        assert(s@ =~= pre + concat_spec(es.take(i + 1).map_values(f)));
        i = i + 1;
    }
    assert(es.take(i as int) =~= es);
    s
}

fn flag_vocab_exec(sc: &Scenario, f: &String) -> (r: String)
    ensures
        r@ == flag_vocab_line(*sc, *f),
{
    let mut s = String::from_str("- ");
    s.append(f.as_str());
    match sc.flag_titles.get(f.as_str()) {
        Some(t) => {
            let tt = trim(t.as_str());
            if tt.unicode_len() > 0 {
                s.append("（");
                s.append(tt.as_str());
                s.append("）");
            }
        },
        None => {},
    }
    match sc.flag_hints.get(f.as_str()) {
        Some(h) => {
            let hh = trim(h.as_str());
            if hh.unicode_len() > 0 {
                s.append(": ");
                s.append(hh.as_str());
            }
        },
        None => {},
    }
    s.append("\n");
    s
}

fn flags_exec(sc: &Scenario) -> (r: String)
    ensures
        r@ == flags_block(*sc),
{
    let authored = sc.authored_only_flags();
    let items = &sc.allowed_flags.items;
    let ghost es = items@;
    let ghost p = |f: String| listed_flag(*sc, f);
    let ghost g = |f: String| flag_vocab_line(*sc, f);
    let mut body = String::new();
    let mut kept: usize = 0;
    let mut i: usize = 0;
    while i < items.len()
        invariant
            i <= es.len(),
            es == sc.allowed_flags.items@,
            items == &sc.allowed_flags.items,
            authored@ == authored_only_spec(*sc),
            p == (|f: String| listed_flag(*sc, f)),
            g == (|f: String| flag_vocab_line(*sc, f)),
            kept == es.take(i as int).filter(p).len(),
            kept <= i,
            body@ == concat_spec(es.take(i as int).filter(p).map_values(g)),
        decreases es.len() - i,
    {
        proof {
            lemma_concat_filter_step(es, i as int, p, g);
            lemma_filter_map_step(es, i as int, p, g);
        }
        let f = &items[i];
        if !authored.contains(f.as_str()) && !sc.hidden_flags.contains(f.as_str()) {
            let line = flag_vocab_exec(sc, f);
            body.append(line.as_str());
            kept = kept + 1;
        }
        i = i + 1;
    }
    assert(es.take(i as int) =~= es);
    if kept == 0 {
        return String::new();
    }
    let mut s = String::from_str(FLAGS_HEAD);
    s.append(body.as_str());
    s
}

fn votes_exec(sc: &Scenario) -> (r: String)
    ensures
        r@ == votes_block(*sc),
{
    let n = sc.vote_rules.len();
    if n == 0 {
        return String::new();
    }
    let ghost es = sc.vote_rules@;
    let ghost f = |r: VoteRule| vote_rule_line(r);
    let mut s = String::from_str(VOTES_HEAD);
    let ghost pre = s@;
    let mut i: usize = 0;
    while i < n
        invariant
            i <= n == es.len(),
            es == sc.vote_rules@,
            f == (|r: VoteRule| vote_rule_line(r)),
            s@ == pre + concat_spec(es.take(i as int).map_values(f)),
        decreases n - i,
    {
        proof {
            lemma_concat_map_step(es, i as int, f);
        }
        let rule = &sc.vote_rules[i];
        let ghost before = s@;
        s.append("- ");
        let b = gate_brief(&rule.when);
        s.append(b.as_str());
        s.append(" のとき: ");
        match &rule.voter_attribute {
            None => {
                s.append("生存者なら誰でも投票できる");
            },
            Some(va) => {
                s.append(va.key.as_str());
                s.append("=");
                s.append(va.value.as_str());
                s.append(" の者だけが投票できる");
            },
        }
        s.append("\n");
        assert(s@ =~= before + vote_rule_line(es[i as int]));
        assert(s@ =~= pre + concat_spec(es.take(i + 1).map_values(f)));
        i = i + 1;
    }
    assert(es.take(i as int) =~= es);
    s
}

fn goals_exec(sc: &Scenario) -> (r: String)
    ensures
        r@ == goals_block(*sc),
{
    let n = sc.goals.len();
    if n == 0 {
        return match &sc.goal {
            Some(g) => {
                let mut s = String::from_str("\n## クリア条件\n");
                let b = gate_brief(g);
                s.append(b.as_str());
                s.append("\n");
                s
            },
            None => String::new(),
        };
    }
    let ghost es = sc.goals@;
    let ghost f = |g: GoalDef| goal_line(g);
    let mut s = String::from_str("\n## クリア条件 (いずれかの結末へ)\n");
    let ghost pre = s@;
    let mut i: usize = 0;
    while i < n
        invariant
            i <= n == es.len(),
            es == sc.goals@,
            f == (|g: GoalDef| goal_line(g)),
            s@ == pre + concat_spec(es.take(i as int).map_values(f)),
        decreases n - i,
    {
        proof {
            lemma_concat_map_step(es, i as int, f);
        }
        let g = &sc.goals[i];
        s.append("- ");
        s.append(g.id.as_str());
        s.append(": ");
        let b = gate_brief(&g.when);
        s.append(b.as_str());
        s.append("\n");
        assert(s@ =~= pre + concat_spec(es.take(i + 1).map_values(f)));
        i = i + 1;
    }
    assert(es.take(i as int) =~= es);
    s
}

pub fn scenario_brief(scenario: &Scenario) -> (r: String)
    ensures
        r@ == scenario_brief_spec(*scenario),
{
    let mut s = String::from_str("# シナリオ: ");
    s.append(scenario.title.as_str());
    s.append("\n");
    let b = world_exec(scenario);
    s.append(b.as_str());
    let b = protagonist_exec(&scenario.protagonist);
    s.append(b.as_str());
    let b = characters_exec(scenario);
    s.append(b.as_str());
    s.append("\n## 場所\n");
    let b = locations_exec(scenario);
    s.append(b.as_str());
    let b = challenges_exec(scenario);
    s.append(b.as_str());
    let b = flags_exec(scenario);
    s.append(b.as_str());
    let b = votes_exec(scenario);
    s.append(b.as_str());
    let b = goals_exec(scenario);
    s.append(b.as_str());
    s
}
} // verus!
