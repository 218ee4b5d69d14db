//! The one-line status the terminal shows after each accepted turn.
use vstd::prelude::*;

use crate::brief::{per_entity_sets, per_entity_sets_exec, stat_kv};
use crate::state::GameState;
use crate::strmap::StrMap;
use crate::text::{int_str, join, join_spec};

verus! {

broadcast use vstd::std_specs::vec::group_vec_axioms;

/// `id(k=v, ...)` with every stat of the entity, in key order.
pub open spec fn entity_stats_entry(e: (String, StrMap<i64>)) -> Seq<char> {
    e.0@ + "("@ + join_spec(e.1.entries@.map_values(|p: (String, i64)| stat_kv(p)), ", "@) + ")"@
}

/// Every entity's stats joined by ` / `; `なし` when there is no entity.
pub open spec fn status_stats_spec(st: GameState) -> Seq<char> {
    if st.entities.entries@.len() == 0 {
        "なし"@
    } else {
        join_spec(st.entities.entries@.map_values(|e: (String, StrMap<i64>)| entity_stats_entry(e)), " / "@)
    }
}

/// `[所在: <location> / 所持: <items> / 能力値: <stats>]`, indented by two spaces.
pub open spec fn status_line_spec(st: GameState) -> Seq<char> {
    "  [所在: "@ + st.location@ + " / 所持: "@ + per_entity_sets(st.inventory.entries@) + " / 能力値: "@
        + status_stats_spec(st) + "]"@
}

/// The items each entity holds (see `per_entity_sets`).
pub fn inventory(state: &GameState) -> (r: String)
    ensures
        r@ == per_entity_sets(state.inventory.entries@),
{
    per_entity_sets_exec(&state.inventory)
}

fn entity_stats_exec(e: &(String, StrMap<i64>)) -> (r: String)
    ensures
        r@ == entity_stats_entry(*e),
{
    let es = &e.1.entries;
    let ghost f = |p: (String, i64)| stat_kv(p);
    let mut parts: Vec<String> = Vec::new();
    let mut i: usize = 0;
    while i < es.len()
        invariant
            i <= es@.len(),
            es == &e.1.entries,
            f == (|p: (String, i64)| stat_kv(p)),
            parts@.map_values(|s: String| s@) == es@.take(i as int).map_values(f),
        decreases es@.len() - i,
    {
        let mut kv = es[i].0.clone();
        kv.append("=");
        let v = int_str(es[i].1);
        kv.append(v.as_str());
        let ghost before = parts@.map_values(|s: String| s@);
        parts.push(kv);
        assert(parts@.map_values(|s: String| s@) =~= before.push(f(es@[i as int])));
        assert(es@.take(i as int + 1) =~= es@.take(i as int).push(es@[i as int]));
        i = i + 1;
    }
    assert(es@.take(i as int) =~= es@);
    let mut line = e.0.clone();
    line.append("(");
    let j = join(&parts, ", ");
    line.append(j.as_str());
    line.append(")");
    line
}

/// Every entity's stats (see `status_stats_spec`).
pub fn stats_line(state: &GameState) -> (r: String)
    ensures
        r@ == status_stats_spec(*state),
{
    let es = &state.entities.entries;
    if es.len() == 0 {
        return String::from_str("なし");
    }
    let ghost f = |e: (String, StrMap<i64>)| entity_stats_entry(e);
    let mut parts: Vec<String> = Vec::new();
    let mut i: usize = 0;
    while i < es.len()
        invariant
            i <= es@.len(),
            es == &state.entities.entries,
            f == (|e: (String, StrMap<i64>)| entity_stats_entry(e)),
            parts@.map_values(|s: String| s@) == es@.take(i as int).map_values(f),
        decreases es@.len() - i,
    {
        let line = entity_stats_exec(&es[i]);
        let ghost before = parts@.map_values(|s: String| s@);
        parts.push(line);
        assert(parts@.map_values(|s: String| s@) =~= before.push(f(es@[i as int])));
        assert(es@.take(i as int + 1) =~= es@.take(i as int).push(es@[i as int]));
        i = i + 1;
    }
    assert(es@.take(i as int) =~= es@);
    join(&parts, " / ")
}

/// The status line (see `status_line_spec`).
pub fn status_line(state: &GameState) -> (r: String)
    ensures
        r@ == status_line_spec(*state),
{
    let mut s = String::from_str("  [所在: ");
    s.append(state.location.as_str());
    s.append(" / 所持: ");
    let inv = inventory(state);
    s.append(inv.as_str());
    s.append(" / 能力値: ");
    let st = stats_line(state);
    s.append(st.as_str());
    s.append("]");
    s
}

} // verus!
