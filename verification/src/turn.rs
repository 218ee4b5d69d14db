//! The turn record: the chronicle line each accepted turn leaves, and the
//! narration carried into the next turn.
use vstd::prelude::*;

use crate::text::{
    blank, is_blank, join, join_spec, squash_spec, squash_ws, trim, trim_end, trim_end_spec, trim_spec,
};

verus! {

broadcast use vstd::std_specs::vec::group_vec_axioms;

/// One chronicle line: what happened in an accepted turn, with the engine's
/// facts of the turn as tags.
#[derive(Default, Debug)]
pub struct TurnLog {
    /// The turn number after the turn was applied.
    pub turn: u32,
    /// The player's action text.
    pub player: String,
    /// One line of what happened (the narrator's summary, else the narration's opening).
    pub summary: String,
    pub location: String,
    pub present: Vec<String>,
    pub flags_set: Vec<String>,
    pub items: Vec<String>,
    pub checks: Vec<String>,
}

pub struct TurnLogModel {
    pub turn: u32,
    pub player: Seq<char>,
    pub summary: Seq<char>,
    pub location: Seq<char>,
    pub present: Seq<Seq<char>>,
    pub flags_set: Seq<Seq<char>>,
    pub items: Seq<Seq<char>>,
    pub checks: Seq<Seq<char>>,
}

pub open spec fn svs(s: Seq<String>) -> Seq<Seq<char>> {
    s.map_values(|x: String| x@)
}

impl View for TurnLog {
    type V = TurnLogModel;

    open spec fn view(&self) -> TurnLogModel {
        TurnLogModel {
            turn: self.turn,
            player: self.player@,
            summary: self.summary@,
            location: self.location@,
            present: svs(self.present@),
            flags_set: svs(self.flags_set@),
            items: svs(self.items@),
            checks: svs(self.checks@),
        }
    }
}

pub open spec fn log_views(s: Seq<TurnLog>) -> Seq<TurnLogModel> {
    s.map_values(|l: TurnLog| l@)
}

/// The narration's opening: squashed to single spaces, cut to 80 characters
/// (with `…` when it was longer).
pub open spec fn opening_spec(narration: Seq<char>) -> Seq<char> {
    let flat = squash_spec(narration);
    if flat.len() > 80 {
        flat.take(80) + "…"@
    } else {
        flat
    }
}

/// The beats that are not blank, each squashed to single spaces.
pub open spec fn beat_texts(beats: Seq<Seq<char>>) -> Seq<Seq<char>>
    decreases beats.len(),
{
    if beats.len() == 0 {
        seq![]
    } else {
        let rest = beat_texts(beats.drop_last());
        if trim_spec(beats.last()).len() == 0 {
            rest
        } else {
            rest.push(squash_spec(beats.last()))
        }
    }
}

/// The chronicle summary: the narrator's summary (trimmed) or, when it is
/// blank, the narration's opening; the beats that fired are appended as events.
pub open spec fn chronicle_summary(summary: Seq<char>, narration: Seq<char>, beats: Seq<Seq<char>>) -> Seq<char> {
    let head = if blank(summary) {
        opening_spec(narration)
    } else {
        trim_spec(summary)
    };
    let bs = beat_texts(beats);
    if bs.len() == 0 {
        head
    } else {
        head + "／出来事: "@ + join_spec(bs, "、"@)
    }
}

fn beat_texts_exec(beats: &Vec<String>) -> (r: Vec<String>)
    ensures
        svs(r@) == beat_texts(svs(beats@)),
{
    let ghost bv = svs(beats@);
    let mut out: Vec<String> = Vec::new();
    let mut i: usize = 0;
    assert(svs(out@) =~= beat_texts(bv.take(0)));
    while i < beats.len()
        invariant
            i <= beats@.len(),
            bv == svs(beats@),
            svs(out@) == beat_texts(bv.take(i as int)),
        decreases beats@.len() - i,
    {
        assert(bv.take(i + 1).drop_last() =~= bv.take(i as int));
        assert(bv.take(i + 1).last() == beats@[i as int]@);
        if !is_blank(beats[i].as_str()) {
            let ghost before = svs(out@);
            let b = squash_ws(beats[i].as_str());
            out.push(b);
            assert(svs(out@) =~= before.push(b@));
        }
        i = i + 1;
    }
    assert(bv.take(i as int) =~= bv);
    out
}

/// The chronicle line of an accepted turn (see `chronicle_summary`); the tags
/// are left empty.
pub fn chronicle_entry(turn: u32, player: &str, summary: &str, narration: &str, beats: &Vec<String>) -> (r: TurnLog)
    ensures
        r.turn == turn,
        r.player@ == player@,
        r.summary@ == chronicle_summary(summary@, narration@, svs(beats@)),
        r.location@ == Seq::<char>::empty(),
        r.present@.len() == 0 && r.flags_set@.len() == 0 && r.items@.len() == 0 && r.checks@.len() == 0,
{
    let mut head = if is_blank(summary) {
        let flat = squash_ws(narration);
        let n = flat.unicode_len();
        let mut h = crate::text::take_chars(flat.as_str(), 80);
        if n > 80 {
            h.append("…");
        }
        h
    } else {
        trim(summary)
    };
    let bs = beat_texts_exec(beats);
    if bs.len() > 0 {
        head.append("／出来事: ");
        let j = join(&bs, "、");
        assert(bs@.map_values(|p: String| p@) == svs(bs@));
        head.append(j.as_str());
    }
    TurnLog {
        turn,
        player: String::from_str(player),
        summary: head,
        location: String::new(),
        present: Vec::new(),
        flags_set: Vec::new(),
        items: Vec::new(),
        checks: Vec::new(),
    }
}

/// The beats that are not blank, trimmed.
pub open spec fn carried_beats(beats: Seq<Seq<char>>) -> Seq<Seq<char>>
    decreases beats.len(),
{
    if beats.len() == 0 {
        seq![]
    } else {
        let rest = carried_beats(beats.drop_last());
        if trim_spec(beats.last()).len() == 0 {
            rest
        } else {
            rest.push(trim_spec(beats.last()))
        }
    }
}

/// Each beat on a line of its own.
pub open spec fn beat_lines(bs: Seq<Seq<char>>) -> Seq<char>
    decreases bs.len(),
{
    if bs.len() == 0 {
        seq![]
    } else {
        beat_lines(bs.drop_last()) + "\n"@ + bs.last()
    }
}

/// The narration carried into the next turn: unchanged when no beat fired,
/// else with the beats appended as events the narrator did not see.
pub open spec fn carryover_spec(narration: Seq<char>, beats: Seq<Seq<char>>) -> Seq<char> {
    let bs = carried_beats(beats);
    if bs.len() == 0 {
        narration
    } else {
        trim_end_spec(narration) + "\n（直後に筋書きの出来事が起きた）"@ + beat_lines(bs)
    }
}

pub fn carryover_narration(narration: &str, beats: &Vec<String>) -> (r: String)
    ensures
        r@ == carryover_spec(narration@, svs(beats@)),
{
    let ghost bv = svs(beats@);
    let mut kept: Vec<String> = Vec::new();
    let mut i: usize = 0;
    assert(svs(kept@) =~= carried_beats(bv.take(0)));
    while i < beats.len()
        invariant
            i <= beats@.len(),
            bv == svs(beats@),
            svs(kept@) == carried_beats(bv.take(i as int)),
        decreases beats@.len() - i,
    {
        assert(bv.take(i + 1).drop_last() =~= bv.take(i as int));
        assert(bv.take(i + 1).last() == beats@[i as int]@);
        let t = trim(beats[i].as_str());
        if t.unicode_len() > 0 {
            let ghost before = svs(kept@);
            kept.push(t);
            assert(svs(kept@) =~= before.push(t@));
        }
        i = i + 1;
    }
    assert(bv.take(i as int) =~= bv);
    if kept.len() == 0 {
        return String::from_str(narration);
    }
    let ghost kv = svs(kept@);
    let mut s = trim_end(narration);
    s.append("\n（直後に筋書きの出来事が起きた）");
    let ghost base = s@;
    let mut k: usize = 0;
    assert(kv.take(0) =~= Seq::<Seq<char>>::empty());
    assert(base + beat_lines(kv.take(0)) =~= base);
    while k < kept.len()
        invariant
            k <= kept@.len(),
            kv == svs(kept@),
            s@ == base + beat_lines(kv.take(k as int)),
        decreases kept@.len() - k,
    {
        assert(kv.take(k + 1).drop_last() =~= kv.take(k as int));
        assert(kv.take(k + 1).last() == kept@[k as int]@);
        s.append("\n");
        s.append(kept[k].as_str());
        assert(s@ =~= base + beat_lines(kv.take(k + 1)));
        k = k + 1;
    }
    assert(kv.take(k as int) =~= kv);
    s
}

} // verus!
