//! A play session: the state and board, and what one turn hands to the next
//! (recalled lore, the last checks, the last narration, the chronicle).
//!
//! The session decides what is carried; asking the narrator and the
//! summarizer, saving, and showing the result are the caller's part.
use vstd::prelude::*;

use crate::campaign::Advance;
use crate::engine::{check_views, fired_views, CheckModel, CheckOutcome, FiredModel, FiredTrigger};
use crate::memoria::{beat_views, fragment_views, resolve_recall, resolve_spec, BeatModel, FiredBeat, FragmentModel, LoreStore, MemoryFragment};
use crate::reason::Lang;
use crate::brief::{is_present, lemma_filter_map_step};
use crate::prompt::{signed_spec, signed_str};
use crate::spine::{CharacterDef, Scenario};
use crate::text::{dec, dec_spec, int_spec, int_str};
use crate::state::{GameState, PLAYER};
use crate::strmap::{has_view, StrMap, StrSet};
use crate::synopsis::Synopsis;
use crate::text::{trim, trim_spec};
use crate::turn::{carryover_narration, carryover_spec, chronicle_entry, chronicle_summary, log_views, svs, TurnLog, TurnLogModel};
use crate::turnloop::{system_message_spec, user_message_spec, ChatMessage, MessageModel, Role, TurnLoop};

verus! {

broadcast use vstd::std_specs::vec::group_vec_axioms;

/// The mutable side of a game in progress.
pub struct Session {
    pub state: GameState,
    pub scenario: Scenario,
    pub lore: LoreStore,
    /// Lore recalled by the last turn's beats, to weave into the next narration.
    pub pending_lore: Vec<MemoryFragment>,
    /// The last turn's checks, to be told in the next narration.
    pub pending_checks: Vec<CheckOutcome>,
    /// The last narration (with its beats), the scene the next turn continues.
    pub last_narration: String,
    /// The chronicle: one line per accepted turn.
    pub history: Vec<TurnLog>,
    pub synopsis: Synopsis,
    pub lang: Lang,
}

/// The lore recalled by a turn's beats, in order.
pub open spec fn recalled_lore(beats: Seq<BeatModel>) -> Seq<FragmentModel>
    decreases beats.len(),
{
    if beats.len() == 0 {
        Seq::empty()
    } else {
        recalled_lore(beats.drop_last()) + beats.last().recalled
    }
}

/// The authored narrations of a turn's beats.
pub open spec fn beat_narrations(beats: Seq<BeatModel>) -> Seq<Seq<char>> {
    beats.map_values(|b: BeatModel| b.narration)
}

/// Who is present after the turn, by id, in the order of the scenario's characters.
pub open spec fn present_tags(sc: Scenario, st: GameState) -> Seq<Seq<char>> {
    sc.characters.entries@.filter(|e: (String, CharacterDef)| is_present(sc, st, e)).map_values(
        |e: (String, CharacterDef)| e.0@,
    )
}

/// A flag entry that is true and became true at the current turn.
pub open spec fn set_now(st: GameState, e: (String, bool)) -> bool {
    e.1 && st.flag_turns@.contains_key(e.0@) && st.flag_turns@[e.0@] == st.turn
}

/// The flags that became true this turn, in the order of the flag entries.
pub open spec fn flags_set_tags(st: GameState) -> Seq<Seq<char>> {
    st.flags.entries@.filter(|e: (String, bool)| set_now(st, e)).map_values(|e: (String, bool)| e.0@)
}

/// The protagonist's items: the set of the last inventory entry for the
/// protagonist (a later entry for a key wins), or none.
pub open spec fn player_items(inv: Seq<(String, StrSet)>) -> Seq<String>
    decreases inv.len(),
{
    if inv.len() == 0 {
        Seq::empty()
    } else if inv.last().0@ == PLAYER@ {
        inv.last().1.items@
    } else {
        player_items(inv.drop_last())
    }
}

/// Items gained (`+item`, in the order held now) and lost (`-item`, in the
/// order held before) by the protagonist over the turn.
pub open spec fn item_tags(before: Seq<String>, after: Seq<String>) -> Seq<Seq<char>> {
    after.filter(|x: String| !has_view(before, x@)).map_values(|x: String| "+"@ + x@) + before.filter(
        |x: String| !has_view(after, x@),
    ).map_values(|x: String| "-"@ + x@)
}

/// A check as an engine fact: `entity stat 1dN±m=total vs DCd 成功|失敗`.
pub open spec fn check_tag(c: CheckModel) -> Seq<char> {
    c.entity + " "@ + c.stat + " 1d"@ + dec_spec(c.sides as nat) + signed_spec(c.modifier as int) + "="@
        + int_spec(c.total as int) + " vs DC"@ + dec_spec(c.dc as nat) + " "@ + (if c.success {
        "成功"@
    } else {
        "失敗"@
    })
}

/// The chronicle line of an accepted turn: turn, action and summary, with the
/// engine's facts of the turn as tags — the location, who is present, the
/// flags that became true, the items gained and lost, and the checks.
pub open spec fn chronicle_line(
    turn: u32,
    action: Seq<char>,
    summary: Seq<char>,
    narration: Seq<char>,
    beats: Seq<Seq<char>>,
    st: GameState,
    sc: Scenario,
    checks: Seq<CheckModel>,
    held_before: Seq<String>,
) -> TurnLogModel {
    TurnLogModel {
        turn,
        player: action,
        summary: chronicle_summary(summary, narration, beats),
        location: st.location@,
        present: present_tags(sc, st),
        flags_set: flags_set_tags(st),
        items: item_tags(held_before, player_items(st.inventory.entries@)),
        checks: checks.map_values(|c: CheckModel| check_tag(c)),
    }
}

fn present_tags_exec(sc: &Scenario, st: &GameState) -> (r: Vec<String>)
    ensures
        svs(r@) == present_tags(*sc, *st),
{
    let present = sc.present_at(st);
    let ghost es = sc.characters.entries@;
    let ghost p = |e: (String, CharacterDef)| is_present(*sc, *st, e);
    let ghost f = |e: (String, CharacterDef)| e.0@;
    let mut out: Vec<String> = Vec::new();
    let mut i: usize = 0;
    while i < sc.characters.entries.len()
        invariant
            i <= es.len(),
            es == sc.characters.entries@,
            present@ == crate::spine::present_spec(*sc, st@),
            p == (|e: (String, CharacterDef)| is_present(*sc, *st, e)),
            f == (|e: (String, CharacterDef)| e.0@),
            svs(out@) == es.take(i as int).filter(p).map_values(f),
        decreases es.len() - i,
    {
        proof {
            lemma_filter_map_step(es, i as int, p, f);
        }
        let e = &sc.characters.entries[i];
        if present.contains(e.0.as_str()) {
            let ghost before = svs(out@);
            out.push(e.0.clone());
            assert(svs(out@) =~= before.push(f(es[i as int])));
        }
        i = i + 1;
    }
    assert(es.take(i as int) =~= es);
    out
}

fn flags_set_exec(st: &GameState) -> (r: Vec<String>)
    ensures
        svs(r@) == flags_set_tags(*st),
{
    let ghost es = st.flags.entries@;
    let ghost p = |e: (String, bool)| set_now(*st, e);
    let ghost f = |e: (String, bool)| e.0@;
    let mut out: Vec<String> = Vec::new();
    let mut i: usize = 0;
    while i < st.flags.entries.len()
        invariant
            i <= es.len(),
            es == st.flags.entries@,
            p == (|e: (String, bool)| set_now(*st, e)),
            f == (|e: (String, bool)| e.0@),
            svs(out@) == es.take(i as int).filter(p).map_values(f),
        decreases es.len() - i,
    {
        proof {
            lemma_filter_map_step(es, i as int, p, f);
        }
        let e = &st.flags.entries[i];
        let now = e.1 && match st.flag_turns.get(e.0.as_str()) {
            Some(t) => *t == st.turn,
            None => false,
        };
        if now {
            let ghost before = svs(out@);
            out.push(e.0.clone());
            assert(svs(out@) =~= before.push(f(es[i as int])));
        }
        i = i + 1;
    }
    assert(es.take(i as int) =~= es);
    out
}

/// The protagonist's items (see `player_items`), to hand back to
/// `record_accepted` after the turn.
pub fn held_items(state: &GameState) -> (r: Vec<String>)
    ensures
        r@ == player_items(state.inventory.entries@),
{
    let es = &state.inventory.entries;
    let mut found: Option<usize> = None;
    let mut i: usize = 0;
    while i < es.len()
        invariant
            i <= es@.len(),
            es == &state.inventory.entries,
            match found {
                Some(k) => k < i && player_items(es@.take(i as int)) == es@[k as int].1.items@,
                None => player_items(es@.take(i as int)) == Seq::<String>::empty(),
            },
        decreases es@.len() - i,
    {
        assert(es@.take(i as int + 1).drop_last() =~= es@.take(i as int));
        if crate::strmap::str_eq(es[i].0.as_str(), PLAYER) {
            found = Some(i);
        }
        i = i + 1;
    }
    assert(es@.take(i as int) =~= es@);
    match found {
        Some(k) => es[k].1.items.clone(),
        None => Vec::new(),
    }
}

fn holds_view(v: &Vec<String>, x: &str) -> (b: bool)
    ensures
        b == has_view(v@, x@),
{
    let mut i: usize = 0;
    while i < v.len()
        invariant
            i <= v@.len(),
            forall|j: int| 0 <= j < i ==> #[trigger] v@[j]@ != x@,
        decreases v@.len() - i,
    {
        if crate::strmap::str_eq(v[i].as_str(), x) {
            return true;
        }
        i = i + 1;
    }
    false
}

fn marked_diff(from: &Vec<String>, other: &Vec<String>, mark: &str) -> (r: Vec<String>)
    ensures
        svs(r@) == from@.filter(|x: String| !has_view(other@, x@)).map_values(|x: String| mark@ + x@),
{
    let ghost p = |x: String| !has_view(other@, x@);
    let ghost f = |x: String| mark@ + x@;
    let mut out: Vec<String> = Vec::new();
    let mut i: usize = 0;
    while i < from.len()
        invariant
            i <= from@.len(),
            p == (|x: String| !has_view(other@, x@)),
            f == (|x: String| mark@ + x@),
            svs(out@) == from@.take(i as int).filter(p).map_values(f),
        decreases from@.len() - i,
    {
        proof {
            lemma_filter_map_step(from@, i as int, p, f);
        }
        if !holds_view(other, from[i].as_str()) {
            let mut t = String::from_str(mark);
            t.append(from[i].as_str());
            let ghost before = svs(out@);
            out.push(t);
            assert(svs(out@) =~= before.push(f(from@[i as int])));
        }
        i = i + 1;
    }
    assert(from@.take(i as int) =~= from@);
    out
}

fn check_tag_exec(c: &CheckOutcome) -> (r: String)
    ensures
        r@ == check_tag(c@),
{
    let mut s = c.entity.clone();
    s.append(" ");
    s.append(c.stat.as_str());
    s.append(" 1d");
    let t = dec(c.sides as u64);
    s.append(t.as_str());
    let t = signed_str(c.modifier);
    s.append(t.as_str());
    s.append("=");
    let t = int_str(c.total);
    s.append(t.as_str());
    s.append(" vs DC");
    let t = dec(c.dc as u64);
    s.append(t.as_str());
    s.append(" ");
    if c.success {
        s.append("成功");
    } else {
        s.append("失敗");
    }
    s
}

fn check_tags_exec(checks: &Vec<CheckOutcome>) -> (r: Vec<String>)
    ensures
        svs(r@) == check_views(checks@).map_values(|c: CheckModel| check_tag(c)),
{
    let ghost cv = check_views(checks@);
    let mut out: Vec<String> = Vec::new();
    let mut i: usize = 0;
    while i < checks.len()
        invariant
            i <= checks@.len(),
            cv == check_views(checks@),
            svs(out@) == cv.take(i as int).map_values(|c: CheckModel| check_tag(c)),
        decreases checks@.len() - i,
    {
        let t = check_tag_exec(&checks[i]);
        let ghost before = svs(out@);
        out.push(t);
        assert(svs(out@) =~= before.push(check_tag(cv[i as int])));
        assert(cv.take(i as int + 1).map_values(|c: CheckModel| check_tag(c)) =~= cv.take(i as int).map_values(
            |c: CheckModel| check_tag(c),
        ).push(check_tag(cv[i as int])));
        i = i + 1;
    }
    assert(cv.take(i as int) =~= cv);
    out
}

/// The marker line the chronicle gets when play moves to another module.
pub open spec fn module_marker(turn: u32, title: Seq<char>) -> TurnLogModel {
    TurnLogModel {
        turn,
        player: "（章の移り変わり）"@,
        summary: "『"@ + title + "』へ移った"@,
        location: Seq::empty(),
        present: Seq::empty(),
        flags_set: Seq::empty(),
        items: Seq::empty(),
        checks: Seq::empty(),
    }
}

impl Session {
    /// Starts a turn on the trimmed action: the conversation is built from the
    /// state, the board, the chronicle and what the last turn carried, and
    /// the carried lore, checks and narration are used up.
    pub fn begin_turn(&mut self, action: &str, max_attempts: u32) -> (r: TurnLoop)
        ensures
            r@.messages == seq![
                MessageModel { role: Role::System, content: system_message_spec(old(self).scenario) },
                MessageModel {
                    role: Role::User,
                    content: user_message_spec(
                        old(self).state,
                        old(self).scenario,
                        trim_spec(action@),
                        fragment_views(old(self).pending_lore@),
                        check_views(old(self).pending_checks@),
                        old(self).last_narration@,
                        log_views(old(self).history@),
                    ),
                },
            ],
            r@.attempts == 0,
            r@.max_attempts == if max_attempts == 0 {
                1
            } else {
                max_attempts
            },
            r@.lang == old(self).lang,
            r@.rejected.len() == 0,
            final(self).pending_lore@.len() == 0,
            final(self).pending_checks@.len() == 0,
            final(self).last_narration@.len() == 0,
            final(self).state == old(self).state,
            final(self).scenario == old(self).scenario,
            final(self).history == old(self).history,
            final(self).lang == old(self).lang,
    {
        let act = trim(action);
        let mut lore: Vec<MemoryFragment> = Vec::new();
        std::mem::swap(&mut lore, &mut self.pending_lore);
        let mut checks: Vec<CheckOutcome> = Vec::new();
        std::mem::swap(&mut checks, &mut self.pending_checks);
        let mut narration = String::new();
        std::mem::swap(&mut narration, &mut self.last_narration);
        TurnLoop::start(
            &self.state,
            &self.scenario,
            act.as_str(),
            max_attempts,
            self.lang,
            lore.as_slice(),
            checks.as_slice(),
            narration.as_str(),
            self.history.as_slice(),
        )
    }

    /// Records an accepted turn (the state has already been changed by it;
    /// `held_before` is what `held_items` gave before the turn): the fired
    /// beats' cues are resolved against the lore; the narration with the beats
    /// is carried to the next turn; a chronicle line (turn, trimmed action,
    /// summary or narration opening, beats, and the engine's facts as tags) is
    /// appended; the recalled lore and the checks wait for the next turn.
    /// Returns the beats.
    pub fn record_accepted(
        &mut self,
        action: &str,
        narration: &str,
        summary: &str,
        checks: Vec<CheckOutcome>,
        fired: &Vec<FiredTrigger>,
        held_before: &Vec<String>,
    ) -> (beats: Vec<FiredBeat>)
        ensures
            beat_views(beats@) == fired_views(fired@).map_values(|f: FiredModel| resolve_spec(old(self).lore, f)),
            final(self).last_narration@ == carryover_spec(narration@, beat_narrations(beat_views(beats@))),
            log_views(final(self).history@) == log_views(old(self).history@).push(
                chronicle_line(
                    old(self).state.turn,
                    trim_spec(action@),
                    summary@,
                    narration@,
                    beat_narrations(beat_views(beats@)),
                    old(self).state,
                    old(self).scenario,
                    check_views(checks@),
                    held_before@,
                ),
            ),
            fragment_views(final(self).pending_lore@) == recalled_lore(beat_views(beats@)),
            check_views(final(self).pending_checks@) == check_views(checks@),
            final(self).state == old(self).state,
            final(self).scenario == old(self).scenario,
            final(self).lang == old(self).lang,
    {
        let beats = resolve_recall(&self.lore, fired.as_slice());
        let ghost bv = beat_views(beats@);
        let mut texts: Vec<String> = Vec::new();
        let mut lore: Vec<MemoryFragment> = Vec::new();
        let mut i: usize = 0;
        while i < beats.len()
            invariant
                i <= beats@.len(),
                bv == beat_views(beats@),
                svs(texts@) =~= beat_narrations(bv).take(i as int),
                fragment_views(lore@) == recalled_lore(bv.take(i as int)),
            decreases beats@.len() - i,
        {
            let ghost before = svs(texts@);
            texts.push(beats[i].narration.clone());
            assert(svs(texts@) =~= before.push(bv[i as int].narration));
            let ghost lb = fragment_views(lore@);
            let rs = &beats[i].recalled;
            let mut j: usize = 0;
            while j < rs.len()
                invariant
                    j <= rs@.len(),
                    fragment_views(lore@) =~= lb + fragment_views(rs@).take(j as int),
                decreases rs@.len() - j,
            {
                let ghost l0 = fragment_views(lore@);
                lore.push(rs[j].dup());
                assert(fragment_views(lore@) =~= l0.push(rs@[j as int]@));
                j = j + 1;
            }
            assert(fragment_views(rs@).take(j as int) =~= bv[i as int].recalled);
            assert(bv.take(i + 1).drop_last() =~= bv.take(i as int));
            i = i + 1;
        }
        assert(bv.take(i as int) =~= bv);
        assert(beat_narrations(bv).take(i as int) =~= beat_narrations(bv));
        let carried = carryover_narration(narration, &texts);
        self.last_narration = carried;
        let act = trim(action);
        let mut entry = chronicle_entry(self.state.turn, act.as_str(), summary, narration, &texts);
        entry.location = self.state.location.clone();
        entry.present = present_tags_exec(&self.scenario, &self.state);
        entry.flags_set = flags_set_exec(&self.state);
        entry.checks = check_tags_exec(&checks);
        let now = held_items(&self.state);
        let mut items = marked_diff(&now, held_before, "+");
        let mut lost = marked_diff(held_before, &now, "-");
        let ghost gained_v = svs(items@);
        let ghost lost_v = svs(lost@);
        items.append(&mut lost);
        assert(svs(items@) =~= gained_v + lost_v);
        entry.items = items;
        assert(entry@ == chronicle_line(
            self.state.turn,
            act@,
            summary@,
            narration@,
            svs(texts@),
            self.state,
            self.scenario,
            check_views(checks@),
            held_before@,
        ));
        let ghost h0 = log_views(self.history@);
        self.history.push(entry);
        assert(log_views(self.history@) =~= h0.push(entry@));
        self.pending_lore = lore;
        self.pending_checks = checks;
        beats
    }

    /// Enters the next module of a campaign: its scenario and the carried
    /// state replace the old; the carried narration, lore and checks are
    /// dropped (a new scene); the chronicle is kept and gets a marker line.
    pub fn enter_module(&mut self, adv: Advance)
        ensures
            final(self).scenario == adv.scenario,
            final(self).state == adv.state,
            final(self).last_narration@.len() == 0,
            final(self).pending_lore@.len() == 0,
            final(self).pending_checks@.len() == 0,
            log_views(final(self).history@) == log_views(old(self).history@).push(
                module_marker(adv.state.turn, adv.scenario.title@),
            ),
            final(self).lang == old(self).lang,
    {
        let Advance { module_id: _, scenario, state } = adv;
        let mut summary = String::from_str("『");
        summary.append(scenario.title.as_str());
        summary.append("』へ移った");
        let marker = TurnLog {
            turn: state.turn,
            player: String::from_str("（章の移り変わり）"),
            summary,
            location: String::new(),
            present: Vec::new(),
            flags_set: Vec::new(),
            items: Vec::new(),
            checks: Vec::new(),
        };
        assert(marker@.present =~= Seq::<Seq<char>>::empty());
        assert(marker@.flags_set =~= Seq::<Seq<char>>::empty());
        assert(marker@.items =~= Seq::<Seq<char>>::empty());
        assert(marker@.checks =~= Seq::<Seq<char>>::empty());
        assert(marker@ == module_marker(state.turn, scenario.title@));
        self.scenario = scenario;
        self.state = state;
        self.last_narration = String::new();
        self.pending_lore = Vec::new();
        self.pending_checks = Vec::new();
        let ghost h0 = log_views(self.history@);
        self.history.push(marker);
        assert(log_views(self.history@) =~= h0.push(marker@));
    }
}

} // verus!
