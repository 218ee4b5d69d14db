//! Agreed facts: a short list of settled points shared by the player and the
//! game master, kept outside the game state.
//!
//! The narrator may only *propose* lines; this module decides what enters.
//! The player may add, edit and delete lines. Every line carries a score; when
//! the list is full the lowest-scored line (the oldest among equals) leaves.
use vstd::prelude::*;

use unicode_normalization::UnicodeNormalization;

use crate::text::{trim, trim_spec};

verus! {

broadcast use vstd::std_specs::vec::group_vec_axioms;

/// The most lines the list holds.
pub const FACTS_MAX: usize = 20;

/// The most characters of one line; the rest is cut.
pub const FACT_LINE_CHARS: usize = 60;

/// Score of a line the narrator adds.
pub const SCORE_GM_NEW: u32 = 1;

/// Score of a line the player adds.
pub const SCORE_USER_NEW: u32 = 4;

/// Score the player's edit adds.
pub const SCORE_USER_EDIT: u32 = 3;

/// Score a repeated proposal adds.
pub const SCORE_REINFORCE: u32 = 1;

/// Who wrote a line.
#[derive(Clone, Copy, PartialEq, Eq, Structural, Debug)]
pub enum FactOrigin {
    Gm,
    User,
}

/// One line. `id` is unique within a session and never changes.
#[derive(Debug)]
pub struct FactEntry {
    pub id: u64,
    pub origin: FactOrigin,
    pub text: String,
    /// The turn the line was born in.
    pub turn: u32,
    /// How much the line has been confirmed; the lowest leaves first.
    pub score: u32,
}

pub struct FactModel {
    pub id: u64,
    pub origin: FactOrigin,
    pub text: Seq<char>,
    pub turn: u32,
    pub score: u32,
}

impl View for FactEntry {
    type V = FactModel;

    open spec fn view(&self) -> FactModel {
        FactModel { id: self.id, origin: self.origin, text: self.text@, turn: self.turn, score: self.score }
    }
}

pub open spec fn fact_views(s: Seq<FactEntry>) -> Seq<FactModel> {
    s.map_values(|f: FactEntry| f@)
}

impl FactEntry {
    pub fn dup(&self) -> (r: FactEntry)
        ensures
            r@ == self@,
    {
        FactEntry { id: self.id, origin: self.origin, text: self.text.clone(), turn: self.turn, score: self.score }
    }
}

/// What became of the narrator's proposals: the lines that entered (as cut),
/// and the ids of existing lines a repeated proposal reinforced.
#[derive(Debug)]
pub struct FactsDigest {
    pub accepted: Vec<String>,
    pub reinforced: Vec<u64>,
}

// ---------------------------------------------------------------------------
// Normalization (an outside function).
// ---------------------------------------------------------------------------

/// The NFKC normal form of a text, as the `unicode-normalization` crate computes it.
pub uninterp spec fn nfkc_of(s: Seq<char>) -> Seq<char>;

/// Calls `UnicodeNormalization::nfkc` of the `unicode-normalization` crate and
/// collects the characters. The contract claims only that the result is a
/// function of the input (named `nfkc_of`); what NFKC maps each character to
/// is the crate's tables and is not stated.
#[verifier::external_body]
fn nfkc(s: &str) -> (r: String)
    ensures
        r@ == nfkc_of(s@),
{
    s.nfkc().collect()
}

// ---------------------------------------------------------------------------
// The rules, as mathematics.
// ---------------------------------------------------------------------------

/// A proposed line: trimmed and cut to `FACT_LINE_CHARS` characters.
pub open spec fn line_spec(raw: Seq<char>) -> Seq<char> {
    let t = trim_spec(raw);
    t.take(if t.len() < FACT_LINE_CHARS {
        t.len() as int
    } else {
        FACT_LINE_CHARS as int
    })
}

/// Lines are the same when trimmed and NFKC-normalized texts are equal.
pub open spec fn key_spec(text: Seq<char>) -> Seq<char> {
    nfkc_of(trim_spec(text))
}

/// The first line from position `i` on with the key.
pub open spec fn find_key(l: Seq<FactModel>, key: Seq<char>, i: int) -> Option<int>
    decreases l.len() - i,
{
    if i < 0 || i >= l.len() {
        None
    } else if key_spec(l[i].text) == key {
        Some(i)
    } else {
        find_key(l, key, i + 1)
    }
}

/// The first line from position `i` on with the id.
pub open spec fn find_id(l: Seq<FactModel>, id: u64, i: int) -> Option<int>
    decreases l.len() - i,
{
    if i < 0 || i >= l.len() {
        None
    } else if l[i].id == id {
        Some(i)
    } else {
        find_id(l, id, i + 1)
    }
}

/// The largest id (0 for an empty list).
pub open spec fn max_id(l: Seq<FactModel>) -> u64
    decreases l.len(),
{
    if l.len() == 0 {
        0
    } else {
        let m = max_id(l.drop_last());
        if l.last().id > m {
            l.last().id
        } else {
            m
        }
    }
}

/// The id of a new line: one more than the largest (staying at `u64::MAX` there).
pub open spec fn next_id_spec(l: Seq<FactModel>) -> u64 {
    if max_id(l) < u64::MAX {
        (max_id(l) + 1) as u64
    } else {
        u64::MAX
    }
}

/// The lowest score (0 for an empty list).
pub open spec fn min_score(l: Seq<FactModel>) -> u32
    decreases l.len(),
{
    if l.len() == 0 {
        0
    } else if l.len() == 1 {
        l[0].score
    } else {
        let m = min_score(l.drop_last());
        if l.last().score < m {
            l.last().score
        } else {
            m
        }
    }
}

/// `x` leaves before `y`: a lower score, or the same score and a lower id.
pub open spec fn leaves_before(x: FactModel, y: FactModel) -> bool {
    x.score < y.score || (x.score == y.score && x.id < y.id)
}

/// The line that leaves when room is needed (scanning from `i`, best so far `b`):
/// the lowest score, the oldest (lowest id) among those; the first among exact ties.
pub open spec fn victim_from(l: Seq<FactModel>, i: int, b: int) -> int
    decreases l.len() - i,
{
    if i < 0 || i >= l.len() {
        b
    } else if leaves_before(l[i], l[b]) {
        victim_from(l, i + 1, i)
    } else {
        victim_from(l, i + 1, b)
    }
}

pub open spec fn victim(l: Seq<FactModel>) -> Option<int> {
    if l.len() == 0 {
        None
    } else {
        Some(victim_from(l, 1, 0))
    }
}

pub open spec fn sat_add_u32(a: u32, b: u32) -> u32 {
    if a + b > u32::MAX {
        u32::MAX
    } else {
        (a + b) as u32
    }
}

/// One narrator proposal: the list after it, the line it added (if any), and
/// the id it reinforced (if any).
pub open spec fn gm_step(l: Seq<FactModel>, raw: Seq<char>, turn: u32) -> (Seq<FactModel>, Option<Seq<char>>, Option<u64>) {
    let text = line_spec(raw);
    if text.len() == 0 {
        (l, None, None)
    } else {
        match find_key(l, key_spec(text), 0) {
            Some(i) => (
                l.update(i, FactModel { score: sat_add_u32(l[i].score, SCORE_REINFORCE), ..l[i] }),
                None,
                Some(l[i].id),
            ),
            None => if l.len() >= FACTS_MAX && SCORE_GM_NEW < min_score(l) {
                (l, None, None)
            } else {
                let l1 = if l.len() >= FACTS_MAX {
                    match victim(l) {
                        Some(v) => l.remove(v),
                        None => l,
                    }
                } else {
                    l
                };
                (
                    l1.push(FactModel { id: next_id_spec(l1), origin: FactOrigin::Gm, text, turn, score: SCORE_GM_NEW }),
                    Some(text),
                    None,
                )
            },
        }
    }
}

/// Narrator proposals in order: the list, the lines added, the ids reinforced.
pub open spec fn gm_facts_spec(l: Seq<FactModel>, adds: Seq<Seq<char>>, turn: u32) -> (Seq<FactModel>, Seq<Seq<char>>, Seq<u64>)
    decreases adds.len(),
{
    if adds.len() == 0 {
        (l, seq![], seq![])
    } else {
        let (l1, acc, rein) = gm_facts_spec(l, adds.drop_last(), turn);
        let (l2, a, r) = gm_step(l1, adds.last(), turn);
        (
            l2,
            match a {
                Some(t) => acc.push(t),
                None => acc,
            },
            match r {
                Some(id) => rein.push(id),
                None => rein,
            },
        )
    }
}

/// The player's addition: the list after it, the id written, and the line evicted.
pub open spec fn user_add_spec(l: Seq<FactModel>, raw: Seq<char>, turn: u32) -> (Seq<FactModel>, Option<u64>, Option<FactModel>) {
    let text = line_spec(raw);
    if text.len() == 0 {
        (l, None, None)
    } else {
        match find_key(l, key_spec(text), 0) {
            Some(i) => (
                l.update(i, FactModel { score: sat_add_u32(l[i].score, SCORE_USER_EDIT), origin: FactOrigin::User, ..l[i] }),
                Some(l[i].id),
                None,
            ),
            None => {
                let v = if l.len() >= FACTS_MAX {
                    victim(l)
                } else {
                    None
                };
                let l1 = match v {
                    Some(k) => l.remove(k),
                    None => l,
                };
                let id = next_id_spec(l1);
                (
                    l1.push(FactModel { id, origin: FactOrigin::User, text, turn, score: SCORE_USER_NEW }),
                    Some(id),
                    match v {
                        Some(k) => Some(l[k]),
                        None => None,
                    },
                )
            },
        }
    }
}

/// Some line other than `id` has the key.
pub open spec fn other_has_key(l: Seq<FactModel>, id: u64, key: Seq<char>) -> bool {
    exists|j: int| 0 <= j < l.len() && l[j].id != id && #[trigger] key_spec(l[j].text) == key
}

/// The player's edit: the list after it and the id of the line that holds the text.
pub open spec fn user_edit_spec(l: Seq<FactModel>, id: u64, raw: Seq<char>) -> (Seq<FactModel>, Option<u64>) {
    let text = line_spec(raw);
    if text.len() == 0 {
        (l, None)
    } else {
        let key = key_spec(text);
        match find_id(l, id, 0) {
            None => (l, None),
            Some(t) => if other_has_key(l, id, key) {
                let l1 = l.remove(t);
                match find_key(l1, key, 0) {
                    Some(o) => (
                        l1.update(o, FactModel { score: sat_add_u32(l1[o].score, SCORE_USER_EDIT), origin: FactOrigin::User, ..l1[o] }),
                        Some(l1[o].id),
                    ),
                    None => (l1, None),
                }
            } else {
                (
                    l.update(t, FactModel { text, score: sat_add_u32(l[t].score, SCORE_USER_EDIT), origin: FactOrigin::User, ..l[t] }),
                    Some(id),
                )
            },
        }
    }
}

/// The lines other than `id`, in order.
pub open spec fn without_id(l: Seq<FactModel>, id: u64) -> Seq<FactModel> {
    l.filter(|m: FactModel| m.id != id)
}

// ---------------------------------------------------------------------------
// The rules.
// ---------------------------------------------------------------------------

fn truncate_line(text: &str) -> (r: String)
    ensures
        r@ == line_spec(text@),
{
    let t = trim(text);
    crate::text::take_chars(t.as_str(), FACT_LINE_CHARS)
}

fn dedup_key(text: &str) -> (r: String)
    ensures
        r@ == key_spec(text@),
{
    let t = trim(text);
    nfkc(t.as_str())
}

fn find_key_exec(list: &Vec<FactEntry>, key: &String) -> (r: Option<usize>)
    ensures
        match r {
            Some(i) => find_key(fact_views(list@), key@, 0) == Some(i as int) && i < list@.len(),
            None => find_key(fact_views(list@), key@, 0) is None,
        },
{
    let ghost l = fact_views(list@);
    let mut i: usize = 0;
    while i < list.len()
        invariant
            i <= list@.len(),
            l == fact_views(list@),
            find_key(l, key@, 0) == find_key(l, key@, i as int),
        decreases list@.len() - i,
    {
        let k = dedup_key(list[i].text.as_str());
        assert(l[i as int] == list@[i as int]@);
        if crate::strmap::str_eq(k.as_str(), key.as_str()) {
            return Some(i);
        }
        i = i + 1;
    }
    None
}

fn find_id_exec(list: &Vec<FactEntry>, id: u64) -> (r: Option<usize>)
    ensures
        match r {
            Some(i) => find_id(fact_views(list@), id, 0) == Some(i as int) && i < list@.len(),
            None => find_id(fact_views(list@), id, 0) is None,
        },
{
    let ghost l = fact_views(list@);
    let mut i: usize = 0;
    while i < list.len()
        invariant
            i <= list@.len(),
            l == fact_views(list@),
            find_id(l, id, 0) == find_id(l, id, i as int),
        decreases list@.len() - i,
    {
        assert(l[i as int] == list@[i as int]@);
        if list[i].id == id {
            return Some(i);
        }
        i = i + 1;
    }
    None
}

fn next_id(list: &Vec<FactEntry>) -> (r: u64)
    ensures
        r == next_id_spec(fact_views(list@)),
{
    let ghost l = fact_views(list@);
    let mut m: u64 = 0;
    let mut i: usize = 0;
    assert(l.take(0) =~= Seq::<FactModel>::empty());
    while i < list.len()
        invariant
            i <= list@.len(),
            l == fact_views(list@),
            m == max_id(l.take(i as int)),
        decreases list@.len() - i,
    {
        assert(l.take(i + 1).drop_last() =~= l.take(i as int));
        assert(l.take(i + 1).last() == list@[i as int]@);
        if list[i].id > m {
            m = list[i].id;
        }
        i = i + 1;
    }
    assert(l.take(i as int) =~= l);
    if m < u64::MAX {
        m + 1
    } else {
        u64::MAX
    }
}

fn min_score_exec(list: &Vec<FactEntry>) -> (r: u32)
    ensures
        r == min_score(fact_views(list@)),
{
    let ghost l = fact_views(list@);
    if list.len() == 0 {
        return 0;
    }
    let mut m: u32 = list[0].score;
    assert(l.take(1) =~= seq![l[0]]);
    let mut i: usize = 1;
    while i < list.len()
        invariant
            1 <= i <= list@.len(),
            l == fact_views(list@),
            m == min_score(l.take(i as int)),
        decreases list@.len() - i,
    {
        assert(l.take(i + 1).drop_last() =~= l.take(i as int));
        assert(l.take(i + 1).last() == list@[i as int]@);
        if list[i].score < m {
            m = list[i].score;
        }
        i = i + 1;
    }
    assert(l.take(i as int) =~= l);
    m
}

fn victim_index(list: &Vec<FactEntry>) -> (r: Option<usize>)
    ensures
        match r {
            Some(v) => victim(fact_views(list@)) == Some(v as int) && v < list@.len(),
            None => victim(fact_views(list@)) is None,
        },
{
    let ghost l = fact_views(list@);
    if list.len() == 0 {
        return None;
    }
    let mut b: usize = 0;
    let mut i: usize = 1;
    while i < list.len()
        invariant
            1 <= i <= list@.len(),
            b < i,
            l == fact_views(list@),
            victim_from(l, 1, 0) == victim_from(l, i as int, b as int),
        decreases list@.len() - i,
    {
        assert(l[i as int] == list@[i as int]@);
        assert(l[b as int] == list@[b as int]@);
        if list[i].score < list[b].score || (list[i].score == list[b].score && list[i].id < list[b].id) {
            b = i;
        }
        i = i + 1;
    }
    Some(b)
}

fn sat_add_u32_exec(a: u32, b: u32) -> (r: u32)
    ensures
        r == sat_add_u32(a, b),
{
    a.saturating_add(b)
}

/// Raises a line's score (and, for the player, makes it theirs).
fn boost(list: &mut Vec<FactEntry>, i: usize, by: u32, user: bool)
    requires
        i < old(list)@.len(),
    ensures
        fact_views(final(list)@) == fact_views(old(list)@).update(
            i as int,
            FactModel {
                score: sat_add_u32(old(list)@[i as int].score, by),
                origin: if user {
                    FactOrigin::User
                } else {
                    old(list)@[i as int].origin
                },
                ..old(list)@[i as int]@
            },
        ),
{
    let mut e = list[i].dup();
    e.score = sat_add_u32_exec(e.score, by);
    if user {
        e.origin = FactOrigin::User;
    }
    let ghost before = list@;
    list.set(i, e);
    assert(fact_views(list@) =~= fact_views(before).update(i as int, e@));
}

fn remove_at(list: &mut Vec<FactEntry>, i: usize) -> (r: FactEntry)
    requires
        i < old(list)@.len(),
    ensures
        fact_views(final(list)@) == fact_views(old(list)@).remove(i as int),
        r@ == old(list)@[i as int]@,
{
    let ghost before = list@;
    let r = list.remove(i);
    assert(fact_views(list@) =~= fact_views(before).remove(i as int));
    r
}

fn push_fact(list: &mut Vec<FactEntry>, f: FactEntry)
    ensures
        fact_views(final(list)@) == fact_views(old(list)@).push(f@),
{
    let ghost before = list@;
    list.push(f);
    assert(fact_views(list@) =~= fact_views(before).push(f@));
}

/// One narrator proposal (see `gm_step`).
fn gm_step_exec(list: &mut Vec<FactEntry>, raw: &String, turn: u32) -> (r: (Option<String>, Option<u64>))
    ensures
        ({
            let (l, a, rr) = gm_step(fact_views(old(list)@), raw@, turn);
            &&& fact_views(final(list)@) == l
            &&& match r.0 {
                Some(t) => a == Some(t@),
                None => a is None,
            }
            &&& r.1 == rr
        }),
{
    let text = truncate_line(raw.as_str());
    if text.unicode_len() == 0 {
        return (None, None);
    }
    let key = dedup_key(text.as_str());
    match find_key_exec(list, &key) {
        Some(i) => {
            let id = list[i].id;
            boost(list, i, SCORE_REINFORCE, false);
            return (None, Some(id));
        },
        None => {},
    }
    if list.len() >= FACTS_MAX {
        let lo = min_score_exec(list);
        if SCORE_GM_NEW < lo {
            return (None, None);
        }
        match victim_index(list) {
            Some(v) => {
                let _ = remove_at(list, v);
            },
            None => {},
        }
    }
    let id = next_id(list);
    push_fact(list, FactEntry { id, origin: FactOrigin::Gm, text: text.clone(), turn, score: SCORE_GM_NEW });
    (Some(text), None)
}

pub open spec fn str_views(s: Seq<String>) -> Seq<Seq<char>> {
    s.map_values(|x: String| x@)
}

/// Takes in the narrator's proposals in order (see `gm_facts_spec`): each is
/// cut; a line that equals an existing one reinforces it; a new line enters
/// when there is room, or when it scores at least the lowest line (which then
/// leaves); otherwise it is dropped.
pub fn apply_gm_facts(list: &mut Vec<FactEntry>, additions: &Vec<String>, turn: u32) -> (d: FactsDigest)
    ensures
        gm_facts_spec(fact_views(old(list)@), str_views(additions@), turn) == (
            fact_views(final(list)@),
            str_views(d.accepted@),
            d.reinforced@,
        ),
{
    let ghost l0 = fact_views(list@);
    let ghost adds = str_views(additions@);
    let mut acc: Vec<String> = Vec::new();
    let mut rein: Vec<u64> = Vec::new();
    let mut i: usize = 0;
    assert(adds.take(0) =~= Seq::<Seq<char>>::empty());
    assert(str_views(acc@) =~= Seq::<Seq<char>>::empty());
    while i < additions.len()
        invariant
            i <= additions@.len(),
            adds == str_views(additions@),
            gm_facts_spec(l0, adds.take(i as int), turn) == (fact_views(list@), str_views(acc@), rein@),
        decreases additions@.len() - i,
    {
        assert(adds.take(i + 1).drop_last() =~= adds.take(i as int));
        assert(adds.take(i + 1).last() == additions@[i as int]@);
        let (a, r) = gm_step_exec(list, &additions[i], turn);
        match a {
            Some(t) => {
                let ghost before = acc@;
                acc.push(t);
                assert(str_views(acc@) =~= str_views(before).push(t@));
            },
            None => {},
        }
        match r {
            Some(id) => rein.push(id),
            None => {},
        }
        i = i + 1;
    }
    assert(adds.take(i as int) =~= adds);
    FactsDigest { accepted: acc, reinforced: rein }
}

/// The player's addition (see `user_add_spec`): it always enters (a line that
/// equals an existing one reinforces it instead); when the list is full the
/// lowest-scored, oldest line leaves and is handed back.
pub fn apply_user_add(list: &mut Vec<FactEntry>, text: &str, turn: u32) -> (r: (Option<u64>, Option<FactEntry>))
    ensures
        ({
            let (l, id, ev) = user_add_spec(fact_views(old(list)@), text@, turn);
            &&& fact_views(final(list)@) == l
            &&& r.0 == id
            &&& match r.1 {
                Some(e) => ev == Some(e@),
                None => ev is None,
            }
        }),
{
    let line = truncate_line(text);
    if line.unicode_len() == 0 {
        return (None, None);
    }
    let key = dedup_key(line.as_str());
    match find_key_exec(list, &key) {
        Some(i) => {
            let id = list[i].id;
            boost(list, i, SCORE_USER_EDIT, true);
            return (Some(id), None);
        },
        None => {},
    }
    let mut evicted: Option<FactEntry> = None;
    if list.len() >= FACTS_MAX {
        match victim_index(list) {
            Some(v) => {
                evicted = Some(remove_at(list, v));
            },
            None => {},
        }
    }
    let id = next_id(list);
    push_fact(list, FactEntry { id, origin: FactOrigin::User, text: line, turn, score: SCORE_USER_NEW });
    (Some(id), evicted)
}

/// The player's edit (see `user_edit_spec`): the line takes the new text and
/// is reinforced; when another line already says the same, the edited line is
/// removed and the other one is reinforced instead.
pub fn apply_user_edit(list: &mut Vec<FactEntry>, id: u64, text: &str) -> (r: Option<u64>)
    ensures
        user_edit_spec(fact_views(old(list)@), id, text@) == (fact_views(final(list)@), r),
{
    let line = truncate_line(text);
    if line.unicode_len() == 0 {
        return None;
    }
    let key = dedup_key(line.as_str());
    let target = match find_id_exec(list, id) {
        Some(t) => t,
        None => {
            return None;
        },
    };
    let ghost l = fact_views(list@);
    let mut other = false;
    let mut j: usize = 0;
    while j < list.len()
        invariant
            j <= list@.len(),
            l == fact_views(list@),
            other == exists|q: int| 0 <= q < j && l[q].id != id && #[trigger] key_spec(l[q].text) == key@,
        decreases list@.len() - j,
    {
        assert(l[j as int] == list@[j as int]@);
        let ghost was = other;
        if list[j].id != id {
            let k = dedup_key(list[j].text.as_str());
            if crate::strmap::str_eq(k.as_str(), key.as_str()) {
                other = true;
            }
        }
        proof {
            let c = l[j as int].id != id && key_spec(l[j as int].text) == key@;
            assert(other == (was || c));
            if c {
                assert(0 <= j < j + 1 && l[j as int].id != id && key_spec(l[j as int].text) == key@);
            }
            if exists|q: int| 0 <= q < j + 1 && l[q].id != id && #[trigger] key_spec(l[q].text) == key@ {
                let q = choose|q: int| 0 <= q < j + 1 && l[q].id != id && #[trigger] key_spec(l[q].text) == key@;
                if q < j {
                    assert(was);
                } else {
                    assert(c);
                }
            }
            if was {
                let q = choose|q: int| 0 <= q < j && l[q].id != id && #[trigger] key_spec(l[q].text) == key@;
                assert(0 <= q < j + 1);
            }
        }
        j = j + 1;
    }
    if other {
        let _ = remove_at(list, target);
        match find_key_exec(list, &key) {
            Some(o) => {
                let oid = list[o].id;
                boost(list, o, SCORE_USER_EDIT, true);
                Some(oid)
            },
            None => None,
        }
    } else {
        let mut e = list[target].dup();
        e.text = line;
        e.score = sat_add_u32_exec(e.score, SCORE_USER_EDIT);
        e.origin = FactOrigin::User;
        let ghost before = list@;
        list.set(target, e);
        assert(fact_views(list@) =~= fact_views(before).update(target as int, e@));
        Some(id)
    }
}

/// The player's deletion: removes every line with the id; true when one was removed.
pub fn apply_user_delete(list: &mut Vec<FactEntry>, id: u64) -> (b: bool)
    ensures
        fact_views(final(list)@) == without_id(fact_views(old(list)@), id),
        b == (without_id(fact_views(old(list)@), id).len() != old(list)@.len()),
{
    let ghost l = fact_views(list@);
    let mut kept: Vec<FactEntry> = Vec::new();
    let mut i: usize = 0;
    assert(l.take(0).filter(|m: FactModel| m.id != id) =~= Seq::<FactModel>::empty());
    while i < list.len()
        invariant
            i <= list@.len(),
            l == fact_views(list@),
            fact_views(kept@) == l.take(i as int).filter(|m: FactModel| m.id != id),
        decreases list@.len() - i,
    {
        let ghost before = fact_views(kept@);
        assert(l.take(i + 1).drop_last() =~= l.take(i as int));
        assert(l.take(i + 1).last() == list@[i as int]@);
        proof {
            assert(l.take(i + 1) =~= l.take(i as int).push(l[i as int]));
            l.take(i as int).lemma_filter_push(l[i as int], |m: FactModel| m.id != id);
        }
        if list[i].id != id {
            let e = list[i].dup();
            kept.push(e);
            assert(fact_views(kept@) =~= before.push(e@));
        }
        i = i + 1;
    }
    assert(l.take(i as int) =~= l);
    let before_len = list.len();
    *list = kept;
    list.len() != before_len
}

// ---------------------------------------------------------------------------
// Display order and the prompt section.
// ---------------------------------------------------------------------------

/// `x` is shown before `y`: a higher score, or the same score and a lower id.
pub open spec fn shown_before(x: FactModel, y: FactModel) -> bool {
    x.score > y.score || (x.score == y.score && x.id < y.id)
}

/// Where `x` goes in a sorted sequence: before the first line it is shown before
/// (after every line shown at least as early, so equal lines keep their order).
pub open spec fn insert_pos(s: Seq<FactModel>, x: FactModel, k: int) -> int
    decreases s.len() - k,
{
    if k < 0 || k >= s.len() {
        s.len() as int
    } else if shown_before(x, s[k]) {
        k
    } else {
        insert_pos(s, x, k + 1)
    }
}

proof fn lemma_insert_pos(s: Seq<FactModel>, x: FactModel, k: int)
    requires
        0 <= k <= s.len(),
    ensures
        k <= insert_pos(s, x, k) <= s.len(),
        forall|q: int| k <= q < insert_pos(s, x, k) ==> !shown_before(x, #[trigger] s[q]),
        insert_pos(s, x, k) < s.len() ==> shown_before(x, s[insert_pos(s, x, k)]),
    decreases s.len() - k,
{
    if k < s.len() && !shown_before(x, s[k]) {
        lemma_insert_pos(s, x, k + 1);
    }
}

/// The lines in display order: highest score first, lower id first among equal
/// scores (a stable sort of the list).
pub open spec fn display_order(l: Seq<FactModel>) -> Seq<FactModel>
    decreases l.len(),
{
    if l.len() == 0 {
        seq![]
    } else {
        let s = display_order(l.drop_last());
        s.insert(insert_pos(s, l.last(), 0), l.last())
    }
}

pub open spec fn ref_views(s: Seq<&FactEntry>) -> Seq<FactModel> {
    s.map_values(|r: &FactEntry| r@)
}

/// The lines in display order (see `display_order`).
pub fn sorted_for_display(list: &Vec<FactEntry>) -> (r: Vec<&FactEntry>)
    ensures
        ref_views(r@) == display_order(fact_views(list@)),
{
    let ghost l = fact_views(list@);
    let mut out: Vec<&FactEntry> = Vec::new();
    let mut i: usize = 0;
    assert(ref_views(out@) =~= display_order(l.take(0)));
    while i < list.len()
        invariant
            i <= list@.len(),
            l == fact_views(list@),
            ref_views(out@) == display_order(l.take(i as int)),
        decreases list@.len() - i,
    {
        assert(l.take(i + 1).drop_last() =~= l.take(i as int));
        assert(l.take(i + 1).last() == list@[i as int]@);
        let x = &list[i];
        let ghost sv = ref_views(out@);
        proof {
            lemma_insert_pos(sv, x@, 0);
        }
        let mut k: usize = 0;
        while k < out.len()
            invariant
                k <= out@.len(),
                sv == ref_views(out@),
                insert_pos(sv, x@, 0) == insert_pos(sv, x@, k as int),
            ensures
                k <= out@.len(),
                sv == ref_views(out@),
                insert_pos(sv, x@, 0) == k,
            decreases out@.len() - k,
        {
            assert(sv[k as int] == out@[k as int]@);
            if x.score > out[k].score || (x.score == out[k].score && x.id < out[k].id) {
                break;
            }
            k = k + 1;
        }
        proof {
            lemma_insert_pos(sv, x@, k as int);
        }
        out.insert(k, x);
        assert(ref_views(out@) =~= sv.insert(k as int, x@));
        i = i + 1;
    }
    assert(l.take(i as int) =~= l);
    out
}

/// The heading of the agreed-facts prompt section: the facts bind the
/// narration but never override the state.
pub const FACTS_HEADER: &'static str = "\n\n# 約束事 (プレイヤーと GM が共有している取り決め)\nここに書かれたことは**以後の語りで守る**。ただし世界の状態そのものではない — state と矛盾するときは常に state が正しい。約束事を根拠に、state に無い所持・能力・出来事を確定させてはならない。呼称・設定・約束・意図のような語りの一貫性には、約束事を尊重して従うこと。\n";

/// Each line as `- text` on its own line.
pub open spec fn bullet_lines(s: Seq<FactModel>) -> Seq<char>
    decreases s.len(),
{
    if s.len() == 0 {
        seq![]
    } else {
        bullet_lines(s.drop_last()) + "- "@ + s.last().text + "\n"@
    }
}

/// The agreed-facts prompt section: the heading, then every line in display
/// order; no section for an empty list.
pub open spec fn facts_note_spec(l: Seq<FactModel>) -> Option<Seq<char>> {
    if l.len() == 0 {
        None
    } else {
        Some(FACTS_HEADER@ + bullet_lines(display_order(l)))
    }
}

pub fn facts_note(list: &Vec<FactEntry>) -> (r: Option<String>)
    ensures
        match r {
            Some(s) => facts_note_spec(fact_views(list@)) == Some(s@),
            None => facts_note_spec(fact_views(list@)) is None,
        },
{
    if list.len() == 0 {
        return None;
    }
    let sorted = sorted_for_display(list);
    let ghost d = ref_views(sorted@);
    let mut s = String::from_str(FACTS_HEADER);
    let mut i: usize = 0;
    assert(d.take(0) =~= Seq::<FactModel>::empty());
    while i < sorted.len()
        invariant
            i <= sorted@.len(),
            d == ref_views(sorted@),
            s@ == FACTS_HEADER@ + bullet_lines(d.take(i as int)),
        decreases sorted@.len() - i,
    {
        assert(d.take(i + 1).drop_last() =~= d.take(i as int));
        assert(d.take(i + 1).last() == sorted@[i as int]@);
        s.append("- ");
        s.append(sorted[i].text.as_str());
        s.append("\n");
        assert(s@ =~= FACTS_HEADER@ + bullet_lines(d.take(i + 1)));
        i = i + 1;
    }
    assert(d.take(i as int) =~= d);
    Some(s)
}

// ---------------------------------------------------------------------------
// Laws of the agreed facts.
// ---------------------------------------------------------------------------

proof fn lemma_victim_from(l: Seq<FactModel>, i: int, b: int)
    requires
        0 <= b < l.len(),
        0 <= i,
    ensures
        0 <= victim_from(l, i, b) < l.len(),
    decreases l.len() - i,
{
    if i < l.len() {
        if leaves_before(l[i], l[b]) {
            lemma_victim_from(l, i + 1, i);
        } else {
            lemma_victim_from(l, i + 1, b);
        }
    }
}

proof fn lemma_victim_best(l: Seq<FactModel>, i: int, b: int)
    requires
        0 <= b < l.len(),
        0 < i <= l.len(),
        b < i,
        forall|j: int| 0 <= j < i ==> !#[trigger] leaves_before(l[j], l[b]),
    ensures
        forall|j: int| 0 <= j < l.len() ==> !#[trigger] leaves_before(l[j], l[victim_from(l, i, b)]),
    decreases l.len() - i,
{
    if i < l.len() {
        if leaves_before(l[i], l[b]) {
            assert forall|j: int| 0 <= j < i + 1 implies !#[trigger] leaves_before(l[j], l[i]) by {
                if j < i {
                    assert(!leaves_before(l[j], l[b]));
                }
            }
            lemma_victim_best(l, i + 1, i);
            assert(victim_from(l, i, b) == victim_from(l, i + 1, i));
        } else {
            assert forall|j: int| 0 <= j < i + 1 implies !#[trigger] leaves_before(l[j], l[b]) by {
                if j < i {
                    assert(!leaves_before(l[j], l[b]));
                }
            }
            lemma_victim_best(l, i + 1, b);
            assert(victim_from(l, i, b) == victim_from(l, i + 1, b));
        }
    } else {
        assert(victim_from(l, i, b) == b);
        assert forall|j: int| 0 <= j < l.len() implies !#[trigger] leaves_before(l[j], l[victim_from(l, i, b)]) by {
            assert(!leaves_before(l[j], l[b]));
        }
    }
}

/// When room is needed, the line that leaves has the lowest score, and the
/// lowest id among the lines with that score.
pub proof fn law_the_lowest_oldest_line_leaves(l: Seq<FactModel>)
    requires
        l.len() > 0,
    ensures
        ({
            let v = victim(l)->0;
            &&& 0 <= v < l.len()
            &&& forall|j: int|
                0 <= j < l.len() ==> l[v].score <= #[trigger] l[j].score && (l[j].score == l[v].score ==> l[v].id
                    <= l[j].id)
        }),
{
    lemma_victim_from(l, 1, 0);
    lemma_victim_best(l, 1, 0);
    let v = victim(l)->0;
    assert forall|j: int| 0 <= j < l.len() implies l[v].score <= #[trigger] l[j].score && (l[j].score == l[v].score
        ==> l[v].id <= l[j].id) by {
        assert(!leaves_before(l[j], l[v]));
    }
}

/// Deleting by id removes exactly the lines with that id and keeps the rest in
/// order; it reports a removal exactly when some line had the id.
pub proof fn law_delete_removes_exactly_the_id(l: Seq<FactModel>, id: u64)
    ensures
        forall|j: int| 0 <= j < without_id(l, id).len() ==> #[trigger] without_id(l, id)[j].id != id,
        forall|j: int| 0 <= j < l.len() && l[j].id != id ==> without_id(l, id).contains(#[trigger] l[j]),
        (without_id(l, id).len() != l.len()) <==> (exists|j: int| 0 <= j < l.len() && #[trigger] l[j].id == id),
    decreases l.len(),
{
    let p = |m: FactModel| m.id != id;
    if l.len() > 0 {
        let init = l.drop_last();
        law_delete_removes_exactly_the_id(init, id);
        assert(l =~= init.push(l.last()));
        init.lemma_filter_push(l.last(), p);
        let w0 = without_id(init, id);
        let w = without_id(l, id);
        assert(w0.len() <= init.len()) by {
            init.filter_lemma(p);
        }
        assert forall|j: int| 0 <= j < l.len() && l[j].id != id implies w.contains(#[trigger] l[j]) by {
            if j < init.len() {
                assert(init[j] == l[j]);
                assert(w0.contains(init[j]));
                let k = choose|k: int| 0 <= k < w0.len() && w0[k] == init[j];
                assert(w[k] == w0[k]);
            } else {
                assert(w[w.len() - 1] == l[j]);
            }
        }
        if exists|j: int| 0 <= j < l.len() && #[trigger] l[j].id == id {
            let j = choose|j: int| 0 <= j < l.len() && #[trigger] l[j].id == id;
            if j < init.len() {
                assert(init[j].id == id);
            }
        } else {
            assert forall|j: int| 0 <= j < init.len() implies #[trigger] init[j].id != id by {
                assert(l[j] == init[j]);
            }
        }
    } else {
        assert(without_id(l, id) =~= Seq::<FactModel>::empty());
    }
}

/// No two lines share an id.
pub open spec fn ids_distinct(l: Seq<FactModel>) -> bool {
    forall|a: int, b: int| 0 <= a < b < l.len() ==> #[trigger] l[a].id != #[trigger] l[b].id
}

proof fn lemma_max_id_bounds(l: Seq<FactModel>)
    ensures
        forall|j: int| 0 <= j < l.len() ==> #[trigger] l[j].id <= max_id(l),
        max_id(l) == 0 || exists|j: int| 0 <= j < l.len() && #[trigger] l[j].id == max_id(l),
    decreases l.len(),
{
    if l.len() > 0 {
        let p = l.drop_last();
        lemma_max_id_bounds(p);
        assert forall|j: int| 0 <= j < l.len() implies #[trigger] l[j].id <= max_id(l) by {
            if j < p.len() {
                assert(l[j] == p[j]);
            }
        }
        if max_id(l) != 0 && max_id(l) == max_id(p) && l.last().id != max_id(l) {
            let j = choose|j: int| 0 <= j < p.len() && #[trigger] p[j].id == max_id(p);
            assert(l[j] == p[j]);
        }
        if max_id(l) == l.last().id {
            assert(l[l.len() - 1].id == max_id(l));
        }
    }
}

proof fn lemma_find_id_range(l: Seq<FactModel>, id: u64, i: int)
    ensures
        match find_id(l, id, i) {
            Some(j) => 0 <= j < l.len() && l[j].id == id,
            None => true,
        },
    decreases l.len() - i,
{
    if 0 <= i < l.len() && l[i].id != id {
        lemma_find_id_range(l, id, i + 1);
    }
}

/// Removing a line keeps the ids apart and never raises the largest.
proof fn lemma_remove_keeps_ids(l: Seq<FactModel>, v: int)
    requires
        0 <= v < l.len(),
        ids_distinct(l),
    ensures
        ids_distinct(l.remove(v)),
        max_id(l.remove(v)) <= max_id(l),
{
    let r = l.remove(v);
    assert forall|a: int, b: int| 0 <= a < b < r.len() implies #[trigger] r[a].id != #[trigger] r[b].id by {
        let a2 = if a < v { a } else { a + 1 };
        let b2 = if b < v { b } else { b + 1 };
        assert(r[a] == l[a2] && r[b] == l[b2]);
    }
    lemma_max_id_bounds(l);
    lemma_max_id_bounds(r);
    if max_id(r) != 0 {
        let j = choose|j: int| 0 <= j < r.len() && #[trigger] r[j].id == max_id(r);
        let j2 = if j < v { j } else { j + 1 };
        assert(r[j] == l[j2]);
    }
}

/// Changing a line in place without touching its id keeps the ids as they are.
proof fn lemma_update_keeps_ids(l: Seq<FactModel>, i: int, f: FactModel)
    requires
        0 <= i < l.len(),
        f.id == l[i].id,
    ensures
        max_id(l.update(i, f)) == max_id(l),
        ids_distinct(l) ==> ids_distinct(l.update(i, f)),
    decreases l.len(),
{
    let u = l.update(i, f);
    if i < l.len() - 1 {
        lemma_update_keeps_ids(l.drop_last(), i, f);
        assert(u.drop_last() =~= l.drop_last().update(i, f));
    } else {
        assert(u.drop_last() =~= l.drop_last());
    }
    assert forall|a: int, b: int| 0 <= a < b < u.len() && ids_distinct(l) implies #[trigger] u[a].id != #[trigger] u[b].id by {
        assert(u[a].id == l[a].id && u[b].id == l[b].id);
    }
}

/// A line appended under the next id keeps the ids apart and becomes the largest.
proof fn lemma_push_next_id(l: Seq<FactModel>, f: FactModel)
    requires
        ids_distinct(l),
        max_id(l) < u64::MAX,
        f.id == next_id_spec(l),
    ensures
        ids_distinct(l.push(f)),
        max_id(l.push(f)) == max_id(l) + 1,
{
    lemma_max_id_bounds(l);
    let r = l.push(f);
    assert(r.drop_last() =~= l);
    assert forall|a: int, b: int| 0 <= a < b < r.len() implies #[trigger] r[a].id != #[trigger] r[b].id by {
        assert(r[a] == l[a]);
        if b < l.len() {
            assert(r[b] == l[b]);
        }
    }
}

/// A new line takes place of the victim (if room is needed) and the next id.
proof fn lemma_make_room_then_push(l: Seq<FactModel>, v: Option<int>, f: FactModel)
    requires
        ids_distinct(l),
        max_id(l) < u64::MAX,
        v matches Some(k) ==> 0 <= k < l.len(),
        f.id == next_id_spec(match v {
            Some(k) => l.remove(k),
            None => l,
        }),
    ensures
        ({
            let l1 = match v {
                Some(k) => l.remove(k),
                None => l,
            };
            &&& ids_distinct(l1.push(f))
            &&& max_id(l1.push(f)) <= max_id(l) + 1
        }),
{
    let l1 = match v {
        Some(k) => l.remove(k),
        None => l,
    };
    match v {
        Some(k) => lemma_remove_keeps_ids(l, k),
        None => {},
    }
    lemma_push_next_id(l1, f);
}

proof fn lemma_gm_step_ids(l: Seq<FactModel>, raw: Seq<char>, turn: u32)
    requires
        ids_distinct(l),
        max_id(l) < u64::MAX,
    ensures
        ids_distinct(gm_step(l, raw, turn).0),
        max_id(gm_step(l, raw, turn).0) <= max_id(l) + 1,
{
    let text = line_spec(raw);
    lemma_find_key(l, key_spec(text), 0);
    if text.len() > 0 {
        match find_key(l, key_spec(text), 0) {
            Some(i) => {
                lemma_update_keeps_ids(l, i, FactModel { score: sat_add_u32(l[i].score, SCORE_REINFORCE), ..l[i] });
            },
            None => {
                if !(l.len() >= FACTS_MAX && SCORE_GM_NEW < min_score(l)) {
                    let v = if l.len() >= FACTS_MAX {
                        victim(l)
                    } else {
                        None
                    };
                    if l.len() >= FACTS_MAX {
                        lemma_victim_from(l, 1, 0);
                    }
                    let l1 = match v {
                        Some(k) => l.remove(k),
                        None => l,
                    };
                    let f = FactModel { id: next_id_spec(l1), origin: FactOrigin::Gm, text, turn, score: SCORE_GM_NEW };
                    lemma_make_room_then_push(l, v, f);
                    assert(gm_step(l, raw, turn).0 == l1.push(f));
                }
            },
        }
    }
}

/// Ids stay unique: the narrator's proposals give each new line an id no
/// other line has (while the ids stay below the largest `u64`), and never
/// change the id of a line that stays.
pub proof fn law_gm_facts_keep_ids_unique(l: Seq<FactModel>, adds: Seq<Seq<char>>, turn: u32)
    requires
        ids_distinct(l),
        max_id(l) + adds.len() < u64::MAX,
    ensures
        ids_distinct(gm_facts_spec(l, adds, turn).0),
        max_id(gm_facts_spec(l, adds, turn).0) <= max_id(l) + adds.len(),
    decreases adds.len(),
{
    if adds.len() > 0 {
        law_gm_facts_keep_ids_unique(l, adds.drop_last(), turn);
        lemma_gm_step_ids(gm_facts_spec(l, adds.drop_last(), turn).0, adds.last(), turn);
    }
}

/// Ids stay unique under the player's addition; a new line's id is above
/// every id of the list it joins.
pub proof fn law_user_add_keeps_ids_unique(l: Seq<FactModel>, raw: Seq<char>, turn: u32)
    requires
        ids_distinct(l),
        max_id(l) < u64::MAX,
    ensures
        ids_distinct(user_add_spec(l, raw, turn).0),
        max_id(user_add_spec(l, raw, turn).0) <= max_id(l) + 1,
{
    let text = line_spec(raw);
    lemma_find_key(l, key_spec(text), 0);
    if text.len() > 0 {
        match find_key(l, key_spec(text), 0) {
            Some(i) => {
                lemma_update_keeps_ids(
                    l,
                    i,
                    FactModel { score: sat_add_u32(l[i].score, SCORE_USER_EDIT), origin: FactOrigin::User, ..l[i] },
                );
            },
            None => {
                let v = if l.len() >= FACTS_MAX {
                    victim(l)
                } else {
                    None
                };
                if l.len() >= FACTS_MAX {
                    lemma_victim_from(l, 1, 0);
                }
                let l1 = match v {
                    Some(k) => l.remove(k),
                    None => l,
                };
                let f = FactModel { id: next_id_spec(l1), origin: FactOrigin::User, text, turn, score: SCORE_USER_NEW };
                lemma_make_room_then_push(l, v, f);
                assert(user_add_spec(l, raw, turn).0 == l1.push(f));
            },
        }
    }
}

/// Ids stay unique under the player's edit, which adds no id.
pub proof fn law_user_edit_keeps_ids_unique(l: Seq<FactModel>, id: u64, raw: Seq<char>)
    requires
        ids_distinct(l),
    ensures
        ids_distinct(user_edit_spec(l, id, raw).0),
        max_id(user_edit_spec(l, id, raw).0) <= max_id(l),
{
    let text = line_spec(raw);
    let key = key_spec(text);
    lemma_find_id_range(l, id, 0);
    if text.len() > 0 {
        match find_id(l, id, 0) {
            None => {},
            Some(t) => {
                if other_has_key(l, id, key) {
                    let l1 = l.remove(t);
                    lemma_remove_keeps_ids(l, t);
                    lemma_find_key(l1, key, 0);
                    match find_key(l1, key, 0) {
                        Some(o) => {
                            lemma_update_keeps_ids(
                                l1,
                                o,
                                FactModel { score: sat_add_u32(l1[o].score, SCORE_USER_EDIT), origin: FactOrigin::User, ..l1[o] },
                            );
                        },
                        None => {},
                    }
                } else {
                    lemma_update_keeps_ids(
                        l,
                        t,
                        FactModel { text, score: sat_add_u32(l[t].score, SCORE_USER_EDIT), origin: FactOrigin::User, ..l[t] },
                    );
                }
            },
        }
    }
}

/// Ids stay unique under deletion.
pub proof fn law_delete_keeps_ids_unique(l: Seq<FactModel>, id: u64)
    requires
        ids_distinct(l),
    ensures
        ids_distinct(without_id(l, id)),
    decreases l.len(),
{
    let p = |m: FactModel| m.id != id;
    if l.len() > 0 {
        let init = l.drop_last();
        assert(l =~= init.push(l.last()));
        assert forall|a: int, b: int| 0 <= a < b < init.len() implies #[trigger] init[a].id != #[trigger] init[b].id by {
            assert(init[a] == l[a] && init[b] == l[b]);
        }
        law_delete_keeps_ids_unique(init, id);
        init.lemma_filter_push(l.last(), p);
        let w0 = without_id(init, id);
        let w = without_id(l, id);
        if p(l.last()) {
            assert(w == w0.push(l.last()));
            assert forall|a: int, b: int| 0 <= a < b < w.len() implies #[trigger] w[a].id != #[trigger] w[b].id by {
                assert(w[a] == w0[a]);
                if b < w0.len() {
                    assert(w[b] == w0[b]);
                } else {
                    assert(w0.contains(w0[a]));
                    init.lemma_filter_contains_rev(p, w0[a]);
                    let m = choose|m: int| 0 <= m < init.len() && init[m] == w0[a];
                    assert(l[m] == init[m]);
                    assert(w[b] == l[l.len() - 1]);
                }
            }
        }
    }
}

/// No two lines share a dedup key.
pub open spec fn keys_distinct(l: Seq<FactModel>) -> bool {
    forall|a: int, b: int| 0 <= a < b < l.len() ==> #[trigger] key_spec(l[a].text) != #[trigger] key_spec(l[b].text)
}

proof fn lemma_find_key_none(l: Seq<FactModel>, key: Seq<char>, i: int)
    requires
        0 <= i,
        find_key(l, key, i) is None,
    ensures
        forall|j: int| i <= j < l.len() ==> #[trigger] key_spec(l[j].text) != key,
    decreases l.len() - i,
{
    if i < l.len() {
        lemma_find_key_none(l, key, i + 1);
    }
}

/// The player's addition of a line whose dedup key some line already has adds
/// nothing: that line is reinforced (its score raised by `SCORE_USER_EDIT`,
/// saturating, and it becomes the player's), its id is returned, nothing is
/// evicted, and every other line stays as it was.
pub proof fn law_user_add_reinforces_an_existing_line(l: Seq<FactModel>, raw: Seq<char>, turn: u32)
    requires
        line_spec(raw).len() > 0,
        exists|j: int| 0 <= j < l.len() && #[trigger] key_spec(l[j].text) == key_spec(line_spec(raw)),
    ensures
        ({
            let (l2, id, evicted) = user_add_spec(l, raw, turn);
            &&& l2.len() == l.len()
            &&& evicted is None
            &&& exists|k: int|
                0 <= k < l.len() && #[trigger] key_spec(l[k].text) == key_spec(line_spec(raw)) && id == Some(l[k].id)
                    && l2 == l.update(
                    k,
                    FactModel { score: sat_add_u32(l[k].score, SCORE_USER_EDIT), origin: FactOrigin::User, ..l[k] },
                )
        }),
{
    let key = key_spec(line_spec(raw));
    lemma_find_key(l, key, 0);
    if find_key(l, key, 0) is None {
        lemma_find_key_none(l, key, 0);
        let j = choose|j: int| 0 <= j < l.len() && #[trigger] key_spec(l[j].text) == key;
        assert(key_spec(l[j].text) != key);
    }
    let k = find_key(l, key, 0)->0;
    assert(key_spec(l[k].text) == key);
}

/// A narrator proposal whose dedup key some line already has adds nothing:
/// that line's score is raised by `SCORE_REINFORCE` (saturating), its id is
/// reported as reinforced, and every other line stays as it was.
pub proof fn law_gm_proposal_reinforces_an_existing_line(l: Seq<FactModel>, raw: Seq<char>, turn: u32)
    requires
        line_spec(raw).len() > 0,
        exists|j: int| 0 <= j < l.len() && #[trigger] key_spec(l[j].text) == key_spec(line_spec(raw)),
    ensures
        ({
            let (l2, added, reinforced) = gm_step(l, raw, turn);
            &&& added is None
            &&& exists|k: int|
                0 <= k < l.len() && #[trigger] key_spec(l[k].text) == key_spec(line_spec(raw)) && reinforced == Some(
                    l[k].id,
                ) && l2 == l.update(k, FactModel { score: sat_add_u32(l[k].score, SCORE_REINFORCE), ..l[k] })
        }),
{
    let key = key_spec(line_spec(raw));
    lemma_find_key(l, key, 0);
    if find_key(l, key, 0) is None {
        lemma_find_key_none(l, key, 0);
        let j = choose|j: int| 0 <= j < l.len() && #[trigger] key_spec(l[j].text) == key;
        assert(key_spec(l[j].text) != key);
    }
    let k = find_key(l, key, 0)->0;
    assert(key_spec(l[k].text) == key);
}

/// The player's addition never leaves two lines with the same dedup key.
pub proof fn law_user_add_keeps_keys_distinct(l: Seq<FactModel>, raw: Seq<char>, turn: u32)
    requires
        keys_distinct(l),
    ensures
        keys_distinct(user_add_spec(l, raw, turn).0),
{
    let text = line_spec(raw);
    let key = key_spec(text);
    lemma_find_key(l, key, 0);
    if text.len() > 0 {
        match find_key(l, key, 0) {
            Some(i) => {
                let f = FactModel { score: sat_add_u32(l[i].score, SCORE_USER_EDIT), origin: FactOrigin::User, ..l[i] };
                let u = l.update(i, f);
                assert forall|a: int, b: int| 0 <= a < b < u.len() implies #[trigger] key_spec(u[a].text) != #[trigger] key_spec(u[b].text) by {
                    assert(u[a].text == l[a].text && u[b].text == l[b].text);
                }
            },
            None => {
                lemma_find_key_none(l, key, 0);
                let v = if l.len() >= FACTS_MAX {
                    victim(l)
                } else {
                    None
                };
                if l.len() >= FACTS_MAX {
                    lemma_victim_from(l, 1, 0);
                }
                let l1 = match v {
                    Some(k) => l.remove(k),
                    None => l,
                };
                let f = FactModel { id: next_id_spec(l1), origin: FactOrigin::User, text, turn, score: SCORE_USER_NEW };
                let r = l1.push(f);
                assert(user_add_spec(l, raw, turn).0 == r);
                assert forall|a: int, b: int| 0 <= a < b < r.len() implies #[trigger] key_spec(r[a].text) != #[trigger] key_spec(r[b].text) by {
                    let a2 = match v {
                        Some(k) => if a < k { a } else { a + 1 },
                        None => a,
                    };
                    assert(r[a] == l[a2]);
                    if b < l1.len() {
                        let b2 = match v {
                            Some(k) => if b < k { b } else { b + 1 },
                            None => b,
                        };
                        assert(r[b] == l[b2]);
                    } else {
                        assert(r[b] == f);
                    }
                }
            },
        }
    }
}

proof fn lemma_gm_step_bound(l: Seq<FactModel>, raw: Seq<char>, turn: u32)
    requires
        l.len() <= FACTS_MAX,
    ensures
        gm_step(l, raw, turn).0.len() <= FACTS_MAX,
{
    lemma_find_key(l, key_spec(line_spec(raw)), 0);
    if l.len() >= FACTS_MAX {
        lemma_victim_from(l, 1, 0);
    }
}

/// The narrator's proposals never grow the list past `FACTS_MAX` lines.
pub proof fn law_gm_facts_stay_within_limit(l: Seq<FactModel>, adds: Seq<Seq<char>>, turn: u32)
    requires
        l.len() <= FACTS_MAX,
    ensures
        gm_facts_spec(l, adds, turn).0.len() <= FACTS_MAX,
    decreases adds.len(),
{
    if adds.len() > 0 {
        law_gm_facts_stay_within_limit(l, adds.drop_last(), turn);
        lemma_gm_step_bound(gm_facts_spec(l, adds.drop_last(), turn).0, adds.last(), turn);
    }
}

/// The player's addition never grows the list past `FACTS_MAX` lines, and a
/// line that is not blank always lands (its id is returned).
pub proof fn law_user_add_lands_within_limit(l: Seq<FactModel>, raw: Seq<char>, turn: u32)
    requires
        l.len() <= FACTS_MAX,
    ensures
        user_add_spec(l, raw, turn).0.len() <= FACTS_MAX,
        line_spec(raw).len() > 0 ==> user_add_spec(l, raw, turn).1 is Some,
{
    lemma_find_key(l, key_spec(line_spec(raw)), 0);
    if l.len() >= FACTS_MAX {
        lemma_victim_from(l, 1, 0);
    }
}

proof fn lemma_display_order(l: Seq<FactModel>)
    ensures
        display_order(l).to_multiset() == l.to_multiset(),
        display_order(l).len() == l.len(),
        forall|a: int, b: int|
            0 <= a < b < display_order(l).len() ==> !shown_before(
                #[trigger] display_order(l)[b],
                #[trigger] display_order(l)[a],
            ),
    decreases l.len(),
{
    broadcast use vstd::seq_lib::group_to_multiset_ensures;
    broadcast use vstd::multiset::group_multiset_properties;

    if l.len() > 0 {
        lemma_display_order(l.drop_last());
        let s = display_order(l.drop_last());
        let x = l.last();
        lemma_insert_pos(s, x, 0);
        let p = insert_pos(s, x, 0);
        let d = s.insert(p, x);
        assert(d == display_order(l));
        assert(l =~= l.drop_last().push(x));
        assert(d.to_multiset() =~= l.to_multiset()) by {
            assert(d.to_multiset() == s.to_multiset().insert(x));
            assert(l.drop_last().push(x).to_multiset() == l.drop_last().to_multiset().insert(x));
        }
        assert forall|a: int, b: int| 0 <= a < b < d.len() implies !shown_before(#[trigger] d[b], #[trigger] d[a]) by {
            if b < p {
                assert(d[a] == s[a] && d[b] == s[b]);
            } else if b == p {
                assert(d[b] == x);
                assert(d[a] == s[a]);
            } else if a < p {
                assert(d[b] == s[b - 1] && d[a] == s[a]);
                if shown_before(s[b - 1], s[a]) {
                    assert(!shown_before(s[b - 1], s[a]));
                }
            } else if a == p {
                assert(d[a] == x && d[b] == s[b - 1]);
                assert(shown_before(x, s[p]));
                if b - 1 > p {
                    assert(!shown_before(s[b - 1], s[p]));
                }
            } else {
                assert(d[a] == s[a - 1] && d[b] == s[b - 1]);
            }
        }
    }
}

/// The display order is the list itself, sorted: highest score first, lower id
/// first among equal scores.
pub proof fn law_display_order_sorts_the_list(l: Seq<FactModel>)
    ensures
        display_order(l).to_multiset() == l.to_multiset(),
        forall|a: int, b: int|
            0 <= a < b < display_order(l).len() ==> !shown_before(
                #[trigger] display_order(l)[b],
                #[trigger] display_order(l)[a],
            ),
{
    lemma_display_order(l);
}

proof fn lemma_find_key(l: Seq<FactModel>, key: Seq<char>, i: int)
    ensures
        match find_key(l, key, i) {
            Some(j) => 0 <= j < l.len() && key_spec(l[j].text) == key,
            None => true,
        },
    decreases l.len() - i,
{
    if 0 <= i < l.len() && key_spec(l[i].text) != key {
        lemma_find_key(l, key, i + 1);
    }
}

} // verus!
