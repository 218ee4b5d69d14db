//! Memoria: recall of authored lore (foreshadowing, character traits) at the
//! points where reaction beats fire.
//!
//! Memoria holds only immutable authored fragments — never mutable world state
//! (hit points, items, flags, places, numbers), which belongs to the engine
//! alone. A fragment has no field for such state, and `recall` takes `&self`.
use vstd::prelude::*;

use crate::engine::{fired_views, FiredModel, FiredTrigger};
use crate::strmap::str_eq;
use crate::turn::svs;

verus! {

broadcast use vstd::std_specs::vec::group_vec_axioms;

/// An authored lore fragment: its recall key, its alias keys and its text.
#[derive(Debug)]
pub struct MemoryFragment {
    /// The main recall key (the file name the fragment was loaded from).
    pub id: String,
    /// Alias keys: a cue equal to one of them recalls the fragment too.
    pub tags: Vec<String>,
    /// The text woven into the narration.
    pub text: String,
}

pub struct FragmentModel {
    pub id: Seq<char>,
    pub tags: Seq<Seq<char>>,
    pub text: Seq<char>,
}

impl View for MemoryFragment {
    type V = FragmentModel;

    open spec fn view(&self) -> FragmentModel {
        FragmentModel { id: self.id@, tags: svs(self.tags@), text: self.text@ }
    }
}

pub open spec fn fragment_views(s: Seq<MemoryFragment>) -> Seq<FragmentModel> {
    s.map_values(|f: MemoryFragment| f@)
}

fn copy_strings(v: &Vec<String>) -> (r: Vec<String>)
    ensures
        svs(r@) == svs(v@),
{
    let mut out: Vec<String> = Vec::new();
    let mut i: usize = 0;
    while i < v.len()
        invariant
            i <= v@.len(),
            svs(out@) =~= svs(v@).take(i as int),
        decreases v@.len() - i,
    {
        let ghost before = svs(out@);
        out.push(v[i].clone());
        assert(svs(out@) =~= before.push(v@[i as int]@));
        i = i + 1;
    }
    assert(svs(v@).take(i as int) =~= svs(v@));
    out
}

impl MemoryFragment {
    pub fn dup(&self) -> (r: MemoryFragment)
        ensures
            r@ == self@,
    {
        MemoryFragment { id: self.id.clone(), tags: copy_strings(&self.tags), text: self.text.clone() }
    }
}

/// Recall of lore by a cue. Recall reads and never changes anything.
pub trait Memoria {
    /// The fragments a cue recalls.
    spec fn recall_spec(&self, cue: Seq<char>) -> Seq<FragmentModel>;

    /// The fragments related to `cue`; empty when none is.
    fn recall(&self, cue: &str) -> (r: Vec<MemoryFragment>)
        ensures
            fragment_views(r@) == self.recall_spec(cue@),
    ;
}

/// The memoria that recalls nothing.
impl Memoria for () {
    open spec fn recall_spec(&self, cue: Seq<char>) -> Seq<FragmentModel> {
        Seq::empty()
    }

    fn recall(&self, cue: &str) -> (r: Vec<MemoryFragment>) {
        let r: Vec<MemoryFragment> = Vec::new();
        assert(fragment_views(r@) =~= Seq::<FragmentModel>::empty());
        r
    }
}

/// Loaded fragments, recalled by an exact match of the cue with the id or
/// one of the tags, in authored order.
#[derive(Debug)]
pub struct LoreStore {
    pub fragments: Vec<MemoryFragment>,
}

impl View for LoreStore {
    type V = Seq<FragmentModel>;

    open spec fn view(&self) -> Seq<FragmentModel> {
        fragment_views(self.fragments@)
    }
}

/// Whether a cue recalls a fragment: it is the id or one of the tags.
pub open spec fn cue_matches(f: FragmentModel, cue: Seq<char>) -> bool {
    f.id == cue || f.tags.contains(cue)
}

fn has_tag(tags: &Vec<String>, cue: &str) -> (b: bool)
    ensures
        b == svs(tags@).contains(cue@),
{
    let mut i: usize = 0;
    while i < tags.len()
        invariant
            i <= tags@.len(),
            forall|j: int| 0 <= j < i ==> svs(tags@)[j] != cue@,
        decreases tags@.len() - i,
    {
        if str_eq(tags[i].as_str(), cue) {
            assert(svs(tags@)[i as int] == cue@);
            return true;
        }
        i = i + 1;
    }
    false
}

impl LoreStore {
    pub fn new(fragments: Vec<MemoryFragment>) -> (r: LoreStore)
        ensures
            r@ == fragment_views(fragments@),
    {
        LoreStore { fragments }
    }

    pub fn len(&self) -> (n: usize)
        ensures
            n == self@.len(),
    {
        self.fragments.len()
    }

    pub fn is_empty(&self) -> (b: bool)
        ensures
            b == (self@.len() == 0),
    {
        self.fragments.len() == 0
    }
}

impl Memoria for LoreStore {
    open spec fn recall_spec(&self, cue: Seq<char>) -> Seq<FragmentModel> {
        self@.filter(|f: FragmentModel| cue_matches(f, cue))
    }

    fn recall(&self, cue: &str) -> (r: Vec<MemoryFragment>) {
        let ghost fv = self@;
        let ghost pred = |f: FragmentModel| cue_matches(f, cue@);
        let mut out: Vec<MemoryFragment> = Vec::new();
        let mut i: usize = 0;
        assert(fv.take(0).filter(pred) =~= Seq::<FragmentModel>::empty());
        while i < self.fragments.len()
            invariant
                i <= self.fragments@.len(),
                fv == fragment_views(self.fragments@),
                pred == (|f: FragmentModel| cue_matches(f, cue@)),
                fragment_views(out@) == fv.take(i as int).filter(pred),
            decreases self.fragments@.len() - i,
        {
            let ghost before = fragment_views(out@);
            proof {
                assert(fv.take(i + 1) =~= fv.take(i as int).push(fv[i as int]));
                fv.take(i as int).lemma_filter_push(fv[i as int], pred);
            }
            let f = &self.fragments[i];
            assert(fv[i as int] == f@);
            if str_eq(f.id.as_str(), cue) || has_tag(&f.tags, cue) {
                out.push(f.dup());
                assert(fragment_views(out@) =~= before.push(f@));
            }
            i = i + 1;
        }
        assert(fv.take(i as int) =~= fv);
        out
    }
}

/// A fired reaction beat with the lore its cue recalled.
#[derive(Debug)]
pub struct FiredBeat {
    pub id: String,
    /// The authored narration of the trigger.
    pub narration: String,
    /// The fragments the trigger's cue recalled; empty without a cue or a match.
    pub recalled: Vec<MemoryFragment>,
}

pub struct BeatModel {
    pub id: Seq<char>,
    pub narration: Seq<char>,
    pub recalled: Seq<FragmentModel>,
}

impl View for FiredBeat {
    type V = BeatModel;

    open spec fn view(&self) -> BeatModel {
        BeatModel { id: self.id@, narration: self.narration@, recalled: fragment_views(self.recalled@) }
    }
}

pub open spec fn beat_views(s: Seq<FiredBeat>) -> Seq<BeatModel> {
    s.map_values(|b: FiredBeat| b@)
}

/// A fired trigger with its cue resolved against a memoria.
pub open spec fn resolve_spec<M: Memoria>(m: M, f: FiredModel) -> BeatModel {
    BeatModel {
        id: f.id,
        narration: f.narration,
        recalled: match f.recall {
            Some(cue) => m.recall_spec(cue),
            None => Seq::empty(),
        },
    }
}

/// Resolves the recall cue of each fired trigger, in order. Pure retrieval:
/// nothing of the world state is read or changed.
pub fn resolve_recall<M: Memoria>(memoria: &M, fired: &[FiredTrigger]) -> (r: Vec<FiredBeat>)
    ensures
        beat_views(r@) == fired_views(fired@).map_values(|f: FiredModel| resolve_spec(*memoria, f)),
{
    let ghost want = fired_views(fired@).map_values(|f: FiredModel| resolve_spec(*memoria, f));
    let mut out: Vec<FiredBeat> = Vec::new();
    let mut i: usize = 0;
    while i < fired.len()
        invariant
            i <= fired@.len(),
            want == fired_views(fired@).map_values(|f: FiredModel| resolve_spec(*memoria, f)),
            beat_views(out@) =~= want.take(i as int),
        decreases fired@.len() - i,
    {
        let f = &fired[i];
        let recalled = match &f.recall {
            Some(cue) => memoria.recall(cue.as_str()),
            None => {
                let v: Vec<MemoryFragment> = Vec::new();
                assert(fragment_views(v@) =~= Seq::<FragmentModel>::empty());
                v
            },
        };
        let ghost before = beat_views(out@);
        let b = FiredBeat { id: f.id.clone(), narration: f.narration.clone(), recalled };
        assert(b@ == want[i as int]);
        out.push(b);
        assert(beat_views(out@) =~= before.push(want[i as int]));
        i = i + 1;
    }
    out
}

} // verus!
