//! The synopsis: the long-term story memory. Old chronicle lines are compressed
//! into append-only chapter summaries.
//!
//! Compression happens on overflow (too many uncompressed lines; the most
//! recent ones are kept) and on a module transition (the whole chapter). A
//! failed transition job is frozen and retried on exactly the same range.
use vstd::prelude::*;

use crate::text::{dec, dec_spec, join, join_spec, trim, trim_spec, truncate_chars, truncate_spec};
use crate::turn::{log_views, svs, TurnLog, TurnLogModel};

verus! {

broadcast use vstd::std_specs::vec::group_vec_axioms;

/// The most characters of a chapter summary.
pub const SYNOPSIS_TEXT_MAX: usize = 400;

/// Compress when more uncompressed lines than this exist.
pub const SYNOPSIS_OVERFLOW_THRESHOLD: usize = 20;

/// The most recent lines always left uncompressed on overflow.
pub const SYNOPSIS_KEEP_RECENT: usize = 10;

/// Below this many lines a transition joins them mechanically instead of summarizing.
pub const SYNOPSIS_MIN_LLM_TURNS: usize = 3;

/// One chapter. Never changes once written.
#[derive(Debug)]
pub struct SynopsisEntry {
    /// The last turn the chapter covers (inclusive).
    pub upto_turn: u32,
    pub title: String,
    pub text: String,
}

pub struct EntryModel {
    pub upto_turn: u32,
    pub title: Seq<char>,
    pub text: Seq<char>,
}

impl View for SynopsisEntry {
    type V = EntryModel;

    open spec fn view(&self) -> EntryModel {
        EntryModel { upto_turn: self.upto_turn, title: self.title@, text: self.text@ }
    }
}

pub open spec fn entry_views(s: Seq<SynopsisEntry>) -> Seq<EntryModel> {
    s.map_values(|e: SynopsisEntry| e@)
}

/// What started a compression job.
#[derive(Clone, Copy, PartialEq, Eq, Structural, Debug)]
pub enum SynopsisTrigger {
    Overflow,
    Transition,
}

/// A compression job: the inclusive range of turns and the chapter title.
#[derive(Debug, PartialEq, Eq)]
pub struct SynopsisJob {
    pub start: u32,
    pub end: u32,
    pub title: String,
    pub trigger: SynopsisTrigger,
}

pub struct JobModel {
    pub start: u32,
    pub end: u32,
    pub title: Seq<char>,
    pub trigger: SynopsisTrigger,
}

impl View for SynopsisJob {
    type V = JobModel;

    open spec fn view(&self) -> JobModel {
        JobModel { start: self.start, end: self.end, title: self.title@, trigger: self.trigger }
    }
}

impl SynopsisJob {
    pub fn dup(&self) -> (r: SynopsisJob)
        ensures
            r@ == self@,
    {
        SynopsisJob { start: self.start, end: self.end, title: self.title.clone(), trigger: self.trigger }
    }
}

/// The chapters (oldest first) and the frozen transition job, if any.
#[derive(Debug)]
pub struct Synopsis {
    pub entries: Vec<SynopsisEntry>,
    pub pending_transition: Option<SynopsisJob>,
}

impl Default for Synopsis {
    /// No chapter and nothing frozen.
    fn default() -> (r: Synopsis)
        ensures
            r@.entries.len() == 0,
            r@.pending is None,
    {
        Synopsis { entries: Vec::new(), pending_transition: None }
    }
}

pub struct SynopsisModel {
    pub entries: Seq<EntryModel>,
    pub pending: Option<JobModel>,
}

impl View for Synopsis {
    type V = SynopsisModel;

    open spec fn view(&self) -> SynopsisModel {
        SynopsisModel {
            entries: entry_views(self.entries@),
            pending: match self.pending_transition {
                Some(j) => Some(j@),
                None => None,
            },
        }
    }
}

// ---------------------------------------------------------------------------
// The rules, as mathematics.
// ---------------------------------------------------------------------------

/// The last turn covered by a chapter (0 when there is none).
pub open spec fn upto_spec(es: Seq<EntryModel>) -> u32 {
    if es.len() == 0 {
        0
    } else {
        es.last().upto_turn
    }
}

/// The chronicle lines not yet compressed.
pub open spec fn uncompressed(upto: u32, h: Seq<TurnLogModel>) -> Seq<TurnLogModel> {
    h.filter(|l: TurnLogModel| l.turn > upto)
}

/// The chronicle lines of a job's range.
pub open spec fn logs_in(h: Seq<TurnLogModel>, start: u32, end: u32) -> Seq<TurnLogModel> {
    h.filter(|l: TurnLogModel| start <= l.turn <= end)
}

pub open spec fn range_title(start: u32, end: u32) -> Seq<char> {
    "ターン "@ + dec_spec(start as nat) + "〜"@ + dec_spec(end as nat)
}

/// The job to run this turn: the frozen transition job if there is one; else,
/// when more than `SYNOPSIS_OVERFLOW_THRESHOLD` lines are uncompressed, the
/// range from the first uncompressed turn up to the line before the most
/// recent `SYNOPSIS_KEEP_RECENT`.
pub open spec fn next_job_spec(sm: SynopsisModel, h: Seq<TurnLogModel>) -> Option<JobModel> {
    match sm.pending {
        Some(p) => Some(p),
        None => {
            let upto = upto_spec(sm.entries);
            let unc = uncompressed(upto, h);
            if unc.len() <= SYNOPSIS_OVERFLOW_THRESHOLD {
                None
            } else {
                let start = (upto + 1) as u32;
                let end = unc[unc.len() - 1 - SYNOPSIS_KEEP_RECENT].turn;
                Some(JobModel { start, end, title: range_title(start, end), trigger: SynopsisTrigger::Overflow })
            }
        },
    }
}

/// A chapter appended for a job, unless the job ends at or before the
/// covered turns (nothing is ever rewritten).
pub open spec fn push_entry_spec(es: Seq<EntryModel>, j: JobModel, text: Seq<char>) -> Seq<EntryModel> {
    if j.end <= upto_spec(es) {
        es
    } else {
        es.push(EntryModel { upto_turn: j.end, title: j.title, text: truncate_spec(trim_spec(text), SYNOPSIS_TEXT_MAX as nat) })
    }
}

/// A chronicle line for the mechanical join: turn, summary, and the location
/// and items as tags.
pub open spec fn join_line(l: TurnLogModel) -> Seq<char> {
    let tags = (if l.location.len() > 0 {
        seq![l.location]
    } else {
        seq![]
    }) + (if l.items.len() > 0 {
        seq![join_spec(l.items, "・"@)]
    } else {
        seq![]
    });
    "T"@ + dec_spec(l.turn as nat) + " "@ + l.summary + if tags.len() > 0 {
        "〔"@ + join_spec(tags, "／"@) + "〕"@
    } else {
        seq![]
    }
}

/// Lines joined without a summarizer, cut to `SYNOPSIS_TEXT_MAX`.
pub open spec fn mechanical_join_spec(ls: Seq<TurnLogModel>) -> Seq<char> {
    truncate_spec(join_spec(ls.map_values(|l: TurnLogModel| join_line(l)), "\n"@), SYNOPSIS_TEXT_MAX as nat)
}

/// A transition: the frozen job (if any) is joined mechanically first; then the
/// uncompressed lines form the chapter — joined mechanically when fewer than
/// `SYNOPSIS_MIN_LLM_TURNS`, else handed back as a job to summarize.
pub open spec fn on_transition_spec(sm: SynopsisModel, h: Seq<TurnLogModel>, title: Seq<char>) -> (SynopsisModel, Option<JobModel>) {
    let es1 = match sm.pending {
        Some(p) => push_entry_spec(sm.entries, p, mechanical_join_spec(logs_in(h, p.start, p.end))),
        None => sm.entries,
    };
    let upto = upto_spec(es1);
    let unc = uncompressed(upto, h);
    if unc.len() == 0 {
        (SynopsisModel { entries: es1, pending: None }, None)
    } else {
        let job = JobModel { start: (upto + 1) as u32, end: unc.last().turn, title, trigger: SynopsisTrigger::Transition };
        if unc.len() < SYNOPSIS_MIN_LLM_TURNS {
            (SynopsisModel { entries: push_entry_spec(es1, job, mechanical_join_spec(unc)), pending: None }, None)
        } else {
            (SynopsisModel { entries: es1, pending: None }, Some(job))
        }
    }
}

/// A finished summary: the frozen job (if it is this one) is released and the
/// chapter appended.
pub open spec fn complete_spec(sm: SynopsisModel, j: JobModel, text: Seq<char>) -> SynopsisModel {
    SynopsisModel {
        entries: push_entry_spec(sm.entries, j, text),
        pending: if sm.pending == Some(j) {
            None
        } else {
            sm.pending
        },
    }
}

/// A failed summary: a transition job is frozen for an identical retry.
pub open spec fn abandon_spec(sm: SynopsisModel, j: JobModel) -> SynopsisModel {
    if j.trigger == SynopsisTrigger::Transition {
        SynopsisModel { pending: Some(j), ..sm }
    } else {
        sm
    }
}

// ---------------------------------------------------------------------------
// The rules.
// ---------------------------------------------------------------------------

pub open spec fn ref_log_views(s: Seq<&TurnLog>) -> Seq<TurnLogModel> {
    s.map_values(|l: &TurnLog| l@)
}

/// The lines whose turn is after `upto`.
fn logs_after<'a>(h: &'a Vec<TurnLog>, upto: u32) -> (r: Vec<&'a TurnLog>)
    ensures
        ref_log_views(r@) == uncompressed(upto, log_views(h@)),
{
    let ghost hv = log_views(h@);
    let mut out: Vec<&TurnLog> = Vec::new();
    let mut i: usize = 0;
    assert(hv.take(0).filter(|l: TurnLogModel| l.turn > upto) =~= Seq::<TurnLogModel>::empty());
    while i < h.len()
        invariant
            i <= h@.len(),
            hv == log_views(h@),
            ref_log_views(out@) == hv.take(i as int).filter(|l: TurnLogModel| l.turn > upto),
        decreases h@.len() - i,
    {
        let ghost before = ref_log_views(out@);
        proof {
            assert(hv.take(i + 1) =~= hv.take(i as int).push(hv[i as int]));
            hv.take(i as int).lemma_filter_push(hv[i as int], |l: TurnLogModel| l.turn > upto);
        }
        assert(hv[i as int] == h@[i as int]@);
        if h[i].turn > upto {
            out.push(&h[i]);
            assert(ref_log_views(out@) =~= before.push(h@[i as int]@));
        }
        i = i + 1;
    }
    assert(hv.take(i as int) =~= hv);
    out
}

/// The lines of the range `[start, end]`.
fn logs_between<'a>(h: &'a Vec<TurnLog>, start: u32, end: u32) -> (r: Vec<&'a TurnLog>)
    ensures
        ref_log_views(r@) == logs_in(log_views(h@), start, end),
{
    let ghost hv = log_views(h@);
    let mut out: Vec<&TurnLog> = Vec::new();
    let mut i: usize = 0;
    assert(hv.take(0).filter(|l: TurnLogModel| start <= l.turn <= end) =~= Seq::<TurnLogModel>::empty());
    while i < h.len()
        invariant
            i <= h@.len(),
            hv == log_views(h@),
            ref_log_views(out@) == hv.take(i as int).filter(|l: TurnLogModel| start <= l.turn <= end),
        decreases h@.len() - i,
    {
        let ghost before = ref_log_views(out@);
        proof {
            assert(hv.take(i + 1) =~= hv.take(i as int).push(hv[i as int]));
            hv.take(i as int).lemma_filter_push(hv[i as int], |l: TurnLogModel| start <= l.turn <= end);
        }
        assert(hv[i as int] == h@[i as int]@);
        if start <= h[i].turn && h[i].turn <= end {
            out.push(&h[i]);
            assert(ref_log_views(out@) =~= before.push(h@[i as int]@));
        }
        i = i + 1;
    }
    assert(hv.take(i as int) =~= hv);
    out
}

fn join_line_exec(l: &TurnLog) -> (r: String)
    ensures
        r@ == join_line(l@),
{
    let mut tags: Vec<String> = Vec::new();
    if l.location.unicode_len() > 0 {
        tags.push(l.location.clone());
    }
    let ghost t1 = svs(tags@);
    if l.items.len() > 0 {
        let j = join(&l.items, "・");
        assert(l.items@.map_values(|p: String| p@) == svs(l.items@));
        tags.push(j);
    }
    let ghost tv = svs(tags@);
    assert(tv =~= (if l@.location.len() > 0 {
        seq![l@.location]
    } else {
        seq![]
    }) + (if l@.items.len() > 0 {
        seq![join_spec(l@.items, "・"@)]
    } else {
        seq![]
    }));
    let mut s = String::from_str("T");
    let d = dec(l.turn as u64);
    s.append(d.as_str());
    s.append(" ");
    s.append(l.summary.as_str());
    if tags.len() > 0 {
        s.append("〔");
        let j = join(&tags, "／");
        assert(tags@.map_values(|p: String| p@) == tv);
        s.append(j.as_str());
        s.append("〕");
    }
    s
}

/// The lines joined without a summarizer (see `mechanical_join_spec`).
pub fn mechanical_join(logs: &Vec<&TurnLog>) -> (r: String)
    ensures
        r@ == mechanical_join_spec(ref_log_views(logs@)),
{
    let ghost lv = ref_log_views(logs@);
    let mut lines: Vec<String> = Vec::new();
    let mut i: usize = 0;
    while i < logs.len()
        invariant
            i <= logs@.len(),
            lv == ref_log_views(logs@),
            svs(lines@) =~= lv.take(i as int).map_values(|l: TurnLogModel| join_line(l)),
        decreases logs@.len() - i,
    {
        let ghost before = svs(lines@);
        let line = join_line_exec(logs[i]);
        lines.push(line);
        assert(svs(lines@) =~= before.push(line@));
        assert(lv.take(i + 1).map_values(|l: TurnLogModel| join_line(l)) =~= lv.take(i as int).map_values(
            |l: TurnLogModel| join_line(l),
        ).push(join_line(lv[i as int])));
        i = i + 1;
    }
    assert(lv.take(i as int) =~= lv);
    let all = join(&lines, "\n");
    assert(lines@.map_values(|p: String| p@) == svs(lines@));
    truncate_chars(all.as_str(), SYNOPSIS_TEXT_MAX)
}

impl Synopsis {
    /// The last turn covered by a chapter (0 when there is none).
    pub fn compressed_upto(&self) -> (r: u32)
        ensures
            r == upto_spec(self@.entries),
    {
        if self.entries.len() == 0 {
            0
        } else {
            self.entries[self.entries.len() - 1].upto_turn
        }
    }

    /// The job to run this turn (see `next_job_spec`).
    pub fn next_job(&self, history: &Vec<TurnLog>) -> (r: Option<SynopsisJob>)
        requires
            upto_spec(self@.entries) < u32::MAX,
        ensures
            match r {
                Some(j) => next_job_spec(self@, log_views(history@)) == Some(j@),
                None => next_job_spec(self@, log_views(history@)) is None,
            },
    {
        match &self.pending_transition {
            Some(p) => {
                return Some(p.dup());
            },
            None => {},
        }
        let upto = self.compressed_upto();
        let unc = logs_after(history, upto);
        if unc.len() <= SYNOPSIS_OVERFLOW_THRESHOLD {
            return None;
        }
        let end = unc[unc.len() - 1 - SYNOPSIS_KEEP_RECENT].turn;
        let start = upto + 1;
        let mut title = String::from_str("ターン ");
        let a = dec(start as u64);
        title.append(a.as_str());
        title.append("〜");
        let b = dec(end as u64);
        title.append(b.as_str());
        Some(SynopsisJob { start, end, title, trigger: SynopsisTrigger::Overflow })
    }

    /// Appends a chapter for a job unless it would rewrite covered turns.
    fn push_entry(&mut self, job: &SynopsisJob, text: &str)
        ensures
            final(self)@ == (SynopsisModel { entries: push_entry_spec(old(self)@.entries, job@, text@), ..old(self)@ }),
    {
        if job.end <= self.compressed_upto() {
            return;
        }
        let t = trim(text);
        let e = SynopsisEntry {
            upto_turn: job.end,
            title: job.title.clone(),
            text: truncate_chars(t.as_str(), SYNOPSIS_TEXT_MAX),
        };
        let ghost before = self.entries@;
        self.entries.push(e);
        assert(entry_views(self.entries@) =~= entry_views(before).push(e@));
    }

    /// A module transition (see `on_transition_spec`).
    pub fn on_transition(&mut self, history: &Vec<TurnLog>, module_title: &str) -> (r: Option<SynopsisJob>)
        ensures
            ({
                let (sm, j) = on_transition_spec(old(self)@, log_views(history@), module_title@);
                &&& final(self)@ == sm
                &&& match r {
                    Some(x) => j == Some(x@),
                    None => j is None,
                }
            }),
    {
        let pending = self.pending_transition.take();
        match pending {
            Some(p) => {
                let logs = logs_between(history, p.start, p.end);
                let text = mechanical_join(&logs);
                self.push_entry(&p, text.as_str());
            },
            None => {},
        }
        let upto = self.compressed_upto();
        let unc = logs_after(history, upto);
        if unc.len() == 0 {
            return None;
        }
        if upto == u32::MAX {
            proof {
                let l = ref_log_views(unc@)[0];
                assert(l.turn > upto);
            }
            return None;
        }
        let job = SynopsisJob {
            start: upto + 1,
            end: unc[unc.len() - 1].turn,
            title: String::from_str(module_title),
            trigger: SynopsisTrigger::Transition,
        };
        if unc.len() < SYNOPSIS_MIN_LLM_TURNS {
            let text = mechanical_join(&unc);
            self.push_entry(&job, text.as_str());
            return None;
        }
        Some(job)
    }

    /// A finished summary (see `complete_spec`).
    pub fn complete(&mut self, job: &SynopsisJob, text: &str)
        ensures
            final(self)@ == complete_spec(old(self)@, job@, text@),
    {
        let same = match &self.pending_transition {
            Some(p) => p.start == job.start && p.end == job.end && crate::strmap::str_eq(
                p.title.as_str(),
                job.title.as_str(),
            ) && p.trigger == job.trigger,
            None => false,
        };
        if same {
            self.pending_transition = None;
        }
        self.push_entry(job, text);
    }

    /// A failed summary (see `abandon_spec`).
    pub fn abandon(&mut self, job: &SynopsisJob)
        ensures
            final(self)@ == abandon_spec(old(self)@, job@),
    {
        if job.trigger == SynopsisTrigger::Transition {
            self.pending_transition = Some(job.dup());
        }
    }
}

// ---------------------------------------------------------------------------
// The summarizer's request.
// ---------------------------------------------------------------------------

/// What the summarizer is asked: the chapter title, the grounded chronicle
/// lines (oldest first) and the end of the previous chapter (style only).
#[derive(Debug)]
pub struct SynopsisRequest {
    pub title: String,
    pub lines: Vec<String>,
    pub prev_tail: String,
}

pub struct RequestModel {
    pub title: Seq<char>,
    pub lines: Seq<Seq<char>>,
    pub prev_tail: Seq<char>,
}

impl View for SynopsisRequest {
    type V = RequestModel;

    open spec fn view(&self) -> RequestModel {
        RequestModel { title: self.title@, lines: svs(self.lines@), prev_tail: self.prev_tail@ }
    }
}

/// A tag `label` + the items joined, when there are items.
pub open spec fn list_tag(label: Seq<char>, xs: Seq<Seq<char>>) -> Seq<Seq<char>> {
    if xs.len() > 0 {
        seq![label + join_spec(xs, "・"@)]
    } else {
        seq![]
    }
}

/// The engine's facts of a turn as tags: place, who was present, flags set,
/// items and checks.
pub open spec fn grounded_tags(l: TurnLogModel) -> Seq<Seq<char>> {
    (if l.location.len() > 0 {
        seq!["場所:"@ + l.location]
    } else {
        seq![]
    }) + list_tag("同席:"@, l.present) + list_tag("成立:"@, l.flags_set) + list_tag("持物:"@, l.items)
        + list_tag("判定:"@, l.checks)
}

/// A chronicle line grounded in the engine's facts, for the summarizer.
pub open spec fn grounded_line_spec(l: TurnLogModel) -> Seq<char> {
    let tags = grounded_tags(l);
    "T"@ + dec_spec(l.turn as nat) + " プレイヤー「"@ + l.player + "」→ "@ + l.summary + if tags.len() > 0 {
        "〔"@ + join_spec(tags, "／"@) + "〕"@
    } else {
        seq![]
    }
}

/// The position of the last `。` before position `k`, or -1.
pub open spec fn last_mark_before(s: Seq<char>, k: int) -> int
    decreases k,
{
    if k <= 0 || k > s.len() {
        -1
    } else if s[k - 1] == '。' {
        k - 1
    } else {
        last_mark_before(s, k - 1)
    }
}

/// The end of a chapter text used as a style bridge: its last two sentences
/// (split after each `。`), trimmed; with a single sentence, that sentence
/// trimmed and cut to 80 characters; nothing for an empty text.
pub open spec fn tail_spec(s: Seq<char>) -> Seq<char> {
    if s.len() == 0 {
        Seq::empty()
    } else {
        let a = last_mark_before(s, s.len() - 1) + 1;
        if a <= 0 {
            truncate_spec(trim_spec(s), 80)
        } else {
            let b = last_mark_before(s, a - 1) + 1;
            trim_spec(s.subrange(b, s.len() as int))
        }
    }
}

proof fn lemma_last_mark(s: Seq<char>, k: int)
    ensures
        -1 <= last_mark_before(s, k) < if k > s.len() {
            0
        } else if k < 0 {
            0
        } else {
            k
        },
        last_mark_before(s, k) >= 0 ==> s[last_mark_before(s, k)] == '。',
    decreases k,
{
    if 0 < k <= s.len() && s[k - 1] != '。' {
        lemma_last_mark(s, k - 1);
    }
}

/// One past the last `。` before position `k` (0 when there is none).
fn start_after_mark(s: &str, k: usize) -> (r: usize)
    requires
        k <= s@.len(),
    ensures
        r == last_mark_before(s@, k as int) + 1,
{
    let mut i: usize = k;
    while i > 0
        invariant
            i <= k,
            k <= s@.len(),
            last_mark_before(s@, k as int) == last_mark_before(s@, i as int),
        decreases i,
    {
        if s.get_char(i - 1) == '。' {
            return i;
        }
        i = i - 1;
    }
    0
}

/// See `tail_spec`.
fn tail_of(text: &str) -> (r: String)
    ensures
        r@ == tail_spec(text@),
{
    let n = text.unicode_len();
    if n == 0 {
        return String::new();
    }
    proof {
        lemma_last_mark(text@, n - 1);
    }
    let a = start_after_mark(text, n - 1);
    if a == 0 {
        let t = trim(text);
        return truncate_chars(t.as_str(), 80);
    }
    proof {
        lemma_last_mark(text@, a - 1);
    }
    let b = start_after_mark(text, a - 1);
    let piece = text.substring_char(b, n);
    trim(piece)
}

fn list_tag_exec(tags: &mut Vec<String>, label: &str, xs: &Vec<String>)
    ensures
        svs(final(tags)@) == svs(old(tags)@) + list_tag(label@, svs(xs@)),
{
    let ghost before = svs(tags@);
    if xs.len() > 0 {
        let mut t = String::from_str(label);
        let j = join(xs, "・");
        assert(xs@.map_values(|p: String| p@) == svs(xs@));
        t.append(j.as_str());
        tags.push(t);
        assert(svs(tags@) =~= before + list_tag(label@, svs(xs@)));
    } else {
        assert(svs(tags@) =~= before + list_tag(label@, svs(xs@)));
    }
}

/// See `grounded_line_spec`.
fn grounded_line(l: &TurnLog) -> (r: String)
    ensures
        r@ == grounded_line_spec(l@),
{
    let mut tags: Vec<String> = Vec::new();
    if l.location.unicode_len() > 0 {
        let mut t = String::from_str("場所:");
        t.append(l.location.as_str());
        tags.push(t);
    }
    assert(svs(tags@) =~= (if l@.location.len() > 0 {
        seq!["場所:"@ + l@.location]
    } else {
        seq![]
    }));
    list_tag_exec(&mut tags, "同席:", &l.present);
    list_tag_exec(&mut tags, "成立:", &l.flags_set);
    list_tag_exec(&mut tags, "持物:", &l.items);
    list_tag_exec(&mut tags, "判定:", &l.checks);
    assert(svs(tags@) =~= grounded_tags(l@));
    let mut s = String::from_str("T");
    let d = dec(l.turn as u64);
    s.append(d.as_str());
    s.append(" プレイヤー「");
    s.append(l.player.as_str());
    s.append("」→ ");
    s.append(l.summary.as_str());
    if tags.len() > 0 {
        s.append("〔");
        let j = join(&tags, "／");
        assert(tags@.map_values(|p: String| p@) == svs(tags@));
        s.append(j.as_str());
        s.append("〕");
    }
    s
}

/// The request for a job: its title, the grounded lines of its range, and the
/// end of the last chapter.
pub open spec fn build_request_spec(sm: SynopsisModel, h: Seq<TurnLogModel>, j: JobModel) -> RequestModel {
    RequestModel {
        title: j.title,
        lines: logs_in(h, j.start, j.end).map_values(|l: TurnLogModel| grounded_line_spec(l)),
        prev_tail: if sm.entries.len() == 0 {
            Seq::empty()
        } else {
            tail_spec(sm.entries.last().text)
        },
    }
}

impl Synopsis {
    /// The request for a job (see `build_request_spec`).
    pub fn build_request(&self, history: &Vec<TurnLog>, job: &SynopsisJob) -> (r: SynopsisRequest)
        ensures
            r@ == build_request_spec(self@, log_views(history@), job@),
    {
        let logs = logs_between(history, job.start, job.end);
        let ghost lv = ref_log_views(logs@);
        let mut lines: Vec<String> = Vec::new();
        let mut i: usize = 0;
        while i < logs.len()
            invariant
                i <= logs@.len(),
                lv == ref_log_views(logs@),
                svs(lines@) =~= lv.take(i as int).map_values(|l: TurnLogModel| grounded_line_spec(l)),
            decreases logs@.len() - i,
        {
            let ghost before = svs(lines@);
            let line = grounded_line(logs[i]);
            lines.push(line);
            assert(svs(lines@) =~= before.push(line@));
            assert(lv.take(i + 1).map_values(|l: TurnLogModel| grounded_line_spec(l)) =~= lv.take(i as int).map_values(
                |l: TurnLogModel| grounded_line_spec(l),
            ).push(grounded_line_spec(lv[i as int])));
            i = i + 1;
        }
        assert(lv.take(i as int) =~= lv);
        let prev_tail = if self.entries.len() == 0 {
            String::new()
        } else {
            tail_of(self.entries[self.entries.len() - 1].text.as_str())
        };
        SynopsisRequest { title: job.title.clone(), lines, prev_tail }
    }
}

/// The summarizer's standing orders: only the given records, no invention,
/// names as recorded, the previous chapter's end for style only, the summary
/// text alone.
pub const SYNOPSIS_SYSTEM: &'static str = "あなたは TRPG セッションの記録係です。渡された確定記録だけを素材に、この章のあらすじを 400 字以内で書いてください。\n規律:\n- 記録に無い新事実を発明しない。解釈や推測を書かない。\n- 固有名 (人物・場所・アイテム) は記録の表記のまま使う。\n- 「前章の末尾」は文体の接続のみに参照し、事実の出典として使わない。\n- 出力はあらすじ本文のみ (前置き・見出し・箇条書きを付けない)。";

/// The summarizer's task text: title, previous chapter's end (or a note that
/// this is the first chapter) and the records.
pub open spec fn user_prompt_spec(r: RequestModel) -> Seq<char> {
    "# 章題\n"@ + r.title + "\n\n# 前章の末尾 (文体接続用・事実の出典にしない)\n"@ + (if r.prev_tail.len() == 0 {
        "(なし — 最初の章)"@
    } else {
        r.prev_tail
    }) + "\n\n# 確定記録 (古い順)\n"@ + join_spec(r.lines, "\n"@)
}

impl SynopsisRequest {
    pub fn system_prompt(&self) -> (s: String)
        ensures
            s@ == SYNOPSIS_SYSTEM@,
    {
        String::from_str(SYNOPSIS_SYSTEM)
    }

    pub fn user_prompt(&self) -> (s: String)
        ensures
            s@ == user_prompt_spec(self@),
    {
        let mut s = String::from_str("# 章題\n");
        s.append(self.title.as_str());
        s.append("\n\n# 前章の末尾 (文体接続用・事実の出典にしない)\n");
        if self.prev_tail.unicode_len() == 0 {
            s.append("(なし — 最初の章)");
        } else {
            s.append(self.prev_tail.as_str());
        }
        s.append("\n\n# 確定記録 (古い順)\n");
        let j = join(&self.lines, "\n");
        assert(self.lines@.map_values(|p: String| p@) == svs(self.lines@));
        s.append(j.as_str());
        s
    }
}

// ---------------------------------------------------------------------------
// Laws.
// ---------------------------------------------------------------------------

/// Chapters are ordered by the turn they cover, strictly, and none is longer
/// than `SYNOPSIS_TEXT_MAX`.
pub open spec fn chapters_wf(es: Seq<EntryModel>) -> bool {
    &&& forall|i: int, j: int| 0 <= i < j < es.len() ==> es[i].upto_turn < es[j].upto_turn
    &&& forall|i: int| 0 <= i < es.len() ==> #[trigger] es[i].text.len() <= SYNOPSIS_TEXT_MAX
}

proof fn lemma_truncate_len(s: Seq<char>, max: nat)
    requires
        max >= 1,
    ensures
        truncate_spec(s, max).len() <= max,
{
    reveal_strlit("…");
}

proof fn lemma_push_entry(es: Seq<EntryModel>, j: JobModel, text: Seq<char>)
    ensures
        es.is_prefix_of(push_entry_spec(es, j, text)),
        upto_spec(es) <= upto_spec(push_entry_spec(es, j, text)),
        chapters_wf(es) ==> chapters_wf(push_entry_spec(es, j, text)),
{
    let r = push_entry_spec(es, j, text);
    lemma_truncate_len(trim_spec(text), SYNOPSIS_TEXT_MAX as nat);
    assert(es.is_prefix_of(r)) by {
        assert(r.take(es.len() as int) =~= es);
    }
    if chapters_wf(es) && j.end > upto_spec(es) {
        assert forall|a: int, b: int| 0 <= a < b < r.len() implies r[a].upto_turn < r[b].upto_turn by {
            if b == es.len() && a < es.len() - 1 {
                assert(es[a].upto_turn < es[es.len() - 1].upto_turn);
            }
        }
    }
}

proof fn lemma_prefix_trans(a: Seq<EntryModel>, b: Seq<EntryModel>, c: Seq<EntryModel>)
    requires
        a.is_prefix_of(b),
        b.is_prefix_of(c),
    ensures
        a.is_prefix_of(c),
{
    assert(c.take(a.len() as int) =~= a) by {
        assert(forall|i: int| 0 <= i < a.len() ==> c[i] == b[i] && b[i] == a[i]);
    }
}

/// Every step the synopsis can take — a transition, a finished summary, a
/// failed one — keeps the chapters already written as they were (the old list
/// is a prefix of the new one), never lowers the covered turn, and keeps the
/// chapters ordered and within `SYNOPSIS_TEXT_MAX` characters.
pub proof fn law_chapters_are_append_only(
    sm: SynopsisModel,
    h: Seq<TurnLogModel>,
    title: Seq<char>,
    job: JobModel,
    text: Seq<char>,
)
    ensures
        ({
            let after = on_transition_spec(sm, h, title).0;
            &&& sm.entries.is_prefix_of(after.entries)
            &&& upto_spec(sm.entries) <= upto_spec(after.entries)
            &&& chapters_wf(sm.entries) ==> chapters_wf(after.entries)
        }),
        ({
            let after = complete_spec(sm, job, text);
            &&& sm.entries.is_prefix_of(after.entries)
            &&& upto_spec(sm.entries) <= upto_spec(after.entries)
            &&& chapters_wf(sm.entries) ==> chapters_wf(after.entries)
        }),
        abandon_spec(sm, job).entries == sm.entries,
{
    lemma_push_entry(sm.entries, job, text);
    let es1 = match sm.pending {
        Some(p) => push_entry_spec(sm.entries, p, mechanical_join_spec(logs_in(h, p.start, p.end))),
        None => sm.entries,
    };
    match sm.pending {
        Some(p) => lemma_push_entry(sm.entries, p, mechanical_join_spec(logs_in(h, p.start, p.end))),
        None => {
            assert(sm.entries.take(sm.entries.len() as int) =~= sm.entries);
        },
    }
    let upto = upto_spec(es1);
    let unc = uncompressed(upto, h);
    if unc.len() > 0 && unc.len() < SYNOPSIS_MIN_LLM_TURNS {
        let j2 = JobModel { start: (upto + 1) as u32, end: unc.last().turn, title, trigger: SynopsisTrigger::Transition };
        lemma_push_entry(es1, j2, mechanical_join_spec(unc));
        lemma_prefix_trans(sm.entries, es1, push_entry_spec(es1, j2, mechanical_join_spec(unc)));
    }
}

/// A job computed on overflow starts right after the last chapter and ends no
/// earlier than it starts: chapters neither overlap nor leave a gap. The same
/// holds of the job a transition hands back.
pub proof fn law_jobs_start_after_the_chapters(sm: SynopsisModel, h: Seq<TurnLogModel>, title: Seq<char>)
    requires
        sm.pending is None,
        upto_spec(sm.entries) < u32::MAX,
    ensures
        next_job_spec(sm, h) matches Some(j) ==> j.start == upto_spec(sm.entries) + 1 && j.start <= j.end,
        on_transition_spec(sm, h, title).1 matches Some(j) ==> j.start == upto_spec(sm.entries) + 1 && j.start
            <= j.end && j.trigger == SynopsisTrigger::Transition,
{
    let upto = upto_spec(sm.entries);
    let unc = uncompressed(upto, h);
    if unc.len() > SYNOPSIS_OVERFLOW_THRESHOLD {
        let k = unc.len() - 1 - SYNOPSIS_KEEP_RECENT;
        assert(unc.contains(unc[k]));
        h.filter_lemma(|l: TurnLogModel| l.turn > upto);
    }
    if unc.len() > 0 {
        assert(unc.contains(unc.last()));
        h.filter_lemma(|l: TurnLogModel| l.turn > upto);
    }
}

/// A transition job whose summary failed is frozen and handed back unchanged,
/// range and title alike, until it is completed; completing it releases it.
pub proof fn law_failed_transition_is_retried_unchanged(sm: SynopsisModel, h: Seq<TurnLogModel>, job: JobModel, text: Seq<char>)
    requires
        job.trigger == SynopsisTrigger::Transition,
    ensures
        next_job_spec(abandon_spec(sm, job), h) == Some(job),
        complete_spec(abandon_spec(sm, job), job, text).pending is None,
{
}

} // verus!
