//! One turn of play: the narrator proposes, the engine judges. A rejected
//! proposal goes back to the narrator with the reasons; an accepted one is
//! applied atomically.
//!
//! Asking the narrator is outside work (an await on a remote model), so the
//! loop is a state machine here: `TurnLoop::start` builds the prompt, and
//! `TurnLoop::on_proposal` takes each proposal and says whether to ask again
//! or what the turn came to. The caller runs the loop.
use vstd::prelude::*;

use crate::brief::{scenario_brief, scenario_brief_spec, state_brief, state_brief_spec};
use crate::engine::{
    adjudicate_spec, apply, apply_spec, check_views, fired_views, CheckModel, CheckOutcome, FiredModel,
    FiredTrigger, RollOutcome, Verdict, VerdictModel,
};
use crate::memoria::{fragment_views, FragmentModel, MemoryFragment};
use crate::prompt::{
    check_outcome_note, check_outcome_spec, history_note, history_spec, recalled_lore_note, recalled_lore_spec,
    recent_narration_note, recent_narration_spec, rejection_feedback, rejection_feedback_spec, GM_SYSTEM,
};
use crate::reason::{dup_reasons, reason_views, Lang, ReasonModel, RejectReason};
use crate::spine::Scenario;
use crate::state::{GameState, StateDelta, StateModel, StateOp};
use crate::turn::{log_views, TurnLog, TurnLogModel};

verus! {

broadcast use vstd::std_specs::vec::group_vec_axioms;

/// Who speaks a chat message.
#[derive(Clone, Copy, PartialEq, Eq, Structural, Debug)]
pub enum Role {
    System,
    User,
    Assistant,
}

/// One message of the conversation with the narrator.
#[derive(Debug)]
pub struct ChatMessage {
    pub role: Role,
    pub content: String,
}

pub struct MessageModel {
    pub role: Role,
    pub content: Seq<char>,
}

impl View for ChatMessage {
    type V = MessageModel;

    open spec fn view(&self) -> MessageModel {
        MessageModel { role: self.role, content: self.content@ }
    }
}

pub open spec fn message_views(s: Seq<ChatMessage>) -> Seq<MessageModel> {
    s.map_values(|m: ChatMessage| m@)
}

/// The heading of the player's action in the user message.
pub const ACTION_HEAD: &'static str = "\n\n# プレイヤーの行動\n";

/// The system message: the standing orders and the board.
pub open spec fn system_message_spec(sc: Scenario) -> Seq<char> {
    GM_SYSTEM@ + "\n\n"@ + scenario_brief_spec(sc)
}

/// The user message: the state, the chronicle, the last checks, recalled lore,
/// the last narration, and the player's action.
pub open spec fn user_message_spec(
    st: GameState,
    sc: Scenario,
    action: Seq<char>,
    lore: Seq<FragmentModel>,
    checks: Seq<CheckModel>,
    narration: Seq<char>,
    history: Seq<TurnLogModel>,
) -> Seq<char> {
    state_brief_spec(st, sc) + history_spec(history) + check_outcome_spec(checks) + recalled_lore_spec(lore)
        + recent_narration_spec(narration) + ACTION_HEAD@ + action
}

/// The result of a turn.
#[derive(Debug)]
pub enum TurnOutcome {
    /// Accepted and applied to the state.
    Accepted {
        narration: String,
        /// The narrator's own one-line account of the turn (not checked).
        summary: String,
        rolls: Vec<RollOutcome>,
        checks: Vec<CheckOutcome>,
        fired: Vec<FiredTrigger>,
        /// Attempts used (1: accepted at once).
        attempts: u32,
        /// The reasons of each rejected attempt before, in order.
        rejected: Vec<Vec<RejectReason>>,
    },
    /// Rejected at every attempt; the state is untouched.
    Rejected { last_reasons: Vec<RejectReason>, attempts: u32 },
}

pub open spec fn rejected_views(s: Seq<Vec<RejectReason>>) -> Seq<Seq<ReasonModel>> {
    s.map_values(|r: Vec<RejectReason>| reason_views(r@))
}

pub enum OutcomeModel {
    Accepted {
        narration: Seq<char>,
        summary: Seq<char>,
        rolls: Seq<RollOutcome>,
        checks: Seq<CheckModel>,
        fired: Seq<FiredModel>,
        attempts: u32,
        rejected: Seq<Seq<ReasonModel>>,
    },
    Rejected { last_reasons: Seq<ReasonModel>, attempts: u32 },
}

impl View for TurnOutcome {
    type V = OutcomeModel;

    open spec fn view(&self) -> OutcomeModel {
        match self {
            TurnOutcome::Accepted { narration, summary, rolls, checks, fired, attempts, rejected } => OutcomeModel::Accepted {
                narration: narration@,
                summary: summary@,
                rolls: rolls@,
                checks: check_views(checks@),
                fired: fired_views(fired@),
                attempts: *attempts,
                rejected: rejected_views(rejected@),
            },
            TurnOutcome::Rejected { last_reasons, attempts } => OutcomeModel::Rejected {
                last_reasons: reason_views(last_reasons@),
                attempts: *attempts,
            },
        }
    }
}

impl TurnOutcome {
    pub fn is_accepted(&self) -> (b: bool)
        ensures
            b == (self is Accepted),
    {
        match self {
            TurnOutcome::Accepted { .. } => true,
            TurnOutcome::Rejected { .. } => false,
        }
    }
}

/// What the loop asks next: another proposal, or nothing more.
#[derive(Debug)]
pub enum TurnStep {
    /// Ask the narrator again with the loop's messages.
    Retry,
    /// The turn is over.
    Done(TurnOutcome),
}

pub enum StepModel {
    Retry,
    Done(OutcomeModel),
}

impl View for TurnStep {
    type V = StepModel;

    open spec fn view(&self) -> StepModel {
        match self {
            TurnStep::Retry => StepModel::Retry,
            TurnStep::Done(o) => StepModel::Done(o@),
        }
    }
}

/// The loop's state: the conversation so far, the attempts used and allowed,
/// the language of the repair instructions, and the reasons of each rejection.
#[derive(Debug)]
pub struct TurnLoop {
    pub messages: Vec<ChatMessage>,
    pub attempts: u32,
    pub max_attempts: u32,
    pub lang: Lang,
    pub rejected: Vec<Vec<RejectReason>>,
}

pub struct LoopModel {
    pub messages: Seq<MessageModel>,
    pub attempts: u32,
    pub max_attempts: u32,
    pub lang: Lang,
    pub rejected: Seq<Seq<ReasonModel>>,
}

impl View for TurnLoop {
    type V = LoopModel;

    open spec fn view(&self) -> LoopModel {
        LoopModel {
            messages: message_views(self.messages@),
            attempts: self.attempts,
            max_attempts: self.max_attempts,
            lang: self.lang,
            rejected: rejected_views(self.rejected@),
        }
    }
}

/// A proposal judged: accepted, it is applied and the turn ends; rejected, the
/// state stays, the narrator's proposal and the repair instruction join the
/// conversation, and the turn ends once the attempts are used up.
pub open spec fn on_proposal_spec(
    lm: LoopModel,
    m: StateModel,
    sc: Scenario,
    ops: Seq<StateOp>,
    narration: Seq<char>,
    summary: Seq<char>,
    echoed: Seq<char>,
) -> (LoopModel, StateModel, StepModel) {
    let attempts = (lm.attempts + 1) as u32;
    match adjudicate_spec(m, sc, ops) {
        VerdictModel::Accept => {
            let (m2, out) = apply_spec(m, sc, ops);
            (
                LoopModel { attempts, ..lm },
                m2,
                StepModel::Done(
                    OutcomeModel::Accepted {
                        narration,
                        summary,
                        rolls: out.rolls,
                        checks: out.checks,
                        fired: out.fired,
                        attempts,
                        rejected: lm.rejected,
                    },
                ),
            )
        },
        VerdictModel::Reject { reasons } => {
            let lm2 = LoopModel {
                messages: lm.messages.push(MessageModel { role: Role::Assistant, content: echoed }).push(
                    MessageModel { role: Role::User, content: rejection_feedback_spec(reasons, lm.lang) },
                ),
                attempts,
                rejected: lm.rejected.push(reasons),
                ..lm
            };
            (
                lm2,
                m,
                if attempts >= lm.max_attempts {
                    StepModel::Done(OutcomeModel::Rejected { last_reasons: reasons, attempts: lm.max_attempts })
                } else {
                    StepModel::Retry
                },
            )
        },
    }
}

/// The repair instruction after an answer that could not be read.
pub const UNREADABLE_NOTE: &'static str = "直前の応答は JSON として壊れていて読めなかった。上の出力の壊れた箇所を直し、正しい JSON で emit_delta を再提出してください。\n";

/// An answer that could not be read as a proposal: it counts one attempt, the
/// raw answer and the repair instruction join the conversation, and the state
/// is not touched. Once the attempts are used up the turn ends as rejected,
/// with no engine reasons.
pub open spec fn on_unreadable_spec(lm: LoopModel, raw: Seq<char>) -> (LoopModel, StepModel) {
    let attempts = (lm.attempts + 1) as u32;
    let lm2 = LoopModel {
        messages: lm.messages.push(MessageModel { role: Role::Assistant, content: raw }).push(
            MessageModel { role: Role::User, content: UNREADABLE_NOTE@ },
        ),
        attempts,
        ..lm
    };
    (
        lm2,
        if attempts >= lm.max_attempts {
            StepModel::Done(OutcomeModel::Rejected { last_reasons: Seq::empty(), attempts: lm.max_attempts })
        } else {
            StepModel::Retry
        },
    )
}

impl TurnLoop {
    /// The first messages of a turn: the system message (standing orders and
    /// board) and the user message (state, chronicle, last checks, recalled
    /// lore, last narration, the player's action). At least one attempt is
    /// always allowed.
    pub fn start(
        state: &GameState,
        scenario: &Scenario,
        player_action: &str,
        max_attempts: u32,
        lang: Lang,
        recalled_lore: &[MemoryFragment],
        recent_checks: &[CheckOutcome],
        recent_narration: &str,
        history: &[TurnLog],
    ) -> (r: TurnLoop)
        ensures
            r@.messages == seq![
                MessageModel { role: Role::System, content: system_message_spec(*scenario) },
                MessageModel {
                    role: Role::User,
                    content: user_message_spec(
                        *state,
                        *scenario,
                        player_action@,
                        fragment_views(recalled_lore@),
                        check_views(recent_checks@),
                        recent_narration@,
                        log_views(history@),
                    ),
                },
            ],
            r@.attempts == 0,
            r@.max_attempts == if max_attempts == 0 {
                1
            } else {
                max_attempts
            },
            r@.lang == lang,
            r@.rejected.len() == 0,
    {
        let mut sys = String::from_str(GM_SYSTEM);
        sys.append("\n\n");
        let b = scenario_brief(scenario);
        sys.append(b.as_str());
        let mut user = state_brief(state, scenario);
        let t = history_note(history);
        user.append(t.as_str());
        let t = check_outcome_note(recent_checks);
        user.append(t.as_str());
        let t = recalled_lore_note(recalled_lore);
        user.append(t.as_str());
        let t = recent_narration_note(recent_narration);
        user.append(t.as_str());
        user.append(ACTION_HEAD);
        user.append(player_action);
        let mut messages: Vec<ChatMessage> = Vec::new();
        messages.push(ChatMessage { role: Role::System, content: sys });
        messages.push(ChatMessage { role: Role::User, content: user });
        let rejected: Vec<Vec<RejectReason>> = Vec::new();
        let r = TurnLoop {
            messages,
            attempts: 0,
            max_attempts: if max_attempts == 0 {
                1
            } else {
                max_attempts
            },
            lang,
            rejected,
        };
        assert(r@.messages =~= seq![r.messages@[0]@, r.messages@[1]@]);
        r
    }

    /// Judges one proposal (see `on_proposal_spec`). `echoed` is the proposal
    /// as the narrator's own message, kept in the conversation.
    pub fn on_proposal(&mut self, state: &mut GameState, scenario: &Scenario, delta: &StateDelta, echoed: &str) -> (step:
        TurnStep)
        requires
            adjudicate_spec(old(state)@, *scenario, delta.ops@) is Accept ==> old(state).turn < u32::MAX,
            old(self).attempts < old(self).max_attempts,
        ensures
            (final(self)@, final(state)@, step@) == on_proposal_spec(
                old(self)@,
                old(state)@,
                *scenario,
                delta.ops@,
                delta.narration@,
                delta.summary@,
                echoed@,
            ),
            adjudicate_spec(old(state)@, *scenario, delta.ops@) is Reject ==> *final(state) == *old(state),
            old(state).keys_sorted() ==> final(state).keys_sorted(),
    {
        self.attempts = self.attempts + 1;
        match apply(state, scenario, delta) {
            Ok(out) => {
                let rejected = dup_rejected(&self.rejected);
                let ApplyParts { rolls, checks, fired } = split_outcome(out);
                TurnStep::Done(
                    TurnOutcome::Accepted {
                        narration: delta.narration.clone(),
                        summary: delta.summary.clone(),
                        rolls,
                        checks,
                        fired,
                        attempts: self.attempts,
                        rejected,
                    },
                )
            },
            Err(v) => {
                let reasons = match v {
                    Verdict::Reject { reasons } => reasons,
                    Verdict::Accept => {
                        proof {
                            assert(false);
                        }
                        Vec::new()
                    },
                };
                let ghost before = self@;
                self.messages.push(ChatMessage { role: Role::Assistant, content: String::from_str(echoed) });
                let fb = rejection_feedback(reasons.as_slice(), self.lang);
                self.messages.push(ChatMessage { role: Role::User, content: fb });
                let kept = dup_reasons(&reasons);
                self.rejected.push(kept);
                assert(self@.messages =~= before.messages.push(
                    MessageModel { role: Role::Assistant, content: echoed@ },
                ).push(MessageModel { role: Role::User, content: rejection_feedback_spec(reason_views(reasons@), self.lang) }));
                assert(self@.rejected =~= before.rejected.push(reason_views(reasons@)));
                if self.attempts >= self.max_attempts {
                    TurnStep::Done(TurnOutcome::Rejected { last_reasons: reasons, attempts: self.max_attempts })
                } else {
                    TurnStep::Retry
                }
            },
        }
    }

    /// An answer that could not be read as a proposal (see `on_unreadable_spec`).
    pub fn on_unreadable(&mut self, raw: &str) -> (step: TurnStep)
        requires
            old(self).attempts < old(self).max_attempts,
        ensures
            (final(self)@, step@) == on_unreadable_spec(old(self)@, raw@),
    {
        let ghost before = self@;
        self.attempts = self.attempts + 1;
        self.messages.push(ChatMessage { role: Role::Assistant, content: String::from_str(raw) });
        self.messages.push(ChatMessage { role: Role::User, content: String::from_str(UNREADABLE_NOTE) });
        assert(self@.messages =~= before.messages.push(MessageModel { role: Role::Assistant, content: raw@ }).push(
            MessageModel { role: Role::User, content: UNREADABLE_NOTE@ },
        ));
        if self.attempts >= self.max_attempts {
            let none: Vec<RejectReason> = Vec::new();
            assert(reason_views(none@) =~= Seq::<ReasonModel>::empty());
            TurnStep::Done(TurnOutcome::Rejected { last_reasons: none, attempts: self.max_attempts })
        } else {
            TurnStep::Retry
        }
    }
}

#[derive(Debug)]
struct ApplyParts {
    rolls: Vec<RollOutcome>,
    checks: Vec<CheckOutcome>,
    fired: Vec<FiredTrigger>,
}

fn split_outcome(out: crate::engine::ApplyOutcome) -> (r: ApplyParts)
    ensures
        r.rolls@ == out@.rolls,
        check_views(r.checks@) == out@.checks,
        fired_views(r.fired@) == out@.fired,
{
    ApplyParts { rolls: out.rolls, checks: out.checks, fired: out.fired }
}

fn dup_rejected(v: &Vec<Vec<RejectReason>>) -> (r: Vec<Vec<RejectReason>>)
    ensures
        rejected_views(r@) == rejected_views(v@),
{
    let mut out: Vec<Vec<RejectReason>> = Vec::new();
    let mut i: usize = 0;
    while i < v.len()
        invariant
            i <= v@.len(),
            rejected_views(out@) =~= rejected_views(v@).take(i as int),
        decreases v@.len() - i,
    {
        let ghost before = rejected_views(out@);
        out.push(dup_reasons(&v[i]));
        assert(rejected_views(out@) =~= before.push(reason_views(v@[i as int]@)));
        i = i + 1;
    }
    assert(rejected_views(v@).take(i as int) =~= rejected_views(v@));
    out
}


// ---------------------------------------------------------------------------
// Laws.
// ---------------------------------------------------------------------------

/// A turn asks the narrator at most `max_attempts` times: a proposal is
/// answered by `Retry` only while attempts remain, and every answer counts one
/// attempt.
pub proof fn law_turn_ends_within_attempts(
    lm: LoopModel,
    m: StateModel,
    sc: Scenario,
    ops: Seq<StateOp>,
    narration: Seq<char>,
    summary: Seq<char>,
    echoed: Seq<char>,
)
    requires
        lm.attempts < lm.max_attempts,
    ensures
        ({
            let (lm2, _, step) = on_proposal_spec(lm, m, sc, ops, narration, summary, echoed);
            &&& lm2.attempts == lm.attempts + 1
            &&& lm2.max_attempts == lm.max_attempts
            &&& (step is Retry ==> lm2.attempts < lm2.max_attempts)
        }),
{
}

/// The state changes only by an accepted proposal, and then exactly as the
/// engine applies it; a rejected proposal leaves it as it was and hands the
/// reasons back to the narrator as the last message.
pub proof fn law_only_accepted_proposals_change_the_state(
    lm: LoopModel,
    m: StateModel,
    sc: Scenario,
    ops: Seq<StateOp>,
    narration: Seq<char>,
    summary: Seq<char>,
    echoed: Seq<char>,
)
    ensures
        ({
            let (lm2, m2, step) = on_proposal_spec(lm, m, sc, ops, narration, summary, echoed);
            match adjudicate_spec(m, sc, ops) {
                VerdictModel::Accept => m2 == apply_spec(m, sc, ops).0 && step is Done,
                VerdictModel::Reject { reasons } => {
                    &&& m2 == m
                    &&& lm2.messages.last() == (MessageModel {
                        role: Role::User,
                        content: rejection_feedback_spec(reasons, lm.lang),
                    })
                    &&& lm2.rejected.last() == reasons
                },
            }
        }),
{
}


/// One answer of the narrator: a proposal (its ops, narration, summary and
/// the proposal as its own message), or an answer that could not be read.
pub enum AnswerModel {
    Proposal { ops: Seq<StateOp>, narration: Seq<char>, summary: Seq<char>, echoed: Seq<char> },
    Unreadable { raw: Seq<char> },
}

pub open spec fn answer_step(lm: LoopModel, m: StateModel, sc: Scenario, a: AnswerModel) -> (LoopModel, StateModel, StepModel) {
    match a {
        AnswerModel::Proposal { ops, narration, summary, echoed } => on_proposal_spec(
            lm,
            m,
            sc,
            ops,
            narration,
            summary,
            echoed,
        ),
        AnswerModel::Unreadable { raw } => {
            let (lm2, step) = on_unreadable_spec(lm, raw);
            (lm2, m, step)
        },
    }
}

/// A turn run on a list of answers, each handed to the loop while it asks
/// for another: the loop and the state at the end, the outcome (if the turn
/// ended) and how many answers were used.
pub open spec fn turn_run(lm: LoopModel, m: StateModel, sc: Scenario, answers: Seq<AnswerModel>) -> (
    LoopModel,
    StateModel,
    Option<OutcomeModel>,
    nat,
)
    decreases answers.len(),
{
    if answers.len() == 0 {
        (lm, m, None, 0)
    } else {
        let (lm2, m2, step) = answer_step(lm, m, sc, answers[0]);
        match step {
            StepModel::Done(o) => (lm2, m2, Some(o), 1),
            StepModel::Retry => {
                let (lm3, m3, o, n) = turn_run(lm2, m2, sc, answers.drop_first());
                (lm3, m3, o, n + 1)
            },
        }
    }
}

/// Over a whole turn the narrator is asked at most `max_attempts` times, and
/// the turn has ended once that many answers came: whatever the answers, a
/// turn never runs past its attempts.
pub proof fn law_whole_turn_ends_within_attempts(lm: LoopModel, m: StateModel, sc: Scenario, answers: Seq<AnswerModel>)
    requires
        lm.attempts < lm.max_attempts,
    ensures
        ({
            let (_, _, outcome, used) = turn_run(lm, m, sc, answers);
            &&& used <= lm.max_attempts - lm.attempts
            &&& answers.len() >= lm.max_attempts - lm.attempts ==> outcome is Some
        }),
    decreases answers.len(),
{
    if answers.len() > 0 {
        let (lm2, m2, step) = answer_step(lm, m, sc, answers[0]);
        assert(lm2.attempts == lm.attempts + 1 && lm2.max_attempts == lm.max_attempts);
        match step {
            StepModel::Done(_) => {},
            StepModel::Retry => {
                assert(lm2.attempts < lm2.max_attempts);
                law_whole_turn_ends_within_attempts(lm2, m2, sc, answers.drop_first());
            },
        }
    }
}

} // verus!
