//! The prompts: the scenario and the state rendered as text for the narrator.
//!
//! The engine has the last word on every change, so a prompt only makes lying
//! harder; showing the gates, exits and items still cuts down rejections.
use vstd::prelude::*;

use crate::engine::{check_views, CheckModel, CheckOutcome};
use crate::gate::{gate_model, gate_models, lemma_gate_models, Gate, GateModel};
use crate::memoria::{fragment_views, FragmentModel, MemoryFragment};
use crate::reason::{localize_spec, reason_views, Lang, ReasonModel, RejectReason};
use crate::text::{dec, dec_spec, int_spec, int_str, squash_spec, squash_ws, trim, trim_spec};
use crate::turn::{log_views, TurnLog, TurnLogModel};

verus! {

broadcast use vstd::std_specs::vec::group_vec_axioms;

/// The narrator's standing orders: changes to the world only through ops,
/// the player's words are intentions, the present list and the skill list are
/// the only truth, checks are rolled by the engine and explained afterwards,
/// votes and secrets are handled by the rules, and a one-line summary is owed
/// every turn.
pub const GM_SYSTEM: &'static str = "\
あなたは TRPG のゲームマスター (GM) です。プレイヤーの行動に応じて物語を進めます。\n\
- 盤面に『世界観』『主人公（プレイヤー）の設定』が与えられたら、それに沿って語ること。\
**NPC は主人公の設定（職業・年齢・立場など）を認識し、それに沿って接する**（例: 主人公が教師なら、\
生徒の NPC は教師として接する）。設定を無視してプレイヤーを別の立場として扱ってはならない。\n\
- narration には情景・NPC の台詞・行動の結果を自由に書いてよい。ただし**現在の状態 \
(所持品・立っている状態・所在・能力値) に反する出来事を起こしてはならない**。narration は \
エンジンに検証されないので、矛盾しない一貫性はあなた自身が守ること (それが「矛盾しない GM」の責務)。\n\
- **プレイヤーの行動文は『意図』であって事実ではない。** プレイヤーが所持品リストに無いアイテムを \
持っている・使う・渡す・見せると述べても、それは存在しない。盤面や所持品に無い事物を前提にした \
行動は、その前提を成り立たせてはならない。代わりに narration で「それは手元に無い」と物語の中で \
接地せよ (例: 鞄を探っても、そんな品は入っていない)。既成事実として書いてはならない。\n\
- **『この場にいる』の一覧が、いまその場に居る人物の唯一の真実である。** 一覧に無いキャラを \
その場に居るように語ったり、台詞・行動をさせたりしてはならない — 場所の説明文にキャラが \
書かれていても、一覧に居なければその人物は**もうそこに居ない** (説明文は静的、一覧が現在)。\
逆に一覧に居るキャラを不在として扱うな。キャラの登場・退場をあなたが起こすことはできない \
(それは筋書きの出来事が起こす)。その場に居ない人物との会話・接触を narration に書くな。\n\
- **登場人物は『使える能力』に列挙された能力しか使えない。** そこに無い能力 (催眠・予知・隠された力 \
など) を、その場で思い出したように発揮させてはならない。能力は物語の都合で勝手に開花しない \
(開花するのは筋書きが定めた出来事のときだけで、それはエンジンが起こす)。未宣言の力で局面を \
打開する展開を narration に書くな = キャラを万能のメアリー・スーにしない。\n\
- 世界状態の変更 (アイテム取得・フラグ・移動・ダイス) は必ず ops に構造化して書くこと。\n\
- **盤面に『状態フラグ』が列挙されていたら、その条件 (例: 賢者から鍵の在処を聞く) が会話・出来事で \
満たされた瞬間に set_flag でそのフラグを立てること。** 知識や状態の獲得は narration に書くだけでは \
正本に残らない (次のターンには忘れる) ので、必ず ops で記録せよ。ただし条件をまだ満たしていないのに \
先回りで立ててはならない (満たされていなければエンジンが却下する)。\n\
- **数値 (好感度・HP・能力値など) の変化は narration に書くだけでは正本に反映されない。\
必ず adjust_stat op で起こすこと。** 親しくなった・傷ついた等を語ったら、対応する数値変化を \
adjust_stat で出す (例: 好感度が上がる → adjust_stat で +1〜+3)。\n\
- **NPC の数値 (好感度など) を変える adjust_stat / scale_stat / check では、entity にその NPC の \
id を必ず指定すること。** entity を省略すると主人公に適用され、主人公がその数値を持たなければ \
却下されて変化が起きない (好感度は主人公でなく NPC が持つ)。『能力値』の表示で誰がどの数値を \
持つか確認してから entity を指定せよ。\n\
- 成否が不確実な行動 (力ずくの突破・隠れる・見破る・説得など) は結果を決めつけず、check op \
(entity / 修正に使う stat / sides / dc) でエンジンに判定させること。判定の出目と成否はエンジンが \
確定し**次のターンに返る**ので、それを見てから帰結を語る (この turn の narration では「試みる」までに留める)。\n\
- **盤面に『挑戦』が列挙され、プレイヤーの行動がそれに該当するなら、自分で check を組むのでなく \
attempt_challenge でその id を選ぶこと。** 難易度 (sides/dc) も成否で立つフラグも作者が定めており、\
エンジンが振って帰結を確定する (出目も結果も詐称できない)。能力に依らない運試しの挑戦もある。\n\
- 判定結果が返ったら、**なぜ成功（または失敗）したのかを物語内の原因として後付けで語ること**。\
出目という確定事実に「理由」を与えて物語の因果に翻訳する (例: 成功=蝶番の緩みに気づいた／失敗=手が \
汗で滑った)。DC との差が大きいほど決定的に、僅差なら紙一重に、大失敗/大成功なら劇的に描く。\n\
- **いつ振らないか / 1 回の判定の射程**: 武器を構える・身構える・対峙する・睨み合うは『態勢』であって \
決着ではない。ここでダイスを振るな (緊迫を描いて場を進め、決着は後のビートに委ねる)。**1 回の判定は \
その狭い行動だけを解決し、物語の山場の決着へ飛躍させてはならない** (例: 一突きの成功を『魔王を倒した』に \
拡大しない)。重要な相手 (名前付きの敵・魔王級) の撃破や物語の決定的な勝敗は、作者が定めた条件 \
(挑戦・ゴール) を複数のビートを経て満たしたときにのみ起きる。**エンジンが state に記録していない決着 \
(ゴール未達) は、まだ起きていない** — 大敵をあっけなく倒す・場を終わらせる帰結を narration に書くな。\n\
- 存在しないアイテムの取得や、条件を満たさない移動を ops に書いても**エンジンに却下される**。\n\
  嘘の状態変更で物語を進めることはできない。今ある盤面の事実に忠実であること。\n\
- 何も状態が変わらない描写だけのターンなら ops は空でよい。\n\
- **盤面に『投票』が宣言されていたら、投票できる局面ではその場の生存 NPC 全員分の票を \
cast_vote op で並べること** (voter にその NPC の id、target に投票先。票は narration に書く \
だけでは開票されない)。誰に入れるかは各キャラの性格・積み重なった疑念・秘匿役職に沿って \
あなたが決めてよい — それが推理劇の演出である。ただし **NPC の票をプレイヤーの票に \
引きずられて揃えるな** — 各 NPC は自分の視点だけから独立に決めよ。票が割れるのは自然で \
あり、全員一致は稀である (プレイヤーの指名が毎回そのまま処刑になるのは推理劇として破綻)。\
プレイヤーの票はプレイヤーの行動文の意図から汲んで cast_vote にせよ。投票権が一部の者に絞られた局面 (夜の狩り等) でも同じ — **その局面で \
投票できる者が生きているなら、その者の票を必ず cast_vote で出せ** (プレイヤーの行動が別のこと \
でも忘れるな)。票を出さなければその局面では何も起きない (狩りの不発)。現在の状態に \
**「いま投票が開いている」の行が出ていたら、それが合図である — そこに列挙された者の票を \
このターンの ops に必ず並べよ**。逆に、盤面の資料に \
**『## 投票』の節が無ければ、このゲームに投票の機構は存在しない — cast_vote を一切提案するな** \
(多数決らしい場面でも、意図は語りと他の op で表す)。**開票・処刑・襲撃の \
帰結はあなたが起こせない** (筋書きの出来事が確定する) — 誰が死ぬかを先取りして語るな。\n\
- **〔秘匿〕と注記された属性 (役職など) はゲーム的秘匿情報である。登場人物どうしは互いに \
知らない** — 各キャラは自分の分だけを知っている前提で演じよ (他人の秘匿属性を知っているかの \
ような行動・台詞をさせるな)。narration の地の文でこれを明かすな・匂わせの断定 (『人狼らしく』\
等) をするな — 疑いや推理は登場人物の台詞・行動として描け。役職能力の結果 (占いの判定等) は \
**当人だけの知識**であり、当人の口から語られるまで他キャラは知らない。秘匿属性に基づく人物の \
**隠密行動 (夜の襲撃等) を、実行者がわかる形で地の文に描くな** — 実行の瞬間は語らず、\
**結果だけ** (翌朝の発見・残された痕跡) を描け。誰の仕業かは盤面が明かすまで伏せたままにする。\n\
- **summary には、このターンの経緯 1 行 (誰が何をして何が起きたか、確定した事実だけ) を毎ターン \
書くこと。** これは以後のターンの『これまでの経緯』としてあなた自身に引き継がれる記憶になる — \
書かなければ経緯は忘れられる。物語的な修辞は不要、事実の記録に徹する \
(例: 「アリスに花を渡し、幼い頃の約束を打ち明けた」)。\n\
narration と ops を必ず構造化出力として提出すること (ツール emit_delta、またはサーバ指示の JSON 形式)。";


// ---------------------------------------------------------------------------
// Concatenation.
// ---------------------------------------------------------------------------

/// The texts one after the other.
pub open spec fn concat_spec(ls: Seq<Seq<char>>) -> Seq<char>
    decreases ls.len(),
{
    if ls.len() == 0 {
        seq![]
    } else {
        concat_spec(ls.drop_last()) + ls.last()
    }
}

pub open spec fn bool_spec(b: bool) -> Seq<char> {
    if b {
        "true"@
    } else {
        "false"@
    }
}

fn bool_str(b: bool) -> (r: &'static str)
    ensures
        r@ == bool_spec(b),
{
    if b {
        "true"
    } else {
        "false"
    }
}

/// A number with its sign always written (`+3`, `+0`, `-2`).
pub open spec fn signed_spec(v: int) -> Seq<char> {
    if v >= 0 {
        "+"@ + dec_spec(v as nat)
    } else {
        int_spec(v)
    }
}

pub(crate) fn signed_str(v: i64) -> (r: String)
    ensures
        r@ == signed_spec(v as int),
{
    if v >= 0 {
        let mut s = String::from_str("+");
        let d = dec(v as u64);
        s.append(d.as_str());
        s
    } else {
        int_str(v)
    }
}

// ---------------------------------------------------------------------------
// Gates in words.
// ---------------------------------------------------------------------------

/// A gate in plain words.
pub open spec fn gate_brief_spec(g: GateModel) -> Seq<char>
    decreases g, 0int,
{
    match g {
        GateModel::Always => "条件なし"@,
        GateModel::HasItem { entity, item } => entity + " が「"@ + item + "」を所持していること"@,
        GateModel::FlagIs { key, value } => "状態「"@ + key + "」が "@ + bool_spec(value) + " であること"@,
        GateModel::LocationIs { at } => "「"@ + at + "」にいること"@,
        GateModel::StatAtLeast { entity, key, value } => entity + " の能力「"@ + key + "」が "@ + int_spec(
            value as int,
        ) + " 以上であること"@,
        GateModel::StatAtMost { entity, key, value } => entity + " の能力「"@ + key + "」が "@ + int_spec(
            value as int,
        ) + " 以下であること"@,
        GateModel::HasSkill { entity, skill } => entity + " が能力「"@ + skill + "」を持っていること"@,
        GateModel::AttributeIs { entity, key, value } => entity + " の「"@ + key + "」が「"@ + value + "」であること"@,
        GateModel::TurnsSince { entity, key, turns } => entity + " の「"@ + key + "」に刻まれた時から "@ + dec_spec(
            turns as nat,
        ) + " ターン以上経つこと"@,
        GateModel::HasVoted { entity } => entity + " が投票 (cast_vote) を済ませていること"@,
        GateModel::All { of } => "すべて満たす("@ + crate::text::join_spec(gate_briefs(of, of.len() as int), " / "@)
            + ")"@,
        GateModel::Any { of } => "いずれか満たす("@ + crate::text::join_spec(gate_briefs(of, of.len() as int), " / "@)
            + ")"@,
    }
}

/// The words of the first `n` gates.
pub open spec fn gate_briefs(gs: Seq<GateModel>, n: int) -> Seq<Seq<char>>
    decreases gs, n,
    when 0 <= n <= gs.len()
{
    if n <= 0 {
        Seq::empty()
    } else {
        gate_briefs(gs, n - 1).push(gate_brief_spec(gs[n - 1]))
    }
}

proof fn lemma_gate_briefs(gs: Seq<GateModel>, n: int)
    requires
        0 <= n <= gs.len(),
    ensures
        gate_briefs(gs, n).len() == n,
        forall|i: int| 0 <= i < n ==> #[trigger] gate_briefs(gs, n)[i] == gate_brief_spec(gs[i]),
    decreases n,
{
    if n > 0 {
        lemma_gate_briefs(gs, n - 1);
    }
}

fn briefs_of(of: &Vec<Gate>) -> (r: String)
    ensures
        r@ == crate::text::join_spec(gate_briefs(gate_models(of@, of@.len() as int), of@.len() as int), " / "@),
    decreases of@, 0int,
{
    proof {
        lemma_gate_models(of@, of@.len() as int);
    }
    let ghost gs = gate_models(of@, of@.len() as int);
    let mut parts: Vec<String> = Vec::new();
    let mut i: usize = 0;
    while i < of.len()
        invariant
            i <= of@.len(),
            gs == gate_models(of@, of@.len() as int),
            gs.len() == of@.len(),
            forall|j: int| 0 <= j < of@.len() ==> #[trigger] gs[j] == gate_model(of@[j]),
            parts@.len() == i,
            forall|j: int| 0 <= j < i ==> #[trigger] parts@[j]@ == gate_brief_spec(gs[j]),
        decreases of@.len() - i,
    {
        proof {
            assert(decreases_to!(of@ => of@[i as int]));
        }
        let b = gate_brief(&of[i]);
        parts.push(b);
        i = i + 1;
    }
    proof {
        lemma_gate_briefs(gs, gs.len() as int);
        assert(parts@.map_values(|p: String| p@) =~= gate_briefs(gs, gs.len() as int));
    }
    crate::text::join(&parts, " / ")
}

/// A gate in plain words, so that the narrator understands a precondition.
pub fn gate_brief(g: &Gate) -> (r: String)
    ensures
        r@ == gate_brief_spec(g@),
    decreases g, 1int,
{
    match g {
        Gate::Always => String::from_str("条件なし"),
        Gate::HasItem { entity, item } => {
            let mut s = entity.clone();
            s.append(" が「");
            s.append(item.as_str());
            s.append("」を所持していること");
            s
        },
        Gate::FlagIs { key, value } => {
            let mut s = String::from_str("状態「");
            s.append(key.as_str());
            s.append("」が ");
            s.append(bool_str(*value));
            s.append(" であること");
            s
        },
        Gate::LocationIs { at } => {
            let mut s = String::from_str("「");
            s.append(at.as_str());
            s.append("」にいること");
            s
        },
        Gate::StatAtLeast { entity, key, value } => {
            let mut s = entity.clone();
            s.append(" の能力「");
            s.append(key.as_str());
            s.append("」が ");
            let v = int_str(*value);
            s.append(v.as_str());
            s.append(" 以上であること");
            s
        },
        Gate::StatAtMost { entity, key, value } => {
            let mut s = entity.clone();
            s.append(" の能力「");
            s.append(key.as_str());
            s.append("」が ");
            let v = int_str(*value);
            s.append(v.as_str());
            s.append(" 以下であること");
            s
        },
        Gate::HasSkill { entity, skill } => {
            let mut s = entity.clone();
            s.append(" が能力「");
            s.append(skill.as_str());
            s.append("」を持っていること");
            s
        },
        Gate::AttributeIs { entity, key, value } => {
            let mut s = entity.clone();
            s.append(" の「");
            s.append(key.as_str());
            s.append("」が「");
            s.append(value.as_str());
            s.append("」であること");
            s
        },
        Gate::TurnsSince { entity, key, turns } => {
            let mut s = entity.clone();
            s.append(" の「");
            s.append(key.as_str());
            s.append("」に刻まれた時から ");
            let v = dec(*turns as u64);
            s.append(v.as_str());
            s.append(" ターン以上経つこと");
            s
        },
        Gate::HasVoted { entity } => {
            let mut s = entity.clone();
            s.append(" が投票 (cast_vote) を済ませていること");
            s
        },
        Gate::All { of } => {
            proof {
                assert(decreases_to!(*g => *of));
                lemma_gate_models(of@, of@.len() as int);
            }
            let mut s = String::from_str("すべて満たす(");
            let b = briefs_of(of);
            s.append(b.as_str());
            s.append(")");
            s
        },
        Gate::Any { of } => {
            proof {
                assert(decreases_to!(*g => *of));
                lemma_gate_models(of@, of@.len() as int);
            }
            let mut s = String::from_str("いずれか満たす(");
            let b = briefs_of(of);
            s.append(b.as_str());
            s.append(")");
            s
        },
    }
}


// ---------------------------------------------------------------------------
// Notes woven into the user message.
// ---------------------------------------------------------------------------

/// The heading of the recalled-lore note.
pub const LORE_HEAD: &'static str = "\n\n# いま思い出された記憶（語りに織り込むこと）\n直前の出来事をきっかけに、登場人物が次の記憶を想起しています。今回の narration に、自然に思い出す様子として織り込んでください。これは状態変更ではないので ops には書かないこと。\n";

/// The recalled lore as an instruction to weave it into the narration: one
/// bullet per fragment, its white space squashed; nothing when there is none.
pub open spec fn recalled_lore_spec(fs: Seq<FragmentModel>) -> Seq<char> {
    if fs.len() == 0 {
        Seq::empty()
    } else {
        LORE_HEAD@ + concat_spec(fs.map_values(|f: FragmentModel| "- "@ + squash_spec(f.text) + "\n"@))
    }
}

pub fn recalled_lore_note(fragments: &[MemoryFragment]) -> (r: String)
    ensures
        r@ == recalled_lore_spec(fragment_views(fragments@)),
{
    let ghost fv = fragment_views(fragments@);
    let ghost lines = fv.map_values(|f: FragmentModel| "- "@ + squash_spec(f.text) + "\n"@);
    if fragments.len() == 0 {
        return String::new();
    }
    let mut s = String::from_str(LORE_HEAD);
    let mut i: usize = 0;
    while i < fragments.len()
        invariant
            i <= fragments@.len(),
            fv == fragment_views(fragments@),
            lines == fv.map_values(|f: FragmentModel| "- "@ + squash_spec(f.text) + "\n"@),
            s@ == LORE_HEAD@ + concat_spec(lines.take(i as int)),
        decreases fragments@.len() - i,
    {
        assert(lines.take(i + 1).drop_last() =~= lines.take(i as int));
        let t = squash_ws(fragments[i].text.as_str());
        s.append("- ");
        s.append(t.as_str());
        s.append("\n");
        assert(s@ =~= LORE_HEAD@ + concat_spec(lines.take(i + 1)));
        i = i + 1;
    }
    assert(lines.take(i as int) =~= lines);
    s
}

/// The heading of the chronicle note.
pub const HISTORY_HEAD: &'static str = "\n\n# これまでの経緯 (古い順・確定した記録)\n過去のターンに実際に起きたことの要約です。これに矛盾する語りをせず、済んだ出来事を初めてのように繰り返さないこと。\n";

/// The marker of chronicle lines left out for the budget.
pub const HISTORY_ELIDED: &'static str = "- (それ以前の経緯は省略)\n";

/// The most characters of chronicle lines in the prompt.
pub const HISTORY_BUDGET: usize = 2400;

/// One chronicle line of the prompt.
pub open spec fn history_line(l: TurnLogModel) -> Seq<char> {
    "- T"@ + dec_spec(l.turn as nat) + " プレイヤー「"@ + l.player + "」→ "@ + l.summary + "\n"@
}

/// How many of the newest lines fit in what is left of the budget, taken
/// newest first and stopping at the first that does not fit.
pub open spec fn kept_newest(h: Seq<TurnLogModel>, room: int) -> nat
    decreases h.len(),
{
    if h.len() == 0 {
        0
    } else if history_line(h.last()).len() > room {
        0
    } else {
        1 + kept_newest(h.drop_last(), room - history_line(h.last()).len())
    }
}

/// The chronicle as "what happened so far": the newest lines that fit in
/// `HISTORY_BUDGET` characters, oldest first, with a marker when older ones
/// were left out; nothing for an empty chronicle.
pub open spec fn history_spec(h: Seq<TurnLogModel>) -> Seq<char> {
    if h.len() == 0 {
        Seq::empty()
    } else {
        let k = kept_newest(h, HISTORY_BUDGET as int);
        HISTORY_HEAD@ + (if k < h.len() {
            HISTORY_ELIDED@
        } else {
            Seq::empty()
        }) + concat_spec(h.subrange(h.len() - k, h.len() as int).map_values(|l: TurnLogModel| history_line(l)))
    }
}

proof fn lemma_kept_newest(h: Seq<TurnLogModel>, room: int)
    ensures
        kept_newest(h, room) <= h.len(),
    decreases h.len(),
{
    if h.len() > 0 {
        lemma_kept_newest(h.drop_last(), room - history_line(h.last()).len());
    }
}

/// The characters of the chronicle lines of `h` together.
pub open spec fn lines_len(h: Seq<TurnLogModel>) -> nat
    decreases h.len(),
{
    if h.len() == 0 {
        0
    } else {
        history_line(h[0]).len() + lines_len(h.drop_first())
    }
}

proof fn lemma_lines_len_last(h: Seq<TurnLogModel>)
    requires
        h.len() > 0,
    ensures
        lines_len(h) == lines_len(h.drop_last()) + history_line(h.last()).len(),
    decreases h.len(),
{
    if h.len() > 1 {
        lemma_lines_len_last(h.drop_first());
        assert(h.drop_first().drop_last() =~= h.drop_last().drop_first());
    } else {
        assert(h.drop_first() =~= Seq::<TurnLogModel>::empty());
        assert(h.drop_last() =~= Seq::<TurnLogModel>::empty());
    }
}

/// Taking lines newest first while they fit in `room`: the lines kept fit,
/// and one more would not.
proof fn lemma_kept_newest_fits(h: Seq<TurnLogModel>, room: int)
    requires
        room >= 0,
    ensures
        kept_newest(h, room) <= h.len(),
        lines_len(h.subrange(h.len() - kept_newest(h, room), h.len() as int)) <= room,
        kept_newest(h, room) < h.len() ==> lines_len(h.subrange(h.len() - kept_newest(h, room) - 1, h.len() as int))
            > room,
    decreases h.len(),
{
    let n = h.len() as int;
    if n == 0 {
        assert(h.subrange(0, 0) =~= Seq::<TurnLogModel>::empty());
    } else {
        let l = history_line(h.last()).len();
        let p = h.drop_last();
        if l > room {
            assert(h.subrange(n, n) =~= Seq::<TurnLogModel>::empty());
            let one = h.subrange(n - 1, n);
            assert(one.drop_first() =~= Seq::<TurnLogModel>::empty());
            assert(one[0] == h.last());
        } else {
            lemma_kept_newest_fits(p, room - l);
            let k1 = kept_newest(p, room - l);
            let a = h.subrange(n - 1 - k1, n);
            assert(a.drop_last() =~= p.subrange(n - 1 - k1, n - 1));
            assert(a.last() == h.last());
            lemma_lines_len_last(a);
            if k1 < p.len() {
                let b = h.subrange(n - 2 - k1, n);
                assert(b.drop_last() =~= p.subrange(n - 2 - k1, n - 1));
                assert(b.last() == h.last());
                lemma_lines_len_last(b);
            }
        }
    }
}

/// Lines further back only add characters.
proof fn lemma_lines_len_grows(h: Seq<TurnLogModel>, i: int, j: int)
    requires
        0 <= i <= j <= h.len(),
    ensures
        lines_len(h.subrange(i, h.len() as int)) >= lines_len(h.subrange(j, h.len() as int)),
    decreases j - i,
{
    if i < j {
        lemma_lines_len_grows(h, i + 1, j);
        assert(h.subrange(i, h.len() as int).drop_first() =~= h.subrange(i + 1, h.len() as int));
    }
}

/// The chronicle note keeps the newest lines and drops the oldest: from the
/// first line `j` from which the lines together fit in the budget (and not
/// from any earlier one), in chronological order, after the heading and, when
/// lines were dropped, the marker; an empty chronicle gives no note.
pub proof fn law_history_keeps_the_newest_that_fit(h: Seq<TurnLogModel>)
    ensures
        history_spec(Seq::<TurnLogModel>::empty()) == Seq::<char>::empty(),
        h.len() > 0 ==> exists|j: int|
            {
                &&& 0 <= j <= h.len()
                &&& lines_len(h.subrange(j, h.len() as int)) <= HISTORY_BUDGET
                &&& forall|i: int| 0 <= i < j ==> #[trigger] lines_len(h.subrange(i, h.len() as int)) > HISTORY_BUDGET
                &&& history_spec(h) == HISTORY_HEAD@ + (if j > 0 {
                    HISTORY_ELIDED@
                } else {
                    Seq::<char>::empty()
                }) + concat_spec(h.subrange(j, h.len() as int).map_values(|l: TurnLogModel| history_line(l)))
            },
{
    if h.len() > 0 {
        let b = HISTORY_BUDGET as int;
        lemma_kept_newest_fits(h, b);
        let k = kept_newest(h, b);
        let j = h.len() - k;
        assert forall|i: int| 0 <= i < j implies #[trigger] lines_len(h.subrange(i, h.len() as int)) > HISTORY_BUDGET by {
            lemma_lines_len_grows(h, i, j - 1);
        }
        assert((j > 0) == (k < h.len()));
    }
}

fn history_line_exec(l: &TurnLog) -> (r: String)
    ensures
        r@ == history_line(l@),
{
    let mut s = String::from_str("- T");
    let d = dec(l.turn as u64);
    s.append(d.as_str());
    s.append(" プレイヤー「");
    s.append(l.player.as_str());
    s.append("」→ ");
    s.append(l.summary.as_str());
    s.append("\n");
    s
}

pub fn history_note(history: &[TurnLog]) -> (r: String)
    ensures
        r@ == history_spec(log_views(history@)),
{
    let ghost h = log_views(history@);
    let n = history.len();
    if n == 0 {
        return String::new();
    }
    // Newest first: count the lines that fit.
    let mut k: usize = 0;
    let mut room: usize = HISTORY_BUDGET;
    assert(h.take(n as int) =~= h);
    loop
        invariant
            h == log_views(history@),
            n == h.len(),
            k <= n,
            room <= HISTORY_BUDGET,
            kept_newest(h, HISTORY_BUDGET as int) == k + kept_newest(h.take(n - k), room as int),
        ensures
            k <= n,
            kept_newest(h, HISTORY_BUDGET as int) == k,
        decreases n - k,
    {
        if k == n {
            assert(h.take(0) =~= Seq::<TurnLogModel>::empty());
            break;
        }
        let ghost t = h.take(n - k);
        assert(t.drop_last() =~= h.take(n - k - 1));
        assert(t.last() == history@[n - k - 1]@);
        let line = history_line_exec(&history[n - k - 1]);
        let cost = line.unicode_len();
        if cost > room {
            break;
        }
        room = room - cost;
        k = k + 1;
    }
    proof {
        lemma_kept_newest(h, HISTORY_BUDGET as int);
    }
    let ghost lines = h.subrange(n - k, n as int).map_values(|l: TurnLogModel| history_line(l));
    let mut s = String::from_str(HISTORY_HEAD);
    if k < n {
        s.append(HISTORY_ELIDED);
    }
    let ghost pre = s@;
    let mut i: usize = 0;
    while i < k
        invariant
            i <= k <= n,
            h == log_views(history@),
            n == h.len(),
            lines == h.subrange(n - k, n as int).map_values(|l: TurnLogModel| history_line(l)),
            s@ == pre + concat_spec(lines.take(i as int)),
        decreases k - i,
    {
        assert(lines.take(i + 1).drop_last() =~= lines.take(i as int));
        assert(lines[i as int] == history_line(history@[n - k + i]@));
        let line = history_line_exec(&history[n - k + i]);
        s.append(line.as_str());
        assert(s@ =~= pre + concat_spec(lines.take(i + 1)));
        i = i + 1;
    }
    assert(lines.take(i as int) =~= lines);
    s
}

/// The heading of the continuity note, up to the previous narration.
pub const NARRATION_HEAD: &'static str = "\n\n# 直前までの語り（情景はここから継続する。繰り返さないこと）\n以下は直前のターンであなたが語った内容です。**既に確立した静的な情景（時刻・天候・部屋の様子・既に済んだ登場・挨拶・相手の初対面の驚きなど）を再び描写しないこと**。同じ説明を二度せず、この続きとして「変化・反応・新しい展開」だけを描いてください。\n---\n";

/// The end of the continuity note.
pub const NARRATION_TAIL: &'static str = "\n---\n";

/// The previous turn's narration as the scene that continues, with the order
/// not to repeat it; nothing when it is blank.
pub open spec fn recent_narration_spec(prev: Seq<char>) -> Seq<char> {
    if trim_spec(prev).len() == 0 {
        Seq::empty()
    } else {
        NARRATION_HEAD@ + trim_spec(prev) + NARRATION_TAIL@
    }
}

pub fn recent_narration_note(prev: &str) -> (r: String)
    ensures
        r@ == recent_narration_spec(prev@),
{
    let t = trim(prev);
    if t.unicode_len() == 0 {
        return String::new();
    }
    let mut s = String::from_str(NARRATION_HEAD);
    s.append(t.as_str());
    s.append(NARRATION_TAIL);
    s
}

/// The heading of the check-outcome note.
pub const CHECK_HEAD: &'static str = "\n\n# 直前の判定結果（出目・成否はエンジンが確定済で覆せない）\nこの結果に沿って語り、**なぜ成功（または失敗）したのかを物語内の原因として後付けで説明すること**。\n単に「成功した／失敗した」と述べるのでなく、DC との差をその場面の因果に翻訳せよ（差が大きいほど決定的・鮮やかに、僅差なら辛うじて・紙一重に、大失敗/大成功なら劇的に）。\n";

/// How far the total was from the difficulty, in words.
pub open spec fn gap_spec(total: int, dc: int) -> Seq<char> {
    if total - dc >= 0 {
        "DC を "@ + dec_spec((total - dc) as nat) + " 上回った"@
    } else {
        "DC に "@ + dec_spec((dc - total) as nat) + " 届かなかった"@
    }
}

/// One check as a line: entity, stat, die, roll, modifier, total, difficulty,
/// result, the margin and the extreme hit, if any.
pub open spec fn check_line(c: CheckModel) -> Seq<char> {
    "- "@ + c.entity + " の「"@ + c.stat + "」判定: 1d"@ + dec_spec(c.sides as nat) + "("@ + dec_spec(c.roll as nat)
        + ") + 修正"@ + signed_spec(c.modifier as int) + " = "@ + int_spec(c.total as int) + " vs DC "@ + dec_spec(
        c.dc as nat,
    ) + " → "@ + (if c.success {
        "成功"@
    } else {
        "失敗"@
    }) + "（"@ + gap_spec(c.total as int, c.dc as int) + (match c.tier {
        Some(t) => "／極="@ + t + "（大失敗または大成功＝劇的に）"@,
        None => Seq::empty(),
    }) + "）\n"@
}

/// Whether a check still needs telling: it has no authored ending narration.
pub open spec fn untold(c: CheckModel) -> bool {
    c.narration.len() == 0
}

/// The last turn's checks that no authored narration told, as facts the
/// narration must follow and explain; nothing when there is none.
pub open spec fn check_outcome_spec(cs: Seq<CheckModel>) -> Seq<char> {
    let kept = cs.filter(|c: CheckModel| untold(c));
    if kept.len() == 0 {
        Seq::empty()
    } else {
        CHECK_HEAD@ + concat_spec(kept.map_values(|c: CheckModel| check_line(c)))
    }
}

fn check_line_exec(c: &CheckOutcome) -> (r: String)
    ensures
        r@ == check_line(c@),
{
    let mut s = String::from_str("- ");
    s.append(c.entity.as_str());
    s.append(" の「");
    s.append(c.stat.as_str());
    s.append("」判定: 1d");
    let t = dec(c.sides as u64);
    s.append(t.as_str());
    s.append("(");
    let t = dec(c.roll as u64);
    s.append(t.as_str());
    s.append(") + 修正");
    let t = signed_str(c.modifier);
    s.append(t.as_str());
    s.append(" = ");
    let t = int_str(c.total);
    s.append(t.as_str());
    s.append(" vs DC ");
    let t = dec(c.dc as u64);
    s.append(t.as_str());
    s.append(" → ");
    if c.success {
        s.append("成功");
    } else {
        s.append("失敗");
    }
    s.append("（");
    let margin: i128 = c.total as i128 - c.dc as i128;
    if margin >= 0 {
        s.append("DC を ");
        let t = dec(margin as u64);
        s.append(t.as_str());
        s.append(" 上回った");
    } else {
        s.append("DC に ");
        let t = dec((-margin) as u64);
        s.append(t.as_str());
        s.append(" 届かなかった");
    }
    match &c.tier {
        Some(t) => {
            s.append("／極=");
            s.append(t.as_str());
            s.append("（大失敗または大成功＝劇的に）");
        },
        None => {},
    }
    s.append("）\n");
    s
}

pub fn check_outcome_note(checks: &[CheckOutcome]) -> (r: String)
    ensures
        r@ == check_outcome_spec(check_views(checks@)),
{
    let ghost cs = check_views(checks@);
    let ghost p = |c: CheckModel| untold(c);
    let mut body = String::new();
    let mut kept: usize = 0;
    let mut i: usize = 0;
    assert(cs.take(0).filter(p) =~= Seq::<CheckModel>::empty());
    while i < checks.len()
        invariant
            i <= checks@.len(),
            cs == check_views(checks@),
            p == (|c: CheckModel| untold(c)),
            kept == cs.take(i as int).filter(p).len(),
            kept <= i,
            body@ == concat_spec(cs.take(i as int).filter(p).map_values(|c: CheckModel| check_line(c))),
        decreases checks@.len() - i,
    {
        proof {
            assert(cs.take(i + 1) =~= cs.take(i as int).push(cs[i as int]));
            cs.take(i as int).lemma_filter_push(cs[i as int], p);
        }
        let ghost before = cs.take(i as int).filter(p);
        assert(cs[i as int] == checks@[i as int]@);
        if checks[i].narration.unicode_len() == 0 {
            let line = check_line_exec(&checks[i]);
            body.append(line.as_str());
            assert(before.push(cs[i as int]).map_values(|c: CheckModel| check_line(c)) =~= before.map_values(
                |c: CheckModel| check_line(c),
            ).push(check_line(cs[i as int])));
            assert(before.map_values(|c: CheckModel| check_line(c)).push(check_line(cs[i as int])).drop_last()
                =~= before.map_values(|c: CheckModel| check_line(c)));
            kept = kept + 1;
        }
        i = i + 1;
    }
    assert(cs.take(i as int) =~= cs);
    if kept == 0 {
        return String::new();
    }
    let mut s = String::from_str(CHECK_HEAD);
    s.append(body.as_str());
    s
}

/// The heading of the repair instruction after a rejection.
pub const REJECTION_HEAD: &'static str = "提出された ops はエンジンに却下されました。以下の理由をすべて解消し、今ある盤面の事実だけを使って ops を修正し、emit_delta を再提出してください。\n";

/// The repair instruction: every reason, rendered in `lang`, one bullet each.
pub open spec fn rejection_feedback_spec(rs: Seq<ReasonModel>, lang: Lang) -> Seq<char> {
    REJECTION_HEAD@ + concat_spec(rs.map_values(|r: ReasonModel| "- "@ + localize_spec(r, lang) + "\n"@))
}

pub fn rejection_feedback(reasons: &[RejectReason], lang: Lang) -> (r: String)
    ensures
        r@ == rejection_feedback_spec(reason_views(reasons@), lang),
{
    let ghost lines = reason_views(reasons@).map_values(|r: ReasonModel| "- "@ + localize_spec(r, lang) + "\n"@);
    let mut s = String::from_str(REJECTION_HEAD);
    let mut i: usize = 0;
    while i < reasons.len()
        invariant
            i <= reasons@.len(),
            lines == reason_views(reasons@).map_values(|r: ReasonModel| "- "@ + localize_spec(r, lang) + "\n"@),
            s@ == REJECTION_HEAD@ + concat_spec(lines.take(i as int)),
        decreases reasons@.len() - i,
    {
        assert(lines.take(i + 1).drop_last() =~= lines.take(i as int));
        let t = reasons[i].localize(lang);
        s.append("- ");
        s.append(t.as_str());
        s.append("\n");
        assert(s@ =~= REJECTION_HEAD@ + concat_spec(lines.take(i + 1)));
        i = i + 1;
    }
    assert(lines.take(i as int) =~= lines);
    s
}

} // verus!
