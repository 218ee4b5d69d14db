use kataribe::brief::{scenario_brief, state_brief};
use kataribe::engine::CheckOutcome;
use kataribe::gate::Gate;
use kataribe::memoria::MemoryFragment;
use kataribe::prompt::{
    check_outcome_note, gate_brief, history_note, recalled_lore_note, recent_narration_note, rejection_feedback,
    GM_SYSTEM,
};
use kataribe::reason::{Lang, RejectReason};
use kataribe::spine::{
    CharacterDef, Exit, GoalDef, Location, LocationItem, Protagonist, Scenario, TakeMode, VoteRule, AttrRequirement,
};
use kataribe::state::GameState;
use kataribe::strmap::{StrMap, StrSet};
use kataribe::turn::TurnLog;

#[test]
fn history_note_respects_budget_drops_oldest() {
    let history: Vec<TurnLog> = (1..=200)
        .map(|i| TurnLog {
            turn: i,
            player: format!("行動{i}"),
            summary: format!("ターン{i}の出来事があった。廊下を歩き、扉を確かめ、灯りを整えた。"),
            ..Default::default()
        })
        .collect();
    let note = history_note(&history);
    assert!(note.contains("ターン200の出来事"), "最新は必ず残る");
    assert!(!note.contains("ターン1の出来事"), "最古は予算で落ちる");
    assert!(note.contains("省略"), "省略した旨を明示する");
}

#[test]
fn gm_system_demands_turn_summary() {
    let g = GM_SYSTEM;
    assert!(g.contains("summary"), "summary の記述義務が刷り込まれる");
    assert!(g.contains("経緯") || g.contains("要約"), "経緯の 1 行要約であることを説明する");
}

fn check(stat: &str, roll: u32, modifier: i64, total: i64, dc: u32, success: bool, tier: Option<&str>, narration: &str) -> CheckOutcome {
    CheckOutcome {
        entity: "player".into(),
        stat: stat.into(),
        sides: 20,
        roll,
        modifier,
        total,
        dc,
        success,
        tier: tier.map(|t| t.into()),
        narration: narration.into(),
        sound: String::new(),
    }
}

#[test]
fn check_note_demands_causal_reason_and_surfaces_margin_and_tier() {
    let win = vec![check("話術", 18, 3, 21, 15, true, None, "")];
    let note = check_outcome_note(&win);
    assert!(note.contains("なぜ"), "なぜその結果になったかの後付けを要求する");
    assert!(note.contains("原因"), "物語内の『原因』として語らせる");
    assert!(note.contains("DC を 6 上回った"), "成功 margin (+6) を surface する");

    let fumble = vec![check("str", 1, 2, 3, 6, false, Some("crit_fail"), "")];
    let note2 = check_outcome_note(&fumble);
    assert!(note2.contains("DC に 3 届かなかった"), "失敗 margin (-3) を surface する");
    assert!(note2.contains("crit_fail"), "極 (tier) を surface して劇的な後付けを促す");
}

#[test]
fn check_note_skips_checks_with_authored_narration() {
    let mk = |narration: &str| check("STR", 5, 0, 5, 15, false, None, narration);
    assert!(check_outcome_note(&[mk("扉はびくともしない。")]).is_empty(), "authored narration 付きは LLM 還流から除外");
    assert!(!check_outcome_note(&[mk("")]).is_empty(), "narration 無しは LLM に語らせるため還流する");
}

#[test]
fn gm_system_demands_post_hoc_reason_for_checks() {
    let s = GM_SYSTEM;
    assert!(s.contains("後付け"), "判定結果に理由を後付けする旨を刷り込む");
    assert!(s.contains("なぜ") && s.contains("原因"), "なぜ成功/失敗したかを物語内の原因として語らせる");
}

#[test]
fn gm_system_grounds_dice_timing_and_no_one_shot_climax() {
    let s = GM_SYSTEM;
    assert!(s.contains("態勢"), "構える/身構えるは態勢であって決着でない旨を刷り込む");
    assert!(s.contains("決着へ飛躍") || s.contains("決着へ飛躍させてはならない"), "1 回の判定を山場の決着へ拡大させない");
    assert!(
        s.contains("ゴール未達") && s.contains("まだ起きていない"),
        "engine 未記録の決着 (ゴール未達) は未発生 = ungrounded な大敵撃破を narration に書かせない"
    );
}

#[test]
fn gm_system_grounds_unowned_items() {
    let s = GM_SYSTEM;
    assert!(s.contains("意図"), "プレイヤー行動文が『意図』であることを明示する");
    assert!(s.contains("所持品リストに無い") || s.contains("手元に無い"), "未所持の物は存在しない旨を刷り込む");
    assert!(s.contains("検証されない"), "narration は非検証=GM 自身が一貫性を守る旨を明示する");
}

#[test]
fn gm_system_grounds_numeric_stat_ops_and_entity() {
    let s = GM_SYSTEM;
    assert!(s.contains("adjust_stat"), "数値変化は adjust_stat op で起こす旨を刷り込む");
    assert!(s.contains("好感度"), "好感度を例に接地する");
    assert!(s.contains("entity を省略") || s.contains("entity にその NPC"), "NPC 数値は entity 明示 (省略すると主人公に当たる) 旨を刷り込む");
}

#[test]
fn gm_system_line_continuations_join_without_breaks() {
    assert!(GM_SYSTEM.starts_with("あなたは TRPG のゲームマスター (GM) です。"));
    assert!(GM_SYSTEM.contains("現在の状態 (所持品・立っている状態・所在・能力値) に反する出来事を起こしてはならない"));
    assert!(GM_SYSTEM.ends_with("(ツール emit_delta、またはサーバ指示の JSON 形式)。"));
}

#[test]
fn check_line_exact_format() {
    let note = check_outcome_note(&[check("話術", 18, 3, 21, 15, true, None, "")]);
    assert!(note.ends_with("- player の「話術」判定: 1d20(18) + 修正+3 = 21 vs DC 15 → 成功（DC を 6 上回った）\n"));
    let note2 = check_outcome_note(&[check("str", 1, -2, -1, 6, false, Some("crit_fail"), "")]);
    assert!(note2.ends_with("- player の「str」判定: 1d20(1) + 修正-2 = -1 vs DC 6 → 失敗（DC に 7 届かなかった／極=crit_fail（大失敗または大成功＝劇的に））\n"));
}

#[test]
fn gate_brief_renders_each_kind() {
    assert_eq!(gate_brief(&Gate::Always), "条件なし");
    assert_eq!(gate_brief(&Gate::FlagIs { key: "k".into(), value: true }), "状態「k」が true であること");
    assert_eq!(
        gate_brief(&Gate::StatAtLeast { entity: "player".into(), key: "hp".into(), value: -3 }),
        "player の能力「hp」が -3 以上であること"
    );
    let g = Gate::All {
        of: vec![
            Gate::LocationIs { at: "hall".into() },
            Gate::Any { of: vec![Gate::HasVoted { entity: "a".into() }, Gate::TurnsSince { entity: "b".into(), key: "t".into(), turns: 2 }] },
        ],
    };
    assert_eq!(
        gate_brief(&g),
        "すべて満たす(「hall」にいること / いずれか満たす(a が投票 (cast_vote) を済ませていること / b の「t」に刻まれた時から 2 ターン以上経つこと))"
    );
}

#[test]
fn lore_narration_and_rejection_notes() {
    assert_eq!(recalled_lore_note(&[]), "");
    let f = MemoryFragment { id: "x".into(), tags: vec![], text: " 丘の\n 上で ".into() };
    let n = recalled_lore_note(&[f]);
    assert!(n.starts_with("\n\n# いま思い出された記憶"));
    assert!(n.ends_with("- 丘の 上で\n"));
    assert_eq!(recent_narration_note("  \n "), "");
    let r = recent_narration_note(" 霧が出た。 ");
    assert!(r.ends_with("\n---\n霧が出た。\n---\n"));
    let fb = rejection_feedback(&[RejectReason::ItemNotHere { item: "master_key".into() }], Lang::Ja);
    assert!(fb.starts_with("提出された ops はエンジンに却下されました。"));
    assert!(fb.contains("- ") && fb.contains("master_key"));
}

#[test]
fn history_note_exact_for_small_chronicle() {
    assert_eq!(history_note(&[]), "");
    let h = vec![TurnLog { turn: 2, player: "見る".into(), summary: "見た".into(), ..Default::default() }];
    let n = history_note(&h);
    assert!(n.ends_with("\n- T2 プレイヤー「見る」→ 見た\n"));
    assert!(!n.contains("省略"));
}

fn empty_scenario() -> Scenario {
    Scenario {
        title: "密室".into(),
        world: String::new(),
        protagonist: Protagonist { name: String::new(), profile: String::new(), icon: None },
        start: "cell".into(),
        allowed_flags: StrSet::new(),
        global_flags: StrSet::new(),
        persistent_flags: StrSet::new(),
        flag_rules: StrMap::new(),
        flag_hints: StrMap::new(),
        flag_titles: StrMap::new(),
        hidden_flags: StrSet::new(),
        role_assignment: None,
        secret_attributes: StrSet::new(),
        hidden_attributes: StrSet::new(),
        vote_rules: vec![],
        initial_stats: StrMap::new(),
        hidden_stats: StrSet::new(),
        initial_skills: StrSet::new(),
        initial_inventory: StrSet::new(),
        initial_attributes: StrMap::new(),
        cast: StrSet::new(),
        characters: StrMap::new(),
        triggers: vec![],
        challenges: StrMap::new(),
        locations: StrMap::new(),
        goal: None,
        goals: vec![],
    }
}

fn character(name: &str) -> CharacterDef {
    CharacterDef {
        name: name.into(),
        profile: String::new(),
        stats: StrMap::new(),
        skills: StrSet::new(),
        inventory: StrSet::new(),
        icon: None,
        attributes: StrMap::new(),
        taboos: vec![],
    }
}

fn room(description: &str) -> Location {
    Location {
        title: String::new(),
        description: description.into(),
        image: None,
        bgm: None,
        present: StrSet::new(),
        items: StrMap::new(),
        exits: vec![],
    }
}

#[test]
fn scenario_brief_lists_places_items_exits_and_goal() {
    let mut sc = empty_scenario();
    let mut cell = room("石の小部屋");
    cell.items.insert("rusty_key".into(), LocationItem::Legacy(Gate::FlagIs { key: "drawer_opened".into(), value: true }));
    cell.items.insert("desk".into(), LocationItem::Def { when: Gate::Always, take: TakeMode::Fixed });
    cell.exits.push(Exit { to: "corridor".into(), gate: Gate::HasItem { entity: "player".into(), item: "rusty_key".into() } });
    sc.locations.insert("cell".into(), cell);
    sc.goal = Some(Gate::LocationIs { at: "corridor".into() });
    let b = scenario_brief(&sc);
    assert_eq!(
        b,
        "# シナリオ: 密室\n\n## 場所\n### cell\n石の小部屋\n- アイテム:\n  - desk (備え付け・取得不可。取らずにその場で使える)\n  - rusty_key (取得条件: 状態「drawer_opened」が true であること)\n- 出口:\n  - corridor (移動条件: player が「rusty_key」を所持していること)\n\n## クリア条件\n「corridor」にいること\n"
    );
}

#[test]
fn scenario_brief_surfaces_world_protagonist_characters_flags_votes_goals() {
    let mut sc = empty_scenario();
    sc.world = "  霧の村  ".into();
    sc.protagonist = Protagonist { name: "旅人".into(), profile: " ".into(), icon: None };
    let mut alice = character("アリス");
    alice.profile = " 村娘 ".into();
    sc.characters.insert("alice".into(), alice);
    sc.locations.insert("r".into(), room("d"));
    sc.allowed_flags.insert("met".into());
    sc.allowed_flags.insert("secret".into());
    sc.hidden_flags.insert("secret".into());
    sc.flag_titles.insert("met".into(), "出会い".into());
    sc.flag_hints.insert("met".into(), " 話しかけたら ".into());
    sc.vote_rules.push(VoteRule { when: Gate::Always, voter_attribute: Some(AttrRequirement { key: "役職".into(), value: "人狼".into() }) });
    sc.goals.push(GoalDef { id: "end".into(), when: Gate::Always, title: String::new(), visible: true, hint: String::new(), narration: String::new() });
    let b = scenario_brief(&sc);
    assert!(b.contains("\n## 世界観\n霧の村\n"));
    assert!(b.contains("\n## 主人公（プレイヤー）\n- 呼称: 旅人\n") && !b.contains("- 設定:"));
    assert!(b.contains("\n## 登場人物\n### アリス (alice)\n村娘\n"));
    assert!(b.contains("- met（出会い）: 話しかけたら\n"));
    assert!(!b.contains("- secret"));
    assert!(b.contains("- 条件なし のとき: 役職=人狼 の者だけが投票できる\n"));
    assert!(b.ends_with("\n## クリア条件 (いずれかの結末へ)\n- end: 条件なし\n"));
}

#[test]
fn state_brief_shows_present_items_flags_stats_and_open_votes() {
    let mut sc = empty_scenario();
    let mut cell = room("d");
    cell.present.insert("alice".into());
    cell.present.insert("ghost".into());
    sc.locations.insert("cell".into(), cell);
    sc.characters.insert("alice".into(), character("アリス"));
    sc.characters.insert("bob".into(), character(""));
    sc.hidden_stats.insert("timer".into());
    sc.vote_rules.push(VoteRule { when: Gate::Always, voter_attribute: None });
    let mut st = GameState::new("cell", 1);
    st.add_to_inventory("player", "key");
    st.set_stat("player", "hp", 5);
    st.set_stat("player", "timer", 3);
    st.set_stat("bob", "生存", 0);
    st.flags.insert("door".into(), true);
    st.flags.insert("off".into(), false);
    let b = state_brief(&st, &sc);
    assert!(b.starts_with("# 現在の状態 (turn 0)\n- 現在地: cell\n- この場にいる: アリス (alice)\n- 所持品: player: key\n- 立っている状態: door\n"));
    assert!(b.contains("- 能力値: bob: 生存=0 / player: hp=5\n"));
    assert!(b.contains("- 使える能力: なし\n- 属性: なし"));
    assert!(b.contains("\n- ⚠ **いま投票が開いている**。(生存者なら誰でも) アリス (alice) — "));
    assert!(b.contains("プレイヤー (player) にも投票権がある"));
}
