use kataribe::engine::{adjudicate, apply, is_goal, Verdict};
use kataribe::gate::Gate;
use kataribe::reason::RejectReason;
use kataribe::spine::{
    ChallengeDef, ChallengeMod, ChallengeOutcome, CharacterDef, GoalDef, Location, LocationItem, Natural, Protagonist,
    Scenario, ScenarioError, StatDecl, TierDef, Trigger,
};
use kataribe::state::{StateDelta, StateOp, PLAYER};
use kataribe::strmap::{StrMap, StrSet};

fn set(xs: &[&str]) -> StrSet {
    let mut s = StrSet::new();
    for x in xs {
        s.insert(x.to_string());
    }
    s
}

fn nums(xs: &[(&str, i64)]) -> StrMap<i64> {
    let mut m = StrMap::new();
    for (k, v) in xs {
        m.insert(k.to_string(), *v);
    }
    m
}

fn strs(xs: &[(&str, &str)]) -> StrMap<String> {
    let mut m = StrMap::new();
    for (k, v) in xs {
        m.insert(k.to_string(), v.to_string());
    }
    m
}

fn room(description: &str) -> Location {
    Location {
        title: String::new(),
        description: description.into(),
        image: None,
        bgm: None,
        present: StrSet::new(),
        items: StrMap::new(),
        exits: vec![],
    }
}

fn character(name: &str) -> CharacterDef {
    CharacterDef {
        name: name.into(),
        profile: String::new(),
        stats: StrMap::new(),
        skills: StrSet::new(),
        inventory: StrSet::new(),
        icon: None,
        attributes: StrMap::new(),
        taboos: vec![],
    }
}

/// A scenario with one room (the start), the given flags and a goal that always holds.
fn base(title: &str, start: &str, allowed: &[&str]) -> Scenario {
    let mut locations = StrMap::new();
    locations.insert(start.to_string(), room("部屋"));
    Scenario {
        title: title.into(),
        world: String::new(),
        protagonist: Protagonist { name: String::new(), profile: String::new(), icon: None },
        start: start.into(),
        allowed_flags: set(allowed),
        global_flags: StrSet::new(),
        persistent_flags: StrSet::new(),
        flag_rules: StrMap::new(),
        flag_hints: StrMap::new(),
        flag_titles: StrMap::new(),
        hidden_flags: StrSet::new(),
        role_assignment: None,
        secret_attributes: StrSet::new(),
        hidden_attributes: StrSet::new(),
        vote_rules: vec![],
        initial_stats: StrMap::new(),
        hidden_stats: StrSet::new(),
        initial_skills: StrSet::new(),
        initial_inventory: StrSet::new(),
        initial_attributes: StrMap::new(),
        cast: StrSet::new(),
        characters: StrMap::new(),
        triggers: vec![],
        challenges: StrMap::new(),
        locations,
        goal: Some(Gate::Always),
        goals: vec![],
    }
}

fn flag_is(key: &str, value: bool) -> Gate {
    Gate::FlagIs { key: key.into(), value }
}

fn set_flag(key: &str) -> StateOp {
    StateOp::SetFlag { key: key.into(), value: true }
}

fn d(ops: Vec<StateOp>) -> StateDelta {
    StateDelta::new("", ops)
}

fn outcome(flag: Option<&str>, narration: &str) -> ChallengeOutcome {
    ChallengeOutcome { flag: flag.map(|f| f.into()), effects: vec![], narration: narration.into(), sound: String::new() }
}

fn challenge(stat: Option<&str>, sides: u32, dc: u32) -> ChallengeDef {
    ChallengeDef {
        description: String::new(),
        entity: None,
        requires: None,
        modifiers: vec![],
        stat: stat.map(|s| s.into()),
        sides,
        dc,
        on_success: None,
        on_failure: None,
        tiers: StrMap::new(),
    }
}

fn trigger(id: &str, when: Gate, effects: Vec<StateOp>, narration: &str) -> Trigger {
    Trigger {
        id: id.into(),
        when,
        effects,
        narration: narration.into(),
        recall: None,
        image: None,
        image_mode: None,
        sound: None,
        repeatable: false,
    }
}

fn goal(id: &str, when: Gate, narration: &str) -> GoalDef {
    GoalDef { id: id.into(), when, title: String::new(), visible: true, hint: String::new(), narration: narration.into() }
}

fn attempt(id: &str) -> StateDelta {
    d(vec![StateOp::AttemptChallenge { entity: PLAYER.into(), challenge: id.into() }])
}

#[test]
fn validate_rejects_undeclared_tier_flag() {
    let mut sc = base("bad", "room", &[]);
    let mut c = challenge(Some("str"), 6, 5);
    c.tiers.insert(
        "crit_fail".into(),
        TierDef { natural: Natural::Min, threshold: None, effects: vec![], flag: Some("ghost_flag".into()), narration: String::new(), sound: String::new() },
    );
    sc.challenges.insert("bad_check".into(), c);
    let errs = sc.validate();
    assert!(
        errs.iter().any(|e| matches!(e, ScenarioError::ChallengeFlagUndeclared { flag, .. } if flag == "ghost_flag")),
        "未宣言の tier flag は validate で検出されるべき"
    );
}

fn village() -> Scenario {
    let mut sc = base("村", "square", &["met_alice", "door_open"]);
    sc.initial_stats = nums(&[("hp", 10)]);
    sc.initial_skills = set(&["tracking"]);
    sc.global_flags = set(&["met_alice"]);
    let mut alice = character("アリス");
    alice.stats.insert("好感度".into(), StatDecl { initial: 0, min: 0, max: Some(100) });
    sc.characters.insert("alice".into(), alice);
    let mut square = room("村の広場。");
    square.items.insert("lantern".into(), LocationItem::Legacy(Gate::Always));
    sc.locations = StrMap::new();
    sc.locations.insert("square".into(), square);
    sc
}

fn forest() -> Scenario {
    let mut sc = base("森", "forest_entrance", &["campfire_lit"]);
    sc.initial_stats = nums(&[("hp", 10), ("stamina", 5)]);
    sc.locations = StrMap::new();
    sc.locations.insert("forest_entrance".into(), room("森の入口。"));
    sc
}

#[test]
fn transition_carries_state_drops_local_flags() {
    let village = village();
    let forest = forest();
    assert!(village.validate().is_empty() && forest.validate().is_empty());

    let mut prev = village.initial_state(7);
    apply(&mut prev, &village, &d(vec![StateOp::AdjustStat { entity: PLAYER.into(), key: "hp".into(), delta: -3 }])).unwrap();
    apply(&mut prev, &village, &d(vec![StateOp::AddItem { item: "lantern".into() }])).unwrap();
    apply(&mut prev, &village, &d(vec![StateOp::AdjustStat { entity: "alice".into(), key: "好感度".into(), delta: 40 }])).unwrap();
    apply(&mut prev, &village, &d(vec![set_flag("met_alice")])).unwrap();
    apply(&mut prev, &village, &d(vec![set_flag("door_open")])).unwrap();
    assert_eq!(prev.stat("hp"), 7);

    let s = forest.transition(&prev, &village);

    assert_eq!(s.location, "forest_entrance", "場所は次モジュールの start にリセット");
    assert_eq!(s.stat("hp"), 7, "数値は持ち越し (森の initial 10 を上書き)");
    assert_eq!(s.stat("stamina"), 5, "次モジュールの新規 stat は初期化される");
    assert!(s.has_item(PLAYER, "lantern"), "所持品は持ち越し");
    assert!(s.has_skill(PLAYER, "tracking"), "能力は持ち越し");
    assert_eq!(s.stat_of("alice", "好感度"), 40, "NPC の数値も持ち越し (忘れない GM)");
    assert_eq!(s.flags.get("met_alice"), Some(&true), "global フラグは持ち越し");
    assert_eq!(s.flags.get("door_open"), None, "局所フラグは捨てる (再訪で復活しない最小形)");
    assert!(s.fired.items.is_empty(), "発火済みトリガーはリセット (次モジュールの反応は新規)");
}

#[test]
fn validate_rejects_undeclared_global_flag() {
    let mut sc = base("bad", "room", &[]);
    sc.global_flags = set(&["ghost_world_flag"]);
    assert!(
        sc.validate().iter().any(|e| matches!(e, ScenarioError::GlobalFlagUndeclared { flag } if flag == "ghost_world_flag")),
        "未宣言の global_flag は validate で検出されるべき"
    );
}

fn branching() -> Scenario {
    let mut sc = base("分岐の引き出し", "study", &["fumble_drawer", "drawer_jammed", "drawer_opened"]);
    sc.initial_stats = nums(&[("str", 2)]);
    let mut c = challenge(Some("str"), 6, 5);
    c.tiers.insert(
        "crit_fail".into(),
        TierDef { natural: Natural::Min, threshold: None, effects: vec![], flag: Some("fumble_drawer".into()), narration: String::new(), sound: String::new() },
    );
    sc.challenges.insert("drawer_pick".into(), c);
    sc.triggers.push(trigger("drawer_jam", flag_is("fumble_drawer", true), vec![set_flag("drawer_jammed")], "工具が折れ、引き出しは固まった。"));
    sc.goal = None;
    sc.goals = vec![goal("jammed_ending", flag_is("drawer_jammed", true), ""), goal("opened_ending", flag_is("drawer_opened", true), "")];
    sc.locations = StrMap::new();
    sc.locations.insert("study".into(), room("書斎"));
    sc
}

#[test]
fn reached_selects_named_goal_from_fumble_branch() {
    let sc = branching();
    assert!(sc.validate().is_empty(), "goals だけ (goal 無し) でも健全");
    let mut s = sc.initial_state(19);
    assert_eq!(sc.reached(&s), None, "開始時はどのエンディングにも未到達");

    apply(&mut s, &sc, &attempt("drawer_pick")).unwrap();

    assert_eq!(s.flags.get("drawer_jammed"), Some(&true), "大失敗→fumble→trigger→drawer_jammed");
    assert_eq!(sc.reached(&s).as_deref(), Some("jammed_ending"), "大失敗が jammed_ending を選ぶ=分岐セレクタ (opened_ending ではない)");
    assert!(is_goal(&s, &sc), "named goal 到達でも is_goal は true (後方互換)");
}

#[test]
fn stat_at_most_death_goal_surfaces_id_and_narration() {
    let mut sc = base("t", "room", &["escaped"]);
    sc.initial_stats = nums(&[("hp", 10)]);
    sc.goal = None;
    sc.goals = vec![
        goal("defeated", Gate::StatAtMost { entity: "player".into(), key: "hp".into(), value: 0 }, "あなたは力尽き、視界が暗転した。"),
        goal("escaped", flag_is("escaped", true), "扉を抜け、外の光を浴びた。"),
    ];
    assert!(sc.validate().is_empty(), "death/escaped goal 込みで健全");
    let mut s = sc.initial_state(1);
    assert!(sc.reached_goal(&s).is_none(), "開始時はどの goal も未到達");

    apply(&mut s, &sc, &d(vec![StateOp::AdjustStat { entity: PLAYER.into(), key: "hp".into(), delta: -10 }])).unwrap();
    assert_eq!(s.stat_of(PLAYER, "hp"), 0, "hp は 0 クランプ");

    let g = sc.reached_goal(&s).expect("hp≤0 で defeated に到達");
    assert_eq!(g.id, "defeated", "どの goal に達したか (StatAtMost が効く)");
    assert_eq!(g.narration, "あなたは力尽き、視界が暗転した。", "結末のナレーション");
    assert_eq!(sc.reached(&s).as_deref(), Some("defeated"));
}

#[test]
fn validate_rejects_scenario_with_no_goal() {
    let mut sc = base("goalless", "room", &[]);
    sc.goal = None;
    assert!(sc.validate().iter().any(|e| matches!(e, ScenarioError::NoGoal)), "goal も goals も無いシナリオは validate で弾く");
}

#[test]
fn initial_state_seeds_inventory_for_player_and_npc() {
    let mut sc = base("t", "room", &[]);
    sc.initial_inventory = set(&["chalk", "textbook"]);
    let mut moka = character("モカ");
    moka.inventory = set(&["smartphone"]);
    sc.characters.insert("moka".into(), moka);
    let s = sc.initial_state(1);
    assert!(s.has_item(PLAYER, "chalk") && s.has_item(PLAYER, "textbook"), "主人公の初期所持");
    assert!(s.has_item("moka", "smartphone"), "NPC の初期所持");
    assert!(!s.has_item(PLAYER, "smartphone"), "NPC の所持は player に混ざらない");
}

#[test]
fn attribute_seed_trigger_rewrite_and_gate() {
    let mut sc = base("t", "room", &["awakened"]);
    sc.initial_attributes = strs(&[("クラス", "戦士")]);
    sc.triggers.push(trigger(
        "awaken",
        flag_is("awakened", true),
        vec![StateOp::SetAttribute { entity: "player".into(), key: "クラス".into(), value: "魔法剣士".into() }],
        "剣に魔力が宿った。",
    ));
    sc.goal = None;
    sc.goals = vec![goal(
        "mage_knight",
        Gate::AttributeIs { entity: "player".into(), key: "クラス".into(), value: "魔法剣士".into() },
        "魔法剣士として歩み出す。",
    )];
    assert!(sc.validate().is_empty(), "宣言済みキーへの set_attribute は健全");
    let mut s = sc.initial_state(1);
    assert_eq!(s.attribute_of(PLAYER, "クラス"), "戦士", "初期属性が seed される");
    assert!(sc.reached_goal(&s).is_none(), "転職前は未到達");

    let out = apply(&mut s, &sc, &d(vec![set_flag("awakened")])).expect("フラグは立てられる");
    assert!(out.fired.iter().any(|f| f.id == "awaken"), "トリガーが転職を起こす");
    assert_eq!(s.attribute_of(PLAYER, "クラス"), "魔法剣士", "トリガーで属性が書き換わる");
    assert_eq!(sc.reached_goal(&s).map(|g| g.id.as_str()), Some("mage_knight"), "AttributeIs gate を越えて到達");
}

#[test]
fn llm_proposed_set_attribute_is_rejected() {
    let mut sc = base("t", "room", &[]);
    sc.initial_attributes = strs(&[("クラス", "戦士")]);
    let mut s = sc.initial_state(1);
    let delta = d(vec![StateOp::SetAttribute { entity: PLAYER.into(), key: "クラス".into(), value: "勇者".into() }]);
    match adjudicate(&s, &sc, &delta) {
        Verdict::Reject { reasons } => assert!(
            reasons.iter().any(|r| matches!(r, RejectReason::AttributeSetNotAllowed { key, .. } if key == "クラス")),
            "AttributeSetNotAllowed で却下されるべき"
        ),
        Verdict::Accept => panic!("LLM の set_attribute は却下されるべき"),
    }
    assert!(apply(&mut s, &sc, &delta).is_err(), "却下デルタは適用されない");
    assert_eq!(s.attribute_of(PLAYER, "クラス"), "戦士", "却下ならクラスは元のまま");
}

#[test]
fn validate_rejects_undeclared_attribute_key() {
    let mut sc = base("t", "room", &["x"]);
    sc.initial_attributes = strs(&[("クラス", "戦士")]);
    sc.triggers.push(trigger(
        "bad",
        flag_is("x", true),
        vec![StateOp::SetAttribute { entity: "player".into(), key: "種族".into(), value: "エルフ".into() }],
        "",
    ));
    let errs = sc.validate();
    assert!(
        errs.iter().any(|e| matches!(e, ScenarioError::AttributeKeyUndeclared { key, .. } if key == "種族")),
        "未宣言キー '種族' への set_attribute を validate が弾く: {errs:?}"
    );
}

#[test]
fn unknown_stat_reason_names_the_entity() {
    let mut sc = base("t", "room", &[]);
    let mut moka = character("モカ");
    moka.stats.insert("好感度".into(), StatDecl { initial: 10, min: 0, max: Some(100) });
    sc.characters.insert("moka".into(), moka);
    let s = sc.initial_state(1);
    let delta = d(vec![StateOp::AdjustStat { entity: PLAYER.into(), key: "好感度".into(), delta: 5 }]);
    match adjudicate(&s, &sc, &delta) {
        Verdict::Reject { reasons } => assert!(
            reasons.iter().any(|r| matches!(r, RejectReason::UnknownStat { entity, key } if entity == "player" && key == "好感度")),
            "UnknownStat が entity=player を名指すべき: {reasons:?}"
        ),
        Verdict::Accept => panic!("player は好感度を持たないので却下されるべき"),
    }
    let ok = d(vec![StateOp::AdjustStat { entity: "moka".into(), key: "好感度".into(), delta: 5 }]);
    assert!(matches!(adjudicate(&s, &sc, &ok), Verdict::Accept), "entity=moka なら受理");
}

#[test]
fn challenge_outcomes_set_flags_with_and_without_stat() {
    let mut sc = base("t", "room", &["won", "lost", "luck_win", "luck_lose"]);
    sc.initial_stats = nums(&[("STR", 5)]);
    let mut power = challenge(Some("STR"), 1, 6);
    power.description = "力で押す".into();
    power.on_success = Some(outcome(Some("won"), ""));
    power.on_failure = Some(outcome(Some("lost"), ""));
    let mut luck = challenge(None, 1, 6);
    luck.description = "運任せ".into();
    luck.on_success = Some(outcome(Some("luck_win"), ""));
    luck.on_failure = Some(outcome(Some("luck_lose"), ""));
    sc.challenges.insert("power".into(), power);
    sc.challenges.insert("luck".into(), luck);
    assert!(sc.validate().is_empty(), "on_success/on_failure フラグ宣言済で健全");
    let mut s = sc.initial_state(1);

    let o = apply(&mut s, &sc, &attempt("power")).unwrap();
    assert!(s.flag("won") && !s.flag("lost"), "stat 修正込みで成功 → on_success フラグ");
    assert_eq!(o.checks[0].modifier, 5, "stat 修正が乗る");

    let o2 = apply(&mut s, &sc, &attempt("luck")).unwrap();
    assert!(s.flag("luck_lose") && !s.flag("luck_win"), "stat 無し=修正0 → 失敗 → on_failure フラグ");
    assert_eq!(o2.checks[0].modifier, 0, "stat 無し = 修正 0 (能力に依らない純粋ダイス)");
}

#[test]
fn challenge_requires_gate_and_conditional_modifier() {
    let mut sc = base("t", "room", &["taught", "won"]);
    sc.initial_stats = nums(&[("STR", 5)]);
    let mut c = challenge(Some("STR"), 1, 11);
    c.description = "秘奥義".into();
    c.requires = Some(flag_is("taught", true));
    c.on_success = Some(outcome(Some("won"), ""));
    c.modifiers = vec![ChallengeMod { when: flag_is("taught", true), bonus: 5 }];
    sc.challenges.insert("secret".into(), c);
    assert!(sc.validate().is_empty());
    let mut s = sc.initial_state(1);

    match adjudicate(&s, &sc, &attempt("secret")) {
        Verdict::Reject { reasons } => assert!(
            reasons.iter().any(|r| matches!(r, RejectReason::ChallengeLocked { challenge } if challenge == "secret")),
            "requires 未達なら ChallengeLocked: {reasons:?}"
        ),
        Verdict::Accept => panic!("requires 未達なら却下されるべき"),
    }

    apply(&mut s, &sc, &d(vec![set_flag("taught")])).unwrap();

    let o = apply(&mut s, &sc, &attempt("secret")).unwrap();
    assert_eq!(o.checks[0].modifier, 10, "STR5 + 教えボーナス5 = 修正10");
    assert!(s.flag("won"), "教えの有利で DC を越えて成功 (修正が load-bearing)");
}

#[test]
fn challenge_outcome_narration_surfaces_every_attempt() {
    let mut sc = base("t", "room", &["opened"]);
    sc.initial_stats = nums(&[("STR", 0)]);
    let mut c = challenge(Some("STR"), 1, 6);
    c.on_success = Some(outcome(Some("opened"), "錠が外れた。"));
    c.on_failure = Some(outcome(None, "工具が滑る。"));
    sc.challenges.insert("pick".into(), c);
    let mut s = sc.initial_state(1);
    let o1 = apply(&mut s, &sc, &attempt("pick")).unwrap();
    assert!(!o1.checks[0].success);
    assert_eq!(o1.checks[0].narration, "工具が滑る。", "失敗のナレーションが出る");
    let o2 = apply(&mut s, &sc, &attempt("pick")).unwrap();
    assert_eq!(o2.checks[0].narration, "工具が滑る。", "繰り返す失敗でも毎回出る");
}

#[test]
fn validate_rejects_undeclared_challenge_outcome_flag() {
    let mut sc = base("t", "room", &[]);
    let mut c = challenge(None, 1, 1);
    c.on_success = Some(outcome(Some("ghost"), ""));
    sc.challenges.insert("c".into(), c);
    assert!(
        sc.validate().iter().any(|e| matches!(e, ScenarioError::ChallengeFlagUndeclared { flag, tier, .. } if flag == "ghost" && tier == "on_success")),
        "未宣言の on_success フラグを validate が弾く: {:?}",
        sc.validate()
    );
}

#[test]
fn rejected_delta_changes_nothing_and_fires_nothing() {
    let mut sc = base("t", "room", &["promise_remembered"]);
    let mut alice = character("アリス");
    alice.stats.insert("好感度".into(), StatDecl { initial: 0, min: 0, max: Some(100) });
    sc.characters.insert("alice".into(), alice);
    sc.triggers.push(trigger(
        "recall_promise",
        Gate::StatAtLeast { entity: "alice".into(), key: "好感度".into(), value: 30 },
        vec![set_flag("promise_remembered")],
        "",
    ));
    let mut s = sc.initial_state(7);
    let delta = d(vec![
        StateOp::AdjustStat { entity: "alice".into(), key: "好感度".into(), delta: 30 },
        StateOp::AdjustStat { entity: "alice".into(), key: "mana".into(), delta: 1 },
    ]);
    assert!(apply(&mut s, &sc, &delta).is_err());
    assert_eq!(s.stat_of("alice", "好感度"), 0);
    assert!(!s.flag("promise_remembered"));
    assert!(s.fired.items.is_empty());
    assert_eq!(s.turn, 0);
    let ok = d(vec![StateOp::AdjustStat { entity: "alice".into(), key: "好感度".into(), delta: 30 }]);
    let out = apply(&mut s, &sc, &ok).unwrap();
    assert_eq!(out.fired.len(), 1);
    assert!(s.flag("promise_remembered"));
    assert_eq!(s.turn, 1);
    let again = apply(&mut s, &sc, &ok).unwrap();
    assert!(again.fired.is_empty(), "一度きりのビートは二度発火しない");
}

#[test]
fn narrator_cannot_grant_skills_stamp_turns_or_move_presence() {
    let mut sc = base("t", "room", &["x"]);
    sc.characters.insert("alice".into(), character("アリス"));
    let mut s = sc.initial_state(1);
    let refused = [
        StateOp::GrantSkill { entity: PLAYER.into(), skill: "fireball".into() },
        StateOp::RecordTurn { entity: PLAYER.into(), key: "t".into() },
        StateOp::SetPresence { entity: "alice".into(), present: true },
    ];
    for op in refused {
        let delta = d(vec![set_flag("x"), op]);
        assert!(!adjudicate(&s, &sc, &delta).is_accept(), "authored 専権 op を含むデルタは全体却下");
        assert!(apply(&mut s, &sc, &delta).is_err());
    }
    assert!(!s.has_skill(PLAYER, "fireball"));
    assert!(!s.flag("x"), "同梱の合法 op も適用されない");
    assert_eq!(s.turn, 0);
}

#[test]
fn trigger_may_set_the_role_key() {
    let mut sc = base("t", "r", &[]);
    let mut pool = StrMap::new();
    pool.insert("人狼".to_string(), 1u32);
    sc.role_assignment = Some(kataribe::spine::RoleAssignment { key: "役職".into(), pool, among: vec!["player".into()] });
    sc.triggers.push(trigger(
        "x",
        Gate::Always,
        vec![StateOp::SetAttribute { entity: PLAYER.into(), key: "役職".into(), value: "村人".into() }],
        "",
    ));
    assert!(sc.validate().is_empty(), "{:?}", sc.validate());
}

#[test]
fn flags_written_by_challenge_effects_are_engine_owned() {
    let mut sc = base("t", "r", &["k", "m", "free"]);
    let mut c = challenge(None, 1, 1);
    c.on_success = Some(ChallengeOutcome { flag: None, effects: vec![set_flag("k")], narration: String::new(), sound: String::new() });
    c.tiers.insert(
        "crit".into(),
        TierDef { natural: Natural::Max, threshold: None, effects: vec![set_flag("m")], flag: None, narration: String::new(), sound: String::new() },
    );
    sc.challenges.insert("c".into(), c);
    let authored = sc.authored_only_flags();
    assert!(authored.contains("k") && authored.contains("m"));
    let usable = sc.usable_flags();
    assert!(!usable.contains("k") && !usable.contains("m") && usable.contains("free"));
}

#[test]
fn faceless_challenge_is_refused_only_when_attempted() {
    let mut sc = base("t", "r", &["x"]);
    sc.challenges.insert("dud".into(), challenge(None, 0, 1));
    let mut s = sc.initial_state(1);
    match adjudicate(&s, &sc, &attempt("dud")) {
        Verdict::Reject { reasons } => assert!(reasons.iter().any(|r| matches!(r, RejectReason::DiceSidesInvalid))),
        Verdict::Accept => panic!("0 面の challenge の試行は却下"),
    }
    assert!(apply(&mut s, &sc, &attempt("dud")).is_err());
    assert_eq!(s.turn, 0);
    assert!(apply(&mut s, &sc, &d(vec![set_flag("x")])).is_ok(), "他の合法デルタは通る");
    assert!(s.flag("x"));
}

#[test]
fn authored_effect_that_cannot_run_is_skipped() {
    let mut sc = base("t", "r", &["go"]);
    sc.initial_stats = nums(&[("gold", 10)]);
    sc.triggers.push(trigger(
        "bad",
        flag_is("go", true),
        vec![
            StateOp::ScaleStat { entity: PLAYER.into(), key: "gold".into(), num: 2, den: 0 },
            StateOp::RequestRoll { sides: 0, dc: 1 },
            StateOp::AdjustStat { entity: PLAYER.into(), key: "gold".into(), delta: 1 },
        ],
        "",
    ));
    let mut s = sc.initial_state(1);
    let out = apply(&mut s, &sc, &d(vec![set_flag("go")])).unwrap();
    assert_eq!(out.fired.len(), 1);
    assert!(out.rolls.is_empty());
    assert_eq!(s.stat("gold"), 11);
    assert_eq!(s.rng.cursor, 0);
}

#[test]
fn rolls_follow_requests_in_order() {
    let mut sc = base("t", "r", &[]);
    sc.initial_stats = nums(&[("str", 2)]);
    let mut s = sc.initial_state(5);
    let out = apply(
        &mut s,
        &sc,
        &d(vec![
            StateOp::RequestRoll { sides: 6, dc: 3 },
            StateOp::Check { entity: PLAYER.into(), stat: "str".into(), sides: 20, dc: 10 },
            StateOp::RequestRoll { sides: 20, dc: 15 },
        ]),
    )
    .unwrap();
    assert_eq!(out.rolls.len(), 2);
    assert_eq!((out.rolls[0].sides, out.rolls[0].dc), (6, 3));
    assert_eq!((out.rolls[1].sides, out.rolls[1].dc), (20, 15));
    assert!(out.rolls.iter().all(|r| 1 <= r.result && r.result <= r.sides && r.success == (r.result >= r.dc)));
    assert_eq!(out.checks.len(), 1);
    assert_eq!(s.rng.cursor, 3);
    assert_eq!(s.turn, 1);
}

#[test]
fn repeatable_trigger_fires_again_when_its_condition_returns() {
    let mut sc = base("t", "r", &["x"]);
    sc.initial_stats = nums(&[("gold", 0)]);
    let mut t = trigger(
        "tick",
        flag_is("x", true),
        vec![StateOp::AdjustStat { entity: PLAYER.into(), key: "gold".into(), delta: 1 }],
        "",
    );
    t.repeatable = true;
    sc.triggers.push(t);
    sc.triggers.push(trigger("once", flag_is("x", true), vec![], ""));
    let mut s = sc.initial_state(1);
    let on = d(vec![StateOp::SetFlag { key: "x".into(), value: true }]);
    let off = d(vec![StateOp::SetFlag { key: "x".into(), value: false }]);
    let o1 = apply(&mut s, &sc, &on).unwrap();
    assert_eq!(o1.fired.len(), 2);
    assert!(!s.fired.contains("tick") && s.fired.contains("once"), "repeatable は latch されない");
    apply(&mut s, &sc, &off).unwrap();
    let o3 = apply(&mut s, &sc, &on).unwrap();
    assert_eq!(o3.fired.iter().filter(|f| f.id == "tick").count(), 1, "条件が再び真になれば再発火 (1 apply に 1 回)");
    assert!(!o3.fired.iter().any(|f| f.id == "once"));
    assert_eq!(s.stat("gold"), 2);
}

#[test]
fn no_goal_is_reported_only_without_any_goal() {
    let mut sc = base("t", "r", &[]);
    sc.goal = None;
    sc.goals.push(goal("end", Gate::Always, ""));
    assert!(!sc.validate().iter().any(|e| matches!(e, ScenarioError::NoGoal)));
    sc.goals.clear();
    assert!(sc.validate().iter().any(|e| matches!(e, ScenarioError::NoGoal)));
}

#[test]
fn roles_are_dealt_exactly_from_the_pool() {
    let mut sc = base("t", "r", &[]);
    sc.characters.insert("alice".into(), character("A"));
    sc.characters.insert("bob".into(), character("B"));
    let mut pool = StrMap::new();
    pool.insert("人狼".to_string(), 1u32);
    pool.insert("村人".to_string(), 2u32);
    sc.role_assignment = Some(kataribe::spine::RoleAssignment {
        key: "役職".into(),
        pool,
        among: vec!["player".into(), "alice".into(), "bob".into()],
    });
    for seed in [1u64, 7, 42] {
        let s = sc.initial_state(seed);
        let mut got: Vec<String> =
            ["player", "alice", "bob"].iter().map(|e| s.attribute_of(e, "役職").to_string()).collect();
        got.sort();
        assert_eq!(got, vec!["人狼".to_string(), "村人".to_string(), "村人".to_string()]);
        assert!(["player", "alice", "bob"].iter().all(|e| s.stat_of(e, "生存") == 1));
        assert_eq!(s.stat_of("player", "生存者数"), 3);
        assert_eq!(s.rng.cursor, 0, "配役は本流のダイスを消費しない");
    }
}
