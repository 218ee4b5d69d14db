use kataribe::brief::{scenario_brief, state_brief};
use kataribe::engine::{adjudicate, apply, is_goal, CheckOutcome, Verdict};
use kataribe::memoria::MemoryFragment;
use kataribe::turn::TurnLog;
use kataribe::reason::Lang;
use kataribe::turnloop::{TurnLoop, TurnOutcome, TurnStep};
use kataribe::gate::Gate;
use kataribe::reason::RejectReason;
use kataribe::spine::{
    ChallengeDef, CharacterDef, Exit, Location, LocationItem, Natural, Protagonist, Scenario, StatDecl, TierDef, Trigger,
};
use kataribe::state::{GameState, RngState, StateDelta, StateOp, PLAYER};
use kataribe::strmap::{StrMap, StrSet};

fn set(xs: &[&str]) -> StrSet {
    let mut s = StrSet::new();
    for x in xs {
        s.insert(x.to_string());
    }
    s
}

fn nums(xs: &[(&str, i64)]) -> StrMap<i64> {
    let mut m = StrMap::new();
    for (k, v) in xs {
        m.insert(k.to_string(), *v);
    }
    m
}

fn room(description: &str) -> Location {
    Location {
        title: String::new(),
        description: description.into(),
        image: None,
        bgm: None,
        present: StrSet::new(),
        items: StrMap::new(),
        exits: vec![],
    }
}

fn character(name: &str) -> CharacterDef {
    CharacterDef {
        name: name.into(),
        profile: String::new(),
        stats: StrMap::new(),
        skills: StrSet::new(),
        inventory: StrSet::new(),
        icon: None,
        attributes: StrMap::new(),
        taboos: vec![],
    }
}

/// A character with one bounded stat.
fn with_stat(name: &str, key: &str, initial: i64, min: i64, max: Option<i64>) -> CharacterDef {
    let mut c = character(name);
    c.stats.insert(key.into(), StatDecl { initial, min, max });
    c
}

fn base(title: &str, start: &str, allowed: &[&str]) -> Scenario {
    let mut locations = StrMap::new();
    locations.insert(start.to_string(), room("部屋"));
    Scenario {
        title: title.into(),
        world: String::new(),
        protagonist: Protagonist { name: String::new(), profile: String::new(), icon: None },
        start: start.into(),
        allowed_flags: set(allowed),
        global_flags: StrSet::new(),
        persistent_flags: StrSet::new(),
        flag_rules: StrMap::new(),
        flag_hints: StrMap::new(),
        flag_titles: StrMap::new(),
        hidden_flags: StrSet::new(),
        role_assignment: None,
        secret_attributes: StrSet::new(),
        hidden_attributes: StrSet::new(),
        vote_rules: vec![],
        initial_stats: StrMap::new(),
        hidden_stats: StrSet::new(),
        initial_skills: StrSet::new(),
        initial_inventory: StrSet::new(),
        initial_attributes: StrMap::new(),
        cast: StrSet::new(),
        characters: StrMap::new(),
        triggers: vec![],
        challenges: StrMap::new(),
        locations,
        goal: Some(Gate::Always),
        goals: vec![],
    }
}

fn flag_is(key: &str, value: bool) -> Gate {
    Gate::FlagIs { key: key.into(), value }
}

fn at_least(entity: &str, key: &str, value: i64) -> Gate {
    Gate::StatAtLeast { entity: entity.into(), key: key.into(), value }
}

fn set_flag(key: &str) -> StateOp {
    StateOp::SetFlag { key: key.into(), value: true }
}

fn trigger(id: &str, when: Gate, effects: Vec<StateOp>, narration: &str) -> Trigger {
    Trigger {
        id: id.into(),
        when,
        effects,
        narration: narration.into(),
        recall: None,
        image: None,
        image_mode: None,
        sound: None,
        repeatable: false,
    }
}

fn d(ops: Vec<StateOp>) -> StateDelta {
    StateDelta::new("", ops)
}

fn fresh(sc: &Scenario) -> GameState {
    GameState::new(sc.start.as_str(), 42)
}

/// The escape from a locked cell: the key lies in the drawer, the key unlocks
/// the door, the unlocked door leads to the corridor (the goal).
fn scenario() -> Scenario {
    let mut sc = base("密室脱出", "cell", &["drawer_opened", "door_unlocked"]);
    let mut cell = room("冷たい石の独房。机の引き出しと、錠の下りた扉がある。");
    cell.items.insert("rusty_key".into(), LocationItem::Legacy(flag_is("drawer_opened", true)));
    cell.exits.push(Exit { to: "corridor".into(), gate: flag_is("door_unlocked", true) });
    sc.locations = StrMap::new();
    sc.locations.insert("cell".into(), cell);
    sc.locations.insert("corridor".into(), room("薄暗い廊下。"));
    sc.flag_rules.insert(
        "door_unlocked".into(),
        Gate::HasItem { entity: PLAYER.into(), item: "rusty_key".into() },
    );
    sc.goal = Some(Gate::LocationIs { at: "corridor".into() });
    sc
}

/// The smallest board with numbers: strength 15 and some health open the door.
fn trial() -> Scenario {
    let mut sc = base("力試し", "training_room", &[]);
    sc.initial_stats = nums(&[("hp", 10), ("str", 12), ("gold", 0)]);
    let mut start = room("重い扉のある訓練場。");
    start.exits.push(Exit {
        to: "hall".into(),
        gate: Gate::All { of: vec![at_least(PLAYER, "str", 15), at_least(PLAYER, "hp", 1)] },
    });
    sc.locations = StrMap::new();
    sc.locations.insert("training_room".into(), start);
    sc.locations.insert("hall".into(), room("大広間。"));
    sc.goal = Some(Gate::LocationIs { at: "hall".into() });
    sc
}

/// A heroine with affection (0..=100) and a taboo: she never eats pork.
fn route() -> Scenario {
    let mut sc = base("ヒロインルート", "garden", &["alice_ate_pork"]);
    let mut alice = with_stat("アリス", "好感度", 0, 0, Some(100));
    alice.taboos.push(flag_is("alice_ate_pork", true));
    sc.characters.insert("alice".into(), alice);
    sc.goal = Some(at_least("alice", "好感度", 50));
    sc
}

/// Reactive beats: affection 30 recalls a promise, the promise renews a vow.
fn recall() -> Scenario {
    let mut sc = base("約束", "garden", &["promise_remembered", "vow_renewed"]);
    sc.characters.insert("alice".into(), with_stat("アリス", "好感度", 0, 0, Some(100)));
    sc.triggers.push(trigger(
        "recall_promise",
        at_least("alice", "好感度", 30),
        vec![set_flag("promise_remembered")],
        "アリスは幼い日の約束を思い出す。",
    ));
    sc.triggers.push(trigger(
        "renew_vow",
        flag_is("promise_remembered", true),
        vec![set_flag("vow_renewed")],
        "二人は誓いを新たにする。",
    ));
    sc.goal = Some(flag_is("vow_renewed", true));
    sc
}

/// A closed world of skills: foresight is awakened only by the rite's beat.
fn awakening() -> Scenario {
    let mut sc = base("覚醒", "shrine", &["awakening_rite"]);
    sc.initial_skills = set(&["剣術"]);
    let mut alice = character("アリス");
    alice.skills = set(&["癒し"]);
    sc.characters.insert("alice".into(), alice);
    sc.triggers.push(trigger(
        "awaken_foresight",
        flag_is("awakening_rite", true),
        vec![StateOp::GrantSkill { entity: PLAYER.into(), skill: "予知".into() }],
        "未来の断片が見え始める。",
    ));
    let mut shrine = room("古い社。");
    shrine.exits.push(Exit {
        to: "beyond".into(),
        gate: Gate::HasSkill { entity: PLAYER.into(), skill: "予知".into() },
    });
    sc.locations = StrMap::new();
    sc.locations.insert("shrine".into(), shrine);
    sc.locations.insert("beyond".into(), room("向こう側。"));
    sc.goal = Some(Gate::LocationIs { at: "beyond".into() });
    sc
}

/// A flower to pick and hand to Alice.
fn gift() -> Scenario {
    let mut sc = base("贈り物", "meadow", &[]);
    let mut meadow = room("花の咲く野原。");
    meadow.items.insert("flower".into(), LocationItem::Legacy(Gate::Always));
    sc.locations = StrMap::new();
    sc.locations.insert("meadow".into(), meadow);
    sc.characters.insert("alice".into(), character("アリス"));
    sc.goal = Some(Gate::HasItem { entity: "alice".into(), item: "flower".into() });
    sc
}

/// A fumble that changes the world: a natural 1 on the drawer jams it.
fn fumble() -> Scenario {
    let mut sc = base("引き出し", "study", &["fumble_drawer", "drawer_jammed"]);
    sc.initial_stats = nums(&[("str", 2)]);
    let mut c = ChallengeDef {
        description: String::new(),
        entity: None,
        requires: None,
        modifiers: vec![],
        stat: Some("str".into()),
        sides: 6,
        dc: 5,
        on_success: None,
        on_failure: None,
        tiers: StrMap::new(),
    };
    c.tiers.insert(
        "crit_fail".into(),
        TierDef {
            natural: Natural::Min,
            threshold: None,
            effects: vec![],
            flag: Some("fumble_drawer".into()),
            narration: String::new(),
            sound: String::new(),
        },
    );
    c.tiers.insert(
        "crit_success".into(),
        TierDef {
            natural: Natural::Max,
            threshold: None,
            effects: vec![],
            flag: None,
            narration: String::new(),
            sound: String::new(),
        },
    );
    sc.challenges.insert("drawer_pick".into(), c);
    sc.triggers.push(trigger(
        "drawer_jam",
        flag_is("fumble_drawer", true),
        vec![set_flag("drawer_jammed")],
        "工具が折れ、引き出しは固まった。",
    ));
    sc.goal = Some(flag_is("drawer_jammed", true));
    sc
}

fn raise_affection(amount: i64) -> StateDelta {
    d(vec![StateOp::AdjustStat { entity: "alice".into(), key: "好感度".into(), delta: amount }])
}

// ---------------------------------------------------------------------------
// The locked room.
// ---------------------------------------------------------------------------

#[test]
fn legal_playthrough_reaches_goal() {
    let sc = scenario();
    let mut s = fresh(&sc);
    assert!(!is_goal(&s, &sc));
    apply(&mut s, &sc, &d(vec![set_flag("drawer_opened")])).expect("引き出しはいつでも開けられる");
    apply(&mut s, &sc, &d(vec![StateOp::AddItem { item: "rusty_key".into() }])).expect("鍵が取れる");
    apply(&mut s, &sc, &d(vec![set_flag("door_unlocked")])).expect("鍵を持っているので解錠できる");
    apply(&mut s, &sc, &d(vec![StateOp::Move { to: "corridor".into() }])).expect("廊下へ出られる");
    assert!(is_goal(&s, &sc), "goal (location_is corridor) に到達しているはず");
    assert_eq!(s.turn, 4);
}

#[test]
fn take_key_before_opening_drawer_is_rejected() {
    let sc = scenario();
    let s = fresh(&sc);
    let v = adjudicate(&s, &sc, &d(vec![StateOp::AddItem { item: "rusty_key".into() }]));
    assert!(!v.is_accept(), "drawer_opened 未達なので鍵取得は却下されるべき");
}

#[test]
fn open_door_without_key_is_rejected() {
    let sc = scenario();
    let s = fresh(&sc);
    let v = adjudicate(&s, &sc, &d(vec![set_flag("door_unlocked")]));
    assert!(!v.is_accept());
}

#[test]
fn move_without_unlock_is_rejected() {
    let sc = scenario();
    let s = fresh(&sc);
    let v = adjudicate(&s, &sc, &d(vec![StateOp::Move { to: "corridor".into() }]));
    assert!(!v.is_accept());
}

#[test]
fn phantom_master_key_is_rejected() {
    let sc = scenario();
    let s = fresh(&sc);
    let v = adjudicate(&s, &sc, &d(vec![StateOp::AddItem { item: "master_key".into() }]));
    match v {
        Verdict::Reject { reasons } => {
            assert!(reasons.iter().any(|r| matches!(r, RejectReason::ItemNotHere { item } if item == "master_key")));
        },
        Verdict::Accept => panic!("幻のアイテムを受理してはならない"),
    }
}

#[test]
fn mixed_delta_is_atomic() {
    let sc = scenario();
    let mut s = fresh(&sc);
    let delta = d(vec![set_flag("drawer_opened"), StateOp::AddItem { item: "master_key".into() }]);
    let result = apply(&mut s, &sc, &delta);
    assert!(result.is_err(), "不正な op を含むデルタは却下されるべき");
    assert!(!s.flag("drawer_opened"), "却下されたデルタは state を変えてはならない");
    assert_eq!(s.turn, 0, "却下では turn が進まない");
}

#[test]
fn request_roll_is_adjudicated_by_engine() {
    let sc = scenario();
    let mut s = fresh(&sc);
    let out = apply(&mut s, &sc, &d(vec![StateOp::RequestRoll { sides: 20, dc: 10 }])).expect("ダイス要求自体は合法");
    assert_eq!(out.rolls.len(), 1);
    let outcome = &out.rolls[0];
    assert!((1..=20).contains(&outcome.result));
    assert_eq!(outcome.success, outcome.result >= 10);
    assert_eq!(s.rng.cursor, 1, "1回振ったので cursor が進む");
}

#[test]
fn reached_falls_back_to_single_goal() {
    let sc = scenario();
    let mut s = fresh(&sc);
    assert_eq!(sc.reached(&s), None, "未クリア時は None");
    apply(&mut s, &sc, &d(vec![set_flag("drawer_opened")])).unwrap();
    apply(&mut s, &sc, &d(vec![StateOp::AddItem { item: "rusty_key".into() }])).unwrap();
    apply(&mut s, &sc, &d(vec![set_flag("door_unlocked")])).unwrap();
    apply(&mut s, &sc, &d(vec![StateOp::Move { to: "corridor".into() }])).unwrap();
    assert!(sc.reached(&s).is_some(), "単一 goal も既定 GoalId で reached に乗る");
    assert_eq!(sc.reached(&s).as_deref(), Some("goal"));
    assert!(is_goal(&s, &sc));
}

// ---------------------------------------------------------------------------
// Checks and numbers.
// ---------------------------------------------------------------------------

#[test]
fn check_resolves_with_stat_modifier() {
    let sc = trial();
    let mut s = sc.initial_state(42);
    let out = apply(
        &mut s,
        &sc,
        &d(vec![StateOp::Check { entity: PLAYER.into(), stat: "str".into(), sides: 20, dc: 15 }]),
    )
    .expect("宣言済み stat の判定は合法");
    assert_eq!(out.checks.len(), 1);
    let c = &out.checks[0];
    assert_eq!(c.modifier, 12, "str=12 が修正に乗る");
    assert!((1..=20).contains(&c.roll), "1d20 の出目");
    assert_eq!(c.total, c.roll as i64 + 12, "合計 = 出目 + 修正");
    assert_eq!(c.success, c.total >= 15, "total>=dc で成功");
    assert_eq!(s.rng.cursor, 1, "1回振ったので cursor が進む");
}

#[test]
fn check_with_unknown_stat_is_rejected() {
    let sc = trial();
    let s = sc.initial_state(42);
    let v = adjudicate(
        &s,
        &sc,
        &d(vec![StateOp::Check { entity: PLAYER.into(), stat: "mana".into(), sides: 20, dc: 10 }]),
    );
    match v {
        Verdict::Reject { reasons } => {
            assert!(reasons.iter().any(|r| matches!(r, RejectReason::UnknownStat { key, .. } if key == "mana")))
        },
        Verdict::Accept => panic!("未宣言 stat の判定を受理してはならない"),
    }
}

#[test]
fn check_is_deterministic() {
    let sc = trial();
    let mut a = sc.initial_state(7);
    let mut b = sc.initial_state(7);
    let op = || d(vec![StateOp::Check { entity: PLAYER.into(), stat: "str".into(), sides: 20, dc: 10 }]);
    let ca = apply(&mut a, &sc, &op()).unwrap().checks;
    let cb = apply(&mut b, &sc, &op()).unwrap().checks;
    assert_eq!(ca.len(), cb.len());
    for (x, y) in ca.iter().zip(cb.iter()) {
        assert_eq!((x.roll, x.modifier, x.total, x.success), (y.roll, y.modifier, y.total, y.success), "同じ seed なら同じ判定結果");
    }
}

#[test]
fn stats_load_from_scenario() {
    let sc = trial();
    let s = sc.initial_state(42);
    assert_eq!(s.stat("hp"), 10);
    assert_eq!(s.stat("str"), 12);
    assert_eq!(s.stat("gold"), 0);
    assert_eq!(s.stat("mana"), 0, "未宣言 stat は 0 扱い");
}

#[test]
fn adjust_stat_is_computed_by_engine() {
    let sc = trial();
    let mut s = sc.initial_state(42);
    apply(&mut s, &sc, &d(vec![StateOp::AdjustStat { entity: PLAYER.into(), key: "str".into(), delta: 3 }]))
        .expect("宣言済 stat の加算は合法");
    assert_eq!(s.stat("str"), 15, "12 + 3 をエンジンが計算");
    apply(&mut s, &sc, &d(vec![StateOp::AdjustStat { entity: PLAYER.into(), key: "gold".into(), delta: 25 }]))
        .expect("加算");
    assert_eq!(s.stat("gold"), 25);
}

#[test]
fn hp_clamps_at_zero_and_blocks_exit() {
    let sc = trial();
    let mut s = sc.initial_state(42);
    apply(&mut s, &sc, &d(vec![StateOp::AdjustStat { entity: PLAYER.into(), key: "str".into(), delta: 3 }])).unwrap();
    apply(&mut s, &sc, &d(vec![StateOp::AdjustStat { entity: PLAYER.into(), key: "hp".into(), delta: -100 }]))
        .unwrap();
    assert_eq!(s.stat("hp"), 0, "HP は 0 でクランプ");
    let v = adjudicate(&s, &sc, &d(vec![StateOp::Move { to: "hall".into() }]));
    assert!(!v.is_accept(), "hp=0 では hall へ出られない");
}

#[test]
fn scale_stat_multiplies_and_divides() {
    let sc = trial();
    let mut s = sc.initial_state(42);
    apply(&mut s, &sc, &d(vec![StateOp::AdjustStat { entity: PLAYER.into(), key: "gold".into(), delta: 10 }]))
        .unwrap();
    apply(&mut s, &sc, &d(vec![StateOp::ScaleStat { entity: PLAYER.into(), key: "gold".into(), num: 2, den: 1 }]))
        .unwrap();
    assert_eq!(s.stat("gold"), 20, "10 × 2 をエンジンが計算");
    apply(&mut s, &sc, &d(vec![StateOp::ScaleStat { entity: PLAYER.into(), key: "gold".into(), num: 1, den: 2 }]))
        .unwrap();
    assert_eq!(s.stat("gold"), 10, "20 / 2 をエンジンが計算");
}

#[test]
fn divide_by_zero_is_rejected() {
    let sc = trial();
    let mut s = sc.initial_state(42);
    let before = s.stat("gold");
    let delta = || d(vec![StateOp::ScaleStat { entity: PLAYER.into(), key: "gold".into(), num: 1, den: 0 }]);
    match adjudicate(&s, &sc, &delta()) {
        Verdict::Reject { reasons } => {
            assert!(reasons.iter().any(|r| matches!(r, RejectReason::DivideByZero { key } if key == "gold")))
        },
        Verdict::Accept => panic!("ゼロ除算を受理してはならない"),
    }
    assert!(apply(&mut s, &sc, &delta()).is_err(), "apply も却下する");
    assert_eq!(s.stat("gold"), before, "却下では state 無傷");
}

#[test]
fn unknown_stat_is_rejected() {
    let sc = trial();
    let s = sc.initial_state(42);
    let v = adjudicate(&s, &sc, &d(vec![StateOp::AdjustStat { entity: PLAYER.into(), key: "mana".into(), delta: 9000 }]));
    match v {
        Verdict::Reject { reasons } => {
            assert!(reasons.iter().any(|r| matches!(r, RejectReason::UnknownStat { key, .. } if key == "mana")))
        },
        Verdict::Accept => panic!("未宣言 stat の操作を受理してはならない"),
    }
}

#[test]
fn train_then_exit_reaches_goal() {
    let sc = trial();
    let mut s = sc.initial_state(42);
    assert!(!is_goal(&s, &sc));
    assert!(!adjudicate(&s, &sc, &d(vec![StateOp::Move { to: "hall".into() }])).is_accept());
    apply(&mut s, &sc, &d(vec![StateOp::AdjustStat { entity: PLAYER.into(), key: "str".into(), delta: 3 }])).unwrap();
    apply(&mut s, &sc, &d(vec![StateOp::Move { to: "hall".into() }])).expect("str>=15 かつ hp>=1 なら脱出できる");
    assert!(is_goal(&s, &sc), "goal (hall) 到達");
}

#[test]
fn mixed_stat_delta_is_atomic() {
    let sc = trial();
    let mut s = sc.initial_state(42);
    let delta = d(vec![
        StateOp::AdjustStat { entity: PLAYER.into(), key: "str".into(), delta: 3 },
        StateOp::ScaleStat { entity: PLAYER.into(), key: "gold".into(), num: 1, den: 0 },
    ]);
    assert!(apply(&mut s, &sc, &delta).is_err());
    assert_eq!(s.stat("str"), 12, "却下されたデルタは stat を変えない");
    assert_eq!(s.turn, 0);
}

// ---------------------------------------------------------------------------
// Challenges.
// ---------------------------------------------------------------------------

#[test]
fn attempt_challenge_crit_fail_sets_flag_and_fires_trigger() {
    let sc = fumble();
    assert!(sc.validate().is_empty(), "正しいシナリオは validate を通る");
    let mut s = sc.initial_state(19);
    assert!(!is_goal(&s, &sc));
    let out = apply(
        &mut s,
        &sc,
        &d(vec![StateOp::AttemptChallenge { entity: PLAYER.into(), challenge: "drawer_pick".into() }]),
    )
    .expect("authored challenge への挑戦は合法");
    assert_eq!(out.checks.len(), 1);
    let c = &out.checks[0];
    assert_eq!(c.roll, 1, "seed 19 で 1d6 は natural 1");
    assert_eq!(c.tier.as_deref(), Some("crit_fail"), "natural min → crit_fail tier");
    assert!(!c.success, "1+2=3 < dc5 なので判定自体は失敗");
    assert_eq!(s.flags.get("fumble_drawer"), Some(&true), "engine が authored 定義から直書き");
    assert!(out.fired.iter().any(|f| f.id == "drawer_jam"), "fumble_drawer を gate にしたトリガーが発火する");
    assert!(is_goal(&s, &sc), "trigger が drawer_jammed を立て goal 到達");
}

#[test]
fn attempt_unknown_challenge_is_rejected() {
    let sc = fumble();
    let s = sc.initial_state(19);
    let v = adjudicate(
        &s,
        &sc,
        &d(vec![StateOp::AttemptChallenge { entity: PLAYER.into(), challenge: "teleport".into() }]),
    );
    match v {
        Verdict::Reject { reasons } => assert!(reasons
            .iter()
            .any(|r| matches!(r, RejectReason::UnknownChallenge { challenge } if challenge == "teleport"))),
        Verdict::Accept => panic!("未宣言 challenge への挑戦を受理してはならない"),
    }
}

#[test]
fn attempt_challenge_non_crit_sets_no_flag() {
    let sc = fumble();
    let mut s = sc.initial_state(42);
    let out = apply(
        &mut s,
        &sc,
        &d(vec![StateOp::AttemptChallenge { entity: PLAYER.into(), challenge: "drawer_pick".into() }]),
    )
    .unwrap();
    let c = &out.checks[0];
    assert!(c.roll != 1 && c.roll != 6, "natural でない出目 (seed 42)");
    assert_eq!(c.tier, None, "natural でなければ tier 無し");
    assert_eq!(s.flags.get("fumble_drawer"), None, "帰結フラグは立たない");
    assert!(out.fired.is_empty(), "トリガー発火なし");
}

// ---------------------------------------------------------------------------
// Characters' numbers and taboos.
// ---------------------------------------------------------------------------

#[test]
fn character_stats_load_from_scenario() {
    let sc = route();
    let s = sc.initial_state(7);
    assert_eq!(s.stat_of("alice", "好感度"), 0);
    assert_eq!(s.stat_of("player", "好感度"), 0, "player は alice と別の数値空間");
}

#[test]
fn adjust_targets_named_entity() {
    let sc = route();
    let mut s = sc.initial_state(7);
    apply(&mut s, &sc, &raise_affection(30)).expect("アリスの好感度は宣言済");
    assert_eq!(s.stat_of("alice", "好感度"), 30);
    assert_eq!(s.stat_of("player", "好感度"), 0, "player には影響しない");
}

#[test]
fn affection_clamps_at_declared_max() {
    let sc = route();
    let mut s = sc.initial_state(7);
    apply(&mut s, &sc, &raise_affection(200)).unwrap();
    assert_eq!(s.stat_of("alice", "好感度"), 100, "max=100 でクランプ");
}

#[test]
fn unknown_stat_or_entity_is_rejected() {
    let sc = route();
    let s = sc.initial_state(7);
    assert!(!adjudicate(&s, &sc, &d(vec![StateOp::AdjustStat { entity: "alice".into(), key: "mana".into(), delta: 1 }]))
        .is_accept());
    assert!(!adjudicate(&s, &sc, &d(vec![StateOp::AdjustStat { entity: "ghost".into(), key: "好感度".into(), delta: 1 }]))
        .is_accept());
}

#[test]
fn affection_gate_reaches_goal() {
    let sc = route();
    let mut s = sc.initial_state(7);
    assert!(!is_goal(&s, &sc));
    apply(&mut s, &sc, &raise_affection(50)).unwrap();
    assert!(is_goal(&s, &sc), "alice の好感度 >= 50 で goal");
}

#[test]
fn taboo_blocks_violating_delta() {
    let sc = route();
    let s = sc.initial_state(7);
    let v = adjudicate(&s, &sc, &d(vec![set_flag("alice_ate_pork")]));
    match v {
        Verdict::Reject { reasons } => {
            assert!(reasons.iter().any(|r| matches!(r, RejectReason::TabooViolated { entity } if entity == "alice")))
        },
        Verdict::Accept => panic!("禁忌を破る delta を受理してはならない"),
    }
}

#[test]
fn taboo_violation_is_atomic() {
    let sc = route();
    let mut s = sc.initial_state(7);
    let delta = d(vec![
        StateOp::AdjustStat { entity: "alice".into(), key: "好感度".into(), delta: 10 },
        set_flag("alice_ate_pork"),
    ]);
    assert!(apply(&mut s, &sc, &delta).is_err());
    assert_eq!(s.stat_of("alice", "好感度"), 0, "却下なら好感度も動かない");
    assert!(!s.flag("alice_ate_pork"));
    assert_eq!(s.turn, 0);
}

#[test]
fn taboo_does_not_block_unrelated() {
    let sc = route();
    let mut s = sc.initial_state(7);
    apply(&mut s, &sc, &raise_affection(10)).expect("禁忌と無関係な好感度上昇は通る");
    assert_eq!(s.stat_of("alice", "好感度"), 10);
}

// ---------------------------------------------------------------------------
// Reactive beats.
// ---------------------------------------------------------------------------

#[test]
fn trigger_fires_on_threshold_and_applies_effect() {
    let sc = recall();
    let mut s = sc.initial_state(7);
    assert!(!s.flag("promise_remembered"));
    let out = apply(&mut s, &sc, &raise_affection(30)).expect("好感度上昇は合法");
    assert!(s.flag("promise_remembered"), "発火効果でフラグが立つ");
    assert!(out.fired.iter().any(|f| f.id == "recall_promise"), "recall_promise が発火したと返る");
    assert!(out.fired.iter().any(|f| f.id == "recall_promise" && !f.narration.is_empty()), "語りの指示が載っている");
    assert!(s.fired.contains("recall_promise"), "発火済みが latch される");
}

#[test]
fn trigger_cascade_settles_in_one_apply() {
    let sc = recall();
    let mut s = sc.initial_state(7);
    assert!(!is_goal(&s, &sc));
    let out = apply(&mut s, &sc, &raise_affection(30)).expect("好感度上昇は合法");
    let ids: Vec<&str> = out.fired.iter().map(|f| f.id.as_str()).collect();
    assert_eq!(ids, vec!["recall_promise", "renew_vow"], "authored 順に連鎖発火");
    assert!(s.flag("vow_renewed"));
    assert!(is_goal(&s, &sc), "連鎖の果てに goal (vow_renewed) 到達");
}

#[test]
fn trigger_does_not_fire_below_threshold() {
    let sc = recall();
    let mut s = sc.initial_state(7);
    let out = apply(&mut s, &sc, &raise_affection(20)).expect("好感度上昇は合法");
    assert!(out.fired.is_empty(), "好感度 20 では発火しない");
    assert!(!s.flag("promise_remembered"));
    assert_eq!(s.fired.len(), 0);
}

#[test]
fn trigger_fires_at_most_once() {
    let sc = recall();
    let mut s = sc.initial_state(7);
    apply(&mut s, &sc, &raise_affection(30)).unwrap();
    assert!(s.fired.contains("recall_promise") && s.fired.contains("renew_vow"));
    let out = apply(&mut s, &sc, &raise_affection(5)).expect("好感度上昇は合法");
    assert!(out.fired.is_empty(), "latch 済みなので再発火しない");
}

#[test]
fn adjudicate_does_not_fire_triggers() {
    let sc = recall();
    let s = sc.initial_state(7);
    let v = adjudicate(&s, &sc, &raise_affection(30));
    assert!(v.is_accept(), "好感度上昇自体は受理される");
    assert!(!s.flag("promise_remembered"), "adjudicate は発火させない (純粋)");
    assert_eq!(s.fired.len(), 0, "adjudicate は fired を変えない");
}

#[test]
fn rejected_delta_fires_no_trigger() {
    let sc = recall();
    let mut s = sc.initial_state(7);
    let delta = d(vec![
        StateOp::AdjustStat { entity: "alice".into(), key: "好感度".into(), delta: 30 },
        StateOp::AdjustStat { entity: "alice".into(), key: "mana".into(), delta: 1 },
    ]);
    assert!(apply(&mut s, &sc, &delta).is_err());
    assert_eq!(s.stat_of("alice", "好感度"), 0, "却下なら好感度も動かない");
    assert!(!s.flag("promise_remembered"), "却下されたデルタは trigger を発火させない");
    assert_eq!(s.fired.len(), 0);
    assert_eq!(s.turn, 0);
}

// ---------------------------------------------------------------------------
// Gifts.
// ---------------------------------------------------------------------------

#[test]
fn give_transfers_held_item() {
    let sc = gift();
    let mut s = sc.initial_state(7);
    apply(&mut s, &sc, &d(vec![StateOp::AddItem { item: "flower".into() }])).expect("花は摘める");
    assert!(s.has_item(PLAYER, "flower"));
    apply(
        &mut s,
        &sc,
        &d(vec![StateOp::GiveItem { from: PLAYER.into(), to: "alice".into(), item: "flower".into() }]),
    )
    .expect("所持している花は渡せる");
    assert!(s.has_item("alice", "flower"), "アリスの所持物に移る");
    assert!(!s.has_item(PLAYER, "flower"), "player の手からは離れる");
    assert!(is_goal(&s, &sc), "goal (alice が flower を所持) 到達");
}

#[test]
fn cannot_give_unheld_item() {
    let sc = gift();
    let mut s = sc.initial_state(7);
    let delta = || d(vec![StateOp::GiveItem { from: PLAYER.into(), to: "alice".into(), item: "flower".into() }]);
    match adjudicate(&s, &sc, &delta()) {
        Verdict::Reject { reasons } => {
            assert!(reasons.iter().any(|r| matches!(r, RejectReason::ItemNotHeld { item } if item == "flower")))
        },
        Verdict::Accept => panic!("持っていない物の譲渡を受理してはならない"),
    }
    assert!(apply(&mut s, &sc, &delta()).is_err());
    assert!(!s.has_item("alice", "flower"), "却下なら誰の手にも渡らない");
}

#[test]
fn cannot_give_to_unknown_entity() {
    let sc = gift();
    let mut s = sc.initial_state(7);
    apply(&mut s, &sc, &d(vec![StateOp::AddItem { item: "flower".into() }])).unwrap();
    let v = adjudicate(
        &s,
        &sc,
        &d(vec![StateOp::GiveItem { from: PLAYER.into(), to: "ghost".into(), item: "flower".into() }]),
    );
    match v {
        Verdict::Reject { reasons } => {
            assert!(reasons.iter().any(|r| matches!(r, RejectReason::UnknownEntity { entity } if entity == "ghost")))
        },
        Verdict::Accept => panic!("幻のキャラへの譲渡を受理してはならない"),
    }
}

// ---------------------------------------------------------------------------
// Skills.
// ---------------------------------------------------------------------------

#[test]
fn skills_load_from_declaration() {
    let sc = awakening();
    let s = sc.initial_state(7);
    assert!(s.has_skill(PLAYER, "剣術"), "player の宣言済みスキル");
    assert!(s.has_skill("alice", "癒し"), "NPC の宣言済みスキル");
    assert!(!s.has_skill(PLAYER, "予知"), "未宣言/未開花の能力は存在しない");
}

#[test]
fn has_skill_gate_blocks_without_skill() {
    let sc = awakening();
    let s = sc.initial_state(7);
    let v = adjudicate(&s, &sc, &d(vec![StateOp::Move { to: "beyond".into() }]));
    assert!(!v.is_accept(), "予知が無ければ beyond へ出られない");
}

#[test]
fn llm_proposed_grant_skill_is_rejected() {
    let sc = awakening();
    let mut s = sc.initial_state(7);
    let delta = || d(vec![StateOp::GrantSkill { entity: PLAYER.into(), skill: "予知".into() }]);
    match adjudicate(&s, &sc, &delta()) {
        Verdict::Reject { reasons } => assert!(reasons
            .iter()
            .any(|r| matches!(r, RejectReason::SkillGrantNotAllowed { skill, .. } if skill == "予知"))),
        Verdict::Accept => panic!("LLM の能力開花を受理してはならない"),
    }
    assert!(apply(&mut s, &sc, &delta()).is_err());
    assert!(!s.has_skill(PLAYER, "予知"));
    assert_eq!(s.turn, 0);
}

#[test]
fn trigger_awakens_skill_then_gate_passes() {
    let sc = awakening();
    let mut s = sc.initial_state(7);
    assert!(!is_goal(&s, &sc));
    let out = apply(&mut s, &sc, &d(vec![set_flag("awakening_rite")])).expect("儀式は行える");
    assert!(out.fired.iter().any(|f| f.id == "awaken_foresight"), "トリガーが開花を起こす");
    assert!(s.has_skill(PLAYER, "予知"), "authored トリガーは能力を付与できる");
    apply(&mut s, &sc, &d(vec![StateOp::Move { to: "beyond".into() }])).expect("予知を得たので beyond へ出られる");
    assert!(is_goal(&s, &sc), "goal (beyond) 到達");
}

// ---------------------------------------------------------------------------
// Laws on concrete boards.
// ---------------------------------------------------------------------------

#[test]
fn latches_are_the_old_ones_and_the_fired_ones() {
    let sc = recall();
    let mut s = sc.initial_state(7);
    let out = apply(&mut s, &sc, &raise_affection(30)).unwrap();
    assert_eq!(s.fired.len(), out.fired.len());
    for f in out.fired.iter() {
        assert!(s.fired.contains(f.id.as_str()));
    }
}

#[test]
fn challenge_attempts_count_as_checks() {
    let sc = fumble();
    let mut s = sc.initial_state(42);
    let out = apply(
        &mut s,
        &sc,
        &d(vec![
            StateOp::RequestRoll { sides: 6, dc: 3 },
            StateOp::AttemptChallenge { entity: PLAYER.into(), challenge: "drawer_pick".into() },
            StateOp::Check { entity: PLAYER.into(), stat: "str".into(), sides: 20, dc: 10 },
        ]),
    )
    .unwrap();
    assert_eq!(out.rolls.len(), 1);
    assert_eq!(out.checks.len(), 2);
    assert_eq!(s.rng.cursor, 3, "one roll and two checks");
    let r = &out.rolls[0];
    assert!((1..=6).contains(&r.result));
    assert_eq!(r.success, r.result >= 3);
}

#[test]
fn dice_sequence_matches_fresh_stream() {
    let sc = scenario();
    let mut s = fresh(&sc);
    let out = apply(&mut s, &sc, &d(vec![StateOp::RequestRoll { sides: 20, dc: 10 }])).unwrap();
    let mut rng = RngState { seed: 42, cursor: 0 };
    assert_eq!(out.rolls[0].result, rng.roll(20));
}

// ---------------------------------------------------------------------------
// The turn loop on the locked room: propose, judge, feed back, apply.
// ---------------------------------------------------------------------------

fn narrated(ops: Vec<StateOp>) -> StateDelta {
    StateDelta::new("（語り）", ops)
}

/// Runs one turn, handing the proposals in order until the loop is done.
fn run(sc: &Scenario, s: &mut GameState, input: &str, proposals: Vec<StateDelta>) -> (TurnOutcome, TurnLoop, usize) {
    let mut lp = TurnLoop::start(s, sc, input, 3, Lang::Ja, &[], &[], "", &[]);
    let mut calls = 0;
    for p in proposals.iter() {
        calls += 1;
        if let TurnStep::Done(out) = lp.on_proposal(s, sc, p, "{}") {
            return (out, lp, calls);
        }
    }
    panic!("台本が尽きた");
}

#[test]
fn accepts_legal_delta_in_one_shot() {
    let sc = scenario();
    let mut s = fresh(&sc);
    let (outcome, _, _) = run(&sc, &mut s, "引き出しを調べる", vec![narrated(vec![set_flag("drawer_opened")])]);
    match outcome {
        TurnOutcome::Accepted { attempts, .. } => assert_eq!(attempts, 1),
        other => panic!("受理されるべき: {other:?}"),
    }
    assert!(s.flag("drawer_opened"), "受理された op は適用される");
    assert_eq!(s.turn, 1);
}

#[test]
fn regenerates_after_rejection() {
    let sc = scenario();
    let mut s = fresh(&sc);
    let (outcome, _, calls) = run(
        &sc,
        &mut s,
        "鍵を探す",
        vec![
            narrated(vec![StateOp::AddItem { item: "master_key".into() }]),
            narrated(vec![set_flag("drawer_opened")]),
        ],
    );
    match outcome {
        TurnOutcome::Accepted { attempts, .. } => assert_eq!(attempts, 2, "2回目で受理"),
        other => panic!("最終的に受理されるべき: {other:?}"),
    }
    assert!(s.flag("drawer_opened"));
    assert_eq!(s.turn, 1, "受理は 1 回だけ");
    assert_eq!(calls, 2, "提案は 2 回呼ばれた");
}

#[test]
fn rejection_reasons_are_fed_back() {
    let sc = scenario();
    let mut s = fresh(&sc);
    let mut lp = TurnLoop::start(&s, &sc, "鍵を探す", 3, Lang::Ja, &[], &[], "", &[]);
    let step = lp.on_proposal(&mut s, &sc, &narrated(vec![StateOp::AddItem { item: "master_key".into() }]), "{}");
    assert!(matches!(step, TurnStep::Retry));
    let second: Vec<String> = lp.messages.iter().map(|m| m.content.clone()).collect();
    let second = second.join("\n");
    assert!(second.contains("却下"), "再生成プロンプトに却下の文脈があるはず");
    assert!(second.contains("存在しない"), "master_key が存在しない旨の却下理由が還流しているはず");
}

#[test]
fn exhausts_retries_and_leaves_state_intact() {
    let sc = scenario();
    let mut s = fresh(&sc);
    let (outcome, _, _) = run(
        &sc,
        &mut s,
        "力ずくで脱出する",
        vec![
            narrated(vec![StateOp::AddItem { item: "master_key".into() }]),
            narrated(vec![StateOp::Move { to: "corridor".into() }]),
            narrated(vec![StateOp::AddItem { item: "rusty_key".into() }]),
        ],
    );
    match outcome {
        TurnOutcome::Rejected { attempts, last_reasons } => {
            assert_eq!(attempts, 3);
            assert!(!last_reasons.is_empty());
        },
        other => panic!("却下され続けるべき: {other:?}"),
    }
    assert_eq!(s.turn, 0, "却下のみなら turn は進まない");
    assert_eq!(s.location, "cell", "却下のみなら移動しない");
    assert_eq!(s.inventory.len(), 0, "却下のみなら所持品は増えない");
}

#[test]
fn dice_roll_flows_through_turn() {
    let sc = scenario();
    let mut s = fresh(&sc);
    let (outcome, _, _) = run(&sc, &mut s, "聞き耳を立てる", vec![narrated(vec![StateOp::RequestRoll { sides: 20, dc: 10 }])]);
    match outcome {
        TurnOutcome::Accepted { rolls, .. } => {
            assert_eq!(rolls.len(), 1);
            assert!((1..=20).contains(&rolls[0].result));
            assert_eq!(rolls[0].success, rolls[0].result >= 10);
        },
        other => panic!("ダイス要求自体は合法: {other:?}"),
    }
    assert_eq!(s.rng.cursor, 1, "エンジンが 1 回振ったので cursor が進む");
}

#[test]
fn prompt_reflects_scenario_and_state() {
    let sc = scenario();
    let s = fresh(&sc);
    let brief = scenario_brief(&sc);
    assert!(brief.contains("密室脱出"), "タイトルが含まれる");
    assert!(brief.contains("corridor"), "出口先の場所が含まれる");
    assert!(brief.contains("rusty_key"), "取得可能アイテムが含まれる");
    let sb = state_brief(&s, &sc);
    assert!(sb.contains("cell"), "現在地が含まれる");
}

#[test]
fn entity_panels_come_in_id_order() {
    let sc = route();
    let mut s = sc.initial_state(7);
    apply(&mut s, &sc, &raise_affection(10)).unwrap();
    let v = kataribe::view::state_view(&s, &sc, &[]);
    let ids: Vec<&str> = v.entities.iter().map(|e| e.id.as_str()).collect();
    let mut sorted = ids.clone();
    sorted.sort();
    assert_eq!(ids, sorted);
    assert!(ids.contains(&"alice"));
}

// ---------------------------------------------------------------------------
// What the first prompt of a turn carries.
// ---------------------------------------------------------------------------

fn first_prompt(
    sc: &Scenario,
    s: &GameState,
    input: &str,
    lore: &[MemoryFragment],
    checks: &[CheckOutcome],
    prev: &str,
    history: &[TurnLog],
) -> (TurnLoop, String) {
    let lp = TurnLoop::start(s, sc, input, 3, Lang::Ja, lore, checks, prev, history);
    let text: Vec<String> = lp.messages.iter().map(|m| m.content.clone()).collect();
    (lp, text.join("\n"))
}

#[test]
fn recalled_lore_is_woven_into_prompt() {
    let sc = scenario();
    let s = fresh(&sc);
    let lore = vec![MemoryFragment {
        id: "childhood_promise".into(),
        tags: vec![],
        text: "丘の上の古い樫の木の下で、二人は小指を絡めて誓った。".into(),
    }];
    let (_, text) = first_prompt(&sc, &s, "暖炉を見つめる", &lore, &[], "", &[]);
    assert!(text.contains("思い出された記憶"), "想起の見出しが prompt に載る");
    assert!(text.contains("樫の木"), "伏線の本文が prompt に注入される");
    assert!(text.contains("ops には書かない"), "状態変更でない旨の境界指示が載る");
}

#[test]
fn recent_narration_is_woven_into_prompt_for_continuity() {
    let sc = scenario();
    let s = fresh(&sc);
    let prev = "夕日が差し込む教室。モカが振り向いて微笑んだ。";
    let (_, text) = first_prompt(&sc, &s, "話しかける", &[], &[], prev, &[]);
    assert!(text.contains("直前までの語り"), "継続の見出しが prompt に載る");
    assert!(text.contains("モカが振り向いて微笑んだ"), "直前の語り本文が注入される");
    assert!(text.contains("繰り返さない") || text.contains("再び描写しない"), "繰り返し禁止を指示する");
}

#[test]
fn chronicle_history_is_woven_into_prompt_and_summary_carried() {
    let sc = scenario();
    let mut s = fresh(&sc);
    let history = vec![
        TurnLog { turn: 1, player: "部屋を見回す".into(), summary: "古びた書斎を調べ始めた".into(), ..Default::default() },
        TurnLog { turn: 2, player: "机に近づく".into(), summary: "机上の蝋燭に火を灯した".into(), ..Default::default() },
    ];
    let (mut lp, text) = first_prompt(&sc, &s, "引き出しを調べる", &[], &[], "", &history);
    assert!(text.contains("# これまでの経緯"), "経緯の見出しが prompt に載る: {text}");
    assert!(
        text.contains("古びた書斎を調べ始めた") && text.contains("蝋燭に火を灯した"),
        "過去ターンの要約が古い順に注入される: {text}"
    );
    assert!(text.find("古びた書斎を調べ始めた").unwrap() < text.find("蝋燭に火を灯した").unwrap());
    let mut d0 = narrated(vec![set_flag("drawer_opened")]);
    d0.summary = "机の引き出しをこじ開けた".into();
    match lp.on_proposal(&mut s, &sc, &d0, "{}") {
        TurnStep::Done(TurnOutcome::Accepted { summary, .. }) => {
            assert_eq!(summary, "机の引き出しをこじ開けた", "GM の書いた summary を運ぶ")
        },
        _ => panic!("受理されるはず"),
    }
}

#[test]
fn empty_history_means_no_chronicle_block() {
    let sc = scenario();
    let s = fresh(&sc);
    let (_, text) = first_prompt(&sc, &s, "見回す", &[], &[], "", &[]);
    assert!(!text.contains("# これまでの経緯"), "経緯なしなら注入しない");
}

#[test]
fn no_recent_narration_means_no_continuity_block() {
    let sc = scenario();
    let s = fresh(&sc);
    let (_, text) = first_prompt(&sc, &s, "見回す", &[], &[], "", &[]);
    assert!(!text.contains("直前までの語り"), "直前の語り無しなら注入しない");
}

#[test]
fn no_lore_means_no_injection() {
    let sc = scenario();
    let s = fresh(&sc);
    let (_, text) = first_prompt(&sc, &s, "周囲を見回す", &[], &[], "", &[]);
    assert!(!text.contains("思い出された記憶"), "伏線無しなら注入しない");
}

#[test]
fn check_result_is_fed_into_next_prompt() {
    let sc = scenario();
    let s = fresh(&sc);
    let checks = vec![CheckOutcome {
        entity: "player".into(),
        stat: "str".into(),
        sides: 20,
        roll: 14,
        modifier: 3,
        total: 17,
        dc: 15,
        success: true,
        tier: None,
        narration: String::new(),
        sound: String::new(),
    }];
    let (_, text) = first_prompt(&sc, &s, "扉をこじ開ける", &[], &checks, "", &[]);
    assert!(text.contains("直前の判定結果"), "判定結果の見出しが載る");
    assert!(text.contains("成功"), "成否が載る");
    assert!(text.contains("DC 15"), "DC が prompt に載る");
}
