use kataribe::campaign::{advance_into, advance_target, after_turn, AfterTurn, Campaign, CampaignEdge};
use kataribe::engine::{apply, CheckOutcome};
use kataribe::gate::Gate;
use kataribe::memoria::LoreStore;
use kataribe::package::{inject_package, Globals, PackageManifest, PlayerDef};
use kataribe::reason::Lang;
use kataribe::session::{held_items, Session};
use kataribe::spine::{ChallengeDef, CharacterDef, Exit, Location, LocationItem, Natural, Protagonist, Scenario, TierDef, Trigger};
use kataribe::state::{StateDelta, StateOp, PLAYER};
use kataribe::strmap::{StrMap, StrSet};
use kataribe::synopsis::Synopsis;
use kataribe::turnloop::{Role, TurnLoop, TurnOutcome, TurnStep};

fn set(xs: &[&str]) -> StrSet {
    let mut s = StrSet::new();
    for x in xs {
        s.insert(x.to_string());
    }
    s
}

fn room(description: &str) -> Location {
    Location {
        title: String::new(),
        description: description.into(),
        image: None,
        bgm: None,
        present: StrSet::new(),
        items: StrMap::new(),
        exits: vec![],
    }
}

fn base(title: &str, start: &str) -> Scenario {
    let mut locations = StrMap::new();
    locations.insert(start.to_string(), room("d"));
    Scenario {
        title: title.into(),
        world: String::new(),
        protagonist: Protagonist { name: String::new(), profile: String::new(), icon: None },
        start: start.into(),
        allowed_flags: StrSet::new(),
        global_flags: StrSet::new(),
        persistent_flags: StrSet::new(),
        flag_rules: StrMap::new(),
        flag_hints: StrMap::new(),
        flag_titles: StrMap::new(),
        hidden_flags: StrSet::new(),
        role_assignment: None,
        secret_attributes: StrSet::new(),
        hidden_attributes: StrSet::new(),
        vote_rules: vec![],
        initial_stats: StrMap::new(),
        hidden_stats: StrSet::new(),
        initial_skills: StrSet::new(),
        initial_inventory: StrSet::new(),
        initial_attributes: StrMap::new(),
        cast: StrSet::new(),
        characters: StrMap::new(),
        triggers: vec![],
        challenges: StrMap::new(),
        locations,
        goal: Some(Gate::Always),
        goals: vec![],
    }
}

fn flag_is(key: &str) -> Gate {
    Gate::FlagIs { key: key.into(), value: true }
}

fn set_flag(key: &str) -> StateOp {
    StateOp::SetFlag { key: key.into(), value: true }
}

fn d(ops: Vec<StateOp>) -> StateDelta {
    StateDelta::new("（語り）", ops)
}

fn edge(from: &str, on_goal: &str, to: &str) -> CampaignEdge {
    CampaignEdge { from: from.into(), on_goal: on_goal.into(), to: to.into() }
}

fn campaign() -> Campaign {
    let mut modules = StrMap::new();
    modules.insert("study".into(), "scenarios/study.yaml".into());
    modules.insert("cellar".into(), "scenarios/cellar.yaml".into());
    modules.insert("forest".into(), "scenarios/forest.yaml".into());
    Campaign {
        title: "脱出".into(),
        start: "study".into(),
        modules,
        edges: vec![edge("study", "jammed_ending", "cellar"), edge("study", "opened_ending", "forest")],
    }
}

#[test]
fn campaign_parses_and_looks_up_edges() {
    let c = campaign();
    assert_eq!(c.start, "study");
    assert_eq!(c.next("study", "jammed_ending").map(String::as_str), Some("cellar"));
    assert_eq!(c.next("study", "opened_ending").map(String::as_str), Some("forest"));
    assert_eq!(c.next("study", "no_such_goal"), None, "未定義の goal は辺なし");
    assert_eq!(c.next("cellar", "jammed_ending"), None, "別モジュールの辺は引かない");
    assert_eq!(c.module_file("cellar"), Some("scenarios/cellar.yaml"));
}

#[test]
fn first_matching_edge_wins() {
    let mut c = campaign();
    c.edges.push(edge("study", "jammed_ending", "forest"));
    assert_eq!(c.next("study", "jammed_ending").map(String::as_str), Some("cellar"));
    assert_eq!(c.module_file("nowhere"), None);
}

/// A study whose two endings are told apart by flags; `searched_study` is a world flag.
fn study() -> Scenario {
    let mut sc = base("書斎", "study");
    sc.allowed_flags = set(&["searched_study", "lamp_lit", "drawer_jammed", "drawer_opened"]);
    sc.global_flags = set(&["searched_study"]);
    sc.initial_stats.insert("hp".into(), 10);
    sc.goal = None;
    sc.goals.push(kataribe::spine::GoalDef {
        id: "jammed_ending".into(),
        when: flag_is("drawer_jammed"),
        title: String::new(),
        visible: true,
        hint: String::new(),
        narration: String::new(),
    });
    sc.goals.push(kataribe::spine::GoalDef {
        id: "opened_ending".into(),
        when: flag_is("drawer_opened"),
        title: String::new(),
        visible: true,
        hint: String::new(),
        narration: String::new(),
    });
    sc
}

fn cellar() -> Scenario {
    let mut sc = base("地下蔵", "cellar");
    sc.allowed_flags = set(&["searched_study"]);
    sc.initial_stats.insert("hp".into(), 12);
    sc
}

#[test]
fn advance_carries_state_across_reached_goal() {
    let c = campaign();
    let sc = study();
    let mut s = sc.initial_state(19);
    apply(&mut s, &sc, &d(vec![set_flag("searched_study"), set_flag("lamp_lit")])).unwrap();
    apply(&mut s, &sc, &d(vec![StateOp::AdjustStat { entity: "player".into(), key: "hp".into(), delta: -2 }]))
        .unwrap();
    assert_eq!(advance_target(&c, "study", &sc, &s), None, "未到達では遷移しない");
    apply(&mut s, &sc, &d(vec![set_flag("drawer_jammed")])).unwrap();
    assert_eq!(sc.reached(&s).as_deref(), Some("jammed_ending"));

    let target = advance_target(&c, "study", &sc, &s).expect("辺が在るので遷移が起きる");
    assert_eq!(target, "cellar");
    let adv = advance_into(target, cellar(), &sc, &s);
    assert_eq!(adv.module_id, "cellar");
    assert_eq!(adv.scenario.title, "地下蔵");
    assert_eq!(adv.state.location, "cellar", "場所は次モジュールの start にリセット");
    assert_eq!(adv.state.stat("hp"), 8, "hp は持ち越し (宣言 12 を上書き)");
    assert_eq!(adv.state.flags.get("searched_study"), Some(&true), "世界フラグは持ち越す");
    assert_eq!(adv.state.flags.get("lamp_lit"), None, "局所フラグは捨てる");
    assert_eq!(adv.state.flags.get("drawer_jammed"), None, "局所の帰結フラグも来ない");
    assert_eq!(adv.state.turn, s.turn, "turn は続く");
    assert_eq!(adv.state.fired.len(), 0);
}

/// The study of the escape package: a natural 1 on the drawer jams it, and the
/// jammed drawer is the first ending; `searched_study` is a world flag.
fn escape_study() -> Scenario {
    let mut sc = study();
    sc.allowed_flags = set(&["searched_study", "lamp_lit", "fumble_drawer", "drawer_jammed", "drawer_opened"]);
    sc.initial_stats = StrMap::new();
    sc.initial_stats.insert("hp".into(), 8);
    sc.initial_stats.insert("str".into(), 2);
    let mut c = ChallengeDef {
        description: String::new(),
        entity: None,
        requires: None,
        modifiers: vec![],
        stat: Some("str".into()),
        sides: 6,
        dc: 5,
        on_success: None,
        on_failure: None,
        tiers: StrMap::new(),
    };
    c.tiers.insert(
        "crit_fail".into(),
        TierDef {
            natural: Natural::Min,
            threshold: None,
            effects: vec![],
            flag: Some("fumble_drawer".into()),
            narration: String::new(),
            sound: String::new(),
        },
    );
    sc.challenges.insert("drawer_pick".into(), c);
    sc.triggers.push(Trigger {
        id: "drawer_jam".into(),
        when: flag_is("fumble_drawer"),
        effects: vec![set_flag("drawer_jammed")],
        narration: "工具が折れ、引き出しは固まった。".into(),
        recall: None,
        image: None,
        image_mode: None,
        sound: None,
        repeatable: false,
    });
    sc
}

#[test]
fn advance_carries_state_across_fired_goal_branch() {
    let c = campaign();
    let study = escape_study();
    let mut s = study.initial_state(19);
    apply(&mut s, &study, &d(vec![set_flag("searched_study")])).unwrap();
    apply(&mut s, &study, &d(vec![set_flag("lamp_lit")])).unwrap();
    apply(
        &mut s,
        &study,
        &d(vec![StateOp::AttemptChallenge { entity: PLAYER.into(), challenge: "drawer_pick".into() }]),
    )
    .unwrap();
    assert_eq!(study.reached(&s).as_deref(), Some("jammed_ending"), "大失敗が jammed_ending を選ぶ");
    let target = advance_target(&c, "study", &study, &s).expect("辺が在るので遷移が起きる");
    let adv = advance_into(target, cellar(), &study, &s);
    assert_eq!(adv.module_id, "cellar", "jammed_ending の辺で cellar へ");
    assert_eq!(adv.scenario.title, "地下蔵", "次モジュールの骨格に差し替わった");
    assert_eq!(adv.state.location, "cellar", "場所は次モジュールの start にリセット");
    assert_eq!(adv.state.stat("hp"), 8, "hp は持ち越し (cellar の宣言 12 を上書き)");
    assert_eq!(adv.state.flags.get("searched_study"), Some(&true), "世界フラグは持ち越す");
    assert_eq!(adv.state.flags.get("lamp_lit"), None, "局所フラグは捨てる");
    assert_eq!(adv.state.flags.get("drawer_jammed"), None, "局所の帰結フラグも次モジュールには来ない");
    assert_eq!(adv.state.fired.len(), 0, "発火済みトリガーはリセット");
}

#[test]
fn advance_stops_at_terminal_ending() {
    let c = campaign();
    let cl = cellar();
    let s = cl.initial_state(1);
    assert!(cl.reached(&s).is_some(), "cellar は goal=always で即到達");
    assert_eq!(advance_target(&c, "cellar", &cl, &s), None, "辺の無いエンディングでは遷移しない");
}

#[test]
fn advance_does_nothing_before_goal() {
    let c = campaign();
    let study = escape_study();
    let s = study.initial_state(19);
    assert_eq!(study.reached(&s), None, "開始時は未到達");
    assert_eq!(advance_target(&c, "study", &study, &s), None, "未到達では遷移しない");
}

#[test]
fn advance_stops_at_terminal_ending_and_before_goal() {
    let c = campaign();
    let cl = cellar();
    let s = cl.initial_state(1);
    assert!(cl.reached(&s).is_some(), "cellar は goal=always で即到達");
    assert_eq!(advance_target(&c, "cellar", &cl, &s), None, "辺の無いエンディングでは遷移しない");
    let st = study();
    let s = st.initial_state(19);
    assert_eq!(advance_target(&c, "study", &st, &s), None, "開始時は未到達");
}

#[test]
fn inject_package_player_wins_and_globals_union_both_sets() {
    let mut sc = base("t", "a");
    sc.initial_stats.insert("hp".into(), 8);
    let mut stats = StrMap::new();
    stats.insert("hp".to_string(), 10);
    let manifest = PackageManifest {
        title: String::new(),
        description: String::new(),
        author: String::new(),
        version: String::new(),
        engine: String::new(),
        entry: "x".into(),
        world: "現代日本の高校。".into(),
        player: Some(PlayerDef {
            name: "先生".into(),
            stats,
            skills: StrSet::new(),
            items: set(&["chalk"]),
            attributes: StrMap::new(),
            profile: "高校教師。".into(),
            icon: None,
        }),
        globals: Some(Globals { flags: set(&["w"]) }),
    };
    inject_package(&mut sc, &manifest);
    assert_eq!(sc.initial_stats.get("hp"), Some(&10), "package が勝つ (8→10)");
    assert!(sc.initial_inventory.contains("chalk"));
    assert!(sc.initial_state(1).has_item("player", "chalk"));
    assert!(sc.allowed_flags.contains("w") && sc.global_flags.contains("w"));
    assert_eq!(sc.world, "現代日本の高校。");
    assert_eq!(sc.protagonist.name, "先生");
    assert_eq!(sc.protagonist.profile, "高校教師。");
}

#[test]
fn inject_package_keeps_module_text_when_package_is_blank() {
    let mut sc = base("t", "a");
    sc.world = "霧の村".into();
    sc.protagonist.name = "旅人".into();
    let manifest = PackageManifest {
        title: String::new(),
        description: String::new(),
        author: String::new(),
        version: String::new(),
        engine: String::new(),
        entry: "x".into(),
        world: "  ".into(),
        player: Some(PlayerDef {
            name: " ".into(),
            stats: StrMap::new(),
            skills: set(&["剣術"]),
            items: StrSet::new(),
            attributes: StrMap::new(),
            profile: String::new(),
            icon: Some("hero.svg".into()),
        }),
        globals: None,
    };
    inject_package(&mut sc, &manifest);
    assert_eq!(sc.world, "霧の村");
    assert_eq!(sc.protagonist.name, "旅人");
    assert_eq!(sc.protagonist.icon.as_deref(), Some("hero.svg"));
    assert!(sc.initial_skills.contains("剣術"));
    assert!(sc.allowed_flags.len() == 0 && sc.global_flags.len() == 0);
}

/// A cell with a drawer, a key behind it and a locked way out.
fn cell() -> Scenario {
    let mut sc = base("密室", "cell");
    sc.allowed_flags = set(&["drawer_opened"]);
    let mut c = room("石の小部屋");
    c.items.insert("rusty_key".into(), LocationItem::Legacy(flag_is("drawer_opened")));
    c.exits.push(Exit { to: "corridor".into(), gate: Gate::HasItem { entity: "player".into(), item: "rusty_key".into() } });
    sc.locations.insert("cell".into(), c);
    sc.locations.insert("corridor".into(), room("廊下"));
    sc.goal = Some(Gate::LocationIs { at: "corridor".into() });
    sc
}

fn start(sc: &Scenario, s: &kataribe::state::GameState, max: u32) -> TurnLoop {
    TurnLoop::start(s, sc, "調べる", max, Lang::Ja, &[], &[], "", &[])
}

#[test]
fn turn_loop_accepts_a_legal_delta_at_once() {
    let sc = cell();
    let mut s = sc.initial_state(42);
    let mut lp = start(&sc, &s, 3);
    assert_eq!(lp.messages.len(), 2);
    assert_eq!(lp.messages[0].role, Role::System);
    assert!(lp.messages[0].content.contains("# シナリオ: 密室"));
    assert!(lp.messages[1].content.ends_with("調べる"));
    match lp.on_proposal(&mut s, &sc, &d(vec![set_flag("drawer_opened")]), "{}") {
        TurnStep::Done(TurnOutcome::Accepted { attempts, narration, .. }) => {
            assert_eq!(attempts, 1);
            assert_eq!(narration, "（語り）");
        }
        other => panic!("受理されるべき: {other:?}"),
    }
    assert!(s.flag("drawer_opened"));
    assert_eq!(s.turn, 1);
}

#[test]
fn turn_loop_feeds_reasons_back_and_accepts_the_repair() {
    let sc = cell();
    let mut s = sc.initial_state(42);
    let mut lp = start(&sc, &s, 3);
    let step = lp.on_proposal(&mut s, &sc, &d(vec![StateOp::AddItem { item: "master_key".into() }]), "嘘");
    assert!(matches!(step, TurnStep::Retry));
    assert_eq!(s.turn, 0, "却下なら turn は進まない");
    assert_eq!(lp.messages.len(), 4);
    assert_eq!(lp.messages[2].content, "嘘");
    assert!(lp.messages[3].content.contains("却下") && lp.messages[3].content.contains("存在しない"));
    match lp.on_proposal(&mut s, &sc, &d(vec![set_flag("drawer_opened")]), "{}") {
        TurnStep::Done(TurnOutcome::Accepted { attempts, rejected, .. }) => {
            assert_eq!(attempts, 2, "2回目で受理");
            assert_eq!(rejected.len(), 1);
        }
        other => panic!("最終的に受理されるべき: {other:?}"),
    }
    assert_eq!(s.turn, 1, "受理は 1 回だけ");
}

#[test]
fn turn_loop_exhausts_attempts_and_leaves_state_intact() {
    let sc = cell();
    let mut s = sc.initial_state(42);
    let mut lp = start(&sc, &s, 3);
    let bad = [
        StateOp::AddItem { item: "master_key".into() },
        StateOp::Move { to: "corridor".into() },
        StateOp::AddItem { item: "rusty_key".into() },
    ];
    let mut last = None;
    for op in bad {
        last = Some(lp.on_proposal(&mut s, &sc, &d(vec![op]), "x"));
    }
    match last.unwrap() {
        TurnStep::Done(TurnOutcome::Rejected { attempts, last_reasons }) => {
            assert_eq!(attempts, 3);
            assert!(!last_reasons.is_empty());
        }
        other => panic!("却下され続けるべき: {other:?}"),
    }
    assert_eq!(s.turn, 0);
    assert_eq!(s.location, "cell");
    assert!(!s.has_item("player", "rusty_key"));
}

#[test]
fn turn_loop_allows_one_attempt_when_zero_is_asked() {
    let sc = cell();
    let s = sc.initial_state(42);
    assert_eq!(start(&sc, &s, 0).max_attempts, 1);
}

#[test]
fn session_records_turns_and_marks_module_entry() {
    let sc = study();
    let state = sc.initial_state(19);
    let mut session = Session {
        state,
        scenario: sc,
        lore: LoreStore::new(vec![]),
        pending_lore: vec![],
        pending_checks: vec![],
        last_narration: "前の場面".into(),
        history: vec![],
        synopsis: Synopsis::default(),
        lang: Lang::Ja,
    };
    let lp = session.begin_turn("  引き出しを開ける  ", 3);
    assert!(lp.messages[1].content.contains("前の場面"), "前の語りが次の依頼に載る");
    assert!(lp.messages[1].content.ends_with("引き出しを開ける"));
    assert_eq!(session.last_narration, "", "持ち越しは使い切る");

    let held = held_items(&session.state);
    let out = apply(&mut session.state, &session.scenario, &d(vec![set_flag("drawer_jammed")])).unwrap();
    let turn = session.state.turn;
    let beats = session.record_accepted("  引き出しを開ける ", "引き出しが動かない。", "引き出しが固着", vec![], &out.fired, &held);
    assert!(beats.is_empty());
    assert_eq!(session.history.len(), 1);
    assert_eq!(session.history[0].turn, turn);
    assert_eq!(session.history[0].player, "引き出しを開ける");
    assert_eq!(session.history[0].summary, "引き出しが固着");
    assert_eq!(session.history[0].location, "study", "場所タグ");
    assert_eq!(session.history[0].flags_set, vec!["drawer_jammed".to_string()], "このターンに立ったフラグ");
    assert!(session.history[0].present.is_empty() && session.history[0].checks.is_empty());
    assert_eq!(session.last_narration, "引き出しが動かない。");

    let target = advance_target(&campaign(), "study", &session.scenario, &session.state).unwrap();
    let adv = advance_into(target, cellar(), &session.scenario, &session.state);
    session.enter_module(adv);
    assert_eq!(session.scenario.title, "地下蔵");
    assert_eq!(session.state.location, "cellar");
    assert_eq!(session.history.len(), 2, "遷移の印が年代記に入る");
    assert!(session.history[1].summary.contains("地下蔵"));
    assert_eq!(session.last_narration, "");
}

#[test]
fn parse_failure_is_fed_back_and_retried() {
    let sc = cell();
    let mut s = sc.initial_state(42);
    let mut lp = start(&sc, &s, 3);
    let bad = r#"{"narration":"x","ops":"@@"}"#;
    assert!(matches!(lp.on_unreadable(bad), TurnStep::Retry));
    assert_eq!(s.turn, 0);
    let fed_back = lp.messages.iter().any(|m| m.content.contains("JSON として壊れていて読めなかった"));
    assert!(fed_back, "raw+修正指示が還流されている");
    assert!(lp.messages.iter().any(|m| m.content == bad));
    match lp.on_proposal(&mut s, &sc, &StateDelta::new("直した", vec![]), "{}") {
        TurnStep::Done(TurnOutcome::Accepted { narration, attempts, .. }) => {
            assert_eq!(narration, "直した");
            assert_eq!(attempts, 2, "1 回目=壊れ、2 回目=修復");
        }
        other => panic!("Accepted であるべき: {other:?}"),
    }
    assert_eq!(s.turn, 1);
}

#[test]
fn unreadable_answers_use_up_the_attempts() {
    let sc = cell();
    let s = sc.initial_state(42);
    let mut lp = start(&sc, &s, 2);
    assert!(matches!(lp.on_unreadable("?"), TurnStep::Retry));
    match lp.on_unreadable("?") {
        TurnStep::Done(TurnOutcome::Rejected { attempts, last_reasons }) => {
            assert_eq!(attempts, 2);
            assert!(last_reasons.is_empty());
        }
        other => panic!("試行を使い切ったら Rejected: {other:?}"),
    }
}

#[test]
fn after_turn_decides_continue_finish_or_advance() {
    let c = campaign();
    let st = study();
    let mut s = st.initial_state(19);
    assert!(matches!(after_turn(&st, &s, Some(&c), "study"), AfterTurn::Continue));
    apply(&mut s, &st, &d(vec![set_flag("drawer_jammed")])).unwrap();
    match after_turn(&st, &s, Some(&c), "study") {
        AfterTurn::Advance { goal, next } => {
            assert_eq!(goal, "jammed_ending");
            assert_eq!(next, "cellar");
        }
        other => panic!("辺があるので遷移: {other:?}"),
    }
    match after_turn(&st, &s, None, "") {
        AfterTurn::Finished { goal } => assert_eq!(goal, "jammed_ending"),
        other => panic!("単発シナリオは終了: {other:?}"),
    }
    let cl = cellar();
    let s2 = cl.initial_state(1);
    assert!(matches!(after_turn(&cl, &s2, Some(&c), "cellar"), AfterTurn::Finished { .. }), "終端エンディング");
}

#[test]
fn chronicle_line_carries_check_and_presence_tags() {
    let mut sc = study();
    sc.characters.insert(
        "alice".into(),
        CharacterDef {
            name: "アリス".into(),
            profile: String::new(),
            stats: StrMap::new(),
            skills: StrSet::new(),
            inventory: StrSet::new(),
            icon: None,
            attributes: StrMap::new(),
            taboos: vec![],
        },
    );
    sc.initial_inventory = set(&["ランプ"]);
    let mut r = room("書斎");
    r.present = set(&["alice"]);
    sc.locations.insert("study".into(), r);
    let state = sc.initial_state(1);
    let mut session = Session {
        state,
        scenario: sc,
        lore: LoreStore::new(vec![]),
        pending_lore: vec![],
        pending_checks: vec![],
        last_narration: String::new(),
        history: vec![],
        synopsis: Synopsis::default(),
        lang: Lang::Ja,
    };
    let check = CheckOutcome {
        entity: "player".into(),
        stat: "STR".into(),
        sides: 20,
        roll: 14,
        modifier: 3,
        total: 17,
        dc: 15,
        success: true,
        tier: None,
        narration: String::new(),
        sound: String::new(),
    };
    let miss = CheckOutcome { modifier: -2, total: 12, success: false, stat: "STR".into(), entity: "player".into(), tier: None, narration: String::new(), sound: String::new(), ..check };
    let check2 = CheckOutcome { entity: "player".into(), stat: "STR".into(), tier: None, narration: String::new(), sound: String::new(), ..check };
    let held = held_items(&session.state);
    session.state.add_to_inventory("player", "祠の鍵");
    session.state.remove_from_inventory("player", "ランプ");
    session.record_accepted("押す", "語り", "", vec![check2, miss], &vec![], &held);
    let log = &session.history[0];
    assert_eq!(log.items, vec!["+祠の鍵".to_string(), "-ランプ".to_string()], "持物の増減");
    assert_eq!(log.present, vec!["alice".to_string()], "この場にいる者");
    assert_eq!(log.checks, vec!["player STR 1d20+3=17 vs DC15 成功".to_string(), "player STR 1d20-2=12 vs DC15 失敗".to_string()]);
}
