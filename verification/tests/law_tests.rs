use kataribe::engine::apply;
use kataribe::facts::{apply_gm_facts, apply_user_add, FactEntry};
use kataribe::gate::Gate;
use kataribe::spine::{CharacterDef, GoalDef, Location, Protagonist, Scenario, ScenarioError, StatDecl, Trigger};
use kataribe::state::{StateDelta, StateOp, PLAYER};
use kataribe::strmap::{StrMap, StrSet};

fn set(xs: &[&str]) -> StrSet {
    let mut s = StrSet::new();
    for x in xs {
        s.insert(x.to_string());
    }
    s
}

fn room(description: &str) -> Location {
    Location {
        title: String::new(),
        description: description.into(),
        image: None,
        bgm: None,
        present: StrSet::new(),
        items: StrMap::new(),
        exits: vec![],
    }
}

fn character(name: &str) -> CharacterDef {
    CharacterDef {
        name: name.into(),
        profile: String::new(),
        stats: StrMap::new(),
        skills: StrSet::new(),
        inventory: StrSet::new(),
        icon: None,
        attributes: StrMap::new(),
        taboos: vec![],
    }
}

fn base(title: &str, start: &str, allowed: &[&str]) -> Scenario {
    let mut locations = StrMap::new();
    locations.insert(start.to_string(), room("部屋"));
    Scenario {
        title: title.into(),
        world: String::new(),
        protagonist: Protagonist { name: String::new(), profile: String::new(), icon: None },
        start: start.into(),
        allowed_flags: set(allowed),
        global_flags: StrSet::new(),
        persistent_flags: StrSet::new(),
        flag_rules: StrMap::new(),
        flag_hints: StrMap::new(),
        flag_titles: StrMap::new(),
        hidden_flags: StrSet::new(),
        role_assignment: None,
        secret_attributes: StrSet::new(),
        hidden_attributes: StrSet::new(),
        vote_rules: vec![],
        initial_stats: StrMap::new(),
        hidden_stats: StrSet::new(),
        initial_skills: StrSet::new(),
        initial_inventory: StrSet::new(),
        initial_attributes: StrMap::new(),
        cast: StrSet::new(),
        characters: StrMap::new(),
        triggers: vec![],
        challenges: StrMap::new(),
        locations,
        goal: Some(Gate::Always),
        goals: vec![],
    }
}

fn flag_is(key: &str, value: bool) -> Gate {
    Gate::FlagIs { key: key.into(), value }
}


fn goal(id: &str, when: Gate) -> GoalDef {
    GoalDef { id: id.into(), when, title: String::new(), visible: true, hint: String::new(), narration: String::new() }
}

#[test]
fn first_satisfied_named_goal_is_reached() {
    let mut sc = base("t", "room", &["a", "b"]);
    sc.goal = Some(Gate::Always);
    sc.goals = vec![goal("late", flag_is("b", true)), goal("early", flag_is("a", true)), goal("always", Gate::Always)];
    let mut s = sc.initial_state(1);
    assert_eq!(sc.reached(&s).as_deref(), Some("always"), "named goals win over the single goal");
    apply(&mut s, &sc, &StateDelta::new("", vec![StateOp::SetFlag { key: "a".into(), value: true }])).unwrap();
    assert_eq!(sc.reached(&s).as_deref(), Some("early"));
    apply(&mut s, &sc, &StateDelta::new("", vec![StateOp::SetFlag { key: "b".into(), value: true }])).unwrap();
    assert_eq!(sc.reached(&s).as_deref(), Some("late"), "authored order decides");
    assert_eq!(sc.reached_goal(&s).map(|g| g.id.as_str()), Some("late"));
    let mut single = base("t", "room", &[]);
    single.goal = Some(Gate::Always);
    assert!(single.reached_goal(&single.initial_state(1)).is_none(), "a single goal hands out no record");
    assert_eq!(single.reached(&single.initial_state(1)).as_deref(), Some("goal"));
}

#[test]
fn empty_all_holds_and_empty_any_does_not() {
    let sc = base("t", "room", &[]);
    let s = sc.initial_state(1);
    assert!(Gate::All { of: vec![] }.eval(&s));
    assert!(!Gate::Any { of: vec![] }.eval(&s));
    assert!(Gate::StatAtMost { entity: PLAYER.into(), key: "hp".into(), value: 0 }.eval(&s), "unset stat reads 0");
    assert!(Gate::AttributeIs { entity: PLAYER.into(), key: "class".into(), value: String::new() }.eval(&s), "unset attribute reads empty");
    assert!(Gate::FlagIs { key: "x".into(), value: false }.eval(&s), "unset flag reads false");
}

#[test]
fn hint_on_authored_flag_warns_but_never_fails_validation() {
    let mut sc = base("t", "room", &["rung", "free"]);
    sc.triggers.push(Trigger {
        id: "bell".into(),
        when: Gate::Always,
        effects: vec![StateOp::SetFlag { key: "rung".into(), value: true }],
        narration: String::new(),
        recall: None,
        image: None,
        image_mode: None,
        sound: None,
        repeatable: false,
    });
    sc.flag_hints.insert("free".into(), "誰でも".into());
    sc.flag_hints.insert("rung".into(), "鐘が鳴った".into());
    let lints = sc.lints();
    assert_eq!(lints.len(), 1);
    assert!(matches!(&lints[0], ScenarioError::FlagHintOnAuthoredOnly { flag } if flag == "rung"));
    assert!(!sc.validate().iter().any(|e| matches!(e, ScenarioError::FlagHintOnAuthoredOnly { .. })));
}

#[test]
fn fact_ids_stay_unique() {
    let mut list: Vec<FactEntry> = Vec::new();
    apply_gm_facts(&mut list, &vec!["一".to_string(), "二".to_string(), "三".to_string()], 1);
    let (id, _) = apply_user_add(&mut list, "四", 2);
    assert_eq!(id, Some(4));
    let mut ids: Vec<u64> = list.iter().map(|f| f.id).collect();
    ids.sort();
    ids.dedup();
    assert_eq!(ids.len(), list.len());
    assert_eq!(ids, vec![1, 2, 3, 4]);
}

#[test]
fn maps_and_sets_keep_their_keys_in_order() {
    let mut m: StrMap<i64> = StrMap::new();
    for k in ["pear", "apple", "fig", "apple", "banana"] {
        m.insert(k.to_string(), 1);
    }
    m.remove("fig");
    let keys: Vec<&str> = m.entries.iter().map(|e| e.0.as_str()).collect();
    assert_eq!(keys, vec!["apple", "banana", "pear"]);
    let mut s = StrSet::new();
    for k in ["の", "あ", "z", "A"] {
        s.insert(k.to_string());
    }
    s.remove("z");
    let items: Vec<&str> = s.items.iter().map(|x| x.as_str()).collect();
    assert_eq!(items, vec!["A", "あ", "の"]);
}

#[test]
fn latches_grow_by_the_fired_ids() {
    let mut sc = base("t", "room", &["lit", "seen"]);
    sc.characters.insert("alice".into(), {
        let mut c = character("アリス");
        c.stats.insert("好感度".into(), StatDecl { initial: 0, min: 0, max: Some(100) });
        c
    });
    sc.triggers.push(Trigger {
        id: "glow".into(),
        when: Gate::FlagIs { key: "lit".into(), value: true },
        effects: vec![StateOp::SetFlag { key: "seen".into(), value: true }],
        narration: "灯りがともる。".into(),
        recall: None,
        image: None,
        image_mode: None,
        sound: None,
        repeatable: false,
    });
    let mut s = sc.initial_state(3);
    let out = apply(&mut s, &sc, &StateDelta::new("", vec![StateOp::SetFlag { key: "lit".into(), value: true }])).unwrap();
    assert_eq!(out.fired.len(), 1);
    assert_eq!(s.fired.len(), 1);
    assert!(s.fired.contains("glow"));
}

#[test]
fn refusal_is_atomic_at_the_last_turn() {
    let sc = base("t", "room", &["a"]);
    let mut s = sc.initial_state(1);
    s.turn = u32::MAX;
    let r = apply(&mut s, &sc, &StateDelta::new("", vec![StateOp::AddItem { item: "ghost".into() }]));
    assert!(r.is_err());
    assert_eq!(s.turn, u32::MAX);
    assert_eq!(s.inventory.len(), 0);
}

#[test]
fn state_maps_keep_key_order_through_play() {
    let mut sc = base("t", "room", &["zeta", "alpha", "mid"]);
    sc.initial_stats.insert("str".into(), 1);
    sc.initial_stats.insert("hp".into(), 1);
    sc.initial_skills = set(&["剣術", "弓術"]);
    let mut s = sc.initial_state(1);
    let stats: Vec<&str> = s.entities.get(PLAYER).unwrap().entries.iter().map(|e| e.0.as_str()).collect();
    assert_eq!(stats, vec!["hp", "str"]);
    let skills: Vec<&str> = s.skills.get(PLAYER).unwrap().items.iter().map(|x| x.as_str()).collect();
    assert_eq!(skills, vec!["剣術", "弓術"]);
    for k in ["zeta", "alpha", "mid"] {
        apply(&mut s, &sc, &StateDelta::new("", vec![StateOp::SetFlag { key: k.into(), value: true }])).unwrap();
    }
    let keys: Vec<&str> = s.flags.entries.iter().map(|e| e.0.as_str()).collect();
    assert_eq!(keys, vec!["alpha", "mid", "zeta"]);
    let turned: Vec<&str> = s.flag_turns.entries.iter().map(|e| e.0.as_str()).collect();
    assert_eq!(turned, vec!["alpha", "mid", "zeta"]);
}
