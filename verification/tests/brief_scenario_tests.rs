use kataribe::brief::{scenario_brief, state_brief};
use kataribe::engine::apply;
use kataribe::gate::Gate;
use kataribe::prompt::GM_SYSTEM;
use kataribe::spine::{
    AttrRequirement, CharacterDef, GoalDef, Location, LocationItem, Protagonist, RoleAssignment, Scenario, StatDecl,
    TakeMode, Trigger, VoteRule,
};
use kataribe::state::{StateDelta, StateOp};
use kataribe::strmap::{StrMap, StrSet};
use kataribe::view::state_view;

fn set(xs: &[&str]) -> StrSet {
    let mut s = StrSet::new();
    for x in xs {
        s.insert(x.to_string());
    }
    s
}

fn room(description: &str) -> Location {
    Location {
        title: String::new(),
        description: description.into(),
        image: None,
        bgm: None,
        present: StrSet::new(),
        items: StrMap::new(),
        exits: vec![],
    }
}

fn character(name: &str) -> CharacterDef {
    CharacterDef {
        name: name.into(),
        profile: String::new(),
        stats: StrMap::new(),
        skills: StrSet::new(),
        inventory: StrSet::new(),
        icon: None,
        attributes: StrMap::new(),
        taboos: vec![],
    }
}

/// `title: t`, the given start room (description `d`) and `goal: always`.
fn base(start: &str) -> Scenario {
    let mut locations = StrMap::new();
    locations.insert(start.to_string(), room("d"));
    Scenario {
        title: "t".into(),
        world: String::new(),
        protagonist: Protagonist { name: String::new(), profile: String::new(), icon: None },
        start: start.into(),
        allowed_flags: StrSet::new(),
        global_flags: StrSet::new(),
        persistent_flags: StrSet::new(),
        flag_rules: StrMap::new(),
        flag_hints: StrMap::new(),
        flag_titles: StrMap::new(),
        hidden_flags: StrSet::new(),
        role_assignment: None,
        secret_attributes: StrSet::new(),
        hidden_attributes: StrSet::new(),
        vote_rules: vec![],
        initial_stats: StrMap::new(),
        hidden_stats: StrSet::new(),
        initial_skills: StrSet::new(),
        initial_inventory: StrSet::new(),
        initial_attributes: StrMap::new(),
        cast: StrSet::new(),
        characters: StrMap::new(),
        triggers: vec![],
        challenges: StrMap::new(),
        locations,
        goal: Some(Gate::Always),
        goals: vec![],
    }
}

fn flag_is(key: &str, value: bool) -> Gate {
    Gate::FlagIs { key: key.into(), value }
}

fn set_flag_op(key: &str) -> StateOp {
    StateOp::SetFlag { key: key.into(), value: true }
}

fn open_vote_line(brief: &str) -> Option<String> {
    brief.lines().find(|l| l.contains("いま投票が開いている")).map(|l| l.to_string())
}

#[test]
fn state_brief_hides_hidden_stats() {
    let mut sc = base("room");
    sc.initial_stats.insert("hp".into(), 10);
    sc.initial_stats.insert("x_turn".into(), 0);
    sc.hidden_stats.insert("x_turn".into());
    let s = sc.initial_state(1);
    let sb = state_brief(&s, &sc);
    assert!(sb.contains("hp=10"), "可視 stat は出る");
    assert!(!sb.contains("x_turn"), "内部タイマー stat は隠れる: {sb}");
}

#[test]
fn scenario_brief_surfaces_world_and_protagonist() {
    let mut sc = base("room");
    sc.world = "現代日本の高校。".into();
    sc.protagonist = Protagonist { name: "先生".into(), profile: "25才の高校教師。".into(), icon: None };
    let brief = scenario_brief(&sc);
    assert!(brief.contains("世界観") && brief.contains("現代日本の高校"), "world が surface される");
    assert!(
        brief.contains("主人公") && brief.contains("先生") && brief.contains("高校教師"),
        "主人公(プレイヤー)の設定が surface される"
    );
    assert!(GM_SYSTEM.contains("主人公の設定") && GM_SYSTEM.contains("教師"), "GM_SYSTEM が NPC の主人公認識を刷り込む");
}

#[test]
fn scenario_brief_surfaces_flag_hints_and_gm_system_demands_setting() {
    let mut sc = base("room");
    sc.allowed_flags = set(&["知った_鍵の在処"]);
    sc.flag_hints.insert("知った_鍵の在処".into(), "プレイヤーが賢者から鍵の在処を聞いたら立てる".into());
    let brief = scenario_brief(&sc);
    assert!(brief.contains("状態フラグ"), "状態フラグ節が出る");
    assert!(
        brief.contains("知った_鍵の在処") && brief.contains("賢者から鍵の在処を聞いたら"),
        "フラグ名とヒントが surface される: {brief}"
    );
    assert!(GM_SYSTEM.contains("状態フラグ") && GM_SYSTEM.contains("set_flag"), "GM_SYSTEM が条件成立時の set_flag を刷り込む");
    assert!(GM_SYSTEM.contains("先回り") || GM_SYSTEM.contains("満たしていない"), "早まった set_flag を戒める");
}

#[test]
fn scenario_brief_lists_usable_flags_with_titles_excluding_authored() {
    let mut sc = base("room");
    sc.allowed_flags = set(&["聞いた_在処", "罠が作動"]);
    sc.flag_titles.insert("聞いた_在処".into(), "鍵の在処の知識".into());
    sc.flag_hints.insert("聞いた_在処".into(), "賢者から在処を聞いたら立てる".into());
    sc.triggers.push(Trigger {
        id: "trap".into(),
        when: flag_is("聞いた_在処", true),
        effects: vec![set_flag_op("罠が作動")],
        narration: String::new(),
        recall: None,
        image: None,
        image_mode: None,
        sound: None,
        repeatable: false,
    });
    let brief = scenario_brief(&sc);
    assert!(brief.contains("状態フラグ"), "フラグ語彙の節が出る: {brief}");
    assert!(
        brief.contains("聞いた_在処") && brief.contains("鍵の在処の知識") && brief.contains("賢者から在処を聞いたら"),
        "使えるフラグが id+表示名+ヒント付きで列挙される: {brief}"
    );
    assert!(!brief.contains("罠が作動"), "authored 専権フラグは語彙に出さない: {brief}");

    let mut s = sc.initial_state(1);
    apply(&mut s, &sc, &StateDelta::new("", vec![set_flag_op("聞いた_在処")])).unwrap();
    let sb = state_brief(&s, &sc);
    assert!(sb.contains("聞いた_在処（鍵の在処の知識）"), "立っている状態に表示名が添えられる: {sb}");
}

#[test]
fn hidden_flags_are_skipped_by_prompt_layers() {
    let mut sc = base("room");
    sc.allowed_flags = set(&["x_done", "知った_合図"]);
    sc.hidden_flags = set(&["x_done"]);
    sc.flag_hints.insert("知った_合図".into(), "合図を教わったら立てる".into());
    let brief = scenario_brief(&sc);
    assert!(brief.contains("知った_合図"), "見えるフラグは語彙に出る: {brief}");
    assert!(!brief.contains("x_done"), "隠しフラグは語彙に出ない: {brief}");

    let mut s = sc.initial_state(1);
    apply(&mut s, &sc, &StateDelta::new("", vec![set_flag_op("x_done"), set_flag_op("知った_合図")])).unwrap();
    let sb = state_brief(&s, &sc);
    assert!(sb.contains("知った_合図"), "見えるフラグは載る: {sb}");
    assert!(!sb.contains("x_done"), "隠しフラグは載らない: {sb}");
}

fn werewolf_votes() -> Vec<VoteRule> {
    vec![
        VoteRule { when: flag_is("投票フェーズ", true), voter_attribute: None },
        VoteRule {
            when: flag_is("夜フェーズ", true),
            voter_attribute: Some(AttrRequirement { key: "役職".into(), value: "人狼".into() }),
        },
    ]
}

fn pool(xs: &[(&str, u32)]) -> StrMap<u32> {
    let mut m = StrMap::new();
    for (k, v) in xs {
        m.insert(k.to_string(), *v);
    }
    m
}

#[test]
fn scenario_brief_surfaces_vote_rules_and_gm_system_grounds_voting() {
    let mut sc = base("v");
    sc.allowed_flags = set(&["投票フェーズ", "夜フェーズ"]);
    sc.role_assignment = Some(RoleAssignment {
        key: "役職".into(),
        pool: pool(&[("人狼", 1), ("村人", 1)]),
        among: vec!["player".into(), "alice".into()],
    });
    sc.vote_rules = werewolf_votes();
    sc.characters.insert("alice".into(), character("A"));
    let brief = scenario_brief(&sc);
    assert!(brief.contains("## 投票"), "投票の節が出る: {brief}");
    assert!(brief.contains("投票フェーズ") && brief.contains("誰でも"), "voter 条件なしの rule は「誰でも」: {brief}");
    assert!(brief.contains("役職=人狼"), "voter_attribute 付きの rule は条件を surface: {brief}");

    let g = GM_SYSTEM;
    assert!(g.contains("cast_vote"));
    assert!(g.contains("全員分") || g.contains("並べ"));
    assert!(g.contains("開票") && (g.contains("起こせない") || g.contains("筋書き")));
    assert!(g.contains("投票できる者が生きているなら") && g.contains("出さなければ"));
    assert!(g.contains("『## 投票』の節が無ければ") && g.contains("一切"));
    assert!(g.contains("引きずられ") && g.contains("割れる"));
}

#[test]
fn state_brief_marks_secret_attributes_and_gm_system_grounds_secrecy() {
    let mut sc = base("v");
    sc.role_assignment = Some(RoleAssignment {
        key: "役職".into(),
        pool: pool(&[("人狼", 1), ("村人", 1)]),
        among: vec!["player".into(), "alice".into()],
    });
    sc.secret_attributes = set(&["役職"]);
    sc.characters.insert("alice".into(), character("A"));
    let s = sc.initial_state(1);
    let sb = state_brief(&s, &sc);
    assert!(sb.contains("役職="), "GM には secret 属性が全員分見える: {sb}");
    assert!(sb.contains("〔秘匿〕"), "secret 属性に秘匿注記が付く: {sb}");

    let g = GM_SYSTEM;
    assert!(g.contains("秘匿"));
    assert!(g.contains("互いに知らない") || g.contains("自分の分だけ"));
    assert!(g.contains("地の文"));
    assert!(g.contains("隠密") && g.contains("結果だけ"));
}

#[test]
fn state_brief_surfaces_open_votes_with_eligible_names() {
    let mut sc = base("v");
    sc.allowed_flags = set(&["投票フェーズ", "夜フェーズ"]);
    sc.vote_rules = werewolf_votes();
    sc.initial_attributes.insert("役職".into(), "村人".into());
    let mut alice = character("アリス");
    alice.attributes.insert("役職".into(), "人狼".into());
    let mut bob = character("ボブ");
    bob.attributes.insert("役職".into(), "村人".into());
    sc.characters.insert("alice".into(), alice);
    sc.characters.insert("bob".into(), bob);
    let mut v = room("d");
    v.present = set(&["alice", "bob"]);
    sc.locations.insert("v".into(), v);
    let mut s = sc.initial_state(1);

    let brief = state_brief(&s, &sc);
    assert!(!brief.contains("いま投票が開いている"), "フェーズ外では出ない: {brief}");

    s.flags.insert("夜フェーズ".into(), true);
    let brief = state_brief(&s, &sc);
    let line = open_vote_line(&brief).expect("夜は動的節が出る");
    assert!(line.contains("アリス (alice)"), "投票できる者を名前 (id) で列挙: {line}");
    assert!(!line.contains("ボブ"), "投票できない者は列挙しない: {line}");
    assert!(line.contains("cast_vote") && line.contains("必ず"), "NPC 分はこのターンの義務として接地: {line}");
    assert!(!line.contains("促せ"), "player に投票権が無ければ促し節は出ない: {line}");

    s.flags.insert("夜フェーズ".into(), false);
    s.flags.insert("投票フェーズ".into(), true);
    let brief = state_brief(&s, &sc);
    let line = open_vote_line(&brief).unwrap();
    assert!(line.contains("player") && line.contains("アリス") && line.contains("ボブ"), "昼は生存者全員が現れる: {line}");
    assert!(line.contains("代行") && line.contains("促せ"), "player の票は代行禁止・未指名なら narration で促す: {line}");
    assert!(line.contains("描写するだけでは"), "narration 描写だけでは票にならないことを player 節でも接地: {line}");

    s.votes.insert("player".into(), "alice".into());
    let brief = state_brief(&s, &sc);
    let line = open_vote_line(&brief).unwrap();
    assert!(line.contains("受領済み"), "投票済みなら促しでなく受領を示す: {line}");
    assert!(!line.contains("促せ"), "投票済みで促さない: {line}");
    s.votes = StrMap::new();

    s.flags.insert("投票フェーズ".into(), false);
    s.flags.insert("夜フェーズ".into(), true);
    s.set_stat("alice", "生存", 0);
    let brief = state_brief(&s, &sc);
    assert!(!brief.contains("いま投票が開いている"), "票を出せる生存者がいなければ節は出ない: {brief}");

    assert!(GM_SYSTEM.contains("いま投票が開いている"), "GM_SYSTEM が動的節を義務の合図として言及する");
}

#[test]
fn state_brief_surfaces_effective_presence_and_gm_system_grounds_it() {
    let mut sc = base("room");
    sc.characters.insert("alice".into(), character("アリス"));
    sc.characters.insert("bob".into(), character("ボブ"));
    let mut r = room("カウンターの奥にアリスが立っている");
    r.present = set(&["alice"]);
    sc.locations.insert("room".into(), r);
    let mut s = sc.initial_state(1);
    let brief = state_brief(&s, &sc);
    assert!(brief.contains("この場にいる"), "presence 節が毎ターン出る: {brief}");
    assert!(brief.contains("アリス"), "base presence の alice が出る: {brief}");
    assert!(!brief.contains("ボブ"), "居ない bob は出ない: {brief}");

    s.present_overrides.insert("alice".into(), false);
    s.present_overrides.insert("bob".into(), true);
    let brief = state_brief(&s, &sc);
    assert!(brief.contains("ボブ"), "登場した bob が出る: {brief}");
    assert!(!brief.contains("アリス"), "退場した alice は出ない: {brief}");

    s.present_overrides.insert("bob".into(), false);
    let brief = state_brief(&s, &sc);
    assert!(brief.contains("誰もいない"), "無人はその旨を明示: {brief}");

    let g = GM_SYSTEM;
    assert!(g.contains("この場にいる"));
    assert!(g.contains("説明文") && (g.contains("登場させ") || g.contains("居ない")));
}

#[test]
fn scenario_brief_surfaces_item_take_modes() {
    let mut sc = base("room");
    let mut r = room("d");
    r.items.insert("ジュース".into(), LocationItem::Def { when: Gate::Always, take: TakeMode::Infinite });
    r.items.insert("シャワー".into(), LocationItem::Def { when: Gate::Always, take: TakeMode::Fixed });
    r.items.insert("鍵".into(), LocationItem::Legacy(Gate::Always));
    sc.locations.insert("room".into(), r);
    let brief = scenario_brief(&sc);
    assert!(
        brief.contains("シャワー") && brief.contains("備え付け") && brief.contains("その場で使える"),
        "fixed は取得不可とその場で使えることを surface: {brief}"
    );
    assert!(brief.contains("ジュース") && brief.contains("何度でも取れる"), "infinite は何度でも取れることを surface: {brief}");
    assert!(brief.contains("鍵"), "旧形式 (once) も従来どおり列挙される: {brief}");
}

#[test]
fn galge_spine_fires_threshold_beats_and_reaches_named_goal() {
    let mut sc = base("room");
    sc.title = "spine".into();
    sc.goal = None;
    sc.allowed_flags = set(&["opened", "confided"]);
    let mut moka = character("モカ");
    moka.stats.insert("好感度".into(), StatDecl { initial: 0, min: 0, max: Some(100) });
    sc.characters.insert("moka".into(), moka);
    let affection = |v: i64| Gate::StatAtLeast { entity: "moka".into(), key: "好感度".into(), value: v };
    for (id, at, flag, narration) in [("opens_up", 20, "opened", "素"), ("confide", 40, "confided", "打ち明け")] {
        sc.triggers.push(Trigger {
            id: id.into(),
            when: affection(at),
            effects: vec![set_flag_op(flag)],
            narration: narration.into(),
            recall: None,
            image: None,
            image_mode: None,
            sound: None,
            repeatable: false,
        });
    }
    sc.goals.push(GoalDef {
        id: "confession".into(),
        when: Gate::All { of: vec![flag_is("confided", true), affection(50)] },
        title: String::new(),
        visible: true,
        hint: String::new(),
        narration: String::new(),
    });
    assert!(sc.validate().is_empty());
    let mut s = sc.initial_state(1);
    let bump =
        |n: i64| StateDelta::new("", vec![StateOp::AdjustStat { entity: "moka".into(), key: "好感度".into(), delta: n }]);

    let o1 = apply(&mut s, &sc, &bump(20)).unwrap();
    assert!(o1.fired.iter().any(|f| f.id == "opens_up"), "20 で素を見せるビート");
    assert_eq!(sc.reached(&s), None, "20 では未到達");

    let o2 = apply(&mut s, &sc, &bump(20)).unwrap();
    assert!(o2.fired.iter().any(|f| f.id == "confide"), "40 で打ち明けビート");
    assert_eq!(sc.reached(&s), None, "打ち明けただけでは未到達");

    apply(&mut s, &sc, &bump(10)).unwrap();
    assert_eq!(sc.reached(&s).as_deref(), Some("confession"), "打ち明けを経て50で告白");
}

#[test]
fn state_view_drops_hidden_attributes_even_for_player_and_surfaces_location_title() {
    let mut sc = base("v");
    sc.initial_attributes.insert("クラス".into(), "剣士".into());
    sc.initial_attributes.insert("真の正体".into(), "吸血鬼".into());
    sc.secret_attributes = set(&["クラス"]);
    sc.hidden_attributes = set(&["真の正体"]);
    let mut v = room("d");
    v.title = "宿屋の広間".into();
    sc.locations.insert("v".into(), v);
    assert!(sc.validate().is_empty(), "{:?}", sc.validate());
    let s = sc.initial_state(1);
    let view = state_view(&s, &sc, &[]);

    let player = view.entities.iter().find(|e| e.id == "player").expect("player が居る");
    assert!(player.attributes.iter().any(|a| a.key == "クラス"), "secret 属性は本人分は見える");
    assert!(!player.attributes.iter().any(|a| a.key == "真の正体"), "hidden 属性は本人分も UI から落ちる");
    assert_eq!(view.location, "v", "id は機械用のまま");
    assert_eq!(view.location_title, "宿屋の広間", "表示名が DTO に出る");
}
