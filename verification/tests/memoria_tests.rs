use kataribe::engine::FiredTrigger;
use kataribe::memoria::{resolve_recall, LoreStore, Memoria, MemoryFragment};

fn store() -> LoreStore {
    LoreStore::new(vec![
        MemoryFragment {
            id: "childhood_promise".into(),
            tags: vec!["約束".into(), "幼少期".into()],
            text: "幼い二人は、丘の上の古い樫の木の下で「いつか必ず戻る」と指切りをした。".into(),
        },
        MemoryFragment {
            id: "alice_sweet_tooth".into(),
            tags: vec!["性格".into()],
            text: "アリスは甘いものに目がなく、緊張すると蜂蜜飴を舐める癖がある。".into(),
        },
    ])
}

fn fired(id: &str, recall: Option<&str>) -> FiredTrigger {
    FiredTrigger { id: id.into(), narration: "（反応ビートの語り）".into(), recall: recall.map(|s| s.into()) }
}

#[test]
fn recall_by_id_returns_lore() {
    let got = store().recall("childhood_promise");
    assert_eq!(got.len(), 1);
    assert!(got[0].text.contains("指切り"), "伏線の本文が返る");
}

#[test]
fn recall_by_tag_returns_lore() {
    let got = store().recall("幼少期");
    assert_eq!(got.len(), 1);
    assert_eq!(got[0].id, "childhood_promise");
}

#[test]
fn recall_miss_is_empty() {
    assert!(store().recall("存在しない伏線").is_empty());
}

#[test]
fn resolve_recall_bridges_fire_to_lore() {
    let fired = vec![fired("recall_promise", Some("childhood_promise"))];
    let beats = resolve_recall(&store(), &fired);
    assert_eq!(beats.len(), 1);
    assert_eq!(beats[0].id, "recall_promise");
    assert_eq!(beats[0].recalled.len(), 1, "cue が伏線に解決される");
    assert!(beats[0].recalled[0].text.contains("樫の木"));
}

#[test]
fn trigger_without_cue_recalls_nothing() {
    let beats = resolve_recall(&store(), &[fired("plain_beat", None)]);
    assert!(beats[0].recalled.is_empty());
}

#[test]
fn unit_memoria_recalls_nothing() {
    let beats = resolve_recall(&(), &[fired("recall_promise", Some("childhood_promise"))]);
    assert!(beats[0].recalled.is_empty());
}

#[test]
fn recall_keeps_authored_order_and_matches_every_tag_holder() {
    let s = LoreStore::new(vec![
        MemoryFragment { id: "b".into(), tags: vec!["共通".into()], text: "二".into() },
        MemoryFragment { id: "a".into(), tags: vec!["共通".into(), "別".into()], text: "一".into() },
        MemoryFragment { id: "共通".into(), tags: vec![], text: "三".into() },
    ]);
    let got = s.recall("共通");
    let texts: Vec<&str> = got.iter().map(|f| f.text.as_str()).collect();
    assert_eq!(texts, vec!["二", "一", "三"]);
    assert_eq!(s.len(), 3);
    assert!(!s.is_empty());
    assert!(LoreStore::new(vec![]).is_empty());
}

#[test]
fn resolved_beats_keep_id_and_narration_in_order() {
    let fs = vec![fired("x", None), fired("y", Some("性格"))];
    let beats = resolve_recall(&store(), &fs);
    assert_eq!(beats.len(), 2);
    assert_eq!(beats[0].id, "x");
    assert_eq!(beats[1].id, "y");
    assert_eq!(beats[1].narration, "（反応ビートの語り）");
    assert_eq!(beats[1].recalled[0].id, "alice_sweet_tooth");
}
