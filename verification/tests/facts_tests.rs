use kataribe::facts::{
    apply_gm_facts, apply_user_add, apply_user_delete, apply_user_edit, facts_note, sorted_for_display, FactEntry,
    FactOrigin, FactsDigest, FACTS_MAX, FACT_LINE_CHARS, SCORE_GM_NEW, SCORE_REINFORCE, SCORE_USER_EDIT,
    SCORE_USER_NEW,
};

fn gm(list: &mut Vec<FactEntry>, lines: &[&str]) -> FactsDigest {
    let additions: Vec<String> = lines.iter().map(|s| s.to_string()).collect();
    apply_gm_facts(list, &additions, 1)
}

#[test]
fn lines_are_truncated_to_sixty_chars() {
    let mut list = Vec::new();
    let long = "あ".repeat(80);
    let d = gm(&mut list, &[&long]);
    assert_eq!(d.accepted.len(), 1);
    assert_eq!(list[0].text.chars().count(), FACT_LINE_CHARS);
}

#[test]
fn dedup_reinforces_instead_of_duplicating() {
    let mut list = Vec::new();
    gm(&mut list, &["妹の名前はサキ"]);
    assert_eq!(list[0].score, SCORE_GM_NEW);
    let d = gm(&mut list, &[" 妹の名前はサキ "]);
    assert!(d.accepted.is_empty(), "追記されない");
    assert_eq!(d.reinforced, vec![list[0].id]);
    assert_eq!(list.len(), 1);
    assert_eq!(list[0].score, SCORE_GM_NEW + SCORE_REINFORCE);

    let (uid, _) = apply_user_add(&mut list, "宿屋の主人は左頬に傷", 2);
    let uid = uid.unwrap();
    let d = gm(&mut list, &["宿屋の主人は左頬に傷"]);
    assert_eq!(d.reinforced, vec![uid]);
    assert_eq!(list.iter().find(|m| m.id == uid).unwrap().score, SCORE_USER_NEW + SCORE_REINFORCE);
    assert_eq!(list.iter().find(|m| m.id == uid).unwrap().origin, FactOrigin::User);
}

#[test]
fn full_list_churns_on_tie_but_rejects_against_higher_scores() {
    let mut list = Vec::new();
    for i in 0..FACTS_MAX {
        gm(&mut list, &[&format!("事実{i}")]);
    }
    assert_eq!(list.len(), FACTS_MAX);
    let oldest_id = list[0].id;

    let d = gm(&mut list, &["新しい事実"]);
    assert_eq!(d.accepted, vec!["新しい事実".to_string()]);
    assert_eq!(list.len(), FACTS_MAX);
    assert!(!list.iter().any(|m| m.id == oldest_id), "最古 (id 最小) が退場");

    let texts: Vec<String> = list.iter().map(|m| m.text.clone()).collect();
    apply_gm_facts(&mut list, &texts, 2);
    assert!(list.iter().all(|m| m.score >= 2));
    let d = gm(&mut list, &["さらに新しい事実"]);
    assert!(d.accepted.is_empty(), "現最低より低い新規は捨てられる");
    assert!(!list.iter().any(|m| m.text == "さらに新しい事実"));
}

#[test]
fn user_edit_boosts_and_merges_duplicates() {
    let mut list = Vec::new();
    gm(&mut list, &["妹の名前はサキ", "別の事実"]);
    let id = list[0].id;
    let out = apply_user_edit(&mut list, id, "妹の名前はサキ (双子)");
    assert_eq!(out, Some(id));
    let m = list.iter().find(|m| m.id == id).unwrap();
    assert_eq!(m.score, SCORE_GM_NEW + SCORE_USER_EDIT);
    assert_eq!(m.origin, FactOrigin::User);

    for i in 0..30 {
        gm(&mut list, &[&format!("雑事{i}")]);
    }
    assert!(list.iter().any(|m| m.id == id), "user 編集済みの行は生き残る");

    let a = list.iter().find(|m| m.text == "別の事実").map(|m| (m.id, m.score));
    if let Some((aid, ascore)) = a {
        let bid = list.iter().find(|m| m.id != aid && m.origin == FactOrigin::Gm).unwrap().id;
        let merged = apply_user_edit(&mut list, bid, "別の事実").unwrap();
        assert_eq!(merged, aid);
        assert!(!list.iter().any(|m| m.id == bid), "編集対象は消える");
        assert_eq!(list.iter().find(|m| m.id == aid).unwrap().score, ascore + SCORE_USER_EDIT);
    }
}

#[test]
fn user_add_always_lands_and_reports_eviction() {
    let mut list = Vec::new();
    for i in 0..FACTS_MAX {
        gm(&mut list, &[&format!("事実{i}")]);
    }
    let texts: Vec<String> = list.iter().map(|m| m.text.clone()).collect();
    apply_gm_facts(&mut list, &texts, 2);
    let oldest_id = list.iter().map(|m| m.id).min().unwrap();
    let (id, evicted) = apply_user_add(&mut list, "大事な追記", 3);
    assert!(id.is_some());
    assert_eq!(evicted.unwrap().id, oldest_id, "犠牲者は最低スコア帯の最古");
    assert_eq!(list.len(), FACTS_MAX);
    assert!(list.iter().any(|m| m.text == "大事な追記"));
}

#[test]
fn facts_note_grounds_subordination_and_sorts_by_score() {
    assert!(facts_note(&vec![]).is_none(), "空リストは節を出さない");
    let mut list = Vec::new();
    gm(&mut list, &["低スコアの事実"]);
    let (hi, _) = apply_user_add(&mut list, "高スコアの事実", 1);
    let note = facts_note(&list).unwrap();
    assert!(note.contains("state と矛盾するときは常に state が正しい"), "抑止: {note}");
    assert!(note.contains("確定させてはならない"), "抑止 (付与禁止): {note}");
    assert!(note.contains("約束事を尊重して従う"), "保護: {note}");
    let hi_pos = note.find("高スコアの事実").unwrap();
    let lo_pos = note.find("低スコアの事実").unwrap();
    assert!(hi_pos < lo_pos, "スコア降順で注入: {note}");
    let _ = hi;
}

#[test]
fn nfkc_folds_width_variants_into_one_fact() {
    let mut list = Vec::new();
    gm(&mut list, &["ＡＢＣ１２３"]);
    let d = gm(&mut list, &["ABC123"]);
    assert!(d.accepted.is_empty());
    assert_eq!(d.reinforced, vec![list[0].id]);
    assert_eq!(list.len(), 1);
}

#[test]
fn blank_lines_are_ignored_and_ids_grow() {
    let mut list = Vec::new();
    let d = gm(&mut list, &["   ", "", "一つ目", "二つ目"]);
    assert_eq!(d.accepted, vec!["一つ目".to_string(), "二つ目".to_string()]);
    assert_eq!(list.len(), 2);
    assert!(list[0].id < list[1].id);
    assert_eq!(list[0].origin, FactOrigin::Gm);
}

#[test]
fn user_delete_removes_only_the_named_line() {
    let mut list = Vec::new();
    gm(&mut list, &["甲", "乙"]);
    let id = list[0].id;
    assert!(apply_user_delete(&mut list, id));
    assert!(!apply_user_delete(&mut list, id));
    assert_eq!(list.len(), 1);
    assert_eq!(list[0].text, "乙");
}

#[test]
fn user_edit_of_unknown_id_changes_nothing() {
    let mut list = Vec::new();
    gm(&mut list, &["甲"]);
    assert_eq!(apply_user_edit(&mut list, 999, "乙"), None);
    assert_eq!(list.len(), 1);
    assert_eq!(list[0].text, "甲");
}

#[test]
fn display_order_is_score_descending() {
    let mut list = Vec::new();
    gm(&mut list, &["低"]);
    apply_user_add(&mut list, "高", 1);
    let shown = sorted_for_display(&list);
    assert_eq!(shown[0].text, "高");
    assert_eq!(shown[1].text, "低");
}
