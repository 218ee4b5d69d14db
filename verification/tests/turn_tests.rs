use kataribe::turn::{carryover_narration, chronicle_entry};

#[test]
fn chronicle_entry_falls_back_to_truncated_narration() {
    let long = "夕暮れの書斎。埃をかぶった机の引き出しに手をかけると、軋みながら開いた。".repeat(5);
    let e = chronicle_entry(3, "引き出しを開ける", "", &long, &vec![]);
    assert!(e.summary.chars().count() <= 81, "narration 冒頭へ切り詰める (…込み)");
    assert!(e.summary.starts_with("夕暮れの書斎"), "冒頭から取る");
    assert_eq!(e.turn, 3);
    assert_eq!(e.player, "引き出しを開ける");

    let e2 = chronicle_entry(4, "話す", "アリスに約束を打ち明けた", &long, &vec![]);
    assert_eq!(e2.summary, "アリスに約束を打ち明けた", "summary があればそのまま");
}

#[test]
fn fired_beats_flow_into_carryover_and_chronicle() {
    let beats = vec!["石壁が轟音とともに崩れ、隠し通路が現れた。".to_string()];

    let carry = carryover_narration("祭壇に手を触れると、微かに紋様が光った。", &beats);
    assert!(carry.contains("紋様が光った"), "GM の語りが残る");
    assert!(carry.contains("筋書きの出来事"), "ビートが筋書きの出来事として連結される");
    assert!(carry.contains("隠し通路が現れた"), "ビート本文が入る");
    assert_eq!(carryover_narration("素の語り", &vec![]), "素の語り");

    let e = chronicle_entry(5, "祭壇に触れる", "祭壇に触れて紋様が光った", "（語り）", &beats);
    assert!(e.summary.contains("祭壇に触れて紋様が光った"), "GM の summary が残る");
    assert!(e.summary.contains("出来事") && e.summary.contains("隠し通路"), "ビートが出来事として併記される: {}", e.summary);
}

#[test]
fn chronicle_entry_exact_shapes() {
    let e = chronicle_entry(1, "p", "  要約  ", "語り", &vec!["  a  b ".to_string(), " ".to_string(), "c".to_string()]);
    assert_eq!(e.summary, "要約／出来事: a b、c");
    let e2 = chronicle_entry(1, "p", "", " 短い\n語り ", &vec![]);
    assert_eq!(e2.summary, "短い 語り");
    let long = "x".repeat(81);
    let e3 = chronicle_entry(1, "p", "", &long, &vec![]);
    assert_eq!(e3.summary, format!("{}…", "x".repeat(80)));
}

#[test]
fn carryover_exact_shape() {
    let c = carryover_narration("語り  ", &vec![" 一 ".to_string(), "".to_string(), "二".to_string()]);
    assert_eq!(c, "語り\n（直後に筋書きの出来事が起きた）\n一\n二");
}
