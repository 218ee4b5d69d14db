use kataribe::synopsis::{Synopsis, SynopsisEntry, SynopsisJob, SynopsisTrigger, SYNOPSIS_TEXT_MAX};
use kataribe::turn::TurnLog;

fn log(turn: u32, summary: &str) -> TurnLog {
    TurnLog { turn, player: format!("行動{turn}"), summary: summary.to_string(), ..Default::default() }
}

fn logs(n: u32) -> Vec<TurnLog> {
    (1..=n).map(|t| log(t, &format!("出来事{t}"))).collect()
}

#[test]
fn overflow_compacts_keeping_recent_and_ranges_connect() {
    let mut syn = Synopsis::default();
    assert!(syn.next_job(&logs(20)).is_none(), "閾値ちょうどでは圧縮しない");

    let history = logs(21);
    let job = syn.next_job(&history).expect("21 ターンで発火");
    assert_eq!((job.start, job.end), (1, 11), "直近 10 (T12〜21) を温存");
    assert_eq!(job.trigger, SynopsisTrigger::Overflow);
    assert!(job.title.contains("1〜11"), "章題にターン範囲: {}", job.title);
    syn.complete(&job, "第一章のあらすじ。");
    assert_eq!(syn.compressed_upto(), 11);

    assert!(syn.next_job(&logs(31)).is_none());
    let history = logs(32);
    let job2 = syn.next_job(&history).expect("未圧縮 21 で再発火");
    assert_eq!(job2.start, 12, "次回 start = 前回 upto_turn+1 (接続保証)");
    assert_eq!(job2.end, 22, "直近 10 (T23〜32) を温存");
    syn.complete(&job2, "第二章のあらすじ。");
    assert_eq!(
        syn.entries.iter().map(|e| e.upto_turn).collect::<Vec<_>>(),
        vec![11, 22],
        "append-only で古い順に積まれる"
    );
}

#[test]
fn transition_failure_freezes_range_and_retries_identically() {
    let mut syn = Synopsis::default();
    let mut history = logs(8);
    let job = syn.on_transition(&history, "村の章").expect("8 ターンは LLM 対象");
    assert_eq!((job.start, job.end), (1, 8));
    assert_eq!(job.title, "村の章");
    assert_eq!(job.trigger, SynopsisTrigger::Transition);

    syn.abandon(&job);
    assert!(syn.pending_transition.is_some(), "遷移失敗は pending へ凍結");

    history.extend((9..=11).map(|t| log(t, &format!("新章の出来事{t}"))));
    let retry = syn.next_job(&history).expect("凍結ジョブをリトライ");
    assert_eq!(&retry, &job, "範囲・章題とも同一 (拡張禁止 = T9〜11 は混入しない)");

    syn.complete(&retry, "村の章のあらすじ。");
    assert!(syn.pending_transition.is_none(), "成功で解凍");
    assert_eq!(syn.compressed_upto(), 8);
    assert!(syn.next_job(&history).is_none(), "未圧縮 3 ターンでは何も起きない");
}

#[test]
fn short_transition_uses_mechanical_join_with_engine_tags() {
    let mut syn = Synopsis::default();
    let mut l1 = log(1, "祠の鍵を拾った");
    l1.location = "shrine".into();
    l1.items = vec!["+祠の鍵".into()];
    let l2 = log(2, "扉へ向かった");
    let history = vec![l1, l2];

    let job = syn.on_transition(&history, "序章");
    assert!(job.is_none(), "3 ターン未満は LLM を呼ばない");
    assert_eq!(syn.entries.len(), 1, "機械 join で即確定");
    let e = &syn.entries[0];
    assert_eq!(e.upto_turn, 2);
    assert_eq!(e.title, "序章");
    assert!(e.text.contains("祠の鍵を拾った"), "summary が入る: {}", e.text);
    assert!(e.text.contains("shrine"), "location タグ併記: {}", e.text);
    assert!(e.text.contains("+祠の鍵"), "items タグ併記: {}", e.text);
}

#[test]
fn second_transition_flushes_frozen_pending_mechanically() {
    let mut syn = Synopsis::default();
    let mut history = logs(5);
    let job = syn.on_transition(&history, "第一章").unwrap();
    syn.abandon(&job);

    history.extend((6..=9).map(|t| log(t, &format!("出来事{t}"))));
    let job2 = syn.on_transition(&history, "第二章").expect("新章のジョブ");
    assert_eq!(syn.entries.len(), 1, "凍結分は機械 join で確定済み");
    assert_eq!(syn.entries[0].upto_turn, 5);
    assert_eq!(syn.entries[0].title, "第一章");
    assert_eq!((job2.start, job2.end), (6, 9), "新章は凍結範囲の直後から");
    assert!(syn.pending_transition.is_none());
}

#[test]
fn synopsis_request_grounds_tags_and_forbids_invention() {
    let mut syn = Synopsis::default();
    syn.entries.push(SynopsisEntry {
        upto_turn: 3,
        title: "序章".into(),
        text: "村に着いた。長老から祠の話を聞いた。".into(),
    });
    let mut l4 = log(4, "祠へ向かった");
    l4.location = "shrine".into();
    l4.present = vec!["alice".into()];
    l4.flags_set = vec!["door_open".into()];
    l4.checks = vec!["player STR 1d20+3=17 vs DC15 成功".into()];
    let history = vec![log(3, "旅立った"), l4, log(5, "祭壇を調べた")];
    let job = SynopsisJob { start: 4, end: 5, title: "祠の章".into(), trigger: SynopsisTrigger::Transition };

    let req = syn.build_request(&history, &job);
    assert_eq!(req.lines.len(), 2, "範囲は inclusive [4,5] (T3 は入らない)");
    assert!(req.lines[0].contains("場所:shrine"), "location 接地: {}", req.lines[0]);
    assert!(req.lines[0].contains("同席:alice"), "present 接地");
    assert!(req.lines[0].contains("成立:door_open"), "flag 接地");
    assert!(req.lines[0].contains("判定:"), "check 接地");
    assert!(req.prev_tail.contains("祠の話を聞いた"), "前章末尾が tail: {}", req.prev_tail);

    let sys = req.system_prompt();
    assert!(sys.contains("発明しない"), "発明禁止");
    assert!(sys.contains("記録の表記のまま"), "固有名の表記固定");
    assert!(sys.contains("文体の接続のみ"), "tail の文体限定 (#47 防衛)");
    assert!(sys.contains("あらすじ本文のみ"), "前置き・見出し禁止");
    let user = req.user_prompt();
    assert!(user.contains("祠の章"), "章題");
    assert!(user.contains("事実の出典にしない"), "tail 節にも限定を明記");
}

#[test]
fn complete_truncates_and_never_regresses() {
    let mut syn = Synopsis::default();
    let long = "あ".repeat(500);
    let job = SynopsisJob { start: 1, end: 10, title: "章".into(), trigger: SynopsisTrigger::Overflow };
    syn.complete(&job, &long);
    assert_eq!(syn.entries[0].text.chars().count(), SYNOPSIS_TEXT_MAX, "400 字で切る");
    assert!(syn.entries[0].text.ends_with('…'));

    let stale = SynopsisJob { start: 1, end: 5, title: "古".into(), trigger: SynopsisTrigger::Overflow };
    syn.complete(&stale, "巻き戻し");
    assert_eq!(syn.entries.len(), 1, "後退追記は無視される");
    assert_eq!(syn.compressed_upto(), 10);
}

#[test]
fn overflow_job_is_not_frozen_on_failure() {
    let mut syn = Synopsis::default();
    let job = syn.next_job(&logs(25)).unwrap();
    assert_eq!((job.start, job.end), (1, 15));
    assert_eq!(job.title, "ターン 1〜15");
    syn.abandon(&job);
    assert!(syn.pending_transition.is_none());
    assert!(syn.entries.is_empty());
}

#[test]
fn tail_of_previous_chapter_takes_two_sentences_or_cuts_one() {
    let mut syn = Synopsis::default();
    syn.entries.push(SynopsisEntry { upto_turn: 1, title: "a".into(), text: "一。二。三。".into() });
    let job = SynopsisJob { start: 2, end: 2, title: "b".into(), trigger: SynopsisTrigger::Overflow };
    let req = syn.build_request(&logs(2), &job);
    assert_eq!(req.prev_tail, "二。三。");
    let mut syn2 = Synopsis::default();
    syn2.entries.push(SynopsisEntry { upto_turn: 1, title: "a".into(), text: format!(" {} ", "x".repeat(90)) });
    let req2 = syn2.build_request(&logs(2), &job);
    assert_eq!(req2.prev_tail.chars().count(), 80);
    assert!(req2.prev_tail.ends_with('…'));
    let req3 = Synopsis::default().build_request(&logs(2), &job);
    assert_eq!(req3.prev_tail, "");
    assert!(req3.user_prompt().contains("(なし — 最初の章)"));
}

#[test]
fn grounded_line_has_exact_shape() {
    let mut l = log(7, "扉を開けた");
    l.location = "hall".into();
    l.items = vec!["鍵".into(), "灯".into()];
    let syn = Synopsis::default();
    let job = SynopsisJob { start: 7, end: 7, title: "t".into(), trigger: SynopsisTrigger::Overflow };
    let req = syn.build_request(&vec![l], &job);
    assert_eq!(req.lines, vec!["T7 プレイヤー「行動7」→ 扉を開けた〔場所:hall／持物:鍵・灯〕".to_string()]);
}
