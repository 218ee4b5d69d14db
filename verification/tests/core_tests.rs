use kataribe::expr::parse_expr;
use kataribe::reason::{Lang, RejectReason};
use kataribe::state::{GameState, RngState};

#[test]
fn dice_are_deterministic_and_in_range() {
    let mut a = RngState { seed: 7, cursor: 0 };
    let mut b = RngState { seed: 7, cursor: 0 };
    let seq_a: Vec<u32> = (0..8).map(|_| a.roll(6)).collect();
    let seq_b: Vec<u32> = (0..8).map(|_| b.roll(6)).collect();
    assert_eq!(seq_a, seq_b, "同じ seed なら同じ出目列");
    assert!(seq_a.iter().all(|&r| (1..=6).contains(&r)), "1d6 は 1..=6");
}

#[test]
fn roll_advances_the_cursor_by_one() {
    let mut a = RngState { seed: 42, cursor: 0 };
    a.roll(20);
    assert_eq!(a.cursor, 1);
    let mut z = RngState { seed: 1, cursor: u64::MAX };
    let r = z.roll(4);
    assert!((1..=4).contains(&r));
    assert_eq!(z.cursor, 0);
}

fn state_with(stats: &[(&str, i64)]) -> GameState {
    let mut s = GameState::new("r", 1);
    for (k, v) in stats {
        s.set_stat("player", k, *v);
    }
    s
}

#[test]
fn parses_and_evaluates_coc_style_formulas() {
    let s = state_with(&[("CON", 13), ("SIZ", 12), ("DEX", 70), ("筋力", 9)]);
    let cases = [
        ("(CON + SIZ) / 2", 12),
        ("(CON+SIZ)/10", 2),
        ("DEX * 2", 140),
        ("筋力 + 3", 12),
        ("（CON＿unknown + 2）", 2),
        ("10 - CON / 13", 9),
        ("-筋力 + 20", 11),
        ("CON × 2 ÷ 4", 6),
    ];
    for (src, want) in cases {
        let e = parse_expr(src).unwrap_or_else(|err| panic!("{src}: {err}"));
        assert_eq!(e.eval(&s, "player"), want, "{src}");
    }
}

#[test]
fn collects_stats_and_rejects_broken_or_div_zero() {
    let e = parse_expr("(CON + SIZ) / 2 + 幸運").unwrap();
    let stats = e.stats();
    assert!(stats.contains("CON") && stats.contains("SIZ") && stats.contains("幸運"));
    assert_eq!(stats.len(), 3, "数値リテラルは含まない");

    for broken in ["", "CON +", "(CON", "CON / 0", "1 / (2 - 2)"] {
        let r = parse_expr(broken);
        if broken == "1 / (2 - 2)" {
            assert!(r.is_ok(), "静的検査はリテラル /0 のみ (実行時は 0 に倒す)");
        } else {
            assert!(r.is_err(), "{broken} は弾く");
        }
    }
}

#[test]
fn expression_errors_name_the_problem() {
    assert!(parse_expr("").unwrap_err().contains("空の式"));
    assert!(parse_expr("CON / 0").unwrap_err().contains("ゼロ除算"));
    let s = state_with(&[]);
    assert_eq!(parse_expr("7 / (2 - 2)").unwrap().eval(&s, "player"), 0);
    assert_eq!(parse_expr("-7 / 2").unwrap().eval(&s, "player"), -3);
}

#[test]
fn localizes_to_each_language() {
    let r = RejectReason::ItemNotHere { item: "master_key".into() };
    assert!(r.localize(Lang::Ja).contains("存在しない"));
    assert!(r.localize(Lang::En).contains("not present"));
    assert!(r.localize(Lang::Ja).contains("master_key"), "id は言語に依らず保持");

    let z = RejectReason::DivideByZero { key: "gold".into() };
    assert!(z.localize(Lang::Ja).contains("ゼロ"));
    assert!(z.localize(Lang::En).contains("zero"));
}
