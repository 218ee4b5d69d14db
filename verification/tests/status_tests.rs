use kataribe::state::GameState;
use kataribe::status::{inventory, stats_line, status_line};

#[test]
fn status_line_on_a_fresh_state_says_none() {
    let s = GameState::new("cell", 1);
    assert_eq!(inventory(&s), "なし");
    assert_eq!(stats_line(&s), "なし");
    assert_eq!(status_line(&s), "  [所在: cell / 所持: なし / 能力値: なし]");
}

#[test]
fn status_line_lists_every_entity_in_key_order() {
    let mut s = GameState::new("hall", 1);
    s.add_to_inventory("player", "rusty_key");
    s.add_to_inventory("player", "chalk");
    s.add_to_inventory("moka", "smartphone");
    s.set_stat("player", "hp", 8);
    s.set_stat("player", "gold", -3);
    s.set_stat("moka", "好感度", 20);
    assert_eq!(inventory(&s), "moka: smartphone / player: chalk, rusty_key");
    assert_eq!(stats_line(&s), "moka(好感度=20) / player(gold=-3, hp=8)");
    assert_eq!(
        status_line(&s),
        "  [所在: hall / 所持: moka: smartphone / player: chalk, rusty_key / 能力値: moka(好感度=20) / player(gold=-3, hp=8)]"
    );
}
