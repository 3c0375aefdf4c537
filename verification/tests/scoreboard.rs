use multi_bomb_test::names::{player_color, player_name, random_player_data};
use multi_bomb_test::scoreboard::{scoreboard, PlayerRecord};

fn record(id: u32, name: &str, color: &str, score: u32) -> PlayerRecord {
    PlayerRecord { id, name: name.to_string(), color: color.to_string(), score }
}

#[test]
fn an_empty_board_is_empty() {
    assert_eq!(scoreboard(&Vec::new()), "");
}

#[test]
fn a_single_row_has_three_lines() {
    let records = vec![record(7, "Player0001", "#ABCDEF", 0)];
    assert_eq!(scoreboard(&records), "Player0001\n#ABCDEF\n0\n");
}

#[test]
fn rows_descend_by_score() {
    let records = vec![
        record(1, "a", "#000001", 10),
        record(2, "b", "#000002", 4000),
        record(3, "c", "#000003", 250),
    ];
    assert_eq!(scoreboard(&records), "b\n#000002\n4000\nc\n#000003\n250\na\n#000001\n10\n");
}

#[test]
fn ties_descend_by_seat() {
    let records = vec![
        record(1, "a", "#000001", 5),
        record(9, "b", "#000002", 5),
        record(4, "c", "#000003", 5),
        record(2, "d", "#000004", 6),
    ];
    assert_eq!(
        scoreboard(&records),
        "d\n#000004\n6\nb\n#000002\n5\nc\n#000003\n5\na\n#000001\n5\n"
    );
}

#[test]
fn names_have_four_hex_digits() {
    assert_eq!(player_name(0), "Player0000");
    assert_eq!(player_name(0x00AB), "Player00AB");
    assert_eq!(player_name(0xFFFF), "PlayerFFFF");
    assert_eq!(player_name(0x1a2b), "Player1A2B");
}

#[test]
fn colors_take_the_upper_24_bits() {
    assert_eq!(player_color(0), "#000000");
    assert_eq!(player_color(0xFFFFFFFF), "#FFFFFF");
    assert_eq!(player_color(0x12EF5600), "#12EF56");
    assert_eq!(player_color(0x000001FF), "#000001");
}

#[test]
fn names_agree_with_the_standard_formatter() {
    for n in [0u16, 1, 15, 16, 255, 256, 4095, 4096, 65535, 0xBEEF] {
        assert_eq!(player_name(n), format!("Player{:04X}", n));
    }
    for n in [0u32, 255, 256, 0xABCDEF12, 0xFFFFFFFF, 0x00000100] {
        assert_eq!(player_color(n), format!("#{:06X}", n >> 8));
    }
}

#[test]
fn random_player_data_has_the_right_shape() {
    for _ in 0..50 {
        let (name, color) = random_player_data();
        assert_eq!(name.len(), 10);
        assert!(name.starts_with("Player"));
        assert!(name[6..].chars().all(|c| c.is_ascii_digit() || ('A'..='F').contains(&c)));
        assert_eq!(color.len(), 7);
        assert!(color.starts_with('#'));
        assert!(color[1..].chars().all(|c| c.is_ascii_digit() || ('A'..='F').contains(&c)));
    }
}
