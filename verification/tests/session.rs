use multi_bomb_test::coordinator::GameUpdate;
use multi_bomb_test::packet::{BombMoveAction, BombPosition};
use multi_bomb_test::session::{Action, Inbound, Phase, Session};

fn text(frame: &str) -> Inbound {
    Inbound::Text(frame.to_string())
}

fn show(actions: &[Action]) -> Vec<String> {
    actions.iter().map(|a| format!("{:?}", a)).collect()
}

fn live(bomb_count: u32, id: u32) -> Session {
    let mut s = Session::new();
    s.on_parameters(bomb_count);
    s.on_inbound(&text(&format!("olleh\n{}", id)));
    s.on_credentials(id, "Player0001".to_string(), "#ABCDEF".to_string());
    assert_eq!(s.phase(), Phase::Live);
    s
}

#[test]
fn handshake_goes_through_its_phases() {
    let mut s = Session::new();
    assert_eq!(s.phase(), Phase::Requesting);
    let actions = s.on_parameters(5);
    assert_eq!(show(&actions), vec![format!("{:?}", Action::Send("hello\n5".to_string()))]);
    assert_eq!(s.phase(), Phase::Handshaking);
    assert_eq!(s.bomb_count(), 5);
    let actions = s.on_inbound(&text("olleh\n7"));
    assert_eq!(show(&actions), vec![format!("{:?}", Action::Forward(7))]);
    assert_eq!(s.phase(), Phase::Seating);
    let actions = s.on_credentials(8, "Player0001".to_string(), "#ABCDEF".to_string());
    assert_eq!(
        show(&actions),
        vec![format!("{:?}", Action::Send("name\nPlayer0001\n#ABCDEF".to_string()))]
    );
    assert_eq!(s.phase(), Phase::Live);
    assert_eq!(s.player_id(), 8);
    for i in 0..6 {
        assert_eq!(s.held(i), None);
    }
}

#[test]
fn handshake_fails_silently() {
    let bad = [
        text("move\n0 R1"),
        text("olleh"),
        text("olleh\nx"),
        text("hello\n5"),
        Inbound::Close,
        Inbound::NonText,
        Inbound::Failed,
        Inbound::TimedOut,
    ];
    for inbound in bad {
        let mut s = Session::new();
        s.on_parameters(5);
        let actions = s.on_inbound(&inbound);
        assert_eq!(show(&actions), vec![format!("{:?}", Action::Close)]);
        assert_eq!(s.phase(), Phase::Closed);
    }
}

#[test]
fn updates_are_shown_and_handles_kept() {
    let mut s = live(5, 7);
    let actions = s.on_update(2, GameUpdate::BombReceived(11));
    assert_eq!(show(&actions), vec![format!("{:?}", Action::Send("status\n2 X".to_string()))]);
    assert_eq!(s.held(2), Some(11));
    let actions = s.on_update(3, GameUpdate::BombMoved(BombPosition::L));
    assert_eq!(show(&actions), vec![format!("{:?}", Action::Send("status\n3 L".to_string()))]);
    assert_eq!(s.held(3), None);
    let actions = s.on_update(4, GameUpdate::BombMoved(BombPosition::R));
    assert_eq!(show(&actions), vec![format!("{:?}", Action::Send("status\n4 R".to_string()))]);
}

#[test]
fn a_move_is_delivered_once() {
    let mut s = live(5, 7);
    s.on_update(2, GameUpdate::BombReceived(11));
    let actions = s.on_inbound(&text("move\n2 L3"));
    assert_eq!(
        show(&actions),
        vec![format!(
            "{:?}",
            Action::Deliver { index: 2, handle: 11, action: BombMoveAction::L3 }
        )]
    );
    assert_eq!(s.held(2), None);
    assert_eq!(s.phase(), Phase::Live);
    // A second move for the same bomb finds nothing held.
    let actions = s.on_inbound(&text("move\n2 L3"));
    assert_eq!(
        show(&actions),
        vec![format!("{:?}", Action::Leave(7)), format!("{:?}", Action::Close)]
    );
    assert_eq!(s.phase(), Phase::Closed);
}

#[test]
fn bad_move_index_closes_the_session() {
    let mut s = live(5, 7);
    for i in 0..5 {
        s.on_update(i, GameUpdate::BombReceived(0));
    }
    let actions = s.on_inbound(&text("move\n99 R1"));
    let mut expected = vec![format!("{:?}", Action::Leave(7)), format!("{:?}", Action::Close)];
    for i in 0..5 {
        expected.push(format!("{:?}", Action::Release { index: i, handle: 0 }));
    }
    assert_eq!(show(&actions), expected);
    let leaves = actions.iter().filter(|a| matches!(a, Action::Leave(_))).count();
    assert_eq!(leaves, 1);
    assert_eq!(s.phase(), Phase::Closed);
    // Nothing more comes of a closed session.
    assert!(s.on_inbound(&text("move\n0 R1")).is_empty());
    assert!(s.on_inbound(&Inbound::Close).is_empty());
    assert!(s.on_update(0, GameUpdate::BombReceived(1)).is_empty());
    assert!(s.on_board("x".to_string()).is_empty());
}

#[test]
fn a_live_session_ends_on_anything_but_a_good_move() {
    let bad = [
        text("olleh\n7"),
        text("move\n5 R1"),
        text("move\n0 R1"),
        text("move\n1 R7"),
        text("nonsense"),
        Inbound::Close,
        Inbound::NonText,
        Inbound::Failed,
        Inbound::TimedOut,
    ];
    for inbound in bad {
        let mut s = live(5, 3);
        s.on_update(1, GameUpdate::BombReceived(4));
        let actions = s.on_inbound(&inbound);
        assert_eq!(
            show(&actions),
            vec![
                format!("{:?}", Action::Leave(3)),
                format!("{:?}", Action::Close),
                format!("{:?}", Action::Release { index: 1, handle: 4 }),
            ]
        );
        assert_eq!(s.phase(), Phase::Closed);
    }
}

#[test]
fn a_replaced_handle_is_released() {
    let mut s = live(2, 3);
    s.on_update(1, GameUpdate::BombReceived(4));
    let actions = s.on_update(1, GameUpdate::BombReceived(5));
    assert_eq!(
        show(&actions),
        vec![
            format!("{:?}", Action::Send("status\n1 X".to_string())),
            format!("{:?}", Action::Release { index: 1, handle: 4 }),
        ]
    );
    assert_eq!(s.held(1), Some(5));
    let actions = s.on_update(1, GameUpdate::BombMoved(BombPosition::R));
    assert_eq!(
        show(&actions),
        vec![
            format!("{:?}", Action::Send("status\n1 R".to_string())),
            format!("{:?}", Action::Release { index: 1, handle: 5 }),
        ]
    );
    assert_eq!(s.held(1), None);
}

#[test]
fn updates_outside_the_bombs_are_passed_over() {
    let mut s = live(2, 3);
    assert!(s.on_update(2, GameUpdate::BombReceived(4)).is_empty());
    assert_eq!(s.held(2), None);
    let mut early = Session::new();
    assert!(early.on_update(0, GameUpdate::BombReceived(4)).is_empty());
    assert!(early.on_credentials(1, "n".to_string(), "c".to_string()).is_empty());
    assert!(early.on_inbound(&text("olleh\n1")).is_empty());
    assert_eq!(early.phase(), Phase::Requesting);
}

#[test]
fn the_board_is_shown_to_a_live_session() {
    let s = live(1, 3);
    let actions = s.on_board("A\n#000000\n7\n".to_string());
    assert_eq!(
        show(&actions),
        vec![format!("{:?}", Action::Send("board\nA\n#000000\n7\n".to_string()))]
    );
}

#[test]
fn parameters_come_once() {
    let mut s = Session::new();
    s.on_parameters(5);
    assert!(s.on_parameters(9).is_empty());
    assert_eq!(s.bomb_count(), 5);
}
