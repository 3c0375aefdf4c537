use multi_bomb_test::coordinator::{BombState, Command, Coordinator, GameUpdate};
use multi_bomb_test::packet::{BombMoveAction, BombPosition};

fn join(c: &mut Coordinator, preferred: u32, name: &str, now: u64) -> Vec<Command> {
    c.join_as(preferred, name.to_string(), "#112233".to_string(), now).unwrap()
}

fn updates(commands: &[Command]) -> Vec<(u32, u32, GameUpdate)> {
    let mut out = Vec::new();
    for c in commands {
        if let Command::Update { to, index, update } = c {
            out.push((*to, *index, *update));
        }
    }
    out
}

fn boards(commands: &[Command]) -> Vec<String> {
    let mut out = Vec::new();
    for c in commands {
        if let Command::Publish(board) = c {
            out.push(board.clone());
        }
    }
    out
}

fn holder(c: &Coordinator, index: u32) -> u32 {
    c.bomb(index).unwrap().holder
}

#[test]
fn solo_join_and_score() {
    let mut c = Coordinator::new(5);
    assert!(!c.is_active());
    let commands = join(&mut c, 7, "A", 1000);
    assert!(c.is_active());
    assert_eq!(commands.len(), 7);
    assert_eq!(boards(&commands), vec!["A\n#112233\n0\n".to_string()]);
    assert!(matches!(&commands[0], Command::Publish(_)));
    match &commands[1] {
        Command::Welcome { id, name, color } => {
            assert_eq!(*id, 7);
            assert_eq!(name, "A");
            assert_eq!(color, "#112233");
        }
        _ => panic!("the second command welcomes the player"),
    }
    let expected: Vec<(u32, u32, GameUpdate)> =
        (0..5).map(|i| (7, i, GameUpdate::BombReceived(0))).collect();
    assert_eq!(updates(&commands), expected);
    for i in 0..5 {
        assert_eq!(
            c.bomb(i),
            Some(BombState {
                holder: 7,
                prompt_issued_at: Some(1000),
                outstanding_reply: Some(0),
                next_handle: 1,
            })
        );
    }
    assert_eq!(c.bomb(5), None);

    let commands = c.reply(0, 0, 1100, Some(BombMoveAction::R1));
    assert_eq!(c.score(7), Some(4000));
    assert_eq!(holder(&c, 0), 7);
    assert_eq!(boards(&commands), vec!["A\n#112233\n4000\n".to_string()]);
    assert_eq!(updates(&commands), vec![(7, 0, GameUpdate::BombReceived(1))]);
    assert_eq!(commands.len(), 2);
    assert_eq!(c.board(), "A\n#112233\n4000\n");
}

#[test]
fn second_join_is_told_where_the_bombs_are() {
    let mut c = Coordinator::new(5);
    join(&mut c, 7, "A", 0);
    let commands = join(&mut c, 20, "B", 10);
    assert!(c.is_seated(7));
    assert!(c.is_seated(20));
    let expected: Vec<(u32, u32, GameUpdate)> =
        (0..5).map(|i| (20, i, GameUpdate::BombMoved(BombPosition::L))).collect();
    assert_eq!(updates(&commands), expected);
    assert_eq!(boards(&commands), vec!["B\n#112233\n0\nA\n#112233\n0\n".to_string()]);
    for i in 0..5 {
        assert_eq!(holder(&c, i), 7);
    }
}

#[test]
fn a_newcomer_below_the_holder_sees_the_bombs_to_the_right() {
    let mut c = Coordinator::new(2);
    join(&mut c, 7, "A", 0);
    let commands = join(&mut c, 3, "B", 10);
    assert_eq!(
        updates(&commands),
        vec![
            (3, 0, GameUpdate::BombMoved(BombPosition::R)),
            (3, 1, GameUpdate::BombMoved(BombPosition::R)),
        ]
    );
}

#[test]
fn transfer_to_the_right() {
    let mut c = Coordinator::new(5);
    join(&mut c, 7, "A", 0);
    join(&mut c, 20, "B", 0);
    let commands = c.reply(0, 0, 50, Some(BombMoveAction::R1));
    assert_eq!(holder(&c, 0), 20);
    assert_eq!(c.score(7), Some(4050));
    assert_eq!(c.score(20), Some(0));
    assert_eq!(
        updates(&commands),
        vec![
            (7, 0, GameUpdate::BombMoved(BombPosition::R)),
            (20, 0, GameUpdate::BombReceived(1)),
        ]
    );
    assert_eq!(boards(&commands), vec!["A\n#112233\n4050\nB\n#112233\n0\n".to_string()]);
    assert!(matches!(&commands[0], Command::Publish(_)));
}

#[test]
fn seat_collision_takes_the_seat_after_the_largest() {
    let mut c = Coordinator::new(1);
    join(&mut c, 5, "A", 0);
    join(&mut c, 9, "B", 0);
    let commands = join(&mut c, 5, "C", 0);
    match &commands[1] {
        Command::Welcome { id, .. } => assert_eq!(*id, 10),
        _ => panic!("the second command welcomes the player"),
    }
    assert!(c.is_seated(5));
    assert!(c.is_seated(9));
    assert!(c.is_seated(10));
    assert!(!c.is_seated(11));
}

#[test]
fn no_seat_after_the_largest_number() {
    let mut c = Coordinator::new(1);
    join(&mut c, 4294967295, "A", 0);
    assert!(c.join_as(4294967295, "B".to_string(), "#000000".to_string(), 0).is_none());
    assert!(c.join(4294967295, 0).is_none());
    assert_eq!(c.board(), "A\n#112233\n0\n");
    assert!(c.join_as(3, "B".to_string(), "#000000".to_string(), 0).is_some());
}

#[test]
fn holder_leaves() {
    let mut c = Coordinator::new(3);
    join(&mut c, 4, "D", 0);
    join(&mut c, 1, "A", 0);
    join(&mut c, 9, "N", 0);
    // Bombs 0 and 1 go to seat 1; bomb 2 stays with seat 4.
    c.reply(0, 0, 5000, Some(BombMoveAction::L1));
    c.reply(1, 0, 5000, Some(BombMoveAction::L1));
    assert_eq!(holder(&c, 0), 1);
    assert_eq!(holder(&c, 1), 1);
    assert_eq!(holder(&c, 2), 4);
    let before_1 = c.bomb(0).unwrap();

    let commands = c.leave(4, 6000);
    assert!(!c.is_seated(4));
    assert_eq!(holder(&c, 2), 9);
    assert_eq!(
        updates(&commands),
        vec![
            (1, 2, GameUpdate::BombMoved(BombPosition::R)),
            (9, 2, GameUpdate::BombReceived(1)),
        ]
    );
    assert_eq!(boards(&commands), vec!["N\n#112233\n0\nA\n#112233\n0\n".to_string()]);
    assert!(matches!(commands.last(), Some(Command::Publish(_))));
    assert_eq!(c.score(1), Some(0));
    assert_eq!(c.score(9), Some(0));
    assert_eq!(c.score(4), None);
    // The bombs of the others keep their prompts.
    assert_eq!(c.bomb(0), Some(before_1));
    assert_eq!(
        c.bomb(2),
        Some(BombState {
            holder: 9,
            prompt_issued_at: Some(6000),
            outstanding_reply: Some(1),
            next_handle: 2,
        })
    );
}

#[test]
fn the_largest_seat_leaves_to_the_smallest() {
    let mut c = Coordinator::new(1);
    join(&mut c, 9, "N", 0);
    join(&mut c, 1, "A", 0);
    join(&mut c, 4, "D", 0);
    let commands = c.leave(9, 10);
    assert_eq!(holder(&c, 0), 1);
    assert_eq!(
        updates(&commands),
        vec![
            (4, 0, GameUpdate::BombMoved(BombPosition::L)),
            (1, 0, GameUpdate::BombReceived(1)),
        ]
    );
}

#[test]
fn leave_is_idempotent() {
    let mut c = Coordinator::new(2);
    join(&mut c, 1, "A", 0);
    join(&mut c, 2, "B", 0);
    c.leave(2, 5);
    let bombs = (c.bomb(0), c.bomb(1));
    let commands = c.leave(2, 9);
    assert_eq!(updates(&commands), vec![]);
    assert_eq!(boards(&commands), vec!["A\n#112233\n0\n".to_string()]);
    assert_eq!((c.bomb(0), c.bomb(1)), bombs);
    assert!(c.is_seated(1));
}

#[test]
fn the_last_leave_ends_the_match() {
    let mut c = Coordinator::new(2);
    join(&mut c, 1, "A", 0);
    c.reply(0, 0, 100, Some(BombMoveAction::R1));
    let commands = c.leave(1, 200);
    assert_eq!(commands.len(), 1);
    assert!(matches!(&commands[0], Command::EndMatch));
    assert!(!c.is_active());
    assert_eq!(c.bomb(0), None);
    assert_eq!(c.board(), "");
    assert!(c.leave(1, 300).is_empty());
    assert!(c.reply(0, 1, 300, Some(BombMoveAction::R1)).is_empty());

    // The next join starts a new match, with fresh scores and prompts.
    let commands = join(&mut c, 1, "A", 400);
    assert_eq!(c.score(1), Some(0));
    assert_eq!(
        updates(&commands),
        vec![(1, 0, GameUpdate::BombReceived(0)), (1, 1, GameUpdate::BombReceived(0))]
    );
}

#[test]
fn the_bonus_falls_with_the_time_taken() {
    let cases: [(u64, u32); 7] =
        [(0, 4100), (1, 4099), (100, 4000), (3999, 101), (4000, 0), (4099, 0), (100000, 0)];
    for (elapsed, bonus) in cases {
        let mut c = Coordinator::new(1);
        join(&mut c, 1, "A", 500);
        c.reply(0, 0, 500 + elapsed, Some(BombMoveAction::R1));
        assert_eq!(c.score(1), Some(bonus));
    }
}

#[test]
fn a_clock_that_ran_backwards_counts_as_no_time() {
    let mut c = Coordinator::new(1);
    join(&mut c, 1, "A", 500);
    c.reply(0, 0, 400, Some(BombMoveAction::R1));
    assert_eq!(c.score(1), Some(4100));
}

#[test]
fn scores_add_up_and_never_fall() {
    let mut c = Coordinator::new(1);
    join(&mut c, 1, "A", 0);
    let mut last = 0;
    let mut now = 0;
    for handle in 0..20u64 {
        now += 300 * handle;
        let sent = c.bomb(0).unwrap().prompt_issued_at.unwrap();
        c.reply(0, handle, now, Some(BombMoveAction::L3));
        let score = c.score(1).unwrap();
        let elapsed = now - sent;
        let bonus = if elapsed < 4000 { 4100 - elapsed as u32 } else { 0 };
        assert_eq!(score, last + bonus);
        assert!(score >= last);
        last = score;
    }
}

#[test]
fn a_score_stops_at_the_largest_number() {
    let mut c = Coordinator::new(1);
    join(&mut c, 1, "A", 0);
    let rounds = 4294967295u64 / 4100 + 2;
    for handle in 0..rounds {
        c.reply(0, handle, 0, Some(BombMoveAction::R1));
    }
    assert_eq!(c.score(1), Some(4294967295));
}

#[test]
fn a_dropped_handle_awards_nothing() {
    let mut c = Coordinator::new(2);
    join(&mut c, 1, "A", 0);
    join(&mut c, 2, "B", 0);
    let commands = c.reply(1, 0, 100, None);
    assert!(commands.is_empty());
    assert_eq!(c.score(1), Some(0));
    assert_eq!(
        c.bomb(1),
        Some(BombState {
            holder: 1,
            prompt_issued_at: None,
            outstanding_reply: None,
            next_handle: 1,
        })
    );
    // The leave that follows hands the bomb on.
    let commands = c.leave(1, 200);
    assert_eq!(
        updates(&commands),
        vec![(2, 0, GameUpdate::BombReceived(1)), (2, 1, GameUpdate::BombReceived(1))]
    );
    assert_eq!(holder(&c, 0), 2);
    assert_eq!(holder(&c, 1), 2);
}

#[test]
fn a_stray_reply_is_ignored() {
    let mut c = Coordinator::new(2);
    join(&mut c, 1, "A", 0);
    join(&mut c, 2, "B", 0);
    // The holder leaves first; the old prompt's answer comes afterwards.
    c.leave(1, 100);
    let bombs = (c.bomb(0), c.bomb(1));
    assert!(c.reply(0, 0, 150, Some(BombMoveAction::R1)).is_empty());
    assert!(c.reply(0, 0, 150, None).is_empty());
    assert!(c.reply(7, 0, 150, Some(BombMoveAction::R1)).is_empty());
    assert!(c.reply(0, 99, 150, Some(BombMoveAction::R1)).is_empty());
    assert_eq!((c.bomb(0), c.bomb(1)), bombs);
    assert_eq!(c.score(2), Some(0));
    // The prompt in force is still answered.
    let commands = c.reply(0, 1, 150, Some(BombMoveAction::R1));
    assert_eq!(c.score(2), Some(4050));
    assert_eq!(updates(&commands), vec![(2, 0, GameUpdate::BombReceived(2))]);
}

#[test]
fn every_bomb_stays_with_a_seated_player() {
    let mut c = Coordinator::new(4);
    for (i, id) in [5u32, 1, 9, 3, 7].iter().enumerate() {
        join(&mut c, *id, "P", i as u64);
    }
    let actions = [BombMoveAction::L3, BombMoveAction::R2, BombMoveAction::L1, BombMoveAction::R1];
    for round in 0..12u32 {
        for index in 0..4u32 {
            let handle = c.bomb(index).unwrap().outstanding_reply.unwrap();
            c.reply(index, handle, 50 * round as u64, Some(actions[((round + index) % 4) as usize]));
        }
        if round % 4 == 3 {
            let leaver = holder(&c, 0);
            c.leave(leaver, 50 * round as u64);
        }
        if c.is_active() {
            for index in 0..4u32 {
                let b = c.bomb(index).unwrap();
                assert!(c.is_seated(b.holder));
                assert!(b.outstanding_reply.is_some());
                assert!(b.prompt_issued_at.is_some());
            }
        }
    }
}

#[test]
fn a_random_join_gives_a_name_and_a_colour() {
    let mut c = Coordinator::new(1);
    let commands = c.join(3, 0).unwrap();
    match &commands[1] {
        Command::Welcome { id, name, color } => {
            assert_eq!(*id, 3);
            assert!(name.starts_with("Player"));
            assert_eq!(name.len(), 10);
            assert!(color.starts_with('#'));
            assert_eq!(color.len(), 7);
            assert_eq!(boards(&commands), vec![format!("{}\n{}\n0\n", name, color)]);
        }
        _ => panic!("the second command welcomes the player"),
    }
    assert_eq!(c.bomb_count(), 1);
}
