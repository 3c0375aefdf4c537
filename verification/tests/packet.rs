use multi_bomb_test::packet::{
    BombMoveAction, BombPosition, ClientPacket, ParseError, ServerPacket,
};

#[test]
fn action_literals_are_read() {
    assert_eq!(BombMoveAction::from_str("L3"), Ok(BombMoveAction::L3));
    assert_eq!(BombMoveAction::from_str("L1"), Ok(BombMoveAction::L1));
    assert_eq!(BombMoveAction::from_str("R1"), Ok(BombMoveAction::R1));
    assert_eq!(BombMoveAction::from_str("R2"), Ok(BombMoveAction::R2));
}

#[test]
fn unknown_action_is_refused() {
    assert_eq!(BombMoveAction::from_str("R3"), Err(ParseError));
    assert_eq!(BombMoveAction::from_str("l1"), Err(ParseError));
    assert_eq!(BombMoveAction::from_str(""), Err(ParseError));
    assert_eq!(BombMoveAction::from_str("L1 "), Err(ParseError));
}

#[test]
fn action_literals_are_written() {
    assert_eq!(BombMoveAction::L3.as_str(), "L3");
    assert_eq!(BombMoveAction::L1.as_str(), "L1");
    assert_eq!(BombMoveAction::R1.as_str(), "R1");
    assert_eq!(BombMoveAction::R2.as_str(), "R2");
    assert_eq!(BombMoveAction::L3.to_string(), "L3");
    assert_eq!(BombPosition::X.to_string(), "X");
}

#[test]
fn position_literals_are_read_and_written() {
    for p in [BombPosition::L, BombPosition::X, BombPosition::R] {
        assert_eq!(BombPosition::from_str(p.as_str()), Ok(p));
    }
    assert_eq!(BombPosition::L.as_str(), "L");
    assert_eq!(BombPosition::X.as_str(), "X");
    assert_eq!(BombPosition::R.as_str(), "R");
    assert_eq!(BombPosition::from_str("Y"), Err(ParseError));
    assert_eq!(BombPosition::from_str("LL"), Err(ParseError));
}

#[test]
fn olleh_frame_is_read() {
    assert_eq!(ClientPacket::from_str("olleh\n7"), Ok(ClientPacket::PacketOLLEH(7)));
    assert_eq!(ClientPacket::from_str("olleh\n0"), Ok(ClientPacket::PacketOLLEH(0)));
    assert_eq!(
        ClientPacket::from_str("olleh\n4294967295"),
        Ok(ClientPacket::PacketOLLEH(4294967295))
    );
}

#[test]
fn move_frame_is_read() {
    assert_eq!(
        ClientPacket::from_str("move\n0 R1"),
        Ok(ClientPacket::PacketMOVE(0, BombMoveAction::R1))
    );
    assert_eq!(
        ClientPacket::from_str("move\n99 L3"),
        Ok(ClientPacket::PacketMOVE(99, BombMoveAction::L3))
    );
}

#[test]
fn decimal_numbers_may_carry_a_plus_and_zeros() {
    assert_eq!(ClientPacket::from_str("olleh\n+7"), Ok(ClientPacket::PacketOLLEH(7)));
    assert_eq!(ClientPacket::from_str("olleh\n007"), Ok(ClientPacket::PacketOLLEH(7)));
    assert_eq!(
        ClientPacket::from_str("olleh\n000000000000000000000012"),
        Ok(ClientPacket::PacketOLLEH(12))
    );
}

#[test]
fn wrong_line_count_is_refused() {
    assert_eq!(ClientPacket::from_str("olleh"), Err(ParseError));
    assert_eq!(ClientPacket::from_str(""), Err(ParseError));
    assert_eq!(ClientPacket::from_str("olleh\n7\n"), Err(ParseError));
    assert_eq!(ClientPacket::from_str("move\n0 R1\nextra"), Err(ParseError));
}

#[test]
fn wrong_field_count_is_refused() {
    assert_eq!(ClientPacket::from_str("move\n0"), Err(ParseError));
    assert_eq!(ClientPacket::from_str("move\n0  R1"), Err(ParseError));
    assert_eq!(ClientPacket::from_str("move\n0 R1 "), Err(ParseError));
}

#[test]
fn unknown_tag_is_refused() {
    assert_eq!(ClientPacket::from_str("hello\n5"), Err(ParseError));
    assert_eq!(ClientPacket::from_str("OLLEH\n5"), Err(ParseError));
    assert_eq!(ClientPacket::from_str("\n5"), Err(ParseError));
}

#[test]
fn bad_numbers_are_refused() {
    assert_eq!(ClientPacket::from_str("olleh\n"), Err(ParseError));
    assert_eq!(ClientPacket::from_str("olleh\nseven"), Err(ParseError));
    assert_eq!(ClientPacket::from_str("olleh\n-1"), Err(ParseError));
    assert_eq!(ClientPacket::from_str("olleh\n+"), Err(ParseError));
    assert_eq!(ClientPacket::from_str("olleh\n7 "), Err(ParseError));
    assert_eq!(ClientPacket::from_str("olleh\n4294967296"), Err(ParseError));
    assert_eq!(ClientPacket::from_str("olleh\n99999999999999999999999"), Err(ParseError));
    assert_eq!(ClientPacket::from_str("move\nx R1"), Err(ParseError));
    assert_eq!(ClientPacket::from_str("olleh\n\u{0663}"), Err(ParseError));
}

#[test]
fn bad_action_is_refused() {
    assert_eq!(ClientPacket::from_str("move\n0 R9"), Err(ParseError));
    assert_eq!(ClientPacket::from_str("move\n0 "), Err(ParseError));
}

#[test]
fn parsing_agrees_with_the_standard_number_parser() {
    for body in ["0", "12", "+3", "0099", "4294967295", "4294967296", "", "+", "-0", "1x", " 1"] {
        let frame = format!("olleh\n{}", body);
        let expected = match body.parse::<u32>() {
            Ok(id) => Ok(ClientPacket::PacketOLLEH(id)),
            Err(_) => Err(ParseError),
        };
        assert_eq!(ClientPacket::from_str(&frame), expected);
    }
}

#[test]
fn client_frames_are_written() {
    assert_eq!(ClientPacket::PacketOLLEH(7).to_string(), "olleh\n7");
    assert_eq!(ClientPacket::PacketMOVE(3, BombMoveAction::L1).to_string(), "move\n3 L1");
}

#[test]
fn client_frames_round_trip() {
    let ids = [0u32, 1, 9, 10, 99, 100, 4096, 65535, 4294967295];
    for id in ids {
        let p = ClientPacket::PacketOLLEH(id);
        assert_eq!(ClientPacket::from_str(&p.to_string()), Ok(p));
        for a in [BombMoveAction::L3, BombMoveAction::L1, BombMoveAction::R1, BombMoveAction::R2] {
            let p = ClientPacket::PacketMOVE(id, a);
            assert_eq!(ClientPacket::from_str(&p.to_string()), Ok(p));
        }
    }
}

#[test]
fn server_frames_are_written() {
    assert_eq!(ServerPacket::PacketHELLO(5).to_string(), "hello\n5");
    assert_eq!(ServerPacket::PacketHELLO(0).to_string(), "hello\n0");
    assert_eq!(ServerPacket::PacketHELLO(4294967295).to_string(), "hello\n4294967295");
    assert_eq!(
        ServerPacket::PacketNAME("Player00AB".to_string(), "#12EF56".to_string()).to_string(),
        "name\nPlayer00AB\n#12EF56"
    );
    assert_eq!(ServerPacket::PacketSTATUS(2, BombPosition::X).to_string(), "status\n2 X");
    assert_eq!(ServerPacket::PacketSTATUS(10, BombPosition::L).to_string(), "status\n10 L");
    assert_eq!(ServerPacket::PacketSTATUS(0, BombPosition::R).to_string(), "status\n0 R");
    assert_eq!(
        ServerPacket::PacketBOARD("A\n#000000\n7\n".to_string()).to_string(),
        "board\nA\n#000000\n7\n"
    );
    assert_eq!(ServerPacket::PacketBOARD(String::new()).to_string(), "board\n");
}

#[test]
fn frames_are_read_through_the_standard_trait() {
    assert_eq!("L3".parse::<BombMoveAction>(), Ok(BombMoveAction::L3));
    assert_eq!("X".parse::<BombPosition>(), Ok(BombPosition::X));
    assert_eq!("olleh\n7".parse::<ClientPacket>(), Ok(ClientPacket::PacketOLLEH(7)));
    assert_eq!("move\n1 R2".parse(), Ok(ClientPacket::PacketMOVE(1, BombMoveAction::R2)));
    assert_eq!("olleh 7".parse::<ClientPacket>(), Err(ParseError));
}
