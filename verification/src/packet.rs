use vstd::prelude::*;
use vstd::string::StringExecFns;
use crate::text::{
    chars_of, decimal, is_digit, lemma_decimal_value, lemma_parse_decimal_round_trip,
    lemma_two_fields_at, only_break, parse_decimal, push_decimal, read_decimal, spells, splits_at,
    two_fields,
};

verus! {

pub type PlayerID = u32;

pub type BombCount = u32;

pub type BombIndex = u32;

pub type PreferredID = u32;

pub type GameScore = u32;

pub type PlayerName = String;

pub type PlayerColor = String;

pub type GameScoareboard = String;

/// The one way in which reading a frame fails.
#[derive(Debug, Clone, Copy, PartialEq, Eq, Structural)]
pub struct ParseError;

/// How far, and to which side, the holder passes a bomb on.
#[derive(Debug, Clone, Copy, PartialEq, Eq, Structural)]
pub enum BombMoveAction {
    L3,
    L1,
    R1,
    R2,
}

/// Where a bomb is, as one player sees it: with a player seated to the left
/// (`L`), with the player (`X`), or with a player seated to the right (`R`).
#[derive(Debug, Clone, Copy, PartialEq, Eq, Structural)]
pub enum BombPosition {
    L,
    X,
    R,
}

/// A frame that a client sends.
#[derive(Debug, Clone, Copy, PartialEq, Eq, Structural)]
pub enum ClientPacket {
    PacketOLLEH(PreferredID),
    PacketMOVE(BombIndex, BombMoveAction),
}

/// A frame that the server sends.
#[derive(Debug, Clone)]
pub enum ServerPacket {
    PacketHELLO(BombCount),
    PacketNAME(PlayerName, PlayerColor),
    PacketSTATUS(BombIndex, BombPosition),
    PacketBOARD(GameScoareboard),
}

/// The literal that writes an action on the wire.
pub open spec fn action_text(a: BombMoveAction) -> Seq<char> {
    match a {
        BombMoveAction::L3 => "L3"@,
        BombMoveAction::L1 => "L1"@,
        BombMoveAction::R1 => "R1"@,
        BombMoveAction::R2 => "R2"@,
    }
}

/// The action that a literal writes, if it writes one.
pub open spec fn parse_action(s: Seq<char>) -> Option<BombMoveAction> {
    if s == "L3"@ {
        Some(BombMoveAction::L3)
    } else if s == "L1"@ {
        Some(BombMoveAction::L1)
    } else if s == "R1"@ {
        Some(BombMoveAction::R1)
    } else if s == "R2"@ {
        Some(BombMoveAction::R2)
    } else {
        None
    }
}

/// The literal that writes a position on the wire.
pub open spec fn position_text(p: BombPosition) -> Seq<char> {
    match p {
        BombPosition::L => "L"@,
        BombPosition::X => "X"@,
        BombPosition::R => "R"@,
    }
}

/// The position that a literal writes, if it writes one.
pub open spec fn parse_position(s: Seq<char>) -> Option<BombPosition> {
    if s == "L"@ {
        Some(BombPosition::L)
    } else if s == "X"@ {
        Some(BombPosition::X)
    } else if s == "R"@ {
        Some(BombPosition::R)
    } else {
        None
    }
}

/// The body of a `move` frame: an index, one space, an action.
pub open spec fn parse_move_body(body: Seq<char>) -> Option<ClientPacket> {
    match two_fields(body, ' ') {
        None => None,
        Some((index, action)) => match (parse_decimal(index), parse_action(action)) {
            (Some(i), Some(a)) => Some(ClientPacket::PacketMOVE(i, a)),
            _ => None,
        },
    }
}

/// The packet that a client frame carries: a tag line and a body line, with
/// exactly one line break between them.
pub open spec fn parse_client(s: Seq<char>) -> Option<ClientPacket> {
    match two_fields(s, '\n') {
        None => None,
        Some((tag, body)) => if tag == "olleh"@ {
            match parse_decimal(body) {
                Some(id) => Some(ClientPacket::PacketOLLEH(id)),
                None => None,
            }
        } else if tag == "move"@ {
            parse_move_body(body)
        } else {
            None
        },
    }
}

/// The frame that carries a client packet.
pub open spec fn client_text(p: ClientPacket) -> Seq<char> {
    match p {
        ClientPacket::PacketOLLEH(id) => "olleh"@.push('\n') + decimal(id as nat),
        ClientPacket::PacketMOVE(i, a) => "move"@.push('\n') + decimal(i as nat).push(' ')
            + action_text(a),
    }
}

/// The frame that carries a server packet.
pub open spec fn server_text(p: ServerPacket) -> Seq<char> {
    match p {
        ServerPacket::PacketHELLO(n) => "hello"@.push('\n') + decimal(n as nat),
        ServerPacket::PacketNAME(name, color) => "name"@.push('\n') + name@.push('\n') + color@,
        ServerPacket::PacketSTATUS(i, pos) => "status"@.push('\n') + decimal(i as nat).push(' ')
            + position_text(pos),
        ServerPacket::PacketBOARD(board) => "board"@.push('\n') + board@,
    }
}

/// An action's literal is read back as that action.
pub proof fn lemma_action_round_trip(a: BombMoveAction)
    ensures
        parse_action(action_text(a)) == Some(a),
        action_text(a).len() == 2,
        forall|i: int| 0 <= i < 2 ==> action_text(a)[i] != ' ' && action_text(a)[i] != '\n',
{
    reveal_strlit("L3");
    reveal_strlit("L1");
    reveal_strlit("R1");
    reveal_strlit("R2");
    assert("L3"@[1] != "L1"@[1]);
    assert("R1"@[0] != "L3"@[0]);
    assert("R1"@[0] != "L1"@[0]);
    assert("R2"@[0] != "L3"@[0]);
    assert("R2"@[0] != "L1"@[0]);
    assert("R2"@[1] != "R1"@[1]);
}

/// A position's literal is read back as that position.
pub proof fn lemma_position_round_trip(p: BombPosition)
    ensures
        parse_position(position_text(p)) == Some(p),
{
    reveal_strlit("L");
    reveal_strlit("X");
    reveal_strlit("R");
    assert("X"@[0] != "L"@[0]);
    assert("R"@[0] != "L"@[0]);
    assert("R"@[0] != "X"@[0]);
}

/// Reading the frame of a client packet gives the packet back, whatever the
/// packet.
pub proof fn lemma_client_round_trip(p: ClientPacket)
    ensures
        parse_client(client_text(p)) == Some(p),
{
    reveal_strlit("olleh");
    reveal_strlit("move");
    match p {
        ClientPacket::PacketOLLEH(id) => {
            let tag = "olleh"@;
            let body = decimal(id as nat);
            let s = client_text(p);
            lemma_decimal_value(id as nat);
            lemma_parse_decimal_round_trip(id);
            assert(s[5] == '\n');
            assert forall|j: int| 0 <= j < s.len() && j != 5 implies s[j] != '\n' by {
                if j > 5 {
                    assert(s[j] == body[j - 6]);
                    assert(is_digit(body[j - 6]));
                }
            }
            assert(splits_at(s, '\n', 5));
            lemma_two_fields_at(s, '\n', 5);
            assert(s.take(5) =~= tag);
            assert(s.skip(6) =~= body);
        },
        ClientPacket::PacketMOVE(i, a) => {
            let tag = "move"@;
            let index = decimal(i as nat);
            let body = index.push(' ') + action_text(a);
            let s = client_text(p);
            lemma_decimal_value(i as nat);
            lemma_parse_decimal_round_trip(i);
            lemma_action_round_trip(a);
            let n = index.len() as int;
            assert(s =~= tag.push('\n') + body);
            assert(s[4] == '\n');
            assert forall|j: int| 0 <= j < body.len() && j != n implies body[j] != ' '
                && body[j] != '\n' by {
                if j < n {
                    assert(body[j] == index[j]);
                    assert(is_digit(index[j]));
                } else {
                    assert(body[j] == action_text(a)[j - n - 1]);
                }
            }
            assert(body[n] == ' ');
            assert forall|j: int| 0 <= j < s.len() && j != 4 implies s[j] != '\n' by {
                if j > 4 {
                    assert(s[j] == body[j - 5]);
                }
            }
            assert(splits_at(s, '\n', 4));
            lemma_two_fields_at(s, '\n', 4);
            assert(s.take(4) =~= tag);
            assert(s.skip(5) =~= body);
            assert(tag != "olleh"@);
            assert(splits_at(body, ' ', n));
            lemma_two_fields_at(body, ' ', n);
            assert(body.take(n) =~= index);
            assert(body.skip(n + 1) =~= action_text(a));
        },
    }
}

impl BombMoveAction {
    /// The action's literal.
    pub fn as_str(&self) -> (s: &'static str)
        ensures
            s@ == action_text(*self),
    {
        match self {
            BombMoveAction::L3 => "L3",
            BombMoveAction::L1 => "L1",
            BombMoveAction::R1 => "R1",
            BombMoveAction::R2 => "R2",
        }
    }

    /// The action's literal as an owned string.
    pub fn to_string(&self) -> (s: String)
        ensures
            s@ == action_text(*self),
    {
        String::from_str(self.as_str())
    }

    /// Reads an action from its literal; any other text is refused.
    pub fn from_str(input: &str) -> (r: Result<BombMoveAction, ParseError>)
        ensures
            r == match parse_action(input@) {
                Some(a) => Ok::<BombMoveAction, ParseError>(a),
                None => Err(ParseError),
            },
    {
        let v = chars_of(input);
        proof {
            assert(v@.subrange(0, v@.len() as int) =~= input@);
        }
        match read_action(&v, 0, v.len()) {
            Some(a) => Ok(a),
            None => Err(ParseError),
        }
    }
}

impl BombPosition {
    /// The position's literal.
    pub fn as_str(&self) -> (s: &'static str)
        ensures
            s@ == position_text(*self),
    {
        match self {
            BombPosition::L => "L",
            BombPosition::X => "X",
            BombPosition::R => "R",
        }
    }

    /// The position's literal as an owned string.
    pub fn to_string(&self) -> (s: String)
        ensures
            s@ == position_text(*self),
    {
        String::from_str(self.as_str())
    }

    /// Reads a position from its literal; any other text is refused.
    pub fn from_str(input: &str) -> (r: Result<BombPosition, ParseError>)
        ensures
            r == match parse_position(input@) {
                Some(p) => Ok::<BombPosition, ParseError>(p),
                None => Err(ParseError),
            },
    {
        let v = chars_of(input);
        proof {
            assert(v@.subrange(0, v@.len() as int) =~= input@);
        }
        let n = v.len();
        if spells(&v, 0, n, "L") {
            Ok(BombPosition::L)
        } else if spells(&v, 0, n, "X") {
            Ok(BombPosition::X)
        } else if spells(&v, 0, n, "R") {
            Ok(BombPosition::R)
        } else {
            Err(ParseError)
        }
    }
}

impl std::str::FromStr for BombMoveAction {
    type Err = ParseError;

    /// As the function of the same name on the type itself.
    fn from_str(input: &str) -> (r: Result<BombMoveAction, ParseError>)
        ensures
            r == match parse_action(input@) {
                Some(a) => Ok::<BombMoveAction, ParseError>(a),
                None => Err(ParseError),
            },
    {
        BombMoveAction::from_str(input)
    }
}

impl std::str::FromStr for BombPosition {
    type Err = ParseError;

    /// As the function of the same name on the type itself.
    fn from_str(input: &str) -> (r: Result<BombPosition, ParseError>)
        ensures
            r == match parse_position(input@) {
                Some(p) => Ok::<BombPosition, ParseError>(p),
                None => Err(ParseError),
            },
    {
        BombPosition::from_str(input)
    }
}

impl std::str::FromStr for ClientPacket {
    type Err = ParseError;

    /// As the function of the same name on the type itself.
    fn from_str(input: &str) -> (r: Result<ClientPacket, ParseError>)
        ensures
            r == match parse_client(input@) {
                Some(p) => Ok::<ClientPacket, ParseError>(p),
                None => Err(ParseError),
            },
    {
        ClientPacket::from_str(input)
    }
}

/// Reads the characters of `v` from `from` up to `to` as an action.
pub fn read_action(v: &Vec<char>, from: usize, to: usize) -> (r: Option<BombMoveAction>)
    requires
        from <= to <= v.len(),
    ensures
        r == parse_action(v@.subrange(from as int, to as int)),
{
    if spells(v, from, to, "L3") {
        Some(BombMoveAction::L3)
    } else if spells(v, from, to, "L1") {
        Some(BombMoveAction::L1)
    } else if spells(v, from, to, "R1") {
        Some(BombMoveAction::R1)
    } else if spells(v, from, to, "R2") {
        Some(BombMoveAction::R2)
    } else {
        None
    }
}

impl ClientPacket {
    /// Reads a client frame. The frame must hold exactly one line break; the
    /// line before it is the tag `olleh` or `move`. After `olleh` stands a
    /// decimal seat number; after `move` a decimal bomb index, exactly one
    /// space, and an action. Every other text is refused.
    pub fn from_str(input: &str) -> (r: Result<ClientPacket, ParseError>)
        ensures
            r == match parse_client(input@) {
                Some(p) => Ok::<ClientPacket, ParseError>(p),
                None => Err(ParseError),
            },
    {
        let v = chars_of(input);
        let n = v.len();
        proof {
            assert(v@.subrange(0, n as int) =~= input@);
        }
        let cut = match only_break(&v, 0, n, '\n') {
            Some(cut) => cut,
            None => {
                return Err(ParseError);
            },
        };
        if spells(&v, 0, cut, "olleh") {
            match read_decimal(&v, cut + 1, n) {
                Some(id) => Ok(ClientPacket::PacketOLLEH(id)),
                None => Err(ParseError),
            }
        } else if spells(&v, 0, cut, "move") {
            let gap = match only_break(&v, cut + 1, n, ' ') {
                Some(gap) => gap,
                None => {
                    return Err(ParseError);
                },
            };
            let index = read_decimal(&v, cut + 1, gap);
            let action = read_action(&v, gap + 1, n);
            match (index, action) {
                (Some(i), Some(a)) => Ok(ClientPacket::PacketMOVE(i, a)),
                _ => Err(ParseError),
            }
        } else {
            Err(ParseError)
        }
    }

    /// Writes the packet as a frame.
    pub fn to_string(&self) -> (s: String)
        ensures
            s@ == client_text(*self),
    {
        match self {
            ClientPacket::PacketOLLEH(id) => {
                let mut out = tag_line("olleh");
                push_decimal(&mut out, *id);
                out
            },
            ClientPacket::PacketMOVE(i, a) => {
                let mut out = tag_line("move");
                push_decimal(&mut out, *i);
                push_space(&mut out);
                out.append(a.as_str());
                proof {
                    assert(out@ =~= client_text(*self));
                }
                out
            },
        }
    }
}

/// A frame's first line and the line break after it.
fn tag_line(tag: &str) -> (out: String)
    ensures
        out@ == tag@.push('\n'),
{
    let mut out = String::from_str(tag);
    push_line_break(&mut out);
    out
}

fn push_line_break(out: &mut String)
    ensures
        final(out)@ == old(out)@.push('\n'),
{
    proof {
        reveal_strlit("\n");
    }
    out.append("\n");
    proof {
        assert(old(out)@ + "\n"@ =~= old(out)@.push('\n'));
    }
}

fn push_space(out: &mut String)
    ensures
        final(out)@ == old(out)@.push(' '),
{
    proof {
        reveal_strlit(" ");
    }
    out.append(" ");
    proof {
        assert(old(out)@ + " "@ =~= old(out)@.push(' '));
    }
}

impl ServerPacket {
    /// Writes the packet as a frame: the tag, a line break, the body.
    pub fn to_string(&self) -> (s: String)
        ensures
            s@ == server_text(*self),
    {
        match self {
            ServerPacket::PacketHELLO(n) => {
                let mut out = tag_line("hello");
                push_decimal(&mut out, *n);
                out
            },
            ServerPacket::PacketNAME(name, color) => {
                let mut out = tag_line("name");
                out.append(name.as_str());
                push_line_break(&mut out);
                out.append(color.as_str());
                proof {
                    assert(out@ =~= server_text(*self));
                }
                out
            },
            ServerPacket::PacketSTATUS(i, pos) => {
                let mut out = tag_line("status");
                push_decimal(&mut out, *i);
                push_space(&mut out);
                out.append(pos.as_str());
                proof {
                    assert(out@ =~= server_text(*self));
                }
                out
            },
            ServerPacket::PacketBOARD(board) => {
                let mut out = tag_line("board");
                out.append(board.as_str());
                out
            },
        }
    }
}

} // verus!
