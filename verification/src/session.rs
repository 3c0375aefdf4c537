use vstd::prelude::*;
use crate::coordinator::GameUpdate;
use crate::packet::{
    parse_client, server_text, BombMoveAction, BombPosition, ClientPacket, ServerPacket,
};

verus! {

/// How long, in seconds, the client may take to answer the greeting.
pub const HANDSHAKE_DEADLINE_SECS: u64 = 10;

/// Where a session stands.
#[derive(Debug, Clone, Copy, PartialEq, Eq, Structural)]
pub enum Phase {
    /// The join request is out; the match parameters are awaited.
    Requesting,
    /// The greeting is out; the client's answer is awaited.
    Handshaking,
    /// The client's seat wish is forwarded; the credentials are awaited.
    Seating,
    /// The player is seated and the duplex loop runs.
    Live,
    /// The session is over.
    Closed,
}

/// What came from the client's socket, or failed to come.
#[derive(Debug, Clone)]
pub enum Inbound {
    /// A text frame.
    Text(String),
    /// The peer closed the connection.
    Close,
    /// A frame that is not text.
    NonText,
    /// The socket failed or ended.
    Failed,
    /// The handshake deadline passed without a frame.
    TimedOut,
}

/// What the session asks of whoever runs it, in the order in which it is to
/// be done.
#[derive(Debug, Clone)]
pub enum Action {
    /// Send a text frame to the client.
    Send(String),
    /// Send a close frame to the client.
    Close,
    /// Hand the client's seat wish to the coordinator.
    Forward(u32),
    /// Answer the prompt of bomb `index` with `action`, on `handle`.
    Deliver { index: u32, handle: u64, action: BombMoveAction },
    /// Drop the handle of bomb `index` unanswered.
    Release { index: u32, handle: u64 },
    /// Tell the coordinator that the player is gone.
    Leave(u32),
}

/// An action as contracts see it.
pub enum ActionView {
    Send(Seq<char>),
    Close,
    Forward(u32),
    Deliver { index: u32, handle: u64, action: BombMoveAction },
    Release { index: u32, handle: u64 },
    Leave(u32),
}

impl View for Action {
    type V = ActionView;

    open spec fn view(&self) -> ActionView {
        match *self {
            Action::Send(frame) => ActionView::Send(frame@),
            Action::Close => ActionView::Close,
            Action::Forward(id) => ActionView::Forward(id),
            Action::Deliver { index, handle, action } => ActionView::Deliver {
                index,
                handle,
                action,
            },
            Action::Release { index, handle } => ActionView::Release { index, handle },
            Action::Leave(id) => ActionView::Leave(id),
        }
    }
}

/// The views of a list of actions, in the same order.
pub open spec fn action_views(actions: Seq<Action>) -> Seq<ActionView> {
    Seq::new(actions.len(), |i: int| actions[i]@)
}

/// The state of a session as contracts see it. `held[i]` is the handle on
/// which the client's move for bomb `i` is awaited, if the player holds it.
pub struct SessionState {
    pub phase: Phase,
    pub bomb_count: u32,
    pub player_id: u32,
    pub held: Seq<Option<u64>>,
}

impl SessionState {
    /// A live session has one slot for each bomb; any other has none.
    pub open spec fn wf(self) -> bool {
        if self.phase == Phase::Live {
            self.held.len() == self.bomb_count
        } else {
            self.held.len() == 0
        }
    }

    /// The session once it is over.
    pub open spec fn closed(self) -> SessionState {
        SessionState {
            phase: Phase::Closed,
            bomb_count: self.bomb_count,
            player_id: self.player_id,
            held: Seq::empty(),
        }
    }

    /// The client answers for bomb `index` in time: the session is live and
    /// holds a handle for that bomb.
    pub open spec fn may_move(self, index: u32) -> bool {
        self.phase == Phase::Live && index < self.held.len() && self.held[index as int] is Some
    }
}

/// The packet that an inbound event carries, if it carries one.
pub open spec fn packet_of(inbound: Inbound) -> Option<ClientPacket> {
    match inbound {
        Inbound::Text(frame) => parse_client(frame@),
        _ => None,
    }
}

/// The handles among the first `n` slots, each to be dropped, by rising bomb
/// index.
pub open spec fn releases_of(held: Seq<Option<u64>>, n: int) -> Seq<ActionView>
    decreases n,
{
    if n <= 0 {
        Seq::empty()
    } else {
        let before = releases_of(held, n - 1);
        match held[n - 1] {
            Some(handle) => before.push(ActionView::Release { index: (n - 1) as u32, handle }),
            None => before,
        }
    }
}

/// The release of the handle in a slot, if the slot holds one.
pub open spec fn release_of(index: u32, slot: Option<u64>) -> Seq<ActionView> {
    match slot {
        Some(handle) => seq![ActionView::Release { index, handle }],
        None => Seq::empty(),
    }
}

/// The state after the match parameters have come: a requesting session
/// starts the handshake; any other stays as it is.
pub open spec fn parameters_state(s: SessionState, bomb_count: u32) -> SessionState {
    if s.phase == Phase::Requesting {
        SessionState {
            phase: Phase::Handshaking,
            bomb_count,
            player_id: s.player_id,
            held: s.held,
        }
    } else {
        s
    }
}

/// What is to be done when the match parameters have come: a requesting
/// session greets the client with the bomb count.
pub open spec fn parameters_actions(s: SessionState, bomb_count: u32) -> Seq<ActionView> {
    if s.phase == Phase::Requesting {
        seq![ActionView::Send(server_text(ServerPacket::PacketHELLO(bomb_count)))]
    } else {
        Seq::empty()
    }
}

/// The state after an inbound event that carries `packet` (or none). In the
/// handshake only a seat wish goes on; everything else ends the session. A
/// live session goes on only with a move for a bomb it holds, whose slot is
/// emptied; everything else ends it. In the other phases nothing is read.
pub open spec fn inbound_state(s: SessionState, packet: Option<ClientPacket>) -> SessionState {
    match s.phase {
        Phase::Handshaking => match packet {
            Some(ClientPacket::PacketOLLEH(_)) => SessionState {
                phase: Phase::Seating,
                bomb_count: s.bomb_count,
                player_id: s.player_id,
                held: s.held,
            },
            _ => s.closed(),
        },
        Phase::Live => match packet {
            Some(ClientPacket::PacketMOVE(index, _)) => if s.may_move(index) {
                SessionState {
                    phase: Phase::Live,
                    bomb_count: s.bomb_count,
                    player_id: s.player_id,
                    held: s.held.update(index as int, None),
                }
            } else {
                s.closed()
            },
            _ => s.closed(),
        },
        _ => s,
    }
}

/// What is to be done on an inbound event. In the handshake: forward the
/// seat wish, or close. Live: deliver the move on the bomb's handle; or tell
/// the coordinator that the player is gone, close, and drop every handle
/// that is still held.
pub open spec fn inbound_actions(s: SessionState, packet: Option<ClientPacket>) -> Seq<
    ActionView,
> {
    match s.phase {
        Phase::Handshaking => match packet {
            Some(ClientPacket::PacketOLLEH(id)) => seq![ActionView::Forward(id)],
            _ => seq![ActionView::Close],
        },
        Phase::Live => match packet {
            Some(ClientPacket::PacketMOVE(index, action)) => if s.may_move(index) {
                seq![
                    ActionView::Deliver { index, handle: s.held[index as int]->0, action },
                ]
            } else {
                parting_actions(s)
            },
            _ => parting_actions(s),
        },
        _ => Seq::empty(),
    }
}

/// The end of a live session: the leave notice, the close frame, and the
/// release of every handle still held.
pub open spec fn parting_actions(s: SessionState) -> Seq<ActionView> {
    seq![ActionView::Leave(s.player_id), ActionView::Close] + releases_of(
        s.held,
        s.held.len() as int,
    )
}

/// The state after the credentials have come: a session that waits for its
/// seat goes live as `player_id`, holding nothing.
pub open spec fn credentials_state(s: SessionState, player_id: u32) -> SessionState {
    if s.phase == Phase::Seating {
        SessionState {
            phase: Phase::Live,
            bomb_count: s.bomb_count,
            player_id,
            held: Seq::new(s.bomb_count as nat, |i: int| None::<u64>),
        }
    } else {
        s
    }
}

/// What is to be done when the credentials have come: tell the client its
/// name and colour.
pub open spec fn credentials_actions(s: SessionState, name: Seq<char>, color: Seq<char>) -> Seq<
    ActionView,
> {
    if s.phase == Phase::Seating {
        seq![ActionView::Send("name"@.push('\n') + name.push('\n') + color)]
    } else {
        Seq::empty()
    }
}

/// The session takes updates about bomb `index`: it is live and has the
/// bomb's slot.
pub open spec fn takes_update(s: SessionState, index: u32) -> bool {
    s.phase == Phase::Live && index < s.held.len()
}

/// The slot of a bomb after an update about it.
pub open spec fn slot_after(update: GameUpdate) -> Option<u64> {
    match update {
        GameUpdate::BombMoved(_) => None,
        GameUpdate::BombReceived(handle) => Some(handle),
    }
}

/// The position that the client is shown after an update.
pub open spec fn position_shown(update: GameUpdate) -> BombPosition {
    match update {
        GameUpdate::BombMoved(position) => position,
        GameUpdate::BombReceived(_) => BombPosition::X,
    }
}

/// The state after a game update about bomb `index`: the bomb's slot holds
/// the new handle, or nothing once the bomb has moved on.
pub open spec fn update_state(s: SessionState, index: u32, update: GameUpdate) -> SessionState {
    if takes_update(s, index) {
        SessionState {
            phase: s.phase,
            bomb_count: s.bomb_count,
            player_id: s.player_id,
            held: s.held.update(index as int, slot_after(update)),
        }
    } else {
        s
    }
}

/// What is to be done on a game update: show the client where the bomb is,
/// and drop the handle that the slot held before, if any.
pub open spec fn update_actions(s: SessionState, index: u32, update: GameUpdate) -> Seq<
    ActionView,
> {
    if takes_update(s, index) {
        seq![
            ActionView::Send(
                server_text(ServerPacket::PacketSTATUS(index, position_shown(update))),
            ),
        ] + release_of(index, s.held[index as int])
    } else {
        Seq::empty()
    }
}

/// What is to be done when the scoreboard has changed: a live session shows
/// the client the new board.
pub open spec fn board_actions(s: SessionState, board: Seq<char>) -> Seq<ActionView> {
    if s.phase == Phase::Live {
        seq![ActionView::Send("board"@.push('\n') + board)]
    } else {
        Seq::empty()
    }
}

/// One client's session: the handshake, then the duplex loop, with the
/// handle of each bomb that the player holds.
pub struct Session {
    phase: Phase,
    bomb_count: u32,
    player_id: u32,
    held: Vec<Option<u64>>,
}

impl View for Session {
    type V = SessionState;

    closed spec fn view(&self) -> SessionState {
        SessionState {
            phase: self.phase,
            bomb_count: self.bomb_count,
            player_id: self.player_id,
            held: self.held@,
        }
    }
}

/// Adding an action to a list adds its view to the list's views.
pub proof fn lemma_action_views_push(actions: Seq<Action>, a: Action)
    ensures
        action_views(actions.push(a)) == action_views(actions).push(a@),
{
    assert(action_views(actions.push(a)) =~= action_views(actions).push(a@));
}

impl Session {
    /// A session whose join request is out.
    pub fn new() -> (s: Session)
        ensures
            s@.wf(),
            s@ == (SessionState {
                phase: Phase::Requesting,
                bomb_count: 0,
                player_id: 0,
                held: Seq::empty(),
            }),
    {
        Session { phase: Phase::Requesting, bomb_count: 0, player_id: 0, held: Vec::new() }
    }

    pub fn phase(&self) -> (p: Phase)
        ensures
            p == self@.phase,
    {
        self.phase
    }

    pub fn bomb_count(&self) -> (n: u32)
        ensures
            n == self@.bomb_count,
    {
        self.bomb_count
    }

    pub fn player_id(&self) -> (id: u32)
        ensures
            id == self@.player_id,
    {
        self.player_id
    }

    /// The handle held for bomb `index`, if one is held.
    pub fn held(&self, index: u32) -> (slot: Option<u64>)
        ensures
            slot == if index < self@.held.len() {
                self@.held[index as int]
            } else {
                None
            },
    {
        if (index as usize) < self.held.len() {
            self.held[index as usize]
        } else {
            None
        }
    }

    /// Takes in the match parameters.
    pub fn on_parameters(&mut self, bomb_count: u32) -> (actions: Vec<Action>)
        requires
            old(self)@.wf(),
        ensures
            final(self)@.wf(),
            final(self)@ == parameters_state(old(self)@, bomb_count),
            action_views(actions@) == parameters_actions(old(self)@, bomb_count),
    {
        let mut out: Vec<Action> = Vec::new();
        match self.phase {
            Phase::Requesting => {
                self.phase = Phase::Handshaking;
                self.bomb_count = bomb_count;
                out.push(Action::Send(ServerPacket::PacketHELLO(bomb_count).to_string()));
            },
            _ => {},
        }
        proof {
            assert(action_views(out@) =~= parameters_actions(old(self)@, bomb_count));
        }
        out
    }

    /// Ends a live session.
    fn part(&mut self) -> (out: Vec<Action>)
        requires
            old(self)@.wf(),
            old(self)@.phase == Phase::Live,
        ensures
            final(self)@ == old(self)@.closed(),
            action_views(out@) == parting_actions(old(self)@),
    {
        let mut out: Vec<Action> = Vec::new();
        out.push(Action::Leave(self.player_id));
        out.push(Action::Close);
        let ghost head = seq![ActionView::Leave(self.player_id), ActionView::Close];
        proof {
            assert(action_views(out@) =~= head + releases_of(self.held@, 0));
        }
        let n = self.held.len();
        let mut i: usize = 0;
        while i < n
            invariant
                i <= n,
                n == self.held@.len(),
                n <= u32::MAX,
                action_views(out@) == head + releases_of(self.held@, i as int),
            decreases n - i,
        {
            if let Some(handle) = self.held[i] {
                let a = Action::Release { index: i as u32, handle };
                proof {
                    lemma_action_views_push(out@, a);
                    let r = releases_of(self.held@, i as int);
                    assert((head + r).push(a@) =~= head + r.push(a@));
                }
                out.push(a);
            }
            i += 1;
        }
        self.phase = Phase::Closed;
        self.held = Vec::new();
        out
    }

    /// Takes in what came from the client's socket.
    pub fn on_inbound(&mut self, inbound: &Inbound) -> (actions: Vec<Action>)
        requires
            old(self)@.wf(),
        ensures
            final(self)@.wf(),
            final(self)@ == inbound_state(old(self)@, packet_of(*inbound)),
            action_views(actions@) == inbound_actions(old(self)@, packet_of(*inbound)),
    {
        let packet: Option<ClientPacket> = match inbound {
            Inbound::Text(frame) => match ClientPacket::from_str(frame.as_str()) {
                Ok(packet) => Some(packet),
                Err(_) => None,
            },
            _ => None,
        };
        match self.phase {
            Phase::Handshaking => {
                let mut out: Vec<Action> = Vec::new();
                match packet {
                    Some(ClientPacket::PacketOLLEH(id)) => {
                        self.phase = Phase::Seating;
                        out.push(Action::Forward(id));
                    },
                    _ => {
                        self.phase = Phase::Closed;
                        self.held = Vec::new();
                        out.push(Action::Close);
                    },
                }
                proof {
                    assert(action_views(out@) =~= inbound_actions(old(self)@, packet));
                    assert(self@.held =~= inbound_state(old(self)@, packet).held);
                }
                out
            },
            Phase::Live => {
                match packet {
                    Some(ClientPacket::PacketMOVE(index, action)) => {
                        if (index as usize) < self.held.len() {
                            if let Some(handle) = self.held[index as usize] {
                                self.held.set(index as usize, None);
                                let mut out: Vec<Action> = Vec::new();
                                out.push(Action::Deliver { index, handle, action });
                                proof {
                                    assert(action_views(out@) =~= inbound_actions(
                                        old(self)@,
                                        packet,
                                    ));
                                }
                                return out;
                            }
                        }
                        self.part()
                    },
                    _ => self.part(),
                }
            },
            _ => {
                let out: Vec<Action> = Vec::new();
                proof {
                    assert(action_views(out@) =~= Seq::<ActionView>::empty());
                }
                out
            },
        }
    }

    /// Takes in the credentials that the coordinator gave.
    pub fn on_credentials(&mut self, player_id: u32, name: String, color: String) -> (actions:
        Vec<Action>)
        requires
            old(self)@.wf(),
        ensures
            final(self)@.wf(),
            final(self)@ == credentials_state(old(self)@, player_id),
            action_views(actions@) == credentials_actions(old(self)@, name@, color@),
    {
        let mut out: Vec<Action> = Vec::new();
        match self.phase {
            Phase::Seating => {
                out.push(Action::Send(ServerPacket::PacketNAME(name, color).to_string()));
                self.phase = Phase::Live;
                self.player_id = player_id;
                let mut i: u32 = 0;
                while i < self.bomb_count
                    invariant
                        i <= self.bomb_count,
                        self.held@ == Seq::new(i as nat, |j: int| None::<u64>),
                        self.phase == Phase::Live,
                        self.player_id == player_id,
                        self.bomb_count == old(self).bomb_count,
                    decreases self.bomb_count - i,
                {
                    self.held.push(None);
                    i += 1;
                    proof {
                        assert(self.held@ =~= Seq::new(i as nat, |j: int| None::<u64>));
                    }
                }
            },
            _ => {},
        }
        proof {
            assert(action_views(out@) =~= credentials_actions(old(self)@, name@, color@));
        }
        out
    }

    /// Takes in a game update about bomb `index`.
    pub fn on_update(&mut self, index: u32, update: GameUpdate) -> (actions: Vec<Action>)
        requires
            old(self)@.wf(),
        ensures
            final(self)@.wf(),
            final(self)@ == update_state(old(self)@, index, update),
            action_views(actions@) == update_actions(old(self)@, index, update),
    {
        let mut out: Vec<Action> = Vec::new();
        let live = match self.phase {
            Phase::Live => true,
            _ => false,
        };
        if live && (index as usize) < self.held.len() {
            let (position, slot) = match update {
                GameUpdate::BombMoved(position) => (position, None),
                GameUpdate::BombReceived(handle) => (BombPosition::X, Some(handle)),
            };
            out.push(Action::Send(ServerPacket::PacketSTATUS(index, position).to_string()));
            if let Some(handle) = self.held[index as usize] {
                out.push(Action::Release { index, handle });
            }
            self.held.set(index as usize, slot);
        }
        proof {
            assert(action_views(out@) =~= update_actions(old(self)@, index, update));
        }
        out
    }

    /// Takes in the scoreboard text after it has changed.
    pub fn on_board(&self, board: String) -> (actions: Vec<Action>)
        ensures
            action_views(actions@) == board_actions(self@, board@),
    {
        let mut out: Vec<Action> = Vec::new();
        match self.phase {
            Phase::Live => {
                out.push(Action::Send(ServerPacket::PacketBOARD(board).to_string()));
            },
            _ => {},
        }
        proof {
            assert(action_views(out@) =~= board_actions(self@, board@));
        }
        out
    }
}

} // verus!
