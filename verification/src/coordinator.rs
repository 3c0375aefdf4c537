use vstd::prelude::*;
use crate::names::{color_text, name_text, random_player_data};
use crate::packet::{BombMoveAction, BombPosition};
use crate::ring::{
    is_rank, lemma_rank_unique, lemma_successor_in_ring, rank_of, step_of, strictly_ascending,
    successor_of, SeatingRing,
};
use crate::scoreboard::{board_of, rows_of, scoreboard, PlayerRecord, PlayerRow};
use crate::trace::{
    lemma_join_keeps_invariant, lemma_leave_keeps_invariant, lemma_remove_seat,
    lemma_reply_keeps_invariant,
};

verus! {

/// The points for a move made in no time.
pub const FULL_BONUS: u64 = 4100;

/// The time, in milliseconds, from which on a move earns nothing.
pub const BONUS_CUTOFF_MS: u64 = 4000;

/// How many join requests may wait for the coordinator.
pub const JOIN_REQUEST_CAPACITY: usize = 32;

/// How many leave notices may wait for the coordinator.
pub const LEAVE_NOTICE_CAPACITY: usize = 32;

/// How many updates may wait for one session.
pub const UPDATE_CAPACITY: usize = 4;

/// One bomb of the match.
#[derive(Debug, Clone, Copy, PartialEq, Eq)]
pub struct BombState {
    /// The seat that the bomb is with.
    pub holder: u32,
    /// The clock reading, in milliseconds, at which the outstanding prompt
    /// was sent; `None` when no prompt is outstanding.
    pub prompt_issued_at: Option<u64>,
    /// The handle of the outstanding prompt; `None` when none is outstanding.
    pub outstanding_reply: Option<u64>,
    /// The handle that this bomb's next prompt will carry.
    pub next_handle: u64,
}

/// What a session is told about one bomb.
#[derive(Debug, Clone, Copy, PartialEq, Eq)]
pub enum GameUpdate {
    /// The bomb now is with a player on the given side.
    BombMoved(BombPosition),
    /// The bomb now is with this player, who answers on the given handle.
    BombReceived(u64),
}

/// What the coordinator asks of whoever runs it, in the order in which it is
/// to be done.
#[derive(Debug, Clone)]
pub enum Command {
    /// Replace the watched scoreboard text.
    Publish(String),
    /// Open the update channel of a new player and hand over the credentials.
    Welcome { id: u32, name: String, color: String },
    /// Send an update about bomb `index` to player `to`.
    Update { to: u32, index: u32, update: GameUpdate },
    /// The last player left: the match is over.
    EndMatch,
}

/// A command as contracts see it.
pub enum CommandView {
    Publish(Seq<char>),
    Welcome { id: u32, name: Seq<char>, color: Seq<char> },
    Update { to: u32, index: u32, update: GameUpdate },
    EndMatch,
}

impl View for Command {
    type V = CommandView;

    open spec fn view(&self) -> CommandView {
        match *self {
            Command::Publish(board) => CommandView::Publish(board@),
            Command::Welcome { id, name, color } => CommandView::Welcome {
                id,
                name: name@,
                color: color@,
            },
            Command::Update { to, index, update } => CommandView::Update { to, index, update },
            Command::EndMatch => CommandView::EndMatch,
        }
    }
}

/// The views of a list of commands, in the same order.
pub open spec fn views_of(commands: Seq<Command>) -> Seq<CommandView> {
    Seq::new(commands.len(), |i: int| commands[i]@)
}

/// The state of the coordinator as contracts see it. Before the first player
/// and after the last one there are no seats and no bombs.
pub struct MatchState {
    pub bomb_count: u32,
    /// The seats in ascending order.
    pub seats: Seq<u32>,
    /// The players' records, in the order of their seats.
    pub rows: Seq<PlayerRow>,
    pub bombs: Seq<BombState>,
}

impl MatchState {
    /// The invariant of the coordinator: seats ascend, each seat has its
    /// record, every bomb is with a seated player, a prompt's time and
    /// handle come and go together, and the handle of a bomb's next prompt
    /// is the one after the outstanding handle.
    pub open spec fn wf(self) -> bool {
        &&& strictly_ascending(self.seats)
        &&& self.rows.len() == self.seats.len()
        &&& forall|i: int| 0 <= i < self.rows.len() ==> (#[trigger] self.rows[i]).id == self.seats[i]
        &&& self.seats.len() == 0 ==> self.bombs.len() == 0
        &&& self.seats.len() > 0 ==> self.bombs.len() == self.bomb_count
        &&& forall|i: int|
            0 <= i < self.bombs.len() ==> self.seats.contains((#[trigger] self.bombs[i]).holder)
        &&& forall|i: int|
            0 <= i < self.bombs.len() ==> ((#[trigger] self.bombs[i]).prompt_issued_at is Some
                <==> self.bombs[i].outstanding_reply is Some)
        &&& forall|i: int|
            0 <= i < self.bombs.len() && (#[trigger] self.bombs[i]).outstanding_reply is Some
                ==> self.bombs[i].next_handle == handle_after(self.bombs[i].outstanding_reply->0)
    }

    /// A match is running.
    pub open spec fn active(self) -> bool {
        self.seats.len() > 0
    }

    /// The coordinator still waits for the reply on `handle` for bomb
    /// `index`.
    pub open spec fn awaits(self, index: u32, handle: u64) -> bool {
        index < self.bombs.len() && self.bombs[index as int].outstanding_reply == Some(handle)
    }
}

/// The index of seat `p` among the seats.
pub open spec fn seat_index(seats: Seq<u32>, p: u32) -> int {
    choose|k: int| 0 <= k < seats.len() && seats[k] == p
}

/// The points for a move that took `elapsed` milliseconds: the full bonus
/// less the time taken, and nothing from the cutoff on.
pub open spec fn move_bonus(elapsed: u64) -> u32 {
    if elapsed < BONUS_CUTOFF_MS {
        (FULL_BONUS - elapsed) as u32
    } else {
        0
    }
}

/// A score with a bonus added; a score stops at the largest 32-bit number.
pub open spec fn credited(score: u32, bonus: u32) -> u32 {
    if score + bonus > u32::MAX {
        u32::MAX
    } else {
        (score + bonus) as u32
    }
}

/// The time between two clock readings; none if the clock did not advance.
pub open spec fn elapsed_between(sent: u64, now: u64) -> u64 {
    if now >= sent {
        (now - sent) as u64
    } else {
        0
    }
}

/// The handle after `h`; the count starts over after the largest.
pub open spec fn handle_after(h: u64) -> u64 {
    if h == u64::MAX {
        0
    } else {
        (h + 1) as u64
    }
}

/// The bomb once it is handed to `holder` with a fresh prompt sent at `now`.
pub open spec fn prompted(b: BombState, holder: u32, now: u64) -> BombState {
    BombState {
        holder,
        prompt_issued_at: Some(now),
        outstanding_reply: Some(b.next_handle),
        next_handle: handle_after(b.next_handle),
    }
}

/// The bomb once its outstanding prompt is withdrawn.
pub open spec fn unprompted(b: BombState) -> BombState {
    BombState {
        holder: b.holder,
        prompt_issued_at: None,
        outstanding_reply: None,
        next_handle: b.next_handle,
    }
}

/// The side on which a player at `seat` sees a bomb held at `holder`: to the
/// right for players seated below the holder, to the left for those above.
pub open spec fn side_seen(seat: u32, holder: u32) -> BombPosition {
    if seat < holder {
        BombPosition::R
    } else {
        BombPosition::L
    }
}

/// The updates that tell every seated player but the holder where bomb
/// `index` went, in seating order.
pub open spec fn broadcast_of(seats: Seq<u32>, index: u32, holder: u32) -> Seq<CommandView>
    decreases seats.len(),
{
    if seats.len() == 0 {
        Seq::empty()
    } else {
        let before = broadcast_of(seats.drop_last(), index, holder);
        let seat = seats.last();
        if seat == holder {
            before
        } else {
            before.push(
                CommandView::Update {
                    to: seat,
                    index,
                    update: GameUpdate::BombMoved(side_seen(seat, holder)),
                },
            )
        }
    }
}

/// The move of bomb `index` to `holder` as the players see it: the
/// broadcast to the others, then the prompt to the holder.
pub open spec fn handover_of(seats: Seq<u32>, index: u32, holder: u32, handle: u64) -> Seq<
    CommandView,
> {
    broadcast_of(seats, index, holder).push(
        CommandView::Update { to: holder, index, update: GameUpdate::BombReceived(handle) },
    )
}

/// The seat that a player who asks for `preferred` gets: the seat asked for
/// when it is free, else the seat after the largest; none when the largest
/// seat number is taken too.
pub open spec fn seat_for(seats: Seq<u32>, preferred: u32) -> Option<u32> {
    if !seats.contains(preferred) {
        Some(preferred)
    } else if seats.last() < u32::MAX {
        Some((seats.last() + 1) as u32)
    } else {
        None
    }
}

/// The bombs at the start of a match: all with the first player, each with
/// its first prompt out.
pub open spec fn first_bombs(bomb_count: u32, holder: u32, now: u64) -> Seq<BombState> {
    Seq::new(
        bomb_count as nat,
        |i: int|
            BombState {
                holder,
                prompt_issued_at: Some(now),
                outstanding_reply: Some(0),
                next_handle: 1,
            },
    )
}

/// What a newcomer at `id` is told about the first `n` bombs: a prompt for
/// each bomb that is with the newcomer, else the side the bomb is on (left
/// when its holder sits below the newcomer).
pub open spec fn greeting_of(bombs: Seq<BombState>, id: u32, n: int) -> Seq<CommandView>
    decreases n,
{
    if n <= 0 {
        Seq::empty()
    } else {
        let b = bombs[n - 1];
        greeting_of(bombs, id, n - 1).push(
            CommandView::Update {
                to: id,
                index: (n - 1) as u32,
                update: if b.holder == id {
                    GameUpdate::BombReceived(b.outstanding_reply->0)
                } else if b.holder < id {
                    GameUpdate::BombMoved(BombPosition::L)
                } else {
                    GameUpdate::BombMoved(BombPosition::R)
                },
            },
        )
    }
}

/// The state after a player who asks for seat `preferred` has joined: the
/// player's seat and record stand at the seat's rank, with score 0, and the
/// first player of a match gets all the bombs.
pub open spec fn join_state(
    m: MatchState,
    preferred: u32,
    name: Seq<char>,
    color: Seq<char>,
    now: u64,
) -> MatchState {
    match seat_for(m.seats, preferred) {
        None => m,
        Some(id) => MatchState {
            bomb_count: m.bomb_count,
            seats: m.seats.insert(rank_of(m.seats, id), id),
            rows: m.rows.insert(rank_of(m.seats, id), PlayerRow { id, name, color, score: 0 }),
            bombs: if m.active() {
                m.bombs
            } else {
                first_bombs(m.bomb_count, id, now)
            },
        },
    }
}

/// What is to be done when a player joins and the state after it is `after`:
/// publish the board, welcome the player, tell the player of each bomb.
pub open spec fn join_commands(after: MatchState, id: u32, name: Seq<char>, color: Seq<char>) -> Seq<
    CommandView,
> {
    seq![CommandView::Publish(board_of(after.rows)), CommandView::Welcome { id, name, color }]
        + greeting_of(after.bombs, id, after.bombs.len() as int)
}

/// The views of the commands, where there are any.
pub open spec fn command_views(r: Option<Vec<Command>>) -> Option<Seq<CommandView>> {
    match r {
        Some(commands) => Some(views_of(commands@)),
        None => None,
    }
}

/// `after` and `commands` are what a join under the given name and colour
/// makes of `before`: the state of `join_state`, and the commands of
/// `join_commands` where a seat could be had.
pub open spec fn joined_as(
    before: MatchState,
    after: MatchState,
    commands: Option<Seq<CommandView>>,
    preferred: u32,
    name: Seq<char>,
    color: Seq<char>,
    now: u64,
) -> bool {
    &&& after == join_state(before, preferred, name, color, now)
    &&& commands == match seat_for(before.seats, preferred) {
        None => None::<Seq<CommandView>>,
        Some(id) => Some(join_commands(after, id, name, color)),
    }
}

/// A bomb after `player` has left: one that was with the player goes to the
/// player's successor among the seats that remain, with a fresh prompt; any
/// other bomb stays as it is, prompt and all.
pub open spec fn rerouted(b: BombState, player: u32, remaining: Seq<u32>, now: u64) -> BombState {
    if b.holder == player {
        prompted(b, successor_of(remaining, player), now)
    } else {
        b
    }
}

/// The handovers of the first `n` bombs after `player` has left, by rising
/// bomb index; `bombs` are the bombs before the leave.
pub open spec fn reroute_commands(
    bombs: Seq<BombState>,
    player: u32,
    remaining: Seq<u32>,
    n: int,
) -> Seq<CommandView>
    decreases n,
{
    if n <= 0 {
        Seq::empty()
    } else {
        let before = reroute_commands(bombs, player, remaining, n - 1);
        let b = bombs[n - 1];
        if b.holder == player {
            before + handover_of(
                remaining,
                (n - 1) as u32,
                successor_of(remaining, player),
                b.next_handle,
            )
        } else {
            before
        }
    }
}

/// The state after `player` is known to be gone. A player who is not
/// seated changes nothing; the last player's leave ends the match.
pub open spec fn leave_state(m: MatchState, player: u32, now: u64) -> MatchState {
    if !m.seats.contains(player) {
        m
    } else {
        let k = seat_index(m.seats, player);
        let remaining = m.seats.remove(k);
        if remaining.len() == 0 {
            MatchState {
                bomb_count: m.bomb_count,
                seats: Seq::empty(),
                rows: Seq::empty(),
                bombs: Seq::empty(),
            }
        } else {
            MatchState {
                bomb_count: m.bomb_count,
                seats: remaining,
                rows: m.rows.remove(k),
                bombs: Seq::new(
                    m.bombs.len(),
                    |i: int| rerouted(m.bombs[i], player, remaining, now),
                ),
            }
        }
    }
}

/// What is to be done when `player` is known to be gone: nothing outside a
/// match; the end of the match when the last player left; else the handover
/// of each bomb that was with the player, then the new board.
pub open spec fn leave_commands(m: MatchState, player: u32, now: u64) -> Seq<CommandView> {
    let after = leave_state(m, player, now);
    if !m.active() {
        Seq::empty()
    } else if !after.active() {
        seq![CommandView::EndMatch]
    } else if !m.seats.contains(player) {
        seq![CommandView::Publish(board_of(m.rows))]
    } else {
        reroute_commands(m.bombs, player, after.seats, m.bombs.len() as int).push(
            CommandView::Publish(board_of(after.rows)),
        )
    }
}

/// The rows after the player at index `k` has been given `bonus`.
pub open spec fn rows_credited(rows: Seq<PlayerRow>, k: int, bonus: u32) -> Seq<PlayerRow> {
    rows.update(
        k,
        PlayerRow {
            id: rows[k].id,
            name: rows[k].name,
            color: rows[k].color,
            score: credited(rows[k].score, bonus),
        },
    )
}

/// The state after the reply on `handle` for bomb `index` has come in at
/// `now`. A reply that is not awaited changes nothing. A reply whose sender
/// was dropped (`None`) withdraws the prompt and awards nothing. A move
/// credits the holder with the bonus for the time taken and hands the bomb
/// to the seat that the move reaches, with a fresh prompt.
pub open spec fn reply_state(
    m: MatchState,
    index: u32,
    handle: u64,
    now: u64,
    result: Option<BombMoveAction>,
) -> MatchState {
    if !m.awaits(index, handle) {
        m
    } else {
        let b = m.bombs[index as int];
        match result {
            None => MatchState {
                bomb_count: m.bomb_count,
                seats: m.seats,
                rows: m.rows,
                bombs: m.bombs.update(index as int, unprompted(b)),
            },
            Some(action) => MatchState {
                bomb_count: m.bomb_count,
                seats: m.seats,
                rows: rows_credited(
                    m.rows,
                    seat_index(m.seats, b.holder),
                    move_bonus(elapsed_between(b.prompt_issued_at->0, now)),
                ),
                bombs: m.bombs.update(
                    index as int,
                    prompted(b, step_of(m.seats, b.holder, action), now),
                ),
            },
        }
    }
}

/// What is to be done when a reply has come in: for an awaited move, the new
/// board, then the handover; else nothing.
pub open spec fn reply_commands(
    m: MatchState,
    index: u32,
    handle: u64,
    now: u64,
    result: Option<BombMoveAction>,
) -> Seq<CommandView> {
    if m.awaits(index, handle) && result is Some {
        let b = m.bombs[index as int];
        seq![CommandView::Publish(board_of(reply_state(m, index, handle, now, result).rows))]
            + handover_of(m.seats, index, step_of(m.seats, b.holder, result->0), b.next_handle)
    } else {
        Seq::empty()
    }
}

/// No player who stays seated has a lower score in `after` than in `before`.
pub open spec fn scores_kept(before: Seq<PlayerRow>, after: Seq<PlayerRow>) -> bool {
    forall|i: int, j: int|
        0 <= i < before.len() && 0 <= j < after.len() && before[i].id == after[j].id
            ==> after[j].score >= before[i].score
}

/// The seat that a newcomer gets is free before the join.
pub proof fn lemma_seat_for_unused(seats: Seq<u32>, preferred: u32)
    requires
        strictly_ascending(seats),
        seat_for(seats, preferred) is Some,
    ensures
        !seats.contains(seat_for(seats, preferred)->0),
{
    if seats.contains(preferred) {
        let id = seat_for(seats, preferred)->0;
        if seats.contains(id) {
            let i = choose|i: int| 0 <= i < seats.len() && seats[i] == id;
            if i < seats.len() - 1 {
                assert(seats[i] < seats[seats.len() - 1]);
            }
        }
    }
}

/// For each bomb the coordinator awaits the reply on one handle at most.
pub proof fn lemma_one_prompt_per_bomb(m: MatchState, index: u32, a: u64, b: u64)
    requires
        m.awaits(index, a),
        m.awaits(index, b),
    ensures
        a == b,
{
}

/// A reply that is not awaited changes nothing and asks for nothing.
pub proof fn lemma_stray_reply_ignored(
    m: MatchState,
    index: u32,
    handle: u64,
    now: u64,
    result: Option<BombMoveAction>,
)
    requires
        !m.awaits(index, handle),
    ensures
        reply_state(m, index, handle, now, result) == m,
        reply_commands(m, index, handle, now, result) == Seq::<CommandView>::empty(),
{
}

/// Once a move is taken in, the bomb's new prompt is the only one awaited
/// for it: the handle just answered is awaited no more, and the prompt that
/// closes the commands carries the handle that is.
pub proof fn lemma_reply_renews_prompt(
    m: MatchState,
    index: u32,
    handle: u64,
    now: u64,
    action: BombMoveAction,
)
    requires
        m.wf(),
        m.awaits(index, handle),
    ensures
        !reply_state(m, index, handle, now, Some(action)).awaits(index, handle),
        reply_state(m, index, handle, now, Some(action)).awaits(
            index,
            m.bombs[index as int].next_handle,
        ),
        reply_commands(m, index, handle, now, Some(action)).last() == (CommandView::Update {
            to: step_of(m.seats, m.bombs[index as int].holder, action),
            index,
            update: GameUpdate::BombReceived(m.bombs[index as int].next_handle),
        }),
{
}

/// After a leave that does not end the match, a bomb that was with the
/// player who left is with that player's successor, under a prompt whose
/// handle replaces the old one; every other bomb is as it was.
pub proof fn lemma_leave_reroutes(m: MatchState, player: u32, now: u64, index: u32)
    requires
        m.wf(),
        m.seats.contains(player),
        leave_state(m, player, now).active(),
        index < m.bombs.len(),
    ensures
        leave_state(m, player, now).seats.contains(
            leave_state(m, player, now).bombs[index as int].holder,
        ),
        m.bombs[index as int].holder != player ==> leave_state(m, player, now).bombs[index as int]
            == m.bombs[index as int],
        m.bombs[index as int].holder == player ==> {
            &&& leave_state(m, player, now).bombs[index as int].holder == successor_of(
                leave_state(m, player, now).seats,
                player,
            )
            &&& leave_state(m, player, now).awaits(index, m.bombs[index as int].next_handle)
            &&& m.bombs[index as int].outstanding_reply is Some ==> !leave_state(
                m,
                player,
                now,
            ).awaits(index, m.bombs[index as int].outstanding_reply->0)
        },
{
    let k = seat_index(m.seats, player);
    let remaining = m.seats.remove(k);
    let h = m.bombs[index as int].holder;
    assert(m.seats.contains(h));
    lemma_remove_seat(m.seats, k);
    if h == player {
        lemma_successor_in_ring(remaining, player);
    }
}

/// Adding a command to a list adds its view to the list's views.
pub proof fn lemma_views_push(commands: Seq<Command>, c: Command)
    ensures
        views_of(commands.push(c)) == views_of(commands).push(c@),
{
    assert(views_of(commands.push(c)) =~= views_of(commands).push(c@));
}

/// The coordinator of one match at a time: the seating ring, the players'
/// records and the bombs.
pub struct Coordinator {
    bomb_count: u32,
    ring: SeatingRing,
    records: Vec<PlayerRecord>,
    bombs: Vec<BombState>,
}

impl View for Coordinator {
    type V = MatchState;

    closed spec fn view(&self) -> MatchState {
        MatchState {
            bomb_count: self.bomb_count,
            seats: self.ring.seats(),
            rows: rows_of(self.records@),
            bombs: self.bombs@,
        }
    }
}

impl Coordinator {
    /// A coordinator without players, for matches of `bomb_count` bombs.
    pub fn new(bomb_count: u32) -> (c: Coordinator)
        ensures
            c@.wf(),
            c@ == (MatchState {
                bomb_count,
                seats: Seq::empty(),
                rows: Seq::empty(),
                bombs: Seq::empty(),
            }),
    {
        let c = Coordinator {
            bomb_count,
            ring: SeatingRing::new(),
            records: Vec::new(),
            bombs: Vec::new(),
        };
        proof {
            assert(c@.rows =~= Seq::empty());
            assert(c@.bombs =~= Seq::empty());
        }
        c
    }

    pub fn bomb_count(&self) -> (n: u32)
        ensures
            n == self@.bomb_count,
    {
        self.bomb_count
    }

    /// Whether a match is running.
    pub fn is_active(&self) -> (b: bool)
        ensures
            b == self@.active(),
    {
        !self.ring.is_empty()
    }

    /// Whether `player` is seated.
    pub fn is_seated(&self, player: u32) -> (b: bool)
        requires
            self@.wf(),
        ensures
            b == self@.seats.contains(player),
    {
        self.ring.contains(player)
    }

    /// The state of bomb `index`, if there is such a bomb.
    pub fn bomb(&self, index: u32) -> (b: Option<BombState>)
        ensures
            b == if index < self@.bombs.len() {
                Some(self@.bombs[index as int])
            } else {
                None
            },
    {
        if (index as usize) < self.bombs.len() {
            Some(self.bombs[index as usize])
        } else {
            None
        }
    }

    /// The score of `player`, if seated.
    pub fn score(&self, player: u32) -> (s: Option<u32>)
        requires
            self@.wf(),
        ensures
            match s {
                Some(v) => self@.seats.contains(player) && v == self@.rows[seat_index(
                    self@.seats,
                    player,
                )].score,
                None => !self@.seats.contains(player),
            },
    {
        match self.ring.position(player) {
            Some(k) => {
                proof {
                    lemma_seat_index(self@.seats, player, k as int);
                }
                Some(self.records[k].score)
            },
            None => None,
        }
    }

    /// The current scoreboard text.
    pub fn board(&self) -> (text: String)
        ensures
            text@ == board_of(self@.rows),
    {
        scoreboard(&self.records)
    }

    /// Takes in the reply on `handle` for bomb `index`, at clock reading
    /// `now`: the move that the holder chose, or `None` when the holder's
    /// session dropped the handle without answering.
    pub fn reply(
        &mut self,
        index: u32,
        handle: u64,
        now: u64,
        result: Option<BombMoveAction>,
    ) -> (commands: Vec<Command>)
        requires
            old(self)@.wf(),
        ensures
            final(self)@.wf(),
            final(self)@ == reply_state(old(self)@, index, handle, now, result),
            views_of(commands@) == reply_commands(old(self)@, index, handle, now, result),
            scores_kept(old(self)@.rows, final(self)@.rows),
    {
        let mut out: Vec<Command> = Vec::new();
        proof {
            assert(views_of(out@) =~= Seq::<CommandView>::empty());
        }
        if index as usize >= self.bombs.len() {
            return out;
        }
        let b = self.bombs[index as usize];
        let awaited = match b.outstanding_reply {
            Some(h) => h == handle,
            None => false,
        };
        if !awaited {
            return out;
        }
        let action = match result {
            Some(action) => action,
            None => {
                self.bombs.set(
                    index as usize,
                    BombState {
                        holder: b.holder,
                        prompt_issued_at: None,
                        outstanding_reply: None,
                        next_handle: b.next_handle,
                    },
                );
                proof {
                    lemma_reply_keeps_invariant(old(self)@, index, handle, now, result);
                }
                return out;
            },
        };
        let k = match self.ring.position(b.holder) {
            Some(k) => k,
            None => {
                proof {
                    assert(old(self)@.seats.contains(old(self)@.bombs[index as int].holder));
                }
                return out;
            },
        };
        let sent = match b.prompt_issued_at {
            Some(sent) => sent,
            None => now,
        };
        let elapsed: u64 = if now >= sent {
            now - sent
        } else {
            0
        };
        let bonus: u32 = if elapsed < BONUS_CUTOFF_MS {
            (FULL_BONUS - elapsed) as u32
        } else {
            0
        };
        let mut record = self.records.remove(k);
        record.score = if record.score > u32::MAX - bonus {
            u32::MAX
        } else {
            record.score + bonus
        };
        self.records.insert(k, record);
        proof {
            lemma_seat_index(old(self)@.seats, b.holder, k as int);
            assert(self@.rows =~= rows_credited(old(self)@.rows, k as int, bonus));
        }
        let board = scoreboard(&self.records);
        let publish = Command::Publish(board);
        proof {
            lemma_views_push(out@, publish);
        }
        out.push(publish);
        let holder = self.ring.step(b.holder, action);
        self.bombs.set(
            index as usize,
            BombState {
                holder,
                prompt_issued_at: Some(now),
                outstanding_reply: Some(b.next_handle),
                next_handle: if b.next_handle == u64::MAX {
                    0
                } else {
                    b.next_handle + 1
                },
            },
        );
        self.push_handover(&mut out, index, holder, b.next_handle);
        proof {
            let m = old(self)@;
            assert(self@.bombs =~= m.bombs.update(
                index as int,
                prompted(m.bombs[index as int], holder, now),
            ));
            lemma_reply_keeps_invariant(m, index, handle, now, result);
            assert(views_of(out@) =~= reply_commands(m, index, handle, now, result));
        }
        out
    }

    /// Takes in the notice that `player` is gone, at clock reading `now`.
    /// Afterwards every bomb is with a seated player, or the match is over.
    pub fn leave(&mut self, player: u32, now: u64) -> (commands: Vec<Command>)
        requires
            old(self)@.wf(),
        ensures
            final(self)@.wf(),
            final(self)@ == leave_state(old(self)@, player, now),
            views_of(commands@) == leave_commands(old(self)@, player, now),
            scores_kept(old(self)@.rows, final(self)@.rows),
            !final(self)@.seats.contains(player),
            !final(self)@.active() || forall|i: int|
                0 <= i < final(self)@.bombs.len() ==> final(self)@.seats.contains(
                    (#[trigger] final(self)@.bombs[i]).holder,
                ),
    {
        let ghost m = old(self)@;
        let mut out: Vec<Command> = Vec::new();
        proof {
            assert(views_of(out@) =~= Seq::<CommandView>::empty());
        }
        if self.ring.is_empty() {
            return out;
        }
        let k = match self.ring.remove(player) {
            Some(k) => k,
            None => {
                let publish = Command::Publish(scoreboard(&self.records));
                proof {
                    lemma_views_push(out@, publish);
                    assert(views_of(out@.push(publish)) =~= leave_commands(m, player, now));
                }
                out.push(publish);
                return out;
            },
        };
        self.records.remove(k);
        proof {
            lemma_seat_index(m.seats, player, k as int);
            assert(self@.rows =~= m.rows.remove(k as int));
            lemma_leave_keeps_invariant(m, player, now);
        }
        if self.ring.is_empty() {
            self.bombs.clear();
            let end = Command::EndMatch;
            proof {
                lemma_views_push(out@, end);
                assert(views_of(out@.push(end)) =~= leave_commands(m, player, now));
                assert(self@.rows =~= Seq::empty());
                assert(self@.seats =~= Seq::empty());
                assert(self@.bombs =~= Seq::empty());
            }
            out.push(end);
            return out;
        }
        let heir = self.ring.successor(player);
        let ghost remaining = self@.seats;
        let ghost rows = self@.rows;
        let n = self.bombs.len();
        let mut i: usize = 0;
        while i < n
            invariant
                m.wf(),
                m.active(),
                i <= n,
                n == m.bombs.len(),
                self.bombs@.len() == n,
                self@.seats == remaining,
                self@.rows == rows,
                self@.bomb_count == m.bomb_count,
                remaining.len() > 0,
                strictly_ascending(remaining),
                heir == successor_of(remaining, player),
                forall|j: int| 0 <= j < i ==> self.bombs@[j] == rerouted(
                    m.bombs[j],
                    player,
                    remaining,
                    now,
                ),
                forall|j: int| i <= j < n ==> self.bombs@[j] == m.bombs[j],
                views_of(out@) == reroute_commands(m.bombs, player, remaining, i as int),
            decreases n - i,
        {
            let b = self.bombs[i];
            if b.holder == player {
                self.bombs.set(
                    i,
                    BombState {
                        holder: heir,
                        prompt_issued_at: Some(now),
                        outstanding_reply: Some(b.next_handle),
                        next_handle: if b.next_handle == u64::MAX {
                            0
                        } else {
                            b.next_handle + 1
                        },
                    },
                );
                self.push_handover(&mut out, i as u32, heir, b.next_handle);
            }
            i += 1;
        }
        let publish = Command::Publish(scoreboard(&self.records));
        proof {
            lemma_views_push(out@, publish);
            assert(self@.bombs =~= leave_state(m, player, now).bombs);
        }
        out.push(publish);
        out
    }

    /// Seats a player who asks for seat `preferred` and comes with the given
    /// name and colour, at clock reading `now`. The player gets the seat
    /// asked for if it is free, else the seat after the largest. `None`, and
    /// nothing changes, when neither can be had.
    pub fn join_as(&mut self, preferred: u32, name: String, color: String, now: u64) -> (r: Option<
        Vec<Command>,
    >)
        requires
            old(self)@.wf(),
        ensures
            final(self)@.wf(),
            joined_as(
                old(self)@,
                final(self)@,
                command_views(r),
                preferred,
                name@,
                color@,
                now,
            ),
            scores_kept(old(self)@.rows, final(self)@.rows),
            match seat_for(old(self)@.seats, preferred) {
                None => r is None,
                Some(id) => r is Some && final(self)@.seats.contains(id),
            },
    {
        let ghost m = old(self)@;
        let id: u32 = if !self.ring.contains(preferred) {
            preferred
        } else {
            match self.ring.last() {
                Some(largest) => {
                    if largest == u32::MAX {
                        return None;
                    }
                    largest + 1
                },
                None => {
                    return None;
                },
            }
        };
        let first = self.ring.is_empty();
        let k = match self.ring.insert(id) {
            Some(k) => k,
            None => {
                proof {
                    assert(m.seats.contains(m.seats.last()));
                    assert(false);
                }
                return None;
            },
        };
        let record = PlayerRecord { id, name: name.clone(), color: color.clone(), score: 0 };
        self.records.insert(k, record);
        proof {
            lemma_rank_unique(m.seats, id, k as int, k as int);
            assert(self@.rows =~= m.rows.insert(
                k as int,
                PlayerRow { id, name: name@, color: color@, score: 0 },
            ));
            assert(self@.seats[k as int] == id);
            lemma_join_keeps_invariant(m, preferred, name@, color@, now);
        }
        if first {
            let mut i: u32 = 0;
            while i < self.bomb_count
                invariant
                    i <= self.bomb_count,
                    k <= old(self)@.seats.len() == old(self)@.rows.len(),
                    self.bombs@ == first_bombs(i, id, now),
                    self@.seats == old(self)@.seats.insert(k as int, id),
                    self@.rows == old(self)@.rows.insert(
                        k as int,
                        PlayerRow { id, name: name@, color: color@, score: 0 },
                    ),
                    self@.bomb_count == old(self)@.bomb_count,
                decreases self.bomb_count - i,
            {
                self.bombs.push(
                    BombState {
                        holder: id,
                        prompt_issued_at: Some(now),
                        outstanding_reply: Some(0),
                        next_handle: 1,
                    },
                );
                i += 1;
                proof {
                    assert(self.bombs@ =~= first_bombs(i, id, now));
                }
            }
        }
        let mut out: Vec<Command> = Vec::new();
        let publish = Command::Publish(scoreboard(&self.records));
        let welcome = Command::Welcome { id, name, color };
        proof {
            lemma_views_push(out@, publish);
            lemma_views_push(out@.push(publish), welcome);
            assert(views_of(out@.push(publish).push(welcome)) =~= seq![publish@, welcome@]);
        }
        out.push(publish);
        out.push(welcome);
        let n = self.bombs.len();
        let mut i: usize = 0;
        while i < n
            invariant
                i <= n,
                n == self.bombs@.len(),
                n <= u32::MAX,
                forall|j: int|
                    0 <= j < n && (#[trigger] self.bombs@[j]).holder == id
                        ==> self.bombs@[j].outstanding_reply is Some,
                views_of(out@) == seq![publish@, welcome@] + greeting_of(self.bombs@, id, i as int),
            decreases n - i,
        {
            let b = self.bombs[i];
            let update = if b.holder == id {
                match b.outstanding_reply {
                    Some(handle) => GameUpdate::BombReceived(handle),
                    None => GameUpdate::BombReceived(0),
                }
            } else if b.holder < id {
                GameUpdate::BombMoved(BombPosition::L)
            } else {
                GameUpdate::BombMoved(BombPosition::R)
            };
            let c = Command::Update { to: id, index: i as u32, update };
            proof {
                lemma_views_push(out@, c);
                let g = greeting_of(self.bombs@, id, i as int);
                assert((seq![publish@, welcome@] + g).push(c@) =~= seq![publish@, welcome@] + g.push(
                    c@,
                ));
            }
            out.push(c);
            i += 1;
        }
        Some(out)
    }

    /// Seats a player who asks for seat `preferred`, under a name and a
    /// colour drawn at random. Whatever is drawn, the outcome is that of
    /// `join_as` with that name and colour.
    pub fn join(&mut self, preferred: u32, now: u64) -> (r: Option<Vec<Command>>)
        requires
            old(self)@.wf(),
        ensures
            final(self)@.wf(),
            scores_kept(old(self)@.rows, final(self)@.rows),
            r is Some <==> seat_for(old(self)@.seats, preferred) is Some,
            exists|a: u16, b: u32| #[trigger]
                joined_as(
                    old(self)@,
                    final(self)@,
                    command_views(r),
                    preferred,
                    name_text(a),
                    color_text(b),
                    now,
                ),
    {
        let (name, color) = random_player_data();
        let ghost (a, b) = choose|a: u16, b: u32|
            name@ == name_text(a) && color@ == color_text(b);
        let r = self.join_as(preferred, name, color, now);
        proof {
            assert(joined_as(
                old(self)@,
                self@,
                command_views(r),
                preferred,
                name_text(a),
                color_text(b),
                now,
            ));
        }
        r
    }

    /// Appends the broadcast about bomb `index`, now with `holder`.
    fn push_broadcast(&self, out: &mut Vec<Command>, index: u32, holder: u32)
        ensures
            views_of(final(out)@) == views_of(old(out)@) + broadcast_of(
                self@.seats,
                index,
                holder,
            ),
    {
        let n = self.ring.len();
        let mut i: usize = 0;
        proof {
            assert(self@.seats.take(0) =~= Seq::<u32>::empty());
            assert(views_of(out@) + Seq::<CommandView>::empty() =~= views_of(out@));
        }
        while i < n
            invariant
                n == self@.seats.len(),
                i <= n,
                views_of(out@) == views_of(old(out)@) + broadcast_of(
                    self@.seats.take(i as int),
                    index,
                    holder,
                ),
            decreases n - i,
        {
            let seat = self.ring.seat_at(i);
            proof {
                assert(self@.seats.take(i + 1).drop_last() =~= self@.seats.take(i as int));
            }
            if seat != holder {
                let side = if seat < holder {
                    BombPosition::R
                } else {
                    BombPosition::L
                };
                let c = Command::Update { to: seat, index, update: GameUpdate::BombMoved(side) };
                proof {
                    lemma_views_push(out@, c);
                    let before = broadcast_of(self@.seats.take(i as int), index, holder);
                    assert((views_of(old(out)@) + before).push(c@) =~= views_of(old(out)@)
                        + before.push(c@));
                }
                out.push(c);
            }
            i += 1;
        }
        proof {
            assert(self@.seats.take(n as int) =~= self@.seats);
        }
    }

    /// Appends the handover of bomb `index` to `holder`.
    fn push_handover(&self, out: &mut Vec<Command>, index: u32, holder: u32, handle: u64)
        ensures
            views_of(final(out)@) == views_of(old(out)@) + handover_of(
                self@.seats,
                index,
                holder,
                handle,
            ),
    {
        self.push_broadcast(out, index, holder);
        let c = Command::Update { to: holder, index, update: GameUpdate::BombReceived(handle) };
        proof {
            lemma_views_push(out@, c);
            let b = broadcast_of(self@.seats, index, holder);
            assert((views_of(old(out)@) + b).push(c@) =~= views_of(old(out)@) + b.push(c@));
        }
        out.push(c);
    }
}

/// In ascending seats, the index at which a seat stands is its seat index.
pub proof fn lemma_seat_index(seats: Seq<u32>, p: u32, k: int)
    requires
        strictly_ascending(seats),
        0 <= k < seats.len(),
        seats[k] == p,
    ensures
        seat_index(seats, p) == k,
        is_rank(seats, p, k),
{
    let c = seat_index(seats, p);
    if c < k {
        assert(seats[c] < seats[k]);
    }
    if k < c {
        assert(seats[k] < seats[c]);
    }
    assert forall|i: int| 0 <= i < k implies seats[i] < p by {
        assert(seats[i] < seats[k]);
    }
    assert forall|i: int| k <= i < seats.len() implies seats[i] >= p by {
        if k < i {
            assert(seats[k] < seats[i]);
        }
    }
}

} // verus!
