use vstd::prelude::*;
use crate::coordinator::{
    first_bombs, join_state, leave_state, lemma_seat_for_unused, reply_state, scores_kept,
    seat_for, seat_index, MatchState,
};
use crate::packet::BombMoveAction;
use crate::ring::{
    is_rank, lemma_rank_exists, lemma_rank_unique, lemma_step_stays_in_ring,
    lemma_successor_in_ring, rank_of, strictly_ascending,
};

verus! {

/// What may come in at the coordinator.
pub enum Event {
    /// A handshake is complete: a player asks for a seat.
    Join { preferred: u32, name: Seq<char>, color: Seq<char>, now: u64 },
    /// A session says that its player is gone.
    Leave { player: u32, now: u64 },
    /// The reply to a prompt, or the news that its handle was dropped.
    Reply { index: u32, handle: u64, now: u64, result: Option<BombMoveAction> },
}

/// The state after one event.
pub open spec fn after(m: MatchState, e: Event) -> MatchState {
    match e {
        Event::Join { preferred, name, color, now } => join_state(m, preferred, name, color, now),
        Event::Leave { player, now } => leave_state(m, player, now),
        Event::Reply { index, handle, now, result } => reply_state(m, index, handle, now, result),
    }
}

/// The state after a run of events, taken in order.
pub open spec fn after_all(m: MatchState, events: Seq<Event>) -> MatchState
    decreases events.len(),
{
    if events.len() == 0 {
        m
    } else {
        after(after_all(m, events.drop_last()), events.last())
    }
}

/// The score of a seated player.
pub open spec fn score_of(m: MatchState, player: u32) -> u32 {
    m.rows[seat_index(m.seats, player)].score
}

/// A seated player's record stands at the player's seat index.
pub proof fn lemma_record_of(m: MatchState, player: u32)
    requires
        m.wf(),
        m.seats.contains(player),
    ensures
        0 <= seat_index(m.seats, player) < m.rows.len(),
        m.rows[seat_index(m.seats, player)].id == player,
{
}

/// Taking a seat out of ascending seats leaves them ascending, and leaves
/// every other seat in.
pub proof fn lemma_remove_seat(seats: Seq<u32>, k: int)
    requires
        strictly_ascending(seats),
        0 <= k < seats.len(),
    ensures
        strictly_ascending(seats.remove(k)),
        forall|p: u32| seats.contains(p) && p != seats[k] ==> seats.remove(k).contains(p),
        !seats.remove(k).contains(seats[k]),
{
    let rest = seats.remove(k);
    assert forall|i: int, j: int| 0 <= i < j < rest.len() implies rest[i] < rest[j] by {
        let ii = if i < k {
            i
        } else {
            i + 1
        };
        let jj = if j < k {
            j
        } else {
            j + 1
        };
        assert(seats[ii] < seats[jj]);
    }
    assert forall|p: u32| seats.contains(p) && p != seats[k] implies rest.contains(p) by {
        let i = choose|i: int| 0 <= i < seats.len() && seats[i] == p;
        if i < k {
            assert(rest[i] == p);
        } else {
            assert(rest[i - 1] == p);
        }
    }
    if rest.contains(seats[k]) {
        let i = choose|i: int| 0 <= i < rest.len() && rest[i] == seats[k];
        if i < k {
            assert(seats[i] < seats[k]);
        } else {
            assert(seats[k] < seats[i + 1]);
        }
    }
}

/// Putting a free seat in at its rank leaves ascending seats ascending, and
/// leaves every seat in.
pub proof fn lemma_insert_seat(seats: Seq<u32>, p: u32)
    requires
        strictly_ascending(seats),
        !seats.contains(p),
    ensures
        0 <= rank_of(seats, p) <= seats.len(),
        strictly_ascending(seats.insert(rank_of(seats, p), p)),
        seats.insert(rank_of(seats, p), p).contains(p),
        forall|q: u32| seats.contains(q) ==> seats.insert(rank_of(seats, p), p).contains(q),
{
    let k = lemma_rank_exists(seats, p);
    lemma_rank_unique(seats, p, k, k);
    let more = seats.insert(k, p);
    assert(more[k] == p);
    assert forall|i: int, j: int| 0 <= i < j < more.len() implies more[i] < more[j] by {
        if j < k {
            assert(seats[i] < seats[j]);
        } else if j == k {
            assert(seats[i] < p);
        } else if i < k {
            assert(seats[i] < p);
            assert(seats[j - 1] >= p);
        } else if i == k {
            assert(seats[j - 1] >= p);
            assert(seats.contains(seats[j - 1]));
        } else {
            assert(seats[i - 1] < seats[j - 1]);
        }
    }
    assert forall|q: u32| seats.contains(q) implies more.contains(q) by {
        let i = choose|i: int| 0 <= i < seats.len() && seats[i] == q;
        if i < k {
            assert(more[i] == q);
        } else {
            assert(more[i + 1] == q);
        }
    }
}

/// A join keeps the invariant, and lowers no seated player's score.
pub proof fn lemma_join_keeps_invariant(
    m: MatchState,
    preferred: u32,
    name: Seq<char>,
    color: Seq<char>,
    now: u64,
)
    requires
        m.wf(),
    ensures
        join_state(m, preferred, name, color, now).wf(),
        scores_kept(m.rows, join_state(m, preferred, name, color, now).rows),
{
    let n = join_state(m, preferred, name, color, now);
    lemma_same_seat_same_row(m);
    if seat_for(m.seats, preferred) is Some {
        let id = seat_for(m.seats, preferred)->0;
        lemma_seat_for_unused(m.seats, preferred);
        lemma_insert_seat(m.seats, id);
        let k = rank_of(m.seats, id);
        assert forall|i: int| 0 <= i < n.rows.len() implies (#[trigger] n.rows[i]).id
            == n.seats[i] by {
            if i < k {
                assert(n.rows[i] == m.rows[i]);
            } else if i > k {
                assert(n.rows[i] == m.rows[i - 1]);
            }
        }
        assert forall|i: int| 0 <= i < n.bombs.len() implies n.seats.contains(
            (#[trigger] n.bombs[i]).holder,
        ) by {
            if m.active() {
                assert(m.seats.contains(m.bombs[i].holder));
            }
        }
        assert forall|i: int, j: int|
            0 <= i < m.rows.len() && 0 <= j < n.rows.len() && m.rows[i].id
                == n.rows[j].id implies n.rows[j].score >= m.rows[i].score by {
            assert(m.rows[i].id == m.seats[i]);
            assert(m.seats.contains(m.seats[i]));
            if j < k {
                assert(n.rows[j] == m.rows[j]);
            } else if j > k {
                assert(n.rows[j] == m.rows[j - 1]);
            }
        }
    }
}

/// In a well-formed state two records of one seat are one record.
pub proof fn lemma_same_seat_same_row(m: MatchState)
    requires
        m.wf(),
    ensures
        forall|i: int, j: int|
            0 <= i < m.rows.len() && 0 <= j < m.rows.len() && m.rows[i].id == m.rows[j].id ==> i
                == j,
{
    assert forall|i: int, j: int|
        0 <= i < m.rows.len() && 0 <= j < m.rows.len() && m.rows[i].id == m.rows[j].id implies i
        == j by {
        assert(m.rows[i].id == m.seats[i]);
        assert(m.rows[j].id == m.seats[j]);
        if i < j {
            assert(m.seats[i] < m.seats[j]);
        }
        if j < i {
            assert(m.seats[j] < m.seats[i]);
        }
    }
}

/// A leave keeps the invariant (so every bomb is with a seated player, or
/// the match is over), and lowers no seated player's score.
pub proof fn lemma_leave_keeps_invariant(m: MatchState, player: u32, now: u64)
    requires
        m.wf(),
    ensures
        leave_state(m, player, now).wf(),
        scores_kept(m.rows, leave_state(m, player, now).rows),
        !leave_state(m, player, now).seats.contains(player),
{
    let n = leave_state(m, player, now);
    lemma_same_seat_same_row(m);
    if m.seats.contains(player) {
        let k = seat_index(m.seats, player);
        lemma_remove_seat(m.seats, k);
        let remaining = m.seats.remove(k);
        if remaining.len() > 0 {
            lemma_successor_in_ring(remaining, player);
            assert forall|i: int| 0 <= i < n.rows.len() implies (#[trigger] n.rows[i]).id
                == n.seats[i] by {
                if i < k {
                    assert(n.rows[i] == m.rows[i]);
                } else {
                    assert(n.rows[i] == m.rows[i + 1]);
                }
            }
            assert forall|i: int| 0 <= i < n.bombs.len() implies n.seats.contains(
                (#[trigger] n.bombs[i]).holder,
            ) by {
                assert(m.seats.contains(m.bombs[i].holder));
            }
            assert forall|i: int, j: int|
                0 <= i < m.rows.len() && 0 <= j < n.rows.len() && m.rows[i].id
                    == n.rows[j].id implies n.rows[j].score >= m.rows[i].score by {
                if j < k {
                    assert(n.rows[j] == m.rows[j]);
                } else {
                    assert(n.rows[j] == m.rows[j + 1]);
                }
            }
        }
    }
}

/// A reply keeps the invariant, and lowers no seated player's score.
pub proof fn lemma_reply_keeps_invariant(
    m: MatchState,
    index: u32,
    handle: u64,
    now: u64,
    result: Option<BombMoveAction>,
)
    requires
        m.wf(),
    ensures
        reply_state(m, index, handle, now, result).wf(),
        scores_kept(m.rows, reply_state(m, index, handle, now, result).rows),
{
    let n = reply_state(m, index, handle, now, result);
    lemma_same_seat_same_row(m);
    if m.awaits(index, handle) {
        let b = m.bombs[index as int];
        assert(m.seats.contains(b.holder));
        assert forall|i: int| 0 <= i < n.bombs.len() implies n.seats.contains(
            (#[trigger] n.bombs[i]).holder,
        ) by {
            assert(m.seats.contains(m.bombs[i].holder));
            if result is Some {
                lemma_step_stays_in_ring(m.seats, b.holder, result->0);
            }
        }
        if result is Some {
            lemma_record_of(m, b.holder);
        }
    }
}

/// Whatever comes in, the invariant holds afterwards and no seated player's
/// score has fallen.
pub proof fn lemma_event_keeps_invariant(m: MatchState, e: Event)
    requires
        m.wf(),
    ensures
        after(m, e).wf(),
        scores_kept(m.rows, after(m, e).rows),
{
    match e {
        Event::Join { preferred, name, color, now } => {
            lemma_join_keeps_invariant(m, preferred, name, color, now);
        },
        Event::Leave { player, now } => {
            lemma_leave_keeps_invariant(m, player, now);
        },
        Event::Reply { index, handle, now, result } => {
            lemma_reply_keeps_invariant(m, index, handle, now, result);
        },
    }
}

/// After any run of events the invariant holds: every bomb is with a seated
/// player, and the coordinator awaits one handle at most for each bomb.
pub proof fn lemma_run_keeps_invariant(m: MatchState, events: Seq<Event>)
    requires
        m.wf(),
    ensures
        after_all(m, events).wf(),
        forall|i: int|
            0 <= i < after_all(m, events).bombs.len() ==> after_all(m, events).seats.contains(
                (#[trigger] after_all(m, events).bombs[i]).holder,
            ),
        forall|index: u32, a: u64, b: u64|
            after_all(m, events).awaits(index, a) && after_all(m, events).awaits(index, b) ==> a
                == b,
    decreases events.len(),
{
    if events.len() > 0 {
        lemma_run_keeps_invariant(m, events.drop_last());
        lemma_event_keeps_invariant(after_all(m, events.drop_last()), events.last());
    }
}

/// A player who stays seated all through a run of events has at its end a
/// score that is no lower than at its start.
pub proof fn lemma_score_never_falls(m: MatchState, events: Seq<Event>, player: u32)
    requires
        m.wf(),
        forall|k: int|
            0 <= k <= events.len() ==> (#[trigger] after_all(m, events.take(k))).seats.contains(
                player,
            ),
    ensures
        score_of(after_all(m, events), player) >= score_of(m, player),
    decreases events.len(),
{
    if events.len() > 0 {
        let front = events.drop_last();
        assert forall|k: int| 0 <= k <= front.len() implies (#[trigger] after_all(
            m,
            front.take(k),
        )).seats.contains(player) by {
            assert(front.take(k) =~= events.take(k));
        }
        lemma_score_never_falls(m, front, player);
        let before = after_all(m, front);
        let last = after_all(m, events);
        lemma_run_keeps_invariant(m, front);
        lemma_event_keeps_invariant(before, events.last());
        assert(front.take(front.len() as int) =~= front);
        assert(events.take(events.len() as int) =~= events);
        assert(before.seats.contains(player));
        assert(last.seats.contains(player));
        lemma_record_of(before, player);
        lemma_record_of(last, player);
    }
}

} // verus!
