use vstd::prelude::*;
use crate::packet::BombMoveAction;

verus! {

/// `true` when the seats are listed in strictly ascending order.
pub open spec fn strictly_ascending(seats: Seq<u32>) -> bool {
    forall|i: int, j: int| 0 <= i < j < seats.len() ==> seats[i] < seats[j]
}

/// `r` is the seat that follows `p`: the smallest seat strictly greater than
/// `p`, or the smallest seat of all when no seat is greater.
pub open spec fn is_successor(seats: Seq<u32>, p: u32, r: u32) -> bool {
    &&& seats.contains(r)
    &&& if exists|q: u32| seats.contains(q) && q > p {
        r > p && forall|q: u32| seats.contains(q) && q > p ==> r <= q
    } else {
        forall|q: u32| seats.contains(q) ==> r <= q
    }
}

/// `r` is the seat that precedes `p`: the largest seat strictly less than
/// `p`, or the largest seat of all when no seat is less.
pub open spec fn is_predecessor(seats: Seq<u32>, p: u32, r: u32) -> bool {
    &&& seats.contains(r)
    &&& if exists|q: u32| seats.contains(q) && q < p {
        r < p && forall|q: u32| seats.contains(q) && q < p ==> q <= r
    } else {
        forall|q: u32| seats.contains(q) ==> q <= r
    }
}

/// The seat that follows `p`, wrapping from the largest seat to the smallest.
pub open spec fn successor_of(seats: Seq<u32>, p: u32) -> u32 {
    choose|r: u32| is_successor(seats, p, r)
}

/// The seat that precedes `p`, wrapping from the smallest seat to the largest.
pub open spec fn predecessor_of(seats: Seq<u32>, p: u32) -> u32 {
    choose|r: u32| is_predecessor(seats, p, r)
}

/// Where a bomb held at `p` lands after `action`: one or two seats upward,
/// or one or three seats downward.
pub open spec fn step_of(seats: Seq<u32>, p: u32, action: BombMoveAction) -> u32 {
    match action {
        BombMoveAction::R1 => successor_of(seats, p),
        BombMoveAction::R2 => successor_of(seats, successor_of(seats, p)),
        BombMoveAction::L1 => predecessor_of(seats, p),
        BombMoveAction::L3 => predecessor_of(
            seats,
            predecessor_of(seats, predecessor_of(seats, p)),
        ),
    }
}

/// In ascending seats, the number of seats below `p`; this is also the index
/// at which `p` stands, or at which it would have to be inserted.
pub open spec fn is_rank(seats: Seq<u32>, p: u32, k: int) -> bool {
    &&& 0 <= k <= seats.len()
    &&& forall|i: int| 0 <= i < k ==> seats[i] < p
    &&& forall|i: int| k <= i < seats.len() ==> seats[i] >= p
}

/// The rank of `p` among the seats.
pub open spec fn rank_of(seats: Seq<u32>, p: u32) -> int {
    choose|k: int| is_rank(seats, p, k)
}

/// A pivot has one rank only.
pub proof fn lemma_rank_unique(seats: Seq<u32>, p: u32, a: int, b: int)
    requires
        is_rank(seats, p, a),
        is_rank(seats, p, b),
    ensures
        a == b,
        rank_of(seats, p) == a,
{
    let c = rank_of(seats, p);
    if a < b {
        assert(seats[a] < p);
    }
    if b < a {
        assert(seats[b] < p);
    }
    if a < c {
        assert(seats[a] < p);
    }
    if c < a {
        assert(seats[c] < p);
    }
}

/// Every pivot has a rank in ascending seats.
pub proof fn lemma_rank_exists(seats: Seq<u32>, p: u32) -> (k: int)
    requires
        strictly_ascending(seats),
    ensures
        is_rank(seats, p, k),
    decreases seats.len(),
{
    if seats.len() == 0 {
        0
    } else if seats.last() < p {
        seats.len() as int
    } else {
        let front = seats.drop_last();
        assert(forall|i: int| 0 <= i < front.len() ==> front[i] == seats[i]);
        let k = lemma_rank_exists(front, p);
        assert forall|i: int| k <= i < seats.len() implies seats[i] >= p by {
            if i < front.len() {
                assert(front[i] >= p);
            }
        }
        assert forall|i: int| 0 <= i < k implies seats[i] < p by {
            assert(front[i] < p);
        }
        k
    }
}

/// At most one seat follows a pivot.
pub proof fn lemma_successor_unique(seats: Seq<u32>, p: u32, a: u32, b: u32)
    requires
        is_successor(seats, p, a),
        is_successor(seats, p, b),
    ensures
        a == b,
{
}

/// At most one seat precedes a pivot.
pub proof fn lemma_predecessor_unique(seats: Seq<u32>, p: u32, a: u32, b: u32)
    requires
        is_predecessor(seats, p, a),
        is_predecessor(seats, p, b),
    ensures
        a == b,
{
}

/// In ascending seats the successor is read off the pivot's rank: the seat
/// at the first index whose seat exceeds the pivot, or the first seat.
pub proof fn lemma_successor_at(seats: Seq<u32>, p: u32, k: int)
    requires
        strictly_ascending(seats),
        seats.len() > 0,
        0 <= k <= seats.len(),
        forall|i: int| 0 <= i < k ==> seats[i] <= p,
        forall|i: int| k <= i < seats.len() ==> seats[i] > p,
    ensures
        is_successor(seats, p, if k < seats.len() { seats[k] } else { seats[0] }),
        successor_of(seats, p) == if k < seats.len() { seats[k] } else { seats[0] },
{
    let r = if k < seats.len() { seats[k] } else { seats[0] };
    assert(seats.contains(r));
    if k < seats.len() {
        assert(seats.contains(seats[k]) && seats[k] > p);
    }
    assert(is_successor(seats, p, r));
    lemma_successor_unique(seats, p, r, successor_of(seats, p));
}

/// In ascending seats the predecessor is read off the pivot's rank: the seat
/// just before the rank, or the last seat.
pub proof fn lemma_predecessor_at(seats: Seq<u32>, p: u32, k: int)
    requires
        strictly_ascending(seats),
        seats.len() > 0,
        is_rank(seats, p, k),
    ensures
        is_predecessor(seats, p, if k > 0 { seats[k - 1] } else { seats.last() }),
        predecessor_of(seats, p) == if k > 0 { seats[k - 1] } else { seats.last() },
{
    let r = if k > 0 { seats[k - 1] } else { seats.last() };
    assert(seats.contains(r));
    if k > 0 {
        assert(seats.contains(seats[k - 1]) && seats[k - 1] < p);
    }
    assert(is_predecessor(seats, p, r));
    lemma_predecessor_unique(seats, p, r, predecessor_of(seats, p));
}

/// A non-empty ring gives every pivot a successor, and it is a seat of the
/// ring.
pub proof fn lemma_successor_in_ring(seats: Seq<u32>, p: u32)
    requires
        strictly_ascending(seats),
        seats.len() > 0,
    ensures
        is_successor(seats, p, successor_of(seats, p)),
        seats.contains(successor_of(seats, p)),
{
    let k = lemma_rank_exists(seats, p);
    if k < seats.len() && seats[k] == p {
        lemma_successor_at(seats, p, k + 1);
    } else {
        lemma_successor_at(seats, p, k);
    }
}

/// A non-empty ring gives every pivot a predecessor, and it is a seat of the
/// ring.
pub proof fn lemma_predecessor_in_ring(seats: Seq<u32>, p: u32)
    requires
        strictly_ascending(seats),
        seats.len() > 0,
    ensures
        is_predecessor(seats, p, predecessor_of(seats, p)),
        seats.contains(predecessor_of(seats, p)),
{
    let k = lemma_rank_exists(seats, p);
    lemma_predecessor_at(seats, p, k);
}

/// Stepping never leaves the ring: whatever the pivot and the action, the
/// seat reached is a seat of the (non-empty) ring.
pub proof fn lemma_step_stays_in_ring(seats: Seq<u32>, p: u32, action: BombMoveAction)
    requires
        strictly_ascending(seats),
        seats.len() > 0,
    ensures
        seats.contains(step_of(seats, p, action)),
{
    lemma_successor_in_ring(seats, p);
    lemma_successor_in_ring(seats, successor_of(seats, p));
    lemma_predecessor_in_ring(seats, p);
    lemma_predecessor_in_ring(seats, predecessor_of(seats, p));
    lemma_predecessor_in_ring(seats, predecessor_of(seats, predecessor_of(seats, p)));
}

/// The seats of one match, kept in ascending order; numerical order is
/// seating order, and both neighbour queries wrap around the ends.
pub struct SeatingRing {
    seats: Vec<u32>,
}

impl View for SeatingRing {
    type V = Set<u32>;

    /// The ring as the set of its seats.
    open spec fn view(&self) -> Set<u32> {
        self.seats().to_set()
    }
}

impl SeatingRing {
    /// The seats in seating order.
    pub closed spec fn seats(&self) -> Seq<u32> {
        self.seats@
    }

    /// The seats are strictly ascending, so none occurs twice.
    pub open spec fn wf(&self) -> bool {
        strictly_ascending(self.seats())
    }

    /// `p` is seated.
    pub open spec fn has(&self, p: u32) -> bool {
        self.seats().contains(p)
    }

    pub fn new() -> (ring: SeatingRing)
        ensures
            ring.wf(),
            ring.seats() == Seq::<u32>::empty(),
    {
        SeatingRing { seats: Vec::new() }
    }

    pub fn len(&self) -> (n: usize)
        ensures
            n == self.seats().len(),
    {
        self.seats.len()
    }

    pub fn is_empty(&self) -> (b: bool)
        ensures
            b == (self.seats().len() == 0),
    {
        self.seats.len() == 0
    }

    /// The seat at index `i` of the seating order.
    pub fn seat_at(&self, i: usize) -> (p: u32)
        requires
            i < self.seats().len(),
        ensures
            p == self.seats()[i as int],
    {
        self.seats[i]
    }

    /// The number of seats below `p`, found by halving the range.
    pub fn rank(&self, p: u32) -> (k: usize)
        requires
            self.wf(),
        ensures
            is_rank(self.seats(), p, k as int),
    {
        let mut lo: usize = 0;
        let mut hi: usize = self.seats.len();
        while lo < hi
            invariant
                self.wf(),
                0 <= lo <= hi <= self.seats@.len(),
                forall|i: int| 0 <= i < lo ==> self.seats@[i] < p,
                forall|i: int| hi <= i < self.seats@.len() ==> self.seats@[i] >= p,
            decreases hi - lo,
        {
            let mid: usize = lo + (hi - lo) / 2;
            if self.seats[mid] < p {
                lo = mid + 1;
            } else {
                hi = mid;
            }
        }
        lo
    }

    /// The index at which `p` is seated, if it is.
    pub fn position(&self, p: u32) -> (pos: Option<usize>)
        requires
            self.wf(),
        ensures
            match pos {
                Some(k) => k < self.seats().len() && self.seats()[k as int] == p,
                None => !self.has(p),
            },
    {
        let k = self.rank(p);
        if k < self.seats.len() && self.seats[k] == p {
            Some(k)
        } else {
            None
        }
    }

    pub fn contains(&self, p: u32) -> (b: bool)
        requires
            self.wf(),
        ensures
            b == self.has(p),
            b == self@.contains(p),
    {
        self.position(p).is_some()
    }

    /// The smallest seat, if any.
    pub fn first(&self) -> (m: Option<u32>)
        requires
            self.wf(),
        ensures
            m is None <==> self.seats().len() == 0,
            m is Some ==> self.has(m->0) && forall|q: u32| self.has(q) ==> m->0 <= q,
            m is Some ==> m->0 == self.seats()[0],
    {
        if self.seats.len() == 0 {
            None
        } else {
            Some(self.seats[0])
        }
    }

    /// The largest seat, if any.
    pub fn last(&self) -> (m: Option<u32>)
        requires
            self.wf(),
        ensures
            m is None <==> self.seats().len() == 0,
            m is Some ==> self.has(m->0) && forall|q: u32| self.has(q) ==> q <= m->0,
            m is Some ==> m->0 == self.seats().last(),
    {
        let n = self.seats.len();
        if n == 0 {
            None
        } else {
            Some(self.seats[n - 1])
        }
    }

    /// Seats `p`. Returns the index at which it was put, or `None` when it
    /// was seated already and the ring is unchanged.
    pub fn insert(&mut self, p: u32) -> (pos: Option<usize>)
        requires
            old(self).wf(),
        ensures
            final(self).wf(),
            final(self)@ == old(self)@.insert(p),
            match pos {
                Some(k) => {
                    &&& !old(self).has(p)
                    &&& is_rank(old(self).seats(), p, k as int)
                    &&& final(self).seats() == old(self).seats().insert(k as int, p)
                },
                None => old(self).has(p) && final(self).seats() == old(self).seats(),
            },
    {
        let k = self.rank(p);
        if k < self.seats.len() && self.seats[k] == p {
            proof {
                assert(self@ =~= self@.insert(p));
            }
            None
        } else {
            let ghost before = self.seats@;
            self.seats.insert(k, p);
            proof {
                let after = self.seats@;
                assert(after == before.insert(k as int, p));
                assert forall|x: u32| after.contains(x) <==> (before.contains(x) || x == p) by {
                    if after.contains(x) {
                        let i = choose|i: int| 0 <= i < after.len() && after[i] == x;
                        if i < k {
                            assert(before[i] == x);
                        } else if i > k {
                            assert(before[i - 1] == x);
                        }
                    }
                    if before.contains(x) {
                        let i = choose|i: int| 0 <= i < before.len() && before[i] == x;
                        if i < k {
                            assert(after[i] == x);
                        } else {
                            assert(after[i + 1] == x);
                        }
                    }
                    if x == p {
                        assert(after[k as int] == x);
                    }
                }
                assert(after.to_set() =~= before.to_set().insert(p));
            }
            Some(k)
        }
    }

    /// Unseats `p`. Returns the index it stood at, or `None` when it was not
    /// seated and the ring is unchanged.
    pub fn remove(&mut self, p: u32) -> (pos: Option<usize>)
        requires
            old(self).wf(),
        ensures
            final(self).wf(),
            final(self)@ == old(self)@.remove(p),
            !final(self).has(p),
            match pos {
                Some(k) => {
                    &&& k < old(self).seats().len()
                    &&& old(self).seats()[k as int] == p
                    &&& final(self).seats() == old(self).seats().remove(k as int)
                },
                None => !old(self).has(p) && final(self).seats() == old(self).seats(),
            },
    {
        let k = self.rank(p);
        if k < self.seats.len() && self.seats[k] == p {
            let ghost before = self.seats@;
            self.seats.remove(k);
            proof {
                let after = self.seats@;
                assert(after == before.remove(k as int));
                assert forall|x: u32| after.contains(x) <==> (before.contains(x) && x != p) by {
                    if after.contains(x) {
                        let i = choose|i: int| 0 <= i < after.len() && after[i] == x;
                        if i < k {
                            assert(before[i] == x);
                        } else {
                            assert(before[i + 1] == x);
                        }
                    }
                    if before.contains(x) && x != p {
                        let i = choose|i: int| 0 <= i < before.len() && before[i] == x;
                        if i < k {
                            assert(after[i] == x);
                        } else {
                            assert(after[i - 1] == x);
                        }
                    }
                }
                assert(after.to_set() =~= before.to_set().remove(p));
            }
            Some(k)
        } else {
            proof {
                assert(self@ =~= self@.remove(p));
            }
            None
        }
    }

    /// The seat that follows `p`; `p` itself need not be seated.
    pub fn successor(&self, p: u32) -> (r: u32)
        requires
            self.wf(),
            self.seats().len() > 0,
        ensures
            is_successor(self.seats(), p, r),
            r == successor_of(self.seats(), p),
            self.has(r),
    {
        let k = self.rank(p);
        let n = self.seats.len();
        let above: usize = if k < n && self.seats[k] == p {
            k + 1
        } else {
            k
        };
        proof {
            lemma_successor_at(self.seats@, p, above as int);
        }
        if above < n {
            self.seats[above]
        } else {
            self.seats[0]
        }
    }

    /// The seat that precedes `p`; `p` itself need not be seated.
    pub fn predecessor(&self, p: u32) -> (r: u32)
        requires
            self.wf(),
            self.seats().len() > 0,
        ensures
            is_predecessor(self.seats(), p, r),
            r == predecessor_of(self.seats(), p),
            self.has(r),
    {
        let k = self.rank(p);
        proof {
            lemma_predecessor_at(self.seats@, p, k as int);
        }
        if k > 0 {
            self.seats[k - 1]
        } else {
            self.seats[self.seats.len() - 1]
        }
    }

    /// Where a bomb held at `p` lands after `action`.
    pub fn step(&self, p: u32, action: BombMoveAction) -> (r: u32)
        requires
            self.wf(),
            self.seats().len() > 0,
        ensures
            r == step_of(self.seats(), p, action),
            self.has(r),
    {
        match action {
            BombMoveAction::R1 => self.successor(p),
            BombMoveAction::R2 => self.successor(self.successor(p)),
            BombMoveAction::L1 => self.predecessor(p),
            BombMoveAction::L3 => self.predecessor(self.predecessor(self.predecessor(p))),
        }
    }
}

} // verus!
