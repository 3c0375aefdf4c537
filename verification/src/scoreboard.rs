use vstd::prelude::*;
use vstd::seq_lib::{to_multiset_contains, to_multiset_insert, to_multiset_remove};
use vstd::string::StringExecFns;
use crate::text::{decimal, push_decimal};

verus! {

/// What the coordinator keeps of one seated player.
#[derive(Debug, Clone)]
pub struct PlayerRecord {
    pub id: u32,
    pub name: String,
    pub color: String,
    pub score: u32,
}

/// A player record as contracts see it: the texts as sequences of
/// characters.
pub struct PlayerRow {
    pub id: u32,
    pub name: Seq<char>,
    pub color: Seq<char>,
    pub score: u32,
}

impl View for PlayerRecord {
    type V = PlayerRow;

    open spec fn view(&self) -> PlayerRow {
        PlayerRow { id: self.id, name: self.name@, color: self.color@, score: self.score }
    }
}

/// The rows of a list of records, in the same order.
pub open spec fn rows_of(records: Seq<PlayerRecord>) -> Seq<PlayerRow> {
    Seq::new(records.len(), |i: int| records[i]@)
}

/// `a` stands above `b` on the board: a higher score, or the same score and
/// a higher seat.
pub open spec fn outranks(a: PlayerRow, b: PlayerRow) -> bool {
    a.score > b.score || (a.score == b.score && a.id > b.id)
}

/// The index of the row that no other row outranks (the first such row);
/// 0 for an empty list.
pub open spec fn top_of(rows: Seq<PlayerRow>) -> int
    decreases rows.len(),
{
    if rows.len() <= 1 {
        0
    } else {
        let k = top_of(rows.drop_last());
        if outranks(rows.last(), rows[k]) {
            rows.len() - 1
        } else {
            k
        }
    }
}

/// The rows in board order: the top row, then the ranking of the others.
pub open spec fn ranking_of(rows: Seq<PlayerRow>) -> Seq<PlayerRow>
    decreases rows.len(),
{
    if rows.len() == 0 {
        Seq::empty()
    } else {
        proof {
            lemma_top_is_best(rows, 0);
        }
        let k = top_of(rows);
        seq![rows[k]] + ranking_of(rows.remove(k))
    }
}

/// The three lines of one row: name, colour, score, each closed by a line
/// break.
pub open spec fn row_text(r: PlayerRow) -> Seq<char> {
    r.name.push('\n') + r.color.push('\n') + decimal(r.score as nat).push('\n')
}

/// The texts of the rows, one after the other.
pub open spec fn rows_text(rows: Seq<PlayerRow>) -> Seq<char>
    decreases rows.len(),
{
    if rows.len() == 0 {
        Seq::empty()
    } else {
        row_text(rows[0]) + rows_text(rows.drop_first())
    }
}

/// The scoreboard of the given rows: their texts in board order.
pub open spec fn board_of(rows: Seq<PlayerRow>) -> Seq<char> {
    rows_text(ranking_of(rows))
}

/// Board order is a strict total order on the players: no two outrank each
/// other, the order carries over a row in between, and of two rows with
/// different seats one outranks the other.
pub proof fn lemma_outranks_orders(a: PlayerRow, b: PlayerRow, c: PlayerRow)
    ensures
        !(outranks(a, b) && outranks(b, a)),
        outranks(a, b) && outranks(b, c) ==> outranks(a, c),
        a.id != b.id ==> outranks(a, b) || outranks(b, a),
{
}

/// The top row is a row of the list, and none outranks it.
pub proof fn lemma_top_is_best(rows: Seq<PlayerRow>, i: int)
    requires
        0 <= i < rows.len(),
    ensures
        0 <= top_of(rows) < rows.len(),
        !outranks(rows[i], rows[top_of(rows)]),
    decreases rows.len(),
{
    if rows.len() > 1 {
        let front = rows.drop_last();
        lemma_top_is_best(front, 0);
        if i < front.len() {
            lemma_top_is_best(front, i);
        }
    }
}

/// The ranking holds as many rows as the list, and each of them is a row of
/// the list.
pub proof fn lemma_ranking_members(rows: Seq<PlayerRow>, i: int)
    requires
        0 <= i < rows.len(),
    ensures
        ranking_of(rows).len() == rows.len(),
        rows.contains(ranking_of(rows)[i]),
    decreases rows.len(),
{
    lemma_ranking_len(rows);
    let k = top_of(rows);
    lemma_top_is_best(rows, 0);
    if i > 0 {
        let rest = rows.remove(k);
        lemma_ranking_members(rest, i - 1);
        let r = ranking_of(rest)[i - 1];
        let m = choose|m: int| 0 <= m < rest.len() && rest[m] == r;
        if m < k {
            assert(rows[m] == r);
        } else {
            assert(rows[m + 1] == r);
        }
    }
}

/// The ranking holds as many rows as the list.
pub proof fn lemma_ranking_len(rows: Seq<PlayerRow>)
    ensures
        ranking_of(rows).len() == rows.len(),
    decreases rows.len(),
{
    if rows.len() > 0 {
        lemma_top_is_best(rows, 0);
        lemma_ranking_len(rows.remove(top_of(rows)));
    }
}

/// The ranking holds the rows of the list, each as often as the list does.
pub proof fn lemma_ranking_permutes(rows: Seq<PlayerRow>)
    ensures
        ranking_of(rows).to_multiset() == rows.to_multiset(),
    decreases rows.len(),
{
    if rows.len() > 0 {
        lemma_top_is_best(rows, 0);
        let k = top_of(rows);
        let rest = rows.remove(k);
        let ranked = ranking_of(rest);
        lemma_ranking_permutes(rest);
        to_multiset_remove(rows, k);
        to_multiset_insert(ranked, 0, rows[k]);
        to_multiset_contains(rows, rows[k]);
        assert(rows.contains(rows[k]));
        assert(seq![rows[k]] + ranked =~= ranked.insert(0, rows[k]));
        assert(rows.to_multiset().remove(rows[k]).insert(rows[k]) =~= rows.to_multiset());
    } else {
        assert(ranking_of(rows) =~= rows);
    }
}

/// Board order: of two rows of the ranking, the earlier has the higher
/// score, or the same score and a seat that is not lower.
pub proof fn lemma_ranking_descends(rows: Seq<PlayerRow>, i: int, j: int)
    requires
        0 <= i < j < rows.len(),
    ensures
        ranking_of(rows).len() == rows.len(),
        ranking_of(rows)[i].score > ranking_of(rows)[j].score || (ranking_of(rows)[i].score
            == ranking_of(rows)[j].score && ranking_of(rows)[i].id >= ranking_of(rows)[j].id),
    decreases rows.len(),
{
    lemma_ranking_len(rows);
    let k = top_of(rows);
    lemma_top_is_best(rows, 0);
    let rest = rows.remove(k);
    lemma_ranking_len(rest);
    if i == 0 {
        lemma_ranking_members(rest, j - 1);
        let r = ranking_of(rest)[j - 1];
        let m = choose|m: int| 0 <= m < rest.len() && rest[m] == r;
        if m < k {
            lemma_top_is_best(rows, m);
        } else {
            lemma_top_is_best(rows, m + 1);
        }
    } else {
        lemma_ranking_descends(rest, i - 1, j - 1);
    }
}

/// The rows of the records that `picked` lists, in its order.
pub open spec fn rows_at(records: Seq<PlayerRecord>, picked: Seq<usize>) -> Seq<PlayerRow> {
    Seq::new(picked.len(), |i: int| records[picked[i] as int]@)
}

/// The place in `picked` of the top row among the records it lists.
fn top_record(records: &Vec<PlayerRecord>, picked: &Vec<usize>) -> (k: usize)
    requires
        picked.len() > 0,
        forall|i: int| 0 <= i < picked.len() ==> picked[i] < records.len(),
    ensures
        k == top_of(rows_at(records@, picked@)),
        k < picked.len(),
{
    let mut best: usize = 0;
    let mut i: usize = 1;
    proof {
        assert(rows_at(records@, picked@).take(1).len() == 1);
    }
    while i < picked.len()
        invariant
            1 <= i <= picked.len(),
            best < i,
            forall|i: int| 0 <= i < picked.len() ==> picked[i] < records.len(),
            best == top_of(rows_at(records@, picked@).take(i as int)),
        decreases picked.len() - i,
    {
        proof {
            let rows = rows_at(records@, picked@);
            assert(rows.take(i + 1).drop_last() =~= rows.take(i as int));
        }
        let challenger = &records[picked[i]];
        let holder = &records[picked[best]];
        let higher = challenger.score > holder.score || (challenger.score == holder.score
            && challenger.id > holder.id);
        if higher {
            best = i;
        }
        i += 1;
    }
    proof {
        let rows = rows_at(records@, picked@);
        assert(rows.take(rows.len() as int) =~= rows);
    }
    best
}

/// Appends the three lines of `record` to `out`.
fn push_row(out: &mut String, record: &PlayerRecord)
    ensures
        final(out)@ == old(out)@ + row_text(record@),
{
    proof {
        reveal_strlit("\n");
    }
    out.append(record.name.as_str());
    out.append("\n");
    out.append(record.color.as_str());
    out.append("\n");
    push_decimal(out, record.score);
    out.append("\n");
    proof {
        assert(final(out)@ =~= old(out)@ + row_text(record@));
    }
}

/// The scoreboard text: three lines for each player, in descending order of
/// score, players of equal score in descending order of seat.
pub fn scoreboard(records: &Vec<PlayerRecord>) -> (board: String)
    ensures
        board@ == board_of(rows_of(records@)),
{
    let mut rest: Vec<usize> = Vec::new();
    let mut i: usize = 0;
    while i < records.len()
        invariant
            i <= records.len(),
            rest@.len() == i,
            forall|j: int| 0 <= j < i ==> rest@[j] == j,
        decreases records.len() - i,
    {
        rest.push(i);
        i += 1;
    }
    let mut out = String::new();
    proof {
        assert(rows_at(records@, rest@) =~= rows_of(records@));
    }
    while rest.len() > 0
        invariant
            forall|j: int| 0 <= j < rest.len() ==> rest[j] < records.len(),
            out@ + board_of(rows_at(records@, rest@)) == board_of(rows_of(records@)),
        decreases rest.len(),
    {
        let ghost before = rows_at(records@, rest@);
        let ghost written = out@;
        let k = top_record(records, &rest);
        let at = rest.remove(k);
        push_row(&mut out, &records[at]);
        proof {
            let after = rows_at(records@, rest@);
            let row = records@[at as int]@;
            assert(after =~= before.remove(k as int));
            let ranked = ranking_of(before);
            assert(ranked == seq![before[k as int]] + ranking_of(after));
            assert(ranked.drop_first() =~= ranking_of(after));
            assert(ranked[0] == row);
            assert(written + (row_text(row) + board_of(after)) =~= (written + row_text(row))
                + board_of(after));
        }
    }
    proof {
        assert(out@ + Seq::<char>::empty() =~= out@);
    }
    out
}

} // verus!
