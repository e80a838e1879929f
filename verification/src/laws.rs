use vstd::prelude::*;

use crate::engine::deleted_col;
use crate::engine::inserted;
use crate::engine::move_row;
use crate::engine::moved;
use crate::store::col_dense;
use crate::store::col_has_id;
use crate::store::has_position;
use crate::store::ids_unique;
use crate::store::idx_of_id;
use crate::store::pos_of_id;
use crate::store::shift_row;
use crate::store::spanned;
use crate::store::PosRow;

verus! {

/// Density invariant, read back: a dense column has a card at position `k`
/// exactly for `0 <= k < n` — the positions are `0 .. n-1`, with neither
/// gap nor duplicate (`col_dense` includes injectivity).
pub proof fn lemma_density(rows: Seq<PosRow>)
    requires
        col_dense(rows),
    ensures
        forall|k: int| #[trigger] has_position(rows, k) <==> 0 <= k < rows.len(),
{
    assert forall|k: int| #[trigger] has_position(rows, k) implies 0 <= k < rows.len() by {
        let w = choose|i: int| 0 <= i < rows.len() && (#[trigger] rows[i]).position as int == k;
        assert(rows[w].position < rows.len());
    }
}

/// Density invariant at the board: every column of a well-formed board has
/// a card at position `k` exactly for `0 <= k < n`.  Every public mutation
/// of `Board` ensures well-formedness, so this holds after any sequence of
/// insert, move and delete operations.
pub proof fn lemma_board_density(b: crate::repo::Board, c: u64)
    requires
        b.wf(),
        b.has_column(c),
    ensures
        forall|k: int| #[trigger] has_position(b.column(c), k) <==> 0 <= k < b.column(c).len(),
{
    crate::store::lemma_store_wf_col(b.store.columns@, c);
    lemma_density(b.column(c));
}

/// Insert intent: after inserting card X at position `p`, X is reachable at
/// `p`; the prior occupant of `p`, and every card after it, now sits one
/// position higher; every card before `p` kept its row.
pub proof fn lemma_insert_intent(rows: Seq<PosRow>, card_id: u64, p: int)
    requires
        col_dense(rows),
        0 <= p <= rows.len(),
        rows.len() < usize::MAX,
    ensures
        inserted(rows, card_id, p).len() == rows.len() + 1,
        inserted(rows, card_id, p)[rows.len() as int] == (PosRow {
            card_id,
            position: p as usize,
        }),
        forall|i: int|
            0 <= i < rows.len() && (#[trigger] rows[i]).position as int >= p ==> inserted(
                rows,
                card_id,
                p,
            )[i].card_id == rows[i].card_id && inserted(rows, card_id, p)[i].position as int
                == rows[i].position + 1,
        forall|i: int|
            0 <= i < rows.len() && ((#[trigger] rows[i]).position as int) < p ==> inserted(
                rows,
                card_id,
                p,
            )[i] == rows[i],
{
    let t = inserted(rows, card_id, p);
    assert forall|i: int| 0 <= i < rows.len() implies #[trigger] t[i] == shift_row(
        rows[i],
        p,
        usize::MAX as int,
        1,
    ) by {
        assert(spanned(rows, p, usize::MAX as int, 1)[i] == shift_row(
            rows[i],
            p,
            usize::MAX as int,
            1,
        ));
    }
    assert forall|i: int|
        0 <= i < rows.len() && (#[trigger] rows[i]).position as int >= p implies t[i].card_id
        == rows[i].card_id && t[i].position as int == rows[i].position + 1 by {
        assert(rows[i].position < rows.len());
    }
}

/// Delete compaction: deleting the card at position `p` drops the count by
/// exactly one; every other card keeps its place if it sat below `p` and
/// moves down by one if it sat above `p`; the deleted card is gone.
pub proof fn lemma_delete_compaction(rows: Seq<PosRow>, id: u64)
    requires
        col_dense(rows),
        ids_unique(rows),
        col_has_id(rows, id),
    ensures
        deleted_col(rows, id).len() + 1 == rows.len(),
        forall|i: int|
            0 <= i < rows.len() && i != idx_of_id(rows, id) ==> ({
                let j = idx_of_id(rows, id);
                let t = deleted_col(rows, id);
                let ni = if i < j {
                    i
                } else {
                    i - 1
                };
                let q = (#[trigger] rows[i]).position as int;
                &&& t[ni].card_id == rows[i].card_id
                &&& t[ni].position as int == (if q > pos_of_id(rows, id) {
                    q - 1
                } else {
                    q
                })
            }),
        !col_has_id(deleted_col(rows, id), id),
{
    let j = idx_of_id(rows, id);
    assert(0 <= j < rows.len() && rows[j].card_id == id);
    let p = pos_of_id(rows, id);
    let r1 = rows.remove(j);
    rows.remove_ensures(j);
    let t = deleted_col(rows, id);
    assert forall|i: int| 0 <= i < t.len() implies #[trigger] t[i] == shift_row(
        r1[i],
        p + 1,
        usize::MAX as int,
        -1,
    ) by {
        assert(spanned(r1, p + 1, usize::MAX as int, -1)[i] == shift_row(
            r1[i],
            p + 1,
            usize::MAX as int,
            -1,
        ));
    }
    assert forall|i: int| 0 <= i < rows.len() && i != j implies ({
        let ni = if i < j {
            i
        } else {
            i - 1
        };
        let q = (#[trigger] rows[i]).position as int;
        &&& t[ni].card_id == rows[i].card_id
        &&& t[ni].position as int == (if q > p {
            q - 1
        } else {
            q
        })
    }) by {
        let ni = if i < j {
            i
        } else {
            i - 1
        };
        assert(r1[ni] == rows[i]);
        if i < j {
            assert(rows[i].position != rows[j].position);
        } else {
            assert(rows[j].position != rows[i].position);
        }
    }
    if col_has_id(t, id) {
        let w = idx_of_id(t, id);
        assert(0 <= w < t.len() && t[w].card_id == id);
        let o = if w < j {
            w
        } else {
            w + 1
        };
        assert(r1[w] == rows[o]);
        assert(rows[o].card_id == id);
        if o < j {
            assert(rows[o].card_id != rows[j].card_id);
        } else {
            assert(rows[j].card_id != rows[o].card_id);
        }
        assert(false);
    }
}

/// Move round trip: moving a card from its position `a` to any position
/// `b` inside the column and then back to `a` restores the original full
/// ordering of every card in the column.
pub proof fn lemma_move_round_trip(rows: Seq<PosRow>, card_id: u64, b: int)
    requires
        col_dense(rows),
        ids_unique(rows),
        col_has_id(rows, card_id),
        0 <= b < rows.len(),
        rows.len() <= usize::MAX,
    ensures
        moved(
            moved(rows, card_id, pos_of_id(rows, card_id), b),
            card_id,
            b,
            pos_of_id(rows, card_id),
        ) == rows,
{
    let a = pos_of_id(rows, card_id);
    let j = idx_of_id(rows, card_id);
    assert(0 <= j < rows.len() && rows[j].card_id == card_id);
    assert(rows[j].position < rows.len());
    let m1 = moved(rows, card_id, a, b);
    let m2 = moved(m1, card_id, b, a);
    assert forall|i: int| 0 <= i < rows.len() implies #[trigger] m2[i] == rows[i] by {
        assert(m1[i] == move_row(rows[i], card_id, a, b));
        assert(m2[i] == move_row(m1[i], card_id, b, a));
        if i != j {
            if i < j {
                assert(rows[i].card_id != rows[j].card_id);
                assert(rows[i].position != rows[j].position);
            } else {
                assert(rows[j].card_id != rows[i].card_id);
                assert(rows[j].position != rows[i].position);
            }
        }
    }
    assert(m2 =~= rows);
}

} // verus!
