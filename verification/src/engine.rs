use vstd::prelude::*;

use crate::store::clamped;
use crate::store::col_dense;
use crate::store::col_has_id;
use crate::store::contains_card;
use crate::store::has_position;
use crate::store::ids_unique;
use crate::store::idx_of_id;
use crate::store::lemma_store_wf_by_cols;
use crate::store::lemma_store_wf_col;
use crate::store::pos_of_id;
use crate::store::shift_row;
use crate::store::spanned;
use crate::store::spec_col;
use crate::store::spec_has_col;
use crate::store::store_wf;
use crate::store::total_cards;
use crate::store::PosRow;
use crate::store::PositionStore;
use crate::store::ShiftDelta;

verus! {

/// A column after the engine's insert: the gap at `p` opened, the new row
/// appended at position `p`.
pub open spec fn inserted(rows: Seq<PosRow>, card_id: u64, p: int) -> Seq<PosRow> {
    spanned(rows, p, usize::MAX as int, 1).push(PosRow { card_id, position: p as usize })
}

/// A column after the engine's delete of the row carrying `id`: the row
/// removed, every later position compacted down by one.
pub open spec fn deleted_col(rows: Seq<PosRow>, id: u64) -> Seq<PosRow> {
    spanned(
        rows.remove(idx_of_id(rows, id)),
        pos_of_id(rows, id) + 1,
        usize::MAX as int,
        -1,
    )
}

/// Pointwise effect of a same-column move from position `a` to `b`: the
/// moved card lands on `b`, only the rows strictly between the two
/// positions are renumbered, everything else stays put.
pub open spec fn move_row(r: PosRow, card_id: u64, a: int, b: int) -> PosRow {
    if r.card_id == card_id {
        PosRow { card_id: r.card_id, position: b as usize }
    } else if (a < b && a < r.position as int && r.position as int <= b) {
        PosRow { card_id: r.card_id, position: (r.position - 1) as usize }
    } else if (b < a && b <= r.position as int && (r.position as int) < a) {
        PosRow { card_id: r.card_id, position: (r.position + 1) as usize }
    } else {
        r
    }
}

/// A column after a same-column move of `card_id` from position `a` to `b`.
pub open spec fn moved(rows: Seq<PosRow>, card_id: u64, a: int, b: int) -> Seq<PosRow> {
    Seq::new(rows.len(), |i: int| move_row(rows[i], card_id, a, b))
}

/// Inserting at a clamped position keeps the column dense.
pub proof fn lemma_inserted_dense(rows: Seq<PosRow>, card_id: u64, p: int)
    requires
        col_dense(rows),
        0 <= p <= rows.len(),
        rows.len() < usize::MAX,
    ensures
        col_dense(inserted(rows, card_id, p)),
        inserted(rows, card_id, p).len() == rows.len() + 1,
{
    let t = inserted(rows, card_id, p);
    let n = rows.len() as int;
    assert forall|i: int| 0 <= i < n implies #[trigger] t[i] == shift_row(
        rows[i],
        p,
        usize::MAX as int,
        1,
    ) by {
        assert(spanned(rows, p, usize::MAX as int, 1)[i] == shift_row(
            rows[i],
            p,
            usize::MAX as int,
            1,
        ));
    }
    assert(t[n] == PosRow { card_id, position: p as usize });
    assert forall|i: int, j: int| 0 <= i < j < t.len() implies (#[trigger] t[i]).position != (
    #[trigger] t[j]).position by {
        if j < n {
            assert(rows[i].position != rows[j].position);
        } else {
            assert(rows[i].position < rows.len());
        }
    }
    assert forall|i: int| 0 <= i < t.len() implies (#[trigger] t[i]).position < t.len() by {
        if i < n {
            assert(rows[i].position < rows.len());
        }
    }
    assert forall|k: int| 0 <= k < t.len() implies #[trigger] has_position(t, k) by {
        if k == p {
            assert(t[n].position as int == k);
        } else if k < p {
            assert(has_position(rows, k));
            let w = choose|i: int|
                0 <= i < rows.len() && (#[trigger] rows[i]).position as int == k;
            assert(t[w].position as int == k);
        } else {
            assert(0 <= k - 1 < n);
            assert(has_position(rows, k - 1));
            let w = choose|i: int|
                0 <= i < rows.len() && (#[trigger] rows[i]).position as int == k - 1;
            assert(rows[w].position as int >= p);
            assert(t[w].position as int == k);
        }
    }
}

/// Deleting a row and compacting keeps the column dense.
pub proof fn lemma_deleted_dense(rows: Seq<PosRow>, id: u64)
    requires
        col_dense(rows),
        col_has_id(rows, id),
    ensures
        col_dense(deleted_col(rows, id)),
        deleted_col(rows, id).len() + 1 == rows.len(),
{
    let j = idx_of_id(rows, id);
    assert(0 <= j < rows.len() && rows[j].card_id == id);
    let p = pos_of_id(rows, id);
    let r1 = rows.remove(j);
    rows.remove_ensures(j);
    let t = deleted_col(rows, id);
    let n = rows.len() as int;
    assert(t.len() == n - 1);
    assert forall|i: int| 0 <= i < n - 1 implies #[trigger] t[i] == shift_row(
        r1[i],
        p + 1,
        usize::MAX as int,
        -1,
    ) by {
        assert(spanned(r1, p + 1, usize::MAX as int, -1)[i] == shift_row(
            r1[i],
            p + 1,
            usize::MAX as int,
            -1,
        ));
    }
    assert forall|i: int| 0 <= i < n - 1 implies r1[i] == rows[if i < j {
        i
    } else {
        i + 1
    }] && (#[trigger] r1[i]).position != p by {
        if i < j {
            assert(r1[i] == rows[i]);
            if i < j {
                assert(rows[i].position != rows[j].position);
            }
        } else {
            assert(r1[i] == rows[i + 1]);
            assert(rows[j].position != rows[i + 1].position);
        }
    }
    assert forall|i1: int, i2: int| 0 <= i1 < i2 < t.len() implies (#[trigger] t[i1]).position != (
    #[trigger] t[i2]).position by {
        let o1 = if i1 < j {
            i1
        } else {
            i1 + 1
        };
        let o2 = if i2 < j {
            i2
        } else {
            i2 + 1
        };
        assert(rows[o1].position != rows[o2].position);
    }
    assert forall|i: int| 0 <= i < t.len() implies (#[trigger] t[i]).position < t.len() by {
        let o = if i < j {
            i
        } else {
            i + 1
        };
        assert(rows[o].position < rows.len());
        assert(rows[j].position < rows.len());
    }
    assert forall|k: int| 0 <= k < t.len() implies #[trigger] has_position(t, k) by {
        if k < p {
            assert(has_position(rows, k));
            let w = choose|i: int|
                0 <= i < rows.len() && (#[trigger] rows[i]).position as int == k;
            assert(w != j);
            let w1 = if w < j {
                w
            } else {
                w - 1
            };
            assert(r1[w1] == rows[w]);
            assert(t[w1].position as int == k);
        } else {
            assert(0 <= k + 1 < n);
            assert(has_position(rows, k + 1));
            let w = choose|i: int|
                0 <= i < rows.len() && (#[trigger] rows[i]).position as int == k + 1;
            assert(w != j);
            let w1 = if w < j {
                w
            } else {
                w - 1
            };
            assert(r1[w1] == rows[w]);
            assert(t[w1].position as int == k);
        }
    }
}

/// A same-column move to a position inside the column keeps it dense.
pub proof fn lemma_moved_dense(rows: Seq<PosRow>, card_id: u64, a: int, b: int)
    requires
        col_dense(rows),
        ids_unique(rows),
        col_has_id(rows, card_id),
        pos_of_id(rows, card_id) == a,
        0 <= b < rows.len(),
        rows.len() <= usize::MAX,
    ensures
        col_dense(moved(rows, card_id, a, b)),
        moved(rows, card_id, a, b).len() == rows.len(),
{
    let j = idx_of_id(rows, card_id);
    assert(0 <= j < rows.len() && rows[j].card_id == card_id);
    assert(rows[j].position as int == a);
    assert(rows[j].position < rows.len());
    let t = moved(rows, card_id, a, b);
    let n = rows.len() as int;
    assert forall|i: int| 0 <= i < n implies #[trigger] t[i] == move_row(
        rows[i],
        card_id,
        a,
        b,
    ) by {}
    assert forall|i: int| 0 <= i < n && i != j implies (#[trigger] rows[i]).card_id != card_id && (
    #[trigger] rows[i]).position as int != a by {
        if i < j {
            assert(rows[i].card_id != rows[j].card_id);
            assert(rows[i].position != rows[j].position);
        } else {
            assert(rows[j].card_id != rows[i].card_id);
            assert(rows[j].position != rows[i].position);
        }
    }
    assert forall|i1: int, i2: int| 0 <= i1 < i2 < t.len() implies (#[trigger] t[i1]).position != (
    #[trigger] t[i2]).position by {
        if i1 != j && i2 != j {
            assert(rows[i1].position != rows[i2].position);
            assert(rows[i1].position as int != a);
            assert(rows[i2].position as int != a);
        } else {
            let o = if i1 == j {
                i2
            } else {
                i1
            };
            assert(rows[o].card_id != card_id);
            assert(rows[o].position as int != a);
        }
    }
    assert forall|i: int| 0 <= i < t.len() implies (#[trigger] t[i]).position < t.len() by {
        assert(rows[i].position < rows.len());
    }
    assert forall|k: int| 0 <= k < t.len() implies #[trigger] has_position(t, k) by {
        if k == b {
            assert(t[j].position as int == k);
        } else if (a < b && a <= k && k < b) {
            assert(has_position(rows, k + 1));
            let w = choose|i: int|
                0 <= i < rows.len() && (#[trigger] rows[i]).position as int == k + 1;
            assert(w != j);
            assert(t[w].position as int == k);
        } else if (b < a && b < k && k <= a) {
            assert(has_position(rows, k - 1));
            let w = choose|i: int|
                0 <= i < rows.len() && (#[trigger] rows[i]).position as int == k - 1;
            assert(w != j);
            assert(t[w].position as int == k);
        } else {
            assert(has_position(rows, k));
            let w = choose|i: int|
                0 <= i < rows.len() && (#[trigger] rows[i]).position as int == k;
            assert(w != j);
            assert(t[w].position as int == k);
        }
    }
}

/// Same-column Move(column, card, target): clamp the target into
/// `[0, n-1]`, renumber only the rows strictly between the old and the new
/// position, then write the moved card's row.  Equal positions are a no-op.
pub fn engine_move_within(store: &mut PositionStore, column_id: u64, card_id: u64, target: usize) -> (b:
    usize)
    requires
        store_wf(old(store).columns@),
        spec_has_col(old(store).columns@, column_id),
        col_has_id(spec_col(old(store).columns@, column_id), card_id),
    ensures
        store_wf(final(store).columns@),
        b as int == clamped(
            target as int,
            spec_col(old(store).columns@, column_id).len() as int - 1,
        ),
        spec_col(final(store).columns@, column_id) == moved(
            spec_col(old(store).columns@, column_id),
            card_id,
            pos_of_id(spec_col(old(store).columns@, column_id), card_id),
            b as int,
        ),
        spec_col(final(store).columns@, column_id).len() == spec_col(
            old(store).columns@,
            column_id,
        ).len(),
        forall|c: u64|
            #[trigger] spec_has_col(final(store).columns@, c) == spec_has_col(
                old(store).columns@,
                c,
            ),
        forall|c: u64|
            c != column_id && spec_has_col(old(store).columns@, c) ==> #[trigger] spec_col(
                final(store).columns@,
                c,
            ) == spec_col(old(store).columns@, c),
        forall|x: u64|
            #[trigger] contains_card(final(store).columns@, x) == contains_card(
                old(store).columns@,
                x,
            ),
        total_cards(final(store).columns@) == total_cards(old(store).columns@),
{
    let ghost cols0 = old(store).columns@;
    let ghost orig = spec_col(cols0, column_id);
    let ghost j = idx_of_id(orig, card_id);
    proof {
        lemma_store_wf_col(cols0, column_id);
        assert(0 <= j < orig.len() && orig[j].card_id == card_id);
        assert(orig[j].position < orig.len());
        assert forall|k: int| 0 <= k < orig.len() && k != j implies (
        #[trigger] orig[k]).card_id != card_id && (#[trigger] orig[k]).position
            != orig[j].position by {
            if k < j {
                assert(orig[k].card_id != orig[j].card_id);
                assert(orig[k].position != orig[j].position);
            } else {
                assert(orig[j].card_id != orig[k].card_id);
                assert(orig[j].position != orig[k].position);
            }
        }
    }
    let n = store.column_len(column_id);
    let b = if target > n - 1 {
        n - 1
    } else {
        target
    };
    let a = store.position_of(column_id, card_id);
    proof {
        assert(a as int == orig[j].position as int);
        assert(a < n);
    }
    if b > a {
        store.shift_interval(column_id, a + 1, b, ShiftDelta::Down);
        let ghost mid = spec_col(store.columns@, column_id);
        proof {
            assert forall|k: int| 0 <= k < mid.len() implies #[trigger] mid[k] == shift_row(
                orig[k],
                a as int + 1,
                b as int,
                -1,
            ) by {
                assert(spanned(orig, a as int + 1, b as int, -1)[k] == shift_row(
                    orig[k],
                    a as int + 1,
                    b as int,
                    -1,
                ));
            }
            assert(mid[j].card_id == card_id && mid[j].position as int == a as int);
            assert(col_has_id(mid, card_id));
            assert forall|k: int| 0 <= k < mid.len() && k != j implies (
            #[trigger] mid[k]).card_id != card_id by {}
            let w = idx_of_id(mid, card_id);
            assert(0 <= w < mid.len() && mid[w].card_id == card_id);
            assert(w == j);
        }
        store.write_position(column_id, card_id, b);
        proof {
            let fin = spec_col(store.columns@, column_id);
            assert(fin == mid.update(j, PosRow { card_id, position: b }));
            assert forall|i: int| 0 <= i < orig.len() implies #[trigger] fin[i] == move_row(
                orig[i],
                card_id,
                a as int,
                b as int,
            ) by {
                if i != j {
                    assert(fin[i] == mid[i]);
                    assert(orig[i].card_id != card_id);
                    assert(orig[i].position != orig[j].position);
                }
            }
            assert(fin =~= moved(orig, card_id, a as int, b as int));
        }
    } else if b < a {
        proof {
            assert forall|i: int|
                0 <= i < orig.len() && b <= (#[trigger] orig[i]).position && orig[i].position
                    <= a - 1 implies orig[i].position < usize::MAX by {
                assert(orig[i].position < orig.len());
            }
        }
        store.shift_interval(column_id, b, a - 1, ShiftDelta::Up);
        let ghost mid = spec_col(store.columns@, column_id);
        proof {
            assert forall|k: int| 0 <= k < mid.len() implies #[trigger] mid[k] == shift_row(
                orig[k],
                b as int,
                a as int - 1,
                1,
            ) by {
                assert(spanned(orig, b as int, a as int - 1, 1)[k] == shift_row(
                    orig[k],
                    b as int,
                    a as int - 1,
                    1,
                ));
            }
            assert(mid[j].card_id == card_id && mid[j].position as int == a as int);
            assert(col_has_id(mid, card_id));
            assert forall|k: int| 0 <= k < mid.len() && k != j implies (
            #[trigger] mid[k]).card_id != card_id by {}
            let w = idx_of_id(mid, card_id);
            assert(0 <= w < mid.len() && mid[w].card_id == card_id);
            assert(w == j);
        }
        store.write_position(column_id, card_id, b);
        proof {
            let fin = spec_col(store.columns@, column_id);
            assert(fin == mid.update(j, PosRow { card_id, position: b }));
            assert forall|i: int| 0 <= i < orig.len() implies #[trigger] fin[i] == move_row(
                orig[i],
                card_id,
                a as int,
                b as int,
            ) by {
                if i != j {
                    assert(fin[i] == mid[i]);
                    assert(orig[i].card_id != card_id);
                    assert(orig[i].position != orig[j].position);
                }
            }
            assert(fin =~= moved(orig, card_id, a as int, b as int));
        }
    } else {
        proof {
            let t = moved(orig, card_id, a as int, b as int);
            assert forall|i: int| 0 <= i < orig.len() implies #[trigger] t[i] == orig[i] by {
                if i == j {
                    assert(orig[i].card_id == card_id);
                    assert(t[i] == PosRow { card_id: orig[i].card_id, position: b });
                    assert(orig[i].position == b);
                } else {
                    assert(orig[i].card_id != card_id);
                }
            }
            assert(spec_col(store.columns@, column_id) =~= t);
        }
    }
    proof {
        let cols2 = store.columns@;
        lemma_moved_dense(orig, card_id, a as int, b as int);
        assert forall|c: u64| spec_has_col(cols2, c) implies col_dense(
            #[trigger] spec_col(cols2, c),
        ) by {
            if c == column_id {
                assert(spec_col(cols2, c) == moved(orig, card_id, a as int, b as int));
            } else {
                assert(spec_col(cols2, c) == spec_col(cols0, c));
                lemma_store_wf_col(cols0, c);
            }
        }
        lemma_store_wf_by_cols(cols2);
    }
    b
}

/// Insert(column, card, target): clamp the target into `[0, n]`, open a gap
/// with an upward shift, then write the one new row.  The whole table stays
/// well formed: this is why a correctly sequenced engine can never trip the
/// store's unique-position constraint.
pub fn engine_insert(store: &mut PositionStore, column_id: u64, card_id: u64, target: usize) -> (p:
    usize)
    requires
        store_wf(old(store).columns@),
        spec_has_col(old(store).columns@, column_id),
        !contains_card(old(store).columns@, card_id),
        spec_col(old(store).columns@, column_id).len() < usize::MAX,
    ensures
        store_wf(final(store).columns@),
        p as int == clamped(
            target as int,
            spec_col(old(store).columns@, column_id).len() as int,
        ),
        spec_col(final(store).columns@, column_id) == inserted(
            spec_col(old(store).columns@, column_id),
            card_id,
            p as int,
        ),
        spec_col(final(store).columns@, column_id).len() == spec_col(
            old(store).columns@,
            column_id,
        ).len() + 1,
        forall|c: u64|
            #[trigger] spec_has_col(final(store).columns@, c) == spec_has_col(
                old(store).columns@,
                c,
            ),
        forall|c: u64|
            c != column_id && spec_has_col(old(store).columns@, c) ==> #[trigger] spec_col(
                final(store).columns@,
                c,
            ) == spec_col(old(store).columns@, c),
        forall|x: u64|
            #[trigger] contains_card(final(store).columns@, x) == (contains_card(
                old(store).columns@,
                x,
            ) || x == card_id),
        total_cards(final(store).columns@) == total_cards(old(store).columns@) + 1,
{
    let ghost cols0 = old(store).columns@;
    let ghost orig = spec_col(cols0, column_id);
    proof {
        lemma_store_wf_col(cols0, column_id);
    }
    let n = store.column_len(column_id);
    let p = if target > n {
        n
    } else {
        target
    };
    proof {
        assert forall|i: int|
            0 <= i < orig.len() && p <= (#[trigger] orig[i]).position implies orig[i].position
            < usize::MAX by {
            assert(orig[i].position < orig.len());
        }
    }
    store.shift_range(column_id, p, ShiftDelta::Up);
    let ghost cols1 = store.columns@;
    proof {
        if col_has_id(spec_col(cols1, column_id), card_id) {
            let w = idx_of_id(spec_col(cols1, column_id), card_id);
            assert(0 <= w < spec_col(cols1, column_id).len() && spec_col(
                cols1,
                column_id,
            )[w].card_id == card_id);
            assert(spec_col(cols1, column_id)[w] == shift_row(
                orig[w],
                p as int,
                usize::MAX as int,
                1,
            ));
            assert(orig[w].card_id == card_id);
            crate::store::lemma_col_idx(cols0, column_id);
            let ci = crate::store::spec_col_idx(cols0, column_id);
            assert(cols0[ci].rows@[w].card_id == card_id);
            assert(contains_card(cols0, card_id));
            assert(false);
        }
    }
    store.write_position(column_id, card_id, p);
    proof {
        let cols2 = store.columns@;
        assert(spec_col(cols2, column_id) == spec_col(cols1, column_id).push(
            PosRow { card_id, position: p },
        ));
        assert(spec_col(cols2, column_id) =~= inserted(orig, card_id, p as int));
        lemma_inserted_dense(orig, card_id, p as int);
        assert forall|c: u64| spec_has_col(cols2, c) implies col_dense(
            #[trigger] spec_col(cols2, c),
        ) by {
            if c == column_id {
                assert(spec_col(cols2, c) == inserted(orig, card_id, p as int));
            } else {
                assert(spec_col(cols2, c) == spec_col(cols0, c));
                lemma_store_wf_col(cols0, c);
            }
        }
        lemma_store_wf_by_cols(cols2);
    }
    p
}

/// Delete(column, card): remove the one position row, then compact the tail
/// of the column with a downward shift.
pub fn engine_remove(store: &mut PositionStore, column_id: u64, card_id: u64) -> (p: usize)
    requires
        store_wf(old(store).columns@),
        spec_has_col(old(store).columns@, column_id),
        col_has_id(spec_col(old(store).columns@, column_id), card_id),
    ensures
        store_wf(final(store).columns@),
        p as int == pos_of_id(spec_col(old(store).columns@, column_id), card_id),
        spec_col(final(store).columns@, column_id) == deleted_col(
            spec_col(old(store).columns@, column_id),
            card_id,
        ),
        spec_col(final(store).columns@, column_id).len() + 1 == spec_col(
            old(store).columns@,
            column_id,
        ).len(),
        forall|c: u64|
            #[trigger] spec_has_col(final(store).columns@, c) == spec_has_col(
                old(store).columns@,
                c,
            ),
        forall|c: u64|
            c != column_id && spec_has_col(old(store).columns@, c) ==> #[trigger] spec_col(
                final(store).columns@,
                c,
            ) == spec_col(old(store).columns@, c),
        forall|x: u64|
            #[trigger] contains_card(final(store).columns@, x) == (contains_card(
                old(store).columns@,
                x,
            ) && x != card_id),
        total_cards(final(store).columns@) + 1 == total_cards(old(store).columns@),
{
    let ghost cols0 = old(store).columns@;
    let ghost orig = spec_col(cols0, column_id);
    proof {
        lemma_store_wf_col(cols0, column_id);
        let w = idx_of_id(orig, card_id);
        assert(0 <= w < orig.len() && orig[w].card_id == card_id);
        assert(orig[w].position < orig.len());
    }
    let n = store.column_len(column_id);
    let p = store.position_of(column_id, card_id);
    proof {
        assert(orig[idx_of_id(orig, card_id)].position < orig.len());
        assert(p < n);
    }
    store.delete_position(column_id, card_id);
    proof {
        assert(spec_col(store.columns@, column_id) == orig.remove(idx_of_id(orig, card_id)));
    }
    store.shift_range(column_id, p + 1, ShiftDelta::Down);
    proof {
        let cols2 = store.columns@;
        assert(spec_col(cols2, column_id) == deleted_col(orig, card_id));
        lemma_deleted_dense(orig, card_id);
        assert forall|c: u64| spec_has_col(cols2, c) implies col_dense(
            #[trigger] spec_col(cols2, c),
        ) by {
            if c == column_id {
                assert(spec_col(cols2, c) == deleted_col(orig, card_id));
            } else {
                assert(spec_col(cols2, c) == spec_col(cols0, c));
                lemma_store_wf_col(cols0, c);
            }
        }
        lemma_store_wf_by_cols(cols2);
    }
    p
}

} // verus!
