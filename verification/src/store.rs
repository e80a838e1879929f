use vstd::prelude::*;

verus! {

/// One row of the card-position relation: a card and its zero-based
/// position inside some column.
#[derive(Clone, Copy, PartialEq, Eq, Structural, Debug)]
pub struct PosRow {
    pub card_id: u64,
    pub position: usize,
}

/// All position rows of one column, in storage order (not position order).
pub struct ColumnRows {
    pub column_id: u64,
    pub rows: Vec<PosRow>,
}

/// The position table: every column known to the board together with its
/// position rows.  The store offers pure data access; the ordering rules
/// live in the engine that drives it.
pub struct PositionStore {
    pub columns: Vec<ColumnRows>,
}

/// Direction of a bulk position shift: open a gap (`Up`) or close one (`Down`).
#[derive(Clone, Copy, PartialEq, Eq, Structural, Debug)]
pub enum ShiftDelta {
    Up,
    Down,
}

pub open spec fn delta_val(d: ShiftDelta) -> int {
    match d {
        ShiftDelta::Up => 1,
        ShiftDelta::Down => -1,
    }
}

pub open spec fn col_ids_distinct(cols: Seq<ColumnRows>) -> bool {
    forall|i: int, j: int|
        0 <= i < j < cols.len() ==> (#[trigger] cols[i]).column_id != (#[trigger] cols[j]).column_id
}

pub open spec fn spec_has_col(cols: Seq<ColumnRows>, c: u64) -> bool {
    exists|i: int| 0 <= i < cols.len() && (#[trigger] cols[i]).column_id == c
}

pub open spec fn spec_col_idx(cols: Seq<ColumnRows>, c: u64) -> int {
    choose|i: int| 0 <= i < cols.len() && (#[trigger] cols[i]).column_id == c
}

/// The rows of the column whose id is `c` (meaningful when `spec_has_col`).
pub open spec fn spec_col(cols: Seq<ColumnRows>, c: u64) -> Seq<PosRow> {
    cols[spec_col_idx(cols, c)].rows@
}

/// Some row anywhere in the store carries this card.
pub open spec fn contains_card(cols: Seq<ColumnRows>, id: u64) -> bool {
    exists|ci: int, j: int|
        0 <= ci < cols.len() && 0 <= j < (#[trigger] cols[ci]).rows@.len()
            && (#[trigger] cols[ci].rows@[j]).card_id == id
}

/// Invariant I2: a card belongs to exactly one column, so no card id occurs
/// in two distinct rows of the table.
pub open spec fn row_ids_unique(cols: Seq<ColumnRows>) -> bool {
    forall|c1: int, i1: int, c2: int, i2: int|
        0 <= c1 < cols.len() && 0 <= i1 < cols[c1].rows@.len() && 0 <= c2 < cols.len() && 0 <= i2
            < cols[c2].rows@.len() && (c1 != c2 || i1 != i2)
            ==> (#[trigger] cols[c1].rows@[i1]).card_id != (#[trigger] cols[c2].rows@[i2]).card_id
}

pub open spec fn col_has_id(rows: Seq<PosRow>, id: u64) -> bool {
    exists|i: int| 0 <= i < rows.len() && (#[trigger] rows[i]).card_id == id
}

pub open spec fn idx_of_id(rows: Seq<PosRow>, id: u64) -> int {
    choose|i: int| 0 <= i < rows.len() && (#[trigger] rows[i]).card_id == id
}

/// Current position of a card inside a column's rows (meaningful when
/// `col_has_id` and `ids_unique` hold).
pub open spec fn pos_of_id(rows: Seq<PosRow>, id: u64) -> int {
    rows[idx_of_id(rows, id)].position as int
}

/// No card id occurs twice within one column's rows.
pub open spec fn ids_unique(rows: Seq<PosRow>) -> bool {
    forall|i: int, j: int|
        0 <= i < j < rows.len() ==> (#[trigger] rows[i]).card_id != (#[trigger] rows[j]).card_id
}

pub open spec fn positions_injective(rows: Seq<PosRow>) -> bool {
    forall|i: int, j: int|
        0 <= i < j < rows.len() ==> (#[trigger] rows[i]).position != (#[trigger] rows[j]).position
}

pub open spec fn positions_bounded(rows: Seq<PosRow>) -> bool {
    forall|i: int| 0 <= i < rows.len() ==> (#[trigger] rows[i]).position < rows.len()
}

pub open spec fn has_position(rows: Seq<PosRow>, k: int) -> bool {
    exists|i: int| 0 <= i < rows.len() && (#[trigger] rows[i]).position as int == k
}

pub open spec fn positions_complete(rows: Seq<PosRow>) -> bool {
    forall|k: int| 0 <= k < rows.len() ==> #[trigger] has_position(rows, k)
}

/// Invariant I1: the positions of a column's rows are exactly `0 .. n-1`,
/// without duplicates or gaps.
pub open spec fn col_dense(rows: Seq<PosRow>) -> bool {
    positions_injective(rows) && positions_bounded(rows) && positions_complete(rows)
}

/// Well-formedness of the whole table: distinct columns, each column dense,
/// each card in exactly one place.
pub open spec fn store_wf(cols: Seq<ColumnRows>) -> bool {
    &&& col_ids_distinct(cols)
    &&& forall|ci: int| 0 <= ci < cols.len() ==> col_dense((#[trigger] cols[ci]).rows@)
    &&& row_ids_unique(cols)
}

/// Pointwise effect of a bulk shift on one row: positions inside
/// `[lo, hi]` move by `delta`, the rest stay.
pub open spec fn shift_row(r: PosRow, lo: int, hi: int, delta: int) -> PosRow {
    if lo <= r.position as int && r.position as int <= hi {
        PosRow { card_id: r.card_id, position: (r.position as int + delta) as usize }
    } else {
        r
    }
}

/// A column after a bulk shift of every position inside `[lo, hi]`.
pub open spec fn spanned(rows: Seq<PosRow>, lo: int, hi: int, delta: int) -> Seq<PosRow> {
    Seq::new(rows.len(), |i: int| shift_row(rows[i], lo, hi, delta))
}

/// Total number of cards on the board: the sum of the column sizes.
pub open spec fn total_cards(cols: Seq<ColumnRows>) -> nat
    decreases cols.len(),
{
    if cols.len() == 0 {
        0
    } else {
        total_cards(cols.drop_last()) + cols.last().rows@.len()
    }
}

/// A target position clamped into `[0, n]`.
pub open spec fn clamped(p: int, n: int) -> int {
    if p > n {
        n
    } else {
        p
    }
}

/// The unique place `(column index, row index)` of a card (meaningful when
/// `contains_card` and `row_ids_unique` hold).
pub open spec fn card_loc(cols: Seq<ColumnRows>, id: u64) -> (int, int) {
    choose|ci: int, j: int|
        0 <= ci < cols.len() && 0 <= j < cols[ci].rows@.len() && cols[ci].rows@[j].card_id == id
}

pub open spec fn card_column(cols: Seq<ColumnRows>, id: u64) -> u64 {
    cols[card_loc(cols, id).0].column_id
}

pub open spec fn card_position(cols: Seq<ColumnRows>, id: u64) -> int {
    cols[card_loc(cols, id).0].rows@[card_loc(cols, id).1].position as int
}

/// A well-formed store keeps each existing column dense.
pub proof fn lemma_store_wf_col(cols: Seq<ColumnRows>, c: u64)
    requires
        store_wf(cols),
        spec_has_col(cols, c),
    ensures
        col_dense(spec_col(cols, c)),
        ids_unique(spec_col(cols, c)),
{
    lemma_col_idx(cols, c);
    let ci = spec_col_idx(cols, c);
    assert(col_dense(cols[ci].rows@));
    assert forall|i: int, j: int| 0 <= i < j < spec_col(cols, c).len() implies (
    #[trigger] spec_col(cols, c)[i]).card_id != (#[trigger] spec_col(cols, c)[j]).card_id by {
        assert(cols[ci].rows@[i].card_id != cols[ci].rows@[j].card_id);
    }
}

/// A store whose every existing column is dense, with distinct columns and
/// unique card placement, is well formed.
pub proof fn lemma_store_wf_by_cols(cols: Seq<ColumnRows>)
    requires
        col_ids_distinct(cols),
        row_ids_unique(cols),
        forall|c: u64| spec_has_col(cols, c) ==> col_dense(#[trigger] spec_col(cols, c)),
    ensures
        store_wf(cols),
{
    assert forall|ci: int| 0 <= ci < cols.len() implies col_dense(
        (#[trigger] cols[ci]).rows@,
    ) by {
        let c = cols[ci].column_id;
        assert(spec_has_col(cols, c));
        lemma_col_idx(cols, c);
        assert(spec_col_idx(cols, c) == ci);
        assert(spec_col(cols, c) == cols[ci].rows@);
    }
}

/// The index chosen by `spec_col_idx` is the one and only index of column `c`.
pub proof fn lemma_col_idx(cols: Seq<ColumnRows>, c: u64)
    requires
        col_ids_distinct(cols),
        spec_has_col(cols, c),
    ensures
        0 <= spec_col_idx(cols, c) < cols.len(),
        cols[spec_col_idx(cols, c)].column_id == c,
        forall|k: int| 0 <= k < cols.len() && (#[trigger] cols[k]).column_id == c ==> k == spec_col_idx(cols, c),
{
    let i = spec_col_idx(cols, c);
    assert(0 <= i < cols.len() && cols[i].column_id == c);
}

/// The unique place of a card pinned down by `row_ids_unique`.
pub proof fn lemma_card_loc(cols: Seq<ColumnRows>, id: u64)
    requires
        row_ids_unique(cols),
        contains_card(cols, id),
    ensures
        0 <= card_loc(cols, id).0 < cols.len(),
        0 <= card_loc(cols, id).1 < cols[card_loc(cols, id).0].rows@.len(),
        cols[card_loc(cols, id).0].rows@[card_loc(cols, id).1].card_id == id,
        forall|ci: int, j: int|
            0 <= ci < cols.len() && 0 <= j < (#[trigger] cols[ci]).rows@.len()
                && (#[trigger] cols[ci].rows@[j]).card_id == id
                ==> ci == card_loc(cols, id).0 && j == card_loc(cols, id).1,
{
    let (a, b) = card_loc(cols, id);
    assert(0 <= a < cols.len() && 0 <= b < cols[a].rows@.len() && cols[a].rows@[b].card_id == id);
}

/// A card found in an existing column is, by uniqueness of placement, the
/// card's one place on the board.
pub proof fn lemma_card_in_column(cols: Seq<ColumnRows>, c: u64, id: u64)
    requires
        col_ids_distinct(cols),
        row_ids_unique(cols),
        spec_has_col(cols, c),
        col_has_id(spec_col(cols, c), id),
    ensures
        contains_card(cols, id),
        card_column(cols, id) == c,
        card_position(cols, id) == pos_of_id(spec_col(cols, c), id),
{
    lemma_col_idx(cols, c);
    let ci = spec_col_idx(cols, c);
    let w = idx_of_id(spec_col(cols, c), id);
    assert(0 <= w < cols[ci].rows@.len() && cols[ci].rows@[w].card_id == id);
    assert(contains_card(cols, id));
    lemma_card_loc(cols, id);
    assert(card_loc(cols, id) == (ci, w));
}

/// Replacing one column slot, with the column id kept, leaves every other
/// column's identity and rows as they were.
pub proof fn lemma_col_replace(cols1: Seq<ColumnRows>, cols2: Seq<ColumnRows>, ci: int)
    requires
        col_ids_distinct(cols1),
        0 <= ci < cols1.len(),
        cols2.len() == cols1.len(),
        forall|k: int| 0 <= k < cols1.len() && k != ci ==> #[trigger] cols2[k] == cols1[k],
        cols2[ci].column_id == cols1[ci].column_id,
    ensures
        col_ids_distinct(cols2),
        forall|c: u64| #[trigger] spec_has_col(cols2, c) == spec_has_col(cols1, c),
        forall|c: u64|
            spec_has_col(cols1, c) ==> #[trigger] spec_col_idx(cols2, c) == spec_col_idx(cols1, c),
        forall|c: u64|
            c != cols1[ci].column_id && spec_has_col(cols1, c) ==> #[trigger] spec_col(cols2, c)
                == spec_col(cols1, c),
        spec_col_idx(cols2, cols1[ci].column_id) == ci,
        spec_col(cols2, cols1[ci].column_id) == cols2[ci].rows@,
{
    let cid = cols1[ci].column_id;
    assert forall|k: int| 0 <= k < cols1.len() implies (#[trigger] cols2[k]).column_id
        == cols1[k].column_id by {
        if k != ci {
            assert(cols2[k] == cols1[k]);
        }
    }
    assert forall|c: u64| #[trigger] spec_has_col(cols2, c) == spec_has_col(cols1, c) by {
        if spec_has_col(cols2, c) {
            let i = spec_col_idx(cols2, c);
            assert(0 <= i < cols2.len() && cols2[i].column_id == c);
            assert(cols1[i].column_id == c);
            assert(spec_has_col(cols1, c));
        }
        if spec_has_col(cols1, c) {
            let i = spec_col_idx(cols1, c);
            assert(0 <= i < cols1.len() && cols1[i].column_id == c);
            assert(cols2[i].column_id == c);
            assert(spec_has_col(cols2, c));
        }
    }
    assert forall|c: u64| spec_has_col(cols1, c) implies #[trigger] spec_col_idx(cols2, c)
        == spec_col_idx(cols1, c) by {
        lemma_col_idx(cols1, c);
        assert(spec_has_col(cols2, c));
        let i2 = spec_col_idx(cols2, c);
        assert(0 <= i2 < cols2.len() && cols2[i2].column_id == c);
        assert(cols1[i2].column_id == c);
    }
    assert forall|c: u64| c != cid && spec_has_col(cols1, c) implies #[trigger] spec_col(cols2, c)
        == spec_col(cols1, c) by {
        lemma_col_idx(cols1, c);
        let i = spec_col_idx(cols1, c);
        assert(i != ci);
        assert(cols2[i] == cols1[i]);
    }
    assert(spec_has_col(cols1, cid));
    lemma_col_idx(cols1, cid);
    assert(spec_col_idx(cols1, cid) == ci);
}

/// Appending a fresh, empty column leaves every existing column as it was.
pub proof fn lemma_col_push(cols1: Seq<ColumnRows>, cols2: Seq<ColumnRows>, cid: u64)
    requires
        col_ids_distinct(cols1),
        !spec_has_col(cols1, cid),
        cols2.len() == cols1.len() + 1,
        forall|k: int| 0 <= k < cols1.len() ==> #[trigger] cols2[k] == cols1[k],
        cols2.last().column_id == cid,
        cols2.last().rows@.len() == 0,
    ensures
        col_ids_distinct(cols2),
        forall|c: u64| #[trigger] spec_has_col(cols2, c) == (spec_has_col(cols1, c) || c == cid),
        forall|c: u64|
            spec_has_col(cols1, c) ==> #[trigger] spec_col(cols2, c) == spec_col(cols1, c),
        spec_col(cols2, cid).len() == 0,
        forall|x: u64| #[trigger] contains_card(cols2, x) == contains_card(cols1, x),
        row_ids_unique(cols1) ==> row_ids_unique(cols2),
        total_cards(cols2) == total_cards(cols1),
{
    assert forall|k: int| 0 <= k < cols1.len() implies (#[trigger] cols2[k]).column_id
        != cid by {
        assert(cols2[k] == cols1[k]);
        if cols1[k].column_id == cid {
            assert(spec_has_col(cols1, cid));
        }
    }
    assert forall|c: u64| #[trigger] spec_has_col(cols2, c) == (spec_has_col(cols1, c) || c
        == cid) by {
        if spec_has_col(cols2, c) {
            let i = spec_col_idx(cols2, c);
            assert(0 <= i < cols2.len() && cols2[i].column_id == c);
            if i < cols1.len() {
                assert(cols1[i].column_id == c);
                assert(spec_has_col(cols1, c));
            } else {
                assert(c == cid);
            }
        }
        if spec_has_col(cols1, c) {
            let i = spec_col_idx(cols1, c);
            assert(0 <= i < cols1.len() && cols1[i].column_id == c);
            assert(cols2[i].column_id == c);
            assert(spec_has_col(cols2, c));
        }
        if c == cid {
            assert(cols2[cols1.len() as int].column_id == c);
            assert(spec_has_col(cols2, c));
        }
    }
    assert forall|c: u64| spec_has_col(cols1, c) implies #[trigger] spec_col(cols2, c)
        == spec_col(cols1, c) by {
        lemma_col_idx(cols1, c);
        lemma_col_idx(cols2, c);
        let i1 = spec_col_idx(cols1, c);
        let i2 = spec_col_idx(cols2, c);
        assert(cols2[i1].column_id == c);
        assert(i2 == i1);
        assert(cols2[i1] == cols1[i1]);
    }
    assert(spec_has_col(cols2, cid));
    lemma_col_idx(cols2, cid);
    assert(cols2[cols1.len() as int].column_id == cid);
    assert(spec_col_idx(cols2, cid) == cols1.len() as int);
    assert forall|x: u64| #[trigger] contains_card(cols2, x) == contains_card(cols1, x) by {
        if contains_card(cols2, x) {
            let (a, b) = choose|a: int, b: int|
                0 <= a < cols2.len() && 0 <= b < cols2[a].rows@.len() && cols2[a].rows@[b].card_id
                    == x;
            assert(a < cols1.len());
            assert(cols2[a] == cols1[a]);
            assert(cols1[a].rows@[b].card_id == x);
            assert(contains_card(cols1, x));
        }
        if contains_card(cols1, x) {
            let (a, b) = choose|a: int, b: int|
                0 <= a < cols1.len() && 0 <= b < cols1[a].rows@.len() && cols1[a].rows@[b].card_id
                    == x;
            assert(cols2[a] == cols1[a]);
            assert(cols2[a].rows@[b].card_id == x);
            assert(contains_card(cols2, x));
        }
    }
    if row_ids_unique(cols1) {
        assert forall|c1: int, i1: int, c2: int, i2: int|
            0 <= c1 < cols2.len() && 0 <= i1 < cols2[c1].rows@.len() && 0 <= c2 < cols2.len() && 0
                <= i2 < cols2[c2].rows@.len() && (c1 != c2 || i1 != i2) implies (
        #[trigger] cols2[c1].rows@[i1]).card_id != (#[trigger] cols2[c2].rows@[i2]).card_id by {
            assert(c1 < cols1.len() && c2 < cols1.len());
            assert(cols2[c1] == cols1[c1]);
            assert(cols2[c2] == cols1[c2]);
        }
    }
    assert(cols2.drop_last() =~= cols1);
}

/// Rewriting one column's rows without touching any card id (a bulk shift,
/// or one position update) moves no card in or out of the table.
pub proof fn lemma_ids_pointwise(cols1: Seq<ColumnRows>, cols2: Seq<ColumnRows>, ci: int)
    requires
        0 <= ci < cols1.len(),
        cols2.len() == cols1.len(),
        forall|k: int| 0 <= k < cols1.len() && k != ci ==> #[trigger] cols2[k] == cols1[k],
        cols2[ci].rows@.len() == cols1[ci].rows@.len(),
        forall|j: int|
            0 <= j < cols1[ci].rows@.len() ==> (#[trigger] cols2[ci].rows@[j]).card_id
                == cols1[ci].rows@[j].card_id,
    ensures
        forall|x: u64| #[trigger] contains_card(cols2, x) == contains_card(cols1, x),
        row_ids_unique(cols1) ==> row_ids_unique(cols2),
{
    assert forall|k: int, j: int|
        0 <= k < cols1.len() && 0 <= j < cols1[k].rows@.len() implies cols2[k].rows@.len()
        == cols1[k].rows@.len() && (#[trigger] cols2[k].rows@[j]).card_id
        == cols1[k].rows@[j].card_id by {
        if k != ci {
            assert(cols2[k] == cols1[k]);
        }
    }
    assert forall|x: u64| #[trigger] contains_card(cols2, x) == contains_card(cols1, x) by {
        if contains_card(cols2, x) {
            let (a, b) = choose|a: int, b: int|
                0 <= a < cols2.len() && 0 <= b < cols2[a].rows@.len() && cols2[a].rows@[b].card_id
                    == x;
            assert(cols1[a].rows@[b].card_id == x);
            assert(contains_card(cols1, x));
        }
        if contains_card(cols1, x) {
            let (a, b) = choose|a: int, b: int|
                0 <= a < cols1.len() && 0 <= b < cols1[a].rows@.len() && cols1[a].rows@[b].card_id
                    == x;
            assert(cols2[a].rows@[b].card_id == x);
            assert(contains_card(cols2, x));
        }
    }
    if row_ids_unique(cols1) {
        assert forall|c1: int, i1: int, c2: int, i2: int|
            0 <= c1 < cols2.len() && 0 <= i1 < cols2[c1].rows@.len() && 0 <= c2 < cols2.len() && 0
                <= i2 < cols2[c2].rows@.len() && (c1 != c2 || i1 != i2) implies (
        #[trigger] cols2[c1].rows@[i1]).card_id != (#[trigger] cols2[c2].rows@[i2]).card_id by {
            assert(cols2[c1].rows@[i1].card_id == cols1[c1].rows@[i1].card_id);
            assert(cols2[c2].rows@[i2].card_id == cols1[c2].rows@[i2].card_id);
            assert(cols1[c1].rows@[i1].card_id != cols1[c2].rows@[i2].card_id);
        }
    }
}

/// Appending one row for a card that is nowhere in the table adds exactly
/// that card and keeps every card in a single place.
pub proof fn lemma_ids_push(cols1: Seq<ColumnRows>, cols2: Seq<ColumnRows>, ci: int, id: u64)
    requires
        0 <= ci < cols1.len(),
        cols2.len() == cols1.len(),
        forall|k: int| 0 <= k < cols1.len() && k != ci ==> #[trigger] cols2[k] == cols1[k],
        cols2[ci].rows@.len() == cols1[ci].rows@.len() + 1,
        forall|j: int|
            0 <= j < cols1[ci].rows@.len() ==> (#[trigger] cols2[ci].rows@[j]).card_id
                == cols1[ci].rows@[j].card_id,
        cols2[ci].rows@.last().card_id == id,
    ensures
        forall|x: u64|
            #[trigger] contains_card(cols2, x) == (contains_card(cols1, x) || x == id),
        row_ids_unique(cols1) && !contains_card(cols1, id) ==> row_ids_unique(cols2),
{
    let n = cols1[ci].rows@.len() as int;
    assert forall|x: u64| #[trigger] contains_card(cols2, x) == (contains_card(cols1, x) || x
        == id) by {
        if contains_card(cols2, x) {
            let (a, b) = choose|a: int, b: int|
                0 <= a < cols2.len() && 0 <= b < cols2[a].rows@.len() && cols2[a].rows@[b].card_id
                    == x;
            if a != ci {
                assert(cols2[a] == cols1[a]);
                assert(cols1[a].rows@[b].card_id == x);
                assert(contains_card(cols1, x));
            } else if b < n {
                assert(cols1[ci].rows@[b].card_id == x);
                assert(contains_card(cols1, x));
            } else {
                assert(x == id);
            }
        }
        if contains_card(cols1, x) {
            let (a, b) = choose|a: int, b: int|
                0 <= a < cols1.len() && 0 <= b < cols1[a].rows@.len() && cols1[a].rows@[b].card_id
                    == x;
            if a != ci {
                assert(cols2[a] == cols1[a]);
            }
            assert(cols2[a].rows@[b].card_id == x);
            assert(contains_card(cols2, x));
        }
        if x == id {
            assert(cols2[ci].rows@[n].card_id == x);
            assert(contains_card(cols2, x));
        }
    }
    if row_ids_unique(cols1) && !contains_card(cols1, id) {
        assert forall|c1: int, i1: int, c2: int, i2: int|
            0 <= c1 < cols2.len() && 0 <= i1 < cols2[c1].rows@.len() && 0 <= c2 < cols2.len() && 0
                <= i2 < cols2[c2].rows@.len() && (c1 != c2 || i1 != i2) implies (
        #[trigger] cols2[c1].rows@[i1]).card_id != (#[trigger] cols2[c2].rows@[i2]).card_id by {
            if c1 != ci {
                assert(cols2[c1] == cols1[c1]);
            }
            if c2 != ci {
                assert(cols2[c2] == cols1[c2]);
            }
            if (c1 == ci && i1 == n) && (c2 != ci || i2 < n) {
                assert(cols2[c2].rows@[i2].card_id == cols1[c2].rows@[i2].card_id);
                if cols1[c2].rows@[i2].card_id == id {
                    assert(contains_card(cols1, id));
                }
            } else if (c2 == ci && i2 == n) && (c1 != ci || i1 < n) {
                assert(cols2[c1].rows@[i1].card_id == cols1[c1].rows@[i1].card_id);
                if cols1[c1].rows@[i1].card_id == id {
                    assert(contains_card(cols1, id));
                }
            } else {
                assert(cols2[c1].rows@[i1].card_id == cols1[c1].rows@[i1].card_id);
                assert(cols2[c2].rows@[i2].card_id == cols1[c2].rows@[i2].card_id);
            }
        }
    }
}

/// Removing one row removes exactly that card from the table and keeps
/// every other card in a single place.
pub proof fn lemma_ids_remove(cols1: Seq<ColumnRows>, cols2: Seq<ColumnRows>, ci: int, j: int)
    requires
        row_ids_unique(cols1),
        0 <= ci < cols1.len(),
        0 <= j < cols1[ci].rows@.len(),
        cols2.len() == cols1.len(),
        forall|k: int| 0 <= k < cols1.len() && k != ci ==> #[trigger] cols2[k] == cols1[k],
        cols2[ci].rows@ == cols1[ci].rows@.remove(j),
    ensures
        forall|x: u64|
            #[trigger] contains_card(cols2, x) == (contains_card(cols1, x) && x
                != cols1[ci].rows@[j].card_id),
        row_ids_unique(cols2),
{
    let id = cols1[ci].rows@[j].card_id;
    cols1[ci].rows@.remove_ensures(j);
    assert forall|x: u64| #[trigger] contains_card(cols2, x) == (contains_card(cols1, x) && x
        != id) by {
        if contains_card(cols2, x) {
            let (a, b) = choose|a: int, b: int|
                0 <= a < cols2.len() && 0 <= b < cols2[a].rows@.len() && cols2[a].rows@[b].card_id
                    == x;
            if a != ci {
                assert(cols2[a] == cols1[a]);
                assert(cols1[a].rows@[b].card_id == x);
                assert(contains_card(cols1, x));
                if x == id {
                    assert(cols1[a].rows@[b].card_id == cols1[ci].rows@[j].card_id);
                    assert(false);
                }
            } else {
                if b < j {
                    assert(cols1[ci].rows@[b].card_id == x);
                    if x == id {
                        assert(false);
                    }
                } else {
                    assert(cols1[ci].rows@[b + 1].card_id == x);
                    if x == id {
                        assert(false);
                    }
                }
                assert(contains_card(cols1, x));
            }
        }
        if contains_card(cols1, x) && x != id {
            let (a, b) = choose|a: int, b: int|
                0 <= a < cols1.len() && 0 <= b < cols1[a].rows@.len() && cols1[a].rows@[b].card_id
                    == x;
            if a != ci {
                assert(cols2[a] == cols1[a]);
                assert(cols2[a].rows@[b].card_id == x);
                assert(contains_card(cols2, x));
            } else {
                assert(b != j);
                if b < j {
                    assert(cols2[ci].rows@[b].card_id == x);
                } else {
                    assert(cols2[ci].rows@[b - 1].card_id == x);
                }
                assert(contains_card(cols2, x));
            }
        }
    }
    assert forall|c1: int, i1: int, c2: int, i2: int|
        0 <= c1 < cols2.len() && 0 <= i1 < cols2[c1].rows@.len() && 0 <= c2 < cols2.len() && 0 <= i2
            < cols2[c2].rows@.len() && (c1 != c2 || i1 != i2) implies (
    #[trigger] cols2[c1].rows@[i1]).card_id != (#[trigger] cols2[c2].rows@[i2]).card_id by {
        let o1 = if c1 == ci && i1 >= j {
            i1 + 1
        } else {
            i1
        };
        let o2 = if c2 == ci && i2 >= j {
            i2 + 1
        } else {
            i2
        };
        if c1 != ci {
            assert(cols2[c1] == cols1[c1]);
        }
        if c2 != ci {
            assert(cols2[c2] == cols1[c2]);
        }
        assert(cols2[c1].rows@[i1].card_id == cols1[c1].rows@[o1].card_id);
        assert(cols2[c2].rows@[i2].card_id == cols1[c2].rows@[o2].card_id);
        assert(c1 != c2 || o1 != o2);
    }
}

/// Replacing one column slot changes the total card count by the change in
/// that column's size.
pub proof fn lemma_total_replace(cols1: Seq<ColumnRows>, cols2: Seq<ColumnRows>, ci: int)
    requires
        0 <= ci < cols1.len(),
        cols2.len() == cols1.len(),
        forall|k: int| 0 <= k < cols1.len() && k != ci ==> #[trigger] cols2[k] == cols1[k],
    ensures
        total_cards(cols2) + cols1[ci].rows@.len() == total_cards(cols1) + cols2[ci].rows@.len(),
    decreases cols1.len(),
{
    if ci == cols1.len() - 1 {
        assert(cols1.drop_last() =~= cols2.drop_last());
    } else {
        assert forall|k: int| 0 <= k < cols1.drop_last().len() && k != ci implies #[trigger] cols2
            .drop_last()[k] == cols1.drop_last()[k] by {
            assert(cols2[k] == cols1[k]);
        }
        lemma_total_replace(cols1.drop_last(), cols2.drop_last(), ci);
        assert(cols1.last() == cols2.last());
        assert(cols1.drop_last()[ci] == cols1[ci]);
        assert(cols2.drop_last()[ci] == cols2[ci]);
    }
}

impl PositionStore {
    /// An empty position table: no columns, no cards.
    pub fn new() -> (s: PositionStore)
        ensures
            s.columns@.len() == 0,
            store_wf(s.columns@),
            total_cards(s.columns@) == 0,
            forall|c: u64| !spec_has_col(s.columns@, c),
            forall|x: u64| !contains_card(s.columns@, x),
    {
        PositionStore { columns: Vec::new() }
    }

    /// Index of the column with this id, if the board knows it.
    pub fn find_column(&self, column_id: u64) -> (r: Option<usize>)
        requires
            col_ids_distinct(self.columns@),
        ensures
            match r {
                Some(i) => {
                    &&& i < self.columns@.len()
                    &&& self.columns@[i as int].column_id == column_id
                    &&& spec_has_col(self.columns@, column_id)
                    &&& i as int == spec_col_idx(self.columns@, column_id)
                },
                None => !spec_has_col(self.columns@, column_id),
            },
    {
        let n = self.columns.len();
        let mut i: usize = 0;
        while i < n
            invariant
                n == self.columns@.len(),
                i <= n,
                col_ids_distinct(self.columns@),
                forall|k: int| 0 <= k < i ==> (#[trigger] self.columns@[k]).column_id != column_id,
            decreases n - i,
        {
            if self.columns[i].column_id == column_id {
                proof {
                    assert(spec_has_col(self.columns@, column_id));
                    lemma_col_idx(self.columns@, column_id);
                }
                return Some(i);
            }
            i += 1;
        }
        proof {
            if spec_has_col(self.columns@, column_id) {
                let w = spec_col_idx(self.columns@, column_id);
                assert(0 <= w < self.columns@.len() && self.columns@[w].column_id == column_id);
                assert(false);
            }
        }
        None
    }

    /// Number of cards in an existing column.
    pub fn column_len(&self, column_id: u64) -> (n: usize)
        requires
            col_ids_distinct(self.columns@),
            spec_has_col(self.columns@, column_id),
        ensures
            n == spec_col(self.columns@, column_id).len(),
    {
        let ci = match self.find_column(column_id) {
            Some(i) => i,
            None => {
                proof {
                    assert(false);
                }
                0
            },
        };
        self.columns[ci].rows.len()
    }

    /// Register a column (the board component owns column lifecycle; the
    /// store only needs to know the column exists).  Returns false, changing
    /// nothing, when the id is already taken.
    pub fn add_column(&mut self, column_id: u64) -> (r: bool)
        requires
            col_ids_distinct(old(self).columns@),
        ensures
            r == !spec_has_col(old(self).columns@, column_id),
            !r ==> *final(self) == *old(self),
            col_ids_distinct(final(self).columns@),
            forall|c: u64|
                #[trigger] spec_has_col(final(self).columns@, c) == (spec_has_col(
                    old(self).columns@,
                    c,
                ) || (r && c == column_id)),
            forall|c: u64|
                spec_has_col(old(self).columns@, c) ==> #[trigger] spec_col(
                    final(self).columns@,
                    c,
                ) == spec_col(old(self).columns@, c),
            r ==> spec_col(final(self).columns@, column_id).len() == 0,
            forall|x: u64|
                #[trigger] contains_card(final(self).columns@, x) == contains_card(
                    old(self).columns@,
                    x,
                ),
            row_ids_unique(old(self).columns@) ==> row_ids_unique(final(self).columns@),
            total_cards(final(self).columns@) == total_cards(old(self).columns@),
            store_wf(old(self).columns@) ==> store_wf(final(self).columns@),
    {
        match self.find_column(column_id) {
            Some(_) => false,
            None => {
                self.columns.push(ColumnRows { column_id, rows: Vec::new() });
                proof {
                    let cols1 = old(self).columns@;
                    let cols2 = self.columns@;
                    assert(forall|k: int|
                        0 <= k < cols1.len() ==> #[trigger] cols2[k] == cols1[k]);
                    lemma_col_push(cols1, cols2, column_id);
                    if store_wf(cols1) {
                        assert forall|ci: int| 0 <= ci < cols2.len() implies col_dense(
                            (#[trigger] cols2[ci]).rows@,
                        ) by {
                            if ci < cols1.len() {
                                assert(cols2[ci] == cols1[ci]);
                            } else {
                                assert(cols2[ci].rows@.len() == 0);
                            }
                        }
                    }
                }
                true
            },
        }
    }

    /// Index of the row carrying this card inside column slot `ci`, if any.
    fn find_in_rows(&self, ci: usize, card_id: u64) -> (r: Option<usize>)
        requires
            ci < self.columns@.len(),
        ensures
            match r {
                Some(j) => j < self.columns@[ci as int].rows@.len()
                    && self.columns@[ci as int].rows@[j as int].card_id == card_id,
                None => !col_has_id(self.columns@[ci as int].rows@, card_id),
            },
    {
        let n = self.columns[ci].rows.len();
        let mut j: usize = 0;
        while j < n
            invariant
                ci < self.columns@.len(),
                n == self.columns@[ci as int].rows@.len(),
                j <= n,
                forall|k: int|
                    0 <= k < j ==> (#[trigger] self.columns@[ci as int].rows@[k]).card_id
                        != card_id,
            decreases n - j,
        {
            if self.columns[ci].rows[j].card_id == card_id {
                return Some(j);
            }
            j += 1;
        }
        proof {
            if col_has_id(self.columns@[ci as int].rows@, card_id) {
                let w = idx_of_id(self.columns@[ci as int].rows@, card_id);
                assert(0 <= w < n && self.columns@[ci as int].rows@[w].card_id == card_id);
                assert(false);
            }
        }
        None
    }

    /// The unique place of a card on the board, as `(column id, position)`.
    pub fn locate_card(&self, card_id: u64) -> (r: Option<(u64, usize)>)
        requires
            col_ids_distinct(self.columns@),
            row_ids_unique(self.columns@),
        ensures
            match r {
                Some(loc) => {
                    &&& contains_card(self.columns@, card_id)
                    &&& loc.0 == card_column(self.columns@, card_id)
                    &&& loc.1 as int == card_position(self.columns@, card_id)
                    &&& spec_has_col(self.columns@, loc.0)
                    &&& col_has_id(spec_col(self.columns@, loc.0), card_id)
                },
                None => !contains_card(self.columns@, card_id),
            },
    {
        let n = self.columns.len();
        let mut ci: usize = 0;
        while ci < n
            invariant
                n == self.columns@.len(),
                ci <= n,
                col_ids_distinct(self.columns@),
                row_ids_unique(self.columns@),
                forall|a: int|
                    0 <= a < ci ==> !col_has_id((#[trigger] self.columns@[a]).rows@, card_id),
            decreases n - ci,
        {
            match self.find_in_rows(ci, card_id) {
                Some(j) => {
                    proof {
                        let cols = self.columns@;
                        assert(contains_card(cols, card_id));
                        lemma_card_loc(cols, card_id);
                        assert(card_loc(cols, card_id) == (ci as int, j as int));
                        assert(spec_has_col(cols, cols[ci as int].column_id));
                        lemma_col_idx(cols, cols[ci as int].column_id);
                        assert(spec_col_idx(cols, cols[ci as int].column_id) == ci as int);
                        assert(col_has_id(spec_col(cols, cols[ci as int].column_id), card_id));
                    }
                    return Some((self.columns[ci].column_id, self.columns[ci].rows[j].position));
                },
                None => {},
            }
            ci += 1;
        }
        proof {
            if contains_card(self.columns@, card_id) {
                let (a, b) = choose|a: int, b: int|
                    0 <= a < self.columns@.len() && 0 <= b < self.columns@[a].rows@.len()
                        && self.columns@[a].rows@[b].card_id == card_id;
                assert(col_has_id(self.columns@[a].rows@, card_id));
                assert(false);
            }
        }
        None
    }
    /// Current position of a card inside an existing column that holds it.
    pub fn position_of(&self, column_id: u64, card_id: u64) -> (p: usize)
        requires
            col_ids_distinct(self.columns@),
            row_ids_unique(self.columns@),
            spec_has_col(self.columns@, column_id),
            col_has_id(spec_col(self.columns@, column_id), card_id),
        ensures
            p as int == pos_of_id(spec_col(self.columns@, column_id), card_id),
            spec_col(self.columns@, column_id).len() > 0,
    {
        let ci = match self.find_column(column_id) {
            Some(i) => i,
            None => {
                proof {
                    assert(false);
                }
                0
            },
        };
        let j = match self.find_in_rows(ci, card_id) {
            Some(j) => j,
            None => {
                proof {
                    assert(false);
                }
                0
            },
        };
        proof {
            let rows = self.columns@[ci as int].rows@;
            assert(spec_col(self.columns@, column_id) == rows);
            assert forall|k: int|
                0 <= k < rows.len() && k != j as int implies (#[trigger] rows[k]).card_id
                    != card_id by {
                assert(self.columns@[ci as int].rows@[k].card_id != self.columns@[ci as int].rows@[j as int].card_id);
            }
            let w = idx_of_id(rows, card_id);
            assert(0 <= w < rows.len() && rows[w].card_id == card_id);
            assert(w == j as int);
        }
        self.columns[ci].rows[j].position
    }

    /// Bulk shift: every row of the column whose position lies in
    /// `[lo, hi]` moves by one, up or down.  The single-statement bulk
    /// update of the ordering table, as a whole-column rewrite.
    pub fn shift_interval(&mut self, column_id: u64, lo: usize, hi: usize, delta: ShiftDelta)
        requires
            col_ids_distinct(old(self).columns@),
            spec_has_col(old(self).columns@, column_id),
            forall|i: int|
                0 <= i < spec_col(old(self).columns@, column_id).len() && lo <= (
                #[trigger] spec_col(old(self).columns@, column_id)[i]).position && spec_col(
                    old(self).columns@,
                    column_id,
                )[i].position <= hi ==> (delta == ShiftDelta::Up ==> spec_col(
                    old(self).columns@,
                    column_id,
                )[i].position < usize::MAX) && (delta == ShiftDelta::Down ==> spec_col(
                    old(self).columns@,
                    column_id,
                )[i].position >= 1),
        ensures
            final(self).columns@.len() == old(self).columns@.len(),
            col_ids_distinct(final(self).columns@),
            forall|c: u64|
                #[trigger] spec_has_col(final(self).columns@, c) == spec_has_col(
                    old(self).columns@,
                    c,
                ),
            forall|c: u64|
                c != column_id && spec_has_col(old(self).columns@, c) ==> #[trigger] spec_col(
                    final(self).columns@,
                    c,
                ) == spec_col(old(self).columns@, c),
            spec_col(final(self).columns@, column_id) == spanned(
                spec_col(old(self).columns@, column_id),
                lo as int,
                hi as int,
                delta_val(delta),
            ),
            forall|x: u64|
                #[trigger] contains_card(final(self).columns@, x) == contains_card(
                    old(self).columns@,
                    x,
                ),
            row_ids_unique(old(self).columns@) ==> row_ids_unique(final(self).columns@),
            total_cards(final(self).columns@) == total_cards(old(self).columns@),
    {
        let ci = match self.find_column(column_id) {
            Some(i) => i,
            None => {
                proof {
                    assert(false);
                }
                0
            },
        };
        let ghost orig = self.columns@;
        let ghost orig_rows = self.columns@[ci as int].rows@;
        let ghost target = spanned(orig_rows, lo as int, hi as int, delta_val(delta));
        proof {
            assert(spec_col(orig, column_id) == orig_rows);
        }
        let n = self.columns[ci].rows.len();
        let mut out: Vec<PosRow> = Vec::new();
        let mut j: usize = 0;
        while j < n
            invariant
                self.columns@ == orig,
                ci < orig.len(),
                orig[ci as int].column_id == column_id,
                orig_rows == orig[ci as int].rows@,
                n == orig_rows.len(),
                j <= n,
                target == spanned(orig_rows, lo as int, hi as int, delta_val(delta)),
                out@ == target.take(j as int),
                forall|i: int|
                    0 <= i < orig_rows.len() && lo <= (#[trigger] orig_rows[i]).position
                        && orig_rows[i].position <= hi ==> (delta == ShiftDelta::Up
                        ==> orig_rows[i].position < usize::MAX) && (delta == ShiftDelta::Down
                        ==> orig_rows[i].position >= 1),
            decreases n - j,
        {
            let r = self.columns[ci].rows[j];
            let nr = if lo <= r.position && r.position <= hi {
                match delta {
                    ShiftDelta::Up => PosRow { card_id: r.card_id, position: r.position + 1 },
                    ShiftDelta::Down => PosRow { card_id: r.card_id, position: r.position - 1 },
                }
            } else {
                r
            };
            proof {
                assert(r == orig_rows[j as int]);
                assert(nr == shift_row(orig_rows[j as int], lo as int, hi as int, delta_val(delta)));
                assert(target.take(j as int + 1) =~= target.take(j as int).push(nr));
            }
            out.push(nr);
            j += 1;
        }
        proof {
            assert(out@ =~= target);
        }
        let repl = ColumnRows { column_id, rows: out };
        let ghost replg = repl;
        let _removed = self.columns.remove(ci);
        self.columns.insert(ci, repl);
        proof {
            let v1 = orig.remove(ci as int);
            orig.remove_ensures(ci as int);
            v1.insert_ensures(ci as int, replg);
            assert(self.columns@ == v1.insert(ci as int, replg));
            assert forall|k: int| 0 <= k < orig.len() && k != ci as int implies #[trigger] self
                .columns@[k] == orig[k] by {
                if k < ci as int {
                    assert(self.columns@[k] == v1[k]);
                    assert(v1[k] == orig[k]);
                } else {
                    assert(self.columns@[k] == v1[k - 1]);
                    assert(v1[k - 1] == orig[k]);
                }
            }
            assert(self.columns@.len() == orig.len());
            assert(self.columns@[ci as int] == replg);
            lemma_col_replace(orig, self.columns@, ci as int);
            assert forall|i: int| 0 <= i < orig_rows.len() implies (
            #[trigger] target[i]).card_id == orig_rows[i].card_id by {
                assert(target[i] == shift_row(orig_rows[i], lo as int, hi as int, delta_val(delta)));
            }
            lemma_ids_pointwise(orig, self.columns@, ci as int);
            lemma_total_replace(orig, self.columns@, ci as int);
        }
    }

    /// Shift every row of the column at or after `from`: opens a gap before
    /// an insert (`Up`), or closes one after a removal (`Down`).
    pub fn shift_range(&mut self, column_id: u64, from: usize, delta: ShiftDelta)
        requires
            col_ids_distinct(old(self).columns@),
            spec_has_col(old(self).columns@, column_id),
            forall|i: int|
                0 <= i < spec_col(old(self).columns@, column_id).len() && from <= (
                #[trigger] spec_col(old(self).columns@, column_id)[i]).position ==> (delta
                    == ShiftDelta::Up ==> spec_col(old(self).columns@, column_id)[i].position
                    < usize::MAX) && (delta == ShiftDelta::Down ==> spec_col(
                    old(self).columns@,
                    column_id,
                )[i].position >= 1),
        ensures
            final(self).columns@.len() == old(self).columns@.len(),
            col_ids_distinct(final(self).columns@),
            forall|c: u64|
                #[trigger] spec_has_col(final(self).columns@, c) == spec_has_col(
                    old(self).columns@,
                    c,
                ),
            forall|c: u64|
                c != column_id && spec_has_col(old(self).columns@, c) ==> #[trigger] spec_col(
                    final(self).columns@,
                    c,
                ) == spec_col(old(self).columns@, c),
            spec_col(final(self).columns@, column_id) == spanned(
                spec_col(old(self).columns@, column_id),
                from as int,
                usize::MAX as int,
                delta_val(delta),
            ),
            forall|x: u64|
                #[trigger] contains_card(final(self).columns@, x) == contains_card(
                    old(self).columns@,
                    x,
                ),
            row_ids_unique(old(self).columns@) ==> row_ids_unique(final(self).columns@),
            total_cards(final(self).columns@) == total_cards(old(self).columns@),
    {
        self.shift_interval(column_id, from, usize::MAX, delta)
    }

    /// Upsert of exactly one position row: rewrite the card's row if the
    /// column has one, append a fresh row otherwise.
    pub fn write_position(&mut self, column_id: u64, card_id: u64, position: usize)
        requires
            col_ids_distinct(old(self).columns@),
            row_ids_unique(old(self).columns@),
            spec_has_col(old(self).columns@, column_id),
        ensures
            final(self).columns@.len() == old(self).columns@.len(),
            col_ids_distinct(final(self).columns@),
            forall|c: u64|
                #[trigger] spec_has_col(final(self).columns@, c) == spec_has_col(
                    old(self).columns@,
                    c,
                ),
            forall|c: u64|
                c != column_id && spec_has_col(old(self).columns@, c) ==> #[trigger] spec_col(
                    final(self).columns@,
                    c,
                ) == spec_col(old(self).columns@, c),
            col_has_id(spec_col(old(self).columns@, column_id), card_id) ==> {
                &&& spec_col(final(self).columns@, column_id) == spec_col(
                    old(self).columns@,
                    column_id,
                ).update(
                    idx_of_id(spec_col(old(self).columns@, column_id), card_id),
                    (PosRow { card_id, position }),
                )
                &&& forall|x: u64|
                    #[trigger] contains_card(final(self).columns@, x) == contains_card(
                        old(self).columns@,
                        x,
                    )
                &&& row_ids_unique(final(self).columns@)
                &&& total_cards(final(self).columns@) == total_cards(old(self).columns@)
            },
            !col_has_id(spec_col(old(self).columns@, column_id), card_id) ==> {
                &&& spec_col(final(self).columns@, column_id) == spec_col(
                    old(self).columns@,
                    column_id,
                ).push((PosRow { card_id, position }))
                &&& forall|x: u64|
                    #[trigger] contains_card(final(self).columns@, x) == (contains_card(
                        old(self).columns@,
                        x,
                    ) || x == card_id)
                &&& (!contains_card(old(self).columns@, card_id) ==> row_ids_unique(
                    final(self).columns@,
                ))
                &&& total_cards(final(self).columns@) == total_cards(old(self).columns@) + 1
            },
    {
        let ci = match self.find_column(column_id) {
            Some(i) => i,
            None => {
                proof {
                    assert(false);
                }
                0
            },
        };
        let ghost orig = self.columns@;
        let ghost orig_rows = self.columns@[ci as int].rows@;
        proof {
            assert(spec_col(orig, column_id) == orig_rows);
        }
        match self.find_in_rows(ci, card_id) {
            Some(j) => {
                proof {
                    assert forall|k: int|
                        0 <= k < orig_rows.len() && k != j as int implies (
                    #[trigger] orig_rows[k]).card_id != card_id by {
                        assert(orig[ci as int].rows@[k].card_id != orig[ci as int].rows@[j as int].card_id);
                    }
                    assert(col_has_id(orig_rows, card_id));
                    let w = idx_of_id(orig_rows, card_id);
                    assert(0 <= w < orig_rows.len() && orig_rows[w].card_id == card_id);
                    assert(w == j as int);
                }
                let mut col = self.columns.remove(ci);
                let _old_row = col.rows.remove(j);
                col.rows.insert(j, PosRow { card_id, position });
                let ghost colg = col;
                self.columns.insert(ci, col);
                proof {
                    orig_rows.remove_ensures(j as int);
                    orig_rows.remove(j as int).insert_ensures(j as int, PosRow { card_id, position });
                    assert(colg.rows@ =~= orig_rows.update(
                        j as int,
                        PosRow { card_id, position },
                    ));
                    let v1 = orig.remove(ci as int);
                    orig.remove_ensures(ci as int);
                    v1.insert_ensures(ci as int, colg);
                    assert forall|k: int| 0 <= k < orig.len() && k != ci as int implies #[trigger] self
                        .columns@[k] == orig[k] by {
                        if k < ci as int {
                            assert(self.columns@[k] == v1[k]);
                        } else {
                            assert(self.columns@[k] == v1[k - 1]);
                            assert(v1[k - 1] == orig[k]);
                        }
                    }
                    assert(self.columns@[ci as int] == colg);
                    lemma_col_replace(orig, self.columns@, ci as int);
                    lemma_ids_pointwise(orig, self.columns@, ci as int);
                    lemma_total_replace(orig, self.columns@, ci as int);
                }
            },
            None => {
                let mut col = self.columns.remove(ci);
                col.rows.push(PosRow { card_id, position });
                let ghost colg = col;
                self.columns.insert(ci, col);
                proof {
                    let v1 = orig.remove(ci as int);
                    orig.remove_ensures(ci as int);
                    v1.insert_ensures(ci as int, colg);
                    assert forall|k: int| 0 <= k < orig.len() && k != ci as int implies #[trigger] self
                        .columns@[k] == orig[k] by {
                        if k < ci as int {
                            assert(self.columns@[k] == v1[k]);
                        } else {
                            assert(self.columns@[k] == v1[k - 1]);
                            assert(v1[k - 1] == orig[k]);
                        }
                    }
                    assert(self.columns@[ci as int] == colg);
                    assert(colg.rows@ == orig_rows.push(PosRow { card_id, position }));
                    lemma_col_replace(orig, self.columns@, ci as int);
                    lemma_ids_push(orig, self.columns@, ci as int, card_id);
                    lemma_total_replace(orig, self.columns@, ci as int);
                }
            },
        }
    }

    /// Remove the one position row of this card from the column that holds
    /// it.  Compaction is the engine's job, not the store's.
    pub fn delete_position(&mut self, column_id: u64, card_id: u64)
        requires
            col_ids_distinct(old(self).columns@),
            row_ids_unique(old(self).columns@),
            spec_has_col(old(self).columns@, column_id),
            col_has_id(spec_col(old(self).columns@, column_id), card_id),
        ensures
            final(self).columns@.len() == old(self).columns@.len(),
            col_ids_distinct(final(self).columns@),
            forall|c: u64|
                #[trigger] spec_has_col(final(self).columns@, c) == spec_has_col(
                    old(self).columns@,
                    c,
                ),
            forall|c: u64|
                c != column_id && spec_has_col(old(self).columns@, c) ==> #[trigger] spec_col(
                    final(self).columns@,
                    c,
                ) == spec_col(old(self).columns@, c),
            spec_col(final(self).columns@, column_id) == spec_col(
                old(self).columns@,
                column_id,
            ).remove(idx_of_id(spec_col(old(self).columns@, column_id), card_id)),
            forall|x: u64|
                #[trigger] contains_card(final(self).columns@, x) == (contains_card(
                    old(self).columns@,
                    x,
                ) && x != card_id),
            row_ids_unique(final(self).columns@),
            total_cards(final(self).columns@) + 1 == total_cards(old(self).columns@),
    {
        let ci = match self.find_column(column_id) {
            Some(i) => i,
            None => {
                proof {
                    assert(false);
                }
                0
            },
        };
        let ghost orig = self.columns@;
        let ghost orig_rows = self.columns@[ci as int].rows@;
        proof {
            assert(spec_col(orig, column_id) == orig_rows);
        }
        let j = match self.find_in_rows(ci, card_id) {
            Some(j) => j,
            None => {
                proof {
                    assert(false);
                }
                0
            },
        };
        proof {
            assert forall|k: int|
                0 <= k < orig_rows.len() && k != j as int implies (
            #[trigger] orig_rows[k]).card_id != card_id by {
                assert(orig[ci as int].rows@[k].card_id != orig[ci as int].rows@[j as int].card_id);
            }
            assert(col_has_id(orig_rows, card_id));
            let w = idx_of_id(orig_rows, card_id);
            assert(0 <= w < orig_rows.len() && orig_rows[w].card_id == card_id);
            assert(w == j as int);
        }
        let mut col = self.columns.remove(ci);
        let _old_row = col.rows.remove(j);
        let ghost colg = col;
        self.columns.insert(ci, col);
        proof {
            let v1 = orig.remove(ci as int);
            orig.remove_ensures(ci as int);
            v1.insert_ensures(ci as int, colg);
            assert forall|k: int| 0 <= k < orig.len() && k != ci as int implies #[trigger] self
                .columns@[k] == orig[k] by {
                if k < ci as int {
                    assert(self.columns@[k] == v1[k]);
                } else {
                    assert(self.columns@[k] == v1[k - 1]);
                    assert(v1[k - 1] == orig[k]);
                }
            }
            assert(self.columns@[ci as int] == colg);
            assert(colg.rows@ == orig_rows.remove(j as int));
            lemma_col_replace(orig, self.columns@, ci as int);
            lemma_ids_remove(orig, self.columns@, ci as int, j as int);
            lemma_total_replace(orig, self.columns@, ci as int);
            orig_rows.remove_ensures(j as int);
        }
    }

    /// Index of the row of an existing dense column that sits at position `k`.
    fn find_at_position(&self, ci: usize, k: usize) -> (r: usize)
        requires
            ci < self.columns@.len(),
            col_dense(self.columns@[ci as int].rows@),
            k < self.columns@[ci as int].rows@.len(),
        ensures
            r < self.columns@[ci as int].rows@.len(),
            self.columns@[ci as int].rows@[r as int].position == k,
    {
        let n = self.columns[ci].rows.len();
        let mut j: usize = 0;
        while j < n
            invariant
                ci < self.columns@.len(),
                n == self.columns@[ci as int].rows@.len(),
                j <= n,
                forall|t: int|
                    0 <= t < j ==> (#[trigger] self.columns@[ci as int].rows@[t]).position != k,
                col_dense(self.columns@[ci as int].rows@),
                k < n,
            decreases n - j,
        {
            if self.columns[ci].rows[j].position == k {
                return j;
            }
            j += 1;
        }
        proof {
            let rows = self.columns@[ci as int].rows@;
            assert(has_position(rows, k as int));
            let w = choose|i: int| 0 <= i < rows.len() && (#[trigger] rows[i]).position as int == k as int;
            assert(rows[w].position == k);
            assert(false);
        }
        0
    }

    /// Read API of the store: the rows of a column, ascending by position.
    /// On a well-formed store the result reads `0 .. n-1` with neither gap
    /// nor duplicate.
    pub fn positions_in_column(&self, column_id: u64) -> (r: Vec<PosRow>)
        requires
            col_ids_distinct(self.columns@),
            spec_has_col(self.columns@, column_id),
            col_dense(spec_col(self.columns@, column_id)),
        ensures
            r@.len() == spec_col(self.columns@, column_id).len(),
            forall|k: int|
                0 <= k < r@.len() ==> (#[trigger] r@[k]).position as int == k && spec_col(
                    self.columns@,
                    column_id,
                ).contains(r@[k]),
            forall|i: int|
                0 <= i < spec_col(self.columns@, column_id).len() ==> r@[(
                #[trigger] spec_col(self.columns@, column_id)[i]).position as int] == spec_col(
                    self.columns@,
                    column_id,
                )[i],
    {
        let ci = match self.find_column(column_id) {
            Some(i) => i,
            None => {
                proof {
                    assert(false);
                }
                0
            },
        };
        let ghost rows = self.columns@[ci as int].rows@;
        proof {
            assert(spec_col(self.columns@, column_id) == rows);
        }
        let n = self.columns[ci].rows.len();
        let mut r: Vec<PosRow> = Vec::new();
        let mut k: usize = 0;
        while k < n
            invariant
                ci < self.columns@.len(),
                rows == self.columns@[ci as int].rows@,
                col_dense(rows),
                n == rows.len(),
                k <= n,
                r@.len() == k,
                forall|t: int|
                    0 <= t < k ==> (#[trigger] r@[t]).position as int == t && rows.contains(r@[t]),
            decreases n - k,
        {
            let idx = self.find_at_position(ci, k);
            let row = self.columns[ci].rows[idx];
            proof {
                assert(rows[idx as int] == row);
                assert(rows.contains(row));
            }
            r.push(row);
            k += 1;
        }
        proof {
            assert forall|i: int| 0 <= i < rows.len() implies r@[(
            #[trigger] rows[i]).position as int] == rows[i] by {
                let p = rows[i].position as int;
                assert(0 <= p < rows.len());
                assert(r@[p].position as int == p && rows.contains(r@[p]));
                let w = choose|w: int| 0 <= w < rows.len() && rows[w] == r@[p];
                assert(rows[w].position == rows[i].position);
                if w != i {
                    if w < i {
                        assert(rows[w].position != rows[i].position);
                    } else {
                        assert(rows[i].position != rows[w].position);
                    }
                }
            }
        }
        r
    }
}

} // verus!
