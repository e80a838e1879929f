use vstd::prelude::*;

use crate::engine::deleted_col;
use crate::engine::engine_insert;
use crate::engine::engine_move_within;
use crate::engine::engine_remove;
use crate::engine::inserted;
use crate::engine::moved;
use crate::store::card_column;
use crate::store::lemma_card_in_column;
use crate::store::card_position;
use crate::store::clamped;
use crate::store::contains_card;
use crate::store::lemma_store_wf_col;
use crate::store::spec_col;
use crate::store::spec_has_col;
use crate::store::store_wf;
use crate::store::total_cards;
use crate::store::PosRow;
use crate::store::PositionStore;

verus! {

/// Card content: identity plus the text the repository owns.
#[derive(Clone, Debug, PartialEq, Eq)]
pub struct Card {
    pub id: u64,
    pub title: String,
    pub description: String,
}

/// A place on the board: a column and a zero-based position in it.
#[derive(Clone, Copy, Debug, PartialEq, Eq, Structural)]
pub struct CardPos {
    pub column_id: u64,
    pub position: usize,
}

/// The error taxonomy of the repository.  `ConstraintViolation` and
/// `StoreUnavailable` belong to a fallible backing store; the verified
/// operations never produce them — correct sequencing is proved, and the
/// model store cannot lose a connection.
#[derive(Clone, Copy, Debug, PartialEq, Eq, Structural)]
pub enum Error {
    InvalidColumn,
    CardNotFound,
    DuplicateId,
    ConstraintViolation,
    StoreUnavailable,
}

/// The card repository: card content rows plus the position table, mutated
/// together, atomically, by each public operation.  On any error the whole
/// state is left untouched — the transaction-boundary guarantee.
pub struct Board {
    pub store: PositionStore,
    pub cards: Vec<Card>,
}

impl Board {
    /// The card content rows.
    pub open spec fn content(self) -> Seq<Card> {
        self.cards@
    }

    /// Some content row carries this id.
    pub open spec fn content_has_id(self, id: u64) -> bool {
        exists|i: int| 0 <= i < self.cards@.len() && (#[trigger] self.cards@[i]).id == id
    }

    /// Index of the content row of a card (meaningful when present).
    pub open spec fn content_idx_of(self, id: u64) -> int {
        choose|i: int| 0 <= i < self.cards@.len() && (#[trigger] self.cards@[i]).id == id
    }

    pub open spec fn has_column(self, c: u64) -> bool {
        spec_has_col(self.store.columns@, c)
    }

    /// The position rows of column `c` (meaningful when `has_column`).
    pub open spec fn column(self, c: u64) -> Seq<PosRow> {
        spec_col(self.store.columns@, c)
    }

    /// The card has a position row somewhere on the board.
    pub open spec fn has_card(self, id: u64) -> bool {
        contains_card(self.store.columns@, id)
    }

    /// Total number of cards over all columns.
    pub open spec fn total(self) -> nat {
        total_cards(self.store.columns@)
    }

    /// Well-formedness: the position table is dense and consistent, content
    /// ids are unique, and content and position rows exist for exactly the
    /// same cards — a position row is created and deleted atomically with
    /// its content row.
    pub open spec fn wf(self) -> bool {
        &&& store_wf(self.store.columns@)
        &&& forall|i: int, k: int|
            0 <= i < k < self.cards@.len() ==> (#[trigger] self.cards@[i]).id != (
            #[trigger] self.cards@[k]).id
        &&& forall|i: int|
            0 <= i < self.cards@.len() ==> contains_card(
                self.store.columns@,
                (#[trigger] self.cards@[i]).id,
            )
        &&& forall|x: u64| #[trigger] contains_card(self.store.columns@, x) ==> self.content_has_id(x)
    }

    /// An empty board: no columns, no cards.
    pub fn new() -> (b: Board)
        ensures
            b.wf(),
            b.total() == 0,
            b.content().len() == 0,
            forall|c: u64| !b.has_column(c),
            forall|x: u64| !b.has_card(x),
    {
        Board { store: PositionStore::new(), cards: Vec::new() }
    }

    /// Index of the content row carrying this id, if any.
    fn content_find(&self, id: u64) -> (r: Option<usize>)
        ensures
            match r {
                Some(i) => i < self.cards@.len() && self.cards@[i as int].id == id,
                None => !self.content_has_id(id),
            },
    {
        let n = self.cards.len();
        let mut i: usize = 0;
        while i < n
            invariant
                n == self.cards@.len(),
                i <= n,
                forall|k: int| 0 <= k < i ==> (#[trigger] self.cards@[k]).id != id,
            decreases n - i,
        {
            if self.cards[i].id == id {
                return Some(i);
            }
            i += 1;
        }
        proof {
            if self.content_has_id(id) {
                let w = self.content_idx_of(id);
                assert(0 <= w < self.cards@.len() && self.cards@[w].id == id);
                assert(false);
            }
        }
        None
    }

    /// Register a column.  Returns false, changing nothing, when the id is
    /// already taken.  Column lifecycle belongs to the surrounding board
    /// component; the repository only records which columns exist.
    pub fn add_column(&mut self, column_id: u64) -> (r: bool)
        requires
            old(self).wf(),
        ensures
            final(self).wf(),
            r == !old(self).has_column(column_id),
            !r ==> *final(self) == *old(self),
            forall|c: u64|
                #[trigger] final(self).has_column(c) == (old(self).has_column(c) || (r && c
                    == column_id)),
            forall|c: u64|
                old(self).has_column(c) ==> #[trigger] final(self).column(c) == old(self).column(c),
            r ==> final(self).column(column_id).len() == 0,
            final(self).content() == old(self).content(),
            final(self).total() == old(self).total(),
            forall|x: u64| #[trigger] final(self).has_card(x) == old(self).has_card(x),
    {
        let r = self.store.add_column(column_id);
        proof {
            assert forall|i: int| 0 <= i < self.cards@.len() implies contains_card(
                self.store.columns@,
                (#[trigger] self.cards@[i]).id,
            ) by {
                assert(contains_card(old(self).store.columns@, self.cards@[i].id));
            }
            assert forall|x: u64|
                #[trigger] contains_card(self.store.columns@, x) implies self.content_has_id(
                x,
            ) by {
                assert(contains_card(old(self).store.columns@, x));
            }
        }
        r
    }

    /// insert_card: write the content row, then perform the engine's
    /// Insert — one atomic operation.  A duplicate id or an unknown column
    /// is rejected with the state untouched; an out-of-range position is
    /// clamped, never rejected.
    pub fn insert_card(&mut self, card: Card, pos: CardPos) -> (r: Result<(), Error>)
        requires
            old(self).wf(),
            old(self).has_column(pos.column_id) ==> old(self).column(pos.column_id).len()
                < usize::MAX,
        ensures
            final(self).wf(),
            r == Err::<(), Error>(Error::DuplicateId) <==> old(self).content_has_id(card.id),
            r == Err::<(), Error>(Error::InvalidColumn) <==> (!old(self).content_has_id(card.id)
                && !old(self).has_column(pos.column_id)),
            r is Ok <==> (!old(self).content_has_id(card.id) && old(self).has_column(
                pos.column_id,
            )),
            r is Err ==> *final(self) == *old(self),
            r is Ok ==> ({
                let c = pos.column_id;
                let n = old(self).column(c).len() as int;
                let p = clamped(pos.position as int, n);
                &&& final(self).column(c) == inserted(old(self).column(c), card.id, p)
                &&& final(self).column(c).len() == n + 1
                &&& forall|c2: u64|
                    c2 != c && old(self).has_column(c2) ==> #[trigger] final(self).column(c2)
                        == old(self).column(c2)
                &&& final(self).content() == old(self).content().push(card)
                &&& forall|x: u64|
                    #[trigger] final(self).has_card(x) == (old(self).has_card(x) || x == card.id)
                &&& final(self).total() == old(self).total() + 1
            }),
            forall|c2: u64| #[trigger] final(self).has_column(c2) == old(self).has_column(c2),
    {
        match self.content_find(card.id) {
            Some(_) => {
                return Err(Error::DuplicateId);
            },
            None => {},
        }
        match self.store.find_column(pos.column_id) {
            None => {
                return Err(Error::InvalidColumn);
            },
            Some(_) => {},
        }
        proof {
            if contains_card(self.store.columns@, card.id) {
                assert(self.content_has_id(card.id));
                assert(false);
            }
        }
        let id = card.id;
        self.cards.push(card);
        let _p = engine_insert(&mut self.store, pos.column_id, id, pos.position);
        proof {
            let oldb = *old(self);
            let n = oldb.cards@.len() as int;
            assert forall|i: int, k: int| 0 <= i < k < self.cards@.len() implies (
            #[trigger] self.cards@[i]).id != (#[trigger] self.cards@[k]).id by {
                if k < n {
                    assert(oldb.cards@[i].id != oldb.cards@[k].id);
                } else {
                    assert(self.cards@[k].id == id);
                    assert(self.cards@[i].id == oldb.cards@[i].id);
                    if oldb.cards@[i].id == id {
                        assert(oldb.content_has_id(id));
                    }
                }
            }
            assert forall|i: int| 0 <= i < self.cards@.len() implies contains_card(
                self.store.columns@,
                (#[trigger] self.cards@[i]).id,
            ) by {
                if i < n {
                    assert(contains_card(oldb.store.columns@, oldb.cards@[i].id));
                    assert(contains_card(self.store.columns@, self.cards@[i].id));
                } else {
                    assert(self.cards@[i].id == id);
                }
            }
            assert forall|x: u64|
                #[trigger] contains_card(self.store.columns@, x) implies self.content_has_id(
                x,
            ) by {
                if x == id {
                    assert(self.cards@[n].id == x);
                } else {
                    assert(contains_card(oldb.store.columns@, x));
                    assert(oldb.content_has_id(x));
                    let w = oldb.content_idx_of(x);
                    assert(0 <= w < oldb.cards@.len() && oldb.cards@[w].id == x);
                    assert(self.cards@[w].id == x);
                }
            }
        }
        Ok(())
    }

    /// move_card: look up the card's current place, then perform the
    /// engine's Move — within a column, or across columns as a compacting
    /// delete followed by an insert at the clamped target.  The total card
    /// count over all columns never changes.
    pub fn move_card(&mut self, card_id: u64, to: CardPos) -> (r: Result<(), Error>)
        requires
            old(self).wf(),
            old(self).has_column(to.column_id) ==> old(self).column(to.column_id).len()
                < usize::MAX,
        ensures
            final(self).wf(),
            r == Err::<(), Error>(Error::CardNotFound) <==> !old(self).has_card(card_id),
            r == Err::<(), Error>(Error::InvalidColumn) <==> (old(self).has_card(card_id)
                && !old(self).has_column(to.column_id)),
            r is Ok <==> (old(self).has_card(card_id) && old(self).has_column(to.column_id)),
            r is Err ==> *final(self) == *old(self),
            final(self).content() == old(self).content(),
            final(self).total() == old(self).total(),
            forall|c2: u64| #[trigger] final(self).has_column(c2) == old(self).has_column(c2),
            forall|x: u64| #[trigger] final(self).has_card(x) == old(self).has_card(x),
            r is Ok ==> ({
                let cols0 = old(self).store.columns@;
                let from_c = card_column(cols0, card_id);
                let a = card_position(cols0, card_id);
                let to_c = to.column_id;
                if from_c == to_c {
                    let n = old(self).column(from_c).len() as int;
                    let b = clamped(to.position as int, n - 1);
                    &&& final(self).column(from_c) == moved(
                        old(self).column(from_c),
                        card_id,
                        a,
                        b,
                    )
                    &&& final(self).column(from_c).len() == n
                    &&& forall|c2: u64|
                        c2 != from_c && old(self).has_column(c2) ==> #[trigger] final(self).column(
                            c2,
                        ) == old(self).column(c2)
                } else {
                    let nd = old(self).column(to_c).len() as int;
                    let b = clamped(to.position as int, nd);
                    &&& final(self).column(from_c) == deleted_col(
                        old(self).column(from_c),
                        card_id,
                    )
                    &&& final(self).column(from_c).len() + 1 == old(self).column(from_c).len()
                    &&& final(self).column(to_c) == inserted(old(self).column(to_c), card_id, b)
                    &&& final(self).column(to_c).len() == nd + 1
                    &&& forall|c2: u64|
                        c2 != from_c && c2 != to_c && old(self).has_column(c2)
                            ==> #[trigger] final(self).column(c2) == old(self).column(c2)
                }
            }),
    {
        let loc = match self.store.locate_card(card_id) {
            None => {
                return Err(Error::CardNotFound);
            },
            Some(l) => l,
        };
        match self.store.find_column(to.column_id) {
            None => {
                return Err(Error::InvalidColumn);
            },
            Some(_) => {},
        }
        let from_c = loc.0;
        proof {
            lemma_card_in_column(self.store.columns@, from_c, card_id);
        }
        if from_c == to.column_id {
            let _b = engine_move_within(&mut self.store, from_c, card_id, to.position);
        } else {
            proof {
                lemma_store_wf_col(old(self).store.columns@, from_c);
            }
            let _p = engine_remove(&mut self.store, from_c, card_id);
            let _q = engine_insert(&mut self.store, to.column_id, card_id, to.position);
        }
        proof {
            let oldb = *old(self);
            assert forall|x: u64| #[trigger] contains_card(self.store.columns@, x)
                == contains_card(oldb.store.columns@, x) by {}
            assert forall|i: int| 0 <= i < self.cards@.len() implies contains_card(
                self.store.columns@,
                (#[trigger] self.cards@[i]).id,
            ) by {
                assert(contains_card(oldb.store.columns@, self.cards@[i].id));
            }
            assert forall|x: u64|
                #[trigger] contains_card(self.store.columns@, x) implies self.content_has_id(
                x,
            ) by {
                assert(contains_card(oldb.store.columns@, x));
            }
        }
        Ok(())
    }

    /// delete_card: look up the card's place, delete the content row and
    /// the position row, and compact the column — one atomic operation.
    pub fn delete_card(&mut self, card_id: u64) -> (r: Result<(), Error>)
        requires
            old(self).wf(),
        ensures
            final(self).wf(),
            r == Err::<(), Error>(Error::CardNotFound) <==> !old(self).has_card(card_id),
            r is Ok <==> old(self).has_card(card_id),
            r is Err ==> *final(self) == *old(self),
            forall|c2: u64| #[trigger] final(self).has_column(c2) == old(self).has_column(c2),
            r is Ok ==> ({
                let cols0 = old(self).store.columns@;
                let from_c = card_column(cols0, card_id);
                &&& final(self).column(from_c) == deleted_col(old(self).column(from_c), card_id)
                &&& final(self).column(from_c).len() + 1 == old(self).column(from_c).len()
                &&& forall|c2: u64|
                    c2 != from_c && old(self).has_column(c2) ==> #[trigger] final(self).column(c2)
                        == old(self).column(c2)
                &&& forall|x: u64|
                    #[trigger] final(self).has_card(x) == (old(self).has_card(x) && x != card_id)
                &&& !final(self).has_card(card_id)
                &&& final(self).total() + 1 == old(self).total()
                &&& final(self).content() == old(self).content().remove(
                    old(self).content_idx_of(card_id),
                )
                &&& final(self).content().len() + 1 == old(self).content().len()
                &&& !final(self).content_has_id(card_id)
            }),
    {
        let loc = match self.store.locate_card(card_id) {
            None => {
                return Err(Error::CardNotFound);
            },
            Some(l) => l,
        };
        let idx = match self.content_find(card_id) {
            Some(i) => i,
            None => {
                proof {
                    assert(false);
                }
                0
            },
        };
        proof {
            let w = old(self).content_idx_of(card_id);
            assert(0 <= w < self.cards@.len() && self.cards@[w].id == card_id);
            if w != idx as int {
                if w < idx as int {
                    assert(self.cards@[w].id != self.cards@[idx as int].id);
                } else {
                    assert(self.cards@[idx as int].id != self.cards@[w].id);
                }
                assert(false);
            }
        }
        let _removed = self.cards.remove(idx);
        let from_c = loc.0;
        proof {
            lemma_card_in_column(self.store.columns@, from_c, card_id);
        }
        let _p = engine_remove(&mut self.store, from_c, card_id);
        proof {
            let oldb = *old(self);
            let n = oldb.cards@.len() as int;
            oldb.cards@.remove_ensures(idx as int);
            assert forall|i: int, k: int| 0 <= i < k < self.cards@.len() implies (
            #[trigger] self.cards@[i]).id != (#[trigger] self.cards@[k]).id by {
                let oi = if i < idx as int {
                    i
                } else {
                    i + 1
                };
                let ok = if k < idx as int {
                    k
                } else {
                    k + 1
                };
                assert(self.cards@[i] == oldb.cards@[oi]);
                assert(self.cards@[k] == oldb.cards@[ok]);
                assert(oldb.cards@[oi].id != oldb.cards@[ok].id);
            }
            assert forall|i: int| 0 <= i < self.cards@.len() implies contains_card(
                self.store.columns@,
                (#[trigger] self.cards@[i]).id,
            ) by {
                let oi = if i < idx as int {
                    i
                } else {
                    i + 1
                };
                assert(self.cards@[i] == oldb.cards@[oi]);
                assert(contains_card(oldb.store.columns@, oldb.cards@[oi].id));
                if oi < idx as int {
                    assert(oldb.cards@[oi].id != oldb.cards@[idx as int].id);
                } else {
                    assert(oldb.cards@[idx as int].id != oldb.cards@[oi].id);
                }
            }
            assert forall|x: u64|
                #[trigger] contains_card(self.store.columns@, x) implies self.content_has_id(
                x,
            ) by {
                assert(contains_card(oldb.store.columns@, x) && x != card_id);
                assert(oldb.content_has_id(x));
                let w = oldb.content_idx_of(x);
                assert(0 <= w < oldb.cards@.len() && oldb.cards@[w].id == x);
                assert(w != idx as int);
                let ni = if w < idx as int {
                    w
                } else {
                    w - 1
                };
                assert(self.cards@[ni] == oldb.cards@[w]);
            }
            if self.content_has_id(card_id) {
                let w = self.content_idx_of(card_id);
                assert(0 <= w < self.cards@.len() && self.cards@[w].id == card_id);
                let oi = if w < idx as int {
                    w
                } else {
                    w + 1
                };
                assert(self.cards@[w] == oldb.cards@[oi]);
                if oi < idx as int {
                    assert(oldb.cards@[oi].id != oldb.cards@[idx as int].id);
                } else {
                    assert(oldb.cards@[idx as int].id != oldb.cards@[oi].id);
                }
                assert(false);
            }
        }
        Ok(())
    }

    /// The card's current place, if it is on the board.
    pub fn find_card(&self, card_id: u64) -> (r: Option<CardPos>)
        requires
            self.wf(),
        ensures
            match r {
                Some(cp) => {
                    &&& self.has_card(card_id)
                    &&& cp.column_id == card_column(self.store.columns@, card_id)
                    &&& cp.position as int == card_position(self.store.columns@, card_id)
                    &&& self.has_column(cp.column_id)
                },
                None => !self.has_card(card_id),
            },
    {
        match self.store.locate_card(card_id) {
            Some(l) => Some(CardPos { column_id: l.0, position: l.1 }),
            None => None,
        }
    }

    /// The card's content row, if it exists.
    pub fn get_card(&self, card_id: u64) -> (r: Option<&Card>)
        ensures
            match r {
                Some(c) => self.content_has_id(card_id) && c.id == card_id && self.content()
                    .contains(*c),
                None => !self.content_has_id(card_id),
            },
    {
        match self.content_find(card_id) {
            Some(i) => {
                proof {
                    assert(self.cards@[i as int].id == card_id);
                    assert(self.content().contains(self.cards@[i as int]));
                }
                Some(&self.cards[i])
            },
            None => None,
        }
    }

    /// Number of cards in a column, if the column exists.
    pub fn column_count(&self, column_id: u64) -> (r: Option<usize>)
        requires
            self.wf(),
        ensures
            match r {
                Some(n) => self.has_column(column_id) && n == self.column(column_id).len(),
                None => !self.has_column(column_id),
            },
    {
        match self.store.find_column(column_id) {
            Some(_) => Some(self.store.column_len(column_id)),
            None => None,
        }
    }

    /// The card ids of a column, ascending by position: the repository's
    /// read of the dense ordering.
    pub fn cards_in_column(&self, column_id: u64) -> (r: Option<Vec<u64>>)
        requires
            self.wf(),
        ensures
            match r {
                Some(ids) => {
                    &&& self.has_column(column_id)
                    &&& ids@.len() == self.column(column_id).len()
                    &&& forall|k: int|
                        0 <= k < ids@.len() ==> self.column(column_id).contains(
                            (PosRow { card_id: #[trigger] ids@[k], position: k as usize }),
                        )
                    &&& forall|i: int|
                        0 <= i < self.column(column_id).len() ==> ids@[(
                        #[trigger] self.column(column_id)[i]).position as int] == self.column(
                            column_id,
                        )[i].card_id
                },
                None => !self.has_column(column_id),
            },
    {
        match self.store.find_column(column_id) {
            None => None,
            Some(_) => {
                proof {
                    lemma_store_wf_col(self.store.columns@, column_id);
                }
                let rows = self.store.positions_in_column(column_id);
                let n = rows.len();
                let mut ids: Vec<u64> = Vec::new();
                let mut k: usize = 0;
                while k < n
                    invariant
                        n == rows@.len(),
                        k <= n,
                        ids@.len() == k,
                        rows@.len() == self.column(column_id).len(),
                        forall|t: int|
                            0 <= t < rows@.len() ==> (#[trigger] rows@[t]).position as int == t
                                && self.column(column_id).contains(rows@[t]),
                        forall|t: int| 0 <= t < k ==> #[trigger] ids@[t] == rows@[t].card_id,
                    decreases n - k,
                {
                    ids.push(rows[k].card_id);
                    k += 1;
                }
                proof {
                    assert forall|t: int| 0 <= t < ids@.len() implies self.column(
                        column_id,
                    ).contains((PosRow { card_id: #[trigger] ids@[t], position: t as usize })) by {
                        assert(rows@[t].position as int == t);
                        assert(rows@[t] == (PosRow { card_id: ids@[t], position: t as usize }));
                        assert(self.column(column_id).contains(rows@[t]));
                    }
                    assert forall|i: int| 0 <= i < self.column(column_id).len() implies ids@[(
                    #[trigger] self.column(column_id)[i]).position as int] == self.column(
                        column_id,
                    )[i].card_id by {
                        let p = self.column(column_id)[i].position as int;
                        assert(0 <= p < rows@.len());
                        assert(rows@[p] == self.column(column_id)[i]);
                        assert(ids@[p] == rows@[p].card_id);
                    }
                }
                Some(ids)
            },
        }
    }
}

} // verus!
