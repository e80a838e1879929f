use kanban_core::Board;
use kanban_core::Card;
use kanban_core::CardPos;
use kanban_core::Error;

fn card(id: u64, title: &str) -> Card {
    Card { id, title: String::from(title), description: String::new() }
}

fn at(column_id: u64, position: usize) -> CardPos {
    CardPos { column_id, position }
}

const COL: u64 = 7;

fn board_with(ids: &[u64]) -> Board {
    let mut b = Board::new();
    assert!(b.add_column(COL));
    for (i, &id) in ids.iter().enumerate() {
        b.insert_card(card(id, "t"), at(COL, i)).unwrap();
    }
    b
}

#[test]
fn scenario_insert_delete_move() {
    // Column holds [A@0, B@1, C@2]; A=1, B=2, C=3, D=4.
    let mut b = board_with(&[1, 2, 3]);
    assert_eq!(b.cards_in_column(COL), Some(vec![1, 2, 3]));

    // insert_card(D, {C, 1}) => [A@0, D@1, B@2, C@3]
    b.insert_card(card(4, "d"), at(COL, 1)).unwrap();
    assert_eq!(b.cards_in_column(COL), Some(vec![1, 4, 2, 3]));

    // delete_card(B) => [A@0, D@1, C@2]
    b.delete_card(2).unwrap();
    assert_eq!(b.cards_in_column(COL), Some(vec![1, 4, 3]));

    // move_card(A, {C, 2}) => [D@0, C@1, A@2]
    b.move_card(1, at(COL, 2)).unwrap();
    assert_eq!(b.cards_in_column(COL), Some(vec![4, 3, 1]));
}

#[test]
fn density_after_mixed_operations() {
    let mut b = board_with(&[10, 11, 12, 13]);
    b.add_column(8);
    b.insert_card(card(14, "x"), at(COL, 2)).unwrap();
    b.move_card(11, at(COL, 4)).unwrap();
    b.move_card(13, at(8, 0)).unwrap();
    b.delete_card(10).unwrap();
    // Reading each column yields positions exactly 0..n-1, ascending.
    for col in [COL, 8] {
        let rows = b.store.positions_in_column(col);
        for (k, row) in rows.iter().enumerate() {
            assert_eq!(row.position, k);
        }
        assert_eq!(rows.len(), b.column_count(col).unwrap());
    }
}

#[test]
fn insert_displaces_occupant_forward() {
    // Insert at an occupied position: the occupant and everything after it
    // shift toward higher indices.
    let mut b = board_with(&[1, 2, 3]);
    b.insert_card(card(9, "n"), at(COL, 0)).unwrap();
    assert_eq!(b.find_card(9), Some(at(COL, 0)));
    assert_eq!(b.find_card(1), Some(at(COL, 1)));
    assert_eq!(b.find_card(2), Some(at(COL, 2)));
    assert_eq!(b.find_card(3), Some(at(COL, 3)));
}

#[test]
fn insert_position_is_clamped_not_rejected() {
    let mut b = board_with(&[1, 2]);
    b.insert_card(card(3, "end"), at(COL, 99)).unwrap();
    assert_eq!(b.find_card(3), Some(at(COL, 2)));
    assert_eq!(b.cards_in_column(COL), Some(vec![1, 2, 3]));
}

#[test]
fn delete_compacts_and_count_drops_by_one() {
    let mut b = board_with(&[1, 2, 3, 4, 5]);
    assert_eq!(b.column_count(COL), Some(5));
    b.delete_card(3).unwrap();
    assert_eq!(b.column_count(COL), Some(4));
    // Cards before position 2 unchanged, cards after moved down by one.
    assert_eq!(b.find_card(1), Some(at(COL, 0)));
    assert_eq!(b.find_card(2), Some(at(COL, 1)));
    assert_eq!(b.find_card(4), Some(at(COL, 2)));
    assert_eq!(b.find_card(5), Some(at(COL, 3)));
    assert_eq!(b.find_card(3), None);
}

#[test]
fn move_round_trip_restores_order() {
    let mut b = board_with(&[1, 2, 3, 4, 5]);
    let before = b.cards_in_column(COL);
    b.move_card(2, at(COL, 4)).unwrap();
    assert_eq!(b.cards_in_column(COL), Some(vec![1, 3, 4, 5, 2]));
    b.move_card(2, at(COL, 1)).unwrap();
    assert_eq!(b.cards_in_column(COL), before);
}

#[test]
fn move_backward_within_column() {
    let mut b = board_with(&[1, 2, 3, 4]);
    b.move_card(4, at(COL, 0)).unwrap();
    assert_eq!(b.cards_in_column(COL), Some(vec![4, 1, 2, 3]));
}

#[test]
fn move_to_same_position_is_noop() {
    let mut b = board_with(&[1, 2, 3]);
    b.move_card(2, at(COL, 1)).unwrap();
    assert_eq!(b.cards_in_column(COL), Some(vec![1, 2, 3]));
}

#[test]
fn cross_column_move_conserves_counts() {
    let mut b = board_with(&[1, 2, 3]);
    b.add_column(8);
    b.insert_card(card(4, "o"), at(8, 0)).unwrap();
    let total_before = b.column_count(COL).unwrap() + b.column_count(8).unwrap();
    b.move_card(2, at(8, 1)).unwrap();
    assert_eq!(b.column_count(COL), Some(2));
    assert_eq!(b.column_count(8), Some(2));
    let total_after = b.column_count(COL).unwrap() + b.column_count(8).unwrap();
    assert_eq!(total_before, total_after);
    assert_eq!(b.cards_in_column(COL), Some(vec![1, 3]));
    assert_eq!(b.cards_in_column(8), Some(vec![4, 2]));
}

#[test]
fn cross_column_move_clamps_target() {
    let mut b = board_with(&[1, 2]);
    b.add_column(8);
    b.move_card(1, at(8, 42)).unwrap();
    assert_eq!(b.find_card(1), Some(at(8, 0)));
    assert_eq!(b.cards_in_column(COL), Some(vec![2]));
}

#[test]
fn duplicate_id_is_rejected_unchanged() {
    let mut b = board_with(&[1, 2]);
    let r = b.insert_card(card(1, "dup"), at(COL, 0));
    assert_eq!(r, Err(Error::DuplicateId));
    assert_eq!(b.cards_in_column(COL), Some(vec![1, 2]));
}

#[test]
fn unknown_column_is_rejected() {
    let mut b = board_with(&[1]);
    assert_eq!(b.insert_card(card(2, "x"), at(99, 0)), Err(Error::InvalidColumn));
    assert_eq!(b.move_card(1, at(99, 0)), Err(Error::InvalidColumn));
    assert_eq!(b.cards_in_column(COL), Some(vec![1]));
    assert_eq!(b.cards_in_column(99), None);
}

#[test]
fn missing_card_is_not_found() {
    let mut b = board_with(&[1]);
    assert_eq!(b.move_card(42, at(COL, 0)), Err(Error::CardNotFound));
    assert_eq!(b.delete_card(42), Err(Error::CardNotFound));
    assert_eq!(b.find_card(42), None);
}

#[test]
fn add_column_twice_fails_second_time() {
    let mut b = Board::new();
    assert!(b.add_column(1));
    assert!(!b.add_column(1));
    assert!(b.add_column(2));
}

#[test]
fn content_row_travels_with_card() {
    let mut b = Board::new();
    b.add_column(COL);
    b.insert_card(
        Card { id: 5, title: String::from("title"), description: String::from("desc") },
        at(COL, 0),
    )
    .unwrap();
    let c = b.get_card(5).unwrap();
    assert_eq!(c.title, "title");
    assert_eq!(c.description, "desc");
    b.delete_card(5).unwrap();
    assert!(b.get_card(5).is_none());
}

#[test]
fn empty_column_accepts_first_insert() {
    let mut b = Board::new();
    b.add_column(COL);
    assert_eq!(b.column_count(COL), Some(0));
    b.insert_card(card(1, "first"), at(COL, 5)).unwrap();
    assert_eq!(b.find_card(1), Some(at(COL, 0)));
}
