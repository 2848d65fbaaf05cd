use zugzwang::history::HistoryTable;
use zugzwang::moves::Move;
use zugzwang::square::Square;

#[test]
fn unrecorded_move_has_zero_history() {
    let table = HistoryTable::new();
    let mv = Move::new(Square::new(4, 1), Square::new(4, 3));
    assert_eq!(table.get(mv), 0);
}

#[test]
fn recording_a_cutoff_increases_its_history_score() {
    let mut table = HistoryTable::new();
    let mv = Move::new(Square::new(4, 1), Square::new(4, 3));
    table.record(mv, 3);
    assert_eq!(table.get(mv), 9);
}

#[test]
fn deeper_cutoffs_add_more_weight_than_shallow_ones() {
    let mut table = HistoryTable::new();
    let shallow = Move::new(Square::new(4, 1), Square::new(4, 3));
    let deep = Move::new(Square::new(3, 1), Square::new(3, 3));
    table.record(shallow, 1);
    table.record(deep, 4);
    assert!(table.get(deep) > table.get(shallow));
}

#[test]
fn repeated_cutoffs_accumulate() {
    let mut table = HistoryTable::new();
    let mv = Move::new(Square::new(4, 1), Square::new(4, 3));
    table.record(mv, 2);
    table.record(mv, 2);
    assert_eq!(table.get(mv), 8);
}
