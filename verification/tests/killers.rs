use zugzwang::killers::KillerMoves;
use zugzwang::moves::Move;
use zugzwang::square::Square;

#[test]
fn unrecorded_ply_has_no_killers() {
    let killers = KillerMoves::new();
    assert_eq!(killers.get(3), [None, None]);
}

#[test]
fn stored_move_becomes_the_primary_killer() {
    let mut killers = KillerMoves::new();
    let mv = Move::new(Square::new(4, 1), Square::new(4, 3));
    killers.store(2, mv);
    assert_eq!(killers.get(2), [Some(mv), None]);
}

#[test]
fn a_second_distinct_move_pushes_the_first_into_the_backup_slot() {
    let mut killers = KillerMoves::new();
    let first = Move::new(Square::new(4, 1), Square::new(4, 3));
    let second = Move::new(Square::new(3, 1), Square::new(3, 3));
    killers.store(2, first);
    killers.store(2, second);
    assert_eq!(killers.get(2), [Some(second), Some(first)]);
}

#[test]
fn storing_the_same_move_again_does_not_duplicate_it() {
    let mut killers = KillerMoves::new();
    let mv = Move::new(Square::new(4, 1), Square::new(4, 3));
    killers.store(2, mv);
    killers.store(2, mv);
    assert_eq!(killers.get(2), [Some(mv), None]);
}
