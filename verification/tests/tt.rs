use zugzwang::tt::{Bound, TTEntry, TranspositionTable};

#[test]
fn miss_on_an_empty_table() {
    let tt = TranspositionTable::new(1);
    assert!(tt.get(42).is_none());
}

#[test]
fn stores_and_retrieves_an_entry() {
    let mut tt = TranspositionTable::new(1);
    let entry = TTEntry {
        key: 123,
        depth: 4,
        score: 50,
        bound: Bound::Exact,
    };
    tt.store(entry);
    let found = tt.get(123).unwrap();
    assert_eq!(found.score, 50);
    assert_eq!(found.depth, 4);
    assert_eq!(found.bound, Bound::Exact);
}

#[test]
fn a_bucket_collision_does_not_return_the_wrong_position() {
    let mut tt = TranspositionTable::new(1);
    // Two keys that land in the same bucket (same low bits, since the
    // table's mask only looks at those) must not be confused for
    // each other.
    let capacity = tt.capacity();
    let key_a = 7u64;
    let key_b = key_a + capacity as u64;
    tt.store(TTEntry {
        key: key_a,
        depth: 1,
        score: 10,
        bound: Bound::Exact,
    });
    assert!(tt.get(key_b).is_none());
}

#[test]
fn storing_again_replaces_the_previous_entry() {
    let mut tt = TranspositionTable::new(1);
    tt.store(TTEntry {
        key: 5,
        depth: 1,
        score: 10,
        bound: Bound::Exact,
    });
    tt.store(TTEntry {
        key: 5,
        depth: 2,
        score: 20,
        bound: Bound::Lower,
    });
    let found = tt.get(5).unwrap();
    assert_eq!(found.depth, 2);
    assert_eq!(found.score, 20);
    assert_eq!(found.bound, Bound::Lower);
}
