use upvotes::rank::rank;
use upvotes::tally::Tally;

#[test]
fn ranking_drops_zero_counts_and_sorts_descending() {
    // Tally {1: 3, 2: 0, 3: 5, 4: 3}.
    let mut t = Tally::new();
    t.add(1, 3);
    t.add(2, 0);
    t.add(3, 5);
    t.add(4, 3);
    let r = rank(&t);
    assert_eq!(r.len(), 3);
    assert_eq!((r[0].id, r[0].count, r[0].position), (3, 5, 1));
    // Ties keep insertion order: id 1 entered the tally before id 4.
    assert_eq!((r[1].id, r[1].count, r[1].position), (1, 3, 2));
    assert_eq!((r[2].id, r[2].count, r[2].position), (4, 3, 3));
}

#[test]
fn empty_tally_ranks_empty() {
    let t = Tally::new();
    assert_eq!(rank(&t).len(), 0);
}

#[test]
fn all_zero_tally_ranks_empty() {
    let mut t = Tally::new();
    t.add(1, 0);
    t.add(2, 0);
    assert_eq!(rank(&t).len(), 0);
}

#[test]
fn positions_are_dense_and_one_based() {
    let mut t = Tally::new();
    t.add(10, 1);
    t.add(20, 7);
    t.add(30, 4);
    let r = rank(&t);
    let positions: Vec<u64> = r.iter().map(|e| e.position).collect();
    assert_eq!(positions, vec![1, 2, 3]);
    let ids: Vec<u64> = r.iter().map(|e| e.id).collect();
    assert_eq!(ids, vec![20, 30, 10]);
}
