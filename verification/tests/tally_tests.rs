use upvotes::tally::{count_matching, thumbs_up_label, Actor, Reaction, Tally};

fn reaction(kind: &str, handle: &str) -> Reaction {
    Reaction { kind: kind.to_string(), actor: Actor { handle: handle.to_string() } }
}

#[test]
fn only_the_target_label_is_counted() {
    let rs = vec![
        reaction("+1", "a"),
        reaction("-1", "b"),
        reaction("laugh", "c"),
        reaction("+1", "d"),
    ];
    let label = thumbs_up_label();
    assert_eq!(count_matching(&rs, &label), 2);
}

#[test]
fn empty_reaction_list_counts_zero() {
    let rs: Vec<Reaction> = Vec::new();
    assert_eq!(count_matching(&rs, &thumbs_up_label()), 0);
}

#[test]
fn contributions_for_one_id_accumulate() {
    let mut t = Tally::new();
    t.add(7, 2);
    t.add(7, 3);
    assert_eq!(t.get(7), 5);
    assert_eq!(t.entries, vec![(7, 5)]);
}

#[test]
fn absent_id_counts_zero() {
    let mut t = Tally::new();
    t.add(1, 4);
    assert_eq!(t.get(2), 0);
}

#[test]
fn record_reactions_counts_and_adds() {
    let mut t = Tally::new();
    let label = thumbs_up_label();
    t.record_reactions(3, &vec![reaction("+1", "a"), reaction("heart", "b")], &label);
    t.record_reactions(3, &vec![reaction("+1", "c"), reaction("+1", "d")], &label);
    assert_eq!(t.get(3), 3);
}

#[test]
fn aggregation_order_does_not_matter() {
    // Fixed reaction data for ids 1, 2, 3: counts 2, 0, 1.
    let data = [(1u64, 2u64), (2, 0), (3, 1)];
    let orders: [[usize; 3]; 6] =
        [[0, 1, 2], [0, 2, 1], [1, 0, 2], [1, 2, 0], [2, 0, 1], [2, 1, 0]];
    let mut reference = Tally::new();
    for &(id, c) in data.iter() {
        reference.add(id, c);
    }
    for order in orders.iter() {
        let mut t = Tally::new();
        for &k in order.iter() {
            let (id, c) = data[k];
            t.add(id, c);
        }
        for &(id, _) in data.iter() {
            assert_eq!(t.get(id), reference.get(id));
        }
    }
}

#[test]
fn merging_partial_tallies_matches_sequential_aggregation() {
    // Two workers tallied disjoint fetches; a third saw id 1 again.
    let mut a = Tally::new();
    a.add(1, 2);
    a.add(2, 1);
    let mut b = Tally::new();
    b.add(3, 4);
    b.add(1, 1);

    let mut left = Tally::new();
    left.merge_from(&a);
    left.merge_from(&b);

    let mut right = Tally::new();
    right.merge_from(&b);
    right.merge_from(&a);

    for id in [1u64, 2, 3] {
        assert_eq!(left.get(id), right.get(id));
    }
    assert_eq!(left.get(1), 3);
    assert_eq!(left.get(2), 1);
    assert_eq!(left.get(3), 4);
}

#[test]
fn counts_saturate_instead_of_wrapping() {
    let mut t = Tally::new();
    t.add(1, u64::MAX - 1);
    t.add(1, 5);
    assert_eq!(t.get(1), u64::MAX);
}
