use upvotes::page::{item_ids, Item, PageOutcome, Paginator};
use upvotes::rank::rank;
use upvotes::tally::{thumbs_up_label, Actor, Reaction, Tally};

fn item(id: u64) -> Item {
    Item { id, title: format!("issue {}", id), is_container_link: false }
}

fn plus_one(handle: &str) -> Reaction {
    Reaction { kind: "+1".to_string(), actor: Actor { handle: handle.to_string() } }
}

#[test]
fn two_page_listing_with_reactions_ranks_exactly_the_reacted_items() {
    // Page 1: 100 items and a "next" link; page 2: 5 items, no "next" link.
    let mut p = Paginator::new();
    assert!(p.cursor.is_none());
    p.on_page(PageOutcome::Success {
        items: (1..=100).map(item).collect(),
        link_header: Some(b"<https://api.example/issues?page=2>; rel=\"next\"".to_vec()),
    });
    assert!(!p.done);
    assert_eq!(
        p.cursor.as_deref(),
        Some(b"https://api.example/issues?page=2".as_slice())
    );
    p.on_page(PageOutcome::Success {
        items: (101..=105).map(item).collect(),
        link_header: None,
    });
    assert!(p.done);
    let items = p.into_items();
    assert_eq!(items.len(), 105);

    // Reaction fetches: ids 7, 42 and 103 carry thumbs-up reactions.
    let label = thumbs_up_label();
    let mut tally = Tally::new();
    for id in item_ids(&items) {
        let reactions: Vec<Reaction> = match id {
            7 => vec![plus_one("a"), plus_one("b")],
            42 => vec![plus_one("c"), plus_one("d"), plus_one("e")],
            103 => vec![plus_one("f")],
            _ => Vec::new(),
        };
        tally.record_reactions(id, &reactions, &label);
    }

    let ranked = rank(&tally);
    assert_eq!(ranked.len(), 3);
    assert_eq!((ranked[0].id, ranked[0].count, ranked[0].position), (42, 3, 1));
    assert_eq!((ranked[1].id, ranked[1].count, ranked[1].position), (7, 2, 2));
    assert_eq!((ranked[2].id, ranked[2].count, ranked[2].position), (103, 1, 3));
}

#[test]
fn transport_failure_on_page_two_keeps_page_one_items() {
    let mut p = Paginator::new();
    p.on_page(PageOutcome::Success {
        items: (1..=100).map(item).collect(),
        link_header: Some(b"<https://api.example/issues?page=2>; rel=\"next\"".to_vec()),
    });
    assert!(!p.done);
    p.on_page(PageOutcome::Failure);
    assert!(p.done);
    let items = p.into_items();
    assert_eq!(item_ids(&items), (1..=100).collect::<Vec<u64>>());
}
