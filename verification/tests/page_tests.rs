use upvotes::page::{filter_page, item_ids, Item, PageOutcome, Paginator};

fn item(id: u64, container: bool) -> Item {
    Item { id, title: format!("issue {}", id), is_container_link: container }
}

#[test]
fn container_links_are_filtered_out() {
    let page = vec![item(1, false), item(2, true), item(3, false)];
    let kept = filter_page(page);
    let ids: Vec<u64> = item_ids(&kept);
    assert_eq!(ids, vec![1, 3]);
}

#[test]
fn filtering_twice_changes_nothing() {
    let page = vec![item(1, false), item(2, true), item(3, false)];
    let once = filter_page(page);
    let ids_once = item_ids(&once);
    let twice = filter_page(once);
    assert_eq!(item_ids(&twice), ids_once);
}

#[test]
fn success_with_next_link_continues() {
    let mut p = Paginator::new();
    assert!(!p.done);
    p.on_page(PageOutcome::Success {
        items: vec![item(1, false)],
        link_header: Some(b"<https://api.example/issues?page=2>; rel=\"next\"".to_vec()),
    });
    assert!(!p.done);
    assert_eq!(
        p.cursor.as_deref(),
        Some(b"https://api.example/issues?page=2".as_slice())
    );
}

#[test]
fn success_without_link_header_terminates_after_one_page() {
    let mut p = Paginator::new();
    p.on_page(PageOutcome::Success { items: vec![item(1, false), item(2, false)], link_header: None });
    assert!(p.done);
    assert_eq!(item_ids(&p.into_items()), vec![1, 2]);
}

#[test]
fn success_without_next_relation_terminates_after_one_page() {
    let mut p = Paginator::new();
    p.on_page(PageOutcome::Success {
        items: vec![item(1, false)],
        link_header: Some(b"<https://api.example/issues?page=1>; rel=\"prev\"".to_vec()),
    });
    assert!(p.done);
    assert_eq!(item_ids(&p.into_items()), vec![1]);
}

#[test]
fn failure_keeps_items_collected_so_far() {
    let mut p = Paginator::new();
    p.on_page(PageOutcome::Success {
        items: vec![item(1, false), item(2, false)],
        link_header: Some(b"<https://api.example/issues?page=2>; rel=\"next\"".to_vec()),
    });
    p.on_page(PageOutcome::Failure);
    assert!(p.done);
    assert_eq!(item_ids(&p.into_items()), vec![1, 2]);
}

#[test]
fn pages_accumulate_in_order() {
    let mut p = Paginator::new();
    p.on_page(PageOutcome::Success {
        items: vec![item(1, false), item(2, true)],
        link_header: Some(b"<https://api.example/issues?page=2>; rel=\"next\"".to_vec()),
    });
    p.on_page(PageOutcome::Success { items: vec![item(3, false)], link_header: None });
    assert!(p.done);
    assert_eq!(item_ids(&p.into_items()), vec![1, 3]);
}
