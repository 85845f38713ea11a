use receipts::fetch::{DetailFetch, Pagination};
use receipts::receipt::Receipt;

fn receipt(key: &str) -> Receipt {
    Receipt::new(key.to_string(), "S".to_string(), "2024-01-01T00:00:00Z".to_string(), 1)
}

fn page(keys: &[&str]) -> Vec<Receipt> {
    keys.iter().map(|k| receipt(k)).collect()
}

fn run(pages: &[Vec<Receipt>], page_size: u64) -> Option<Vec<Receipt>> {
    let mut p = Pagination::new("sender".to_string(), page_size);
    for pg in pages {
        if p.next_request().is_none() {
            break;
        }
        p.on_page(pg.clone());
    }
    p.into_receipts()
}

#[test]
fn pages_are_requested_at_advancing_offsets() {
    let mut p = Pagination::new("acme".to_string(), 2);
    let q = p.next_request().unwrap();
    assert_eq!((q.sender_key.as_str(), q.limit, q.offset), ("acme", 2, 0));
    p.on_page(page(&["a", "b"]));
    let q = p.next_request().unwrap();
    assert_eq!(q.offset, 2);
    p.on_page(page(&["c"]));
    assert!(p.is_finished());
    assert!(p.next_request().is_none());
    let keys: Vec<String> = p.into_receipts().unwrap().iter().map(|r| r.key.clone()).collect();
    assert_eq!(keys, vec!["a", "b", "c"]);
}

#[test]
fn empty_page_ends_the_run() {
    let mut p = Pagination::new("acme".to_string(), 2);
    p.on_page(page(&["a", "b"]));
    p.on_page(Vec::new());
    assert!(p.is_finished());
    assert_eq!(p.into_receipts().unwrap().len(), 2);
}

#[test]
fn unfinished_run_has_nothing_to_store() {
    let mut p = Pagination::new("acme".to_string(), 2);
    p.on_page(page(&["a", "b"]));
    assert!(!p.is_finished());
    assert!(p.into_receipts().is_none());
}

#[test]
fn refetching_the_same_pages_stores_the_same_list() {
    let pages = vec![page(&["a", "b"]), page(&["c", "d"]), page(&["e"])];
    let first = run(&pages, 2).unwrap();
    let second = run(&pages, 2).unwrap();
    let keys = |v: &Vec<Receipt>| v.iter().map(|r| r.key.clone()).collect::<Vec<_>>();
    assert_eq!(keys(&first), keys(&second));
    assert_eq!(first.len(), 5);
}

#[test]
fn detail_failure_moves_on_to_the_next_key() {
    let rs = page(&["a", "b", "c"]);
    let mut d = DetailFetch::new(&rs);
    assert_eq!(d.next_request().unwrap().key, "a");
    d.on_result(true);
    assert_eq!(d.next_request().unwrap().key, "b");
    d.on_result(false);
    assert_eq!(d.next_request().unwrap().key, "c");
    d.on_result(true);
    assert!(d.next_request().is_none());
    assert_eq!(d.failed_keys(), &vec!["b".to_string()]);
    assert_eq!(rs.len(), 3);
}

#[test]
fn detail_run_over_no_receipts_is_done_at_once() {
    let d = DetailFetch::new(&Vec::new());
    assert!(d.next_request().is_none());
    assert!(d.failed_keys().is_empty());
}
