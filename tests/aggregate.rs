use receipts::aggregate::{group_by_keys, group_by_month, ParseError};
use receipts::month::MonthKey;
use receipts::receipt::Receipt;

fn receipt(key: &str, store: &str, date: &str, amount: u64) -> Receipt {
    Receipt::new(key.to_string(), store.to_string(), date.to_string(), amount)
}

fn keys_of(rs: &[Receipt]) -> Vec<String> {
    rs.iter().map(|r| r.key.clone()).collect()
}

#[test]
fn groups_three_receipts_into_two_months() {
    let rs = vec![
        receipt("a", "X", "2024-01-15T10:00:00Z", 1250),
        receipt("b", "Y", "2024-01-20T08:00:00Z", 750),
        receipt("c", "Z", "2024-02-01T09:00:00Z", 2000),
    ];
    let gs = group_by_month(&rs).unwrap();
    assert_eq!(gs.len(), 2);
    assert_eq!(gs[0].key.label(), "2024-01");
    assert_eq!(keys_of(&gs[0].receipts), vec!["a", "b"]);
    assert_eq!(gs[0].total, 2000);
    assert_eq!(gs[1].key.label(), "2024-02");
    assert_eq!(keys_of(&gs[1].receipts), vec!["c"]);
    assert_eq!(gs[1].total, 2000);
}

#[test]
fn empty_list_gives_no_groups() {
    let gs = group_by_month(&Vec::new()).unwrap();
    assert!(gs.is_empty());
}

#[test]
fn invalid_month_is_a_parse_error() {
    let rs = vec![
        receipt("a", "X", "2024-01-15T10:00:00Z", 100),
        receipt("b", "Y", "2024-13-01T00:00:00Z", 200),
    ];
    assert_eq!(group_by_month(&rs).unwrap_err(), ParseError { index: 1 });
}

#[test]
fn first_bad_timestamp_is_reported() {
    let rs = vec![
        receipt("a", "X", "not a date", 100),
        receipt("b", "Y", "2024-13-01T00:00:00Z", 200),
    ];
    assert_eq!(group_by_month(&rs).unwrap_err(), ParseError { index: 0 });
}

#[test]
fn timestamp_without_zone_marker_is_rejected() {
    let rs = vec![receipt("a", "X", "2024-01-15T10:00:00", 100)];
    assert!(group_by_month(&rs).is_err());
}

#[test]
fn groups_come_out_in_chronological_order() {
    let rs = vec![
        receipt("a", "X", "2024-03-02T00:00:00Z", 1),
        receipt("b", "X", "2023-12-31T23:59:59Z", 2),
        receipt("c", "X", "2024-01-01T00:00:00Z", 3),
        receipt("d", "X", "2024-03-30T00:00:00Z", 4),
        receipt("e", "X", "2023-12-01T00:00:00Z", 5),
    ];
    let gs = group_by_month(&rs).unwrap();
    let labels: Vec<String> = gs.iter().map(|g| g.key.label()).collect();
    assert_eq!(labels, vec!["2023-12", "2024-01", "2024-03"]);
    assert_eq!(keys_of(&gs[0].receipts), vec!["b", "e"]);
    assert_eq!(keys_of(&gs[2].receipts), vec!["a", "d"]);
    assert_eq!(gs[0].total, 7);
    assert_eq!(gs[1].total, 3);
    assert_eq!(gs[2].total, 5);
}

#[test]
fn every_receipt_lands_in_exactly_one_group() {
    let rs = vec![
        receipt("a", "X", "2024-05-02T00:00:00Z", 10),
        receipt("b", "X", "2024-06-02T00:00:00Z", 20),
        receipt("c", "X", "2024-05-09T00:00:00Z", 30),
        receipt("d", "X", "2025-05-09T00:00:00Z", 40),
    ];
    let gs = group_by_month(&rs).unwrap();
    let mut all: Vec<String> = gs.iter().flat_map(|g| keys_of(&g.receipts)).collect();
    all.sort();
    assert_eq!(all, vec!["a", "b", "c", "d"]);
    let sum: u128 = gs.iter().map(|g| g.total).sum();
    assert_eq!(sum, 100);
}

#[test]
fn totals_are_exact_for_large_amounts() {
    let rs = vec![
        receipt("a", "X", "2024-01-01T00:00:00Z", u64::MAX),
        receipt("b", "X", "2024-01-02T00:00:00Z", u64::MAX),
    ];
    let gs = group_by_month(&rs).unwrap();
    assert_eq!(gs[0].total, 2 * (u64::MAX as u128));
}

#[test]
fn grouping_by_given_keys() {
    let rs = vec![
        receipt("a", "X", "", 1),
        receipt("b", "X", "", 2),
        receipt("c", "X", "", 4),
    ];
    let ks = vec![
        MonthKey { year: 2020, month: 5 },
        MonthKey { year: 2019, month: 5 },
        MonthKey { year: 2020, month: 5 },
    ];
    let gs = group_by_keys(&rs, &ks);
    assert_eq!(gs.len(), 2);
    assert_eq!(gs[0].key, MonthKey { year: 2019, month: 5 });
    assert_eq!(gs[0].total, 2);
    assert_eq!(keys_of(&gs[1].receipts), vec!["a", "c"]);
    assert_eq!(gs[1].total, 5);
}

#[test]
fn month_labels_are_zero_padded() {
    assert_eq!(MonthKey { year: 2024, month: 1 }.label(), "2024-01");
    assert_eq!(MonthKey { year: 987, month: 12 }.label(), "0987-12");
    assert_eq!(MonthKey { year: 0, month: 3 }.label(), "0000-03");
    assert_eq!(MonthKey { year: -5, month: 7 }.label(), "-0005-07");
    assert_eq!(MonthKey { year: 12345, month: 10 }.label(), "+12345-10");
}

#[test]
fn month_order_is_by_year_then_month() {
    let a = MonthKey { year: 2023, month: 12 };
    let b = MonthKey { year: 2024, month: 1 };
    assert!(a.is_before(&b));
    assert!(!b.is_before(&a));
    assert!(!a.is_before(&a));
}

#[test]
fn label_text_order_follows_time() {
    let keys = [
        MonthKey { year: 999, month: 12 },
        MonthKey { year: 2023, month: 9 },
        MonthKey { year: 2023, month: 10 },
        MonthKey { year: 2024, month: 1 },
    ];
    for a in &keys {
        for b in &keys {
            assert_eq!(a.is_before(b), a.label() < b.label());
        }
    }
}
