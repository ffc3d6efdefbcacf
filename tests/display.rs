use std::cmp::Ordering;

use neo_budget::display::{
    compare_labels, compare_year_months, sorted_labeled_logs, sorted_year_months, unlabeled_row,
};
use neo_budget::finance::{Finance, FinanceLog, YearMonth};
use neo_budget::stats::{FinanceStats, GroupedTotals, LabeledTotals};

#[test]
fn test_sorted_labeled_logs() {
    let mut labeled = LabeledTotals::new();
    labeled.add("b".to_owned(), 200);
    labeled.add("c".to_owned(), 300);
    labeled.add("a".to_owned(), 100);

    let input = GroupedTotals {
        labeled,
        unlabeled: 0,
    };
    let result = sorted_labeled_logs(&input);

    assert_eq!(
        result,
        vec![
            ("a".to_owned(), 100),
            ("b".to_owned(), 200),
            ("c".to_owned(), 300)
        ],
    );
}

#[test]
fn labels_compare_by_character() {
    let s = |x: &str| x.to_string();
    assert_eq!(compare_labels(&s("apple"), &s("banana")), Ordering::Less);
    assert_eq!(compare_labels(&s("banana"), &s("apple")), Ordering::Greater);
    assert_eq!(compare_labels(&s("Food"), &s("Food")), Ordering::Equal);
    assert_eq!(compare_labels(&s("Food"), &s("Foods")), Ordering::Less);
    assert_eq!(compare_labels(&s(""), &s("a")), Ordering::Less);
    assert_eq!(compare_labels(&s("Zebra"), &s("apple")), Ordering::Less);
    assert_eq!(compare_labels(&s("é"), &s("z")), Ordering::Greater);
}

#[test]
fn unlabeled_sum_is_listed_only_above_zero() {
    let with = GroupedTotals {
        labeled: LabeledTotals::new(),
        unlabeled: 300,
    };
    let without = GroupedTotals::default();
    let negative = GroupedTotals {
        labeled: LabeledTotals::new(),
        unlabeled: -5,
    };

    assert_eq!(unlabeled_row(&with), Some(300));
    assert_eq!(unlabeled_row(&without), None);
    assert_eq!(unlabeled_row(&negative), None);
}

#[test]
fn adding_to_a_label_accumulates() {
    let mut labeled = LabeledTotals::new();
    labeled.add("Food".to_owned(), 1000);
    labeled.add("Home".to_owned(), 300);
    labeled.add("Food".to_owned(), 250);

    assert_eq!(labeled.get("Food"), Some(1250));
    assert_eq!(labeled.get("Home"), Some(300));
    assert_eq!(labeled.get("Toys"), None);
    assert_eq!(
        labeled.to_vec(),
        vec![("Food".to_owned(), 1250), ("Home".to_owned(), 300)]
    );
}

#[test]
fn months_are_listed_earliest_first() {
    let month = |year: i16, month: u8| YearMonth::new(year, month).unwrap();
    let finance = Finance::new()
        .with_log(FinanceLog::new("Bread", 100, month(2022, 3)))
        .with_log(FinanceLog::new("Bread", 100, month(2021, 11)))
        .with_log(FinanceLog::new("Eggs", 100, month(2022, 1)))
        .with_log(FinanceLog::new("Milk", 100, month(2021, 11)));
    let totals = FinanceStats::new(finance).product_totals_by_year_month();

    assert_eq!(
        sorted_year_months(&totals),
        vec![month(2021, 11), month(2022, 1), month(2022, 3)]
    );
    assert_eq!(compare_year_months(&month(2021, 12), &month(2022, 1)), Ordering::Less);
    assert_eq!(compare_year_months(&month(2022, 2), &month(2022, 1)), Ordering::Greater);
    assert_eq!(compare_year_months(&month(2022, 2), &month(2022, 2)), Ordering::Equal);
}
