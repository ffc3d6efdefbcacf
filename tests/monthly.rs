use neo_budget::finance::{Finance, FinanceLog, Product, YearMonth};
use neo_budget::stats::FinanceStats;

fn month(year: i16, month: u8) -> YearMonth {
    YearMonth::new(year, month).unwrap()
}

#[test]
fn product_totals_by_year_month() {
    let finance = Finance::new()
        .with_log(FinanceLog::new("prod1", 1000, month(2021, 1)))
        .with_log(FinanceLog::new("prod2", 2000, month(2022, 2)));

    let stats = FinanceStats::new(finance);

    let totals_by_year_month = stats.product_totals_by_year_month();

    assert_eq!(
        totals_by_year_month
            .get(&month(2021, 1))
            .unwrap()
            .labeled
            .get("prod1")
            .unwrap(),
        1000
    );

    assert_eq!(
        totals_by_year_month
            .get(&month(2022, 2))
            .unwrap()
            .labeled
            .get("prod2")
            .unwrap(),
        2000
    );
}

#[test]
fn category_totals_by_year_month() {
    let finance = Finance::new()
        .with_log(FinanceLog::new("prod1", 1000, month(2021, 1)))
        .with_log(FinanceLog::new("prod2", 2000, month(2022, 2)))
        .with_log(FinanceLog::new("prod3", 3000, month(2022, 3)))
        .with_product(&Product::new("prod1", "cat1"))
        .with_product(&Product::new("prod2", "cat2"));

    let stats = FinanceStats::new(finance);

    let totals_by_year_month = stats.category_totals_by_year_month();

    assert_eq!(
        totals_by_year_month
            .get(&month(2021, 1))
            .unwrap()
            .labeled
            .get("cat1"),
        Some(1000)
    );

    assert_eq!(
        totals_by_year_month
            .get(&month(2022, 2))
            .unwrap()
            .labeled
            .get("cat2"),
        Some(2000)
    );

    assert_eq!(
        totals_by_year_month
            .get(&month(2022, 3))
            .unwrap()
            .unlabeled,
        3000
    );
}

#[test]
fn scenario_two_months_stay_apart() {
    let finance = Finance::new()
        .with_log(FinanceLog::new("Bread", 1000, month(2021, 1)))
        .with_log(FinanceLog::new("Bread", 500, month(2021, 2)));
    let totals = FinanceStats::new(finance).product_totals_by_year_month();

    assert_eq!(totals.year_months(), vec![month(2021, 1), month(2021, 2)]);
    let january = totals.get(&month(2021, 1)).unwrap();
    let february = totals.get(&month(2021, 2)).unwrap();
    assert_eq!(january.labeled.to_vec(), vec![("Bread".to_string(), 1000)]);
    assert_eq!(february.labeled.to_vec(), vec![("Bread".to_string(), 500)]);
    assert_eq!(january.unlabeled, 0);
    assert_eq!(february.unlabeled, 0);
    assert!(totals.get(&month(2021, 3)).is_none());
}

#[test]
fn month_totals_add_up_to_the_month_sum() {
    let finance = Finance::new()
        .with_product(&Product::new("Bread", "Food"))
        .with_product(&Product::new("Eggs", "Food"))
        .with_product(&Product::new("Soap", "Home"))
        .with_log(FinanceLog::new("Bread", 1000, month(2021, 1)))
        .with_log(FinanceLog::new("Eggs", 1500, month(2021, 1)))
        .with_log(FinanceLog::new("Soap", 700, month(2021, 1)))
        .with_log(FinanceLog::new("Candle", 300, month(2021, 1)))
        .with_log(FinanceLog::new("Bread", 250, month(2021, 2)));
    let totals = FinanceStats::new(finance).category_totals_by_year_month();

    let january = totals.get(&month(2021, 1)).unwrap();
    assert_eq!(january.labeled.get("Food"), Some(2500));
    assert_eq!(january.labeled.get("Home"), Some(700));
    assert_eq!(january.unlabeled, 300);
    let labeled_sum: i128 = january.labeled.to_vec().iter().map(|(_, t)| *t).sum();
    assert_eq!(labeled_sum + january.unlabeled, 1000 + 1500 + 700 + 300);

    let february = totals.get(&month(2021, 2)).unwrap();
    assert_eq!(february.labeled.to_vec(), vec![("Food".to_string(), 250)]);
}

#[test]
fn empty_log_has_no_months() {
    let totals = FinanceStats::new(Finance::new()).product_totals_by_year_month();

    assert!(totals.year_months().is_empty());
}
