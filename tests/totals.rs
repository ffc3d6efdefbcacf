use neo_budget::finance::{Finance, FinanceLog, Price, Product, YearMonth};
use neo_budget::stats::ExpenditureLogStats;

fn january_2021() -> YearMonth {
    YearMonth::new(2021, 1).unwrap()
}

fn log(product: &str, price: Price) -> FinanceLog {
    FinanceLog::new(product, price, january_2021())
}

#[test]
fn lib_expenditure_log_product_total() {
    let log = Finance::new().with_log(log("prod1", 1000));
    let stats = ExpenditureLogStats::new(log);

    assert_eq!(stats.product_total("prod1"), 1000);
}

#[test]
fn lib_expenditure_log_category_total() {
    let log = Finance::new()
        .with_product(&Product::new("prod1", "cat1"))
        .with_log(log("prod1", 1000));
    let expenditure_log = ExpenditureLogStats::new(log);

    assert_eq!(expenditure_log.category_total("cat1"), 1000);
}

#[test]
fn lib_product_totals() {
    let log = Finance::new().with_log(log("prod1", 1000));
    let expenditure_log = ExpenditureLogStats::new(log);

    assert_eq!(expenditure_log.product_totals().get("prod1"), Some(1000));
}

#[test]
fn lib_category_totals() {
    let log = Finance::new()
        .with_product(&Product::new("prod1", "cat1"))
        .with_log(log("prod1", 1000));
    let expenditure_log = ExpenditureLogStats::new(log);

    assert_eq!(expenditure_log.category_totals().get("cat1"), Some(1000));
}

#[test]
fn mod_expenditure_log_product_total() {
    let log = Finance::new().with_log(log("prod1", 1000));
    let stats = ExpenditureLogStats::new(log);

    assert_eq!(stats.product_total("prod1"), 1000);
}

#[test]
fn mod_expenditure_log_category_total() {
    let log = Finance::new()
        .with_product(&Product::new("prod1", "cat1"))
        .with_log(log("prod1", 1000));
    let expenditure_log = ExpenditureLogStats::new(log);

    assert_eq!(expenditure_log.category_total("cat1"), 1000);
}

#[test]
fn mod_product_totals() {
    let log = Finance::new().with_log(log("prod1", 1000));
    let expenditure_log = ExpenditureLogStats::new(log);

    assert_eq!(expenditure_log.product_totals().get("prod1"), Some(1000));
}

#[test]
fn mod_category_totals() {
    let log = Finance::new()
        .with_product(&Product::new("prod1", "cat1"))
        .with_log(log("prod1", 1000));
    let expenditure_log = ExpenditureLogStats::new(log);

    assert_eq!(expenditure_log.category_totals().get("cat1"), Some(1000));
}

#[test]
fn product_total_sums_every_purchase_of_the_product() {
    let finance = Finance::new()
        .with_log(log("Bread", 1000))
        .with_log(log("Eggs", 1500))
        .with_log(log("Bread", 250))
        .with_product(&Product::new("Eggs", "Food"));
    let stats = ExpenditureLogStats::new(finance);

    assert_eq!(stats.product_total("Bread"), 1250);
    assert_eq!(stats.product_total("Eggs"), 1500);
    assert_eq!(stats.product_total("Milk"), 0);
}

#[test]
fn product_total_ignores_the_catalog() {
    let plain = Finance::new().with_log(log("Bread", 1000)).with_log(log("Bread", 500));
    let filed = Finance::new()
        .with_product(&Product::new("Bread", "Food"))
        .with_log(log("Bread", 1000))
        .with_log(log("Bread", 500));

    assert_eq!(ExpenditureLogStats::new(plain).product_total("Bread"), 1500);
    assert_eq!(ExpenditureLogStats::new(filed).product_total("Bread"), 1500);
}

#[test]
fn category_total_leaves_out_unregistered_products() {
    let finance = Finance::new()
        .with_product(&Product::new("Bread", "Food"))
        .with_log(log("Bread", 1000))
        .with_log(log("Soap", 300))
        .with_log(log("Bread", 200));
    let stats = ExpenditureLogStats::new(finance);

    assert_eq!(stats.category_total("Food"), 1200);
    assert_eq!(stats.category_total("Home"), 0);
    assert_eq!(stats.category_totals().get("Food"), Some(1200));
    assert_eq!(stats.category_totals().to_vec().len(), 1);
}

#[test]
fn scenario_single_unregistered_purchase() {
    let finance = Finance::new().with_log(log("Bread", 1000));
    let stats = ExpenditureLogStats::new(finance);

    let products = stats.product_totals().to_vec();
    assert_eq!(products, vec![("Bread".to_string(), 1000)]);
    assert!(stats.category_totals().to_vec().is_empty());
}

#[test]
fn scenario_two_products_one_category() {
    let finance = Finance::new()
        .with_log(log("Bread", 1000))
        .with_log(log("Eggs", 1500))
        .with_product(&Product::new("Bread", "Food"))
        .with_product(&Product::new("Eggs", "Food"));
    let stats = ExpenditureLogStats::new(finance);

    assert_eq!(stats.category_total("Food"), 2500);
}

#[test]
fn re_registering_a_product_moves_it_to_the_new_category() {
    let finance = Finance::new()
        .with_product(&Product::new("Bread", "Food"))
        .with_product(&Product::new("Bread", "Bakery"))
        .with_log(log("Bread", 1000));

    assert_eq!(finance.get_category_for("Bread"), Some("Bakery".to_string()));
    assert_eq!(finance.products().len(), 1);
    let stats = ExpenditureLogStats::new(finance);
    assert_eq!(stats.category_total("Food"), 0);
    assert_eq!(stats.category_total("Bakery"), 1000);
}

#[test]
fn unregistered_product_has_no_category() {
    let finance = Finance::new().with_product(&Product::new("Bread", "Food"));

    assert_eq!(finance.get_category_for("Eggs"), None);
    assert_eq!(finance.get_category_for("Bread"), Some("Food".to_string()));
}

#[test]
fn year_month_rejects_month_numbers_outside_the_calendar() {
    assert!(YearMonth::new(2021, 0).is_none());
    assert!(YearMonth::new(2021, 13).is_none());
    let december = YearMonth::new(2021, 12).unwrap();
    assert_eq!(december.year(), 2021);
    assert_eq!(december.month(), 12);
}

#[test]
fn product_totals_handle_the_largest_prices() {
    let finance = Finance::new()
        .with_log(log("Gold", Price::MAX))
        .with_log(log("Gold", Price::MAX));
    let stats = ExpenditureLogStats::new(finance);

    assert_eq!(stats.product_total("Gold"), 2 * (Price::MAX as i128));
}

#[test]
fn default_finance_is_empty() {
    let finance = Finance::default();

    assert!(finance.logs().is_empty());
    assert!(finance.products().is_empty());
    assert_eq!(ExpenditureLogStats::new(finance).product_totals().to_vec(), vec![]);
}
