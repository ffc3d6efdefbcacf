use neo_budget::finance::{Finance, FinanceLog, Product, YearMonth};
use neo_budget::repository::json::{JSONFinance, JSONLog, JSONProduct};
use neo_budget::repository::{EnvJSONFinanceRepository, FileContent, FinanceRepositoryError};

fn record_product(product: &str, category: &str) -> JSONProduct {
    JSONProduct {
        product: product.to_string(),
        category: category.to_string(),
    }
}

fn record_log(product: &str, price: i64, year: i16, month: u8) -> JSONLog {
    JSONLog {
        product: product.to_string(),
        price,
        year,
        month,
    }
}

fn finance_records() -> JSONFinance {
    JSONFinance {
        products: vec![record_product("prod1", "cat1"), record_product("prod2", "cat2")],
        logs: vec![
            record_log("prod1", 1000, 2021, 1),
            record_log("prod2", 2000, 2021, 1),
        ],
    }
}

fn repository(path: &str) -> EnvJSONFinanceRepository {
    EnvJSONFinanceRepository::new(Some(path.to_string()))
}

fn assert_finance_is_loaded_correctly(loaded_finance: &Finance) {
    assert_eq!(
        loaded_finance.get_category_for("prod1"),
        Some("cat1".to_string())
    );
    assert_eq!(
        loaded_finance.get_category_for("prod2"),
        Some("cat2".to_string())
    );

    assert_eq!(loaded_finance.logs()[0].product, "prod1");
    assert_eq!(loaded_finance.logs()[0].price, 1000);
    assert_eq!(loaded_finance.logs()[0].year_month.year(), 2021);
    assert_eq!(loaded_finance.logs()[0].year_month.month(), 1);

    assert_eq!(loaded_finance.logs()[1].product, "prod2");
    assert_eq!(loaded_finance.logs()[1].price, 2000);
    assert_eq!(loaded_finance.logs()[1].year_month.year(), 2021);
    assert_eq!(loaded_finance.logs()[1].year_month.month(), 1);
}

#[test]
fn test_from_env_loads_correctly() {
    let repo = repository("data_file.json");
    let loaded_finance = repo
        .load_from(FileContent::Records(finance_records()))
        .expect("Didn't expect load to fail!");

    assert_finance_is_loaded_correctly(&loaded_finance);
}

#[test]
fn test_loader_ok() {
    let loaded_finance = finance_records().to_finance().unwrap();

    assert_finance_is_loaded_correctly(&loaded_finance);
}

#[test]
fn test_from_env_env_var_err() {
    let repo = EnvJSONFinanceRepository::new(None);

    assert_eq!(
        repo.file_path(),
        Err(FinanceRepositoryError::ConfigurationError)
    );
    assert_eq!(
        repo.load_from(FileContent::Records(finance_records()))
            .unwrap_err(),
        FinanceRepositoryError::ConfigurationError
    );
}

#[test]
fn test_loader_err_invalid_json() {
    let content = "invalid finance json";
    assert!(serde_json::from_str::<serde_json::Value>(content).is_err());

    let repo = repository("data_file.json");
    let load_err = repo
        .load_from(FileContent::Malformed)
        .expect_err("Expected load to fail!");

    assert_eq!(load_err, FinanceRepositoryError::ParseError);
}

#[test]
fn test_from_env_load_file_open_err() {
    let repo = repository("inexistent-file.json");
    let load_err = repo
        .load_from(FileContent::Unreadable)
        .expect_err("Expected load to fail!");

    assert_eq!(
        load_err,
        FinanceRepositoryError::FileReadError("inexistent-file.json".to_string())
    );
}

#[test]
fn test_from_env_save() {
    let repo = repository("finance.json");
    let finance = Finance::new()
        .with_product(&Product::new("prod1", "cat1"))
        .with_log(FinanceLog::new(
            "prod1",
            1000,
            YearMonth::new(2022, 2).unwrap(),
        ));

    let (path, records) = repo.save_records(&finance).expect("Didn't expect save to fail!");

    assert_eq!(path, "finance.json");
    assert_eq!(records.products.len(), 1);
    assert_eq!(records.products[0].product, "prod1");
    assert_eq!(records.products[0].category, "cat1");
    assert_eq!(records.logs.len(), 1);
    assert_eq!(records.logs[0].product, "prod1");
    assert_eq!(records.logs[0].price, 1000);
    assert_eq!(records.logs[0].year, 2022);
    assert_eq!(records.logs[0].month, 2);
    assert_eq!(repo.save_result(true), Ok(()));
}

#[test]
fn test_from_env_save_file_err() {
    let repo = repository("/inexistent-dir/file.json");

    let save_err = repo.save_result(false).expect_err("Expected save to fail!");
    assert_eq!(
        save_err,
        FinanceRepositoryError::FileWriteError("/inexistent-dir/file.json".to_string())
    );
}

#[test]
fn save_without_a_path_is_a_configuration_error() {
    let repo = EnvJSONFinanceRepository::new(None);

    assert_eq!(
        repo.save_records(&Finance::new()).unwrap_err(),
        FinanceRepositoryError::ConfigurationError
    );
    assert_eq!(
        repo.save_result(true),
        Err(FinanceRepositoryError::ConfigurationError)
    );
}

#[test]
fn invalid_month_is_a_validation_error() {
    let records = JSONFinance {
        products: vec![],
        logs: vec![
            record_log("prod1", 1000, 2021, 1),
            record_log("prod1", 1000, 2021, 13),
        ],
    };

    assert_eq!(
        repository("data_file.json")
            .load_from(FileContent::Records(records))
            .unwrap_err(),
        FinanceRepositoryError::ValidationError
    );
    let zero_month = JSONFinance {
        products: vec![],
        logs: vec![record_log("prod1", 1000, 2021, 0)],
    };
    assert_eq!(
        zero_month.to_finance().unwrap_err(),
        FinanceRepositoryError::ValidationError
    );
}

#[test]
fn records_round_trip() {
    let finance = Finance::new()
        .with_product(&Product::new("Bread", "Food"))
        .with_product(&Product::new("Soap", "Home"))
        .with_product(&Product::new("Bread", "Bakery"))
        .with_log(FinanceLog::new("Bread", 1000, YearMonth::new(2021, 1).unwrap()))
        .with_log(FinanceLog::new("Eggs", 1550, YearMonth::new(2021, 2).unwrap()))
        .with_log(FinanceLog::new("Bread", -200, YearMonth::new(2020, 12).unwrap()));

    let records = JSONFinance::from_finance(&finance);
    assert_eq!(records.products.len(), 2);
    let loaded = records.to_finance().unwrap();

    assert_eq!(loaded.logs().len(), 3);
    for (left, right) in loaded.logs().iter().zip(finance.logs().iter()) {
        assert_eq!(left.product, right.product);
        assert_eq!(left.price, right.price);
        assert_eq!(left.year_month, right.year_month);
    }
    assert_eq!(loaded.get_category_for("Bread"), Some("Bakery".to_string()));
    assert_eq!(loaded.get_category_for("Soap"), Some("Home".to_string()));
    assert_eq!(loaded.get_category_for("Eggs"), None);
}

#[test]
fn loading_the_same_records_twice_gives_equal_snapshots() {
    let first = finance_records().to_finance().unwrap();
    let second = finance_records().to_finance().unwrap();

    assert_eq!(first.logs().len(), second.logs().len());
    for (left, right) in first.logs().iter().zip(second.logs().iter()) {
        assert_eq!(left.product, right.product);
        assert_eq!(left.price, right.price);
        assert_eq!(left.year_month, right.year_month);
    }
    assert_eq!(first.products().len(), second.products().len());
    for product in first.products() {
        assert_eq!(
            second.get_category_for(&product.id),
            Some(product.category.clone())
        );
    }
}

#[test]
fn test_loader_err() {
    assert!(serde_json::from_str::<serde_json::Value>("invalid json").is_err());

    let repo = repository("data_file.json");
    assert!(repo.load_from(FileContent::Malformed).is_err());
}
