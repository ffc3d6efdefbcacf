//! The JSON records of a snapshot: one record per catalog product and one
//! per logged purchase, in log order.
use vstd::prelude::*;

use crate::finance::{
    entries_of, map_of_pairs, unique_keys, Finance, FinanceLog, FinanceView, LogView, Price,
    Product, YearMonth,
};
use crate::repository::FinanceRepositoryError;

verus! {

/// The record of a catalog product.
#[derive(Debug)]
pub struct JSONProduct {
    pub product: String,
    pub category: String,
}

/// The record of a logged purchase; the price is in hundredths.
#[derive(Debug)]
pub struct JSONLog {
    pub product: String,
    pub price: Price,
    pub year: i16,
    pub month: u8,
}

/// The records of a snapshot.
#[derive(Debug)]
pub struct JSONFinance {
    pub products: Vec<JSONProduct>,
    pub logs: Vec<JSONLog>,
}

/// What a purchase record holds, as plain values.
pub struct JSONLogView {
    pub product: Seq<char>,
    pub price: int,
    pub year: i16,
    pub month: u8,
}

/// What the records of a snapshot hold, as plain values.
pub struct JSONFinanceView {
    pub products: Seq<(Seq<char>, Seq<char>)>,
    pub logs: Seq<JSONLogView>,
}

impl View for JSONProduct {
    type V = (Seq<char>, Seq<char>);

    open spec fn view(&self) -> (Seq<char>, Seq<char>) {
        (self.product@, self.category@)
    }
}

impl View for JSONLog {
    type V = JSONLogView;

    open spec fn view(&self) -> JSONLogView {
        JSONLogView {
            product: self.product@,
            price: self.price as int,
            year: self.year,
            month: self.month,
        }
    }
}

impl View for JSONFinance {
    type V = JSONFinanceView;

    open spec fn view(&self) -> JSONFinanceView {
        JSONFinanceView {
            products: self.products@.map_values(|p: JSONProduct| p@),
            logs: self.logs@.map_values(|l: JSONLog| l@),
        }
    }
}

/// The record of a purchase.
pub open spec fn log_record(l: LogView) -> JSONLogView {
    JSONLogView {
        product: l.product,
        price: l.price,
        year: l.year_month.year_spec(),
        month: l.year_month.month_spec(),
    }
}

/// The purchase that a record describes.
pub open spec fn log_of_record(r: JSONLogView) -> LogView {
    LogView { product: r.product, price: r.price, year_month: YearMonth::from_parts(r.year, r.month) }
}

/// The purchases that a sequence of records describes.
pub open spec fn logs_of_records(records: Seq<JSONLogView>) -> Seq<LogView> {
    records.map_values(|r: JSONLogView| log_of_record(r))
}

/// The records of a sequence of purchases.
pub open spec fn records_of_logs(log: Seq<LogView>) -> Seq<JSONLogView> {
    log.map_values(|l: LogView| log_record(l))
}

/// `j` records snapshot `f`: each catalog id once with its category, and
/// each purchase in log order.
pub open spec fn is_records_of(j: JSONFinanceView, f: FinanceView) -> bool {
    &&& unique_keys(j.products)
    &&& map_of_pairs(j.products) == f.catalog
    &&& j.logs == records_of_logs(f.log)
}

/// Every month number among the records names a calendar month.
pub open spec fn months_valid(j: JSONFinanceView) -> bool {
    forall|i: int| 0 <= i < j.logs.len() ==> YearMonth::valid_month(#[trigger] j.logs[i].month)
}

/// The snapshot that the records describe: the products registered in
/// record order, then the purchases logged in record order.
pub open spec fn finance_of_records(j: JSONFinanceView) -> FinanceView {
    FinanceView {
        log: logs_of_records(j.logs),
        catalog: map_of_pairs(j.products),
    }
}

impl JSONFinance {
    /// The records of `finance`.
    pub fn from_finance(finance: &Finance) -> (r: JSONFinance)
        requires
            finance.wf(),
        ensures
            is_records_of(r@, finance@),
    {
        proof {
            finance.lemma_log_view();
        }
        let mut logs: Vec<JSONLog> = Vec::new();
        let mut i: usize = 0;
        while i < finance.logs.len()
            invariant
                i <= finance.logs@.len(),
                finance@.log.len() == finance.logs@.len(),
                forall|k: int| 0 <= k < finance.logs@.len() ==> finance@.log[k] == (#[trigger] finance.logs@[k])@,
                logs@.map_values(|l: JSONLog| l@) =~= records_of_logs(finance@.log).take(i as int),
            decreases finance.logs@.len() - i,
        {
            let log = &finance.logs[i];
            let ghost before = logs@;
            logs.push(JSONLog {
                product: log.product.clone(),
                price: log.price,
                year: log.year_month.year(),
                month: log.year_month.month(),
            });
            proof {
                assert(finance@.log[i as int] == finance.logs@[i as int]@);
                assert(logs@.map_values(|l: JSONLog| l@) =~= before.map_values(|l: JSONLog| l@).push(log_record(finance@.log[i as int])));
            }
            i = i + 1;
            assert(logs@.map_values(|l: JSONLog| l@) =~= records_of_logs(finance@.log).take(i as int));
        }
        assert(records_of_logs(finance@.log).take(i as int) =~= records_of_logs(finance@.log));
        let catalog = finance.products();
        let mut products: Vec<JSONProduct> = Vec::new();
        let mut k: usize = 0;
        while k < catalog.len()
            invariant
                k <= catalog@.len(),
                products@.map_values(|p: JSONProduct| p@) =~= entries_of(catalog@).take(k as int),
            decreases catalog@.len() - k,
        {
            let p = &catalog[k];
            let ghost before = products@;
            products.push(JSONProduct { product: p.id.clone(), category: p.category.clone() });
            assert(products@.map_values(|p: JSONProduct| p@) =~= before.map_values(|p: JSONProduct| p@).push(entries_of(catalog@)[k as int]));
            k = k + 1;
            assert(products@.map_values(|p: JSONProduct| p@) =~= entries_of(catalog@).take(k as int));
        }
        assert(entries_of(catalog@).take(k as int) =~= entries_of(catalog@));
        JSONFinance { products, logs }
    }

    /// The snapshot that these records describe; `ValidationError` where a
    /// month number is outside 1..=12.
    pub fn to_finance(&self) -> (r: Result<Finance, FinanceRepositoryError>)
        ensures
            r is Ok <==> months_valid(self@),
            r matches Ok(f) ==> f.wf() && f@ == finance_of_records(self@),
            r matches Err(e) ==> e == FinanceRepositoryError::ValidationError,
    {
        let ghost j = self@;
        let mut finance = Finance::new();
        let mut i: usize = 0;
        proof {
            assert(map_of_pairs(j.products.take(0)) =~= Map::<Seq<char>, Seq<char>>::empty());
        }
        while i < self.products.len()
            invariant
                j == self@,
                i <= self.products@.len(),
                finance.wf(),
                finance@.log == Seq::<LogView>::empty(),
                finance@.catalog == map_of_pairs(j.products.take(i as int)),
            decreases self.products@.len() - i,
        {
            let record = &self.products[i];
            let product = Product { id: record.product.clone(), category: record.category.clone() };
            finance = finance.with_product(&product);
            proof {
                assert(j.products[i as int] == record@);
                assert(j.products.take(i + 1).drop_last() =~= j.products.take(i as int));
            }
            i = i + 1;
        }
        assert(j.products.take(i as int) =~= j.products);
        let mut k: usize = 0;
        while k < self.logs.len()
            invariant
                j == self@,
                k <= self.logs@.len(),
                finance.wf(),
                finance@.catalog == map_of_pairs(j.products),
                finance@.log =~= logs_of_records(j.logs).take(k as int),
                forall|m: int| 0 <= m < k ==> YearMonth::valid_month(#[trigger] j.logs[m].month),
            decreases self.logs@.len() - k,
        {
            let record = &self.logs[k];
            proof {
                assert(j.logs[k as int] == record@);
            }
            match YearMonth::new(record.year, record.month) {
                Some(year_month) => {
                    let log = FinanceLog { product: record.product.clone(), price: record.price, year_month };
                    finance = finance.with_log(log);
                    k = k + 1;
                    assert(finance@.log =~= logs_of_records(j.logs).take(k as int));
                },
                None => {
                    assert(!YearMonth::valid_month(j.logs[k as int].month));
                    return Err(FinanceRepositoryError::ValidationError);
                },
            }
        }
        assert(logs_of_records(j.logs).take(k as int) =~= logs_of_records(j.logs));
        assert(finance@ == finance_of_records(j));
        Ok(finance)
    }
}

/// Records written for a snapshot load back as that snapshot: the same
/// purchases in the same order, and the same catalog.
pub proof fn lemma_round_trip(f: Finance, j: JSONFinanceView)
    requires
        f.wf(),
        is_records_of(j, f@),
    ensures
        months_valid(j),
        finance_of_records(j) == f@,
{
    f.lemma_valid_months();
    assert forall|i: int| 0 <= i < j.logs.len() implies YearMonth::valid_month(#[trigger] j.logs[i].month) by {
        assert(j.logs[i] == log_record(f@.log[i]));
    }
    assert forall|i: int| 0 <= i < f@.log.len() implies #[trigger] log_of_record(j.logs[i]) == f@.log[i] by {
        YearMonth::lemma_from_parts(f@.log[i].year_month, 0, 1);
    }
    assert(finance_of_records(j).log =~= f@.log);
}

/// Loading the same records twice gives equal snapshots.
pub proof fn lemma_load_twice(j: JSONFinanceView, first: Finance, second: Finance)
    requires
        first@ == finance_of_records(j),
        second@ == finance_of_records(j),
    ensures
        first@ == second@,
{
}

} // verus!
