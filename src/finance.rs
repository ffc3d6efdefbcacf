//! The data model: a calendar month, a product of the catalog, a logged
//! purchase, and the `Finance` aggregate that holds the log and the catalog.
use vstd::prelude::*;

verus! {

/// An amount of money, in hundredths of the currency unit.
pub type Price = i64;

/// A calendar month: a year and a month number from 1 to 12.
#[derive(Clone, Copy, Debug, PartialEq, Eq, Hash, Structural)]
pub struct YearMonth {
    year: i16,
    month: u8,
}

impl YearMonth {
    #[verifier::type_invariant]
    spec fn month_in_range(self) -> bool {
        1 <= self.month <= 12
    }

    /// The year.
    pub closed spec fn year_spec(self) -> i16 {
        self.year
    }

    /// The month number.
    pub closed spec fn month_spec(self) -> u8 {
        self.month
    }

    /// A month number that names a calendar month.
    pub open spec fn valid_month(month: u8) -> bool {
        1 <= month <= 12
    }

    /// The value with year `year` and month number `month`.
    pub closed spec fn from_parts(year: i16, month: u8) -> YearMonth {
        YearMonth { year, month }
    }

    /// A value is the one made of its own year and month number, and one made
    /// of a year and a month number has those.
    pub proof fn lemma_from_parts(ym: YearMonth, year: i16, month: u8)
        ensures
            Self::from_parts(ym.year_spec(), ym.month_spec()) == ym,
            Self::from_parts(year, month).year_spec() == year,
            Self::from_parts(year, month).month_spec() == month,
    {
    }

    /// The month `month` of year `year`; `None` unless `month` is in 1..=12.
    pub fn new(year: i16, month: u8) -> (r: Option<YearMonth>)
        ensures
            r is Some <==> Self::valid_month(month),
            r matches Some(ym) ==> ym == Self::from_parts(year, month),
            r matches Some(ym) ==> ym.year_spec() == year && ym.month_spec() == month,
    {
        if 1 <= month && month <= 12 {
            Some(YearMonth { year, month })
        } else {
            None
        }
    }

    pub fn year(&self) -> (r: i16)
        ensures
            r == self.year_spec(),
    {
        self.year
    }

    pub fn month(&self) -> (r: u8)
        ensures
            r == self.month_spec(),
            Self::valid_month(r),
    {
        proof {
            use_type_invariant(self);
        }
        self.month
    }
}

/// A product of the catalog and the category it is filed under.
#[derive(Clone, Debug)]
pub struct Product {
    pub id: String,
    pub category: String,
}

impl Product {
    pub fn new(id: &str, category: &str) -> (r: Product)
        ensures
            r.id@ == id@,
            r.category@ == category@,
    {
        Product { id: id.to_owned(), category: category.to_owned() }
    }

    /// The (id, category) pair that this product stands for.
    pub open spec fn entry(self) -> (Seq<char>, Seq<char>) {
        (self.id@, self.category@)
    }
}

/// A logged purchase: which product, at what price, in which month.
#[derive(Clone, Debug)]
pub struct FinanceLog {
    pub product: String,
    pub price: Price,
    pub year_month: YearMonth,
}

/// What a logged purchase holds, as plain values.
pub struct LogView {
    pub product: Seq<char>,
    pub price: int,
    pub year_month: YearMonth,
}

impl View for FinanceLog {
    type V = LogView;

    open spec fn view(&self) -> LogView {
        LogView { product: self.product@, price: self.price as int, year_month: self.year_month }
    }
}

impl FinanceLog {
    pub fn new(product: &str, price: Price, year_month: YearMonth) -> (r: FinanceLog)
        ensures
            r@ == (LogView { product: product@, price: price as int, year_month }),
    {
        FinanceLog { product: product.to_owned(), price, year_month }
    }
}

/// The map that a sequence of (key, value) pairs gives when each pair sets
/// its key's value in turn, the later pair winning.
pub open spec fn map_of_pairs<K, V>(entries: Seq<(K, V)>) -> Map<K, V>
    decreases entries.len(),
{
    if entries.len() == 0 {
        Map::empty()
    } else {
        map_of_pairs(entries.drop_last()).insert(entries.last().0, entries.last().1)
    }
}

/// The (id, category) pairs of a sequence of products.
pub open spec fn entries_of(products: Seq<Product>) -> Seq<(Seq<char>, Seq<char>)> {
    products.map_values(|p: Product| p.entry())
}

/// No key occurs twice among the pairs.
pub open spec fn unique_keys<K, V>(entries: Seq<(K, V)>) -> bool {
    forall|i: int, j: int|
        0 <= i < entries.len() && 0 <= j < entries.len() && i != j ==> entries[i].0
            != entries[j].0
}

/// Of a sequence of pairs with unique keys, the map sends each key to the
/// value of its pair, and holds no other key.
pub proof fn lemma_map_of_unique_pairs<K, V>(entries: Seq<(K, V)>)
    requires
        unique_keys(entries),
    ensures
        forall|i: int|
            0 <= i < entries.len() ==> #[trigger] map_of_pairs(entries).contains_key(entries[i].0)
                && map_of_pairs(entries)[entries[i].0] == entries[i].1,
        forall|k: K|
            #[trigger] map_of_pairs(entries).contains_key(k) ==> exists|i: int|
                0 <= i < entries.len() && entries[i].0 == k,
    decreases entries.len(),
{
    if entries.len() > 0 {
        let prefix = entries.drop_last();
        assert(unique_keys(prefix));
        lemma_map_of_unique_pairs(prefix);
        let n = entries.len() - 1;
        assert forall|k: K| #[trigger] map_of_pairs(entries).contains_key(k) implies exists|
            i: int,
        | 0 <= i < entries.len() && entries[i].0 == k by {
            if k != entries[n].0 {
                assert(map_of_pairs(prefix).contains_key(k));
                let i = choose|i: int| 0 <= i < prefix.len() && prefix[i].0 == k;
                assert(entries[i].0 == k);
            }
        }
        assert forall|i: int| 0 <= i < entries.len() implies #[trigger] map_of_pairs(
            entries,
        ).contains_key(entries[i].0) && map_of_pairs(entries)[entries[i].0] == entries[i].1 by {
            if i < n {
                assert(prefix[i] == entries[i]);
                assert(entries[i].0 != entries[n].0);
                assert(map_of_pairs(prefix).contains_key(prefix[i].0));
            }
        }
    }
}


/// A snapshot of the spending records as plain values.
pub struct FinanceView {
    /// The purchases, in the order they were logged.
    pub log: Seq<LogView>,
    /// Each registered product id and its category.
    pub catalog: Map<Seq<char>, Seq<char>>,
}

/// The spending records: a log of purchases, oldest first, and a catalog
/// that files products under categories.
#[derive(Clone, Debug)]
pub struct Finance {
    pub(crate) logs: Vec<FinanceLog>,
    pub(crate) products: Vec<Product>,
}

impl View for Finance {
    type V = FinanceView;

    closed spec fn view(&self) -> FinanceView {
        FinanceView {
            log: self.logs@.map_values(|l: FinanceLog| l@),
            catalog: map_of_pairs(entries_of(self.products@)),
        }
    }
}

impl Finance {
    /// Each product id is registered once, and every logged month is a
    /// calendar month.
    pub closed spec fn wf(&self) -> bool {
        &&& unique_keys(entries_of(self.products@))
        &&& forall|i: int|
            0 <= i < self.logs@.len() ==> YearMonth::valid_month(
                #[trigger] self.logs@[i].year_month.month_spec(),
            )
    }

    /// Every logged month of a well-formed value is a calendar month.
    pub proof fn lemma_valid_months(self)
        requires
            self.wf(),
        ensures
            forall|i: int|
                0 <= i < self@.log.len() ==> YearMonth::valid_month(
                    #[trigger] self@.log[i].year_month.month_spec(),
                ),
    {
        assert forall|i: int| 0 <= i < self@.log.len() implies YearMonth::valid_month(
            #[trigger] self@.log[i].year_month.month_spec(),
        ) by {
            assert(self@.log[i] == self.logs@[i]@);
        }
    }

    /// The log's plain values are those of its purchases.
    pub(crate) proof fn lemma_log_view(self)
        ensures
            self@.log.len() == self.logs@.len(),
            forall|i: int| 0 <= i < self.logs@.len() ==> self@.log[i] == (#[trigger] self.logs@[i])@,
    {
    }

    /// The purchases, oldest first. The log only grows, through `with_log`.
    pub fn logs(&self) -> (r: &Vec<FinanceLog>)
        ensures
            r@.len() == self@.log.len(),
            forall|i: int| 0 <= i < r@.len() ==> (#[trigger] r@[i])@ == self@.log[i],
    {
        &self.logs
    }

    /// No purchases and no products.
    pub fn new() -> (r: Finance)
        ensures
            r.wf(),
            r@.log == Seq::<LogView>::empty(),
            r@.catalog == Map::<Seq<char>, Seq<char>>::empty(),
    {
        let r = Finance { logs: Vec::new(), products: Vec::new() };
        assert(r@.log =~= Seq::<LogView>::empty());
        r
    }

    /// The catalog, one product per registered id.
    pub fn products(&self) -> (r: Vec<Product>)
        requires
            self.wf(),
        ensures
            map_of_pairs(entries_of(r@)) == self@.catalog,
            unique_keys(entries_of(r@)),
    {
        let mut r: Vec<Product> = Vec::new();
        let mut i: usize = 0;
        while i < self.products.len()
            invariant
                i <= self.products@.len(),
                entries_of(r@) =~= entries_of(self.products@).take(i as int),
            decreases self.products@.len() - i,
        {
            let p = &self.products[i];
            let ghost before = r@;
            r.push(Product { id: p.id.clone(), category: p.category.clone() });
            assert(entries_of(r@) =~= entries_of(before).push(p.entry()));
            i = i + 1;
            assert(entries_of(r@) =~= entries_of(self.products@).take(i as int));
        }
        assert(entries_of(self.products@).take(i as int) =~= entries_of(self.products@));
        r
    }

    /// This value with one more purchase logged after the others.
    pub fn with_log(self, log: FinanceLog) -> (r: Finance)
        requires
            self.wf(),
        ensures
            r.wf(),
            r@.log == self@.log.push(log@),
            r@.catalog == self@.catalog,
    {
        proof {
            use_type_invariant(&log.year_month);
        }
        let mut logs = self.logs;
        logs.push(log);
        let r = Finance { logs, products: self.products };
        assert(r@.log =~= self@.log.push(log@));
        r
    }

    /// This value with `product` registered: its id is filed under its
    /// category, in place of any category the id had before.
    pub fn with_product(self, product: &Product) -> (r: Finance)
        requires
            self.wf(),
        ensures
            r.wf(),
            r@.log == self@.log,
            r@.catalog == self@.catalog.insert(product.id@, product.category@),
    {
        let ghost old_entries = entries_of(self.products@);
        let mut products = self.products;
        let fresh = Product { id: product.id.clone(), category: product.category.clone() };
        let mut i: usize = 0;
        while i < products.len()
            invariant
                i <= products@.len(),
                products@ == self.products@,
                forall|j: int| 0 <= j < i ==> (#[trigger] products@[j]).id@ != product.id@,
            ensures
                i <= products@.len(),
                i < products@.len() ==> products@[i as int].id@ == product.id@,
                forall|j: int| 0 <= j < i ==> (#[trigger] products@[j]).id@ != product.id@,
            decreases products@.len() - i,
        {
            if products[i].id == product.id {
                break;
            }
            i = i + 1;
        }
        if i < products.len() {
            products.set(i, fresh);
            proof {
                assert(old_entries[i as int] == self.products@[i as int].entry());
                assert(entries_of(products@) =~= old_entries.update(i as int, (product.id@, product.category@)));
                lemma_map_of_pairs_update(old_entries, i as int, (product.id@, product.category@));
            }
        } else {
            products.push(fresh);
            proof {
                assert(entries_of(products@) =~= old_entries.push((product.id@, product.category@)));
                assert(entries_of(products@).drop_last() =~= old_entries);
                assert forall|j: int| 0 <= j < old_entries.len() implies old_entries[j].0 != product.id@ by {
                    assert(old_entries[j] == self.products@[j].entry());
                }
            }
        }
        Finance { logs: self.logs, products }
    }

    /// The category that `product_id` is filed under, if it is registered.
    pub fn get_category_for(&self, product_id: &str) -> (r: Option<String>)
        requires
            self.wf(),
        ensures
            r is Some <==> self@.catalog.contains_key(product_id@),
            r matches Some(c) ==> c@ == self@.catalog[product_id@],
    {
        let key = product_id.to_owned();
        let ghost entries = entries_of(self.products@);
        let mut i: usize = 0;
        while i < self.products.len()
            invariant
                i <= self.products@.len(),
                key@ == product_id@,
                entries == entries_of(self.products@),
                unique_keys(entries),
                forall|j: int| 0 <= j < i ==> (#[trigger] entries[j]).0 != key@,
            decreases self.products@.len() - i,
        {
            if self.products[i].id == key {
                assert(entries[i as int] == self.products@[i as int].entry());
                proof {
                    lemma_map_of_unique_pairs(entries);
                }
                assert(self@.catalog == map_of_pairs(entries));
                assert(map_of_pairs(entries).contains_key(entries[i as int].0));
                return Some(self.products[i].category.clone());
            }
            i = i + 1;
        }
        proof {
            lemma_map_of_unique_pairs(entries);
        }
        assert(self@.catalog == map_of_pairs(entries));
        None
    }
}

impl Default for Finance {
    /// No purchases and no products.
    fn default() -> (r: Finance)
        ensures
            r.wf(),
            r@.log == Seq::<LogView>::empty(),
            r@.catalog == Map::<Seq<char>, Seq<char>>::empty(),
    {
        Finance::new()
    }
}

/// Of a sequence of pairs with unique keys, the map has one key per pair.
pub proof fn lemma_map_of_unique_pairs_len<K, V>(entries: Seq<(K, V)>)
    requires
        unique_keys(entries),
    ensures
        map_of_pairs(entries).dom().finite(),
        map_of_pairs(entries).len() == entries.len(),
    decreases entries.len(),
{
    if entries.len() > 0 {
        let prefix = entries.drop_last();
        assert(unique_keys(prefix));
        lemma_map_of_pairs_unique_len_step(entries);
        lemma_map_of_unique_pairs_len(prefix);
    }
}

/// The last key of a sequence of pairs with unique keys is not a key of the
/// pairs before it.
proof fn lemma_map_of_pairs_unique_len_step<K, V>(entries: Seq<(K, V)>)
    requires
        unique_keys(entries),
        entries.len() > 0,
    ensures
        !map_of_pairs(entries.drop_last()).contains_key(entries.last().0),
{
    let prefix = entries.drop_last();
    assert(unique_keys(prefix));
    lemma_map_of_unique_pairs(prefix);
    if map_of_pairs(prefix).contains_key(entries.last().0) {
        let i = choose|i: int| 0 <= i < prefix.len() && prefix[i].0 == entries.last().0;
        assert(entries[i] == prefix[i]);
    }
}

/// A rearrangement of pairs with unique keys has unique keys, as many pairs,
/// and only pairs of the original.
pub proof fn lemma_permuted_pairs<K, V>(s: Seq<(K, V)>, t: Seq<(K, V)>)
    requires
        unique_keys(s),
        t.to_multiset() == s.to_multiset(),
    ensures
        unique_keys(t),
        t.len() == s.len(),
        forall|i: int| 0 <= i < t.len() ==> s.contains(#[trigger] t[i]),
{
    broadcast use vstd::seq_lib::to_multiset_contains, vstd::seq_lib::to_multiset_len;

    assert(s.no_duplicates());
    s.lemma_multiset_has_no_duplicates();
    t.lemma_multiset_has_no_duplicates_conv();
    assert forall|i: int| 0 <= i < t.len() implies s.contains(#[trigger] t[i]) by {
        assert(t.contains(t[i]));
        assert(t.to_multiset().count(t[i]) > 0);
    }
    assert forall|i: int, j: int| 0 <= i < t.len() && 0 <= j < t.len() && i != j implies t[i].0
        != t[j].0 by {
        assert(s.contains(t[i]));
        assert(s.contains(t[j]));
        let a = choose|a: int| 0 <= a < s.len() && s[a] == t[i];
        let b = choose|b: int| 0 <= b < s.len() && s[b] == t[j];
        assert(t[i] != t[j]);
    }
    vstd::seq_lib::to_multiset_len(s);
    vstd::seq_lib::to_multiset_len(t);
}

/// Replacing the pair of a key that occurs once by a pair for the same key
/// sets that key's value and keeps the others.
pub proof fn lemma_map_of_pairs_update<K, V>(entries: Seq<(K, V)>, i: int, e: (K, V))
    requires
        unique_keys(entries),
        0 <= i < entries.len(),
        entries[i].0 == e.0,
    ensures
        unique_keys(entries.update(i, e)),
        map_of_pairs(entries.update(i, e)) == map_of_pairs(entries).insert(e.0, e.1),
    decreases entries.len(),
{
    let updated = entries.update(i, e);
    assert(unique_keys(updated)) by {
        assert forall|a: int, b: int|
            0 <= a < updated.len() && 0 <= b < updated.len() && a != b implies updated[a].0
            != updated[b].0 by {
            assert(updated[a].0 == entries[a].0);
            assert(updated[b].0 == entries[b].0);
        }
    }
    let n = entries.len() - 1;
    if i == n {
        assert(updated.drop_last() =~= entries.drop_last());
        assert(map_of_pairs(updated) =~= map_of_pairs(entries).insert(e.0, e.1));
    } else {
        let prefix = entries.drop_last();
        assert(unique_keys(prefix));
        lemma_map_of_pairs_update(prefix, i, e);
        assert(updated.drop_last() =~= prefix.update(i, e));
        assert(entries[n].0 != e.0);
        assert(map_of_pairs(updated) =~= map_of_pairs(entries).insert(e.0, e.1));
    }
}

} // verus!
