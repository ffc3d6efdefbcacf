//! Totals derived from a `Finance` snapshot: by product, by category, and
//! by calendar month split by label. Every query sums the log afresh, in
//! the order the purchases were logged.
use vstd::prelude::*;

use crate::finance::{
    lemma_map_of_pairs_update, lemma_map_of_unique_pairs, lemma_map_of_unique_pairs_len,
    map_of_pairs, unique_keys, Finance, FinanceLog, LogView, YearMonth,
};

verus! {

/// A sum of prices, in hundredths of the currency unit. Wide enough for the
/// sum of any log that fits in memory.
pub type Total = i128;

/// The sum of the prices of the entries of `log` that `keep` selects.
pub open spec fn sum_where(log: Seq<LogView>, keep: spec_fn(LogView) -> bool) -> int
    decreases log.len(),
{
    if log.len() == 0 {
        0
    } else {
        sum_where(log.drop_last(), keep) + if keep(log.last()) {
            log.last().price
        } else {
            0
        }
    }
}

/// Some entry of `log` is selected by `keep`.
pub open spec fn mentions(log: Seq<LogView>, keep: spec_fn(LogView) -> bool) -> bool {
    exists|i: int| 0 <= i < log.len() && keep(log[i])
}

/// The entries for product `product`.
pub open spec fn of_product(product: Seq<char>) -> spec_fn(LogView) -> bool {
    |e: LogView| e.product == product
}

/// Labels each product with its own id.
pub open spec fn product_label() -> spec_fn(Seq<char>) -> Option<Seq<char>> {
    |p: Seq<char>| Some(p)
}

/// Labels each product with its category in `catalog`; a product that the
/// catalog lacks has no label.
pub open spec fn category_label(catalog: Map<Seq<char>, Seq<char>>) -> spec_fn(Seq<char>) -> Option<
    Seq<char>,
> {
    |p: Seq<char>|
        if catalog.contains_key(p) {
            Some(catalog[p])
        } else {
            None
        }
}

/// The entries whose product `label` labels with `l`.
pub open spec fn labelled(label: spec_fn(Seq<char>) -> Option<Seq<char>>, l: Seq<char>) -> spec_fn(
    LogView,
) -> bool {
    |e: LogView| label(e.product) == Some(l)
}

/// The entries of month `b`.
pub open spec fn in_month(b: YearMonth) -> spec_fn(LogView) -> bool {
    |e: LogView| e.year_month == b
}

/// The entries of month `b` whose product `label` labels with `l` (with
/// `None`: that `label` leaves unlabelled).
pub open spec fn in_month_labelled(
    b: YearMonth,
    label: spec_fn(Seq<char>) -> Option<Seq<char>>,
    l: Option<Seq<char>>,
) -> spec_fn(LogView) -> bool {
    |e: LogView| e.year_month == b && label(e.product) == l
}

/// The sum of the values of a sequence of pairs.
pub open spec fn sum_of_values<K>(pairs: Seq<(K, int)>) -> int
    decreases pairs.len(),
{
    if pairs.len() == 0 {
        0
    } else {
        sum_of_values(pairs.drop_last()) + pairs.last().1
    }
}

/// A sum over `n` entries lies within `n` times the range of a price.
pub proof fn lemma_sum_where_bounds(log: Seq<LogView>, keep: spec_fn(LogView) -> bool)
    requires
        forall|i: int| 0 <= i < log.len() ==> i64::MIN <= #[trigger] log[i].price <= i64::MAX,
    ensures
        log.len() * i64::MIN <= sum_where(log, keep) <= log.len() * i64::MAX,
    decreases log.len(),
{
    if log.len() > 0 {
        let prefix = log.drop_last();
        assert forall|i: int| 0 <= i < prefix.len() implies i64::MIN <= #[trigger] prefix[i].price
            <= i64::MAX by {
            assert(prefix[i] == log[i]);
        }
        lemma_sum_where_bounds(prefix, keep);
        assert(log.last() == log[log.len() - 1]);
    }
}

/// Appending one entry adds its price to the sums that select it, and makes
/// the selections that take it mention the log.
pub proof fn lemma_sum_where_push(log: Seq<LogView>, e: LogView, keep: spec_fn(LogView) -> bool)
    ensures
        sum_where(log.push(e), keep) == sum_where(log, keep) + if keep(e) {
            e.price
        } else {
            0
        },
        mentions(log.push(e), keep) == (mentions(log, keep) || keep(e)),
{
    let longer = log.push(e);
    assert(longer.drop_last() =~= log);
    if mentions(longer, keep) && !keep(e) {
        let i = choose|i: int| 0 <= i < longer.len() && keep(longer[i]);
        assert(i < log.len());
        assert(longer[i] == log[i]);
    }
    if mentions(log, keep) {
        let i = choose|i: int| 0 <= i < log.len() && keep(log[i]);
        assert(longer[i] == log[i]);
    }
    if keep(e) {
        assert(longer[log.len() as int] == e);
    }
}

/// A selection that mentions no entry sums to zero.
pub proof fn lemma_sum_where_unmentioned(log: Seq<LogView>, keep: spec_fn(LogView) -> bool)
    requires
        !mentions(log, keep),
    ensures
        sum_where(log, keep) == 0,
    decreases log.len(),
{
    if log.len() > 0 {
        let prefix = log.drop_last();
        assert(log.last() == log[log.len() - 1]);
        assert(!mentions(prefix, keep)) by {
            if mentions(prefix, keep) {
                let i = choose|i: int| 0 <= i < prefix.len() && keep(prefix[i]);
                assert(prefix[i] == log[i]);
            }
        }
        lemma_sum_where_unmentioned(prefix, keep);
    }
}

/// Setting the value of one pair changes the sum of the values by the
/// difference.
pub proof fn lemma_sum_of_values_update<K>(pairs: Seq<(K, int)>, i: int, p: (K, int))
    requires
        0 <= i < pairs.len(),
    ensures
        sum_of_values(pairs.update(i, p)) == sum_of_values(pairs) - pairs[i].1 + p.1,
    decreases pairs.len(),
{
    let updated = pairs.update(i, p);
    if i == pairs.len() - 1 {
        assert(updated.drop_last() =~= pairs.drop_last());
    } else {
        lemma_sum_of_values_update(pairs.drop_last(), i, p);
        assert(updated.drop_last() =~= pairs.drop_last().update(i, p));
    }
}


/// Totals keyed by label: one total per label, in the order the labels
/// were first met.
#[derive(Clone, Debug)]
pub struct LabeledTotals {
    entries: Vec<(String, Total)>,
}

impl View for LabeledTotals {
    type V = Map<Seq<char>, int>;

    open spec fn view(&self) -> Map<Seq<char>, int> {
        map_of_pairs(self.pairs())
    }
}

impl LabeledTotals {
    /// The (label, total) pairs, in order.
    pub closed spec fn pairs(self) -> Seq<(Seq<char>, int)> {
        self.entries@.map_values(|e: (String, Total)| (e.0@, e.1 as int))
    }

    /// No label occurs twice.
    pub closed spec fn wf(self) -> bool {
        unique_keys(self.pairs())
    }

    /// The sum of all the totals.
    pub open spec fn sum(self) -> int {
        sum_of_values(self.pairs())
    }

    /// The pairs are the entries of the map, each once: so `sum` is the sum
    /// of the map's values.
    pub proof fn lemma_pairs_are_entries(self)
        requires
            self.wf(),
        ensures
            unique_keys(self.pairs()),
            self.pairs().len() == self@.len(),
            forall|i: int|
                0 <= i < self.pairs().len() ==> self@.contains_key(#[trigger] self.pairs()[i].0)
                    && self@[self.pairs()[i].0] == self.pairs()[i].1,
            forall|l: Seq<char>|
                #[trigger] self@.contains_key(l) ==> exists|i: int|
                    0 <= i < self.pairs().len() && self.pairs()[i].0 == l,
    {
        lemma_map_of_unique_pairs(self.pairs());
        lemma_map_of_unique_pairs_len(self.pairs());
    }

    /// No labels.
    pub fn new() -> (r: LabeledTotals)
        ensures
            r.wf(),
            r@ == Map::<Seq<char>, int>::empty(),
            r.sum() == 0,
    {
        let r = LabeledTotals { entries: Vec::new() };
        assert(r.pairs() =~= Seq::<(Seq<char>, int)>::empty());
        r
    }

    /// The total of `label`, if it has one.
    pub fn get(&self, label: &str) -> (r: Option<Total>)
        requires
            self.wf(),
        ensures
            r is Some <==> self@.contains_key(label@),
            r matches Some(t) ==> t == self@[label@],
    {
        let key = label.to_owned();
        self.index_of(&key).map(|i: usize| -> (t: Total) requires i < self.entries@.len() ensures t == self.entries@[i as int].1 { self.entries[i].1 })
    }

    /// Where `label`'s pair stands, if it has one.
    fn index_of(&self, label: &String) -> (r: Option<usize>)
        requires
            self.wf(),
        ensures
            r is Some <==> self@.contains_key(label@),
            r matches Some(i) ==> i < self.entries@.len() && self.pairs()[i as int].0 == label@
                && self@[label@] == self.pairs()[i as int].1,
            r is None ==> forall|j: int| 0 <= j < self.pairs().len() ==> (#[trigger] self.pairs()[j]).0 != label@,
    {
        let ghost pairs = self.pairs();
        let mut i: usize = 0;
        while i < self.entries.len()
            invariant
                i <= self.entries@.len(),
                pairs == self.pairs(),
                unique_keys(pairs),
                forall|j: int| 0 <= j < i ==> (#[trigger] pairs[j]).0 != label@,
            decreases self.entries@.len() - i,
        {
            if self.entries[i].0 == *label {
                proof {
                    lemma_map_of_unique_pairs(pairs);
                    assert(pairs[i as int].0 == label@);
                    assert(map_of_pairs(pairs).contains_key(pairs[i as int].0));
                }
                return Some(i);
            }
            i = i + 1;
        }
        proof {
            lemma_map_of_unique_pairs(pairs);
        }
        None
    }

    /// Adds `amount` to the total of `label`, which starts from zero where
    /// the label has no total yet.
    pub fn add(&mut self, label: String, amount: Total)
        requires
            old(self).wf(),
            i128::MIN <= (if old(self)@.contains_key(label@) {
                old(self)@[label@]
            } else {
                0
            }) + amount <= i128::MAX,
        ensures
            final(self).wf(),
            final(self)@ == old(self)@.insert(
                label@,
                (if old(self)@.contains_key(label@) {
                    old(self)@[label@]
                } else {
                    0
                }) + amount,
            ),
            final(self).sum() == old(self).sum() + amount,
    {
        let ghost before = self.pairs();
        match self.index_of(&label) {
            Some(i) => {
                let t = self.entries[i].1;
                self.entries.set(i, (label, t + amount));
                proof {
                    assert(self.pairs() =~= before.update(i as int, (label@, t + amount)));
                    lemma_map_of_pairs_update(before, i as int, (label@, t + amount));
                    lemma_sum_of_values_update(before, i as int, (label@, t + amount));
                }
            },
            None => {
                let ghost l = label@;
                self.entries.push((label, amount));
                proof {
                    assert(self.pairs() =~= before.push((l, amount as int)));
                    assert(self.pairs().drop_last() =~= before);
                    assert(unique_keys(self.pairs())) by {
                        assert forall|a: int, b: int|
                            0 <= a < self.pairs().len() && 0 <= b < self.pairs().len() && a != b
                            implies self.pairs()[a].0 != self.pairs()[b].0 by {
                            if a < before.len() && b < before.len() {
                                assert(self.pairs()[a] == before[a]);
                                assert(self.pairs()[b] == before[b]);
                            } else if a < before.len() {
                                assert(self.pairs()[a] == before[a]);
                            } else if b < before.len() {
                                assert(self.pairs()[b] == before[b]);
                            }
                        }
                    }
                }
            },
        }
    }

    /// The (label, total) pairs, in the order the labels were first met:
    /// each entry of the map once.
    pub fn to_vec(&self) -> (r: Vec<(String, Total)>)
        requires
            self.wf(),
        ensures
            r@.map_values(|e: (String, Total)| (e.0@, e.1 as int)) == self.pairs(),
            r@.len() == self@.len(),
            forall|i: int|
                0 <= i < r@.len() ==> self@.contains_key(#[trigger] r@[i].0@) && self@[r@[i].0@]
                    == r@[i].1,
            forall|i: int, j: int| 0 <= i < r@.len() && 0 <= j < r@.len() && i != j ==> r@[i].0@ != r@[j].0@,
    {
        let mut r: Vec<(String, Total)> = Vec::new();
        let mut i: usize = 0;
        while i < self.entries.len()
            invariant
                i <= self.entries@.len(),
                r@.map_values(|e: (String, Total)| (e.0@, e.1 as int)) =~= self.pairs().take(i as int),
            decreases self.entries@.len() - i,
        {
            let ghost before = r@;
            r.push((self.entries[i].0.clone(), self.entries[i].1));
            assert(r@.map_values(|e: (String, Total)| (e.0@, e.1 as int)) =~= before.map_values(|e: (String, Total)| (e.0@, e.1 as int)).push(self.pairs()[i as int]));
            i = i + 1;
            assert(r@.map_values(|e: (String, Total)| (e.0@, e.1 as int)) =~= self.pairs().take(i as int));
        }
        assert(self.pairs().take(i as int) =~= self.pairs());
        proof {
            self.lemma_pairs_are_entries();
            let rows = r@.map_values(|e: (String, Total)| (e.0@, e.1 as int));
            assert forall|k: int| 0 <= k < r@.len() implies self@.contains_key(#[trigger] r@[k].0@) && self@[r@[k].0@] == r@[k].1 by {
                assert(rows[k] == self.pairs()[k]);
            }
            assert forall|a: int, b: int| 0 <= a < r@.len() && 0 <= b < r@.len() && a != b implies r@[a].0@ != r@[b].0@ by {
                assert(rows[a] == self.pairs()[a]);
                assert(rows[b] == self.pairs()[b]);
            }
        }
        r
    }
}


/// The plain value of an optional label.
pub open spec fn label_view(o: Option<String>) -> Option<Seq<char>> {
    match o {
        Some(s) => Some(s@),
        None => None,
    }
}

/// `t` holds, for each label that `label` gives to a product of `log`, the
/// sum of the prices of the entries with that label, and no other label.
pub open spec fn is_labeled_totals(
    t: LabeledTotals,
    log: Seq<LogView>,
    label: spec_fn(Seq<char>) -> Option<Seq<char>>,
) -> bool {
    &&& t.wf()
    &&& forall|l: Seq<char>| #[trigger]
        t@.contains_key(l) <==> mentions(log, labelled(label, l))
    &&& forall|l: Seq<char>| #[trigger]
        t@.contains_key(l) ==> t@[l] == sum_where(log, labelled(label, l))
}

/// Every price of a log lies in the range of `Price`.
proof fn lemma_log_prices(f: Finance, n: int)
    requires
        0 <= n <= f@.log.len(),
    ensures
        forall|i: int| 0 <= i < f@.log.take(n).len() ==> i64::MIN <= #[trigger] f@.log.take(n)[i].price <= i64::MAX,
{
    assert forall|i: int| 0 <= i < f@.log.take(n).len() implies i64::MIN <= #[trigger] f@.log.take(n)[i].price <= i64::MAX by {
        assert(f@.log.take(n)[i] == f@.log[i]);
        f.lemma_log_view();
        assert(f@.log[i] == f.logs@[i]@);
    }
}

/// Totals by product and by category over a `Finance` snapshot.
#[derive(Debug)]
pub struct ExpenditureLogStats {
    log: Finance,
}

impl ExpenditureLogStats {
    #[verifier::type_invariant]
    spec fn well_formed(self) -> bool {
        self.log.wf()
    }

    /// The snapshot that the totals are taken over.
    pub closed spec fn finance(self) -> Finance {
        self.log
    }

    pub fn new(log: Finance) -> (r: ExpenditureLogStats)
        requires
            log.wf(),
        ensures
            r.finance() == log,
    {
        ExpenditureLogStats { log }
    }

    /// The sum of the prices of all purchases of `product`, whatever the
    /// catalog holds; zero where there is none.
    pub fn product_total(&self, product: &str) -> (r: Total)
        ensures
            r == sum_where(self.finance()@.log, of_product(product@)),
    {
        proof {
            use_type_invariant(self);
        }
        let key = product.to_owned();
        let ghost log = self.log@.log;
        proof {
            self.log.lemma_log_view();
        }
        let mut total: Total = 0;
        let mut i: usize = 0;
        while i < self.log.logs.len()
            invariant
                self.log.wf(),
                log == self.log@.log,
                log.len() == self.log.logs@.len(),
                key@ == product@,
                i <= log.len(),
                total == sum_where(log.take(i as int), of_product(key@)),
            decreases log.len() - i,
        {
            let entry = &self.log.logs[i];
            proof {
                self.log.lemma_log_view();
                assert(log.take(i + 1) =~= log.take(i as int).push(log[i as int]));
                lemma_sum_where_push(log.take(i as int), log[i as int], of_product(key@));
                lemma_log_prices(self.log, i as int);
                lemma_sum_where_bounds(log.take(i as int), of_product(key@));
            }
            if entry.product == key {
                total = total + entry.price as Total;
            }
            i = i + 1;
        }
        assert(log.take(i as int) =~= log);
        total
    }

    /// The sum of the prices of the purchases whose product the catalog
    /// files under `category`; purchases of unregistered products count
    /// for no category.
    pub fn category_total(&self, category: &str) -> (r: Total)
        ensures
            r == sum_where(self.finance()@.log, labelled(category_label(self.finance()@.catalog), category@)),
    {
        proof {
            use_type_invariant(self);
        }
        let key = category.to_owned();
        let ghost log = self.log@.log;
        proof {
            self.log.lemma_log_view();
        }
        let ghost keep = labelled(category_label(self.log@.catalog), key@);
        let mut total: Total = 0;
        let mut i: usize = 0;
        while i < self.log.logs.len()
            invariant
                self.log.wf(),
                log == self.log@.log,
                log.len() == self.log.logs@.len(),
                keep == labelled(category_label(self.log@.catalog), key@),
                key@ == category@,
                i <= log.len(),
                total == sum_where(log.take(i as int), keep),
            decreases log.len() - i,
        {
            let entry = &self.log.logs[i];
            proof {
                self.log.lemma_log_view();
                assert(log.take(i + 1) =~= log.take(i as int).push(log[i as int]));
                lemma_sum_where_push(log.take(i as int), log[i as int], keep);
                lemma_log_prices(self.log, i as int);
                lemma_sum_where_bounds(log.take(i as int), keep);
            }
            match self.log.get_category_for(entry.product.as_str()) {
                Some(c) => {
                    if c == key {
                        total = total + entry.price as Total;
                    }
                },
                None => {},
            }
            i = i + 1;
        }
        assert(log.take(i as int) =~= log);
        total
    }

    /// For each label that `label_fn` gives a logged product, the sum of the
    /// prices of the purchases with that label; unlabelled purchases are left
    /// out.
    fn totals_by_label<F: Fn(&String) -> Option<String>>(
        &self,
        label_fn: F,
        Ghost(label): Ghost<spec_fn(Seq<char>) -> Option<Seq<char>>>,
    ) -> (r: LabeledTotals)
        requires
            forall|p: &String| #[trigger] label_fn.requires((p,)),
            forall|p: &String, o: Option<String>|
                #[trigger] label_fn.ensures((p,), o) ==> label_view(o) == label(p@),
        ensures
            is_labeled_totals(r, self.finance()@.log, label),
    {
        proof {
            use_type_invariant(self);
        }
        let ghost log = self.log@.log;
        proof {
            self.log.lemma_log_view();
        }
        let mut totals = LabeledTotals::new();
        let mut i: usize = 0;
        proof {
            assert forall|l: Seq<char>| #[trigger] totals@.contains_key(l) <==> mentions(log.take(0), labelled(label, l)) by {}
        }
        while i < self.log.logs.len()
            invariant
                self.log.wf(),
                log == self.log@.log,
                log.len() == self.log.logs@.len(),
                i <= log.len(),
                forall|p: &String| #[trigger] label_fn.requires((p,)),
                forall|p: &String, o: Option<String>|
                    #[trigger] label_fn.ensures((p,), o) ==> label_view(o) == label(p@),
                is_labeled_totals(totals, log.take(i as int), label),
            decreases log.len() - i,
        {
            let entry = &self.log.logs[i];
            let ghost prefix = log.take(i as int);
            let ghost e = log[i as int];
            proof {
                self.log.lemma_log_view();
                assert(log.take(i + 1) =~= prefix.push(e));
                lemma_log_prices(self.log, i as int);
            }
            let found = label_fn(&entry.product);
            match found {
                Some(name) => {
                    proof {
                        let keep = labelled(label, name@);
                        if !totals@.contains_key(name@) {
                            lemma_sum_where_unmentioned(prefix, keep);
                        }
                        lemma_sum_where_bounds(prefix, keep);
                    }
                    let ghost n = name@;
                    totals.add(name, entry.price as Total);
                    proof {
                        assert forall|l: Seq<char>| #[trigger] totals@.contains_key(l) <==> mentions(log.take(i + 1), labelled(label, l)) by {
                            lemma_sum_where_push(prefix, e, labelled(label, l));
                        }
                        assert forall|l: Seq<char>| #[trigger] totals@.contains_key(l) implies totals@[l] == sum_where(log.take(i + 1), labelled(label, l)) by {
                            lemma_sum_where_push(prefix, e, labelled(label, l));
                            if l == n {
                                if !mentions(prefix, labelled(label, l)) {
                                    lemma_sum_where_unmentioned(prefix, labelled(label, l));
                                }
                            }
                        }
                    }
                },
                None => {
                    proof {
                        assert forall|l: Seq<char>| #[trigger] totals@.contains_key(l) <==> mentions(log.take(i + 1), labelled(label, l)) by {
                            lemma_sum_where_push(prefix, e, labelled(label, l));
                        }
                        assert forall|l: Seq<char>| #[trigger] totals@.contains_key(l) implies totals@[l] == sum_where(log.take(i + 1), labelled(label, l)) by {
                            lemma_sum_where_push(prefix, e, labelled(label, l));
                        }
                    }
                },
            }
            i = i + 1;
        }
        assert(log.take(i as int) =~= log);
        totals
    }

    /// For each logged product, the sum of the prices of its purchases;
    /// products without purchases are absent.
    pub fn product_totals(&self) -> (r: LabeledTotals)
        ensures
            is_labeled_totals(r, self.finance()@.log, product_label()),
    {
        let label_fn = (|p: &String| -> (o: Option<String>)
            ensures
                label_view(o) == product_label()(p@),
            { Some(p.clone()) });
        self.totals_by_label(label_fn, Ghost(product_label()))
    }

    /// For each category that a logged product is filed under, the sum of the
    /// prices of the purchases of its products; purchases of unregistered
    /// products are left out.
    pub fn category_totals(&self) -> (r: LabeledTotals)
        ensures
            is_labeled_totals(r, self.finance()@.log, category_label(self.finance()@.catalog)),
    {
        proof {
            use_type_invariant(self);
        }
        let finance = &self.log;
        let label_fn = (|p: &String| -> (o: Option<String>)
            requires
                finance.wf(),
            ensures
                label_view(o) == category_label(finance@.catalog)(p@),
            { finance.get_category_for(p.as_str()) });
        self.totals_by_label(label_fn, Ghost(category_label(self.log@.catalog)))
    }
}


/// The totals of one month: by label, and the sum of the purchases that got
/// no label.
#[derive(Clone, Debug)]
pub struct GroupedTotals {
    pub labeled: LabeledTotals,
    pub unlabeled: Total,
}

impl GroupedTotals {
    /// No labels, and nothing unlabelled.
    pub fn new() -> (r: GroupedTotals)
        ensures
            r.labeled.wf(),
            r.labeled@ == Map::<Seq<char>, int>::empty(),
            r.labeled.sum() == 0,
            r.unlabeled == 0,
    {
        GroupedTotals { labeled: LabeledTotals::new(), unlabeled: 0 }
    }
}

impl Default for GroupedTotals {
    /// No labels, and nothing unlabelled.
    fn default() -> (r: GroupedTotals)
        ensures
            r.labeled.wf(),
            r.labeled@ == Map::<Seq<char>, int>::empty(),
            r.labeled.sum() == 0,
            r.unlabeled == 0,
    {
        GroupedTotals::new()
    }
}

/// `g` holds the totals of month `b` of `log` under `label`: for each label
/// given to a purchase of that month, the sum of the prices with that label;
/// the sum of the prices of that month's unlabelled purchases; and, together,
/// the sum of all of that month's prices.
pub open spec fn is_month_totals(
    g: GroupedTotals,
    log: Seq<LogView>,
    b: YearMonth,
    label: spec_fn(Seq<char>) -> Option<Seq<char>>,
) -> bool {
    &&& g.labeled.wf()
    &&& forall|l: Seq<char>| #[trigger]
        g.labeled@.contains_key(l) <==> mentions(log, in_month_labelled(b, label, Some(l)))
    &&& forall|l: Seq<char>| #[trigger]
        g.labeled@.contains_key(l) ==> g.labeled@[l] == sum_where(
            log,
            in_month_labelled(b, label, Some(l)),
        )
    &&& g.unlabeled == sum_where(log, in_month_labelled(b, label, None))
    &&& g.labeled.sum() + g.unlabeled == sum_where(log, in_month(b))
}

/// Totals by calendar month: one `GroupedTotals` for each month that has a
/// purchase, in the order the months were first met.
#[derive(Debug)]
pub struct MonthlyTotals {
    months: Vec<(YearMonth, GroupedTotals)>,
}

impl View for MonthlyTotals {
    type V = Map<YearMonth, GroupedTotals>;

    open spec fn view(&self) -> Map<YearMonth, GroupedTotals> {
        map_of_pairs(self.pairs())
    }
}

impl MonthlyTotals {
    /// The (month, totals) pairs, in order.
    pub closed spec fn pairs(self) -> Seq<(YearMonth, GroupedTotals)> {
        self.months@
    }

    /// No month occurs twice.
    pub closed spec fn wf(self) -> bool {
        unique_keys(self.pairs())
    }

    /// The totals of month `year_month`, if it has a purchase.
    pub fn get(&self, year_month: &YearMonth) -> (r: Option<&GroupedTotals>)
        requires
            self.wf(),
        ensures
            r is Some <==> self@.contains_key(*year_month),
            r matches Some(g) ==> *g == self@[*year_month],
    {
        match month_index(&self.months, year_month) {
            Some(i) => Some(&self.months[i].1),
            None => None,
        }
    }

    /// The months that have totals, in the order they were first met.
    pub fn year_months(&self) -> (r: Vec<YearMonth>)
        requires
            self.wf(),
        ensures
            r@ == self.pairs().map_values(|p: (YearMonth, GroupedTotals)| p.0),
            r@.no_duplicates(),
            forall|b: YearMonth| #[trigger] r@.contains(b) <==> self@.contains_key(b),
    {
        let mut r: Vec<YearMonth> = Vec::new();
        let mut i: usize = 0;
        while i < self.months.len()
            invariant
                i <= self.months@.len(),
                r@ =~= self.pairs().map_values(|p: (YearMonth, GroupedTotals)| p.0).take(i as int),
            decreases self.months@.len() - i,
        {
            r.push(self.months[i].0);
            i = i + 1;
            assert(r@ =~= self.pairs().map_values(|p: (YearMonth, GroupedTotals)| p.0).take(i as int));
        }
        assert(self.pairs().map_values(|p: (YearMonth, GroupedTotals)| p.0).take(i as int) =~= self.pairs().map_values(|p: (YearMonth, GroupedTotals)| p.0));
        proof {
            lemma_map_of_unique_pairs(self.pairs());
            assert forall|b: YearMonth| #[trigger] r@.contains(b) <==> self@.contains_key(b) by {
                if r@.contains(b) {
                    let k = choose|k: int| 0 <= k < r@.len() && r@[k] == b;
                    assert(self.pairs()[k].0 == b);
                }
                if self@.contains_key(b) {
                    let k = choose|k: int| 0 <= k < self.pairs().len() && self.pairs()[k].0 == b;
                    assert(r@[k] == b);
                }
            }
        }
        r
    }
}

/// Where month `year_month` stands among `months`, if it is there.
fn month_index(months: &Vec<(YearMonth, GroupedTotals)>, year_month: &YearMonth) -> (r: Option<usize>)
    requires
        unique_keys(months@),
    ensures
        r is Some <==> map_of_pairs(months@).contains_key(*year_month),
        r matches Some(i) ==> i < months@.len() && months@[i as int].0 == *year_month
            && map_of_pairs(months@)[*year_month] == months@[i as int].1,
        r is None ==> forall|j: int| 0 <= j < months@.len() ==> (#[trigger] months@[j]).0 != *year_month,
{
    let mut i: usize = 0;
    while i < months.len()
        invariant
            i <= months@.len(),
            unique_keys(months@),
            forall|j: int| 0 <= j < i ==> (#[trigger] months@[j]).0 != *year_month,
        decreases months@.len() - i,
    {
        if months[i].0 == *year_month {
            proof {
                lemma_map_of_unique_pairs(months@);
                assert(map_of_pairs(months@).contains_key(months@[i as int].0));
            }
            return Some(i);
        }
        i = i + 1;
    }
    proof {
        lemma_map_of_unique_pairs(months@);
    }
    None
}

/// A month that no purchase of `log` falls in has empty totals.
proof fn lemma_fresh_month(
    g: GroupedTotals,
    log: Seq<LogView>,
    b: YearMonth,
    label: spec_fn(Seq<char>) -> Option<Seq<char>>,
)
    requires
        !mentions(log, in_month(b)),
        g.labeled.wf(),
        g.labeled@ == Map::<Seq<char>, int>::empty(),
        g.labeled.sum() == 0,
        g.unlabeled == 0,
    ensures
        is_month_totals(g, log, b, label),
{
    assert forall|o: Option<Seq<char>>| !mentions(log, #[trigger] in_month_labelled(b, label, o)) by {
        if mentions(log, in_month_labelled(b, label, o)) {
            let i = choose|i: int| 0 <= i < log.len() && in_month_labelled(b, label, o)(log[i]);
            assert(in_month(b)(log[i]));
        }
    }
    lemma_sum_where_unmentioned(log, in_month(b));
    lemma_sum_where_unmentioned(log, in_month_labelled(b, label, None));
}

/// The totals of a month stay those of the log when a purchase of another
/// month is appended.
proof fn lemma_other_month(
    g: GroupedTotals,
    log: Seq<LogView>,
    e: LogView,
    b: YearMonth,
    label: spec_fn(Seq<char>) -> Option<Seq<char>>,
)
    requires
        is_month_totals(g, log, b, label),
        e.year_month != b,
    ensures
        is_month_totals(g, log.push(e), b, label),
{
    assert forall|o: Option<Seq<char>>|
        sum_where(log.push(e), #[trigger] in_month_labelled(b, label, o)) == sum_where(
            log,
            in_month_labelled(b, label, o),
        ) && mentions(log.push(e), in_month_labelled(b, label, o)) == mentions(
            log,
            in_month_labelled(b, label, o),
        ) by {
        lemma_sum_where_push(log, e, in_month_labelled(b, label, o));
    }
    lemma_sum_where_push(log, e, in_month(b));
}

/// Adding a purchase's price where its label says keeps the totals of its
/// month those of the log with that purchase appended.
proof fn lemma_same_month(
    g: GroupedTotals,
    next: GroupedTotals,
    log: Seq<LogView>,
    e: LogView,
    label: spec_fn(Seq<char>) -> Option<Seq<char>>,
)
    requires
        is_month_totals(g, log, e.year_month, label),
        next.labeled.wf(),
        match label(e.product) {
            Some(n) => {
                &&& next.labeled@ == g.labeled@.insert(
                    n,
                    (if g.labeled@.contains_key(n) {
                        g.labeled@[n]
                    } else {
                        0
                    }) + e.price,
                )
                &&& next.labeled.sum() == g.labeled.sum() + e.price
                &&& next.unlabeled == g.unlabeled
            },
            None => {
                &&& next.labeled@ == g.labeled@
                &&& next.labeled.sum() == g.labeled.sum()
                &&& next.unlabeled == g.unlabeled + e.price
            },
        },
    ensures
        is_month_totals(next, log.push(e), e.year_month, label),
{
    let b = e.year_month;
    lemma_sum_where_push(log, e, in_month(b));
    lemma_sum_where_push(log, e, in_month_labelled(b, label, None));
    assert forall|l: Seq<char>| #[trigger] next.labeled@.contains_key(l) <==> mentions(log.push(e), in_month_labelled(b, label, Some(l))) by {
        lemma_sum_where_push(log, e, in_month_labelled(b, label, Some(l)));
    }
    assert forall|l: Seq<char>| #[trigger] next.labeled@.contains_key(l) implies next.labeled@[l] == sum_where(log.push(e), in_month_labelled(b, label, Some(l))) by {
        lemma_sum_where_push(log, e, in_month_labelled(b, label, Some(l)));
        if label(e.product) == Some(l) && !g.labeled@.contains_key(l) {
            lemma_sum_where_unmentioned(log, in_month_labelled(b, label, Some(l)));
        }
    }
}

/// `r` holds the totals of each month of `log` that has a purchase, under
/// `label`, and no other month.
pub open spec fn is_monthly_totals(
    r: MonthlyTotals,
    log: Seq<LogView>,
    label: spec_fn(Seq<char>) -> Option<Seq<char>>,
) -> bool {
    &&& r.wf()
    &&& forall|b: YearMonth| #[trigger] r@.contains_key(b) <==> mentions(log, in_month(b))
    &&& forall|b: YearMonth| #[trigger]
        r@.contains_key(b) ==> is_month_totals(r@[b], log, b, label)
}


/// For each month of the totals, the labelled totals and the unlabelled sum
/// add up to the sum of the prices of that month's purchases; the labelled
/// totals summed are the values of the month's label map, each once.
pub proof fn lemma_month_totals_add_up(
    r: MonthlyTotals,
    log: Seq<LogView>,
    label: spec_fn(Seq<char>) -> Option<Seq<char>>,
    b: YearMonth,
)
    requires
        is_monthly_totals(r, log, label),
        r@.contains_key(b),
    ensures
        r@[b].labeled.sum() + r@[b].unlabeled == sum_where(log, in_month(b)),
        r@[b].labeled.sum() == sum_of_values(r@[b].labeled.pairs()),
        r@[b].labeled.pairs().len() == r@[b].labeled@.len(),
        forall|i: int|
            0 <= i < r@[b].labeled.pairs().len() ==> r@[b].labeled@.contains_key(
                #[trigger] r@[b].labeled.pairs()[i].0,
            ) && r@[b].labeled@[r@[b].labeled.pairs()[i].0] == r@[b].labeled.pairs()[i].1,
        unique_keys(r@[b].labeled.pairs()),
{
    r@[b].labeled.lemma_pairs_are_entries();
}

/// Purchases of two different months are totalled apart: each month has
/// its own totals, and neither month's sum takes the other's purchase.
pub proof fn lemma_months_kept_apart(
    r: MonthlyTotals,
    log: Seq<LogView>,
    label: spec_fn(Seq<char>) -> Option<Seq<char>>,
    i: int,
    j: int,
)
    requires
        is_monthly_totals(r, log, label),
        0 <= i < log.len(),
        0 <= j < log.len(),
        log[i].year_month != log[j].year_month,
    ensures
        r@.contains_key(log[i].year_month),
        r@.contains_key(log[j].year_month),
        !in_month(log[i].year_month)(log[j]),
        !in_month(log[j].year_month)(log[i]),
        r@[log[i].year_month].labeled.sum() + r@[log[i].year_month].unlabeled == sum_where(
            log,
            in_month(log[i].year_month),
        ),
        r@[log[j].year_month].labeled.sum() + r@[log[j].year_month].unlabeled == sum_where(
            log,
            in_month(log[j].year_month),
        ),
{
    assert(in_month(log[i].year_month)(log[i]));
    assert(in_month(log[j].year_month)(log[j]));
    assert(r@.contains_key(log[i].year_month));
    assert(r@.contains_key(log[j].year_month));
}

/// Totals by calendar month over a `Finance` snapshot.
#[derive(Debug)]
pub struct FinanceStats {
    finance: Finance,
}

impl FinanceStats {
    #[verifier::type_invariant]
    spec fn well_formed(self) -> bool {
        self.finance.wf()
    }

    /// The snapshot that the totals are taken over.
    pub closed spec fn finance(self) -> Finance {
        self.finance
    }

    pub fn new(log: Finance) -> (r: FinanceStats)
        requires
            log.wf(),
        ensures
            r.finance() == log,
    {
        FinanceStats { finance: log }
    }

    /// For each month with a purchase, the totals of that month by product.
    pub fn product_totals_by_year_month(&self) -> (r: MonthlyTotals)
        ensures
            is_monthly_totals(r, self.finance()@.log, product_label()),
    {
        let label_fn = (|p: &String| -> (o: Option<String>)
            ensures
                label_view(o) == product_label()(p@),
            { Some(p.clone()) });
        self.group_logs_by_year_month_and_label(label_fn, Ghost(product_label()))
    }

    /// For each month with a purchase, the totals of that month by category;
    /// purchases of unregistered products go to the unlabelled sum.
    pub fn category_totals_by_year_month(&self) -> (r: MonthlyTotals)
        ensures
            is_monthly_totals(r, self.finance()@.log, category_label(self.finance()@.catalog)),
    {
        proof {
            use_type_invariant(self);
        }
        let finance = &self.finance;
        let label_fn = (|p: &String| -> (o: Option<String>)
            requires
                finance.wf(),
            ensures
                label_view(o) == category_label(finance@.catalog)(p@),
            { finance.get_category_for(p.as_str()) });
        self.group_logs_by_year_month_and_label(label_fn, Ghost(category_label(self.finance@.catalog)))
    }

    /// One pass over the log, oldest purchase first: each price is added to
    /// its month's total for the label that `label_fn` gives its product, or
    /// to that month's unlabelled sum where it gives none.
    fn group_logs_by_year_month_and_label<F: Fn(&String) -> Option<String>>(
        &self,
        label_fn: F,
        Ghost(label): Ghost<spec_fn(Seq<char>) -> Option<Seq<char>>>,
    ) -> (r: MonthlyTotals)
        requires
            forall|p: &String| #[trigger] label_fn.requires((p,)),
            forall|p: &String, o: Option<String>|
                #[trigger] label_fn.ensures((p,), o) ==> label_view(o) == label(p@),
        ensures
            is_monthly_totals(r, self.finance()@.log, label),
    {
        proof {
            use_type_invariant(self);
            self.finance.lemma_log_view();
        }
        let ghost log = self.finance@.log;
        let mut months: Vec<(YearMonth, GroupedTotals)> = Vec::new();
        let mut i: usize = 0;
        proof {
            assert(map_of_pairs(months@) =~= Map::<YearMonth, GroupedTotals>::empty());
        }
        while i < self.finance.logs.len()
            invariant
                self.finance.wf(),
                log == self.finance@.log,
                log.len() == self.finance.logs@.len(),
                i <= log.len(),
                forall|p: &String| #[trigger] label_fn.requires((p,)),
                forall|p: &String, o: Option<String>|
                    #[trigger] label_fn.ensures((p,), o) ==> label_view(o) == label(p@),
                is_monthly_totals(MonthlyTotals { months }, log.take(i as int), label),
            decreases log.len() - i,
        {
            let entry = &self.finance.logs[i];
            let ghost prefix = log.take(i as int);
            let ghost e = log[i as int];
            let ghost before = months@;
            proof {
                self.finance.lemma_log_view();
                assert(e == entry@);
                assert(log.take(i + 1) =~= prefix.push(e));
                lemma_log_prices(self.finance, i as int);
            }
            let year_month = entry.year_month;
            let found = label_fn(&entry.product);
            proof {
                assert(MonthlyTotals { months }@ == map_of_pairs(before));
                assert(unique_keys(before));
            }
            let (pos, mut g) = match month_index(&months, &year_month) {
                Some(j) => {
                    let (_, g) = months.remove(j);
                    proof {
                        assert(g == map_of_pairs(before)[year_month]);
                    }
                    (j, g)
                },
                None => {
                    let g = GroupedTotals::new();
                    proof {
                        assert(!mentions(prefix, in_month(year_month)));
                        lemma_fresh_month(g, prefix, year_month, label);
                    }
                    (months.len(), g)
                },
            };
            let ghost g_old = g;
            proof {
                assert(is_month_totals(g_old, prefix, year_month, label));
            }
            match found {
                Some(name) => {
                    proof {
                        let keep = in_month_labelled(year_month, label, Some(name@));
                        if !g.labeled@.contains_key(name@) {
                            lemma_sum_where_unmentioned(prefix, keep);
                        }
                        lemma_sum_where_bounds(prefix, keep);
                    }
                    g.labeled.add(name, entry.price as Total);
                },
                None => {
                    proof {
                        lemma_sum_where_bounds(prefix, in_month_labelled(year_month, label, None));
                    }
                    g.unlabeled = g.unlabeled + entry.price as Total;
                },
            }
            proof {
                lemma_same_month(g_old, g, prefix, e, label);
            }
            let ghost g_new = g;
            months.insert(pos, (year_month, g));
            proof {
                let after = MonthlyTotals { months };
                if pos < before.len() {
                    assert(months@ =~= before.update(pos as int, (year_month, g_new)));
                    lemma_map_of_pairs_update(before, pos as int, (year_month, g_new));
                } else {
                    assert(months@ =~= before.push((year_month, g_new)));
                    assert(months@.drop_last() =~= before);
                    assert(unique_keys(months@)) by {
                        assert forall|a: int, c: int|
                            0 <= a < months@.len() && 0 <= c < months@.len() && a != c
                            implies months@[a].0 != months@[c].0 by {
                            if a < before.len() {
                                assert(months@[a] == before[a]);
                            }
                            if c < before.len() {
                                assert(months@[c] == before[c]);
                            }
                        }
                    }
                }
                assert(after@ == map_of_pairs(before).insert(year_month, g_new));
                assert forall|b: YearMonth| #[trigger] after@.contains_key(b) <==> mentions(log.take(i + 1), in_month(b)) by {
                    lemma_sum_where_push(prefix, e, in_month(b));
                }
                assert forall|b: YearMonth| #[trigger] after@.contains_key(b) implies is_month_totals(after@[b], log.take(i + 1), b, label) by {
                    if b != year_month {
                        lemma_other_month(after@[b], prefix, e, b, label);
                    }
                }
            }
            i = i + 1;
        }
        assert(log.take(i as int) =~= log);
        MonthlyTotals { months }
    }
}

} // verus!
