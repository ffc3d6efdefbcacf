//! The order in which totals are listed: months earliest first; within a
//! month, labels ascending, and the unlabelled sum last, shown only where it
//! is above zero.
use std::cmp::Ordering;

use itertools::Itertools;
use vstd::prelude::*;

use crate::finance::{lemma_permuted_pairs, YearMonth};
use crate::stats::{GroupedTotals, MonthlyTotals, Total};

verus! {

/// `a` comes before `b` in lexicographic order of characters.
pub open spec fn label_lt(a: Seq<char>, b: Seq<char>) -> bool
    decreases a.len(),
{
    if a.len() == 0 {
        b.len() > 0
    } else if b.len() == 0 {
        false
    } else if a[0] != b[0] {
        (a[0] as u32) < (b[0] as u32)
    } else {
        label_lt(a.drop_first(), b.drop_first())
    }
}

/// The plain values of (label, total) rows.
pub open spec fn rows_view(rows: Seq<(String, Total)>) -> Seq<(Seq<char>, int)> {
    rows.map_values(|r: (String, Total)| (r.0@, r.1 as int))
}

/// Rows in ascending order of label.
pub open spec fn sorted_by_label(rows: Seq<(String, Total)>) -> bool {
    forall|i: int, j: int| 0 <= i < j < rows.len() ==> !label_lt(rows[j].0@, rows[i].0@)
}

/// Comparing two labels past an equal prefix of length `k` is comparing the
/// rest.
proof fn lemma_label_lt_skip(a: Seq<char>, b: Seq<char>, k: int)
    requires
        0 <= k < a.len(),
        k < b.len(),
        a[k] == b[k],
    ensures
        label_lt(a.skip(k), b.skip(k)) == label_lt(a.skip(k + 1), b.skip(k + 1)),
{
    assert(a.skip(k).drop_first() =~= a.skip(k + 1));
    assert(b.skip(k).drop_first() =~= b.skip(k + 1));
}

/// Different characters have different codes.
proof fn lemma_char_codes_differ(x: char, y: char)
    requires
        x != y,
    ensures
        (x as u32) != (y as u32),
{
}

/// Of two different labels, one comes before the other.
pub proof fn lemma_label_lt_total(a: Seq<char>, b: Seq<char>)
    requires
        a != b,
    ensures
        label_lt(a, b) || label_lt(b, a),
    decreases a.len(),
{
    if a.len() == 0 || b.len() == 0 {
        if a.len() == 0 && b.len() == 0 {
            assert(a =~= b);
        }
    } else if a[0] == b[0] {
        assert(a =~= seq![a[0]] + a.drop_first());
        assert(b =~= seq![b[0]] + b.drop_first());
        lemma_label_lt_total(a.drop_first(), b.drop_first());
    } else {
        lemma_char_codes_differ(a[0], b[0]);
    }
}

/// The order of two labels: by character, the shorter first where one is
/// the start of the other.
pub fn compare_labels(a: &String, b: &String) -> (r: Ordering)
    ensures
        (r == Ordering::Less) == label_lt(a@, b@),
        (r == Ordering::Equal) == (a@ == b@),
        (r == Ordering::Greater) == label_lt(b@, a@),
{
    let a_len = a.as_str().unicode_len();
    let b_len = b.as_str().unicode_len();
    let mut k: usize = 0;
    proof {
        assert(a@.skip(0) =~= a@);
        assert(b@.skip(0) =~= b@);
    }
    while k < a_len && k < b_len
        invariant
            a_len == a@.len(),
            b_len == b@.len(),
            k <= a_len,
            k <= b_len,
            a@.take(k as int) =~= b@.take(k as int),
            label_lt(a@, b@) == label_lt(a@.skip(k as int), b@.skip(k as int)),
            label_lt(b@, a@) == label_lt(b@.skip(k as int), a@.skip(k as int)),
        decreases a_len - k,
    {
        let ca = a.as_str().get_char(k);
        let cb = b.as_str().get_char(k);
        if ca != cb {
            proof {
                assert(a@.skip(k as int)[0] == ca);
                assert(b@.skip(k as int)[0] == cb);
                assert(a@[k as int] != b@[k as int]);
            }
            if (ca as u32) < (cb as u32) {
                return Ordering::Less;
            } else {
                return Ordering::Greater;
            }
        }
        proof {
            lemma_label_lt_skip(a@, b@, k as int);
            lemma_label_lt_skip(b@, a@, k as int);
            assert(a@.take(k + 1) =~= a@.take(k as int).push(ca));
            assert(b@.take(k + 1) =~= b@.take(k as int).push(cb));
        }
        k = k + 1;
    }
    if k < b_len {
        proof {
            assert(a@.take(k as int) =~= a@);
            assert(a@ != b@) by {
                assert(a@.len() != b@.len());
            }
        }
        Ordering::Less
    } else if k < a_len {
        proof {
            assert(b@.take(k as int) =~= b@);
            assert(a@.len() != b@.len());
        }
        Ordering::Greater
    } else {
        proof {
            assert(a@.take(k as int) =~= a@);
            assert(b@.take(k as int) =~= b@);
        }
        Ordering::Equal
    }
}

/// Relies on im::Vector::sort_by: a quicksort that only swaps items, here
/// into the order that `compare_labels` gives.
#[verifier::external_body]
fn sort_rows_by_label(rows: Vec<(String, Total)>) -> (r: Vec<(String, Total)>)
    ensures
        rows_view(r@).to_multiset() == rows_view(rows@).to_multiset(),
        sorted_by_label(r@),
{
    let mut rows: im::Vector<(String, Total)> = im::Vector::from(rows);
    rows.sort_by(|left, right| compare_labels(&left.0, &right.0));
    rows.into_iter().collect()
}

/// The (label, total) rows of a month: each of its labels once with its
/// total, in strictly ascending order of label.
pub fn sorted_labeled_logs(totals: &GroupedTotals) -> (r: Vec<(String, Total)>)
    requires
        totals.labeled.wf(),
    ensures
        r@.len() == totals.labeled@.len(),
        forall|i: int|
            0 <= i < r@.len() ==> totals.labeled@.contains_key(#[trigger] r@[i].0@)
                && totals.labeled@[r@[i].0@] == r@[i].1,
        forall|i: int, j: int| 0 <= i < j < r@.len() ==> label_lt(r@[i].0@, r@[j].0@),
{
    let rows = totals.labeled.to_vec();
    let r = sort_rows_by_label(rows);
    proof {
        let pairs = totals.labeled.pairs();
        let sorted = rows_view(r@);
        totals.labeled.lemma_pairs_are_entries();
        assert(rows_view(rows@) == pairs);
        lemma_permuted_pairs(pairs, sorted);
        assert forall|i: int| 0 <= i < r@.len() implies totals.labeled@.contains_key(#[trigger] r@[i].0@)
            && totals.labeled@[r@[i].0@] == r@[i].1 by {
            assert(sorted[i] == (r@[i].0@, r@[i].1 as int));
            assert(pairs.contains(sorted[i]));
            let k = choose|k: int| 0 <= k < pairs.len() && pairs[k] == sorted[i];
        }
        assert forall|i: int, j: int| 0 <= i < j < r@.len() implies label_lt(r@[i].0@, r@[j].0@) by {
            assert(sorted[i].0 == r@[i].0@);
            assert(sorted[j].0 == r@[j].0@);
            lemma_label_lt_total(r@[i].0@, r@[j].0@);
        }
    }
    r
}

/// The unlabelled sum of a month, where it is to be listed: only when it
/// is above zero, after the labelled rows.
pub fn unlabeled_row(totals: &GroupedTotals) -> (r: Option<Total>)
    ensures
        r is Some <==> totals.unlabeled > 0,
        r matches Some(t) ==> t == totals.unlabeled,
{
    if totals.unlabeled > 0 {
        Some(totals.unlabeled)
    } else {
        None
    }
}

/// `a` is an earlier month than `b`.
pub open spec fn month_lt(a: YearMonth, b: YearMonth) -> bool {
    a.year_spec() < b.year_spec() || (a.year_spec() == b.year_spec() && a.month_spec()
        < b.month_spec())
}

/// The order of two months: by year, then by month number.
pub fn compare_year_months(a: &YearMonth, b: &YearMonth) -> (r: Ordering)
    ensures
        (r == Ordering::Less) == month_lt(*a, *b),
        (r == Ordering::Equal) == (*a == *b),
        (r == Ordering::Greater) == month_lt(*b, *a),
{
    proof {
        YearMonth::lemma_from_parts(*a, 0, 1);
        YearMonth::lemma_from_parts(*b, 0, 1);
    }
    let (a_year, b_year) = (a.year(), b.year());
    let (a_month, b_month) = (a.month(), b.month());
    if a_year < b_year {
        Ordering::Less
    } else if a_year > b_year {
        Ordering::Greater
    } else if a_month < b_month {
        Ordering::Less
    } else if a_month > b_month {
        Ordering::Greater
    } else {
        Ordering::Equal
    }
}

/// Relies on itertools::Itertools::sorted_by: collects the months into a
/// `Vec` and sorts it with std's `sort_by`, here in the order that
/// `compare_year_months` gives.
#[verifier::external_body]
fn sort_year_months(months: Vec<YearMonth>) -> (r: Vec<YearMonth>)
    ensures
        r@.to_multiset() == months@.to_multiset(),
        forall|i: int, j: int| 0 <= i < j < r@.len() ==> !month_lt(r@[j], r@[i]),
{
    months.into_iter().sorted_by(|left, right| compare_year_months(left, right)).collect()
}

/// The months that have totals, each once, earliest first.
pub fn sorted_year_months(totals: &MonthlyTotals) -> (r: Vec<YearMonth>)
    requires
        totals.wf(),
    ensures
        forall|b: YearMonth| #[trigger] r@.contains(b) <==> totals@.contains_key(b),
        forall|i: int, j: int| 0 <= i < j < r@.len() ==> month_lt(r@[i], r@[j]),
{
    let months = totals.year_months();
    let r = sort_year_months(months);
    proof {
        broadcast use vstd::seq_lib::to_multiset_contains;

        months@.lemma_multiset_has_no_duplicates();
        r@.lemma_multiset_has_no_duplicates_conv();
        assert forall|b: YearMonth| #[trigger] r@.contains(b) <==> totals@.contains_key(b) by {
            assert(r@.contains(b) <==> r@.to_multiset().count(b) > 0);
            assert(months@.contains(b) <==> months@.to_multiset().count(b) > 0);
        }
        assert forall|i: int, j: int| 0 <= i < j < r@.len() implies month_lt(r@[i], r@[j]) by {
            assert(r@[i] != r@[j]);
            assert(!month_lt(r@[j], r@[i]));
            YearMonth::lemma_from_parts(r@[i], 0, 1);
            YearMonth::lemma_from_parts(r@[j], 0, 1);
        }
    }
    r
}

} // verus!
