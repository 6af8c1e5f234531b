//! The report engine: monthly series, cumulative cashflow, point balance and
//! hierarchical split, all computed from a flattened view of the document's
//! dated, amount-bearing postings.
use vstd::prelude::*;
use crate::dates::{Date, spec_days_in_month};
use crate::doc::{DocV, ItemV, LedgerDocument, Item, PostingLineV, TxnV};
use crate::errors::LedgerError;
use crate::qty::{Qty, spec_add};
use crate::convert::string_eq;

verus! {

broadcast use {
    vstd::seq_lib::group_filter_ensures,
    Seq::<_>::lemma_filter_push,
    Seq::<_>::lemma_filter_contains_rev,
};

/// Smallest month key a document can mention (January of the smallest year).
pub const KEY_LO: i64 = -25769803776i64;

/// One past the largest month key a document can mention.
pub const KEY_HI: i64 = 25769803776i64;

/// One response row of a report.
#[derive(Clone, PartialEq, Eq, Debug)]
pub struct LedgerResponse {
    pub date: Option<Date>,
    pub amount: Qty,
    pub account: Option<String>,
}

pub ghost struct RowV {
    pub date: Option<Date>,
    pub amount: Qty,
    pub account: Option<Seq<char>>,
}

impl View for LedgerResponse {
    type V = RowV;

    open spec fn view(&self) -> RowV {
        RowV {
            date: self.date,
            amount: self.amount,
            account: match self.account {
                Some(a) => Some(a@),
                None => None,
            },
        }
    }
}

pub open spec fn rows_view(rows: Seq<LedgerResponse>) -> Seq<RowV> {
    rows.map_values(|r: LedgerResponse| r@)
}

/// One amount-bearing posting, flattened out of its transaction: the
/// transaction's month, the posting's account, and the tagged quantity.
pub struct Entry {
    pub key: i64,
    pub account: String,
    pub commodity: String,
    pub qty: Qty,
}

pub ghost struct EntryV {
    pub key: int,
    pub account: Seq<char>,
    pub commodity: Seq<char>,
    pub qty: Qty,
}

impl View for Entry {
    type V = EntryV;

    open spec fn view(&self) -> EntryV {
        EntryV {
            key: self.key as int,
            account: self.account@,
            commodity: self.commodity@,
            qty: self.qty,
        }
    }
}

impl EntryV {
    pub open spec fn wf(self) -> bool {
        &&& self.qty.wf()
        &&& KEY_LO <= self.key < KEY_HI
    }
}

/// The flattened entries of one transaction, in posting order.
pub open spec fn txn_entries(t: TxnV) -> Seq<EntryV> {
    t.postings.filter(|p: PostingLineV| p.amount is Some).map_values(
        |p: PostingLineV|
            EntryV {
                key: t.date.month_key(),
                account: p.account,
                commodity: p.amount->Some_0.amount.commodity,
                qty: p.amount->Some_0.amount.qty,
            },
    )
}

/// All flattened entries of a document, in document order.
pub open spec fn all_entries(items: Seq<ItemV>) -> Seq<EntryV>
    decreases items.len(),
{
    if items.len() == 0 {
        Seq::empty()
    } else {
        let rest = all_entries(items.drop_last());
        match items.last() {
            ItemV::Txn(t) => rest + txn_entries(t),
            _ => rest,
        }
    }
}

/// The view of a vector of entries.
pub open spec fn vec_entries(es: Seq<Entry>) -> Seq<EntryV> {
    es.map_values(|e: Entry| e@)
}

pub open spec fn entries_wf(es: Seq<EntryV>) -> bool {
    forall|i: int| 0 <= i < es.len() ==> (#[trigger] es[i]).wf()
}

/// A well-formed document flattens to well-formed entries.
proof fn lemma_all_entries_wf(items: Seq<ItemV>)
    requires
        forall|i: int| 0 <= i < items.len() ==> (#[trigger] items[i]).wf(),
    ensures
        entries_wf(all_entries(items)),
    decreases items.len(),
{
    if items.len() > 0 {
        assert(forall|i: int|
            0 <= i < items.drop_last().len() ==> (#[trigger] items.drop_last()[i]).wf());
        lemma_all_entries_wf(items.drop_last());
        match items.last() {
            ItemV::Txn(t) => {
                assert(items.last().wf());
                let ps = t.postings.filter(|p: PostingLineV| p.amount is Some);
                assert forall|i: int| 0 <= i < txn_entries(t).len() implies (#[trigger] txn_entries(
                    t,
                )[i]).wf() by {
                    let p = ps[i];
                    assert(ps.contains(p));
                    assert(t.postings.contains(p));
                    let j = choose|j: int| 0 <= j < t.postings.len() && t.postings[j] == p;
                    assert(t.postings[j].wf());
                    assert(t.date.wf());
                    assert(t.date.year * 12 >= KEY_LO);
                    assert(t.date.year * 12 + 11 < KEY_HI);
                }
            },
            _ => {},
        }
    }
}

/// Flatten a document into its entries.
pub fn collect_entries(d: &LedgerDocument) -> (r: Vec<Entry>)
    requires
        d@.wf(),
    ensures
        r@.map_values(|e: Entry| e@) == all_entries(d@.items),
        entries_wf(all_entries(d@.items)),
{
    proof {
        lemma_all_entries_wf(d@.items);
    }
    let mut out: Vec<Entry> = Vec::new();
    proof {
        assert(d@.items.take(0) =~= Seq::<ItemV>::empty());
        assert(out@.map_values(|e: Entry| e@) =~= all_entries(d@.items.take(0)));
    }
    let mut i: usize = 0;
    while i < d.items.len()
        invariant
            i <= d.items.len(),
            d@.wf(),
            out@.map_values(|e: Entry| e@) == all_entries(d@.items.take(i as int)),
        decreases d.items.len() - i,
    {
        proof {
            assert(d@.items[i as int] == d.items@[i as int]@);
            assert(d@.items.take(i + 1).drop_last() =~= d@.items.take(i as int));
            assert(d@.items.take(i + 1).last() == d@.items[i as int]);
        }
        match &d.items[i] {
            Item::Txn(t) => {
                let ghost tv = t@;
                let key: i64 = t.date.year as i64 * 12 + (t.date.month as i64 - 1);
                proof {
                    assert(d@.items[i as int].wf());
                    assert(tv.wf());
                    assert(key as int == tv.date.month_key());
                    assert(tv.postings.take(0) =~= Seq::<PostingLineV>::empty());
                    assert(tv.postings.take(0).filter(|p: PostingLineV| p.amount is Some)
                        =~= Seq::<PostingLineV>::empty());
                    assert(out@.map_values(|e: Entry| e@) =~= all_entries(d@.items.take(i as int))
                        + tv.postings.take(0).filter(|p: PostingLineV| p.amount is Some).map_values(
                        |p: PostingLineV|
                            EntryV {
                                key: tv.date.month_key(),
                                account: p.account,
                                commodity: p.amount->Some_0.amount.commodity,
                                qty: p.amount->Some_0.amount.qty,
                            },
                    ));
                }
                let mut j: usize = 0;
                while j < t.postings.len()
                    invariant
                        j <= t.postings.len(),
                        tv == t@,
                        tv.wf(),
                        key as int == tv.date.month_key(),
                        out@.map_values(|e: Entry| e@) == all_entries(d@.items.take(i as int))
                            + tv.postings.take(j as int).filter(
                            |p: PostingLineV| p.amount is Some,
                        ).map_values(
                            |p: PostingLineV|
                                EntryV {
                                    key: tv.date.month_key(),
                                    account: p.account,
                                    commodity: p.amount->Some_0.amount.commodity,
                                    qty: p.amount->Some_0.amount.qty,
                                },
                        ),
                    decreases t.postings.len() - j,
                {
                    let ghost f = |p: PostingLineV| p.amount is Some;
                    let ghost g = |p: PostingLineV|
                        EntryV {
                            key: tv.date.month_key(),
                            account: p.account,
                            commodity: p.amount->Some_0.amount.commodity,
                            qty: p.amount->Some_0.amount.qty,
                        };
                    proof {
                        assert(tv.postings.take(j + 1) =~= tv.postings.take(j as int).push(
                            tv.postings[j as int],
                        ));
                        assert(tv.postings[j as int] == t.postings@[j as int]@);
                    }
                    match &t.postings[j].amount {
                        Some(pa) => {
                            let ghost prev = out@.map_values(|e: Entry| e@);
                            let e = Entry {
                                key,
                                account: crate::doc::clone_string(&t.postings[j].account),
                                commodity: crate::doc::clone_string(&pa.amount.commodity),
                                qty: pa.amount.qty,
                            };
                            let ghost ev = e@;
                            out.push(e);
                            proof {
                                assert(ev == g(tv.postings[j as int]));
                                assert(out@.map_values(|e: Entry| e@) =~= prev.push(ev));
                                assert(tv.postings.take(j + 1).filter(f) =~= tv.postings.take(
                                    j as int,
                                ).filter(f).push(tv.postings[j as int]));
                                assert(tv.postings.take(j + 1).filter(f).map_values(g)
                                    =~= tv.postings.take(j as int).filter(f).map_values(g).push(
                                    g(tv.postings[j as int]),
                                ));
                                assert(out@.map_values(|e: Entry| e@) =~= all_entries(
                                    d@.items.take(i as int),
                                ) + tv.postings.take(j + 1).filter(f).map_values(g));
                            }
                        },
                        None => {
                            proof {
                                assert(tv.postings.take(j + 1).filter(f) =~= tv.postings.take(
                                    j as int,
                                ).filter(f));
                            }
                        },
                    }
                    j = j + 1;
                }
                proof {
                    assert(tv.postings.take(tv.postings.len() as int) =~= tv.postings);
                    assert(all_entries(d@.items.take(i + 1)) == all_entries(d@.items.take(i as int))
                        + txn_entries(tv));
                }
            },
            _ => {
                proof {
                    assert(all_entries(d@.items.take(i + 1)) == all_entries(
                        d@.items.take(i as int),
                    ));
                }
            },
        }
        i = i + 1;
    }
    proof {
        assert(d@.items.take(d.items@.len() as int) =~= d@.items);
    }
    out
}

// ---------------------------------------------------------------------------
// Sums
// ---------------------------------------------------------------------------
/// Left fold of exact additions starting from zero; `None` as soon as a
/// partial sum cannot be carried.
pub open spec fn sum_qty(qs: Seq<Qty>) -> Option<Qty>
    decreases qs.len(),
{
    if qs.len() == 0 {
        Some(Qty::spec_zero())
    } else {
        match sum_qty(qs.drop_last()) {
            None => None,
            Some(acc) => spec_add(acc, qs.last()),
        }
    }
}

/// The quantities of the entries for one account and one commodity.
pub open spec fn entry_amounts(es: Seq<EntryV>, account: Seq<char>, commodity: Seq<char>) -> Seq<
    Qty,
> {
    es.filter(|e: EntryV| e.account == account && e.commodity == commodity).map_values(
        |e: EntryV| e.qty,
    )
}

/// Once a prefix of the fold cannot be carried, the whole fold cannot.
proof fn lemma_sum_none_append(a: Seq<Qty>, b: Seq<Qty>)
    requires
        sum_qty(a) is None,
    ensures
        sum_qty(a + b) is None,
    decreases b.len(),
{
    if b.len() == 0 {
        assert(a + b =~= a);
    } else {
        assert((a + b).drop_last() =~= a + b.drop_last());
        lemma_sum_none_append(a, b.drop_last());
    }
}

/// A well-formed partial sum stays well-formed.
proof fn lemma_sum_wf(qs: Seq<Qty>)
    requires
        forall|i: int| 0 <= i < qs.len() ==> (#[trigger] qs[i]).wf(),
        sum_qty(qs) is Some,
    ensures
        sum_qty(qs)->Some_0.wf(),
    decreases qs.len(),
{
    if qs.len() > 0 {
        assert(forall|i: int| 0 <= i < qs.drop_last().len() ==> (#[trigger] qs.drop_last()[i]).wf());
        assert(sum_qty(qs.drop_last()) is Some);
        lemma_sum_wf(qs.drop_last());
        crate::qty::lemma_spec_add_val(sum_qty(qs.drop_last())->Some_0, qs.last());
    }
}

/// Sum the quantities of the entries for one account and commodity;
/// `Err(ArithmeticOverflow)` exactly when the fold cannot be carried.
fn sum_entries(es: &Vec<Entry>, account: &String, commodity: &String) -> (r: Result<
    Qty,
    LedgerError,
>)
    requires
        entries_wf(es@.map_values(|e: Entry| e@)),
    ensures
        r matches Ok(q) ==> Some(q) == sum_qty(
            entry_amounts(es@.map_values(|e: Entry| e@), account@, commodity@),
        ) && q.wf(),
        r matches Err(e) ==> e == LedgerError::ArithmeticOverflow && sum_qty(
            entry_amounts(es@.map_values(|e: Entry| e@), account@, commodity@),
        ) is None,
{
    let ghost esv = es@.map_values(|e: Entry| e@);
    let ghost f = |e: EntryV| e.account == account@ && e.commodity == commodity@;
    let ghost g = |e: EntryV| e.qty;
    let mut acc = Qty::zero();
    proof {
        assert(esv.take(0) =~= Seq::<EntryV>::empty());
        assert(esv.take(0).filter(f).map_values(g) =~= Seq::<Qty>::empty());
    }
    let mut i: usize = 0;
    while i < es.len()
        invariant
            i <= es.len(),
            esv == es@.map_values(|e: Entry| e@),
            entries_wf(esv),
            f == (|e: EntryV| e.account == account@ && e.commodity == commodity@),
            g == (|e: EntryV| e.qty),
            Some(acc) == sum_qty(esv.take(i as int).filter(f).map_values(g)),
            acc.wf(),
        decreases es.len() - i,
    {
        proof {
            assert(esv[i as int] == es@[i as int]@);
            assert(esv[i as int].wf());
            assert(esv.take(i + 1) =~= esv.take(i as int).push(esv[i as int]));
        }
        if string_eq(&es[i].account, account) && string_eq(&es[i].commodity, commodity) {
            let ghost prefix = esv.take(i as int).filter(f).map_values(g);
            proof {
                let q = esv[i as int].qty;
                assert(esv.take(i + 1).filter(f) =~= esv.take(i as int).filter(f).push(
                    esv[i as int],
                ));
                assert(esv.take(i + 1).filter(f).map_values(g) =~= prefix.push(q));
                assert(prefix.push(q).drop_last() =~= prefix);
                assert(prefix.push(q).last() == q);
                assert(sum_qty(prefix.push(q)) == spec_add(acc, q));
            }
            match acc.checked_add(es[i].qty) {
                Some(a2) => {
                    acc = a2;
                },
                None => {
                    proof {
                        let pre1 = esv.take(i + 1);
                        let rest = esv.skip(i + 1);
                        assert(sum_qty(pre1.filter(f).map_values(g)) is None);
                        assert(esv =~= pre1 + rest);
                        Seq::filter_distributes_over_add(pre1, rest, f);
                        assert(esv.filter(f).map_values(g) =~= pre1.filter(f).map_values(g)
                            + rest.filter(f).map_values(g));
                        lemma_sum_none_append(
                            pre1.filter(f).map_values(g),
                            rest.filter(f).map_values(g),
                        );
                    }
                    return Err(LedgerError::ArithmeticOverflow);
                },
            }
        } else {
            proof {
                assert(esv.take(i + 1).filter(f) =~= esv.take(i as int).filter(f));
            }
        }
        i = i + 1;
    }
    proof {
        assert(esv.take(esv.len() as int) =~= esv);
    }
    Ok(acc)
}

// ---------------------------------------------------------------------------
// Balance
// ---------------------------------------------------------------------------
/// The balance of one account in the display commodity: the sum of every
/// matching entry, failing when no such entry exists at all.
pub open spec fn spec_balance(es: Seq<EntryV>, account: Seq<char>, native: Seq<char>) -> Result<
    RowV,
    LedgerError,
> {
    let qs = entry_amounts(es, account, native);
    if qs.len() == 0 {
        Err(LedgerError::NoSuchCommodity)
    } else {
        match sum_qty(qs) {
            None => Err(LedgerError::ArithmeticOverflow),
            Some(q) => Ok(RowV { date: None, amount: q, account: Some(account) }),
        }
    }
}

/// Is there any entry for this account in this commodity?
fn has_entry(es: &Vec<Entry>, account: &String, commodity: &String) -> (r: bool)
    ensures
        r == (entry_amounts(es@.map_values(|e: Entry| e@), account@, commodity@).len() > 0),
{
    let ghost esv = es@.map_values(|e: Entry| e@);
    let ghost f = |e: EntryV| e.account == account@ && e.commodity == commodity@;
    let mut i: usize = 0;
    while i < es.len()
        invariant
            i <= es.len(),
            esv == es@.map_values(|e: Entry| e@),
            f == (|e: EntryV| e.account == account@ && e.commodity == commodity@),
            forall|j: int| 0 <= j < i ==> !f(#[trigger] esv[j]),
        decreases es.len() - i,
    {
        if string_eq(&es[i].account, account) && string_eq(&es[i].commodity, commodity) {
            proof {
                assert(esv[i as int] == es@[i as int]@);
                assert(f(esv[i as int]));
                assert(esv.filter(f).contains(esv[i as int]));
            }
            return true;
        }
        proof {
            assert(esv[i as int] == es@[i as int]@);
        }
        i = i + 1;
    }
    proof {
        if esv.filter(f).len() > 0 {
            let w = esv.filter(f)[0];
            assert(esv.filter(f).contains(w));
            assert(esv.contains(w));
            assert(f(w));
        }
    }
    false
}

/// The balance report: one dateless row carrying the account's total in the
/// display commodity.
pub fn balance_report(d: &LedgerDocument, account: &String, native: &String) -> (r: Result<
    LedgerResponse,
    LedgerError,
>)
    requires
        d@.wf(),
    ensures
        r matches Ok(row) ==> spec_balance(all_entries(d@.items), account@, native@) == Ok::<
            RowV,
            LedgerError,
        >(row@),
        r matches Err(e) ==> spec_balance(all_entries(d@.items), account@, native@) == Err::<
            RowV,
            LedgerError,
        >(e),
{
    let es = collect_entries(d);
    if !has_entry(&es, account, native) {
        return Err(LedgerError::NoSuchCommodity);
    }
    match sum_entries(&es, account, native) {
        Ok(q) => Ok(
            LedgerResponse {
                date: None,
                amount: q,
                account: Some(crate::doc::clone_string(account)),
            },
        ),
        Err(e) => Err(e),
    }
}

// ---------------------------------------------------------------------------
// Monthly buckets
// ---------------------------------------------------------------------------
/// The entries of one account falling in one month.
pub open spec fn bucket_entries(es: Seq<EntryV>, account: Seq<char>, k: int) -> Seq<EntryV> {
    es.filter(|e: EntryV| e.account == account && e.key == k)
}

pub open spec fn has_bucket(es: Seq<EntryV>, account: Seq<char>, k: int) -> bool {
    bucket_entries(es, account, k).len() > 0
}

/// The distinct values of a sequence, kept in order of first appearance.
pub open spec fn dedup_first(s: Seq<Seq<char>>) -> Seq<Seq<char>>
    decreases s.len(),
{
    if s.len() == 0 {
        Seq::empty()
    } else {
        let rest = dedup_first(s.drop_last());
        if rest.contains(s.last()) {
            rest
        } else {
            rest.push(s.last())
        }
    }
}

/// The commodities appearing in one month's entries for an account, in order
/// of first appearance.
pub open spec fn bucket_commodities(es: Seq<EntryV>, account: Seq<char>, k: int) -> Seq<Seq<char>> {
    dedup_first(bucket_entries(es, account, k).map_values(|e: EntryV| e.commodity))
}

/// The quantities of one account's entries in one month and one commodity.
pub open spec fn month_amounts(
    es: Seq<EntryV>,
    account: Seq<char>,
    k: int,
    c: Seq<char>,
) -> Seq<Qty> {
    es.filter(|e: EntryV| e.account == account && e.key == k && e.commodity == c).map_values(
        |e: EntryV| e.qty,
    )
}

/// The last day of the month a key names.
pub open spec fn month_end_of_key(k: int) -> Date {
    let y = k / 12;
    let m = k % 12 + 1;
    Date { year: y as i32, month: m as u32, day: spec_days_in_month(y, m) as u32 }
}

/// One row per commodity of one bucket, in first-appearance order; `None` as
/// soon as a bucket total cannot be carried.
pub open spec fn bucket_rows(
    es: Seq<EntryV>,
    account: Seq<char>,
    k: int,
    cs: Seq<Seq<char>>,
) -> Option<Seq<RowV>>
    decreases cs.len(),
{
    if cs.len() == 0 {
        Some(Seq::empty())
    } else {
        match bucket_rows(es, account, k, cs.drop_last()) {
            None => None,
            Some(rs) => match sum_qty(month_amounts(es, account, k, cs.last())) {
                None => None,
                Some(q) => Some(
                    rs.push(
                        RowV {
                            date: Some(month_end_of_key(k)),
                            amount: q,
                            account: Some(account),
                        },
                    ),
                ),
            },
        }
    }
}

/// The monthly report rows over the key range `[lo, hi)`, in ascending
/// chronological order; empty buckets are omitted.
pub open spec fn monthly_rows(es: Seq<EntryV>, account: Seq<char>, lo: int, hi: int) -> Option<
    Seq<RowV>,
>
    decreases hi - lo,
{
    if hi <= lo {
        Some(Seq::empty())
    } else {
        match monthly_rows(es, account, lo, hi - 1) {
            None => None,
            Some(rs) => if has_bucket(es, account, hi - 1) {
                match bucket_rows(es, account, hi - 1, bucket_commodities(es, account, hi - 1)) {
                    None => None,
                    Some(b) => Some(rs + b),
                }
            } else {
                Some(rs)
            },
        }
    }
}

/// The monthly report of a whole document.
pub open spec fn spec_monthly(d: DocV, account: Seq<char>) -> Option<Seq<RowV>> {
    monthly_rows(all_entries(d.items), account, KEY_LO as int, KEY_HI as int)
}

proof fn lemma_monthly_rows_empty(es: Seq<EntryV>, account: Seq<char>, lo: int, hi: int)
    requires
        forall|k: int| lo <= k < hi ==> !has_bucket(es, account, k),
    ensures
        monthly_rows(es, account, lo, hi) == Some(Seq::<RowV>::empty()),
    decreases hi - lo,
{
    if hi > lo {
        lemma_monthly_rows_empty(es, account, lo, hi - 1);
    }
}

proof fn lemma_monthly_rows_hi(es: Seq<EntryV>, account: Seq<char>, lo: int, hi1: int, hi2: int)
    requires
        hi1 <= hi2,
        forall|k: int| hi1 <= k < hi2 ==> !has_bucket(es, account, k),
    ensures
        monthly_rows(es, account, lo, hi2) == monthly_rows(es, account, lo, hi1),
    decreases hi2 - hi1,
{
    if hi2 > hi1 {
        lemma_monthly_rows_hi(es, account, lo, hi1, hi2 - 1);
    }
}

proof fn lemma_monthly_rows_lo(es: Seq<EntryV>, account: Seq<char>, lo1: int, lo2: int, hi: int)
    requires
        lo1 <= lo2,
        forall|k: int| lo1 <= k < lo2 ==> !has_bucket(es, account, k),
    ensures
        monthly_rows(es, account, lo1, hi) == monthly_rows(es, account, lo2, hi),
    decreases hi - lo1,
{
    if hi <= lo2 {
        lemma_monthly_rows_empty(es, account, lo1, hi);
        lemma_monthly_rows_empty(es, account, lo2, hi);
    } else {
        lemma_monthly_rows_lo(es, account, lo1, lo2, hi - 1);
    }
}

proof fn lemma_monthly_none_extends(es: Seq<EntryV>, account: Seq<char>, lo: int, mid: int, hi: int)
    requires
        mid <= hi,
        monthly_rows(es, account, lo, mid) is None,
    ensures
        monthly_rows(es, account, lo, hi) is None,
    decreases hi - mid,
{
    if hi > mid {
        lemma_monthly_none_extends(es, account, lo, mid, hi - 1);
    }
}

/// Deduplication keeps exactly the nonemptiness of its input.
proof fn lemma_dedup_first_empty(s: Seq<Seq<char>>)
    ensures
        (dedup_first(s).len() == 0) == (s.len() == 0),
    decreases s.len(),
{
    if s.len() > 0 {
        let rest = dedup_first(s.drop_last());
        if !rest.contains(s.last()) {
            assert(dedup_first(s) == rest.push(s.last()));
        }
    }
}

fn contains_commodity(cs: &Vec<String>, c: &String) -> (r: bool)
    ensures
        r == cs@.map_values(|s: String| s@).contains(c@),
{
    let ghost csv = cs@.map_values(|s: String| s@);
    let mut i: usize = 0;
    while i < cs.len()
        invariant
            i <= cs.len(),
            csv == cs@.map_values(|s: String| s@),
            forall|j: int| 0 <= j < i ==> #[trigger] csv[j] != c@,
        decreases cs.len() - i,
    {
        if string_eq(&cs[i], c) {
            proof {
                assert(csv[i as int] == c@);
            }
            return true;
        }
        proof {
            assert(csv[i as int] == cs@[i as int]@);
        }
        i = i + 1;
    }
    false
}

/// The commodities of one bucket, in first-appearance order.
fn bucket_commodity_list(es: &Vec<Entry>, account: &String, k: i64) -> (r: Vec<String>)
    ensures
        r@.map_values(|s: String| s@) == bucket_commodities(
            es@.map_values(|e: Entry| e@),
            account@,
            k as int,
        ),
{
    let ghost esv = es@.map_values(|e: Entry| e@);
    let ghost f = |e: EntryV| e.account == account@ && e.key == k as int;
    let ghost m = |e: EntryV| e.commodity;
    let mut cs: Vec<String> = Vec::new();
    proof {
        assert(esv.take(0) =~= Seq::<EntryV>::empty());
        assert(esv.take(0).filter(f).map_values(m) =~= Seq::<Seq<char>>::empty());
        assert(cs@.map_values(|s: String| s@) =~= Seq::<Seq<char>>::empty());
    }
    let mut i: usize = 0;
    while i < es.len()
        invariant
            i <= es.len(),
            esv == es@.map_values(|e: Entry| e@),
            f == (|e: EntryV| e.account == account@ && e.key == k as int),
            m == (|e: EntryV| e.commodity),
            cs@.map_values(|s: String| s@) == dedup_first(esv.take(i as int).filter(f).map_values(m)),
        decreases es.len() - i,
    {
        proof {
            assert(esv[i as int] == es@[i as int]@);
            assert(esv.take(i + 1) =~= esv.take(i as int).push(esv[i as int]));
        }
        if string_eq(&es[i].account, account) && es[i].key == k {
            let ghost bs = esv.take(i as int).filter(f).map_values(m);
            let ghost cv = esv[i as int].commodity;
            proof {
                assert(esv.take(i + 1).filter(f) =~= esv.take(i as int).filter(f).push(
                    esv[i as int],
                ));
                assert(esv.take(i + 1).filter(f).map_values(m) =~= bs.push(cv));
                assert(bs.push(cv).drop_last() =~= bs);
                assert(bs.push(cv).last() == cv);
            }
            if !contains_commodity(&cs, &es[i].commodity) {
                let ghost prev = cs@.map_values(|s: String| s@);
                cs.push(crate::doc::clone_string(&es[i].commodity));
                proof {
                    assert(cs@.map_values(|s: String| s@) =~= prev.push(cv));
                }
            }
        } else {
            proof {
                assert(esv.take(i + 1).filter(f) =~= esv.take(i as int).filter(f));
            }
        }
        i = i + 1;
    }
    proof {
        assert(esv.take(esv.len() as int) =~= esv);
    }
    cs
}

/// Sum one account's entries of one month and one commodity.
fn sum_bucket(es: &Vec<Entry>, account: &String, k: i64, c: &String) -> (r: Result<
    Qty,
    LedgerError,
>)
    requires
        entries_wf(es@.map_values(|e: Entry| e@)),
    ensures
        r matches Ok(q) ==> Some(q) == sum_qty(
            month_amounts(es@.map_values(|e: Entry| e@), account@, k as int, c@),
        ) && q.wf(),
        r matches Err(e) ==> e == LedgerError::ArithmeticOverflow && sum_qty(
            month_amounts(es@.map_values(|e: Entry| e@), account@, k as int, c@),
        ) is None,
{
    let ghost esv = es@.map_values(|e: Entry| e@);
    let ghost f = |e: EntryV| e.account == account@ && e.key == k as int && e.commodity == c@;
    let ghost g = |e: EntryV| e.qty;
    let mut acc = Qty::zero();
    proof {
        assert(esv.take(0) =~= Seq::<EntryV>::empty());
        assert(esv.take(0).filter(f).map_values(g) =~= Seq::<Qty>::empty());
    }
    let mut i: usize = 0;
    while i < es.len()
        invariant
            i <= es.len(),
            esv == es@.map_values(|e: Entry| e@),
            entries_wf(esv),
            f == (|e: EntryV| e.account == account@ && e.key == k as int && e.commodity == c@),
            g == (|e: EntryV| e.qty),
            Some(acc) == sum_qty(esv.take(i as int).filter(f).map_values(g)),
            acc.wf(),
        decreases es.len() - i,
    {
        proof {
            assert(esv[i as int] == es@[i as int]@);
            assert(esv[i as int].wf());
            assert(esv.take(i + 1) =~= esv.take(i as int).push(esv[i as int]));
        }
        if string_eq(&es[i].account, account) && es[i].key == k && string_eq(&es[i].commodity, c) {
            let ghost prefix = esv.take(i as int).filter(f).map_values(g);
            proof {
                let q = esv[i as int].qty;
                assert(esv.take(i + 1).filter(f) =~= esv.take(i as int).filter(f).push(
                    esv[i as int],
                ));
                assert(esv.take(i + 1).filter(f).map_values(g) =~= prefix.push(q));
                assert(prefix.push(q).drop_last() =~= prefix);
                assert(prefix.push(q).last() == q);
                assert(sum_qty(prefix.push(q)) == spec_add(acc, q));
            }
            match acc.checked_add(es[i].qty) {
                Some(a2) => {
                    acc = a2;
                },
                None => {
                    proof {
                        let pre1 = esv.take(i + 1);
                        let rest = esv.skip(i + 1);
                        assert(sum_qty(pre1.filter(f).map_values(g)) is None);
                        assert(esv =~= pre1 + rest);
                        Seq::filter_distributes_over_add(pre1, rest, f);
                        assert(esv.filter(f).map_values(g) =~= pre1.filter(f).map_values(g)
                            + rest.filter(f).map_values(g));
                        lemma_sum_none_append(
                            pre1.filter(f).map_values(g),
                            rest.filter(f).map_values(g),
                        );
                    }
                    return Err(LedgerError::ArithmeticOverflow);
                },
            }
        } else {
            proof {
                assert(esv.take(i + 1).filter(f) =~= esv.take(i as int).filter(f));
            }
        }
        i = i + 1;
    }
    proof {
        assert(esv.take(esv.len() as int) =~= esv);
    }
    Ok(acc)
}

/// The smallest and largest month keys carrying any entry of the account, or
/// `None` where the account has no entries at all.
fn bucket_key_range(es: &Vec<Entry>, account: &String) -> (r: Option<(i64, i64)>)
    requires
        entries_wf(es@.map_values(|e: Entry| e@)),
    ensures
        r is None ==> forall|k: int|
            !(#[trigger] has_bucket(vec_entries(es@), account@, k)),
        r matches Some(pair) ==> KEY_LO <= pair.0 <= pair.1 < KEY_HI && forall|k: int|
            (k < pair.0 || k > pair.1) ==> !(#[trigger] has_bucket(vec_entries(es@), account@, k)),
{
    let ghost esv = es@.map_values(|e: Entry| e@);
    let mut found: Option<(i64, i64)> = None;
    let mut i: usize = 0;
    while i < es.len()
        invariant
            i <= es.len(),
            esv == es@.map_values(|e: Entry| e@),
            entries_wf(esv),
            found is None ==> forall|j: int|
                0 <= j < i ==> (#[trigger] esv[j]).account != account@,
            found matches Some(pair) ==> KEY_LO <= pair.0 <= pair.1 < KEY_HI && forall|j: int|
                0 <= j < i && (#[trigger] esv[j]).account == account@ ==> pair.0 <= esv[j].key
                    <= pair.1,
        decreases es.len() - i,
    {
        proof {
            assert(esv[i as int] == es@[i as int]@);
            assert(esv[i as int].wf());
        }
        if string_eq(&es[i].account, account) {
            let key = es[i].key;
            found = match found {
                None => Some((key, key)),
                Some((lo, hi)) => Some(
                    (
                        if key < lo {
                            key
                        } else {
                            lo
                        },
                        if key > hi {
                            key
                        } else {
                            hi
                        },
                    ),
                ),
            };
        }
        i = i + 1;
    }
    proof {
        match found {
            None => {
                assert forall|k: int| !has_bucket(esv, account@, k) by {
                    let fk = |e: EntryV| e.account == account@ && e.key == k;
                    if bucket_entries(esv, account@, k).len() > 0 {
                        let w = esv.filter(fk)[0];
                        assert(esv.filter(fk).contains(w));
                        assert(esv.contains(w));
                        let j = choose|j: int| 0 <= j < esv.len() && esv[j] == w;
                        assert(fk(w));
                        assert(esv[j].account == account@);
                    }
                }
            },
            Some(pair) => {
                assert forall|k: int| (k < pair.0 || k > pair.1) implies !has_bucket(
                    esv,
                    account@,
                    k,
                ) by {
                    let fk = |e: EntryV| e.account == account@ && e.key == k;
                    if bucket_entries(esv, account@, k).len() > 0 {
                        let w = esv.filter(fk)[0];
                        assert(esv.filter(fk).contains(w));
                        assert(esv.contains(w));
                        let j = choose|j: int| 0 <= j < esv.len() && esv[j] == w;
                        assert(fk(w));
                        assert(esv[j].account == account@ && esv[j].key == k);
                        assert(pair.0 <= esv[j].key <= pair.1);
                    }
                }
            },
        }
    }
    found
}

/// The monthly report: for each month and commodity with matching postings,
/// one row dated at the month's last day carrying the month's net change.
/// Buckets come in ascending chronological order; empty buckets are omitted.
pub fn monthly_report(d: &LedgerDocument, account: &String) -> (r: Result<
    Vec<LedgerResponse>,
    LedgerError,
>)
    requires
        d@.wf(),
    ensures
        r matches Ok(rows) ==> Some(rows_view(rows@)) == spec_monthly(d@, account@),
        r matches Err(e) ==> e == LedgerError::ArithmeticOverflow && spec_monthly(
            d@,
            account@,
        ) is None,
{
    let es = collect_entries(d);
    let ghost esv = vec_entries(es@);
    proof {
        assert(esv == es@.map_values(|e: Entry| e@));
    }
    match bucket_key_range(&es, account) {
        None => {
            proof {
                lemma_monthly_rows_empty(esv, account@, KEY_LO as int, KEY_HI as int);
                assert(rows_view(Seq::<LedgerResponse>::empty()) =~= Seq::<RowV>::empty());
            }
            Ok(Vec::new())
        },
        Some((kmin, kmax)) => {
            let mut out: Vec<LedgerResponse> = Vec::new();
            proof {
                assert(rows_view(out@) =~= Seq::<RowV>::empty());
            }
            let mut k: i64 = kmin;
            while k <= kmax
                invariant
                    kmin <= k <= kmax + 1,
                    KEY_LO <= kmin <= kmax < KEY_HI,
                    esv == vec_entries(es@),
                    esv == es@.map_values(|e: Entry| e@),
                    entries_wf(esv),
                    d@.wf(),
                    esv == all_entries(d@.items),
                    forall|k2: int|
                        (k2 < kmin || k2 > kmax) ==> !(#[trigger] has_bucket(esv, account@, k2)),
                    Some(rows_view(out@)) == monthly_rows(esv, account@, kmin as int, k as int),
                decreases kmax + 1 - k,
            {
                let cs = bucket_commodity_list(&es, account, k);
                let ghost csv = cs@.map_values(|s: String| s@);
                let ghost base = monthly_rows(esv, account@, kmin as int, k as int)->Some_0;
                if cs.len() == 0 {
                    proof {
                        lemma_dedup_first_empty(
                            bucket_entries(esv, account@, k as int).map_values(
                                |e: EntryV| e.commodity,
                            ),
                        );
                        assert(!has_bucket(esv, account@, k as int));
                    }
                } else {
                    proof {
                        lemma_dedup_first_empty(
                            bucket_entries(esv, account@, k as int).map_values(
                                |e: EntryV| e.commodity,
                            ),
                        );
                        assert(has_bucket(esv, account@, k as int));
                        assert(csv.take(0) =~= Seq::<Seq<char>>::empty());
                        assert(rows_view(out@).skip(base.len() as int) =~= Seq::<RowV>::empty());
                        assert(rows_view(out@).take(base.len() as int) =~= base);
                    }
                    let y64 = match k.checked_div_euclid(12) {
                        Some(v) => v,
                        None => {
                            proof {
                                assert(false);
                            }
                            0
                        },
                    };
                    let rem = match k.checked_rem_euclid(12) {
                        Some(v) => v,
                        None => {
                            proof {
                                assert(false);
                            }
                            0
                        },
                    };
                    proof {
                        vstd::arithmetic::div_mod::lemma_div_is_ordered(
                            KEY_LO as int,
                            k as int,
                            12,
                        );
                        vstd::arithmetic::div_mod::lemma_div_is_ordered(
                            k as int,
                            KEY_HI as int - 1,
                            12,
                        );
                        assert(KEY_LO as int / 12 == i32::MIN as int);
                        assert((KEY_HI as int - 1) / 12 == i32::MAX as int);
                        assert(0 <= k as int % 12 < 12);
                    }
                    let y = y64 as i32;
                    let mth = (rem + 1) as u32;
                    let day = crate::dates::get_month_last_date(mth, y);
                    let mut j: usize = 0;
                    while j < cs.len()
                        invariant
                            j <= cs.len(),
                            kmin <= k <= kmax,
                            KEY_LO <= kmin <= kmax < KEY_HI,
                            esv == vec_entries(es@),
                            esv == es@.map_values(|e: Entry| e@),
                            esv == all_entries(d@.items),
                            entries_wf(esv),
                            monthly_rows(esv, account@, kmin as int, k as int) == Some(base),
                            forall|k2: int|
                                (k2 < kmin || k2 > kmax) ==> !(#[trigger] has_bucket(
                                    esv,
                                    account@,
                                    k2,
                                )),
                            csv == cs@.map_values(|s: String| s@),
                            csv == bucket_commodities(esv, account@, k as int),
                            y as int == k as int / 12,
                            mth as int == k as int % 12 + 1,
                            day as int == spec_days_in_month(y as int, mth as int),
                            Some(rows_view(out@).skip(base.len() as int)) == bucket_rows(
                                esv,
                                account@,
                                k as int,
                                csv.take(j as int),
                            ),
                            rows_view(out@).take(base.len() as int) == base,
                            rows_view(out@).len() >= base.len(),
                        decreases cs.len() - j,
                    {
                        proof {
                            assert(csv[j as int] == cs@[j as int]@);
                            assert(csv.take(j + 1) =~= csv.take(j as int).push(csv[j as int]));
                            assert(csv.take(j + 1).drop_last() =~= csv.take(j as int));
                            assert(csv.take(j + 1).last() == csv[j as int]);
                        }
                        match sum_bucket(&es, account, k, &cs[j]) {
                            Err(e) => {
                                proof {
                                    lemma_bucket_rows_prefix_none(
                                        esv,
                                        account@,
                                        k as int,
                                        csv,
                                        j as int,
                                    );
                                    assert(monthly_rows(
                                        esv,
                                        account@,
                                        kmin as int,
                                        k as int + 1,
                                    ) is None);
                                    lemma_monthly_none_extends(
                                        esv,
                                        account@,
                                        kmin as int,
                                        k as int + 1,
                                        KEY_HI as int,
                                    );
                                    lemma_monthly_rows_lo(
                                        esv,
                                        account@,
                                        KEY_LO as int,
                                        kmin as int,
                                        KEY_HI as int,
                                    );
                                }
                                return Err(e);
                            },
                            Ok(q) => {
                                let ghost prevrows = rows_view(out@);
                                let row = LedgerResponse {
                                    date: Some(Date { year: y, month: mth, day }),
                                    amount: q,
                                    account: Some(crate::doc::clone_string(account)),
                                };
                                let ghost rv = row@;
                                out.push(row);
                                proof {
                                    assert(rv.date == Some(month_end_of_key(k as int)));
                                    assert(rows_view(out@) =~= prevrows.push(rv));
                                    assert(rows_view(out@).skip(base.len() as int)
                                        =~= prevrows.skip(base.len() as int).push(rv));
                                    assert(rows_view(out@).take(base.len() as int) =~= base);
                                }
                            },
                        }
                        j = j + 1;
                    }
                    proof {
                        assert(csv.take(csv.len() as int) =~= csv);
                    }
                }
                proof {
                    if has_bucket(esv, account@, k as int) {
                        assert(monthly_rows(esv, account@, kmin as int, k as int + 1) == Some(
                            base + bucket_rows(
                                esv,
                                account@,
                                k as int,
                                bucket_commodities(esv, account@, k as int),
                            )->Some_0,
                        ));
                        assert(rows_view(out@) =~= rows_view(out@).take(base.len() as int)
                            + rows_view(out@).skip(base.len() as int));
                    } else {
                        assert(monthly_rows(esv, account@, kmin as int, k as int + 1)
                            == monthly_rows(esv, account@, kmin as int, k as int));
                    }
                }
                k = k + 1;
            }
            proof {
                lemma_monthly_rows_hi(
                    esv,
                    account@,
                    kmin as int,
                    kmax as int + 1,
                    KEY_HI as int,
                );
                lemma_monthly_rows_lo(esv, account@, KEY_LO as int, kmin as int, KEY_HI as int);
            }
            Ok(out)
        },
    }
}


/// The month a report row speaks about.
pub open spec fn row_month_key(r: RowV) -> int {
    r.date->Some_0.month_key()
}

proof fn lemma_bucket_rows_dates(es: Seq<EntryV>, account: Seq<char>, k: int, cs: Seq<Seq<char>>)
    requires
        bucket_rows(es, account, k, cs) is Some,
    ensures
        forall|m: int|
            0 <= m < bucket_rows(es, account, k, cs)->Some_0.len() ==> (#[trigger] bucket_rows(
                es,
                account,
                k,
                cs,
            )->Some_0[m]).date == Some(month_end_of_key(k)),
    decreases cs.len(),
{
    if cs.len() > 0 {
        lemma_bucket_rows_dates(es, account, k, cs.drop_last());
    }
}

proof fn lemma_month_end_key(k: int)
    requires
        KEY_LO <= k < KEY_HI,
    ensures
        month_end_of_key(k).month_key() == k,
{
    vstd::arithmetic::div_mod::lemma_div_is_ordered(KEY_LO as int, k, 12);
    vstd::arithmetic::div_mod::lemma_div_is_ordered(k, KEY_HI as int - 1, 12);
    assert(KEY_LO as int / 12 == i32::MIN as int);
    assert((KEY_HI as int - 1) / 12 == i32::MAX as int);
    assert(0 <= k % 12 < 12);
    vstd::arithmetic::div_mod::lemma_fundamental_div_mod(k, 12);
}

proof fn lemma_monthly_rows_chronological(es: Seq<EntryV>, account: Seq<char>, lo: int, hi: int)
    requires
        KEY_LO <= lo,
        hi <= KEY_HI,
        monthly_rows(es, account, lo, hi) is Some,
    ensures
        forall|m: int|
            0 <= m < monthly_rows(es, account, lo, hi)->Some_0.len() ==> ((#[trigger] monthly_rows(
                es,
                account,
                lo,
                hi,
            )->Some_0[m]).date is Some && lo <= row_month_key(
                monthly_rows(es, account, lo, hi)->Some_0[m],
            ) < hi),
        forall|i: int, j: int|
            0 <= i <= j < monthly_rows(es, account, lo, hi)->Some_0.len() ==> row_month_key(
                #[trigger] monthly_rows(es, account, lo, hi)->Some_0[i],
            ) <= row_month_key(#[trigger] monthly_rows(es, account, lo, hi)->Some_0[j]),
    decreases hi - lo,
{
    if hi > lo {
        lemma_monthly_rows_chronological(es, account, lo, hi - 1);
        let rows = monthly_rows(es, account, lo, hi)->Some_0;
        let rs = monthly_rows(es, account, lo, hi - 1)->Some_0;
        if has_bucket(es, account, hi - 1) {
            let b = bucket_rows(es, account, hi - 1, bucket_commodities(es, account, hi - 1))->Some_0;
            lemma_bucket_rows_dates(es, account, hi - 1, bucket_commodities(es, account, hi - 1));
            lemma_month_end_key(hi - 1);
            assert(rows == rs + b);
            assert forall|m: int| 0 <= m < rows.len() implies ((#[trigger] rows[m]).date is Some
                && lo <= row_month_key(rows[m]) < hi) by {
                if m < rs.len() {
                    assert(rows[m] == rs[m]);
                } else {
                    assert(rows[m] == b[m - rs.len()]);
                }
            }
        }
    }
}

/// The monthly ordering law: the report's rows come in ascending
/// chronological order of their month.
pub proof fn lemma_monthly_chronological(d: DocV, account: Seq<char>)
    requires
        spec_monthly(d, account) is Some,
    ensures
        forall|i: int, j: int|
            0 <= i <= j < spec_monthly(d, account)->Some_0.len() ==> row_month_key(
                #[trigger] spec_monthly(d, account)->Some_0[i],
            ) <= row_month_key(#[trigger] spec_monthly(d, account)->Some_0[j]),
{
    lemma_monthly_rows_chronological(
        all_entries(d.items),
        account,
        KEY_LO as int,
        KEY_HI as int,
    );
}

// ---------------------------------------------------------------------------
// Cashflow
// ---------------------------------------------------------------------------
/// One (month, commodity) pair of the monthly series.
pub struct KeyCom {
    pub key: i64,
    pub commodity: String,
}

pub ghost struct KeyComV {
    pub key: int,
    pub commodity: Seq<char>,
}

impl View for KeyCom {
    type V = KeyComV;

    open spec fn view(&self) -> KeyComV {
        KeyComV { key: self.key as int, commodity: self.commodity@ }
    }
}

/// The (month, commodity) pairs of the monthly series over `[lo, hi)`, in
/// emission order.
pub open spec fn bucket_pairs(es: Seq<EntryV>, account: Seq<char>, lo: int, hi: int) -> Seq<
    KeyComV,
>
    decreases hi - lo,
{
    if hi <= lo {
        Seq::empty()
    } else {
        bucket_pairs(es, account, lo, hi - 1) + (if has_bucket(es, account, hi - 1) {
            bucket_commodities(es, account, hi - 1).map_values(
                |c: Seq<char>| KeyComV { key: hi - 1, commodity: c },
            )
        } else {
            Seq::empty()
        })
    }
}

/// The months to accumulate for the pair at index `i`: the keys of all
/// earlier pairs (and the pair itself) carrying the same commodity.
pub open spec fn chain_keys(ps: Seq<KeyComV>, i: int) -> Seq<int> {
    ps.take(i + 1).filter(|p: KeyComV| p.commodity == ps[i].commodity).map_values(
        |p: KeyComV| p.key,
    )
}

/// The running total of the monthly changes at the months `ks` in commodity
/// `c`; `None` as soon as a monthly total or a partial sum cannot be carried.
pub open spec fn chain_sum(es: Seq<EntryV>, account: Seq<char>, ks: Seq<int>, c: Seq<char>) -> Option<
    Qty,
>
    decreases ks.len(),
{
    if ks.len() == 0 {
        Some(Qty::spec_zero())
    } else {
        match chain_sum(es, account, ks.drop_last(), c) {
            None => None,
            Some(a) => match sum_qty(month_amounts(es, account, ks.last(), c)) {
                None => None,
                Some(b) => spec_add(a, b),
            },
        }
    }
}

/// The cashflow rows for the first `n` pairs.
pub open spec fn cashflow_rows_from(
    es: Seq<EntryV>,
    account: Seq<char>,
    ps: Seq<KeyComV>,
    n: int,
) -> Option<Seq<RowV>>
    decreases n,
{
    if n <= 0 {
        Some(Seq::empty())
    } else {
        match cashflow_rows_from(es, account, ps, n - 1) {
            None => None,
            Some(rs) => match chain_sum(es, account, chain_keys(ps, n - 1), ps[n - 1].commodity) {
                None => None,
                Some(q) => Some(
                    rs.push(
                        RowV {
                            date: Some(month_end_of_key(ps[n - 1].key)),
                            amount: q,
                            account: Some(account),
                        },
                    ),
                ),
            },
        }
    }
}

/// The cashflow report of a whole document: the monthly series with each
/// row's amount replaced by the running per-commodity total up to and
/// including that month.
pub open spec fn spec_cashflow(d: DocV, account: Seq<char>) -> Option<Seq<RowV>> {
    let es = all_entries(d.items);
    let ps = bucket_pairs(es, account, KEY_LO as int, KEY_HI as int);
    cashflow_rows_from(es, account, ps, ps.len() as int)
}

proof fn lemma_bucket_pairs_empty(es: Seq<EntryV>, account: Seq<char>, lo: int, hi: int)
    requires
        forall|k: int| lo <= k < hi ==> !(#[trigger] has_bucket(es, account, k)),
    ensures
        bucket_pairs(es, account, lo, hi) == Seq::<KeyComV>::empty(),
    decreases hi - lo,
{
    if hi > lo {
        lemma_bucket_pairs_empty(es, account, lo, hi - 1);
        assert(bucket_pairs(es, account, lo, hi) =~= Seq::<KeyComV>::empty());
    }
}

proof fn lemma_bucket_pairs_hi(es: Seq<EntryV>, account: Seq<char>, lo: int, hi1: int, hi2: int)
    requires
        hi1 <= hi2,
        forall|k: int| hi1 <= k < hi2 ==> !(#[trigger] has_bucket(es, account, k)),
    ensures
        bucket_pairs(es, account, lo, hi2) == bucket_pairs(es, account, lo, hi1),
    decreases hi2 - hi1,
{
    if hi2 > hi1 {
        lemma_bucket_pairs_hi(es, account, lo, hi1, hi2 - 1);
        assert(bucket_pairs(es, account, lo, hi2) =~= bucket_pairs(es, account, lo, hi2 - 1));
    }
}

proof fn lemma_bucket_pairs_lo(es: Seq<EntryV>, account: Seq<char>, lo1: int, lo2: int, hi: int)
    requires
        lo1 <= lo2,
        forall|k: int| lo1 <= k < lo2 ==> !(#[trigger] has_bucket(es, account, k)),
    ensures
        bucket_pairs(es, account, lo1, hi) == bucket_pairs(es, account, lo2, hi),
    decreases hi - lo1,
{
    if hi <= lo2 {
        lemma_bucket_pairs_empty(es, account, lo1, hi);
        lemma_bucket_pairs_empty(es, account, lo2, hi);
    } else {
        lemma_bucket_pairs_lo(es, account, lo1, lo2, hi - 1);
    }
}

proof fn lemma_chain_none_append(es: Seq<EntryV>, account: Seq<char>, a: Seq<int>, b: Seq<int>, c: Seq<char>)
    requires
        chain_sum(es, account, a, c) is None,
    ensures
        chain_sum(es, account, a + b, c) is None,
    decreases b.len(),
{
    if b.len() == 0 {
        assert(a + b =~= a);
    } else {
        assert((a + b).drop_last() =~= a + b.drop_last());
        lemma_chain_none_append(es, account, a, b.drop_last(), c);
    }
}

proof fn lemma_cashflow_none_extends(
    es: Seq<EntryV>,
    account: Seq<char>,
    ps: Seq<KeyComV>,
    m: int,
    n: int,
)
    requires
        m <= n,
        cashflow_rows_from(es, account, ps, m) is None,
    ensures
        cashflow_rows_from(es, account, ps, n) is None,
    decreases n - m,
{
    if n > m {
        lemma_cashflow_none_extends(es, account, ps, m, n - 1);
    }
}

/// The quantities selected for one month and commodity are well-formed.
proof fn lemma_month_amounts_wf(es: Seq<EntryV>, account: Seq<char>, k: int, c: Seq<char>)
    requires
        entries_wf(es),
    ensures
        forall|i: int|
            0 <= i < month_amounts(es, account, k, c).len() ==> (#[trigger] month_amounts(
                es,
                account,
                k,
                c,
            )[i]).wf(),
{
    let f = |e: EntryV| e.account == account && e.key == k && e.commodity == c;
    assert forall|i: int| 0 <= i < month_amounts(es, account, k, c).len() implies (
    #[trigger] month_amounts(es, account, k, c)[i]).wf() by {
        let w = es.filter(f)[i];
        assert(es.filter(f).contains(w));
        assert(es.contains(w));
        let j = choose|j: int| 0 <= j < es.len() && es[j] == w;
        assert(es[j].wf());
    }
}

/// A carried chain value is well-formed.
proof fn lemma_chain_wf(es: Seq<EntryV>, account: Seq<char>, ks: Seq<int>, c: Seq<char>)
    requires
        entries_wf(es),
        chain_sum(es, account, ks, c) is Some,
    ensures
        chain_sum(es, account, ks, c)->Some_0.wf(),
    decreases ks.len(),
{
    if ks.len() > 0 {
        lemma_chain_wf(es, account, ks.drop_last(), c);
        let a = chain_sum(es, account, ks.drop_last(), c)->Some_0;
        lemma_month_amounts_wf(es, account, ks.last(), c);
        lemma_sum_wf(month_amounts(es, account, ks.last(), c));
        let b = sum_qty(month_amounts(es, account, ks.last(), c))->Some_0;
        crate::qty::lemma_spec_add_val(a, b);
    }
}

/// The cashflow law: over months whose changes are all nonnegative, the
/// running totals never decrease.
pub proof fn lemma_cashflow_monotone(
    es: Seq<EntryV>,
    account: Seq<char>,
    ks: Seq<int>,
    c: Seq<char>,
    i: int,
    j: int,
)
    requires
        entries_wf(es),
        0 <= i <= j <= ks.len(),
        chain_sum(es, account, ks, c) is Some,
        forall|m: int|
            0 <= m < ks.len() ==> ((#[trigger] sum_qty(
                month_amounts(es, account, ks[m], c),
            )) matches Some(q) && q.val() >= 0),
    ensures
        chain_sum(es, account, ks.take(i), c) is Some,
        chain_sum(es, account, ks.take(j), c) is Some,
        chain_sum(es, account, ks.take(i), c)->Some_0.val() <= chain_sum(
            es,
            account,
            ks.take(j),
            c,
        )->Some_0.val(),
    decreases ks.len(), j - i,
{
    if j < ks.len() {
        // shrink to the prefix of length j, whose chain is also carried
        lemma_chain_prefix_some(es, account, ks, c, j);
        assert(ks.take(j).take(i) =~= ks.take(i));
        assert(ks.take(j).take(j) =~= ks.take(j));
        lemma_cashflow_monotone(es, account, ks.take(j), c, i, j);
        assert forall|m: int| 0 <= m < ks.take(j).len() implies ((#[trigger] sum_qty(
            month_amounts(es, account, ks.take(j)[m], c),
        )) matches Some(q) && q.val() >= 0) by {
            assert(ks.take(j)[m] == ks[m]);
            assert((sum_qty(month_amounts(es, account, ks[m], c))) matches Some(q) && q.val() >= 0);
        }
    } else {
        assert(j == ks.len());
        assert(ks.take(j) =~= ks);
        if i < j {
            lemma_cashflow_monotone(es, account, ks, c, i, j - 1);
            lemma_chain_prefix_some(es, account, ks, c, j - 1);
            lemma_chain_wf(es, account, ks.take(j - 1), c);
            let a = chain_sum(es, account, ks.take(j - 1), c)->Some_0;
            assert(ks.take(j).drop_last() =~= ks.take(j - 1));
            assert(ks.take(j).last() == ks[j - 1]);
            lemma_month_amounts_wf(es, account, ks[j - 1], c);
            lemma_sum_wf(month_amounts(es, account, ks[j - 1], c));
            let b = sum_qty(month_amounts(es, account, ks[j - 1], c))->Some_0;
            crate::qty::lemma_spec_add_val(a, b);
        }
    }
}

/// A carried chain has carried prefixes.
proof fn lemma_chain_prefix_some(
    es: Seq<EntryV>,
    account: Seq<char>,
    ks: Seq<int>,
    c: Seq<char>,
    n: int,
)
    requires
        0 <= n <= ks.len(),
        chain_sum(es, account, ks, c) is Some,
    ensures
        chain_sum(es, account, ks.take(n), c) is Some,
    decreases ks.len(),
{
    if n < ks.len() {
        assert(chain_sum(es, account, ks.drop_last(), c) is Some);
        assert(ks.drop_last().take(n) =~= ks.take(n));
        lemma_chain_prefix_some(es, account, ks.drop_last(), c, n);
    } else {
        assert(ks.take(n) =~= ks);
    }
}


/// Every pair's key lies in the range it was gathered from.
proof fn lemma_bucket_pairs_bounds(es: Seq<EntryV>, account: Seq<char>, lo: int, hi: int)
    ensures
        forall|i: int|
            0 <= i < bucket_pairs(es, account, lo, hi).len() ==> lo <= (#[trigger] bucket_pairs(
                es,
                account,
                lo,
                hi,
            )[i]).key < hi,
    decreases hi - lo,
{
    if hi > lo {
        lemma_bucket_pairs_bounds(es, account, lo, hi - 1);
        let rest = bucket_pairs(es, account, lo, hi - 1);
        let whole = bucket_pairs(es, account, lo, hi);
        assert forall|i: int| 0 <= i < whole.len() implies lo <= (#[trigger] whole[i]).key
            < hi by {
            if i < rest.len() {
                assert(whole[i] == rest[i]);
            } else {
                assert(whole[i].key == hi - 1);
            }
        }
    }
}

/// The cashflow report: the monthly series with each row's amount replaced by
/// the running per-commodity total up to and including that month.
pub fn cashflow_report(d: &LedgerDocument, account: &String) -> (r: Result<
    Vec<LedgerResponse>,
    LedgerError,
>)
    requires
        d@.wf(),
    ensures
        r matches Ok(rows) ==> Some(rows_view(rows@)) == spec_cashflow(d@, account@),
        r matches Err(e) ==> e == LedgerError::ArithmeticOverflow && spec_cashflow(
            d@,
            account@,
        ) is None,
{
    let es = collect_entries(d);
    let ghost esv = vec_entries(es@);
    proof {
        assert(esv == es@.map_values(|e: Entry| e@));
    }
    let mut pairs: Vec<KeyCom> = Vec::new();
    match bucket_key_range(&es, account) {
        None => {
            proof {
                lemma_bucket_pairs_empty(esv, account@, KEY_LO as int, KEY_HI as int);
            }
        },
        Some((kmin, kmax)) => {
            proof {
                assert(pairs@.map_values(|p: KeyCom| p@) =~= Seq::<KeyComV>::empty());
            }
            let mut k: i64 = kmin;
            while k <= kmax
                invariant
                    kmin <= k <= kmax + 1,
                    KEY_LO <= kmin <= kmax < KEY_HI,
                    esv == vec_entries(es@),
                    esv == es@.map_values(|e: Entry| e@),
                    entries_wf(esv),
                    forall|k2: int|
                        (k2 < kmin || k2 > kmax) ==> !(#[trigger] has_bucket(esv, account@, k2)),
                    pairs@.map_values(|p: KeyCom| p@) == bucket_pairs(
                        esv,
                        account@,
                        kmin as int,
                        k as int,
                    ),
                decreases kmax + 1 - k,
            {
                let cs = bucket_commodity_list(&es, account, k);
                let ghost csv = cs@.map_values(|s: String| s@);
                let ghost base = bucket_pairs(esv, account@, kmin as int, k as int);
                proof {
                    lemma_dedup_first_empty(
                        bucket_entries(esv, account@, k as int).map_values(
                            |e: EntryV| e.commodity,
                        ),
                    );
                }
                if cs.len() == 0 {
                    proof {
                        assert(!has_bucket(esv, account@, k as int));
                        assert(bucket_pairs(esv, account@, kmin as int, k as int + 1) =~= base);
                    }
                } else {
                    proof {
                        assert(has_bucket(esv, account@, k as int));
                        assert(csv.take(0) =~= Seq::<Seq<char>>::empty());
                        assert(csv.take(0).map_values(
                            |c: Seq<char>| KeyComV { key: k as int, commodity: c },
                        ) =~= Seq::<KeyComV>::empty());
                        assert(pairs@.map_values(|p: KeyCom| p@) =~= base + csv.take(
                            0,
                        ).map_values(|c: Seq<char>| KeyComV { key: k as int, commodity: c }));
                    }
                    let mut j: usize = 0;
                    while j < cs.len()
                        invariant
                            j <= cs.len(),
                            csv == cs@.map_values(|s: String| s@),
                            base == bucket_pairs(esv, account@, kmin as int, k as int),
                            pairs@.map_values(|p: KeyCom| p@) == base + csv.take(
                                j as int,
                            ).map_values(|c: Seq<char>| KeyComV { key: k as int, commodity: c }),
                        decreases cs.len() - j,
                    {
                        let ghost prev = pairs@.map_values(|p: KeyCom| p@);
                        let p = KeyCom {
                            key: k,
                            commodity: crate::doc::clone_string(&cs[j]),
                        };
                        let ghost pv = p@;
                        pairs.push(p);
                        proof {
                            assert(csv[j as int] == cs@[j as int]@);
                            assert(pv == KeyComV { key: k as int, commodity: csv[j as int] });
                            assert(pairs@.map_values(|p: KeyCom| p@) =~= prev.push(pv));
                            assert(csv.take(j + 1) =~= csv.take(j as int).push(csv[j as int]));
                            assert(csv.take(j + 1).map_values(
                                |c: Seq<char>| KeyComV { key: k as int, commodity: c },
                            ) =~= csv.take(j as int).map_values(
                                |c: Seq<char>| KeyComV { key: k as int, commodity: c },
                            ).push(pv));
                        }
                        j = j + 1;
                    }
                    proof {
                        assert(csv.take(csv.len() as int) =~= csv);
                        assert(bucket_pairs(esv, account@, kmin as int, k as int + 1) == base
                            + bucket_commodities(esv, account@, k as int).map_values(
                            |c: Seq<char>| KeyComV { key: (k as int + 1) - 1, commodity: c },
                        ));
                        assert(csv.map_values(
                            |c: Seq<char>| KeyComV { key: k as int, commodity: c },
                        ) =~= bucket_commodities(esv, account@, k as int).map_values(
                            |c: Seq<char>| KeyComV { key: (k as int + 1) - 1, commodity: c },
                        ));
                    }
                }
                k = k + 1;
            }
            proof {
                lemma_bucket_pairs_hi(esv, account@, kmin as int, kmax as int + 1, KEY_HI as int);
                lemma_bucket_pairs_lo(esv, account@, KEY_LO as int, kmin as int, KEY_HI as int);
            }
        },
    }
    let ghost psv = bucket_pairs(esv, account@, KEY_LO as int, KEY_HI as int);
    proof {
        assert(pairs@.map_values(|p: KeyCom| p@) == psv);
        lemma_bucket_pairs_bounds(esv, account@, KEY_LO as int, KEY_HI as int);
    }
    let mut out: Vec<LedgerResponse> = Vec::new();
    proof {
        assert(rows_view(out@) =~= Seq::<RowV>::empty());
    }
    let mut i: usize = 0;
    while i < pairs.len()
        invariant
            i <= pairs.len(),
            esv == vec_entries(es@),
            esv == es@.map_values(|e: Entry| e@),
            esv == all_entries(d@.items),
            entries_wf(esv),
            psv == bucket_pairs(esv, account@, KEY_LO as int, KEY_HI as int),
            pairs@.map_values(|p: KeyCom| p@) == psv,
            forall|m: int| 0 <= m < psv.len() ==> KEY_LO <= (#[trigger] psv[m]).key < KEY_HI,
            Some(rows_view(out@)) == cashflow_rows_from(esv, account@, psv, i as int),
        decreases pairs.len() - i,
    {
        proof {
            assert(psv[i as int] == pairs@[i as int]@);
        }
        let ki = pairs[i].key;
        let y64 = match ki.checked_div_euclid(12) {
            Some(v) => v,
            None => {
                proof {
                    assert(false);
                }
                0
            },
        };
        let rem = match ki.checked_rem_euclid(12) {
            Some(v) => v,
            None => {
                proof {
                    assert(false);
                }
                0
            },
        };
        proof {
            vstd::arithmetic::div_mod::lemma_div_is_ordered(KEY_LO as int, ki as int, 12);
            vstd::arithmetic::div_mod::lemma_div_is_ordered(ki as int, KEY_HI as int - 1, 12);
            assert(KEY_LO as int / 12 == i32::MIN as int);
            assert((KEY_HI as int - 1) / 12 == i32::MAX as int);
            assert(0 <= ki as int % 12 < 12);
        }
        let y = y64 as i32;
        let mth = (rem + 1) as u32;
        let day = crate::dates::get_month_last_date(mth, y);
        let ghost c = psv[i as int].commodity;
        let ghost fc = |p: KeyComV| p.commodity == psv[i as int].commodity;
        let ghost gk = |p: KeyComV| p.key;
        let mut acc = Qty::zero();
        proof {
            assert(psv.take(0) =~= Seq::<KeyComV>::empty());
            assert(psv.take(0).filter(fc).map_values(gk) =~= Seq::<int>::empty());
        }
        let mut j: usize = 0;
        while j < i + 1
            invariant
                j <= i + 1,
                i < pairs.len(),
                esv == vec_entries(es@),
                esv == es@.map_values(|e: Entry| e@),
                esv == all_entries(d@.items),
                entries_wf(esv),
                psv == bucket_pairs(esv, account@, KEY_LO as int, KEY_HI as int),
                pairs@.map_values(|p: KeyCom| p@) == psv,
                c == psv[i as int].commodity,
                fc == (|p: KeyComV| p.commodity == psv[i as int].commodity),
                gk == (|p: KeyComV| p.key),
                Some(rows_view(out@)) == cashflow_rows_from(esv, account@, psv, i as int),
                Some(acc) == chain_sum(esv, account@, psv.take(j as int).filter(fc).map_values(gk), c),
                acc.wf(),
            decreases i + 1 - j,
        {
            proof {
                assert(psv[j as int] == pairs@[j as int]@);
                assert(psv.take(j + 1) =~= psv.take(j as int).push(psv[j as int]));
            }
            if string_eq(&pairs[j].commodity, &pairs[i].commodity) {
                let ghost kpre = psv.take(j as int).filter(fc).map_values(gk);
                proof {
                    assert(fc(psv[j as int]));
                    assert(psv.take(j + 1).filter(fc) =~= psv.take(j as int).filter(fc).push(
                        psv[j as int],
                    ));
                    assert(psv.take(j + 1).filter(fc).map_values(gk) =~= kpre.push(
                        psv[j as int].key,
                    ));
                    assert(kpre.push(psv[j as int].key).drop_last() =~= kpre);
                    assert(kpre.push(psv[j as int].key).last() == psv[j as int].key);
                }
                let step = match sum_bucket(&es, account, pairs[j].key, &pairs[i].commodity) {
                    Ok(m) => acc.checked_add(m),
                    Err(_) => None,
                };
                match step {
                    Some(a2) => {
                        acc = a2;
                    },
                    None => {
                        proof {
                            assert(chain_sum(
                                esv,
                                account@,
                                psv.take(j + 1).filter(fc).map_values(gk),
                                c,
                            ) is None);
                            let upto = psv.take(i + 1);
                            assert(upto =~= psv.take(j + 1) + psv.subrange(j + 1, i + 1));
                            Seq::filter_distributes_over_add(
                                psv.take(j + 1),
                                psv.subrange(j + 1, i + 1),
                                fc,
                            );
                            assert(chain_keys(psv, i as int) =~= psv.take(j + 1).filter(
                                fc,
                            ).map_values(gk) + psv.subrange(j + 1, i + 1).filter(fc).map_values(
                                gk,
                            ));
                            lemma_chain_none_append(
                                esv,
                                account@,
                                psv.take(j + 1).filter(fc).map_values(gk),
                                psv.subrange(j + 1, i + 1).filter(fc).map_values(gk),
                                c,
                            );
                            assert(cashflow_rows_from(esv, account@, psv, i as int + 1) is None);
                            lemma_cashflow_none_extends(
                                esv,
                                account@,
                                psv,
                                i as int + 1,
                                psv.len() as int,
                            );
                        }
                        return Err(LedgerError::ArithmeticOverflow);
                    },
                }
            } else {
                proof {
                    assert(!fc(psv[j as int]));
                    assert(psv.take(j + 1).filter(fc) =~= psv.take(j as int).filter(fc));
                }
            }
            j = j + 1;
        }
        let ghost prevrows = rows_view(out@);
        let row = LedgerResponse {
            date: Some(Date { year: y, month: mth, day }),
            amount: acc,
            account: Some(crate::doc::clone_string(account)),
        };
        let ghost rv = row@;
        out.push(row);
        proof {
            assert(psv.take(i + 1).filter(fc).map_values(gk) == chain_keys(psv, i as int));
            assert(rv.date == Some(month_end_of_key(psv[i as int].key)));
            assert(rows_view(out@) =~= prevrows.push(rv));
            assert(cashflow_rows_from(esv, account@, psv, i as int + 1) == Some(
                prevrows.push(rv),
            ));
        }
        i = i + 1;
    }
    proof {
        assert(pairs@.len() == psv.len());
    }
    Ok(out)
}


// ---------------------------------------------------------------------------
// Split
// ---------------------------------------------------------------------------
/// Does the account lie at or under the prefix in the `/`-delimited account
/// hierarchy?
pub open spec fn subtree_match(acct: Seq<char>, pre: Seq<char>) -> bool {
    acct == pre || (acct.len() > pre.len() && acct.take(pre.len() as int) == pre && acct[pre.len() as int] == '/')
}

pub open spec fn strict_under(acct: Seq<char>, pre: Seq<char>) -> bool {
    subtree_match(acct, pre) && acct != pre
}

/// The position of the first `/` at or after `from`, or the end of the
/// account path.
pub open spec fn seg_end(acct: Seq<char>, from: int) -> int
    recommends
        0 <= from <= acct.len(),
    decreases acct.len() - from,
{
    if from >= acct.len() {
        acct.len() as int
    } else if acct[from] == '/' {
        from
    } else {
        seg_end(acct, from + 1)
    }
}

proof fn lemma_seg_end_bounds(acct: Seq<char>, from: int)
    requires
        0 <= from <= acct.len(),
    ensures
        from <= seg_end(acct, from) <= acct.len(),
    decreases acct.len() - from,
{
    if from < acct.len() && acct[from] != '/' {
        lemma_seg_end_bounds(acct, from + 1);
    }
}

/// The name of the immediate child of `pre` that `acct` falls under.
pub open spec fn child_seg(acct: Seq<char>, pre: Seq<char>) -> Seq<char>
    recommends
        strict_under(acct, pre),
{
    acct.subrange(pre.len() as int + 1, seg_end(acct, pre.len() as int + 1))
}

pub open spec fn in_child(acct: Seq<char>, pre: Seq<char>, seg: Seq<char>) -> bool {
    strict_under(acct, pre) && child_seg(acct, pre) == seg
}

/// The immediate child segments under the prefix, in order of first
/// appearance among the entries.
pub open spec fn children_of(es: Seq<EntryV>, pre: Seq<char>) -> Seq<Seq<char>> {
    dedup_first(
        es.filter(|e: EntryV| strict_under(e.account, pre)).map_values(
            |e: EntryV| child_seg(e.account, pre),
        ),
    )
}

/// The display-commodity quantities aggregated over one child's subtree.
pub open spec fn child_amounts(
    es: Seq<EntryV>,
    pre: Seq<char>,
    seg: Seq<char>,
    native: Seq<char>,
) -> Seq<Qty> {
    es.filter(|e: EntryV| in_child(e.account, pre, seg) && e.commodity == native).map_values(
        |e: EntryV| e.qty,
    )
}

/// Does any entry live at or under the prefix?
pub open spec fn node_exists(es: Seq<EntryV>, pre: Seq<char>) -> bool {
    exists|i: int| 0 <= i < es.len() && subtree_match((#[trigger] es[i]).account, pre)
}

/// The row of one child: its subtree total in the display commodity.
pub open spec fn seg_row(
    es: Seq<EntryV>,
    pre: Seq<char>,
    native: Seq<char>,
    seg: Seq<char>,
) -> Result<RowV, LedgerError> {
    let qs = child_amounts(es, pre, seg, native);
    if qs.len() == 0 {
        Err(LedgerError::NoSuchCommodity)
    } else {
        match sum_qty(qs) {
            None => Err(LedgerError::ArithmeticOverflow),
            Some(q) => Ok(RowV { date: None, amount: q, account: Some(seg) }),
        }
    }
}

/// One row per child segment, in first-appearance order; the error of the
/// earliest failing child wins.
pub open spec fn split_rows_unsorted(
    es: Seq<EntryV>,
    pre: Seq<char>,
    native: Seq<char>,
    segs: Seq<Seq<char>>,
) -> Result<Seq<RowV>, LedgerError>
    decreases segs.len(),
{
    if segs.len() == 0 {
        Ok(Seq::empty())
    } else {
        match split_rows_unsorted(es, pre, native, segs.drop_last()) {
            Err(e) => Err(e),
            Ok(rs) => match seg_row(es, pre, native, segs.last()) {
                Err(e) => Err(e),
                Ok(r) => Ok(rs.push(r)),
            },
        }
    }
}

/// Insert a row into a descending-by-amount sequence, after any rows of equal
/// amount (a stable descending insertion).
pub open spec fn insert_desc(s: Seq<RowV>, r: RowV) -> Seq<RowV>
    decreases s.len(),
{
    if s.len() == 0 {
        seq![r]
    } else if s.last().amount.val() >= r.amount.val() {
        s.push(r)
    } else {
        insert_desc(s.drop_last(), r).push(s.last())
    }
}

/// Stable insertion sort, largest amounts first.
pub open spec fn sort_desc(rows: Seq<RowV>) -> Seq<RowV>
    decreases rows.len(),
{
    if rows.len() == 0 {
        Seq::empty()
    } else {
        insert_desc(sort_desc(rows.drop_last()), rows.last())
    }
}

/// The split report of a whole document: one row per immediate child of the
/// account prefix, sorted by amount descending, ties in first-appearance
/// order.
pub open spec fn spec_split(d: DocV, pre: Seq<char>, native: Seq<char>) -> Result<
    Seq<RowV>,
    LedgerError,
> {
    let es = all_entries(d.items);
    if !node_exists(es, pre) {
        Err(LedgerError::NoSuchAccount)
    } else {
        match split_rows_unsorted(es, pre, native, children_of(es, pre)) {
            Err(e) => Err(e),
            Ok(rows) => Ok(sort_desc(rows)),
        }
    }
}

proof fn lemma_split_rows_prefix_err(
    es: Seq<EntryV>,
    pre: Seq<char>,
    native: Seq<char>,
    segs: Seq<Seq<char>>,
    j: int,
)
    requires
        0 <= j < segs.len(),
        split_rows_unsorted(es, pre, native, segs.take(j)) is Ok,
        seg_row(es, pre, native, segs[j]) is Err,
    ensures
        split_rows_unsorted(es, pre, native, segs) == Err::<Seq<RowV>, LedgerError>(
            seg_row(es, pre, native, segs[j])->Err_0,
        ),
    decreases segs.len(),
{
    if segs.len() == j + 1 {
        assert(segs.drop_last() =~= segs.take(j));
        assert(segs.last() == segs[j]);
    } else {
        assert(segs.drop_last().take(j) =~= segs.take(j));
        assert(segs.drop_last()[j] == segs[j]);
        lemma_split_rows_prefix_err(es, pre, native, segs.drop_last(), j);
    }
}

// ---------------------------------------------------------------------------
// Executable string helpers for account paths
// ---------------------------------------------------------------------------
fn subtree_match_exec(acct: &String, pre: &String) -> (r: bool)
    ensures
        r == subtree_match(acct@, pre@),
{
    if string_eq(acct, pre) {
        return true;
    }
    let la = acct.as_str().unicode_len();
    let lp = pre.as_str().unicode_len();
    if la <= lp {
        return false;
    }
    let mut i: usize = 0;
    while i < lp
        invariant
            i <= lp,
            lp == pre@.len(),
            la == acct@.len(),
            la > lp,
            forall|m: int| 0 <= m < i ==> acct@[m] == pre@[m],
        decreases lp - i,
    {
        if acct.as_str().get_char(i) != pre.as_str().get_char(i) {
            proof {
                assert(acct@[i as int] != pre@[i as int]);
                assert(acct@.take(lp as int)[i as int] == acct@[i as int]);
            }
            return false;
        }
        i = i + 1;
    }
    proof {
        assert(acct@.take(lp as int) =~= pre@);
    }
    acct.as_str().get_char(lp) == '/'
}

fn seg_end_exec(acct: &String, from: usize) -> (r: usize)
    requires
        from <= acct@.len(),
    ensures
        r == seg_end(acct@, from as int),
        from <= r <= acct@.len(),
{
    let len = acct.as_str().unicode_len();
    let mut i: usize = from;
    while i < len
        invariant
            from <= i <= len,
            len == acct@.len(),
            seg_end(acct@, from as int) == seg_end(acct@, i as int),
        decreases len - i,
    {
        if acct.as_str().get_char(i) == '/' {
            return i;
        }
        i = i + 1;
    }
    i
}

/// The immediate child segment of `acct` under a prefix of character length
/// `lp`.
fn child_seg_exec(acct: &String, lp: usize) -> (r: String)
    requires
        lp + 1 <= acct@.len(),
    ensures
        r@ == acct@.subrange(lp as int + 1, seg_end(acct@, lp as int + 1)),
{
    let len = acct.as_str().unicode_len();
    proof {
        assert(lp as int + 1 <= len);
    }
    let e = seg_end_exec(acct, lp + 1);
    acct.as_str().substring_char(lp + 1, e).to_owned()
}

fn in_child_exec(acct: &String, pre: &String, lp: usize, seg: &String) -> (r: bool)
    requires
        lp == pre@.len(),
    ensures
        r == in_child(acct@, pre@, seg@),
{
    if !subtree_match_exec(acct, pre) {
        return false;
    }
    if string_eq(acct, pre) {
        return false;
    }
    proof {
        assert(strict_under(acct@, pre@));
        assert(acct@.len() > pre@.len());
    }
    let cs = child_seg_exec(acct, lp);
    string_eq(&cs, seg)
}


/// The child segments under the prefix, in first-appearance order.
fn children_list(es: &Vec<Entry>, pre: &String) -> (r: Vec<String>)
    ensures
        r@.map_values(|s: String| s@) == children_of(vec_entries(es@), pre@),
{
    let ghost esv = vec_entries(es@);
    let ghost f = |e: EntryV| strict_under(e.account, pre@);
    let ghost m = |e: EntryV| child_seg(e.account, pre@);
    let lp = pre.as_str().unicode_len();
    let mut cs: Vec<String> = Vec::new();
    proof {
        assert(esv == es@.map_values(|e: Entry| e@));
        assert(esv.take(0) =~= Seq::<EntryV>::empty());
        assert(esv.take(0).filter(f).map_values(m) =~= Seq::<Seq<char>>::empty());
        assert(cs@.map_values(|s: String| s@) =~= Seq::<Seq<char>>::empty());
    }
    let mut i: usize = 0;
    while i < es.len()
        invariant
            i <= es.len(),
            esv == vec_entries(es@),
            esv == es@.map_values(|e: Entry| e@),
            lp == pre@.len(),
            f == (|e: EntryV| strict_under(e.account, pre@)),
            m == (|e: EntryV| child_seg(e.account, pre@)),
            cs@.map_values(|s: String| s@) == dedup_first(esv.take(i as int).filter(f).map_values(m)),
        decreases es.len() - i,
    {
        proof {
            assert(esv[i as int] == es@[i as int]@);
            assert(esv.take(i + 1) =~= esv.take(i as int).push(esv[i as int]));
        }
        let under = subtree_match_exec(&es[i].account, pre) && !string_eq(&es[i].account, pre);
        if under {
            let ghost bs = esv.take(i as int).filter(f).map_values(m);
            let ghost cv = child_seg(esv[i as int].account, pre@);
            proof {
                assert(f(esv[i as int]));
                assert(esv.take(i + 1).filter(f) =~= esv.take(i as int).filter(f).push(
                    esv[i as int],
                ));
                assert(esv.take(i + 1).filter(f).map_values(m) =~= bs.push(cv));
                assert(bs.push(cv).drop_last() =~= bs);
                assert(bs.push(cv).last() == cv);
                assert(esv[i as int].account.len() > pre@.len());
            }
            let seg = child_seg_exec(&es[i].account, lp);
            if !contains_commodity(&cs, &seg) {
                let ghost prev = cs@.map_values(|s: String| s@);
                cs.push(seg);
                proof {
                    assert(cs@.map_values(|s: String| s@) =~= prev.push(cv));
                }
            }
        } else {
            proof {
                assert(!f(esv[i as int]));
                assert(esv.take(i + 1).filter(f) =~= esv.take(i as int).filter(f));
            }
        }
        i = i + 1;
    }
    proof {
        assert(esv.take(esv.len() as int) =~= esv);
    }
    cs
}

/// Is there any entry in this child's subtree carrying the display
/// commodity?
fn has_child_amount(es: &Vec<Entry>, pre: &String, lp: usize, seg: &String, native: &String) -> (r:
    bool)
    requires
        lp == pre@.len(),
    ensures
        r == (child_amounts(vec_entries(es@), pre@, seg@, native@).len() > 0),
{
    let ghost esv = vec_entries(es@);
    let ghost f = |e: EntryV| in_child(e.account, pre@, seg@) && e.commodity == native@;
    let mut i: usize = 0;
    while i < es.len()
        invariant
            i <= es.len(),
            esv == vec_entries(es@),
            esv == es@.map_values(|e: Entry| e@),
            lp == pre@.len(),
            f == (|e: EntryV| in_child(e.account, pre@, seg@) && e.commodity == native@),
            forall|j: int| 0 <= j < i ==> !f(#[trigger] esv[j]),
        decreases es.len() - i,
    {
        proof {
            assert(esv[i as int] == es@[i as int]@);
        }
        if in_child_exec(&es[i].account, pre, lp, seg) && string_eq(&es[i].commodity, native) {
            proof {
                assert(f(esv[i as int]));
                assert(esv.filter(f).contains(esv[i as int]));
            }
            return true;
        }
        i = i + 1;
    }
    proof {
        if esv.filter(f).len() > 0 {
            let w = esv.filter(f)[0];
            assert(esv.filter(f).contains(w));
            assert(esv.contains(w));
            assert(f(w));
        }
    }
    false
}

/// Sum one child's subtree in the display commodity.
fn sum_child(es: &Vec<Entry>, pre: &String, lp: usize, seg: &String, native: &String) -> (r: Result<
    Qty,
    LedgerError,
>)
    requires
        lp == pre@.len(),
        entries_wf(vec_entries(es@)),
    ensures
        r matches Ok(q) ==> Some(q) == sum_qty(
            child_amounts(vec_entries(es@), pre@, seg@, native@),
        ) && q.wf(),
        r matches Err(e) ==> e == LedgerError::ArithmeticOverflow && sum_qty(
            child_amounts(vec_entries(es@), pre@, seg@, native@),
        ) is None,
{
    let ghost esv = vec_entries(es@);
    let ghost f = |e: EntryV| in_child(e.account, pre@, seg@) && e.commodity == native@;
    let ghost g = |e: EntryV| e.qty;
    let mut acc = Qty::zero();
    proof {
        assert(esv == es@.map_values(|e: Entry| e@));
        assert(esv.take(0) =~= Seq::<EntryV>::empty());
        assert(esv.take(0).filter(f).map_values(g) =~= Seq::<Qty>::empty());
    }
    let mut i: usize = 0;
    while i < es.len()
        invariant
            i <= es.len(),
            esv == vec_entries(es@),
            esv == es@.map_values(|e: Entry| e@),
            entries_wf(esv),
            lp == pre@.len(),
            f == (|e: EntryV| in_child(e.account, pre@, seg@) && e.commodity == native@),
            g == (|e: EntryV| e.qty),
            Some(acc) == sum_qty(esv.take(i as int).filter(f).map_values(g)),
            acc.wf(),
        decreases es.len() - i,
    {
        proof {
            assert(esv[i as int] == es@[i as int]@);
            assert(esv[i as int].wf());
            assert(esv.take(i + 1) =~= esv.take(i as int).push(esv[i as int]));
        }
        if in_child_exec(&es[i].account, pre, lp, seg) && string_eq(&es[i].commodity, native) {
            let ghost prefix = esv.take(i as int).filter(f).map_values(g);
            proof {
                let q = esv[i as int].qty;
                assert(f(esv[i as int]));
                assert(esv.take(i + 1).filter(f) =~= esv.take(i as int).filter(f).push(
                    esv[i as int],
                ));
                assert(esv.take(i + 1).filter(f).map_values(g) =~= prefix.push(q));
                assert(prefix.push(q).drop_last() =~= prefix);
                assert(prefix.push(q).last() == q);
                assert(sum_qty(prefix.push(q)) == spec_add(acc, q));
            }
            match acc.checked_add(es[i].qty) {
                Some(a2) => {
                    acc = a2;
                },
                None => {
                    proof {
                        let pre1 = esv.take(i + 1);
                        let rest = esv.skip(i + 1);
                        assert(sum_qty(pre1.filter(f).map_values(g)) is None);
                        assert(esv =~= pre1 + rest);
                        Seq::filter_distributes_over_add(pre1, rest, f);
                        assert(esv.filter(f).map_values(g) =~= pre1.filter(f).map_values(g)
                            + rest.filter(f).map_values(g));
                        lemma_sum_none_append(
                            pre1.filter(f).map_values(g),
                            rest.filter(f).map_values(g),
                        );
                    }
                    return Err(LedgerError::ArithmeticOverflow);
                },
            }
        } else {
            proof {
                assert(!f(esv[i as int]));
                assert(esv.take(i + 1).filter(f) =~= esv.take(i as int).filter(f));
            }
        }
        i = i + 1;
    }
    proof {
        assert(esv.take(esv.len() as int) =~= esv);
    }
    Ok(acc)
}

/// Compare two quantities by value.
fn val_ge(a: Qty, b: Qty) -> (r: bool)
    requires
        a.wf(),
        b.wf(),
    ensures
        r == (a.val() >= b.val()),
{
    let t = if a.scale >= b.scale {
        a.scale
    } else {
        b.scale
    };
    proof {
        crate::qty::lemma_pow10_pos((t - a.scale) as nat);
        crate::qty::lemma_pow10_pos((t - b.scale) as nat);
    }
    let fa = crate::qty::pow10_exec(t - a.scale);
    let fb = crate::qty::pow10_exec(t - b.scale);
    let ghost am = a.mantissa * crate::qty::pow10((t - a.scale) as nat);
    let ghost bm = b.mantissa * crate::qty::pow10((t - b.scale) as nat);
    proof {
        crate::qty::lemma_val_at_scale(a, t);
        crate::qty::lemma_val_at_scale(b, t);
        crate::qty::lemma_pow10_pos((crate::qty::SCALE_LIMIT - t) as nat);
        assert((am >= bm) == (a.val() >= b.val())) by (nonlinear_arith)
            requires
                am * crate::qty::pow10((crate::qty::SCALE_LIMIT - t) as nat) == a.val(),
                bm * crate::qty::pow10((crate::qty::SCALE_LIMIT - t) as nat) == b.val(),
                crate::qty::pow10((crate::qty::SCALE_LIMIT - t) as nat) >= 1,
        ;
        if a.scale >= b.scale {
            assert(am == a.mantissa * 1);
        } else {
            assert(bm == b.mantissa * 1);
        }
    }
    match (a.mantissa.checked_mul(fa), b.mantissa.checked_mul(fb)) {
        (Some(ame), Some(bme)) => ame >= bme,
        (None, _) => {
            proof {
                assert(crate::qty::abs_int(am) > i128::MAX);
                assert(crate::qty::abs_int(bm) <= crate::qty::MANTISSA_LIMIT);
                assert((a.mantissa > 0) == (am >= bm)) by (nonlinear_arith)
                    requires
                        am == a.mantissa * crate::qty::pow10((t - a.scale) as nat),
                        crate::qty::pow10((t - a.scale) as nat) >= 1,
                        crate::qty::abs_int(am) > i128::MAX,
                        crate::qty::abs_int(bm) <= crate::qty::MANTISSA_LIMIT,
                        crate::qty::MANTISSA_LIMIT < i128::MAX,
                ;
            }
            a.mantissa > 0
        },
        (_, None) => {
            proof {
                assert(crate::qty::abs_int(bm) > i128::MAX);
                assert(crate::qty::abs_int(am) <= crate::qty::MANTISSA_LIMIT);
                assert((b.mantissa < 0) == (am >= bm)) by (nonlinear_arith)
                    requires
                        bm == b.mantissa * crate::qty::pow10((t - b.scale) as nat),
                        crate::qty::pow10((t - b.scale) as nat) >= 1,
                        crate::qty::abs_int(bm) > i128::MAX,
                        crate::qty::abs_int(am) <= crate::qty::MANTISSA_LIMIT,
                        crate::qty::MANTISSA_LIMIT < i128::MAX,
                ;
            }
            b.mantissa < 0
        },
    }
}

fn clone_row(r: &LedgerResponse) -> (c: LedgerResponse)
    ensures
        c@ == r@,
{
    LedgerResponse {
        date: r.date,
        amount: r.amount,
        account: match &r.account {
            Some(a) => Some(crate::doc::clone_string(a)),
            None => None,
        },
    }
}

proof fn lemma_insert_desc_at(s: Seq<RowV>, r: RowV, p: int)
    requires
        0 <= p <= s.len(),
        forall|m: int| p <= m < s.len() ==> (#[trigger] s[m]).amount.val() < r.amount.val(),
        p == 0 || s[p - 1].amount.val() >= r.amount.val(),
    ensures
        insert_desc(s, r) == s.take(p) + seq![r] + s.skip(p),
    decreases s.len(),
{
    if s.len() == 0 {
        assert(insert_desc(s, r) =~= s.take(p) + seq![r] + s.skip(p));
    } else if p == s.len() {
        assert(insert_desc(s, r) == s.push(r));
        assert(s.push(r) =~= s.take(p) + seq![r] + s.skip(p));
    } else {
        assert(s.last().amount.val() < r.amount.val());
        assert(forall|m: int|
            p <= m < s.drop_last().len() ==> (#[trigger] s.drop_last()[m]).amount.val()
                < r.amount.val());
        assert(p == 0 || s.drop_last()[p - 1].amount.val() >= r.amount.val());
        lemma_insert_desc_at(s.drop_last(), r, p);
        assert(insert_desc(s, r) == insert_desc(s.drop_last(), r).push(s.last()));
        assert((s.drop_last().take(p) + seq![r] + s.drop_last().skip(p)).push(s.last()) =~= s.take(
            p,
        ) + seq![r] + s.skip(p));
    }
}

/// Insert one row into a vector held in descending amount order, after any
/// rows of equal amount.
fn insert_row(v: &Vec<LedgerResponse>, row: LedgerResponse) -> (r: Vec<LedgerResponse>)
    requires
        forall|m: int| 0 <= m < v@.len() ==> (#[trigger] v@[m])@.amount.wf(),
        row@.amount.wf(),
    ensures
        rows_view(r@) == insert_desc(rows_view(v@), row@),
        forall|m: int| 0 <= m < r@.len() ==> (#[trigger] r@[m])@.amount.wf(),
{
    let ghost sv = rows_view(v@);
    let ghost rv = row@;
    let mut idx: usize = v.len();
    while idx > 0 && !val_ge(v[idx - 1].amount, row.amount)
        invariant
            idx <= v.len(),
            sv == rows_view(v@),
            rv == row@,
            forall|m: int| 0 <= m < v@.len() ==> (#[trigger] v@[m])@.amount.wf(),
            row@.amount.wf(),
            forall|m: int|
                idx <= m < sv.len() ==> (#[trigger] sv[m]).amount.val() < rv.amount.val(),
        decreases idx,
    {
        proof {
            assert(sv[idx - 1] == v@[idx - 1]@);
        }
        idx = idx - 1;
    }
    proof {
        if idx > 0 {
            assert(sv[idx - 1] == v@[idx - 1]@);
        }
        lemma_insert_desc_at(sv, rv, idx as int);
    }
    let mut out: Vec<LedgerResponse> = Vec::new();
    let mut i: usize = 0;
    while i < idx
        invariant
            i <= idx <= v.len(),
            sv == rows_view(v@),
            out@.len() == i,
            forall|m: int| 0 <= m < i ==> (#[trigger] out@[m])@ == sv[m],
            forall|m: int| 0 <= m < v@.len() ==> (#[trigger] v@[m])@.amount.wf(),
            forall|m: int| 0 <= m < out@.len() ==> (#[trigger] out@[m])@.amount.wf(),
        decreases idx - i,
    {
        proof {
            assert(sv[i as int] == v@[i as int]@);
        }
        out.push(clone_row(&v[i]));
        i = i + 1;
    }
    out.push(row);
    let mut j: usize = idx;
    while j < v.len()
        invariant
            idx <= j <= v.len(),
            sv == rows_view(v@),
            rv == row@,
            rv.amount.wf(),
            out@.len() == idx + 1 + (j - idx),
            forall|m: int| 0 <= m < idx ==> (#[trigger] out@[m])@ == sv[m],
            out@[idx as int]@ == rv,
            forall|m: int| idx < m < out@.len() ==> (#[trigger] out@[m])@ == sv[m - 1],
            forall|m: int| 0 <= m < v@.len() ==> (#[trigger] v@[m])@.amount.wf(),
            forall|m: int| 0 <= m < out@.len() ==> (#[trigger] out@[m])@.amount.wf(),
        decreases v.len() - j,
    {
        proof {
            assert(sv[j as int] == v@[j as int]@);
        }
        out.push(clone_row(&v[j]));
        j = j + 1;
    }
    proof {
        assert(rows_view(out@) =~= sv.take(idx as int) + seq![rv] + sv.skip(idx as int));
    }
    out
}

/// Sort rows by amount, largest first; ties keep their earlier order.
fn sort_rows(rows: &Vec<LedgerResponse>) -> (r: Vec<LedgerResponse>)
    requires
        forall|m: int| 0 <= m < rows@.len() ==> (#[trigger] rows@[m])@.amount.wf(),
    ensures
        rows_view(r@) == sort_desc(rows_view(rows@)),
{
    let ghost sv = rows_view(rows@);
    let mut out: Vec<LedgerResponse> = Vec::new();
    proof {
        assert(sv.take(0) =~= Seq::<RowV>::empty());
        assert(rows_view(out@) =~= Seq::<RowV>::empty());
        assert(rows_view(Seq::<LedgerResponse>::empty()) =~= Seq::<RowV>::empty());
    }
    let mut i: usize = 0;
    while i < rows.len()
        invariant
            i <= rows.len(),
            sv == rows_view(rows@),
            forall|m: int| 0 <= m < rows@.len() ==> (#[trigger] rows@[m])@.amount.wf(),
            rows_view(out@) == sort_desc(sv.take(i as int)),
            forall|m: int| 0 <= m < out@.len() ==> (#[trigger] out@[m])@.amount.wf(),
        decreases rows.len() - i,
    {
        proof {
            assert(sv[i as int] == rows@[i as int]@);
            assert(sv.take(i + 1).drop_last() =~= sv.take(i as int));
            assert(sv.take(i + 1).last() == sv[i as int]);
        }
        let next = insert_row(&out, clone_row(&rows[i]));
        out = next;
        i = i + 1;
    }
    proof {
        assert(sv.take(sv.len() as int) =~= sv);
    }
    out
}


/// Rows in descending amount order: every earlier row carries at least the
/// amount of every later one.
pub open spec fn sorted_desc(s: Seq<RowV>) -> bool {
    forall|i: int, j: int|
        0 <= i <= j < s.len() ==> (#[trigger] s[i]).amount.val() >= (#[trigger] s[j]).amount.val()
}

proof fn lemma_insert_desc_sorted(s: Seq<RowV>, r: RowV)
    requires
        sorted_desc(s),
    ensures
        sorted_desc(insert_desc(s, r)),
        forall|k: int|
            0 <= k < insert_desc(s, r).len() ==> (#[trigger] insert_desc(s, r)[k]) == r
                || s.contains(insert_desc(s, r)[k]),
    decreases s.len(),
{
    let t = insert_desc(s, r);
    if s.len() == 0 {
    } else if s.last().amount.val() >= r.amount.val() {
        assert(t == s.push(r));
        assert forall|i: int, j: int| 0 <= i <= j < t.len() implies (#[trigger] t[i]).amount.val()
            >= (#[trigger] t[j]).amount.val() by {
            if j == t.len() - 1 {
                if i < s.len() {
                    assert(s[i].amount.val() >= s[s.len() - 1].amount.val());
                }
            }
        }
        assert forall|k: int| 0 <= k < t.len() implies (#[trigger] t[k]) == r || s.contains(
            t[k],
        ) by {
            if k < s.len() {
                assert(t[k] == s[k]);
            }
        }
    } else {
        assert(forall|i: int, j: int|
            0 <= i <= j < s.drop_last().len() ==> (#[trigger] s.drop_last()[i]).amount.val() >= (
            #[trigger] s.drop_last()[j]).amount.val());
        lemma_insert_desc_sorted(s.drop_last(), r);
        let t2 = insert_desc(s.drop_last(), r);
        assert(t == t2.push(s.last()));
        assert forall|k: int| 0 <= k < t.len() implies (#[trigger] t[k]) == r || s.contains(
            t[k],
        ) by {
            if k < t2.len() {
                assert(t[k] == t2[k]);
                if t2[k] != r {
                    assert(s.drop_last().contains(t2[k]));
                    let m = choose|m: int|
                        0 <= m < s.drop_last().len() && s.drop_last()[m] == t2[k];
                    assert(s[m] == t2[k]);
                }
            } else {
                assert(t[k] == s[s.len() - 1]);
            }
        }
        assert forall|i: int, j: int| 0 <= i <= j < t.len() implies (#[trigger] t[i]).amount.val()
            >= (#[trigger] t[j]).amount.val() by {
            if j == t.len() - 1 && i < t2.len() {
                // everything inserted so far is r or an element of the sorted
                // sequence, and both lie above its last element
                assert(t2[i] == r || s.contains(t2[i]));
                if t2[i] != r {
                    let m = choose|m: int| 0 <= m < s.len() && s[m] == t2[i];
                    assert(s[m].amount.val() >= s[s.len() - 1].amount.val());
                }
            }
        }
    }
}

/// The split ordering law: the report's rows come sorted by amount, largest
/// first.
pub proof fn lemma_sort_desc_sorted(rows: Seq<RowV>)
    ensures
        sorted_desc(sort_desc(rows)),
    decreases rows.len(),
{
    if rows.len() > 0 {
        lemma_sort_desc_sorted(rows.drop_last());
        lemma_insert_desc_sorted(sort_desc(rows.drop_last()), rows.last());
    }
}


/// The plain integer total of a row sequence's amounts.
pub open spec fn row_val_sum(rows: Seq<RowV>) -> int
    decreases rows.len(),
{
    if rows.len() == 0 {
        0
    } else {
        row_val_sum(rows.drop_last()) + rows.last().amount.val()
    }
}

proof fn lemma_insert_desc_val_sum(s: Seq<RowV>, r: RowV)
    ensures
        row_val_sum(insert_desc(s, r)) == row_val_sum(s) + r.amount.val(),
    decreases s.len(),
{
    if s.len() == 0 {
        assert(insert_desc(s, r).drop_last() =~= s);
    } else if s.last().amount.val() >= r.amount.val() {
        assert(insert_desc(s, r) == s.push(r));
        assert(s.push(r).drop_last() =~= s);
    } else {
        lemma_insert_desc_val_sum(s.drop_last(), r);
        let t = insert_desc(s.drop_last(), r);
        assert(insert_desc(s, r) == t.push(s.last()));
        assert(t.push(s.last()).drop_last() =~= t);
    }
}

/// Sorting rearranges the rows only, so their total is kept.
pub proof fn lemma_sort_desc_val_sum(rows: Seq<RowV>)
    ensures
        row_val_sum(sort_desc(rows)) == row_val_sum(rows),
    decreases rows.len(),
{
    if rows.len() > 0 {
        lemma_sort_desc_val_sum(rows.drop_last());
        lemma_insert_desc_val_sum(sort_desc(rows.drop_last()), rows.last());
    }
}

proof fn lemma_child_amounts_wf(es: Seq<EntryV>, pre: Seq<char>, seg: Seq<char>, native: Seq<char>)
    requires
        entries_wf(es),
    ensures
        forall|i: int|
            0 <= i < child_amounts(es, pre, seg, native).len() ==> (#[trigger] child_amounts(
                es,
                pre,
                seg,
                native,
            )[i]).wf(),
{
    let f = |e: EntryV| in_child(e.account, pre, seg) && e.commodity == native;
    assert forall|i: int| 0 <= i < child_amounts(es, pre, seg, native).len() implies (
    #[trigger] child_amounts(es, pre, seg, native)[i]).wf() by {
        let w = es.filter(f)[i];
        assert(es.filter(f).contains(w));
        assert(es.contains(w));
        let j = choose|j: int| 0 <= j < es.len() && es[j] == w;
        assert(es[j].wf());
    }
}

proof fn lemma_split_rows_val(
    es: Seq<EntryV>,
    pre: Seq<char>,
    native: Seq<char>,
    segs: Seq<Seq<char>>,
)
    requires
        entries_wf(es),
        split_rows_unsorted(es, pre, native, segs) is Ok,
    ensures
        row_val_sum(split_rows_unsorted(es, pre, native, segs)->Ok_0) == children_val_sum(
            es,
            pre,
            native,
            segs,
        ),
    decreases segs.len(),
{
    if segs.len() > 0 {
        lemma_split_rows_val(es, pre, native, segs.drop_last());
        let rs = split_rows_unsorted(es, pre, native, segs.drop_last())->Ok_0;
        let row = seg_row(es, pre, native, segs.last())->Ok_0;
        assert(split_rows_unsorted(es, pre, native, segs)->Ok_0 == rs.push(row));
        assert(rs.push(row).drop_last() =~= rs);
        lemma_child_amounts_wf(es, pre, segs.last(), native);
        lemma_sum_qty_val(child_amounts(es, pre, segs.last(), native));
    }
}

/// The split law at the emitted rows: where the prefix account carries no
/// direct posting in the display commodity, the amounts of the rows the
/// split report returns add up exactly to the subtree total of the prefix.
pub proof fn lemma_split_total(d: DocV, pre: Seq<char>, native: Seq<char>)
    requires
        d.wf(),
        spec_split(d, pre, native) is Ok,
        forall|i: int|
            0 <= i < all_entries(d.items).len() ==> !((#[trigger] all_entries(
                d.items,
            )[i]).account == pre && all_entries(d.items)[i].commodity == native),
    ensures
        row_val_sum(spec_split(d, pre, native)->Ok_0) == val_sum(
            subtree_amounts(all_entries(d.items), pre, native),
        ),
{
    let es = all_entries(d.items);
    lemma_all_entries_wf(d.items);
    let unsorted = split_rows_unsorted(es, pre, native, children_of(es, pre))->Ok_0;
    lemma_split_rows_val(es, pre, native, children_of(es, pre));
    lemma_sort_desc_val_sum(unsorted);
    lemma_split_partition(es, pre, native);
}

/// The split report: one row per immediate child account under the prefix,
/// each carrying the child subtree's total in the display commodity, sorted
/// by amount descending.
pub fn split_report(d: &LedgerDocument, account_path: &String, native: &String) -> (r: Result<
    Vec<LedgerResponse>,
    LedgerError,
>)
    requires
        d@.wf(),
    ensures
        r matches Ok(rows) ==> spec_split(d@, account_path@, native@) == Ok::<
            Seq<RowV>,
            LedgerError,
        >(rows_view(rows@)),
        r matches Err(e) ==> spec_split(d@, account_path@, native@) == Err::<
            Seq<RowV>,
            LedgerError,
        >(e),
{
    let es = collect_entries(d);
    let ghost esv = vec_entries(es@);
    proof {
        assert(esv == es@.map_values(|e: Entry| e@));
    }
    // does the prefix name a node at all?
    let mut found = false;
    let mut i: usize = 0;
    while i < es.len()
        invariant
            i <= es.len(),
            esv == vec_entries(es@),
            esv == es@.map_values(|e: Entry| e@),
            found ==> node_exists(esv, account_path@),
            !found ==> forall|j: int|
                0 <= j < i ==> !subtree_match((#[trigger] esv[j]).account, account_path@),
        decreases es.len() - i,
    {
        proof {
            assert(esv[i as int] == es@[i as int]@);
        }
        if subtree_match_exec(&es[i].account, account_path) {
            found = true;
        }
        i = i + 1;
    }
    if !found {
        return Err(LedgerError::NoSuchAccount);
    }
    let lp = account_path.as_str().unicode_len();
    let segs = children_list(&es, account_path);
    let ghost segsv = segs@.map_values(|s: String| s@);
    let mut unsorted: Vec<LedgerResponse> = Vec::new();
    proof {
        assert(segsv.take(0) =~= Seq::<Seq<char>>::empty());
        assert(rows_view(unsorted@) =~= Seq::<RowV>::empty());
    }
    let mut j: usize = 0;
    while j < segs.len()
        invariant
            j <= segs.len(),
            esv == vec_entries(es@),
            esv == es@.map_values(|e: Entry| e@),
            esv == all_entries(d@.items),
            entries_wf(esv),
            lp == account_path@.len(),
            segsv == segs@.map_values(|s: String| s@),
            segsv == children_of(esv, account_path@),
            node_exists(esv, account_path@),
            split_rows_unsorted(esv, account_path@, native@, segsv.take(j as int)) == Ok::<
                Seq<RowV>,
                LedgerError,
            >(rows_view(unsorted@)),
            forall|m: int| 0 <= m < unsorted@.len() ==> (#[trigger] unsorted@[m])@.amount.wf(),
        decreases segs.len() - j,
    {
        proof {
            assert(segsv[j as int] == segs@[j as int]@);
            assert(segsv.take(j + 1).drop_last() =~= segsv.take(j as int));
            assert(segsv.take(j + 1).last() == segsv[j as int]);
        }
        if !has_child_amount(&es, account_path, lp, &segs[j], native) {
            proof {
                lemma_split_rows_prefix_err(esv, account_path@, native@, segsv, j as int);
            }
            return Err(LedgerError::NoSuchCommodity);
        }
        match sum_child(&es, account_path, lp, &segs[j], native) {
            Err(e) => {
                proof {
                    lemma_split_rows_prefix_err(esv, account_path@, native@, segsv, j as int);
                }
                return Err(e);
            },
            Ok(q) => {
                let ghost prevrows = rows_view(unsorted@);
                let row = LedgerResponse {
                    date: None,
                    amount: q,
                    account: Some(crate::doc::clone_string(&segs[j])),
                };
                let ghost rv = row@;
                unsorted.push(row);
                proof {
                    assert(rows_view(unsorted@) =~= prevrows.push(rv));
                }
            },
        }
        j = j + 1;
    }
    proof {
        assert(segsv.take(segsv.len() as int) =~= segsv);
    }
    let sorted = sort_rows(&unsorted);
    Ok(sorted)
}


// ---------------------------------------------------------------------------
// The split partition law
// ---------------------------------------------------------------------------
/// The plain integer total of a sequence of quantity values.
pub open spec fn val_sum(qs: Seq<Qty>) -> int
    decreases qs.len(),
{
    if qs.len() == 0 {
        0
    } else {
        val_sum(qs.drop_last()) + qs.last().val()
    }
}

/// A carried fold computes exactly the integer total.
pub proof fn lemma_sum_qty_val(qs: Seq<Qty>)
    requires
        forall|i: int| 0 <= i < qs.len() ==> (#[trigger] qs[i]).wf(),
        sum_qty(qs) is Some,
    ensures
        sum_qty(qs)->Some_0.val() == val_sum(qs),
    decreases qs.len(),
{
    if qs.len() > 0 {
        assert(forall|i: int| 0 <= i < qs.drop_last().len() ==> (#[trigger] qs.drop_last()[i]).wf());
        lemma_sum_qty_val(qs.drop_last());
        lemma_sum_wf(qs.drop_last());
        crate::qty::lemma_spec_add_val(sum_qty(qs.drop_last())->Some_0, qs.last());
    }
}

/// The children's subtree totals, added over a list of child segments.
pub open spec fn children_val_sum(
    es: Seq<EntryV>,
    pre: Seq<char>,
    native: Seq<char>,
    segs: Seq<Seq<char>>,
) -> int
    decreases segs.len(),
{
    if segs.len() == 0 {
        0
    } else {
        children_val_sum(es, pre, native, segs.drop_last()) + val_sum(
            child_amounts(es, pre, segs.last(), native),
        )
    }
}

/// The display-commodity quantities aggregated over the whole subtree at the
/// prefix, the prefix account itself included.
pub open spec fn subtree_amounts(es: Seq<EntryV>, pre: Seq<char>, native: Seq<char>) -> Seq<Qty> {
    es.filter(|e: EntryV| subtree_match(e.account, pre) && e.commodity == native).map_values(
        |e: EntryV| e.qty,
    )
}

proof fn lemma_dedup_first_contains(s: Seq<Seq<char>>, x: Seq<char>)
    ensures
        dedup_first(s).contains(x) == s.contains(x),
    decreases s.len(),
{
    if s.len() > 0 {
        lemma_dedup_first_contains(s.drop_last(), x);
        let rest = dedup_first(s.drop_last());
        assert(s.contains(x) == (s.drop_last().contains(x) || s.last() == x)) by {
            if s.contains(x) {
                let j = choose|j: int| 0 <= j < s.len() && s[j] == x;
                if j < s.len() - 1 {
                    assert(s.drop_last()[j] == x);
                }
            }
            if s.drop_last().contains(x) {
                let j = choose|j: int| 0 <= j < s.drop_last().len() && s.drop_last()[j] == x;
                assert(s[j] == x);
            }
            if s.last() == x {
                assert(s[s.len() - 1] == x);
            }
        }
        if !rest.contains(s.last()) {
            assert(dedup_first(s).contains(x) == (rest.contains(x) || s.last() == x)) by {
                if rest.contains(x) {
                    let j = choose|j: int| 0 <= j < rest.len() && rest[j] == x;
                    assert(dedup_first(s)[j] == x);
                }
                if s.last() == x {
                    assert(dedup_first(s)[dedup_first(s).len() - 1] == x);
                }
                if dedup_first(s).contains(x) {
                    let j = choose|j: int|
                        0 <= j < dedup_first(s).len() && dedup_first(s)[j] == x;
                    if j < dedup_first(s).len() - 1 {
                        assert(rest[j] == x);
                    }
                }
            }
        }
    }
}

proof fn lemma_dedup_first_distinct(s: Seq<Seq<char>>)
    ensures
        forall|i: int, j: int|
            0 <= i < j < dedup_first(s).len() ==> dedup_first(s)[i] != dedup_first(s)[j],
    decreases s.len(),
{
    if s.len() > 0 {
        lemma_dedup_first_distinct(s.drop_last());
        let rest = dedup_first(s.drop_last());
        if !rest.contains(s.last()) {
            assert forall|i: int, j: int|
                0 <= i < j < dedup_first(s).len() implies dedup_first(s)[i] != dedup_first(
                s,
            )[j] by {
                if j == dedup_first(s).len() - 1 {
                    assert(rest.contains(rest[i]));
                }
            }
        }
    }
}

proof fn lemma_children_sum_step(
    es: Seq<EntryV>,
    pre: Seq<char>,
    native: Seq<char>,
    segs: Seq<Seq<char>>,
)
    requires
        es.len() > 0,
        forall|i: int, j: int| 0 <= i < j < segs.len() ==> segs[i] != segs[j],
    ensures
        children_val_sum(es, pre, native, segs) == children_val_sum(
            es.drop_last(),
            pre,
            native,
            segs,
        ) + (if strict_under(es.last().account, pre) && es.last().commodity == native
            && segs.contains(child_seg(es.last().account, pre)) {
            es.last().qty.val()
        } else {
            0
        }),
    decreases segs.len(),
{
    let e = es.last();
    if segs.len() == 0 {
    } else {
        assert(forall|i: int, j: int|
            0 <= i < j < segs.drop_last().len() ==> segs.drop_last()[i] != segs.drop_last()[j]);
        lemma_children_sum_step(es, pre, native, segs.drop_last());
        let sg = segs.last();
        let f = |e2: EntryV| in_child(e2.account, pre, sg) && e2.commodity == native;
        let g = |e2: EntryV| e2.qty;
        assert(es =~= es.drop_last().push(e));
        assert(es.drop_last().push(e).filter(f) == if f(e) {
            es.drop_last().filter(f).push(e)
        } else {
            es.drop_last().filter(f)
        });
        if f(e) {
            let ca1 = child_amounts(es.drop_last(), pre, sg, native);
            assert(child_amounts(es, pre, sg, native) =~= ca1.push(e.qty));
            assert(ca1.push(e.qty).drop_last() =~= ca1);
            assert(ca1.push(e.qty).last() == e.qty);
            assert(val_sum(child_amounts(es, pre, sg, native)) == val_sum(
                child_amounts(es.drop_last(), pre, sg, native),
            ) + e.qty.val());
            // the segment that takes this entry is this one; distinctness keeps
            // it out of the earlier segments
            assert(segs.contains(sg)) by {
                assert(segs[segs.len() - 1] == sg);
            }
            if segs.drop_last().contains(child_seg(e.account, pre)) {
                let j = choose|j: int|
                    0 <= j < segs.drop_last().len() && segs.drop_last()[j] == child_seg(
                        e.account,
                        pre,
                    );
                assert(segs[j] == segs[segs.len() - 1]);
                assert(false);
            }
        } else {
            assert(child_amounts(es, pre, sg, native) =~= child_amounts(
                es.drop_last(),
                pre,
                sg,
                native,
            ));
            if strict_under(e.account, pre) && e.commodity == native && segs.contains(
                child_seg(e.account, pre),
            ) {
                let cs = child_seg(e.account, pre);
                if cs == sg {
                    assert(f(e));
                    assert(false);
                } else {
                    let j = choose|j: int| 0 <= j < segs.len() && segs[j] == cs;
                    assert(j < segs.len() - 1);
                    assert(segs.drop_last()[j] == cs);
                    assert(segs.drop_last().contains(cs));
                }
            }
        }
    }
}

proof fn lemma_children_sum_empty(pre: Seq<char>, native: Seq<char>, segs: Seq<Seq<char>>)
    ensures
        children_val_sum(Seq::<EntryV>::empty(), pre, native, segs) == 0,
    decreases segs.len(),
{
    if segs.len() > 0 {
        lemma_children_sum_empty(pre, native, segs.drop_last());
        let f = |e2: EntryV| in_child(e2.account, pre, segs.last()) && e2.commodity == native;
        assert(Seq::<EntryV>::empty().filter(f).len() <= 0);
        assert(child_amounts(Seq::<EntryV>::empty(), pre, segs.last(), native).len() == 0);
    }
}

proof fn lemma_partition_helper(
    es: Seq<EntryV>,
    pre: Seq<char>,
    native: Seq<char>,
    segs: Seq<Seq<char>>,
)
    requires
        forall|i: int, j: int| 0 <= i < j < segs.len() ==> segs[i] != segs[j],
        forall|i: int|
            0 <= i < es.len() && strict_under((#[trigger] es[i]).account, pre) && es[i].commodity
                == native ==> segs.contains(child_seg(es[i].account, pre)),
        forall|i: int|
            0 <= i < es.len() ==> !((#[trigger] es[i]).account == pre && es[i].commodity
                == native),
    ensures
        children_val_sum(es, pre, native, segs) == val_sum(subtree_amounts(es, pre, native)),
    decreases es.len(),
{
    let f = |e2: EntryV| subtree_match(e2.account, pre) && e2.commodity == native;
    if es.len() == 0 {
        assert(es =~= Seq::<EntryV>::empty());
        lemma_children_sum_empty(pre, native, segs);
        assert(es.filter(f).len() <= 0);
        assert(subtree_amounts(es, pre, native).len() == 0);
    } else {
        let e = es.last();
        assert(forall|i: int|
            0 <= i < es.drop_last().len() && strict_under(
                (#[trigger] es.drop_last()[i]).account,
                pre,
            ) && es.drop_last()[i].commodity == native ==> segs.contains(
                child_seg(es.drop_last()[i].account, pre),
            ));
        assert(forall|i: int|
            0 <= i < es.drop_last().len() ==> !((#[trigger] es.drop_last()[i]).account == pre
                && es.drop_last()[i].commodity == native));
        lemma_partition_helper(es.drop_last(), pre, native, segs);
        lemma_children_sum_step(es, pre, native, segs);
        assert(es =~= es.drop_last().push(e));
        assert(es.drop_last().push(e).filter(f) == if f(e) {
            es.drop_last().filter(f).push(e)
        } else {
            es.drop_last().filter(f)
        });
        assert(e == es[es.len() - 1]);
        if f(e) {
            assert(!(e.account == pre && e.commodity == native));
            assert(strict_under(e.account, pre));
            assert(segs.contains(child_seg(e.account, pre)));
            let sa1 = subtree_amounts(es.drop_last(), pre, native);
            assert(subtree_amounts(es, pre, native) =~= sa1.push(e.qty));
            assert(sa1.push(e.qty).drop_last() =~= sa1);
            assert(sa1.push(e.qty).last() == e.qty);
            assert(val_sum(subtree_amounts(es, pre, native)) == val_sum(sa1) + e.qty.val());
        } else {
            assert(subtree_amounts(es, pre, native) =~= subtree_amounts(
                es.drop_last(),
                pre,
                native,
            ));
            assert(!(strict_under(e.account, pre) && e.commodity == native));
            assert(children_val_sum(es, pre, native, segs) == children_val_sum(
                es.drop_last(),
                pre,
                native,
                segs,
            ));
        }
    }
}

/// The split law: where the prefix account itself carries no direct posting
/// in the display commodity, the children's subtree totals add up exactly to
/// the subtree total of the prefix.
pub proof fn lemma_split_partition(es: Seq<EntryV>, pre: Seq<char>, native: Seq<char>)
    requires
        forall|i: int|
            0 <= i < es.len() ==> !((#[trigger] es[i]).account == pre && es[i].commodity
                == native),
    ensures
        children_val_sum(es, pre, native, children_of(es, pre)) == val_sum(
            subtree_amounts(es, pre, native),
        ),
{
    let under = |e2: EntryV| strict_under(e2.account, pre);
    let m = |e2: EntryV| child_seg(e2.account, pre);
    let segs = children_of(es, pre);
    lemma_dedup_first_distinct(es.filter(under).map_values(m));
    assert forall|i: int|
        0 <= i < es.len() && strict_under((#[trigger] es[i]).account, pre) && es[i].commodity
            == native implies segs.contains(child_seg(es[i].account, pre)) by {
        assert(under(es[i]));
        assert(es.filter(under).contains(es[i]));
        let j = choose|j: int| 0 <= j < es.filter(under).len() && es.filter(under)[j] == es[i];
        assert(es.filter(under).map_values(m)[j] == child_seg(es[i].account, pre));
        assert(es.filter(under).map_values(m).contains(child_seg(es[i].account, pre)));
        lemma_dedup_first_contains(es.filter(under).map_values(m), child_seg(es[i].account, pre));
    }
    lemma_partition_helper(es, pre, native, segs);
}


proof fn lemma_filter_id(s: Seq<KeyComV>, pred: spec_fn(KeyComV) -> bool)
    requires
        forall|m: int| 0 <= m < s.len() ==> pred(#[trigger] s[m]),
    ensures
        s.filter(pred) == s,
    decreases s.len(),
{
    if s.len() > 0 {
        assert(forall|m: int| 0 <= m < s.drop_last().len() ==> pred(#[trigger] s.drop_last()[m]));
        lemma_filter_id(s.drop_last(), pred);
        assert(pred(s[s.len() - 1]));
        assert(s.drop_last().push(s.last()) =~= s);
        assert(s.filter(pred) =~= s);
    }
}

/// With a single commodity throughout, row `i` accumulates simply the first
/// `i + 1` months.
proof fn lemma_chain_keys_single(ps: Seq<KeyComV>, c: Seq<char>, i: int)
    requires
        0 <= i < ps.len(),
        forall|m: int| 0 <= m < ps.len() ==> (#[trigger] ps[m]).commodity == c,
    ensures
        chain_keys(ps, i) == ps.take(i + 1).map_values(|p: KeyComV| p.key),
{
    let pred = |p: KeyComV| p.commodity == ps[i].commodity;
    assert forall|m: int| 0 <= m < ps.take(i + 1).len() implies pred(
        #[trigger] ps.take(i + 1)[m],
    ) by {
        assert(ps.take(i + 1)[m] == ps[m]);
    }
    lemma_filter_id(ps.take(i + 1), pred);
}

/// Each emitted cashflow row's amount is the carried running total of its
/// pair's months.
proof fn lemma_cashflow_row_amount(
    es: Seq<EntryV>,
    account: Seq<char>,
    ps: Seq<KeyComV>,
    n: int,
    m: int,
)
    requires
        0 <= m < n <= ps.len(),
        cashflow_rows_from(es, account, ps, n) is Some,
    ensures
        cashflow_rows_from(es, account, ps, n)->Some_0.len() == n,
        chain_sum(es, account, chain_keys(ps, m), ps[m].commodity) is Some,
        cashflow_rows_from(es, account, ps, n)->Some_0[m].amount == chain_sum(
            es,
            account,
            chain_keys(ps, m),
            ps[m].commodity,
        )->Some_0,
    decreases n,
{
    let rows = cashflow_rows_from(es, account, ps, n)->Some_0;
    let rs = cashflow_rows_from(es, account, ps, n - 1)->Some_0;
    if m < n - 1 {
        lemma_cashflow_row_amount(es, account, ps, n - 1, m);
        assert(rows == rs.push(rows.last()));
        assert(rows[m] == rs[m]);
    } else {
        assert(rows == rs.push(
            RowV {
                date: Some(month_end_of_key(ps[n - 1].key)),
                amount: chain_sum(es, account, chain_keys(ps, n - 1), ps[n - 1].commodity)->Some_0,
                account: Some(account),
            },
        ));
        lemma_cashflow_rows_len(es, account, ps, n - 1);
        assert(rows[m] == rows.last());
    }
}

proof fn lemma_cashflow_rows_len(es: Seq<EntryV>, account: Seq<char>, ps: Seq<KeyComV>, n: int)
    requires
        0 <= n <= ps.len(),
        cashflow_rows_from(es, account, ps, n) is Some,
    ensures
        cashflow_rows_from(es, account, ps, n)->Some_0.len() == n,
    decreases n,
{
    if n > 0 {
        lemma_cashflow_rows_len(es, account, ps, n - 1);
    }
}

/// The cashflow law at the emitted rows: for an account whose monthly
/// changes in the one commodity present are all nonnegative, the report's
/// amounts never decrease from row to row.
pub proof fn lemma_cashflow_rows_monotone(
    es: Seq<EntryV>,
    account: Seq<char>,
    ps: Seq<KeyComV>,
    c: Seq<char>,
    i: int,
    j: int,
)
    requires
        entries_wf(es),
        forall|m: int| 0 <= m < ps.len() ==> (#[trigger] ps[m]).commodity == c,
        forall|m: int|
            0 <= m < ps.len() ==> ((#[trigger] sum_qty(
                month_amounts(es, account, ps[m].key, c),
            )) matches Some(q) && q.val() >= 0),
        0 <= i <= j < ps.len(),
        cashflow_rows_from(es, account, ps, ps.len() as int) is Some,
    ensures
        cashflow_rows_from(es, account, ps, ps.len() as int)->Some_0[i].amount.val()
            <= cashflow_rows_from(es, account, ps, ps.len() as int)->Some_0[j].amount.val(),
{
    let n = ps.len() as int;
    let ks = ps.map_values(|p: KeyComV| p.key);
    lemma_cashflow_row_amount(es, account, ps, n, i);
    lemma_cashflow_row_amount(es, account, ps, n, j);
    lemma_chain_keys_single(ps, c, i);
    lemma_chain_keys_single(ps, c, j);
    assert(ps[i].commodity == c);
    assert(ps[j].commodity == c);
    let ksj = ks.take(j + 1);
    assert(ps.take(j + 1).map_values(|p: KeyComV| p.key) =~= ksj);
    assert(ps.take(i + 1).map_values(|p: KeyComV| p.key) =~= ksj.take(i + 1));
    assert(ksj.take(j + 1) =~= ksj);
    assert(chain_sum(es, account, ksj, c) is Some);
    assert forall|m: int| 0 <= m < ksj.len() implies ((#[trigger] sum_qty(
        month_amounts(es, account, ksj[m], c),
    )) matches Some(q) && q.val() >= 0) by {
        assert(ksj[m] == ps[m].key);
        assert((sum_qty(month_amounts(es, account, ps[m].key, c))) matches Some(q) && q.val()
            >= 0);
    }
    lemma_cashflow_monotone(es, account, ksj, c, i + 1, j + 1);
}


// ---------------------------------------------------------------------------
// Order independence of the aggregates
// ---------------------------------------------------------------------------
proof fn lemma_val_sum_remove(qs: Seq<Qty>, i: int)
    requires
        0 <= i < qs.len(),
    ensures
        val_sum(qs.remove(i)) == val_sum(qs) - qs[i].val(),
    decreases qs.len(),
{
    if i == qs.len() - 1 {
        assert(qs.remove(i) =~= qs.drop_last());
    } else {
        assert(qs.remove(i).drop_last() =~= qs.drop_last().remove(i));
        assert(qs.remove(i).last() == qs.last());
        lemma_val_sum_remove(qs.drop_last(), i);
    }
}

/// The total of a sequence of quantities depends only on its multiset.
proof fn lemma_val_sum_permutation(a: Seq<Qty>, b: Seq<Qty>)
    requires
        a.to_multiset() == b.to_multiset(),
    ensures
        val_sum(a) == val_sum(b),
    decreases a.len(),
{
    broadcast use vstd::seq_lib::group_to_multiset_ensures;

    if a.len() == 0 {
        assert(b.to_multiset().len() == 0);
    } else {
        let x = a.last();
        assert(a.contains(x));
        assert(b.to_multiset().count(x) > 0);
        assert(b.contains(x));
        let j = choose|j: int| 0 <= j < b.len() && b[j] == x;
        assert(a.drop_last().push(x) =~= a);
        assert(a.drop_last().to_multiset().insert(x) =~= a.to_multiset());
        assert(b.remove(j).to_multiset() =~= b.to_multiset().remove(x));
        assert(a.drop_last().to_multiset() =~= b.remove(j).to_multiset());
        lemma_val_sum_permutation(a.drop_last(), b.remove(j));
        lemma_val_sum_remove(b, j);
    }
}

/// A filtered-and-projected amount sequence depends, as a multiset, only on
/// the entry multiset.
proof fn lemma_filtered_amounts_multiset(es1: Seq<EntryV>, es2: Seq<EntryV>, pred: spec_fn(EntryV) -> bool)
    requires
        es1.to_multiset() == es2.to_multiset(),
    ensures
        es1.filter(pred).map_values(|e: EntryV| e.qty).to_multiset() == es2.filter(
            pred,
        ).map_values(|e: EntryV| e.qty).to_multiset(),
    decreases es1.len(),
{
    broadcast use vstd::seq_lib::group_to_multiset_ensures;

    let g = |e: EntryV| e.qty;
    if es1.len() == 0 {
        assert(es2.to_multiset().len() == 0);
        assert(es1.filter(pred).len() <= 0);
        assert(es2.filter(pred).len() <= 0);
        assert(es1.filter(pred).map_values(g) =~= es2.filter(pred).map_values(g));
    } else {
        let x = es1.last();
        assert(es1.contains(x));
        assert(es2.to_multiset().count(x) > 0);
        assert(es2.contains(x));
        let j = choose|j: int| 0 <= j < es2.len() && es2[j] == x;
        assert(es1.drop_last().push(x) =~= es1);
        assert(es1.drop_last().to_multiset().insert(x) =~= es1.to_multiset());
        assert(es2.remove(j).to_multiset() =~= es2.to_multiset().remove(x));
        assert(es1.drop_last().to_multiset() =~= es2.remove(j).to_multiset());
        lemma_filtered_amounts_multiset(es1.drop_last(), es2.remove(j), pred);
        // the one entry x contributes the same on both sides
        let a1 = es1.drop_last().filter(pred).map_values(g);
        let m2 = es2.remove(j).filter(pred).map_values(g);
        assert(es1.filter(pred) == if pred(x) {
            es1.drop_last().filter(pred).push(x)
        } else {
            es1.drop_last().filter(pred)
        });
        let pre = es2.take(j);
        let post = es2.skip(j + 1);
        assert(es2 =~= pre + (seq![x] + post));
        assert(es2.remove(j) =~= pre + post);
        Seq::filter_distributes_over_add(pre, seq![x] + post, pred);
        Seq::filter_distributes_over_add(seq![x], post, pred);
        Seq::filter_distributes_over_add(pre, post, pred);
        assert(seq![x].drop_last() =~= Seq::<EntryV>::empty());
        assert(seq![x].filter(pred) == if pred(x) {
            seq![x]
        } else {
            Seq::<EntryV>::empty()
        });
        if pred(x) {
            assert(es2.filter(pred) =~= pre.filter(pred) + seq![x] + post.filter(pred));
            assert(es2.remove(j).filter(pred) =~= pre.filter(pred) + post.filter(pred));
            let body = pre.filter(pred) + post.filter(pred);
            assert(es2.filter(pred).map_values(g) =~= body.map_values(g).insert(
                pre.filter(pred).len() as int,
                g(x),
            ));
            assert(es2.remove(j).filter(pred).map_values(g) =~= body.map_values(g));
            assert(es1.filter(pred).map_values(g) =~= a1.push(g(x)));
            assert(es1.filter(pred).map_values(g).to_multiset() =~= a1.to_multiset().insert(
                g(x),
            ));
            assert(es2.filter(pred).map_values(g).to_multiset() =~= body.map_values(
                g,
            ).to_multiset().insert(g(x)));
        } else {
            assert(es2.filter(pred) =~= pre.filter(pred) + post.filter(pred));
            assert(es2.remove(j).filter(pred) =~= es2.filter(pred));
            assert(es1.filter(pred).map_values(g) =~= a1);
        }
    }
}

/// The aggregation law: the monthly totals depend only on which entries the
/// document holds, never on their order. Documents flattening to the same
/// multiset of entries carry the same total for every account, month and
/// commodity.
pub proof fn lemma_month_total_order_independent(
    es1: Seq<EntryV>,
    es2: Seq<EntryV>,
    account: Seq<char>,
    k: int,
    c: Seq<char>,
)
    requires
        es1.to_multiset() == es2.to_multiset(),
    ensures
        val_sum(month_amounts(es1, account, k, c)) == val_sum(month_amounts(es2, account, k, c)),
{
    let pred = |e: EntryV| e.account == account && e.key == k && e.commodity == c;
    lemma_filtered_amounts_multiset(es1, es2, pred);
    lemma_val_sum_permutation(month_amounts(es1, account, k, c), month_amounts(es2, account, k, c));
}

/// The same, for the whole-document balance of an account and commodity.
pub proof fn lemma_balance_total_order_independent(
    es1: Seq<EntryV>,
    es2: Seq<EntryV>,
    account: Seq<char>,
    c: Seq<char>,
)
    requires
        es1.to_multiset() == es2.to_multiset(),
    ensures
        val_sum(entry_amounts(es1, account, c)) == val_sum(entry_amounts(es2, account, c)),
{
    let pred = |e: EntryV| e.account == account && e.commodity == c;
    lemma_filtered_amounts_multiset(es1, es2, pred);
    lemma_val_sum_permutation(entry_amounts(es1, account, c), entry_amounts(es2, account, c));
}

proof fn lemma_bucket_rows_prefix_none(
    es: Seq<EntryV>,
    account: Seq<char>,
    k: int,
    cs: Seq<Seq<char>>,
    j: int,
)
    requires
        0 <= j < cs.len(),
        bucket_rows(es, account, k, cs.take(j)) is Some,
        sum_qty(month_amounts(es, account, k, cs[j])) is None,
    ensures
        bucket_rows(es, account, k, cs) is None,
    decreases cs.len(),
{
    if cs.len() == j + 1 {
        assert(cs.drop_last() =~= cs.take(j));
        assert(cs.last() == cs[j]);
    } else {
        assert(cs.drop_last().take(j) =~= cs.take(j));
        assert(cs.drop_last()[j] == cs[j]);
        lemma_bucket_rows_prefix_none(es, account, k, cs.drop_last(), j);
    }
}

} // verus!
