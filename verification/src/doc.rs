//! The in-memory model of one merged ledger: ordered items, transactions,
//! postings, amounts and their price annotations, together with the
//! specification-level views the contracts speak about.
use vstd::prelude::*;
use crate::dates::Date;
use crate::qty::Qty;

verus! {

/// Where a commodity symbol is written relative to its quantity.
#[derive(Clone, Copy, PartialEq, Eq, Structural, Debug)]
pub enum Side {
    Left,
    Right,
}

/// A quantity tagged with a commodity.
#[derive(Clone, PartialEq, Eq, Debug)]
pub struct Amount {
    pub qty: Qty,
    pub commodity: String,
    pub side: Side,
}

/// A conversion annotation: either a per-unit rate or a fixed total in the
/// other commodity.
#[derive(Clone, PartialEq, Eq, Debug)]
pub enum PriceAnn {
    Unit(Amount),
    Total(Amount),
}

/// A posting's amount together with its optional price annotation.
#[derive(Clone, PartialEq, Eq, Debug)]
pub struct PostingValue {
    pub amount: Amount,
    pub price: Option<PriceAnn>,
}

/// One line of a transaction: an account, and an optional amount. A posting
/// with no amount is an elided balancing posting and takes no part in
/// conversion or aggregation.
#[derive(Clone, PartialEq, Eq, Debug)]
pub struct PostingLine {
    pub account: String,
    pub amount: Option<PostingValue>,
}

/// A dated group of postings.
#[derive(Clone, PartialEq, Eq, Debug)]
pub struct Txn {
    pub date: Date,
    pub effective_date: Option<Date>,
    pub description: Option<String>,
    pub postings: Vec<PostingLine>,
}

/// One item of a ledger document. `FileRef` carries the path of a referenced
/// sub-ledger file; other directives pass through opaquely.
#[derive(Clone, PartialEq, Eq, Debug)]
pub enum Item {
    Txn(Txn),
    FileRef(String),
    Other,
}

/// An ordered sequence of ledger items; the whole in-memory ledger.
#[derive(Clone, PartialEq, Eq, Debug)]
pub struct LedgerDocument {
    pub items: Vec<Item>,
}

// ---------------------------------------------------------------------------
// Specification views
// ---------------------------------------------------------------------------
pub ghost struct AmountV {
    pub qty: Qty,
    pub commodity: Seq<char>,
    pub side: Side,
}

pub ghost enum PriceV {
    Unit(AmountV),
    Total(AmountV),
}

pub ghost struct PostingValueV {
    pub amount: AmountV,
    pub price: Option<PriceV>,
}

pub ghost struct PostingLineV {
    pub account: Seq<char>,
    pub amount: Option<PostingValueV>,
}

pub ghost struct TxnV {
    pub date: Date,
    pub effective_date: Option<Date>,
    pub description: Option<Seq<char>>,
    pub postings: Seq<PostingLineV>,
}

pub ghost enum ItemV {
    Txn(TxnV),
    FileRef(Seq<char>),
    Other,
}

pub ghost struct DocV {
    pub items: Seq<ItemV>,
}

impl View for Amount {
    type V = AmountV;

    open spec fn view(&self) -> AmountV {
        AmountV { qty: self.qty, commodity: self.commodity@, side: self.side }
    }
}

impl View for PriceAnn {
    type V = PriceV;

    open spec fn view(&self) -> PriceV {
        match self {
            PriceAnn::Unit(a) => PriceV::Unit(a@),
            PriceAnn::Total(a) => PriceV::Total(a@),
        }
    }
}

impl View for PostingValue {
    type V = PostingValueV;

    open spec fn view(&self) -> PostingValueV {
        PostingValueV {
            amount: self.amount@,
            price: match self.price {
                Some(p) => Some(p@),
                None => None,
            },
        }
    }
}

impl View for PostingLine {
    type V = PostingLineV;

    open spec fn view(&self) -> PostingLineV {
        PostingLineV {
            account: self.account@,
            amount: match self.amount {
                Some(pa) => Some(pa@),
                None => None,
            },
        }
    }
}

impl View for Txn {
    type V = TxnV;

    open spec fn view(&self) -> TxnV {
        TxnV {
            date: self.date,
            effective_date: self.effective_date,
            description: match self.description {
                Some(d) => Some(d@),
                None => None,
            },
            postings: self.postings@.map_values(|p: PostingLine| p@),
        }
    }
}

impl View for Item {
    type V = ItemV;

    open spec fn view(&self) -> ItemV {
        match self {
            Item::Txn(t) => ItemV::Txn(t@),
            Item::FileRef(p) => ItemV::FileRef(p@),
            Item::Other => ItemV::Other,
        }
    }
}

impl View for LedgerDocument {
    type V = DocV;

    open spec fn view(&self) -> DocV {
        DocV { items: self.items@.map_values(|it: Item| it@) }
    }
}

// ---------------------------------------------------------------------------
// Well-formedness
// ---------------------------------------------------------------------------
impl AmountV {
    pub open spec fn wf(self) -> bool {
        self.qty.wf()
    }
}

impl PriceV {
    pub open spec fn amount(self) -> AmountV {
        match self {
            PriceV::Unit(a) => a,
            PriceV::Total(a) => a,
        }
    }

    pub open spec fn wf(self) -> bool {
        self.amount().wf()
    }
}

impl PostingValueV {
    pub open spec fn wf(self) -> bool {
        &&& self.amount.wf()
        &&& match self.price {
            Some(p) => p.wf(),
            None => true,
        }
    }
}

impl PostingLineV {
    pub open spec fn wf(self) -> bool {
        match self.amount {
            Some(pa) => pa.wf(),
            None => true,
        }
    }
}

impl TxnV {
    pub open spec fn wf(self) -> bool {
        &&& self.date.wf()
        &&& match self.effective_date {
            Some(d) => d.wf(),
            None => true,
        }
        &&& self.postings.len() >= 1
        &&& forall|i: int| 0 <= i < self.postings.len() ==> (#[trigger] self.postings[i]).wf()
    }
}

impl TxnV {
    /// Field ranges alone: the dates lie in calendar range and every
    /// quantity within the parser's representable range; unlike `wf` this
    /// says nothing about the number of postings.
    pub open spec fn fields_wf(self) -> bool {
        &&& self.date.wf()
        &&& match self.effective_date {
            Some(d) => d.wf(),
            None => true,
        }
        &&& forall|i: int| 0 <= i < self.postings.len() ==> (#[trigger] self.postings[i]).wf()
    }
}

impl ItemV {
    pub open spec fn wf(self) -> bool {
        match self {
            ItemV::Txn(t) => t.wf(),
            ItemV::FileRef(_) => true,
            ItemV::Other => true,
        }
    }

    /// Field ranges alone; see `TxnV::fields_wf`.
    pub open spec fn fields_wf(self) -> bool {
        match self {
            ItemV::Txn(t) => t.fields_wf(),
            ItemV::FileRef(_) => true,
            ItemV::Other => true,
        }
    }
}

/// Field ranges alone, over a whole item sequence; see `TxnV::fields_wf`.
pub open spec fn items_fields_wf(items: Seq<ItemV>) -> bool {
    forall|i: int| 0 <= i < items.len() ==> (#[trigger] items[i]).fields_wf()
}

impl DocV {
    pub open spec fn wf(self) -> bool {
        forall|i: int| 0 <= i < self.items.len() ==> (#[trigger] self.items[i]).wf()
    }
}

// ---------------------------------------------------------------------------
// Cloning with known meaning
// ---------------------------------------------------------------------------
pub fn clone_string(s: &String) -> (r: String)
    ensures
        r@ == s@,
{
    s.clone()
}

pub fn clone_amount(a: &Amount) -> (r: Amount)
    ensures
        r@ == a@,
{
    Amount { qty: a.qty, commodity: clone_string(&a.commodity), side: a.side }
}

pub fn clone_price(p: &PriceAnn) -> (r: PriceAnn)
    ensures
        r@ == p@,
{
    match p {
        PriceAnn::Unit(a) => PriceAnn::Unit(clone_amount(a)),
        PriceAnn::Total(a) => PriceAnn::Total(clone_amount(a)),
    }
}

pub fn clone_posting_amount(pa: &PostingValue) -> (r: PostingValue)
    ensures
        r@ == pa@,
{
    PostingValue {
        amount: clone_amount(&pa.amount),
        price: match &pa.price {
            Some(p) => Some(clone_price(p)),
            None => None,
        },
    }
}

pub fn clone_posting(p: &PostingLine) -> (r: PostingLine)
    ensures
        r@ == p@,
{
    PostingLine {
        account: clone_string(&p.account),
        amount: match &p.amount {
            Some(pa) => Some(clone_posting_amount(pa)),
            None => None,
        },
    }
}

pub fn clone_transaction(t: &Txn) -> (r: Txn)
    ensures
        r@ == t@,
{
    let mut postings: Vec<PostingLine> = Vec::new();
    let mut i: usize = 0;
    while i < t.postings.len()
        invariant
            i <= t.postings.len(),
            postings@.len() == i,
            forall|j: int| 0 <= j < i ==> (#[trigger] postings@[j])@ == t.postings@[j]@,
        decreases t.postings.len() - i,
    {
        postings.push(clone_posting(&t.postings[i]));
        i = i + 1;
    }
    let r = Txn {
        date: t.date,
        effective_date: t.effective_date,
        description: match &t.description {
            Some(d) => Some(clone_string(d)),
            None => None,
        },
        postings,
    };
    assert(r@.postings =~= t@.postings);
    r
}

pub fn clone_item(it: &Item) -> (r: Item)
    ensures
        r@ == it@,
{
    match it {
        Item::Txn(t) => Item::Txn(clone_transaction(t)),
        Item::FileRef(p) => Item::FileRef(clone_string(p)),
        Item::Other => Item::Other,
    }
}

pub fn clone_document(d: &LedgerDocument) -> (r: LedgerDocument)
    ensures
        r@ == d@,
{
    let mut items: Vec<Item> = Vec::new();
    let mut i: usize = 0;
    while i < d.items.len()
        invariant
            i <= d.items.len(),
            items@.len() == i,
            forall|j: int| 0 <= j < i ==> (#[trigger] items@[j])@ == d.items@[j]@,
        decreases d.items.len() - i,
    {
        items.push(clone_item(&d.items[i]));
        i = i + 1;
    }
    let r = LedgerDocument { items };
    assert(r@.items =~= d@.items);
    r
}

} // verus!

verus! {

// ---------------------------------------------------------------------------
// Sorting items by date
// ---------------------------------------------------------------------------
/// The chronological sort key of an item. Items that are not transactions
/// sort as if dated the first day of 2021 — a deliberate, pinned choice:
/// they carry no date of their own, and this fixed key keeps every
/// non-transaction item in one stable group rather than inventing an order
/// among them.
pub open spec fn item_sort_key(it: ItemV) -> int {
    match it {
        ItemV::Txn(t) => t.date.year * 372 + (t.date.month - 1) * 31 + (t.date.day - 1),
        _ => (2021 * 372) as int,
    }
}

fn item_key(it: &Item) -> (k: i64)
    ensures
        k as int == item_sort_key(it@),
{
    match it {
        Item::Txn(t) => t.date.year as i64 * 372 + (t.date.month as i64 - 1) * 31 + (
        t.date.day as i64 - 1),
        _ => 751812,
    }
}

/// Insert an item into a date-ascending sequence, after any items of the
/// same date (a stable ascending insertion).
pub open spec fn insert_by_date(s: Seq<ItemV>, it: ItemV) -> Seq<ItemV>
    decreases s.len(),
{
    if s.len() == 0 {
        seq![it]
    } else if item_sort_key(s.last()) <= item_sort_key(it) {
        s.push(it)
    } else {
        insert_by_date(s.drop_last(), it).push(s.last())
    }
}

/// Stable insertion sort of the items, ascending by date; items of equal
/// dates keep their document order.
pub open spec fn sort_items_by_date(items: Seq<ItemV>) -> Seq<ItemV>
    decreases items.len(),
{
    if items.len() == 0 {
        Seq::empty()
    } else {
        insert_by_date(sort_items_by_date(items.drop_last()), items.last())
    }
}

proof fn lemma_insert_by_date_at(s: Seq<ItemV>, it: ItemV, p: int)
    requires
        0 <= p <= s.len(),
        forall|m: int| p <= m < s.len() ==> item_sort_key(#[trigger] s[m]) > item_sort_key(it),
        p == 0 || item_sort_key(s[p - 1]) <= item_sort_key(it),
    ensures
        insert_by_date(s, it) == s.take(p) + seq![it] + s.skip(p),
    decreases s.len(),
{
    if s.len() == 0 {
        assert(insert_by_date(s, it) =~= s.take(p) + seq![it] + s.skip(p));
    } else if p == s.len() {
        assert(insert_by_date(s, it) == s.push(it));
        assert(s.push(it) =~= s.take(p) + seq![it] + s.skip(p));
    } else {
        assert(item_sort_key(s.last()) > item_sort_key(it));
        assert(forall|m: int|
            p <= m < s.drop_last().len() ==> item_sort_key(#[trigger] s.drop_last()[m])
                > item_sort_key(it));
        assert(p == 0 || item_sort_key(s.drop_last()[p - 1]) <= item_sort_key(it));
        lemma_insert_by_date_at(s.drop_last(), it, p);
        assert(insert_by_date(s, it) == insert_by_date(s.drop_last(), it).push(s.last()));
        assert((s.drop_last().take(p) + seq![it] + s.drop_last().skip(p)).push(s.last())
            =~= s.take(p) + seq![it] + s.skip(p));
    }
}

fn insert_item(v: &Vec<Item>, it: Item) -> (r: Vec<Item>)
    requires
        forall|m: int| 0 <= m < v@.len() ==> (#[trigger] v@[m])@.wf(),
        it@.wf(),
    ensures
        r@.map_values(|x: Item| x@) == insert_by_date(v@.map_values(|x: Item| x@), it@),
        forall|m: int| 0 <= m < r@.len() ==> (#[trigger] r@[m])@.wf(),
{
    let ghost sv = v@.map_values(|x: Item| x@);
    let ghost itv = it@;
    let key = item_key(&it);
    let mut idx: usize = v.len();
    while idx > 0 && item_key(&v[idx - 1]) > key
        invariant
            idx <= v.len(),
            sv == v@.map_values(|x: Item| x@),
            itv == it@,
            key as int == item_sort_key(itv),
            forall|m: int|
                idx <= m < sv.len() ==> item_sort_key(#[trigger] sv[m]) > item_sort_key(itv),
        decreases idx,
    {
        proof {
            assert(sv[idx - 1] == v@[idx - 1]@);
        }
        idx = idx - 1;
    }
    proof {
        if idx > 0 {
            assert(sv[idx - 1] == v@[idx - 1]@);
        }
        lemma_insert_by_date_at(sv, itv, idx as int);
    }
    let mut out: Vec<Item> = Vec::new();
    let mut i: usize = 0;
    while i < idx
        invariant
            i <= idx <= v.len(),
            sv == v@.map_values(|x: Item| x@),
            out@.len() == i,
            forall|m: int| 0 <= m < i ==> (#[trigger] out@[m])@ == sv[m],
            forall|m: int| 0 <= m < v@.len() ==> (#[trigger] v@[m])@.wf(),
            forall|m: int| 0 <= m < out@.len() ==> (#[trigger] out@[m])@.wf(),
        decreases idx - i,
    {
        proof {
            assert(sv[i as int] == v@[i as int]@);
        }
        out.push(clone_item(&v[i]));
        i = i + 1;
    }
    out.push(it);
    let mut j: usize = idx;
    while j < v.len()
        invariant
            idx <= j <= v.len(),
            sv == v@.map_values(|x: Item| x@),
            itv == it@,
            itv.wf(),
            out@.len() == idx + 1 + (j - idx),
            forall|m: int| 0 <= m < idx ==> (#[trigger] out@[m])@ == sv[m],
            out@[idx as int]@ == itv,
            forall|m: int| idx < m < out@.len() ==> (#[trigger] out@[m])@ == sv[m - 1],
            forall|m: int| 0 <= m < v@.len() ==> (#[trigger] v@[m])@.wf(),
            forall|m: int| 0 <= m < out@.len() ==> (#[trigger] out@[m])@.wf(),
        decreases v.len() - j,
    {
        proof {
            assert(sv[j as int] == v@[j as int]@);
        }
        out.push(clone_item(&v[j]));
        j = j + 1;
    }
    proof {
        assert(out@.map_values(|x: Item| x@) =~= sv.take(idx as int) + seq![itv] + sv.skip(
            idx as int,
        ));
    }
    out
}

/// Sort a document's items chronologically, stable across equal dates.
pub fn sort_document_by_date(d: &LedgerDocument) -> (r: LedgerDocument)
    requires
        d@.wf(),
    ensures
        r@.items == sort_items_by_date(d@.items),
        r@.wf(),
{
    let ghost sv = d@.items;
    let mut out: Vec<Item> = Vec::new();
    proof {
        assert(sv.take(0) =~= Seq::<ItemV>::empty());
        assert(out@.map_values(|x: Item| x@) =~= Seq::<ItemV>::empty());
    }
    let mut i: usize = 0;
    while i < d.items.len()
        invariant
            i <= d.items.len(),
            sv == d@.items,
            d@.wf(),
            out@.map_values(|x: Item| x@) == sort_items_by_date(sv.take(i as int)),
            forall|m: int| 0 <= m < out@.len() ==> (#[trigger] out@[m])@.wf(),
        decreases d.items.len() - i,
    {
        proof {
            assert(sv[i as int] == d.items@[i as int]@);
            assert(sv[i as int].wf());
            assert(sv.take(i + 1).drop_last() =~= sv.take(i as int));
            assert(sv.take(i + 1).last() == sv[i as int]);
        }
        let next = insert_item(&out, clone_item(&d.items[i]));
        out = next;
        i = i + 1;
    }
    proof {
        assert(sv.take(sv.len() as int) =~= sv);
    }
    let r = LedgerDocument { items: out };
    proof {
        assert(r@.items =~= out@.map_values(|x: Item| x@));
    }
    r
}

/// A placeholder transaction: a stub description and one elided posting.
pub fn new_transaction() -> (t: Txn)
    ensures
        t@.date == (Date { year: 2021, month: 1, day: 1 }),
        t@.effective_date is None,
        t@.description == Some("Hello"@),
        t@.postings.len() == 1,
        t@.postings[0].account == "ABC"@,
        t@.postings[0].amount is None,
        t@.wf(),
{
    let mut postings: Vec<PostingLine> = Vec::new();
    postings.push(PostingLine { account: String::from_str("ABC"), amount: None });
    Txn {
        date: Date { year: 2021, month: 1, day: 1 },
        effective_date: None,
        description: Some(String::from_str("Hello")),
        postings,
    }
}

} // verus!
