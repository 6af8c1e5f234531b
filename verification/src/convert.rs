//! Currency normalization: rewrite every foreign-commodity posting into the
//! native currency using its attached price, rounding to two decimal places
//! with halves away from zero, and strip the used price annotation.
use vstd::prelude::*;
use crate::doc::{
    Amount, AmountV, DocV, ItemV, LedgerDocument, Item, PostingLine, PostingValue,
    PostingValueV, PostingLineV, PriceAnn, PriceV, Txn, TxnV, clone_posting_amount,
    clone_string,
};
use crate::errors::LedgerError;
use crate::qty::{Qty, spec_mul_round_to_2, spec_round_to_2};

verus! {

/// Does the commodity fall under the requested foreign set? A literal `*`
/// entry is a wildcard matching any commodity.
pub open spec fn spec_matches_foreign(commodity: Seq<char>, foreign: Seq<Seq<char>>) -> bool {
    exists|i: int|
        0 <= i < foreign.len() && ((#[trigger] foreign[i]) == commodity || foreign[i] == "*"@)
}

/// A posting amount is due for conversion when its commodity is not already
/// the native one and falls under the foreign set.
pub open spec fn spec_needs_conversion(
    pa: PostingValueV,
    native: Seq<char>,
    foreign: Seq<Seq<char>>,
) -> bool {
    pa.amount.commodity != native && spec_matches_foreign(pa.amount.commodity, foreign)
}

/// Convert one posting amount. A unit price scales the quantity; a total
/// price replaces it verbatim. Either way the result is rounded to two
/// decimal places, retagged in the native currency, and carries no price.
pub open spec fn spec_convert_posting_amount(
    pa: PostingValueV,
    native: Seq<char>,
    foreign: Seq<Seq<char>>,
) -> Result<PostingValueV, LedgerError> {
    if !spec_needs_conversion(pa, native, foreign) {
        Ok(pa)
    } else {
        match pa.price {
            None => Err(LedgerError::MissingPrice),
            Some(pr) => {
                let q = match pr {
                    PriceV::Unit(rate) => spec_mul_round_to_2(pa.amount.qty, rate.qty),
                    PriceV::Total(tot) => Some(spec_round_to_2(tot.qty)),
                };
                match q {
                    None => Err(LedgerError::ArithmeticOverflow),
                    Some(q2) => Ok(
                        PostingValueV {
                            amount: AmountV {
                                qty: q2,
                                commodity: native,
                                side: pa.amount.side,
                            },
                            price: None,
                        },
                    ),
                }
            },
        }
    }
}

pub open spec fn spec_convert_posting(
    p: PostingLineV,
    native: Seq<char>,
    foreign: Seq<Seq<char>>,
) -> Result<PostingLineV, LedgerError> {
    match p.amount {
        None => Ok(p),
        Some(pa) => match spec_convert_posting_amount(pa, native, foreign) {
            Err(e) => Err(e),
            Ok(pa2) => Ok(PostingLineV { account: p.account, amount: Some(pa2) }),
        },
    }
}

/// Convert a sequence of postings; the error of the earliest failing posting
/// wins.
pub open spec fn spec_convert_postings(
    ps: Seq<PostingLineV>,
    native: Seq<char>,
    foreign: Seq<Seq<char>>,
) -> Result<Seq<PostingLineV>, LedgerError>
    decreases ps.len(),
{
    if ps.len() == 0 {
        Ok(Seq::empty())
    } else {
        match spec_convert_postings(ps.drop_last(), native, foreign) {
            Err(e) => Err(e),
            Ok(rest) => match spec_convert_posting(ps.last(), native, foreign) {
                Err(e) => Err(e),
                Ok(p2) => Ok(rest.push(p2)),
            },
        }
    }
}

pub open spec fn spec_convert_item(
    it: ItemV,
    native: Seq<char>,
    foreign: Seq<Seq<char>>,
) -> Result<ItemV, LedgerError> {
    match it {
        ItemV::Txn(t) => match spec_convert_postings(t.postings, native, foreign) {
            Err(e) => Err(e),
            Ok(ps2) => Ok(
                ItemV::Txn(
                    TxnV {
                        date: t.date,
                        effective_date: t.effective_date,
                        description: t.description,
                        postings: ps2,
                    },
                ),
            ),
        },
        ItemV::FileRef(p) => Ok(ItemV::FileRef(p)),
        ItemV::Other => Ok(ItemV::Other),
    }
}

pub open spec fn spec_convert_items(
    items: Seq<ItemV>,
    native: Seq<char>,
    foreign: Seq<Seq<char>>,
) -> Result<Seq<ItemV>, LedgerError>
    decreases items.len(),
{
    if items.len() == 0 {
        Ok(Seq::empty())
    } else {
        match spec_convert_items(items.drop_last(), native, foreign) {
            Err(e) => Err(e),
            Ok(rest) => match spec_convert_item(items.last(), native, foreign) {
                Err(e) => Err(e),
                Ok(it2) => Ok(rest.push(it2)),
            },
        }
    }
}

/// The whole normalization pass, as a pure function of the document view.
pub open spec fn spec_convert(
    d: DocV,
    native: Seq<char>,
    foreign: Seq<Seq<char>>,
) -> Result<DocV, LedgerError> {
    match spec_convert_items(d.items, native, foreign) {
        Err(e) => Err(e),
        Ok(items2) => Ok(DocV { items: items2 }),
    }
}

pub open spec fn foreign_view(foreign: Seq<String>) -> Seq<Seq<char>> {
    foreign.map_values(|s: String| s@)
}

// ---------------------------------------------------------------------------
// Prefix lemmas connecting the loops to the sequence specifications
// ---------------------------------------------------------------------------
proof fn lemma_convert_postings_prefix_err(
    ps: Seq<PostingLineV>,
    i: int,
    native: Seq<char>,
    foreign: Seq<Seq<char>>,
)
    requires
        0 <= i < ps.len(),
        spec_convert_postings(ps.take(i), native, foreign) is Ok,
        spec_convert_posting(ps[i], native, foreign) is Err,
    ensures
        spec_convert_postings(ps, native, foreign) == Err::<Seq<PostingLineV>, LedgerError>(
            spec_convert_posting(ps[i], native, foreign)->Err_0,
        ),
    decreases ps.len(),
{
    if ps.len() == i + 1 {
        assert(ps.drop_last() =~= ps.take(i));
        assert(ps.last() == ps[i]);
    } else {
        assert(ps.drop_last().take(i) =~= ps.take(i));
        assert(ps.drop_last()[i] == ps[i]);
        lemma_convert_postings_prefix_err(ps.drop_last(), i, native, foreign);
    }
}

proof fn lemma_convert_items_prefix_err(
    items: Seq<ItemV>,
    i: int,
    native: Seq<char>,
    foreign: Seq<Seq<char>>,
)
    requires
        0 <= i < items.len(),
        spec_convert_items(items.take(i), native, foreign) is Ok,
        spec_convert_item(items[i], native, foreign) is Err,
    ensures
        spec_convert_items(items, native, foreign) == Err::<Seq<ItemV>, LedgerError>(
            spec_convert_item(items[i], native, foreign)->Err_0,
        ),
    decreases items.len(),
{
    if items.len() == i + 1 {
        assert(items.drop_last() =~= items.take(i));
        assert(items.last() == items[i]);
    } else {
        assert(items.drop_last().take(i) =~= items.take(i));
        assert(items.drop_last()[i] == items[i]);
        lemma_convert_items_prefix_err(items.drop_last(), i, native, foreign);
    }
}

// ---------------------------------------------------------------------------
// Laws: idempotence and preservation of well-formedness
// ---------------------------------------------------------------------------
proof fn lemma_convert_pa_idempotent(pa: PostingValueV, native: Seq<char>, foreign: Seq<Seq<char>>)
    requires
        spec_convert_posting_amount(pa, native, foreign) is Ok,
    ensures
        spec_convert_posting_amount(
            spec_convert_posting_amount(pa, native, foreign)->Ok_0,
            native,
            foreign,
        ) == spec_convert_posting_amount(pa, native, foreign),
{
}

proof fn lemma_convert_posting_idempotent(p: PostingLineV, native: Seq<char>, foreign: Seq<Seq<char>>)
    requires
        spec_convert_posting(p, native, foreign) is Ok,
    ensures
        spec_convert_posting(spec_convert_posting(p, native, foreign)->Ok_0, native, foreign)
            == spec_convert_posting(p, native, foreign),
{
    match p.amount {
        None => {},
        Some(pa) => {
            lemma_convert_pa_idempotent(pa, native, foreign);
        },
    }
}

proof fn lemma_convert_postings_idempotent(
    ps: Seq<PostingLineV>,
    native: Seq<char>,
    foreign: Seq<Seq<char>>,
)
    requires
        spec_convert_postings(ps, native, foreign) is Ok,
    ensures
        spec_convert_postings(spec_convert_postings(ps, native, foreign)->Ok_0, native, foreign)
            == spec_convert_postings(ps, native, foreign),
    decreases ps.len(),
{
    if ps.len() == 0 {
        assert(spec_convert_postings(ps, native, foreign)->Ok_0 =~= Seq::<PostingLineV>::empty());
    } else {
        lemma_convert_postings_idempotent(ps.drop_last(), native, foreign);
        lemma_convert_posting_idempotent(ps.last(), native, foreign);
        let out = spec_convert_postings(ps, native, foreign)->Ok_0;
        let rest = spec_convert_postings(ps.drop_last(), native, foreign)->Ok_0;
        let p2 = spec_convert_posting(ps.last(), native, foreign)->Ok_0;
        assert(out == rest.push(p2));
        assert(out.drop_last() =~= rest);
        assert(out.last() == p2);
    }
}

proof fn lemma_convert_item_idempotent(it: ItemV, native: Seq<char>, foreign: Seq<Seq<char>>)
    requires
        spec_convert_item(it, native, foreign) is Ok,
    ensures
        spec_convert_item(spec_convert_item(it, native, foreign)->Ok_0, native, foreign)
            == spec_convert_item(it, native, foreign),
{
    match it {
        ItemV::Txn(t) => {
            lemma_convert_postings_idempotent(t.postings, native, foreign);
        },
        _ => {},
    }
}

proof fn lemma_convert_items_idempotent(
    items: Seq<ItemV>,
    native: Seq<char>,
    foreign: Seq<Seq<char>>,
)
    requires
        spec_convert_items(items, native, foreign) is Ok,
    ensures
        spec_convert_items(spec_convert_items(items, native, foreign)->Ok_0, native, foreign)
            == spec_convert_items(items, native, foreign),
    decreases items.len(),
{
    if items.len() == 0 {
        assert(spec_convert_items(items, native, foreign)->Ok_0 =~= Seq::<ItemV>::empty());
    } else {
        lemma_convert_items_idempotent(items.drop_last(), native, foreign);
        lemma_convert_item_idempotent(items.last(), native, foreign);
        let out = spec_convert_items(items, native, foreign)->Ok_0;
        let rest = spec_convert_items(items.drop_last(), native, foreign)->Ok_0;
        let it2 = spec_convert_item(items.last(), native, foreign)->Ok_0;
        assert(out == rest.push(it2));
        assert(out.drop_last() =~= rest);
        assert(out.last() == it2);
    }
}

/// Converting twice with the same native currency and foreign set is the same
/// as converting once: a successfully normalized document normalizes to
/// itself.
pub proof fn lemma_convert_idempotent(d: DocV, native: Seq<char>, foreign: Seq<Seq<char>>)
    requires
        spec_convert(d, native, foreign) is Ok,
    ensures
        spec_convert(spec_convert(d, native, foreign)->Ok_0, native, foreign) == spec_convert(
            d,
            native,
            foreign,
        ),
{
    lemma_convert_items_idempotent(d.items, native, foreign);
}

proof fn lemma_convert_postings_wf(ps: Seq<PostingLineV>, native: Seq<char>, foreign: Seq<Seq<char>>)
    requires
        forall|i: int| 0 <= i < ps.len() ==> (#[trigger] ps[i]).wf(),
        spec_convert_postings(ps, native, foreign) is Ok,
    ensures
        spec_convert_postings(ps, native, foreign)->Ok_0.len() == ps.len(),
        forall|i: int|
            0 <= i < ps.len() ==> (#[trigger] spec_convert_postings(
                ps,
                native,
                foreign,
            )->Ok_0[i]).wf(),
    decreases ps.len(),
{
    if ps.len() > 0 {
        assert(forall|i: int| 0 <= i < ps.drop_last().len() ==> (#[trigger] ps.drop_last()[i]).wf());
        lemma_convert_postings_wf(ps.drop_last(), native, foreign);
        let p = ps.last();
        assert(p.wf());
        let p2 = spec_convert_posting(p, native, foreign)->Ok_0;
        match p.amount {
            None => {},
            Some(pa) => {
                let r = spec_convert_posting_amount(pa, native, foreign);
                if spec_needs_conversion(pa, native, foreign) {
                    match pa.price {
                        Some(PriceV::Unit(rate)) => {
                            crate::qty::lemma_spec_mul_round_to_2_wf(pa.amount.qty, rate.qty);
                        },
                        Some(PriceV::Total(tot)) => {
                            crate::qty::lemma_spec_round_to_2_wf(tot.qty);
                        },
                        None => {},
                    }
                }
                assert(r->Ok_0.wf());
            },
        }
        assert(p2.wf());
    }
}

/// A successful conversion keeps the document well-formed.
pub proof fn lemma_convert_wf(d: DocV, native: Seq<char>, foreign: Seq<Seq<char>>)
    requires
        d.wf(),
        spec_convert(d, native, foreign) is Ok,
    ensures
        spec_convert(d, native, foreign)->Ok_0.wf(),
        spec_convert(d, native, foreign)->Ok_0.items.len() == d.items.len(),
{
    lemma_convert_items_wf(d.items, native, foreign);
}

proof fn lemma_convert_items_wf(items: Seq<ItemV>, native: Seq<char>, foreign: Seq<Seq<char>>)
    requires
        forall|i: int| 0 <= i < items.len() ==> (#[trigger] items[i]).wf(),
        spec_convert_items(items, native, foreign) is Ok,
    ensures
        spec_convert_items(items, native, foreign)->Ok_0.len() == items.len(),
        forall|i: int|
            0 <= i < items.len() ==> (#[trigger] spec_convert_items(
                items,
                native,
                foreign,
            )->Ok_0[i]).wf(),
    decreases items.len(),
{
    if items.len() > 0 {
        assert(forall|i: int|
            0 <= i < items.drop_last().len() ==> (#[trigger] items.drop_last()[i]).wf());
        lemma_convert_items_wf(items.drop_last(), native, foreign);
        let it = items.last();
        assert(it.wf());
        match it {
            ItemV::Txn(t) => {
                assert(forall|i: int| 0 <= i < t.postings.len() ==> (#[trigger] t.postings[i]).wf());
                lemma_convert_postings_wf(t.postings, native, foreign);
            },
            _ => {},
        }
        assert(spec_convert_item(it, native, foreign)->Ok_0.wf());
    }
}

// ---------------------------------------------------------------------------
// Executable conversion
// ---------------------------------------------------------------------------
pub fn string_eq(a: &String, b: &String) -> (r: bool)
    ensures
        r == (a@ == b@),
{
    a.eq(b)
}

fn matches_foreign(c: &String, foreign: &Vec<String>) -> (r: bool)
    ensures
        r == spec_matches_foreign(c@, foreign_view(foreign@)),
{
    let star: String = String::from_str("*");
    let mut i: usize = 0;
    while i < foreign.len()
        invariant
            i <= foreign.len(),
            star@ == "*"@,
            forall|j: int|
                0 <= j < i ==> !((#[trigger] foreign_view(foreign@)[j]) == c@ || foreign_view(
                    foreign@,
                )[j] == "*"@),
        decreases foreign.len() - i,
    {
        if string_eq(&foreign[i], c) || string_eq(&foreign[i], &star) {
            assert(foreign_view(foreign@)[i as int] == foreign@[i as int]@);
            return true;
        }
        i = i + 1;
    }
    false
}

fn convert_posting_amount(pa: &PostingValue, native: &String, foreign: &Vec<String>) -> (r:
    Result<PostingValue, LedgerError>)
    requires
        pa@.wf(),
    ensures
        r matches Ok(pa2) ==> spec_convert_posting_amount(pa@, native@, foreign_view(foreign@))
            == Ok::<PostingValueV, LedgerError>(pa2@),
        r matches Err(e) ==> spec_convert_posting_amount(pa@, native@, foreign_view(foreign@))
            == Err::<PostingValueV, LedgerError>(e),
{
    let needs = !string_eq(&pa.amount.commodity, native) && matches_foreign(
        &pa.amount.commodity,
        foreign,
    );
    if !needs {
        Ok(clone_posting_amount(pa))
    } else {
        match &pa.price {
            None => Err(LedgerError::MissingPrice),
            Some(PriceAnn::Unit(rate)) => match pa.amount.qty.mul_round_to_2(rate.qty) {
                None => Err(LedgerError::ArithmeticOverflow),
                Some(q2) => Ok(
                    PostingValue {
                        amount: Amount {
                            qty: q2,
                            commodity: clone_string(native),
                            side: pa.amount.side,
                        },
                        price: None,
                    },
                ),
            },
            Some(PriceAnn::Total(tot)) => {
                let q2 = tot.qty.round_to_2();
                Ok(
                    PostingValue {
                        amount: Amount {
                            qty: q2,
                            commodity: clone_string(native),
                            side: pa.amount.side,
                        },
                        price: None,
                    },
                )
            },
        }
    }
}

fn convert_posting(p: &PostingLine, native: &String, foreign: &Vec<String>) -> (r: Result<
    PostingLine,
    LedgerError,
>)
    requires
        p@.wf(),
    ensures
        r matches Ok(p2) ==> spec_convert_posting(p@, native@, foreign_view(foreign@)) == Ok::<
            PostingLineV,
            LedgerError,
        >(p2@),
        r matches Err(e) ==> spec_convert_posting(p@, native@, foreign_view(foreign@)) == Err::<
            PostingLineV,
            LedgerError,
        >(e),
{
    match &p.amount {
        None => Ok(PostingLine { account: clone_string(&p.account), amount: None }),
        Some(pa) => match convert_posting_amount(pa, native, foreign) {
            Err(e) => Err(e),
            Ok(pa2) => Ok(PostingLine { account: clone_string(&p.account), amount: Some(pa2) }),
        },
    }
}

fn convert_transaction(t: &Txn, native: &String, foreign: &Vec<String>) -> (r: Result<
    Txn,
    LedgerError,
>)
    requires
        t@.wf(),
    ensures
        r matches Ok(t2) ==> spec_convert_postings(t@.postings, native@, foreign_view(foreign@))
            == Ok::<Seq<PostingLineV>, LedgerError>(t2@.postings) && t2@.date == t@.date
            && t2@.effective_date == t@.effective_date && t2@.description == t@.description,
        r matches Err(e) ==> spec_convert_postings(t@.postings, native@, foreign_view(foreign@))
            == Err::<Seq<PostingLineV>, LedgerError>(e),
{
    let ghost fv = foreign_view(foreign@);
    let mut out: Vec<PostingLine> = Vec::new();
    proof {
        assert(t@.postings.take(0) =~= Seq::<PostingLineV>::empty());
        assert(out@.map_values(|p: PostingLine| p@) =~= Seq::<PostingLineV>::empty());
    }
    let mut i: usize = 0;
    while i < t.postings.len()
        invariant
            i <= t.postings.len(),
            t@.wf(),
            spec_convert_postings(t@.postings.take(i as int), native@, fv) == Ok::<
                Seq<PostingLineV>,
                LedgerError,
            >(out@.map_values(|p: PostingLine| p@)),
            fv == foreign_view(foreign@),
        decreases t.postings.len() - i,
    {
        proof {
            assert(t@.postings[i as int] == t.postings@[i as int]@);
            assert(t@.postings[i as int].wf());
        }
        match convert_posting(&t.postings[i], native, foreign) {
            Err(e) => {
                proof {
                    lemma_convert_postings_prefix_err(t@.postings, i as int, native@, fv);
                }
                return Err(e);
            },
            Ok(p2) => {
                proof {
                    let ps = t@.postings;
                    assert(ps.take(i + 1).drop_last() =~= ps.take(i as int));
                    assert(ps.take(i + 1).last() == ps[i as int]);
                }
                let ghost prev = out@.map_values(|p: PostingLine| p@);
                let ghost p2v = p2@;
                out.push(p2);
                proof {
                    assert(out@.map_values(|p: PostingLine| p@) =~= prev.push(p2v));
                }
            },
        }
        i = i + 1;
    }
    proof {
        assert(t@.postings.take(t.postings@.len() as int) =~= t@.postings);
    }
    Ok(
        Txn {
            date: t.date,
            effective_date: t.effective_date,
            description: match &t.description {
                Some(d) => Some(clone_string(d)),
                None => None,
            },
            postings: out,
        },
    )
}

fn convert_item(it: &Item, native: &String, foreign: &Vec<String>) -> (r: Result<
    Item,
    LedgerError,
>)
    requires
        it@.wf(),
    ensures
        r matches Ok(it2) ==> spec_convert_item(it@, native@, foreign_view(foreign@)) == Ok::<
            ItemV,
            LedgerError,
        >(it2@),
        r matches Err(e) ==> spec_convert_item(it@, native@, foreign_view(foreign@)) == Err::<
            ItemV,
            LedgerError,
        >(e),
{
    match it {
        Item::Txn(t) => match convert_transaction(t, native, foreign) {
            Err(e) => Err(e),
            Ok(t2) => Ok(Item::Txn(t2)),
        },
        Item::FileRef(p) => Ok(Item::FileRef(clone_string(p))),
        Item::Other => Ok(Item::Other),
    }
}

/// Normalize a whole document into the native currency. Pure: the argument is
/// left untouched, and on error no partially converted document exists.
pub fn convert_document(d: &LedgerDocument, native: &String, foreign: &Vec<String>) -> (r: Result<
    LedgerDocument,
    LedgerError,
>)
    requires
        d@.wf(),
    ensures
        r matches Ok(d2) ==> spec_convert(d@, native@, foreign_view(foreign@)) == Ok::<
            DocV,
            LedgerError,
        >(d2@),
        r matches Err(e) ==> spec_convert(d@, native@, foreign_view(foreign@)) == Err::<
            DocV,
            LedgerError,
        >(e),
{
    let ghost fv = foreign_view(foreign@);
    let mut out: Vec<Item> = Vec::new();
    proof {
        assert(d@.items.take(0) =~= Seq::<ItemV>::empty());
        assert(out@.map_values(|it: Item| it@) =~= Seq::<ItemV>::empty());
    }
    let mut i: usize = 0;
    while i < d.items.len()
        invariant
            i <= d.items.len(),
            d@.wf(),
            spec_convert_items(d@.items.take(i as int), native@, fv) == Ok::<
                Seq<ItemV>,
                LedgerError,
            >(out@.map_values(|it: Item| it@)),
            fv == foreign_view(foreign@),
        decreases d.items.len() - i,
    {
        proof {
            assert(d@.items[i as int] == d.items@[i as int]@);
            assert(d@.items[i as int].wf());
        }
        match convert_item(&d.items[i], native, foreign) {
            Err(e) => {
                proof {
                    lemma_convert_items_prefix_err(d@.items, i as int, native@, fv);
                }
                return Err(e);
            },
            Ok(it2) => {
                proof {
                    let items = d@.items;
                    assert(items.take(i + 1).drop_last() =~= items.take(i as int));
                    assert(items.take(i + 1).last() == items[i as int]);
                }
                let ghost prev = out@.map_values(|it: Item| it@);
                let ghost it2v = it2@;
                out.push(it2);
                proof {
                    assert(out@.map_values(|it: Item| it@) =~= prev.push(it2v));
                }
            },
        }
        i = i + 1;
    }
    proof {
        assert(d@.items.take(d.items@.len() as int) =~= d@.items);
    }
    Ok(LedgerDocument { items: out })
}

} // verus!
