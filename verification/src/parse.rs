//! The trusted boundary to the ledger text parser. What the parser yields on
//! a given text is a function of the text alone; it is given the name
//! `parse_of`, and one trusted wrapper flattens the parser's tree into the
//! document model and promises that its result is exactly that name's value.
//! The verified `parse_document` then owes success precisely where the name
//! says the text parses and no transaction comes back without postings.
use vstd::prelude::*;
use crate::doc::{items_fields_wf, Amount, Item, ItemV, LedgerDocument, PostingLine, PostingValue,
    PriceAnn, Side, Txn};
use crate::dates::Date;
use crate::errors::LedgerError;
use crate::qty::Qty;
use chrono::Datelike;

verus! {

#[verifier::external_type_specification]
#[verifier::external_body]
pub struct ExLedgerItem(ledger_parser::LedgerItem);

#[verifier::external_type_specification]
#[verifier::external_body]
pub struct ExTransaction(ledger_parser::Transaction);

#[verifier::external_type_specification]
#[verifier::external_body]
pub struct ExPosting(ledger_parser::Posting);

#[verifier::external_type_specification]
#[verifier::external_body]
pub struct ExCommodity(ledger_parser::Commodity);

#[verifier::external_type_specification]
#[verifier::external_body]
pub struct ExDecimal(rust_decimal::Decimal);

#[verifier::external_type_specification]
#[verifier::external_body]
pub struct ExPrice(ledger_parser::Price);

#[verifier::external_type_specification]
#[verifier::external_body]
pub struct ExNaiveDate(chrono::NaiveDate);

/// What the parser yields on a given text, flattened into the document
/// model: the items on success, the syntax error's message on failure. The
/// grammar is the parser's own and is not restated here; the result depends
/// on the text alone.
pub uninterp spec fn parse_of(text: Seq<char>) -> Result<Seq<ItemV>, Seq<char>>;

/// Relies on rust_decimal's mantissa() and scale() — rust_decimal documents
/// the mantissa within +-(2^96 - 1) and the scale within 0..=28 — and on the
/// commodity's name and position fields.
#[verifier::external_body]
fn amount_to_model(q: &rust_decimal::Decimal, c: &ledger_parser::Commodity) -> Amount {
    Amount {
        qty: Qty { mantissa: q.mantissa(), scale: q.scale() },
        commodity: c.name.clone(),
        side: match c.position {
            ledger_parser::CommodityPosition::Left => Side::Left,
            ledger_parser::CommodityPosition::Right => Side::Right,
        },
    }
}

/// Relies on ledger_parser::Price's two variants.
#[verifier::external_body]
fn price_to_model(p: &ledger_parser::Price) -> PriceAnn {
    match p {
        ledger_parser::Price::Unit(a) => PriceAnn::Unit(amount_to_model(&a.quantity, &a.commodity)),
        ledger_parser::Price::Total(a) => PriceAnn::Total(amount_to_model(&a.quantity, &a.commodity)),
    }
}

/// Relies on ledger_parser::Posting's account, amount and price fields.
#[verifier::external_body]
fn posting_to_model(p: &ledger_parser::Posting) -> PostingLine {
    PostingLine {
        account: p.account.clone(),
        amount: match &p.amount {
            None => None,
            Some(pa) => Some(
                PostingValue {
                    amount: amount_to_model(&pa.amount.quantity, &pa.amount.commodity),
                    price: match &pa.price {
                        None => None,
                        Some(pr) => Some(price_to_model(pr)),
                    },
                },
            ),
        },
    }
}

/// Relies on chrono's Datelike year/month/day accessors on NaiveDate; chrono
/// documents month() in 1..=12 and day() in 1..=31.
#[verifier::external_body]
fn date_to_model(d: &chrono::NaiveDate) -> Date {
    Date { year: d.year(), month: d.month(), day: d.day() }
}

/// Relies on ledger_parser::Transaction's date, effective_date, description
/// and postings fields.
#[verifier::external_body]
fn txn_to_model(t: &ledger_parser::Transaction) -> Txn {
    Txn {
        date: date_to_model(&t.date),
        effective_date: match &t.effective_date {
            None => None,
            Some(d) => Some(date_to_model(d)),
        },
        description: t.description.clone(),
        postings: t.postings.iter().map(posting_to_model).collect(),
    }
}

/// Relies on ledger_parser::LedgerItem's variants: a transaction and a
/// file-reference directive are carried over; every other item passes
/// through opaquely.
#[verifier::external_body]
fn item_to_model(it: &ledger_parser::LedgerItem) -> Item {
    match it {
        ledger_parser::LedgerItem::Transaction(t) => Item::Txn(txn_to_model(t)),
        ledger_parser::LedgerItem::Include(p) => Item::FileRef(p.clone()),
        _ => Item::Other,
    }
}

/// Relies on ledger_parser::parse and on the field-moving converters above
/// (one per parser type). The result is promised to be exactly `parse_of` of
/// the text — parsing is a function of the text alone — and, on success,
/// every flattened item to carry dates and quantities in the ranges chrono
/// and rust_decimal document; ParseError's single variant carries the
/// message handed back.
#[verifier::external_body]
fn parse_file(text: &str) -> (r: Result<LedgerDocument, String>)
    ensures
        r matches Ok(d) ==> parse_of(text@) is Ok && parse_of(text@)->Ok_0 == d@.items,
        r matches Ok(d) ==> items_fields_wf(d@.items),
        r matches Err(m) ==> parse_of(text@) is Err && parse_of(text@)->Err_0 == m@,
{
    match ledger_parser::parse(text) {
        Ok(l) => Ok(LedgerDocument { items: l.items.iter().map(item_to_model).collect() }),
        Err(ledger_parser::ParseError::String(msg)) => Err(msg),
    }
}

/// Does any transaction in the sequence carry no postings?
pub open spec fn has_empty_txn(items: Seq<ItemV>) -> bool {
    exists|i: int|
        0 <= i < items.len() && ((#[trigger] items[i]) matches ItemV::Txn(t) && t.postings.len()
            == 0)
}

/// Parse one file's text into the document model. Succeeds exactly where the
/// parser accepts the text and no parsed transaction carries zero postings —
/// such a transaction is malformed upstream data and is refused; a syntax
/// error is handed back with the parser's message.
pub fn parse_document(text: &str) -> (r: Result<LedgerDocument, LedgerError>)
    ensures
        r matches Ok(d) ==> parse_of(text@) == Ok::<Seq<ItemV>, Seq<char>>(d@.items) && d@.wf(),
        r is Ok <==> (parse_of(text@) is Ok && !has_empty_txn(parse_of(text@)->Ok_0)),
        r matches Err(e) ==> match parse_of(text@) {
            Err(m) => e matches LedgerError::Parse(pm) && pm@ == m,
            Ok(items) => has_empty_txn(items) && (e matches LedgerError::Parse(pm) && pm@
                == "transaction carries no postings"@),
        },
{
    let d = match parse_file(text) {
        Ok(d) => d,
        Err(m) => {
            return Err(LedgerError::Parse(m));
        },
    };
    let mut i: usize = 0;
    while i < d.items.len()
        invariant
            i <= d.items.len(),
            parse_of(text@) == Ok::<Seq<ItemV>, Seq<char>>(d@.items),
            items_fields_wf(d@.items),
            forall|j: int|
                0 <= j < i ==> !((#[trigger] d@.items[j]) matches ItemV::Txn(t)
                    && t.postings.len() == 0),
        decreases d.items.len() - i,
    {
        proof {
            assert(d@.items[i as int] == d.items@[i as int]@);
        }
        match &d.items[i] {
            Item::Txn(t) => {
                if t.postings.len() == 0 {
                    proof {
                        assert((d@.items[i as int]) matches ItemV::Txn(tv) && tv.postings.len()
                            == 0);
                        assert(has_empty_txn(d@.items));
                    }
                    return Err(
                        LedgerError::Parse(String::from_str("transaction carries no postings")),
                    );
                }
            },
            _ => {},
        }
        i = i + 1;
    }
    proof {
        assert(!has_empty_txn(d@.items));
        assert forall|j: int| 0 <= j < d@.items.len() implies (#[trigger] d@.items[j]).wf() by {
            assert(d@.items[j].fields_wf());
            assert(!(d@.items[j] matches ItemV::Txn(t) && t.postings.len() == 0));
        }
    }
    Ok(d)
}

} // verus!
