use ledger_reports::convert::convert_document;
use ledger_reports::dates::Date;
use ledger_reports::doc::{
    Amount, Item, LedgerDocument, PostingLine, PostingValue, PriceAnn, Side, Txn,
};
use ledger_reports::errors::LedgerError;
use ledger_reports::qty::{Qty, MANTISSA_LIMIT};

fn amount(mantissa: i128, scale: u32, commodity: &str) -> Amount {
    Amount { qty: Qty { mantissa, scale }, commodity: commodity.to_string(), side: Side::Right }
}

fn one_posting_doc(p: PostingLine) -> LedgerDocument {
    LedgerDocument {
        items: vec![Item::Txn(Txn {
            date: Date { year: 2024, month: 1, day: 15 },
            effective_date: None,
            description: Some("Coffee".to_string()),
            postings: vec![p],
        })],
    }
}

fn posting_of(doc: &LedgerDocument) -> &PostingLine {
    match &doc.items[0] {
        Item::Txn(t) => &t.postings[0],
        _ => panic!("expected a transaction"),
    }
}

#[test]
fn unit_price_conversion_scales_and_rounds() {
    // 5.00 USD @ 0.10 INR per unit becomes 0.50 INR
    let doc = one_posting_doc(PostingLine {
        account: "Expenses:Food".to_string(),
        amount: Some(PostingValue {
            amount: amount(500, 2, "USD"),
            price: Some(PriceAnn::Unit(amount(10, 2, "INR"))),
        }),
    });
    let out = convert_document(&doc, &"INR".to_string(), &vec!["USD".to_string()]).unwrap();
    let p = posting_of(&out);
    let pa = p.amount.as_ref().unwrap();
    assert_eq!(pa.amount.qty, Qty { mantissa: 50, scale: 2 });
    assert_eq!(pa.amount.commodity, "INR");
    assert!(pa.price.is_none());
}

#[test]
fn total_price_is_taken_verbatim() {
    let doc = one_posting_doc(PostingLine {
        account: "Assets:Cash".to_string(),
        amount: Some(PostingValue {
            amount: amount(300, 2, "USD"),
            price: Some(PriceAnn::Total(amount(2512, 2, "INR"))),
        }),
    });
    let out = convert_document(&doc, &"INR".to_string(), &vec!["USD".to_string()]).unwrap();
    let pa = posting_of(&out).amount.as_ref().unwrap();
    assert_eq!(pa.amount.qty, Qty { mantissa: 2512, scale: 2 });
    assert_eq!(pa.amount.commodity, "INR");
}

#[test]
fn wildcard_matches_any_commodity() {
    let doc = one_posting_doc(PostingLine {
        account: "Assets:Cash".to_string(),
        amount: Some(PostingValue {
            amount: amount(100, 2, "EUR"),
            price: Some(PriceAnn::Unit(amount(90, 2, "INR"))),
        }),
    });
    let out = convert_document(&doc, &"INR".to_string(), &vec!["*".to_string()]).unwrap();
    let pa = posting_of(&out).amount.as_ref().unwrap();
    assert_eq!(pa.amount.commodity, "INR");
}

#[test]
fn native_postings_are_untouched() {
    let doc = one_posting_doc(PostingLine {
        account: "Assets:Cash".to_string(),
        amount: Some(PostingValue { amount: amount(100, 2, "INR"), price: None }),
    });
    let out = convert_document(&doc, &"INR".to_string(), &vec!["*".to_string()]).unwrap();
    assert_eq!(out, doc);
}

#[test]
fn missing_price_is_fatal() {
    let doc = one_posting_doc(PostingLine {
        account: "Assets:Cash".to_string(),
        amount: Some(PostingValue { amount: amount(100, 2, "USD"), price: None }),
    });
    let err = convert_document(&doc, &"INR".to_string(), &vec!["USD".to_string()]).unwrap_err();
    assert_eq!(err, LedgerError::MissingPrice);
}

#[test]
fn conversion_is_idempotent_on_a_converted_document() {
    let doc = one_posting_doc(PostingLine {
        account: "Expenses:Food".to_string(),
        amount: Some(PostingValue {
            amount: amount(500, 2, "USD"),
            price: Some(PriceAnn::Unit(amount(10, 2, "INR"))),
        }),
    });
    let native = "INR".to_string();
    let foreign = vec!["USD".to_string()];
    let once = convert_document(&doc, &native, &foreign).unwrap();
    let twice = convert_document(&once, &native, &foreign).unwrap();
    assert_eq!(twice, once);
}

#[test]
fn conversion_overflow_is_surfaced() {
    let doc = one_posting_doc(PostingLine {
        account: "Assets:Cash".to_string(),
        amount: Some(PostingValue {
            amount: Amount {
                qty: Qty { mantissa: MANTISSA_LIMIT, scale: 0 },
                commodity: "USD".to_string(),
                side: Side::Right,
            },
            price: Some(PriceAnn::Unit(Amount {
                qty: Qty { mantissa: MANTISSA_LIMIT, scale: 0 },
                commodity: "INR".to_string(),
                side: Side::Right,
            })),
        }),
    });
    let err = convert_document(&doc, &"INR".to_string(), &vec!["USD".to_string()]).unwrap_err();
    assert_eq!(err, LedgerError::ArithmeticOverflow);
}
