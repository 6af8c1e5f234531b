use ledger_reports::dates::Date;
use ledger_reports::doc::{Item, PriceAnn, Side};
use ledger_reports::errors::LedgerError;
use ledger_reports::parse::parse_document;
use ledger_reports::qty::Qty;

#[test]
fn parses_a_transaction_with_a_unit_price() {
    let text = "2024-01-15 Coffee\n  Expenses:Food  5.00 USD @ 0.10 INR\n";
    let doc = parse_document(text).unwrap();
    let t = doc
        .items
        .iter()
        .find_map(|it| match it {
            Item::Txn(t) => Some(t),
            _ => None,
        })
        .expect("one transaction");
    assert_eq!(t.date, Date { year: 2024, month: 1, day: 15 });
    assert_eq!(t.description, Some("Coffee".to_string()));
    assert_eq!(t.postings.len(), 1);
    let p = &t.postings[0];
    assert_eq!(p.account, "Expenses:Food");
    let pa = p.amount.as_ref().expect("an amount");
    assert_eq!(pa.amount.qty, Qty { mantissa: 500, scale: 2 });
    assert_eq!(pa.amount.commodity, "USD");
    assert_eq!(pa.amount.side, Side::Right);
    match pa.price.as_ref().expect("a price") {
        PriceAnn::Unit(rate) => {
            assert_eq!(rate.qty, Qty { mantissa: 10, scale: 2 });
            assert_eq!(rate.commodity, "INR");
        }
        PriceAnn::Total(_) => panic!("expected a unit price"),
    }
}

#[test]
fn parses_a_total_price() {
    let text = "2024-02-01 Transfer\n  Assets:Cash  3.00 USD @@ 25.12 INR\n";
    let doc = parse_document(text).unwrap();
    let t = match &doc.items[..] {
        [Item::Txn(t)] => t,
        items => panic!("unexpected items: {}", items.len()),
    };
    match t.postings[0].amount.as_ref().unwrap().price.as_ref().unwrap() {
        PriceAnn::Total(tot) => {
            assert_eq!(tot.qty, Qty { mantissa: 2512, scale: 2 });
            assert_eq!(tot.commodity, "INR");
        }
        PriceAnn::Unit(_) => panic!("expected a total price"),
    }
}

#[test]
fn parses_file_reference_directives() {
    let doc = parse_document("include other.ledger\n").unwrap();
    let refs: Vec<_> = doc
        .items
        .iter()
        .filter_map(|it| match it {
            Item::FileRef(p) => Some(p.clone()),
            _ => None,
        })
        .collect();
    assert_eq!(refs, vec!["other.ledger".to_string()]);
}

#[test]
fn malformed_text_is_a_parse_error() {
    let err = parse_document("2024-13-45 nonsense ~~ ::\n  x\n").unwrap_err();
    assert!(matches!(err, LedgerError::Parse(_)));
}

#[test]
fn empty_text_parses_to_an_empty_document() {
    let doc = parse_document("").unwrap();
    assert!(doc
        .items
        .iter()
        .all(|it| matches!(it, Item::Other)));
}
