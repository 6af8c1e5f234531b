use ledger_reports::dates::Date;
use ledger_reports::doc::{
    Amount, Item, LedgerDocument, PostingLine, PostingValue, PriceAnn, Side, Txn,
};
use ledger_reports::model::{Model, Timestamp};
use ledger_reports::qty::Qty;

fn coffee_doc() -> LedgerDocument {
    LedgerDocument {
        items: vec![Item::Txn(Txn {
            date: Date { year: 2024, month: 1, day: 15 },
            effective_date: None,
            description: Some("Coffee".to_string()),
            postings: vec![PostingLine {
                account: "Expenses:Food".to_string(),
                amount: Some(PostingValue {
                    amount: Amount {
                        qty: Qty { mantissa: 500, scale: 2 },
                        commodity: "USD".to_string(),
                        side: Side::Right,
                    },
                    price: Some(PriceAnn::Unit(Amount {
                        qty: Qty { mantissa: 10, scale: 2 },
                        commodity: "INR".to_string(),
                        side: Side::Right,
                    })),
                }),
            }],
        })],
    }
}

fn model() -> Model {
    Model::new(
        "books/main.ledger".to_string(),
        "INR".to_string(),
        vec!["USD".to_string()],
        coffee_doc(),
        Timestamp { secs: 100, nanos: 0 },
    )
}

#[test]
fn freshness_same_time_is_not_stale() {
    let m = model();
    assert!(!m.is_stale(Timestamp { secs: 100, nanos: 0 }));
    assert!(!m.is_stale(Timestamp { secs: 99, nanos: 999_999_999 }));
}

#[test]
fn freshness_touch_triggers_reload() {
    // a touched file carries a newer mtime even with identical content,
    // and the reload path must be taken
    let m = model();
    assert!(m.is_stale(Timestamp { secs: 100, nanos: 1 }));
    assert!(m.is_stale(Timestamp { secs: 101, nanos: 0 }));
}

#[test]
fn install_replaces_document_and_time() {
    let mut m = model();
    m.install(coffee_doc(), Timestamp { secs: 200, nanos: 5 });
    assert!(!m.is_stale(Timestamp { secs: 200, nanos: 5 }));
    assert!(m.is_stale(Timestamp { secs: 200, nanos: 6 }));
}

#[test]
fn monthly_with_conversion_reports_in_native_currency() {
    let m = model();
    let rows = m.monthly("Expenses:Food".to_string(), true).unwrap();
    assert_eq!(rows.len(), 1);
    assert_eq!(rows[0].amount, Qty { mantissa: 50, scale: 2 });
    assert_eq!(rows[0].date, Some(Date { year: 2024, month: 1, day: 31 }));
}

#[test]
fn monthly_without_conversion_keeps_original_amounts() {
    let m = model();
    let rows = m.monthly("Expenses:Food".to_string(), false).unwrap();
    assert_eq!(rows[0].amount, Qty { mantissa: 500, scale: 2 });
}

#[test]
fn balance_with_conversion() {
    let m = model();
    let row = m.balance("Expenses:Food".to_string(), true).unwrap();
    assert_eq!(row.amount, Qty { mantissa: 50, scale: 2 });
    assert_eq!(row.date, None);
}

#[test]
fn cashflow_with_conversion() {
    let m = model();
    let rows = m.cashflow("Expenses:Food".to_string(), true).unwrap();
    assert_eq!(rows.len(), 1);
    assert_eq!(rows[0].amount, Qty { mantissa: 50, scale: 2 });
}

#[test]
fn convert_to_currency_rewrites_in_place() {
    let mut m = model();
    m.convert_to_currency(&"INR".to_string(), &vec!["USD".to_string()])
        .unwrap();
    let rows = m.monthly("Expenses:Food".to_string(), false).unwrap();
    assert_eq!(rows[0].amount, Qty { mantissa: 50, scale: 2 });
}

#[test]
fn new_transaction_is_the_stub() {
    let t = ledger_reports::doc::new_transaction();
    assert_eq!(t.date, Date { year: 2021, month: 1, day: 1 });
    assert_eq!(t.description, Some("Hello".to_string()));
    assert_eq!(t.postings.len(), 1);
    assert_eq!(t.postings[0].account, "ABC");
    assert!(t.postings[0].amount.is_none());
}

#[test]
fn native_currency_carries_the_flag() {
    let n = ledger_reports::model::NativeCurrency { convert_commodity: true };
    assert!(n.convert_commodity);
}
