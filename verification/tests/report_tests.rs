use ledger_reports::dates::{get_month_last_date, Date};
use ledger_reports::doc::{Amount, Item, LedgerDocument, PostingLine, PostingValue, Side, Txn};
use ledger_reports::errors::LedgerError;
use ledger_reports::qty::{Qty, MANTISSA_LIMIT};
use ledger_reports::doc::sort_document_by_date;
use ledger_reports::report::{balance_report, cashflow_report, monthly_report, split_report};

fn txn(year: i32, month: u32, day: u32, account: &str, mantissa: i128, commodity: &str) -> Item {
    Item::Txn(Txn {
        date: Date { year, month, day },
        effective_date: None,
        description: None,
        postings: vec![PostingLine {
            account: account.to_string(),
            amount: Some(PostingValue {
                amount: Amount {
                    qty: Qty { mantissa, scale: 2 },
                    commodity: commodity.to_string(),
                    side: Side::Right,
                },
                price: None,
            }),
        }],
    })
}

fn sample_doc() -> LedgerDocument {
    LedgerDocument {
        items: vec![
            txn(2024, 1, 10, "Expenses:Food", 6000, "INR"),
            txn(2024, 1, 20, "Expenses:Food", 4000, "INR"),
            txn(2024, 2, 5, "Expenses:Food", -3000, "INR"),
            txn(2024, 3, 1, "Assets:Cash", 100, "INR"),
        ],
    }
}

#[test]
fn days_in_month() {
    assert_eq!(get_month_last_date(2, 2024), 29);
    assert_eq!(get_month_last_date(2, 2023), 28);
    assert_eq!(get_month_last_date(2, 1900), 28);
    assert_eq!(get_month_last_date(2, 2000), 29);
    assert_eq!(get_month_last_date(12, 2024), 31);
    assert_eq!(get_month_last_date(4, 2024), 30);
}

#[test]
fn monthly_buckets_and_month_end_dates() {
    let rows = monthly_report(&sample_doc(), &"Expenses:Food".to_string()).unwrap();
    assert_eq!(rows.len(), 2);
    assert_eq!(rows[0].date, Some(Date { year: 2024, month: 1, day: 31 }));
    assert_eq!(rows[0].amount, Qty { mantissa: 10000, scale: 2 });
    assert_eq!(rows[0].account, Some("Expenses:Food".to_string()));
    assert_eq!(rows[1].date, Some(Date { year: 2024, month: 2, day: 29 }));
    assert_eq!(rows[1].amount, Qty { mantissa: -3000, scale: 2 });
}

#[test]
fn monthly_omits_empty_buckets_and_other_accounts() {
    let rows = monthly_report(&sample_doc(), &"Assets:Cash".to_string()).unwrap();
    assert_eq!(rows.len(), 1);
    assert_eq!(rows[0].date, Some(Date { year: 2024, month: 3, day: 31 }));
}

#[test]
fn monthly_of_absent_account_is_empty() {
    let rows = monthly_report(&sample_doc(), &"Nothing:Here".to_string()).unwrap();
    assert!(rows.is_empty());
}

#[test]
fn cashflow_is_a_running_sum() {
    let rows = cashflow_report(&sample_doc(), &"Expenses:Food".to_string()).unwrap();
    assert_eq!(rows.len(), 2);
    assert_eq!(rows[0].amount, Qty { mantissa: 10000, scale: 2 });
    assert_eq!(rows[1].amount, Qty { mantissa: 7000, scale: 2 });
    assert_eq!(rows[1].date, Some(Date { year: 2024, month: 2, day: 29 }));
}

#[test]
fn cashflow_nondecreasing_for_positive_changes() {
    let doc = LedgerDocument {
        items: vec![
            txn(2024, 1, 1, "Income:Salary", 1000, "INR"),
            txn(2024, 2, 1, "Income:Salary", 500, "INR"),
            txn(2024, 3, 1, "Income:Salary", 250, "INR"),
        ],
    };
    let rows = cashflow_report(&doc, &"Income:Salary".to_string()).unwrap();
    assert_eq!(rows.len(), 3);
    for w in rows.windows(2) {
        assert!(w[0].amount.mantissa <= w[1].amount.mantissa);
        assert_eq!(w[0].amount.scale, w[1].amount.scale);
    }
}

#[test]
fn balance_sums_whole_document() {
    let row = balance_report(&sample_doc(), &"Expenses:Food".to_string(), &"INR".to_string())
        .unwrap();
    assert_eq!(row.date, None);
    assert_eq!(row.amount, Qty { mantissa: 7000, scale: 2 });
    assert_eq!(row.account, Some("Expenses:Food".to_string()));
}

#[test]
fn balance_without_matching_commodity_fails() {
    let err = balance_report(&sample_doc(), &"Expenses:Food".to_string(), &"USD".to_string())
        .unwrap_err();
    assert_eq!(err, LedgerError::NoSuchCommodity);
}

fn split_doc() -> LedgerDocument {
    LedgerDocument {
        items: vec![
            txn(2024, 1, 1, "Expenses/Food", 5000, "INR"),
            txn(2024, 1, 2, "Expenses/Rent", 10000, "INR"),
            txn(2024, 1, 3, "Expenses/Food/Snacks", 100, "INR"),
        ],
    }
}

#[test]
fn split_emits_children_sorted_by_amount_descending() {
    let rows = split_report(&split_doc(), &"Expenses".to_string(), &"INR".to_string()).unwrap();
    assert_eq!(rows.len(), 2);
    assert_eq!(rows[0].account, Some("Rent".to_string()));
    assert_eq!(rows[0].amount, Qty { mantissa: 10000, scale: 2 });
    // the Food child aggregates its own subtree, Snacks included
    assert_eq!(rows[1].account, Some("Food".to_string()));
    assert_eq!(rows[1].amount, Qty { mantissa: 5100, scale: 2 });
    assert_eq!(rows[0].date, None);
}

#[test]
fn split_children_sum_to_parent_subtree_total() {
    // the parent has no directly posted amount, so the children cover it all
    let rows = split_report(&split_doc(), &"Expenses".to_string(), &"INR".to_string()).unwrap();
    let total: i128 = rows.iter().map(|r| r.amount.mantissa).sum();
    let parent = {
        // every posting in the sample lies under Expenses
        5000 + 10000 + 100
    };
    assert_eq!(total, parent);
}

#[test]
fn split_of_absent_account_fails() {
    let err =
        split_report(&split_doc(), &"Liabilities".to_string(), &"INR".to_string()).unwrap_err();
    assert_eq!(err, LedgerError::NoSuchAccount);
}

#[test]
fn split_stable_on_ties() {
    let doc = LedgerDocument {
        items: vec![
            txn(2024, 1, 1, "Expenses/A", 100, "INR"),
            txn(2024, 1, 2, "Expenses/B", 100, "INR"),
        ],
    };
    let rows = split_report(&doc, &"Expenses".to_string(), &"INR".to_string()).unwrap();
    assert_eq!(rows[0].account, Some("A".to_string()));
    assert_eq!(rows[1].account, Some("B".to_string()));
}

#[test]
fn sort_by_date_is_stable_and_chronological() {
    let doc = LedgerDocument {
        items: vec![
            txn(2024, 2, 5, "Expenses:Food", -3000, "INR"),
            txn(2024, 1, 20, "Expenses:Food", 4000, "INR"),
            Item::Other,
            txn(2024, 1, 20, "Assets:Cash", 1, "INR"),
        ],
    };
    let sorted = sort_document_by_date(&doc);
    // non-transactions sort as the first day of 2021, so ahead of 2024
    assert!(matches!(sorted.items[0], Item::Other));
    // the two postings of 2024-01-20 keep their relative order
    assert!(matches!(&sorted.items[1], Item::Txn(t) if t.postings[0].account == "Expenses:Food"));
    assert!(matches!(&sorted.items[2], Item::Txn(t) if t.postings[0].account == "Assets:Cash"));
    assert!(matches!(&sorted.items[3], Item::Txn(t) if t.date.month == 2));
}

#[test]
fn balance_overflow_is_surfaced() {
    let huge = |day: u32| {
        Item::Txn(Txn {
            date: Date { year: 2024, month: 1, day },
            effective_date: None,
            description: None,
            postings: vec![PostingLine {
                account: "Assets:Cash".to_string(),
                amount: Some(PostingValue {
                    amount: Amount {
                        qty: Qty { mantissa: MANTISSA_LIMIT, scale: 0 },
                        commodity: "INR".to_string(),
                        side: Side::Right,
                    },
                    price: None,
                }),
            }],
        })
    };
    let doc = LedgerDocument { items: vec![huge(1), huge(2)] };
    let err = balance_report(&doc, &"Assets:Cash".to_string(), &"INR".to_string()).unwrap_err();
    assert_eq!(err, LedgerError::ArithmeticOverflow);
}
