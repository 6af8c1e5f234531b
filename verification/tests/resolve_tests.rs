use ledger_reports::dates::Date;
use ledger_reports::doc::{Item, LedgerDocument, PostingLine, Txn};
use ledger_reports::errors::LedgerError;
use ledger_reports::resolve::Resolver;

fn doc_with(items: Vec<Item>) -> LedgerDocument {
    LedgerDocument { items }
}

fn marker_txn(day: u32) -> Item {
    Item::Txn(Txn {
        date: Date { year: 2024, month: 1, day },
        effective_date: None,
        description: None,
        postings: vec![PostingLine { account: "Assets:Cash".to_string(), amount: None }],
    })
}

#[test]
fn resolves_a_single_file() {
    let mut r = Resolver::new(&"books/main.ledger".to_string());
    assert_eq!(r.next_request(), Some("books/main.ledger".to_string()));
    r.supply(&doc_with(vec![marker_txn(1)])).unwrap();
    assert_eq!(r.next_request(), None);
    let doc = r.take_document();
    assert_eq!(doc.items.len(), 1);
}

#[test]
fn referenced_files_are_read_relative_to_their_parent() {
    let mut r = Resolver::new(&"books/main.ledger".to_string());
    r.next_request().unwrap();
    r.supply(&doc_with(vec![
        marker_txn(1),
        Item::FileRef("extra.ledger".to_string()),
    ]))
    .unwrap();
    assert_eq!(r.next_request(), Some("books/extra.ledger".to_string()));
    r.supply(&doc_with(vec![marker_txn(2)])).unwrap();
    assert_eq!(r.next_request(), None);
    let doc = r.take_document();
    // parent items first, referenced items appended after them
    assert_eq!(doc.items.len(), 3);
    assert!(matches!(doc.items[2], Item::Txn(ref t) if t.date.day == 2));
}

#[test]
fn repeated_references_duplicate_items_by_design() {
    let mut r = Resolver::new(&"b/main.ledger".to_string());
    r.next_request().unwrap();
    r.supply(&doc_with(vec![
        Item::FileRef("x.ledger".to_string()),
        Item::FileRef("x.ledger".to_string()),
    ]))
    .unwrap();
    assert_eq!(r.next_request(), Some("b/x.ledger".to_string()));
    r.supply(&doc_with(vec![marker_txn(1)])).unwrap();
    assert_eq!(r.next_request(), Some("b/x.ledger".to_string()));
    r.supply(&doc_with(vec![marker_txn(1)])).unwrap();
    assert_eq!(r.next_request(), None);
    let doc = r.take_document();
    let markers = doc.items.iter().filter(|it| matches!(it, Item::Txn(_))).count();
    assert_eq!(markers, 2);
}

#[test]
fn references_may_descend_into_subdirectories() {
    let mut r = Resolver::new(&"books/main.ledger".to_string());
    r.next_request().unwrap();
    r.supply(&doc_with(vec![Item::FileRef("sub/x.ledger".to_string())]))
        .unwrap();
    assert_eq!(r.next_request(), Some("books/sub/x.ledger".to_string()));
    r.supply(&doc_with(vec![marker_txn(3)])).unwrap();
    assert_eq!(r.next_request(), None);
}

#[test]
fn reference_cycle_is_a_detectable_error() {
    let mut r = Resolver::new(&"b/a.ledger".to_string());
    r.next_request().unwrap();
    r.supply(&doc_with(vec![Item::FileRef("b.ledger".to_string())]))
        .unwrap();
    assert_eq!(r.next_request(), Some("b/b.ledger".to_string()));
    let err = r
        .supply(&doc_with(vec![Item::FileRef("a.ledger".to_string())]))
        .unwrap_err();
    assert_eq!(err, LedgerError::RefCycle("b/a.ledger".to_string()));
}
