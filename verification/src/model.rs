//! The façade owning the current in-memory ledger: the source path, the
//! freshness timestamp, the configured currencies, and one method per query.
use vstd::prelude::*;
use crate::convert::{convert_document, foreign_view, spec_convert};
use crate::doc::{clone_document, clone_string, sort_document_by_date, sort_items_by_date, DocV,
    LedgerDocument};
use crate::errors::LedgerError;
use crate::report::{
    balance_report, cashflow_report, monthly_report, rows_view, spec_balance, spec_cashflow,
    spec_monthly, spec_split, split_report, all_entries, LedgerResponse, RowV,
};

verus! {

/// A file modification time: seconds and nanoseconds since the epoch.
#[derive(Clone, Copy, PartialEq, Eq, Structural, Debug)]
pub struct Timestamp {
    pub secs: i64,
    pub nanos: u32,
}

/// Is `a` strictly earlier than `b`?
pub open spec fn ts_before(a: Timestamp, b: Timestamp) -> bool {
    a.secs < b.secs || (a.secs == b.secs && a.nanos < b.nanos)
}

/// The query parameter selecting conversion into the native currency.
pub struct NativeCurrency {
    pub convert_commodity: bool,
}

/// The document a query runs on: converted into the native currency when the
/// query asks for it, the owned document as it stands otherwise.
pub open spec fn spec_query_doc(
    d: DocV,
    native: Seq<char>,
    foreign: Seq<Seq<char>>,
    convert: bool,
) -> Result<DocV, LedgerError> {
    if convert {
        spec_convert(d, native, foreign)
    } else {
        Ok(d)
    }
}

pub struct Model {
    doc: LedgerDocument,
    path: String,
    native_currency: String,
    foreign_currency: Vec<String>,
    modified: Timestamp,
}

pub ghost struct ModelV {
    pub doc: DocV,
    pub path: Seq<char>,
    pub native_currency: Seq<char>,
    pub foreign_currency: Seq<Seq<char>>,
    pub modified: Timestamp,
}

impl View for Model {
    type V = ModelV;

    closed spec fn view(&self) -> ModelV {
        ModelV {
            doc: self.doc@,
            path: self.path@,
            native_currency: self.native_currency@,
            foreign_currency: foreign_view(self.foreign_currency@),
            modified: self.modified,
        }
    }
}

impl Model {
    pub open spec fn wf(self) -> bool {
        self@.doc.wf()
    }

    /// Build the façade around an already-resolved document.
    pub fn new(
        path: String,
        native_currency: String,
        foreign_currency: Vec<String>,
        doc: LedgerDocument,
        modified: Timestamp,
    ) -> (m: Model)
        requires
            doc@.wf(),
        ensures
            m.wf(),
            m@.doc == doc@,
            m@.path == path@,
            m@.native_currency == native_currency@,
            m@.foreign_currency == foreign_view(foreign_currency@),
            m@.modified == modified,
    {
        Model { doc, path, native_currency, foreign_currency, modified }
    }

    /// The freshness decision: must the document be reloaded for a file now
    /// carrying this modification time?
    pub fn is_stale(&self, current: Timestamp) -> (r: bool)
        ensures
            r == ts_before(self@.modified, current),
    {
        self.modified.secs < current.secs || (self.modified.secs == current.secs
            && self.modified.nanos < current.nanos)
    }

    /// The stored source path.
    pub fn source_path(&self) -> (r: String)
        ensures
            r@ == self@.path,
    {
        clone_string(&self.path)
    }

    /// Atomically replace the document and the stored modification time;
    /// everything else is kept.
    pub fn install(&mut self, doc: LedgerDocument, modified: Timestamp)
        requires
            old(self).wf(),
            doc@.wf(),
        ensures
            final(self).wf(),
            final(self)@.doc == doc@,
            final(self)@.modified == modified,
            final(self)@.path == old(self)@.path,
            final(self)@.native_currency == old(self)@.native_currency,
            final(self)@.foreign_currency == old(self)@.foreign_currency,
    {
        self.doc = doc;
        self.modified = modified;
    }

    /// Rewrite the owned document into the given native currency. On an
    /// error no partial conversion is kept.
    pub fn convert_to_currency(&mut self, native_currency: &String, foreign_currency: &Vec<String>) -> (r:
        Result<(), LedgerError>)
        requires
            old(self).wf(),
        ensures
            final(self).wf(),
            final(self)@.path == old(self)@.path,
            final(self)@.native_currency == old(self)@.native_currency,
            final(self)@.foreign_currency == old(self)@.foreign_currency,
            final(self)@.modified == old(self)@.modified,
            r matches Ok(u) ==> spec_convert(
                old(self)@.doc,
                native_currency@,
                foreign_view(foreign_currency@),
            ) == Ok::<DocV, LedgerError>(final(self)@.doc),
            r matches Err(e) ==> spec_convert(
                old(self)@.doc,
                native_currency@,
                foreign_view(foreign_currency@),
            ) == Err::<DocV, LedgerError>(e) && final(self)@.doc == old(self)@.doc,
    {
        match convert_document(&self.doc, native_currency, foreign_currency) {
            Ok(d2) => {
                proof {
                    crate::convert::lemma_convert_wf(
                        self@.doc,
                        native_currency@,
                        foreign_view(foreign_currency@),
                    );
                }
                self.doc = d2;
                Ok(())
            },
            Err(e) => Err(e),
        }
    }

    /// Reorder the owned document's items chronologically; equal dates keep
    /// their document order. Reports do not depend on item order, so this
    /// only affects how the document is displayed.
    pub fn sort_by_date(&mut self)
        requires
            old(self).wf(),
        ensures
            final(self).wf(),
            final(self)@.doc.items == sort_items_by_date(old(self)@.doc.items),
            final(self)@.path == old(self)@.path,
            final(self)@.native_currency == old(self)@.native_currency,
            final(self)@.foreign_currency == old(self)@.foreign_currency,
            final(self)@.modified == old(self)@.modified,
    {
        let sorted = sort_document_by_date(&self.doc);
        self.doc = sorted;
    }

    /// The document a query with this conversion flag runs on.
    fn query_doc(&self, convert_commodity: bool) -> (r: Result<LedgerDocument, LedgerError>)
        requires
            self.wf(),
        ensures
            r matches Ok(d) ==> spec_query_doc(
                self@.doc,
                self@.native_currency,
                self@.foreign_currency,
                convert_commodity,
            ) == Ok::<DocV, LedgerError>(d@) && d@.wf(),
            r matches Err(e) ==> spec_query_doc(
                self@.doc,
                self@.native_currency,
                self@.foreign_currency,
                convert_commodity,
            ) == Err::<DocV, LedgerError>(e),
    {
        if convert_commodity {
            let r = convert_document(&self.doc, &self.native_currency, &self.foreign_currency);
            proof {
                if r is Ok {
                    crate::convert::lemma_convert_wf(
                        self@.doc,
                        self@.native_currency,
                        self@.foreign_currency,
                    );
                }
            }
            r
        } else {
            Ok(clone_document(&self.doc))
        }
    }

    /// The monthly report over the owned document, optionally converted
    /// first.
    pub fn monthly(&self, account: String, convert_commodity: bool) -> (r: Result<
        Vec<LedgerResponse>,
        LedgerError,
    >)
        requires
            self.wf(),
        ensures
            r matches Ok(rows) ==> spec_query_doc(
                self@.doc,
                self@.native_currency,
                self@.foreign_currency,
                convert_commodity,
            ) is Ok && spec_monthly(
                spec_query_doc(
                    self@.doc,
                    self@.native_currency,
                    self@.foreign_currency,
                    convert_commodity,
                )->Ok_0,
                account@,
            ) == Some(rows_view(rows@)),
            r matches Err(e) ==> spec_query_doc(
                self@.doc,
                self@.native_currency,
                self@.foreign_currency,
                convert_commodity,
            ) == Err::<DocV, LedgerError>(e) || (e == LedgerError::ArithmeticOverflow
                && spec_query_doc(
                self@.doc,
                self@.native_currency,
                self@.foreign_currency,
                convert_commodity,
            ) is Ok && spec_monthly(
                spec_query_doc(
                    self@.doc,
                    self@.native_currency,
                    self@.foreign_currency,
                    convert_commodity,
                )->Ok_0,
                account@,
            ) is None),
    {
        let d = match self.query_doc(convert_commodity) {
            Ok(d) => d,
            Err(e) => {
                return Err(e);
            },
        };
        monthly_report(&d, &account)
    }

    /// The cashflow report over the owned document, optionally converted
    /// first.
    pub fn cashflow(&self, account: String, convert_commodity: bool) -> (r: Result<
        Vec<LedgerResponse>,
        LedgerError,
    >)
        requires
            self.wf(),
        ensures
            r matches Ok(rows) ==> spec_query_doc(
                self@.doc,
                self@.native_currency,
                self@.foreign_currency,
                convert_commodity,
            ) is Ok && spec_cashflow(
                spec_query_doc(
                    self@.doc,
                    self@.native_currency,
                    self@.foreign_currency,
                    convert_commodity,
                )->Ok_0,
                account@,
            ) == Some(rows_view(rows@)),
            r matches Err(e) ==> spec_query_doc(
                self@.doc,
                self@.native_currency,
                self@.foreign_currency,
                convert_commodity,
            ) == Err::<DocV, LedgerError>(e) || (e == LedgerError::ArithmeticOverflow
                && spec_query_doc(
                self@.doc,
                self@.native_currency,
                self@.foreign_currency,
                convert_commodity,
            ) is Ok && spec_cashflow(
                spec_query_doc(
                    self@.doc,
                    self@.native_currency,
                    self@.foreign_currency,
                    convert_commodity,
                )->Ok_0,
                account@,
            ) is None),
    {
        let d = match self.query_doc(convert_commodity) {
            Ok(d) => d,
            Err(e) => {
                return Err(e);
            },
        };
        cashflow_report(&d, &account)
    }

    /// The balance report over the owned document, optionally converted
    /// first; the stored native currency is the display commodity.
    pub fn balance(&self, account: String, convert_commodity: bool) -> (r: Result<
        LedgerResponse,
        LedgerError,
    >)
        requires
            self.wf(),
        ensures
            r matches Ok(row) ==> spec_query_doc(
                self@.doc,
                self@.native_currency,
                self@.foreign_currency,
                convert_commodity,
            ) is Ok && spec_balance(
                all_entries(
                    spec_query_doc(
                        self@.doc,
                        self@.native_currency,
                        self@.foreign_currency,
                        convert_commodity,
                    )->Ok_0.items,
                ),
                account@,
                self@.native_currency,
            ) == Ok::<RowV, LedgerError>(row@),
            r matches Err(e) ==> spec_query_doc(
                self@.doc,
                self@.native_currency,
                self@.foreign_currency,
                convert_commodity,
            ) == Err::<DocV, LedgerError>(e) || (spec_query_doc(
                self@.doc,
                self@.native_currency,
                self@.foreign_currency,
                convert_commodity,
            ) is Ok && spec_balance(
                all_entries(
                    spec_query_doc(
                        self@.doc,
                        self@.native_currency,
                        self@.foreign_currency,
                        convert_commodity,
                    )->Ok_0.items,
                ),
                account@,
                self@.native_currency,
            ) == Err::<RowV, LedgerError>(e)),
    {
        let d = match self.query_doc(convert_commodity) {
            Ok(d) => d,
            Err(e) => {
                return Err(e);
            },
        };
        balance_report(&d, &account, &self.native_currency)
    }

    /// The split report over the owned document: the immediate children of
    /// the account path, each with its subtree total in the native currency.
    pub fn split(&self, account_path: String) -> (r: Result<Vec<LedgerResponse>, LedgerError>)
        requires
            self.wf(),
        ensures
            r matches Ok(rows) ==> spec_split(self@.doc, account_path@, self@.native_currency)
                == Ok::<Seq<RowV>, LedgerError>(rows_view(rows@)),
            r matches Err(e) ==> spec_split(self@.doc, account_path@, self@.native_currency)
                == Err::<Seq<RowV>, LedgerError>(e),
    {
        split_report(&self.doc, &account_path, &self.native_currency)
    }
}

} // verus!
