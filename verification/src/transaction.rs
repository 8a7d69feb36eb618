//! Transactions and postings, and the errors the aggregation engine reports.
use vstd::prelude::*;
use crate::quantity::Quantity;

verus! {

/// One line of a double-entry transaction: an account and, optionally, a
/// signed amount. A posting without an amount is the one whose quantity the
/// resolver infers from the zero-sum law.
#[derive(Clone, Debug)]
pub struct Posting {
    pub account: String,
    pub amount: Option<Quantity>,
}

/// An ordered group of postings whose amounts sum to zero. The engine only
/// reads transactions, never mutates them.
#[derive(Clone, Debug)]
pub struct Transaction {
    pub postings: Vec<Posting>,
}

/// A posting with its quantity made concrete by the resolver.
#[derive(Clone, Debug)]
pub struct ResolvedPosting {
    pub account: String,
    pub quantity: Quantity,
}

/// The error kinds the engine reports, always as return values.
#[derive(Clone, Copy, Debug, PartialEq, Eq, Structural)]
pub enum LedgerError {
    /// A per-account read named an account no transaction has touched.
    AccountNotFound,
    /// More than one posting of a transaction lacks an amount, so the
    /// zero-sum law does not determine the missing quantities.
    MalformedTransaction,
    /// An exact sum left the representable range of quantities.
    ArithmeticOverflow,
}

/// A posting's amount, when present, is a well-formed quantity.
pub open spec fn posting_wf(p: Posting) -> bool {
    p.amount is Some ==> p.amount.unwrap().wf()
}

/// Every posting of the sequence is well-formed.
pub open spec fn postings_wf(ps: Seq<Posting>) -> bool {
    forall|i: int| 0 <= i < ps.len() ==> posting_wf(#[trigger] ps[i])
}

impl Transaction {
    pub open spec fn wf(&self) -> bool {
        postings_wf(self.postings@)
    }
}

} // verus!
