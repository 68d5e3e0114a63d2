//! Expense settlement engine.
//!
//! Given a block of text with one `name amount` pair per line, the engine
//! computes a small set of peer-to-peer payments that equalizes everyone's
//! net contribution to the group average. The plan is provably minimal
//! when a single creditor exists and for exactly matching pairs; the
//! remainder is settled by a greedy two-cursor heuristic.
//!
//! Money is modeled in integer minor units (hundredths), so all arithmetic
//! is exact and no floating-point epsilon is needed. The fair share of a
//! group of `n` participants is `total / n`, which need not be a whole
//! number of minor units; balances and transaction amounts are therefore
//! kept scaled by `n` (a transaction amount `a` stands for `a / n` minor
//! units), which keeps every intermediate value an exact integer.

pub mod classify;
pub mod engine;
pub mod laws;
pub mod numfmt;
pub mod parse;
pub mod plan;
pub mod types;

pub use engine::settle;
pub use types::AMOUNT_LIMIT;
pub use types::Contribution;
pub use types::ContributionView;
pub use types::Flow;
pub use types::FlowView;
pub use types::ParseError;
pub use types::ParseErrorKind;
pub use types::ParseErrorView;
pub use types::Party;
pub use types::PartyView;
pub use types::Settlement;
pub use types::Transaction;
pub use types::TransactionView;
