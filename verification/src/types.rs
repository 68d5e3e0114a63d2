//! Data model of the settlement engine.
//!
//! Amounts are integers in minor units (hundredths of the currency unit).
//! Transaction amounts are additionally scaled by the participant count, so
//! that fair shares that are not whole numbers of minor units can still be
//! settled exactly.

use vstd::prelude::*;

verus! {

/// Largest accepted magnitude of a single contribution, in minor units
/// (one trillion currency units). Keeping every amount within this bound
/// makes all scaled-balance arithmetic fit comfortably in `i128`.
pub const AMOUNT_LIMIT: i64 = 100_000_000_000_000;

/// One ledger entry: a participant's name and what they actually paid
/// toward the shared expense, in minor units. Names need not be unique;
/// duplicate names are distinct ledger entries and are never merged.
#[derive(Debug, Clone, PartialEq, Eq)]
pub struct Contribution {
    pub name: String,
    pub amount: i64,
}

/// Mathematical model of a [`Contribution`].
pub struct ContributionView {
    pub name: Seq<char>,
    pub amount: int,
}

impl View for Contribution {
    type V = ContributionView;

    open spec fn view(&self) -> ContributionView {
        ContributionView { name: self.name@, amount: self.amount as int }
    }
}

/// The kind of a parse failure.
#[derive(Debug, Clone, Copy, PartialEq, Eq, Structural)]
pub enum ParseErrorKind {
    /// A non-blank line does not split into exactly two tokens.
    IncompleteLine,
    /// The second token of a line is not a number the engine accepts.
    NotANumber,
}

/// A parse failure: its kind and the zero-based index, among the
/// newline-separated lines of the input, of the offending line.
#[derive(Debug, Clone, Copy, PartialEq, Eq, Structural)]
pub struct ParseError {
    pub kind: ParseErrorKind,
    pub line_index: usize,
}

/// Mathematical model of a [`ParseError`].
pub struct ParseErrorView {
    pub kind: ParseErrorKind,
    pub line_index: int,
}

impl View for ParseError {
    type V = ParseErrorView;

    open spec fn view(&self) -> ParseErrorView {
        ParseErrorView { kind: self.kind, line_index: self.line_index as int }
    }
}

/// A participant together with the magnitude of their scaled imbalance:
/// `index` is the position of the underlying entry in the contribution
/// list, and `amount` is `|n * paid - total|`, always strictly positive.
#[derive(Debug, Clone, PartialEq, Eq)]
pub struct Party {
    pub index: usize,
    pub name: String,
    pub amount: i128,
}

/// Mathematical model of a [`Party`].
pub struct PartyView {
    pub index: int,
    pub name: Seq<char>,
    pub amount: int,
}

impl View for Party {
    type V = PartyView;

    open spec fn view(&self) -> PartyView {
        PartyView { index: self.index as int, name: self.name@, amount: self.amount as int }
    }
}

/// One planned payment, by entry position: the entry at `from` pays the
/// entry at `to` the scaled amount `amount` (that is, `amount / n` minor
/// units for a group of `n` participants).
#[derive(Debug, Clone, Copy, PartialEq, Eq, Structural)]
pub struct Flow {
    pub from: usize,
    pub to: usize,
    pub amount: i128,
}

/// Mathematical model of a [`Flow`].
pub struct FlowView {
    pub from: int,
    pub to: int,
    pub amount: int,
}

impl View for Flow {
    type V = FlowView;

    open spec fn view(&self) -> FlowView {
        FlowView { from: self.from as int, to: self.to as int, amount: self.amount as int }
    }
}

/// One planned payment, by name: `from` pays `to` the scaled amount
/// `amount` (that is, `amount / n` minor units for `n` participants).
#[derive(Debug, Clone, PartialEq, Eq)]
pub struct Transaction {
    pub from: String,
    pub to: String,
    pub amount: i128,
}

/// Mathematical model of a [`Transaction`].
pub struct TransactionView {
    pub from: Seq<char>,
    pub to: Seq<char>,
    pub amount: int,
}

impl View for Transaction {
    type V = TransactionView;

    open spec fn view(&self) -> TransactionView {
        TransactionView { from: self.from@, to: self.to@, amount: self.amount as int }
    }
}

/// The result of settling a shared expense: the parsed contributions, the
/// planned transactions (scaled by `participant_count`), a human-readable
/// trace, the total paid in minor units, and the participant count.
#[derive(Debug, Clone, PartialEq, Eq)]
pub struct Settlement {
    pub contributions: Vec<Contribution>,
    pub transactions: Vec<Transaction>,
    pub trace: String,
    pub total: i128,
    pub participant_count: usize,
}

/// The model of a sequence of contributions.
pub open spec fn contribs_view(cs: Seq<Contribution>) -> Seq<ContributionView> {
    cs.map_values(|c: Contribution| c@)
}

/// The model of a sequence of parties.
pub open spec fn parties_view(ps: Seq<Party>) -> Seq<PartyView> {
    ps.map_values(|p: Party| p@)
}

/// The model of a sequence of flows.
pub open spec fn flows_view(fs: Seq<Flow>) -> Seq<FlowView> {
    fs.map_values(|f: Flow| f@)
}

/// The model of a sequence of transactions.
pub open spec fn txns_view(ts: Seq<Transaction>) -> Seq<TransactionView> {
    ts.map_values(|t: Transaction| t@)
}

} // verus!
