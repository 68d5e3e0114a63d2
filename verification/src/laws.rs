//! The engine's guarantees, stated and proved once and for all inputs:
//! conservation of money, strictly positive payments, no self-payments,
//! deterministic parsing, one payment per debtor when a single creditor
//! exists, and no payments at all for a balanced group.

use vstd::prelude::*;

use crate::classify::lemma_creditors_upto_complete;
use crate::classify::lemma_debtors_upto_complete;
use crate::classify::spec_balance;
use crate::classify::spec_creditors;
use crate::classify::spec_debtors;
use crate::classify::spec_total;
use crate::engine::lemma_classified_parties;
use crate::engine::spec_flows;
use crate::engine::spec_txns;
use crate::engine::txn_of;
use crate::parse::spec_parse;
use crate::plan::flow_sum_from;
use crate::plan::flow_sum_to;
use crate::plan::flows_ok;
use crate::plan::lemma_flow_sum_absent;
use crate::plan::lemma_plan_settles;
use crate::types::ContributionView;
use crate::types::FlowView;
use crate::types::PartyView;
use crate::types::TransactionView;

verus! {

/// Sum of the amounts of the transactions received by `name`.
pub open spec fn txn_sum_to(ts: Seq<TransactionView>, name: Seq<char>) -> int
    decreases ts.len(),
{
    if ts.len() == 0 {
        0
    } else {
        (if ts[0].to == name {
            ts[0].amount
        } else {
            0
        }) + txn_sum_to(ts.drop_first(), name)
    }
}

/// Sum of the amounts of the transactions paid by `name`.
pub open spec fn txn_sum_from(ts: Seq<TransactionView>, name: Seq<char>) -> int
    decreases ts.len(),
{
    if ts.len() == 0 {
        0
    } else {
        (if ts[0].from == name {
            ts[0].amount
        } else {
            0
        }) + txn_sum_from(ts.drop_first(), name)
    }
}

/// All participant names are pairwise distinct.
pub open spec fn distinct_names(cs: Seq<ContributionView>) -> bool {
    forall|i: int, j: int|
        0 <= i < cs.len() && 0 <= j < cs.len() && i != j ==> (#[trigger] cs[i]).name != (
        #[trigger] cs[j]).name
}

/// Conservation, by entry: after the planned flows, every entry's scaled
/// net position equals the total, that is, everyone ends up having
/// contributed exactly the fair share. Flow amounts are scaled by the
/// participant count, so the fair share `total / count` appears here as
/// `count * amount + paid - received == total`, an exact equation.
pub proof fn lemma_conservation(cs: Seq<ContributionView>)
    ensures
        forall|i: int|
            0 <= i < cs.len() ==> cs.len() * (#[trigger] cs[i]).amount + flow_sum_from(
                spec_flows(cs),
                i,
            ) - flow_sum_to(spec_flows(cs), i) == spec_total(cs),
{
    let n = cs.len() as int;
    let crs = spec_creditors(cs);
    let dbs = spec_debtors(cs);
    let fs = spec_flows(cs);
    lemma_classified_parties(cs);
    lemma_plan_settles(crs, dbs);
    assert forall|i: int| 0 <= i < n implies cs.len() * (#[trigger] cs[i]).amount + flow_sum_from(
        fs,
        i,
    ) - flow_sum_to(fs, i) == spec_total(cs) by {
        let bal = spec_balance(cs, i);
        if bal > 0 {
            lemma_creditors_upto_complete(cs, n, i);
            let p = choose|p: int|
                0 <= p < crs.len() && #[trigger] crs[p] == (PartyView {
                    index: i,
                    name: cs[i].name,
                    amount: bal,
                });
            assert(flow_sum_to(fs, i) == bal);
            assert(flow_sum_from(fs, i) == 0);
        } else if bal < 0 {
            lemma_debtors_upto_complete(cs, n, i);
            let p = choose|p: int|
                0 <= p < dbs.len() && #[trigger] dbs[p] == (PartyView {
                    index: i,
                    name: cs[i].name,
                    amount: -bal,
                });
            assert(flow_sum_from(fs, i) == -bal);
            assert(flow_sum_to(fs, i) == 0);
        } else {
            // A settled entry is touched by no flow at all.
            assert forall|t: int| 0 <= t < fs.len() implies (#[trigger] fs[t]).to != i && fs[t].from
                != i by {
                let p = choose|p: int|
                    0 <= p < crs.len() && (#[trigger] crs[p]).index == fs[t].to;
                assert(spec_balance(cs, crs[p].index) > 0);
                let q = choose|q: int|
                    0 <= q < dbs.len() && (#[trigger] dbs[q]).index == fs[t].from;
                assert(spec_balance(cs, dbs[q].index) < 0);
            }
            lemma_flow_sum_absent(fs, i);
        }
    }
}

/// With pairwise distinct names, sums by name agree with sums by entry.
proof fn lemma_txn_sums_by_name(
    cs: Seq<ContributionView>,
    fs: Seq<FlowView>,
    i: int,
)
    requires
        distinct_names(cs),
        0 <= i < cs.len(),
        forall|t: int|
            0 <= t < fs.len() ==> 0 <= (#[trigger] fs[t]).to < cs.len() && 0 <= fs[t].from
                < cs.len(),
    ensures
        txn_sum_to(fs.map_values(|f: FlowView| txn_of(cs, f)), cs[i].name) == flow_sum_to(fs, i),
        txn_sum_from(fs.map_values(|f: FlowView| txn_of(cs, f)), cs[i].name) == flow_sum_from(
            fs,
            i,
        ),
    decreases fs.len(),
{
    let g = |f: FlowView| txn_of(cs, f);
    if fs.len() > 0 {
        assert(forall|t: int|
            0 <= t < fs.drop_first().len() ==> #[trigger] fs.drop_first()[t] == fs[t + 1]);
        lemma_txn_sums_by_name(cs, fs.drop_first(), i);
        assert(fs.map_values(g).drop_first() =~= fs.drop_first().map_values(g));
        assert(fs.map_values(g)[0] == g(fs[0]));
        assert(cs[fs[0].to].name == cs[i].name <==> fs[0].to == i);
        assert(cs[fs[0].from].name == cs[i].name <==> fs[0].from == i);
    }
}

/// Conservation, by name: with pairwise distinct names, for every
/// participant the scaled amount paid into the group, plus what they pay
/// in the settlement, minus what they receive, equals the scaled fair
/// share.
pub proof fn lemma_conservation_by_name(cs: Seq<ContributionView>)
    requires
        distinct_names(cs),
    ensures
        forall|i: int|
            0 <= i < cs.len() ==> cs.len() * (#[trigger] cs[i]).amount + txn_sum_from(
                spec_txns(cs),
                cs[i].name,
            ) - txn_sum_to(spec_txns(cs), cs[i].name) == spec_total(cs),
{
    let n = cs.len() as int;
    let fs = spec_flows(cs);
    lemma_conservation(cs);
    lemma_flow_bounds(cs);
    assert forall|i: int| 0 <= i < n implies cs.len() * (#[trigger] cs[i]).amount + txn_sum_from(
        spec_txns(cs),
        cs[i].name,
    ) - txn_sum_to(spec_txns(cs), cs[i].name) == spec_total(cs) by {
        lemma_txn_sums_by_name(cs, fs, i);
    }
}

/// Every planned flow names entry positions within the contribution list.
pub proof fn lemma_flow_bounds(cs: Seq<ContributionView>)
    ensures
        forall|t: int|
            0 <= t < spec_flows(cs).len() ==> 0 <= (#[trigger] spec_flows(cs)[t]).to < cs.len()
                && 0 <= spec_flows(cs)[t].from < cs.len() && spec_flows(cs)[t].amount > 0,
{
    let crs = spec_creditors(cs);
    let dbs = spec_debtors(cs);
    let fs = spec_flows(cs);
    lemma_classified_parties(cs);
    lemma_plan_settles(crs, dbs);
    assert forall|t: int| 0 <= t < fs.len() implies 0 <= (#[trigger] fs[t]).to < cs.len() && 0
        <= fs[t].from < cs.len() && fs[t].amount > 0 by {
        let p = choose|p: int| 0 <= p < crs.len() && (#[trigger] crs[p]).index == fs[t].to;
        let q = choose|q: int| 0 <= q < dbs.len() && (#[trigger] dbs[q]).index == fs[t].from;
        assert(0 <= crs[p].index < cs.len());
        assert(0 <= dbs[q].index < cs.len());
    }
}

/// Non-negativity: every emitted transaction has a strictly positive
/// amount.
pub proof fn lemma_transactions_positive(cs: Seq<ContributionView>)
    ensures
        forall|t: int|
            0 <= t < spec_txns(cs).len() ==> (#[trigger] spec_txns(cs)[t]).amount > 0,
{
    lemma_flow_bounds(cs);
    let fs = spec_flows(cs);
    let g = |f: FlowView| txn_of(cs, f);
    assert forall|t: int| 0 <= t < spec_txns(cs).len() implies (
    #[trigger] spec_txns(cs)[t]).amount > 0 by {
        assert(spec_txns(cs)[t] == g(fs[t]));
    }
}

/// No self-payment: with pairwise distinct names, no transaction pays its
/// own sender. (Two entries that share a name are distinct ledger entries;
/// one of them may settle the other's debt, so the distinct-name premise
/// cannot be dropped.)
pub proof fn lemma_no_self_payment(cs: Seq<ContributionView>)
    requires
        distinct_names(cs),
    ensures
        forall|t: int|
            0 <= t < spec_txns(cs).len() ==> (#[trigger] spec_txns(cs)[t]).from != spec_txns(
                cs,
            )[t].to,
{
    let crs = spec_creditors(cs);
    let dbs = spec_debtors(cs);
    let fs = spec_flows(cs);
    lemma_classified_parties(cs);
    lemma_plan_settles(crs, dbs);
    lemma_flow_bounds(cs);
    let g = |f: FlowView| txn_of(cs, f);
    assert forall|t: int| 0 <= t < spec_txns(cs).len() implies (
    #[trigger] spec_txns(cs)[t]).from != spec_txns(cs)[t].to by {
        assert(spec_txns(cs)[t] == g(fs[t]));
        let p = choose|p: int| 0 <= p < crs.len() && (#[trigger] crs[p]).index == fs[t].to;
        let q = choose|q: int| 0 <= q < dbs.len() && (#[trigger] dbs[q]).index == fs[t].from;
        assert(spec_balance(cs, fs[t].to) > 0);
        assert(spec_balance(cs, fs[t].from) < 0);
        assert(fs[t].to != fs[t].from);
        if cs[fs[t].from].name == cs[fs[t].to].name {
            assert(false);
        }
    }
}

/// Sum of all flow amounts.
pub open spec fn flow_total(fs: Seq<FlowView>) -> int
    decreases fs.len(),
{
    if fs.len() == 0 {
        0
    } else {
        fs[0].amount + flow_total(fs.drop_first())
    }
}

/// Sum of all transaction amounts.
pub open spec fn txn_total(ts: Seq<TransactionView>) -> int
    decreases ts.len(),
{
    if ts.len() == 0 {
        0
    } else {
        ts[0].amount + txn_total(ts.drop_first())
    }
}

/// Sum, over the first `k` parties, of what the flows pay each of them.
spec fn inflow_sum(fs: Seq<FlowView>, ps: Seq<PartyView>, k: int) -> int
    decreases k,
{
    if k <= 0 {
        0
    } else {
        inflow_sum(fs, ps, k - 1) + flow_sum_to(fs, ps[k - 1].index)
    }
}

/// One flow's amount lands on exactly one of pairwise distinct parties.
proof fn lemma_indicator_sum(f: FlowView, ps: Seq<PartyView>, k: int)
    requires
        0 <= k <= ps.len(),
        crate::plan::distinct_idx(ps),
    ensures
        inflow_sum(seq![f], ps, k) == if exists|p: int|
            0 <= p < k && (#[trigger] ps[p]).index == f.to {
            f.amount
        } else {
            0
        },
    decreases k,
{
    assert(seq![f].drop_first() =~= Seq::<FlowView>::empty());
    if k > 0 {
        lemma_indicator_sum(f, ps, k - 1);
        assert(flow_sum_to(seq![f].drop_first(), ps[k - 1].index) == 0);
        assert(flow_sum_to(seq![f], ps[k - 1].index) == if f.to == ps[k - 1].index {
            f.amount
        } else {
            0
        });
        if ps[k - 1].index == f.to {
            assert(!(exists|p: int| 0 <= p < k - 1 && (#[trigger] ps[p]).index == f.to));
        } else {
            if exists|p: int| 0 <= p < k && (#[trigger] ps[p]).index == f.to {
                let p = choose|p: int| 0 <= p < k && (#[trigger] ps[p]).index == f.to;
                assert(0 <= p < k - 1 && ps[p].index == f.to);
            }
        }
    }
}

/// When every flow pays one of pairwise distinct parties, the per-party
/// inflows partition the flow amounts.
proof fn lemma_flow_total_partition(fs: Seq<FlowView>, ps: Seq<PartyView>)
    requires
        crate::plan::distinct_idx(ps),
        forall|t: int| 0 <= t < fs.len() ==> crate::plan::idx_in(ps, (#[trigger] fs[t]).to),
    ensures
        flow_total(fs) == inflow_sum(fs, ps, ps.len() as int),
    decreases fs.len(),
{
    let n = ps.len() as int;
    if fs.len() == 0 {
        assert forall|k: int| 0 <= k <= n implies inflow_sum(fs, ps, k) == 0 by {
            lemma_inflow_sum_empty(fs, ps, k);
        }
    } else {
        let f = fs[0];
        let rest = fs.drop_first();
        assert(forall|t: int| 0 <= t < rest.len() ==> #[trigger] rest[t] == fs[t + 1]);
        lemma_flow_total_partition(rest, ps);
        assert(fs =~= seq![f] + rest);
        assert forall|k: int| 0 <= k <= n implies inflow_sum(fs, ps, k) == inflow_sum(
            seq![f],
            ps,
            k,
        ) + inflow_sum(rest, ps, k) by {
            lemma_inflow_sum_split(f, rest, ps, k);
        }
        lemma_indicator_sum(f, ps, n);
        assert(crate::plan::idx_in(ps, f.to));
        assert(inflow_sum(seq![f], ps, n) == f.amount);
    }
}

/// With no flows, every inflow is zero.
proof fn lemma_inflow_sum_empty(fs: Seq<FlowView>, ps: Seq<PartyView>, k: int)
    requires
        fs.len() == 0,
        0 <= k <= ps.len(),
    ensures
        inflow_sum(fs, ps, k) == 0,
    decreases k,
{
    if k > 0 {
        lemma_inflow_sum_empty(fs, ps, k - 1);
    }
}

/// Inflow sums split at the first flow.
proof fn lemma_inflow_sum_split(f: FlowView, rest: Seq<FlowView>, ps: Seq<PartyView>, k: int)
    requires
        0 <= k <= ps.len(),
    ensures
        inflow_sum(seq![f] + rest, ps, k) == inflow_sum(seq![f], ps, k) + inflow_sum(rest, ps, k),
    decreases k,
{
    if k > 0 {
        lemma_inflow_sum_split(f, rest, ps, k - 1);
        crate::plan::lemma_flow_sum_concat(seq![f], rest, ps[k - 1].index);
    }
}

/// Per-party inflows that agree pointwise with the party amounts sum to
/// the party total.
proof fn lemma_inflow_sum_matches(fs: Seq<FlowView>, ps: Seq<PartyView>, k: int)
    requires
        0 <= k <= ps.len(),
        forall|p: int|
            0 <= p < ps.len() ==> flow_sum_to(fs, (#[trigger] ps[p]).index) == ps[p].amount,
    ensures
        inflow_sum(fs, ps, k) == crate::classify::party_sum(ps.take(k)),
    decreases k,
{
    if k > 0 {
        lemma_inflow_sum_matches(fs, ps, k - 1);
        assert(ps.take(k).drop_last() =~= ps.take(k - 1));
        assert(ps.take(k).last() == ps[k - 1]);
    }
}

/// No money is created or destroyed: the transaction amounts sum exactly
/// to the total creditor surplus (the sum of all positive scaled
/// balances).
pub proof fn lemma_total_payments(cs: Seq<ContributionView>)
    ensures
        txn_total(spec_txns(cs)) == crate::classify::party_sum(spec_creditors(cs)),
{
    let crs = spec_creditors(cs);
    let dbs = spec_debtors(cs);
    let fs = spec_flows(cs);
    lemma_classified_parties(cs);
    lemma_plan_settles(crs, dbs);
    lemma_flow_total_partition(fs, crs);
    lemma_inflow_sum_matches(fs, crs, crs.len() as int);
    assert(crs.take(crs.len() as int) =~= crs);
    lemma_txn_total_map(cs, fs);
}

/// Mapping flows to named transactions keeps the amounts, so the totals
/// agree.
proof fn lemma_txn_total_map(cs: Seq<ContributionView>, fs: Seq<FlowView>)
    ensures
        txn_total(fs.map_values(|f: FlowView| txn_of(cs, f))) == flow_total(fs),
    decreases fs.len(),
{
    let g = |f: FlowView| txn_of(cs, f);
    if fs.len() > 0 {
        lemma_txn_total_map(cs, fs.drop_first());
        assert(fs.map_values(g).drop_first() =~= fs.drop_first().map_values(g));
        assert(fs.map_values(g)[0] == g(fs[0]));
    } else {
        assert(fs.map_values(g) =~= Seq::<TransactionView>::empty());
    }
}

/// Idempotence of parse: the parse is a function of the text alone, so
/// parsing the same text twice yields identical contribution lists.
pub proof fn lemma_parse_idempotent(s1: Seq<char>, s2: Seq<char>)
    requires
        s1 == s2,
    ensures
        spec_parse(s1) == spec_parse(s2),
{
}

/// Single-creditor optimality: with exactly one creditor, the plan emits
/// exactly one transaction per debtor, the fewest possible.
pub proof fn lemma_single_creditor_optimal(cs: Seq<ContributionView>)
    requires
        spec_creditors(cs).len() == 1,
    ensures
        spec_txns(cs).len() == spec_debtors(cs).len(),
{
    lemma_classified_parties(cs);
    lemma_plan_settles(spec_creditors(cs), spec_debtors(cs));
}

/// Balanced input yields no transactions: when every contribution equals
/// the group average (scaled: `count * amount == total` for every entry),
/// the plan is empty.
pub proof fn lemma_balanced_no_transactions(cs: Seq<ContributionView>)
    requires
        forall|i: int|
            0 <= i < cs.len() ==> cs.len() * (#[trigger] cs[i]).amount == spec_total(cs),
    ensures
        spec_txns(cs).len() == 0,
{
    let crs = spec_creditors(cs);
    let dbs = spec_debtors(cs);
    lemma_classified_parties(cs);
    assert(crs.len() == 0) by {
        if crs.len() > 0 {
            let e = crs[0];
            assert(spec_balance(cs, e.index) > 0);
            assert(cs.len() * cs[e.index].amount == spec_total(cs));
        }
    }
    assert(dbs.len() == 0) by {
        if dbs.len() > 0 {
            let e = dbs[0];
            assert(spec_balance(cs, e.index) < 0);
            assert(cs.len() * cs[e.index].amount == spec_total(cs));
        }
    }
    lemma_plan_settles(crs, dbs);
}

} // verus!
