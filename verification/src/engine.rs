//! The settlement engine's entry point: parse, classify, plan, and render,
//! in one pure function of the input text.

use vstd::prelude::*;

use crate::classify::classify;
use crate::classify::lemma_creditors_upto_facts;
use crate::classify::lemma_debtors_upto_facts;
use crate::classify::lemma_sums_match;
use crate::classify::party_sum;
use crate::classify::spec_balance;
use crate::classify::spec_creditors;
use crate::classify::spec_debtors;
use crate::classify::spec_total;
use crate::classify::total_amount;
use crate::numfmt::int_to_string;
use crate::numfmt::spec_int_str;
use crate::parse::parse_contributions;
use crate::parse::spec_parse;
use crate::plan::all_pos;
use crate::plan::distinct_idx;
use crate::plan::flows_ok;
use crate::plan::lemma_plan_settles;
use crate::plan::plan;
use crate::plan::spec_plan;
use crate::types::AMOUNT_LIMIT;
use crate::types::Contribution;
use crate::types::ContributionView;
use crate::types::Flow;
use crate::types::FlowView;
use crate::types::ParseError;
use crate::types::ParseErrorView;
use crate::types::Settlement;
use crate::types::Transaction;
use crate::types::TransactionView;
use crate::types::contribs_view;
use crate::types::flows_view;
use crate::types::parties_view;
use crate::types::txns_view;

verus! {

/// The planned flows of a contribution list: plan over its creditors and
/// debtors.
pub open spec fn spec_flows(cs: Seq<ContributionView>) -> Seq<FlowView> {
    spec_plan(spec_creditors(cs), spec_debtors(cs))
}

/// The named transaction that a flow stands for.
pub open spec fn txn_of(cs: Seq<ContributionView>, f: FlowView) -> TransactionView {
    TransactionView { from: cs[f.from].name, to: cs[f.to].name, amount: f.amount }
}

/// The transactions of a contribution list.
pub open spec fn spec_txns(cs: Seq<ContributionView>) -> Seq<TransactionView> {
    spec_flows(cs).map_values(|f: FlowView| txn_of(cs, f))
}

/// The classifier's output always meets the planner's demands: positive
/// magnitudes, distinct entries on each side and across sides, equal sums,
/// entry positions in range, and names carried over.
pub proof fn lemma_classified_parties(cs: Seq<ContributionView>)
    ensures
        all_pos(spec_creditors(cs)),
        all_pos(spec_debtors(cs)),
        distinct_idx(spec_creditors(cs)),
        distinct_idx(spec_debtors(cs)),
        party_sum(spec_creditors(cs)) == party_sum(spec_debtors(cs)),
        forall|p: int, q: int|
            0 <= p < spec_creditors(cs).len() && 0 <= q < spec_debtors(cs).len() ==> (
            #[trigger] spec_creditors(cs)[p]).index != (#[trigger] spec_debtors(cs)[q]).index,
        forall|p: int|
            0 <= p < spec_creditors(cs).len() ==> {
                let e = #[trigger] spec_creditors(cs)[p];
                0 <= e.index < cs.len() && e.amount == spec_balance(cs, e.index) && e.amount > 0
                    && e.name == cs[e.index].name
            },
        forall|q: int|
            0 <= q < spec_debtors(cs).len() ==> {
                let e = #[trigger] spec_debtors(cs)[q];
                0 <= e.index < cs.len() && e.amount == -spec_balance(cs, e.index) && e.amount > 0
                    && e.name == cs[e.index].name
            },
{
    let n = cs.len() as int;
    let crs = spec_creditors(cs);
    let dbs = spec_debtors(cs);
    lemma_creditors_upto_facts(cs, n);
    lemma_debtors_upto_facts(cs, n);
    lemma_sums_match(cs);
    assert forall|p: int, q: int|
        0 <= p < crs.len() && 0 <= q < crs.len() && p != q implies (#[trigger] crs[p]).index != (
    #[trigger] crs[q]).index by {
        if p < q {
            assert(crs[p].index < crs[q].index);
        } else {
            assert(crs[q].index < crs[p].index);
        }
    }
    assert forall|p: int, q: int|
        0 <= p < dbs.len() && 0 <= q < dbs.len() && p != q implies (#[trigger] dbs[p]).index != (
    #[trigger] dbs[q]).index by {
        if p < q {
            assert(dbs[p].index < dbs[q].index);
        } else {
            assert(dbs[q].index < dbs[p].index);
        }
    }
    assert forall|p: int, q: int|
        0 <= p < crs.len() && 0 <= q < dbs.len() implies (#[trigger] crs[p]).index != (
    #[trigger] dbs[q]).index by {
        assert(crs[p].amount == spec_balance(cs, crs[p].index) && crs[p].amount > 0);
        assert(dbs[q].amount == -spec_balance(cs, dbs[q].index) && dbs[q].amount > 0);
    }
}

/// Materializes the planned flows as named transactions.
pub fn flows_to_transactions(flows: &Vec<Flow>, contribs: &Vec<Contribution>) -> (r: Vec<
    Transaction,
>)
    requires
        forall|k: int|
            0 <= k < flows@.len() ==> (#[trigger] flows@[k]).from < contribs@.len()
                && flows@[k].to < contribs@.len(),
    ensures
        txns_view(r@) == flows_view(flows@).map_values(
            |f: FlowView| txn_of(contribs_view(contribs@), f),
        ),
{
    let ghost cv = contribs_view(contribs@);
    let ghost fv = flows_view(flows@);
    let ghost g = |f: FlowView| txn_of(cv, f);
    let n = flows.len();
    let mut out: Vec<Transaction> = Vec::new();
    let mut i: usize = 0;
    proof {
        assert(txns_view(out@) =~= fv.map_values(g).take(0));
    }
    while i < n
        invariant
            i <= n,
            n == flows@.len(),
            cv == contribs_view(contribs@),
            fv == flows_view(flows@),
            g == (|f: FlowView| txn_of(cv, f)),
            forall|k: int|
                0 <= k < flows@.len() ==> (#[trigger] flows@[k]).from < contribs@.len()
                    && flows@[k].to < contribs@.len(),
            txns_view(out@) == fv.map_values(g).take(i as int),
        decreases n - i,
    {
        let f = flows[i];
        let t = Transaction {
            from: contribs[f.from].name.clone(),
            to: contribs[f.to].name.clone(),
            amount: f.amount,
        };
        let ghost old_out = out@;
        out.push(t);
        proof {
            assert(fv[i as int] == flows@[i as int]@);
            assert(t@ == g(fv[i as int]));
            assert(txns_view(out@) =~= txns_view(old_out).push(t@));
            assert(fv.map_values(g).take(i as int + 1) =~= fv.map_values(g).take(i as int).push(
                g(fv[i as int]),
            ));
        }
        i = i + 1;
    }
    proof {
        assert(fv.map_values(g).take(n as int) =~= fv.map_values(g));
    }
    out
}

/// One trace line per transaction: who pays whom which scaled amount.
pub open spec fn spec_txn_line(t: TransactionView, n: int) -> Seq<char> {
    t.from + " -> "@ + t.to + ": "@ + spec_int_str(t.amount) + "/"@ + spec_int_str(n) + "\n"@
}

/// The trace lines of the first `k` transactions.
pub open spec fn spec_txn_lines(ts: Seq<TransactionView>, n: int, k: int) -> Seq<char>
    decreases k,
{
    if k <= 0 {
        Seq::empty()
    } else {
        spec_txn_lines(ts, n, k - 1) + spec_txn_line(ts[k - 1], n)
    }
}

/// The whole human-readable trace: the sizes of each stage, then one line
/// per transaction.
pub open spec fn spec_trace(cs: Seq<ContributionView>) -> Seq<char> {
    "participants: "@ + spec_int_str(cs.len() as int) + "\ntotal: "@ + spec_int_str(spec_total(cs))
        + "\ncreditors: "@ + spec_int_str(spec_creditors(cs).len() as int) + "\ndebtors: "@
        + spec_int_str(spec_debtors(cs).len() as int) + "\ntransactions: "@ + spec_int_str(
        spec_txns(cs).len() as int,
    ) + "\n"@ + spec_txn_lines(spec_txns(cs), cs.len() as int, spec_txns(cs).len() as int)
}

/// Builds the trace text from the already-computed stages.
fn build_trace(
    contribs: &Vec<Contribution>,
    n_creditors: usize,
    n_debtors: usize,
    txns: &Vec<Transaction>,
    total: i128,
) -> (r: String)
    requires
        n_creditors == spec_creditors(contribs_view(contribs@)).len(),
        n_debtors == spec_debtors(contribs_view(contribs@)).len(),
        txns_view(txns@) == spec_txns(contribs_view(contribs@)),
        total as int == spec_total(contribs_view(contribs@)),
    ensures
        r@ == spec_trace(contribs_view(contribs@)),
{
    let ghost cv = contribs_view(contribs@);
    let ghost tv = txns_view(txns@);
    let n = contribs.len();
    proof {
        assert(cv.len() == n);
        reveal_strlit("participants: ");
        reveal_strlit("\ntotal: ");
        reveal_strlit("\ncreditors: ");
        reveal_strlit("\ndebtors: ");
        reveal_strlit("\ntransactions: ");
        reveal_strlit("\n");
        reveal_strlit(" -> ");
        reveal_strlit(": ");
        reveal_strlit("/");
    }
    let mut s = String::new();
    s.append("participants: ");
    let piece = int_to_string(n as i128);
    s.append(piece.as_str());
    s.append("\ntotal: ");
    let piece = int_to_string(total);
    s.append(piece.as_str());
    s.append("\ncreditors: ");
    let piece = int_to_string(n_creditors as i128);
    s.append(piece.as_str());
    s.append("\ndebtors: ");
    let piece = int_to_string(n_debtors as i128);
    s.append(piece.as_str());
    s.append("\ntransactions: ");
    let piece = int_to_string(txns.len() as i128);
    s.append(piece.as_str());
    s.append("\n");
    let ghost header = s@;
    let nt = txns.len();
    let mut i: usize = 0;
    proof {
        assert(header + spec_txn_lines(tv, n as int, 0) =~= header);
    }
    while i < nt
        invariant
            i <= nt,
            nt == tv.len(),
            tv == txns_view(txns@),
            n == contribs@.len(),
            cv == contribs_view(contribs@),
            s@ == header + spec_txn_lines(tv, n as int, i as int),
        decreases nt - i,
    {
        let t = &txns[i];
        proof {
            assert(tv[i as int] == t@);
        }
        s.append(t.from.as_str());
        s.append(" -> ");
        s.append(t.to.as_str());
        s.append(": ");
        let piece = int_to_string(t.amount);
        s.append(piece.as_str());
        s.append("/");
        let piece = int_to_string(n as i128);
        s.append(piece.as_str());
        s.append("\n");
        proof {
            assert(s@ =~= header + spec_txn_lines(tv, n as int, i as int) + spec_txn_line(
                tv[i as int],
                n as int,
            ));
            assert(header + spec_txn_lines(tv, n as int, i as int) + spec_txn_line(
                tv[i as int],
                n as int,
            ) =~= header + spec_txn_lines(tv, n as int, i as int + 1));
        }
        i = i + 1;
    }
    proof {
        assert(s@ =~= spec_trace(cv));
    }
    s
}

/// Settles a shared expense: parses the input text, computes every
/// participant's scaled balance, and plans the payments that settle all of
/// them exactly. Fails if and only if the text does not parse, with the
/// first offending line.
pub fn settle(input: &str) -> (r: Result<Settlement, ParseError>)
    ensures
        match r {
            Ok(s) => {
                &&& spec_parse(input@) == Ok::<_, ParseErrorView>(contribs_view(s.contributions@))
                &&& txns_view(s.transactions@) == spec_txns(contribs_view(s.contributions@))
                &&& s.total as int == spec_total(contribs_view(s.contributions@))
                &&& s.participant_count == s.contributions@.len()
                &&& s.trace@ == spec_trace(contribs_view(s.contributions@))
            },
            Err(e) => spec_parse(input@) == Err::<Seq<ContributionView>, _>(e@),
        },
{
    let contribs = match parse_contributions(input) {
        Ok(cs) => cs,
        Err(e) => {
            return Err(e);
        },
    };
    let ghost cv = contribs_view(contribs@);
    let (creditors, debtors) = classify(&contribs);
    proof {
        lemma_classified_parties(cv);
        lemma_plan_settles(spec_creditors(cv), spec_debtors(cv));
    }
    let flows = plan(&creditors, &debtors);
    proof {
        assert(flows_view(flows@) == spec_flows(cv));
        assert(flows_ok(spec_flows(cv), spec_creditors(cv), spec_debtors(cv)));
        assert forall|k: int|
            0 <= k < flows@.len() implies (#[trigger] flows@[k]).from < contribs@.len()
            && flows@[k].to < contribs@.len() by {
            let f = flows_view(flows@)[k];
            assert(f.amount > 0 && crate::plan::idx_in(spec_creditors(cv), f.to)
                && crate::plan::idx_in(spec_debtors(cv), f.from));
            let p = choose|p: int|
                0 <= p < spec_creditors(cv).len() && (#[trigger] spec_creditors(cv)[p]).index
                    == f.to;
            let q = choose|q: int|
                0 <= q < spec_debtors(cv).len() && (#[trigger] spec_debtors(cv)[q]).index
                    == f.from;
            assert(0 <= f.to < cv.len() && 0 <= f.from < cv.len());
            assert(flows@[k]@ == f);
        }
    }
    let txns = flows_to_transactions(&flows, &contribs);
    proof {
        assert(flows_view(flows@).map_values(|f: FlowView| txn_of(cv, f)) == spec_txns(cv));
    }
    let total = total_amount(&contribs);
    let n_creditors = creditors.len();
    let n_debtors = debtors.len();
    proof {
        assert(parties_view(creditors@).len() == creditors@.len());
        assert(parties_view(debtors@).len() == debtors@.len());
    }
    let trace = build_trace(&contribs, n_creditors, n_debtors, &txns, total);
    let participant_count = contribs.len();
    Ok(
        Settlement {
            contributions: contribs,
            transactions: txns,
            trace,
            total,
            participant_count,
        },
    )
}

} // verus!
