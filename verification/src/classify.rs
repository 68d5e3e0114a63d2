//! Balance classifier: computes the fair-share average and partitions the
//! participants into creditors (paid more than their fair share) and
//! debtors (paid less).
//!
//! For `n` participants with total `T`, the fair share is `T / n`, which
//! need not be whole. All balances are therefore kept scaled by `n`: the
//! scaled balance of entry `i` is `n * amount_i - T`, an exact integer.
//! Entries with a scaled balance of zero are settled already and appear in
//! neither list.

use vstd::prelude::*;

use crate::types::AMOUNT_LIMIT;
use crate::types::Contribution;
use crate::types::ContributionView;
use crate::types::Party;
use crate::types::PartyView;
use crate::types::contribs_view;
use crate::types::parties_view;

verus! {

/// Sum of the amounts of the first `k` contributions.
pub open spec fn spec_total_upto(cs: Seq<ContributionView>, k: int) -> int
    decreases k,
{
    if k <= 0 {
        0
    } else {
        spec_total_upto(cs, k - 1) + cs[k - 1].amount
    }
}

/// Sum of all contribution amounts.
pub open spec fn spec_total(cs: Seq<ContributionView>) -> int {
    spec_total_upto(cs, cs.len() as int)
}

/// Scaled balance of entry `i`: its amount times the participant count,
/// minus the total. Positive for creditors, negative for debtors.
pub open spec fn spec_balance(cs: Seq<ContributionView>, i: int) -> int {
    cs.len() * cs[i].amount - spec_total(cs)
}

/// The creditors among the first `k` entries, in input order, each with
/// its entry position and positive scaled balance.
pub open spec fn creditors_upto(cs: Seq<ContributionView>, k: int) -> Seq<PartyView>
    decreases k,
{
    if k <= 0 {
        Seq::empty()
    } else {
        let r = creditors_upto(cs, k - 1);
        if spec_balance(cs, k - 1) > 0 {
            r.push(
                PartyView {
                    index: k - 1,
                    name: cs[k - 1].name,
                    amount: spec_balance(cs, k - 1),
                },
            )
        } else {
            r
        }
    }
}

/// All creditors, in input order.
pub open spec fn spec_creditors(cs: Seq<ContributionView>) -> Seq<PartyView> {
    creditors_upto(cs, cs.len() as int)
}

/// The debtors among the first `k` entries, in input order, each with its
/// entry position and the (positive) magnitude of its scaled deficit.
pub open spec fn debtors_upto(cs: Seq<ContributionView>, k: int) -> Seq<PartyView>
    decreases k,
{
    if k <= 0 {
        Seq::empty()
    } else {
        let r = debtors_upto(cs, k - 1);
        if spec_balance(cs, k - 1) < 0 {
            r.push(
                PartyView {
                    index: k - 1,
                    name: cs[k - 1].name,
                    amount: -spec_balance(cs, k - 1),
                },
            )
        } else {
            r
        }
    }
}

/// All debtors, in input order.
pub open spec fn spec_debtors(cs: Seq<ContributionView>) -> Seq<PartyView> {
    debtors_upto(cs, cs.len() as int)
}

/// Sum of the party amounts of a list.
pub open spec fn party_sum(ps: Seq<PartyView>) -> int
    decreases ps.len(),
{
    if ps.len() == 0 {
        0
    } else {
        party_sum(ps.drop_last()) + ps.last().amount
    }
}

/// Shape of the creditor list: positive scaled balances of entries below
/// `k`, with names carried over and entry positions strictly increasing.
pub proof fn lemma_creditors_upto_facts(cs: Seq<ContributionView>, k: int)
    requires
        0 <= k <= cs.len(),
    ensures
        forall|p: int|
            0 <= p < creditors_upto(cs, k).len() ==> {
                let e = #[trigger] creditors_upto(cs, k)[p];
                0 <= e.index < k && e.amount == spec_balance(cs, e.index) && e.amount > 0
                    && e.name == cs[e.index].name
            },
        forall|p: int, q: int|
            0 <= p < q < creditors_upto(cs, k).len() ==> #[trigger] creditors_upto(
                cs,
                k,
            )[p].index < #[trigger] creditors_upto(cs, k)[q].index,
    decreases k,
{
    if k > 0 {
        lemma_creditors_upto_facts(cs, k - 1);
        let r = creditors_upto(cs, k - 1);
        if spec_balance(cs, k - 1) > 0 {
            let e = PartyView {
                index: k - 1,
                name: cs[k - 1].name,
                amount: spec_balance(cs, k - 1),
            };
            assert(creditors_upto(cs, k) == r.push(e));
            assert(forall|p: int|
                0 <= p < r.len() ==> #[trigger] creditors_upto(cs, k)[p] == r[p]);
            assert(creditors_upto(cs, k)[r.len() as int] == e);
        } else {
            assert(creditors_upto(cs, k) == r);
        }
    }
}

/// Shape of the debtor list: negated negative scaled balances of entries
/// below `k`, with names carried over and positions strictly increasing.
pub proof fn lemma_debtors_upto_facts(cs: Seq<ContributionView>, k: int)
    requires
        0 <= k <= cs.len(),
    ensures
        forall|p: int|
            0 <= p < debtors_upto(cs, k).len() ==> {
                let e = #[trigger] debtors_upto(cs, k)[p];
                0 <= e.index < k && e.amount == -spec_balance(cs, e.index) && e.amount > 0
                    && e.name == cs[e.index].name
            },
        forall|p: int, q: int|
            0 <= p < q < debtors_upto(cs, k).len() ==> #[trigger] debtors_upto(cs, k)[p].index
                < #[trigger] debtors_upto(cs, k)[q].index,
    decreases k,
{
    if k > 0 {
        lemma_debtors_upto_facts(cs, k - 1);
        let r = debtors_upto(cs, k - 1);
        if spec_balance(cs, k - 1) < 0 {
            let e = PartyView {
                index: k - 1,
                name: cs[k - 1].name,
                amount: -spec_balance(cs, k - 1),
            };
            assert(debtors_upto(cs, k) == r.push(e));
            assert(forall|p: int| 0 <= p < r.len() ==> #[trigger] debtors_upto(cs, k)[p] == r[p]);
            assert(debtors_upto(cs, k)[r.len() as int] == e);
        } else {
            assert(debtors_upto(cs, k) == r);
        }
    }
}

/// Every entry with a positive balance appears among the creditors.
pub proof fn lemma_creditors_upto_complete(cs: Seq<ContributionView>, k: int, i: int)
    requires
        0 <= i < k <= cs.len(),
        spec_balance(cs, i) > 0,
    ensures
        exists|p: int|
            0 <= p < creditors_upto(cs, k).len() && #[trigger] creditors_upto(cs, k)[p]
                == (PartyView { index: i, name: cs[i].name, amount: spec_balance(cs, i) }),
    decreases k,
{
    let e = PartyView { index: i, name: cs[i].name, amount: spec_balance(cs, i) };
    if i == k - 1 {
        let r = creditors_upto(cs, k - 1);
        assert(creditors_upto(cs, k)[r.len() as int] == e);
    } else {
        lemma_creditors_upto_complete(cs, k - 1, i);
        let r = creditors_upto(cs, k - 1);
        let p = choose|p: int| 0 <= p < r.len() && #[trigger] r[p] == e;
        assert(creditors_upto(cs, k)[p] == e);
    }
}

/// Every entry with a negative balance appears among the debtors.
pub proof fn lemma_debtors_upto_complete(cs: Seq<ContributionView>, k: int, i: int)
    requires
        0 <= i < k <= cs.len(),
        spec_balance(cs, i) < 0,
    ensures
        exists|p: int|
            0 <= p < debtors_upto(cs, k).len() && #[trigger] debtors_upto(cs, k)[p]
                == (PartyView { index: i, name: cs[i].name, amount: -spec_balance(cs, i) }),
    decreases k,
{
    let e = PartyView { index: i, name: cs[i].name, amount: -spec_balance(cs, i) };
    if i == k - 1 {
        let r = debtors_upto(cs, k - 1);
        assert(debtors_upto(cs, k)[r.len() as int] == e);
    } else {
        lemma_debtors_upto_complete(cs, k - 1, i);
        let r = debtors_upto(cs, k - 1);
        let p = choose|p: int| 0 <= p < r.len() && #[trigger] r[p] == e;
        assert(debtors_upto(cs, k)[p] == e);
    }
}

/// Sum of the scaled balances of the first `k` entries.
pub open spec fn balance_sum_upto(cs: Seq<ContributionView>, k: int) -> int
    decreases k,
{
    if k <= 0 {
        0
    } else {
        balance_sum_upto(cs, k - 1) + spec_balance(cs, k - 1)
    }
}

/// Creditor surplus minus debtor deficit over a prefix is the prefix's
/// balance sum.
proof fn lemma_partition_sum(cs: Seq<ContributionView>, k: int)
    requires
        0 <= k <= cs.len(),
    ensures
        party_sum(creditors_upto(cs, k)) - party_sum(debtors_upto(cs, k)) == balance_sum_upto(
            cs,
            k,
        ),
    decreases k,
{
    if k > 0 {
        lemma_partition_sum(cs, k - 1);
        if spec_balance(cs, k - 1) > 0 {
            let r = creditors_upto(cs, k - 1);
            let e = PartyView {
                index: k - 1,
                name: cs[k - 1].name,
                amount: spec_balance(cs, k - 1),
            };
            assert(r.push(e).drop_last() =~= r);
        } else if spec_balance(cs, k - 1) < 0 {
            let r = debtors_upto(cs, k - 1);
            let e = PartyView {
                index: k - 1,
                name: cs[k - 1].name,
                amount: -spec_balance(cs, k - 1),
            };
            assert(r.push(e).drop_last() =~= r);
        }
    }
}

/// The scaled balances of a prefix sum to `n * prefix_total - k * T`.
proof fn lemma_balance_sum_value(cs: Seq<ContributionView>, k: int)
    requires
        0 <= k <= cs.len(),
    ensures
        balance_sum_upto(cs, k) == cs.len() * spec_total_upto(cs, k) - k * spec_total(cs),
    decreases k,
{
    let n = cs.len() as int;
    let t = spec_total(cs);
    if k > 0 {
        lemma_balance_sum_value(cs, k - 1);
        assert(spec_total_upto(cs, k) == spec_total_upto(cs, k - 1) + cs[k - 1].amount);
        assert(balance_sum_upto(cs, k) == balance_sum_upto(cs, k - 1) + spec_balance(cs, k - 1));
        assert(spec_balance(cs, k - 1) == n * cs[k - 1].amount - t);
        assert(n * spec_total_upto(cs, k) == n * spec_total_upto(cs, k - 1) + n * cs[k - 1].amount)
            by (nonlinear_arith)
            requires
                spec_total_upto(cs, k) == spec_total_upto(cs, k - 1) + cs[k - 1].amount,
        ;
        assert(k * t == (k - 1) * t + t) by (nonlinear_arith);
    } else {
        assert(balance_sum_upto(cs, k) == 0);
        assert(spec_total_upto(cs, k) == 0);
        assert(n * 0 == 0) by (nonlinear_arith);
        assert(k * t == 0) by (nonlinear_arith)
            requires
                k == 0,
        ;
    }
}

/// Total creditor surplus equals total debtor deficit: all scaled balances
/// sum to zero.
pub proof fn lemma_sums_match(cs: Seq<ContributionView>)
    ensures
        party_sum(spec_creditors(cs)) == party_sum(spec_debtors(cs)),
{
    let n = cs.len() as int;
    lemma_partition_sum(cs, n);
    lemma_balance_sum_value(cs, n);
    assert(n * spec_total_upto(cs, n) - n * spec_total(cs) == 0);
}

/// Sum of all contribution amounts, in minor units.
pub fn total_amount(contribs: &Vec<Contribution>) -> (r: i128)
    requires
        forall|j: int|
            0 <= j < contribs@.len() ==> -AMOUNT_LIMIT <= #[trigger] contribs@[j].amount
                <= AMOUNT_LIMIT,
    ensures
        r as int == spec_total(contribs_view(contribs@)),
        -(contribs@.len() as int) * (AMOUNT_LIMIT as int) <= r as int <= (contribs@.len() as int)
            * (AMOUNT_LIMIT as int),
{
    let ghost cv = contribs_view(contribs@);
    let n = contribs.len();
    proof {
        assert(cv.len() == n);
        assert(forall|j: int|
            0 <= j < cv.len() ==> -AMOUNT_LIMIT <= #[trigger] cv[j].amount <= AMOUNT_LIMIT);
    }
    let mut total: i128 = 0;
    let mut i: usize = 0;
    while i < n
        invariant
            i <= n,
            n == cv.len(),
            cv == contribs_view(contribs@),
            forall|j: int|
                0 <= j < cv.len() ==> -AMOUNT_LIMIT <= #[trigger] cv[j].amount <= AMOUNT_LIMIT,
            total == spec_total_upto(cv, i as int),
            -(i as int) * (AMOUNT_LIMIT as int) <= total <= (i as int) * (AMOUNT_LIMIT as int),
        decreases n - i,
    {
        let a = contribs[i].amount;
        proof {
            assert(cv[i as int].amount == a as int);
            assert((i as int + 1) * (AMOUNT_LIMIT as int) == (i as int) * (AMOUNT_LIMIT as int)
                + AMOUNT_LIMIT as int) by (nonlinear_arith);
            assert((i as int + 1) * (AMOUNT_LIMIT as int) <= 0x1_0000_0000_0000_0000
                * 100_000_000_000_000) by (nonlinear_arith)
                requires
                    0 <= i as int + 1 <= 0x1_0000_0000_0000_0000,
            ;
        }
        total = total + a as i128;
        i = i + 1;
    }
    total
}

/// Splits the contributions into creditors and debtors with their scaled
/// balances, in input order. Settled entries (balance zero) are dropped.
pub fn classify(contribs: &Vec<Contribution>) -> (r: (Vec<Party>, Vec<Party>))
    requires
        forall|j: int|
            0 <= j < contribs@.len() ==> -AMOUNT_LIMIT <= #[trigger] contribs@[j].amount
                <= AMOUNT_LIMIT,
    ensures
        parties_view(r.0@) == spec_creditors(contribs_view(contribs@)),
        parties_view(r.1@) == spec_debtors(contribs_view(contribs@)),
{
    let ghost cv = contribs_view(contribs@);
    let n = contribs.len();
    proof {
        assert(cv.len() == n);
        assert(forall|j: int|
            0 <= j < cv.len() ==> -AMOUNT_LIMIT <= #[trigger] cv[j].amount <= AMOUNT_LIMIT);
    }
    let total = total_amount(contribs);
    proof {
        assert(total == spec_total(cv));
    }
    let mut creditors: Vec<Party> = Vec::new();
    let mut debtors: Vec<Party> = Vec::new();
    let mut i: usize = 0;
    proof {
        assert(parties_view(creditors@) =~= creditors_upto(cv, 0));
        assert(parties_view(debtors@) =~= debtors_upto(cv, 0));
    }
    while i < n
        invariant
            i <= n,
            n == cv.len(),
            cv == contribs_view(contribs@),
            forall|j: int|
                0 <= j < cv.len() ==> -AMOUNT_LIMIT <= #[trigger] cv[j].amount <= AMOUNT_LIMIT,
            total == spec_total(cv),
            -(cv.len() as int) * (AMOUNT_LIMIT as int) <= total <= (cv.len() as int) * (
            AMOUNT_LIMIT as int),
            parties_view(creditors@) == creditors_upto(cv, i as int),
            parties_view(debtors@) == debtors_upto(cv, i as int),
        decreases n - i,
    {
        let a = contribs[i].amount;
        proof {
            assert(cv[i as int].amount == a as int);
            assert(-0x1_0000_0000_0000_0000 * 100_000_000_000_000 <= (cv.len() as int) * (
            a as int) <= 0x1_0000_0000_0000_0000 * 100_000_000_000_000) by (nonlinear_arith)
                requires
                    0 <= cv.len() as int <= 0x1_0000_0000_0000_0000,
                    -100_000_000_000_000 <= a as int <= 100_000_000_000_000,
            ;
            assert(-(cv.len() as int) * (AMOUNT_LIMIT as int) <= total <= (cv.len() as int) * (
            AMOUNT_LIMIT as int));
            assert(0 <= (cv.len() as int) * (AMOUNT_LIMIT as int) <= 0x1_0000_0000_0000_0000
                * 100_000_000_000_000) by (nonlinear_arith)
                requires
                    0 <= cv.len() as int <= 0x1_0000_0000_0000_0000,
            ;
        }
        let bal = (n as i128) * (a as i128) - total;
        proof {
            assert(bal == spec_balance(cv, i as int));
        }
        if bal > 0 {
            let ghost old_ps = creditors@;
            creditors.push(Party { index: i, name: contribs[i].name.clone(), amount: bal });
            proof {
                assert(parties_view(creditors@) =~= parties_view(old_ps).push(
                    PartyView {
                        index: i as int,
                        name: cv[i as int].name,
                        amount: spec_balance(cv, i as int),
                    },
                ));
            }
        } else if bal < 0 {
            let ghost old_ps = debtors@;
            debtors.push(Party { index: i, name: contribs[i].name.clone(), amount: -bal });
            proof {
                assert(parties_view(debtors@) =~= parties_view(old_ps).push(
                    PartyView {
                        index: i as int,
                        name: cv[i as int].name,
                        amount: -spec_balance(cv, i as int),
                    },
                ));
            }
        }
        i = i + 1;
    }
    (creditors, debtors)
}

} // verus!
