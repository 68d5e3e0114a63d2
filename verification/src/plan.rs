//! Settlement planner: given creditors and debtors with their scaled
//! imbalances, produces a list of flows (payments by entry position) that
//! settles every balance exactly.
//!
//! Three phases, as the engine's rules prescribe:
//! 1. With exactly one creditor, every debtor pays it their whole deficit.
//! 2. Otherwise, a first-fit pass matches each creditor with the first
//!    unmatched debtor of exactly equal magnitude; each such pair settles
//!    with a single payment.
//! 3. The remaining parties are sorted by descending magnitude and walked
//!    with two cursors; at each step the smaller of the current surplus
//!    and deficit moves, and whoever is exhausted advances. With exact
//!    integer arithmetic a party whose remainder reaches zero is settled,
//!    so no zero-amount payment is ever emitted.

use vstd::prelude::*;
use vstd::multiset::Multiset;
use vstd::pervasive::VecAdditionalExecFns;

use crate::classify::party_sum;
use crate::types::Flow;
use crate::types::FlowView;
use crate::types::Party;
use crate::types::PartyView;
use crate::types::flows_view;
use crate::types::parties_view;

verus! {

broadcast use vstd::multiset::group_multiset_axioms;

/// Sum of the amounts of the flows that pay entry `k`.
pub open spec fn flow_sum_to(fs: Seq<FlowView>, k: int) -> int
    decreases fs.len(),
{
    if fs.len() == 0 {
        0
    } else {
        (if fs[0].to == k {
            fs[0].amount
        } else {
            0
        }) + flow_sum_to(fs.drop_first(), k)
    }
}

/// Sum of the amounts of the flows paid by entry `k`.
pub open spec fn flow_sum_from(fs: Seq<FlowView>, k: int) -> int
    decreases fs.len(),
{
    if fs.len() == 0 {
        0
    } else {
        (if fs[0].from == k {
            fs[0].amount
        } else {
            0
        }) + flow_sum_from(fs.drop_first(), k)
    }
}

/// The flows of the single-creditor case over the first `k` debtors: each
/// pays the creditor its whole deficit.
pub open spec fn single_flows_upto(c: PartyView, ds: Seq<PartyView>, k: int) -> Seq<FlowView>
    decreases k,
{
    if k <= 0 {
        Seq::empty()
    } else {
        single_flows_upto(c, ds, k - 1).push(
            FlowView { from: ds[k - 1].index, to: c.index, amount: ds[k - 1].amount },
        )
    }
}

/// The first debtor at or after `j` that is unmatched and owes exactly
/// `amt`, if any.
pub open spec fn find_match(ds: Seq<PartyView>, used: Seq<bool>, amt: int, j: int) -> Option<int>
    decreases ds.len() - j,
{
    if j < 0 || j >= ds.len() {
        None
    } else if !used[j] && ds[j].amount == amt {
        Some(j)
    } else {
        find_match(ds, used, amt, j + 1)
    }
}

/// The exact-match pass over the first `k` creditors: the flows emitted,
/// which debtors have been matched, and which of those creditors matched.
pub open spec fn exact_upto(cs: Seq<PartyView>, ds: Seq<PartyView>, k: int) -> (
    Seq<FlowView>,
    Seq<bool>,
    Seq<bool>,
)
    decreases k,
{
    if k <= 0 {
        (Seq::<FlowView>::empty(), Seq::new(ds.len(), |i: int| false), Seq::<bool>::empty())
    } else {
        let r = exact_upto(cs, ds, k - 1);
        match find_match(ds, r.1, cs[k - 1].amount, 0) {
            Some(j) => (
                r.0.push(FlowView { from: ds[j].index, to: cs[k - 1].index, amount: cs[k - 1].amount }),
                r.1.update(j, true),
                r.2.push(true),
            ),
            None => (r.0, r.1, r.2.push(false)),
        }
    }
}

/// The parties among the first `k` whose flag is unset, in order.
pub open spec fn keep_upto(ps: Seq<PartyView>, flags: Seq<bool>, k: int) -> Seq<PartyView>
    decreases k,
{
    if k <= 0 {
        Seq::empty()
    } else {
        let r = keep_upto(ps, flags, k - 1);
        if !flags[k - 1] {
            r.push(ps[k - 1])
        } else {
            r
        }
    }
}

/// Inserts `x` before the first party with a strictly smaller amount, so
/// that repeated insertion yields a stable descending order.
pub open spec fn insert_desc(s: Seq<PartyView>, x: PartyView) -> Seq<PartyView>
    decreases s.len(),
{
    if s.len() > 0 && s[0].amount >= x.amount {
        seq![s[0]] + insert_desc(s.drop_first(), x)
    } else {
        seq![x] + s
    }
}

/// Stable insertion sort by descending amount.
pub open spec fn sort_desc(s: Seq<PartyView>) -> Seq<PartyView>
    decreases s.len(),
{
    if s.len() == 0 {
        Seq::empty()
    } else {
        insert_desc(sort_desc(s.drop_last()), s.last())
    }
}

/// The two-cursor walk over the remaining creditors and debtors. The
/// smaller of the current surplus and deficit is paid in full; equal
/// remainders settle both parties with one payment.
pub open spec fn binpack(cs: Seq<PartyView>, ds: Seq<PartyView>) -> Seq<FlowView>
    decreases cs.len() + ds.len(),
{
    if cs.len() == 0 || ds.len() == 0 {
        Seq::empty()
    } else {
        let c = cs[0];
        let d = ds[0];
        if c.amount < d.amount {
            seq![FlowView { from: d.index, to: c.index, amount: c.amount }] + binpack(
                cs.drop_first(),
                ds.update(0, PartyView { index: d.index, name: d.name, amount: d.amount - c.amount }),
            )
        } else if c.amount > d.amount {
            seq![FlowView { from: d.index, to: c.index, amount: d.amount }] + binpack(
                cs.update(0, PartyView { index: c.index, name: c.name, amount: c.amount - d.amount }),
                ds.drop_first(),
            )
        } else {
            seq![FlowView { from: d.index, to: c.index, amount: c.amount }] + binpack(
                cs.drop_first(),
                ds.drop_first(),
            )
        }
    }
}

/// The whole plan: the single-creditor special case, or the exact-match
/// pass followed by the two-cursor walk over the sorted remainders.
pub open spec fn spec_plan(cs: Seq<PartyView>, ds: Seq<PartyView>) -> Seq<FlowView> {
    if cs.len() == 1 {
        single_flows_upto(cs[0], ds, ds.len() as int)
    } else {
        let r = exact_upto(cs, ds, cs.len() as int);
        r.0 + binpack(
            sort_desc(keep_upto(cs, r.2, cs.len() as int)),
            sort_desc(keep_upto(ds, r.1, ds.len() as int)),
        )
    }
}

/// Every party of the list has a strictly positive amount.
pub open spec fn all_pos(ps: Seq<PartyView>) -> bool {
    forall|p: int| 0 <= p < ps.len() ==> (#[trigger] ps[p]).amount > 0
}

/// A successful `find_match` names an unmatched debtor of the sought
/// amount, at or after the start of the scan.
proof fn lemma_find_match_some(ds: Seq<PartyView>, used: Seq<bool>, amt: int, a: int)
    requires
        0 <= a <= ds.len(),
    ensures
        match find_match(ds, used, amt, a) {
            Some(j) => a <= j < ds.len() && !used[j] && ds[j].amount == amt,
            None => true,
        },
    decreases ds.len() - a,
{
    if a < ds.len() {
        if !used[a] && ds[a].amount == amt {
        } else {
            lemma_find_match_some(ds, used, amt, a + 1);
        }
    }
}

/// The exact-match pass keeps one debtor flag per debtor and answers one
/// matched flag per creditor seen.
proof fn lemma_exact_upto_shape(cs: Seq<PartyView>, ds: Seq<PartyView>, k: int)
    requires
        0 <= k <= cs.len(),
    ensures
        exact_upto(cs, ds, k).1.len() == ds.len(),
        exact_upto(cs, ds, k).2.len() == k,
    decreases k,
{
    if k > 0 {
        lemma_exact_upto_shape(cs, ds, k - 1);
        lemma_find_match_some(ds, exact_upto(cs, ds, k - 1).1, cs[k - 1].amount, 0);
    }
}

/// Keeping unmatched parties keeps their amounts positive.
proof fn lemma_keep_upto_pos(ps: Seq<PartyView>, flags: Seq<bool>, k: int)
    requires
        0 <= k <= ps.len(),
        all_pos(ps),
    ensures
        all_pos(keep_upto(ps, flags, k)),
    decreases k,
{
    if k > 0 {
        lemma_keep_upto_pos(ps, flags, k - 1);
        let r = keep_upto(ps, flags, k - 1);
        if !flags[k - 1] {
            assert(forall|p: int|
                0 <= p < r.len() ==> #[trigger] keep_upto(ps, flags, k)[p] == r[p]);
            assert(keep_upto(ps, flags, k)[r.len() as int] == ps[k - 1]);
        }
    }
}

/// Stable insertion keeps amounts positive.
proof fn lemma_insert_desc_pos(s: Seq<PartyView>, x: PartyView)
    requires
        all_pos(s),
        x.amount > 0,
    ensures
        all_pos(insert_desc(s, x)),
    decreases s.len(),
{
    if s.len() > 0 && s[0].amount >= x.amount {
        assert(all_pos(s.drop_first()));
        lemma_insert_desc_pos(s.drop_first(), x);
        let r = seq![s[0]] + insert_desc(s.drop_first(), x);
        assert(forall|p: int|
            1 <= p < r.len() ==> #[trigger] r[p] == insert_desc(s.drop_first(), x)[p - 1]);
        assert(r[0] == s[0]);
    }
}

/// Sorting keeps amounts positive.
proof fn lemma_sort_desc_pos(s: Seq<PartyView>)
    requires
        all_pos(s),
    ensures
        all_pos(sort_desc(s)),
    decreases s.len(),
{
    if s.len() > 0 {
        assert(all_pos(s.drop_last()));
        lemma_sort_desc_pos(s.drop_last());
        lemma_insert_desc_pos(sort_desc(s.drop_last()), s.last());
    }
}

/// No two parties of the list stand for the same entry.
pub open spec fn distinct_idx(ps: Seq<PartyView>) -> bool {
    forall|p: int, q: int|
        0 <= p < ps.len() && 0 <= q < ps.len() && p != q ==> (#[trigger] ps[p]).index != (
        #[trigger] ps[q]).index
}

/// Entry `i` is one of the parties of the list.
pub open spec fn idx_in(ps: Seq<PartyView>, i: int) -> bool {
    exists|p: int| 0 <= p < ps.len() && (#[trigger] ps[p]).index == i
}

/// Every flow is strictly positive and runs from a listed debtor to a
/// listed creditor.
pub open spec fn flows_ok(fs: Seq<FlowView>, cs: Seq<PartyView>, ds: Seq<PartyView>) -> bool {
    forall|k: int|
        0 <= k < fs.len() ==> (#[trigger] fs[k]).amount > 0 && idx_in(cs, fs[k].to) && idx_in(
            ds,
            fs[k].from,
        )
}

/// Sum of party amounts decomposes at the front.
proof fn lemma_party_sum_front(s: Seq<PartyView>)
    requires
        s.len() > 0,
    ensures
        party_sum(s) == s[0].amount + party_sum(s.drop_first()),
    decreases s.len(),
{
    if s.len() == 1 {
        assert(s.drop_last() =~= Seq::<PartyView>::empty());
        assert(s.drop_first() =~= Seq::<PartyView>::empty());
    } else {
        lemma_party_sum_front(s.drop_last());
        assert(s.drop_last().drop_first() =~= s.drop_first().drop_last());
        assert(party_sum(s.drop_first()) == party_sum(s.drop_first().drop_last())
            + s.drop_first().last().amount);
        assert(s.drop_first().last() == s.last());
    }
}

/// A list of positive amounts has a positive sum unless it is empty.
proof fn lemma_party_sum_pos(s: Seq<PartyView>)
    requires
        all_pos(s),
    ensures
        party_sum(s) >= 0,
        s.len() > 0 ==> party_sum(s) > 0,
    decreases s.len(),
{
    if s.len() > 0 {
        assert(all_pos(s.drop_last()));
        lemma_party_sum_pos(s.drop_last());
    }
}

/// Flow sums distribute over concatenation.
pub proof fn lemma_flow_sum_concat(a: Seq<FlowView>, b: Seq<FlowView>, k: int)
    ensures
        flow_sum_to(a + b, k) == flow_sum_to(a, k) + flow_sum_to(b, k),
        flow_sum_from(a + b, k) == flow_sum_from(a, k) + flow_sum_from(b, k),
    decreases a.len(),
{
    if a.len() == 0 {
        assert(a + b =~= b);
    } else {
        lemma_flow_sum_concat(a.drop_first(), b, k);
        assert((a + b).drop_first() =~= a.drop_first() + b);
        assert((a + b)[0] == a[0]);
    }
}

/// A party that no flow pays receives nothing; one that no flow charges
/// pays nothing.
pub proof fn lemma_flow_sum_absent(fs: Seq<FlowView>, k: int)
    ensures
        (forall|p: int| 0 <= p < fs.len() ==> (#[trigger] fs[p]).to != k) ==> flow_sum_to(fs, k)
            == 0,
        (forall|p: int| 0 <= p < fs.len() ==> (#[trigger] fs[p]).from != k) ==> flow_sum_from(
            fs,
            k,
        ) == 0,
    decreases fs.len(),
{
    if fs.len() > 0 {
        lemma_flow_sum_absent(fs.drop_first(), k);
        assert(forall|p: int|
            0 <= p < fs.drop_first().len() ==> #[trigger] fs.drop_first()[p] == fs[p + 1]);
    }
}

/// The flows of the two-cursor walk pay every creditor exactly its
/// surplus out of every debtor's exact deficit.
proof fn lemma_binpack_conserves(cs: Seq<PartyView>, ds: Seq<PartyView>)
    requires
        all_pos(cs),
        all_pos(ds),
        party_sum(cs) == party_sum(ds),
        distinct_idx(cs),
        distinct_idx(ds),
    ensures
        flows_ok(binpack(cs, ds), cs, ds),
        forall|p: int|
            0 <= p < cs.len() ==> flow_sum_to(binpack(cs, ds), (#[trigger] cs[p]).index)
                == cs[p].amount,
        forall|q: int|
            0 <= q < ds.len() ==> flow_sum_from(binpack(cs, ds), (#[trigger] ds[q]).index)
                == ds[q].amount,
    decreases cs.len() + ds.len(),
{
    let fs = binpack(cs, ds);
    if cs.len() == 0 || ds.len() == 0 {
        lemma_party_sum_pos(cs);
        lemma_party_sum_pos(ds);
        assert(cs.len() == 0 && ds.len() == 0);
    } else {
        let c = cs[0];
        let d = ds[0];
        lemma_party_sum_front(cs);
        lemma_party_sum_front(ds);
        if c.amount < d.amount {
            let f = FlowView { from: d.index, to: c.index, amount: c.amount };
            let cs1 = cs.drop_first();
            let ds1 = ds.update(
                0,
                PartyView { index: d.index, name: d.name, amount: d.amount - c.amount },
            );
            let rest = binpack(cs1, ds1);
            assert(fs == seq![f] + rest);
            assert(all_pos(cs1)) by {
                assert(forall|p: int| 0 <= p < cs1.len() ==> #[trigger] cs1[p] == cs[p + 1]);
            }
            assert(all_pos(ds1)) by {
                assert(forall|p: int| 1 <= p < ds1.len() ==> #[trigger] ds1[p] == ds[p]);
            }
            assert(party_sum(ds1) == party_sum(ds) - c.amount) by {
                lemma_party_sum_front(ds1);
                assert(ds1.drop_first() =~= ds.drop_first());
            }
            assert(distinct_idx(cs1)) by {
                assert(forall|p: int| 0 <= p < cs1.len() ==> #[trigger] cs1[p] == cs[p + 1]);
            }
            assert(distinct_idx(ds1)) by {
                assert(forall|p: int|
                    0 <= p < ds1.len() ==> (#[trigger] ds1[p]).index == ds[p].index);
            }
            lemma_binpack_conserves(cs1, ds1);
            assert((seq![f] + rest).drop_first() =~= rest);
            assert((seq![f] + rest)[0] == f);
            // The emitted flow is valid; the rest reference the reduced lists.
            assert(flows_ok(fs, cs, ds)) by {
                assert(cs[0].index == f.to && ds[0].index == f.from);
                assert(forall|k: int| 0 <= k < rest.len() ==> #[trigger] fs[k + 1] == rest[k]);
                assert(forall|k: int|
                    0 <= k < rest.len() ==> idx_in(cs, (#[trigger] rest[k]).to) && idx_in(
                        ds,
                        rest[k].from,
                    )) by {
                    assert(forall|k: int|
                        0 <= k < rest.len() ==> idx_in(cs1, (#[trigger] rest[k]).to) && idx_in(
                            ds1,
                            rest[k].from,
                        ));
                    assert(forall|i: int| idx_in(cs1, i) ==> idx_in(cs, i)) by {
                        assert(forall|p: int|
                            0 <= p < cs1.len() ==> (#[trigger] cs1[p]).index == cs[p + 1].index);
                    }
                    assert(forall|i: int| idx_in(ds1, i) ==> idx_in(ds, i)) by {
                        assert(forall|p: int|
                            0 <= p < ds1.len() ==> (#[trigger] ds1[p]).index == ds[p].index);
                    }
                }
            }
            // Creditor sums.
            assert(forall|p: int|
                0 <= p < cs.len() ==> flow_sum_to(fs, (#[trigger] cs[p]).index) == cs[p].amount) by {
                assert(forall|p: int|
                    0 <= p < cs.len() ==> flow_sum_to(fs, (#[trigger] cs[p]).index) == (if cs[p].index
                        == f.to {
                        f.amount
                    } else {
                        0
                    }) + flow_sum_to(rest, cs[p].index));
                assert(flow_sum_to(rest, c.index) == 0) by {
                    assert(forall|k: int|
                        0 <= k < rest.len() ==> (#[trigger] rest[k]).to != c.index) by {
                        assert(forall|k: int|
                            0 <= k < rest.len() ==> idx_in(cs1, (#[trigger] rest[k]).to));
                        assert(forall|p: int|
                            0 <= p < cs1.len() ==> (#[trigger] cs1[p]).index != c.index) by {
                            assert(forall|p: int|
                                0 <= p < cs1.len() ==> (#[trigger] cs1[p]).index == cs[p
                                    + 1].index);
                        }
                    }
                    lemma_flow_sum_absent(rest, c.index);
                }
                assert(forall|p: int|
                    1 <= p < cs.len() ==> flow_sum_to(rest, (#[trigger] cs[p]).index) == cs[p].amount)
                    by {
                    assert(forall|p: int| 1 <= p < cs.len() ==> cs[p] == cs1[p - 1]);
                }
                assert(forall|p: int| 1 <= p < cs.len() ==> (#[trigger] cs[p]).index != f.to);
            }
            // Debtor sums.
            assert(forall|q: int|
                0 <= q < ds.len() ==> flow_sum_from(fs, (#[trigger] ds[q]).index) == ds[q].amount)
                by {
                assert(forall|q: int|
                    0 <= q < ds.len() ==> flow_sum_from(fs, (#[trigger] ds[q]).index) == (if ds[q].index
                        == f.from {
                        f.amount
                    } else {
                        0
                    }) + flow_sum_from(rest, ds[q].index));
                assert(flow_sum_from(rest, d.index) == ds1[0].amount);
                assert(forall|q: int|
                    1 <= q < ds.len() ==> flow_sum_from(rest, (#[trigger] ds[q]).index)
                        == ds[q].amount) by {
                    assert(forall|q: int| 1 <= q < ds.len() ==> ds[q] == ds1[q]);
                }
                assert(forall|q: int| 1 <= q < ds.len() ==> (#[trigger] ds[q]).index != f.from);
            }
        } else if c.amount > d.amount {
            let f = FlowView { from: d.index, to: c.index, amount: d.amount };
            let cs1 = cs.update(
                0,
                PartyView { index: c.index, name: c.name, amount: c.amount - d.amount },
            );
            let ds1 = ds.drop_first();
            let rest = binpack(cs1, ds1);
            assert(fs == seq![f] + rest);
            assert(all_pos(ds1)) by {
                assert(forall|p: int| 0 <= p < ds1.len() ==> #[trigger] ds1[p] == ds[p + 1]);
            }
            assert(all_pos(cs1)) by {
                assert(forall|p: int| 1 <= p < cs1.len() ==> #[trigger] cs1[p] == cs[p]);
            }
            assert(party_sum(cs1) == party_sum(cs) - d.amount) by {
                lemma_party_sum_front(cs1);
                assert(cs1.drop_first() =~= cs.drop_first());
            }
            assert(distinct_idx(ds1)) by {
                assert(forall|p: int| 0 <= p < ds1.len() ==> #[trigger] ds1[p] == ds[p + 1]);
            }
            assert(distinct_idx(cs1)) by {
                assert(forall|p: int|
                    0 <= p < cs1.len() ==> (#[trigger] cs1[p]).index == cs[p].index);
            }
            lemma_binpack_conserves(cs1, ds1);
            assert((seq![f] + rest).drop_first() =~= rest);
            assert((seq![f] + rest)[0] == f);
            assert(flows_ok(fs, cs, ds)) by {
                assert(cs[0].index == f.to && ds[0].index == f.from);
                assert(forall|k: int| 0 <= k < rest.len() ==> #[trigger] fs[k + 1] == rest[k]);
                assert(forall|k: int|
                    0 <= k < rest.len() ==> idx_in(cs, (#[trigger] rest[k]).to) && idx_in(
                        ds,
                        rest[k].from,
                    )) by {
                    assert(forall|k: int|
                        0 <= k < rest.len() ==> idx_in(cs1, (#[trigger] rest[k]).to) && idx_in(
                            ds1,
                            rest[k].from,
                        ));
                    assert(forall|i: int| idx_in(cs1, i) ==> idx_in(cs, i)) by {
                        assert(forall|p: int|
                            0 <= p < cs1.len() ==> (#[trigger] cs1[p]).index == cs[p].index);
                    }
                    assert(forall|i: int| idx_in(ds1, i) ==> idx_in(ds, i)) by {
                        assert(forall|p: int|
                            0 <= p < ds1.len() ==> (#[trigger] ds1[p]).index == ds[p + 1].index);
                    }
                }
            }
            assert(forall|p: int|
                0 <= p < cs.len() ==> flow_sum_to(fs, (#[trigger] cs[p]).index) == cs[p].amount) by {
                assert(forall|p: int|
                    0 <= p < cs.len() ==> flow_sum_to(fs, (#[trigger] cs[p]).index) == (if cs[p].index
                        == f.to {
                        f.amount
                    } else {
                        0
                    }) + flow_sum_to(rest, cs[p].index));
                assert(flow_sum_to(rest, c.index) == cs1[0].amount);
                assert(forall|p: int|
                    1 <= p < cs.len() ==> flow_sum_to(rest, (#[trigger] cs[p]).index)
                        == cs[p].amount) by {
                    assert(forall|p: int| 1 <= p < cs.len() ==> cs[p] == cs1[p]);
                }
                assert(forall|p: int| 1 <= p < cs.len() ==> (#[trigger] cs[p]).index != f.to);
            }
            assert(forall|q: int|
                0 <= q < ds.len() ==> flow_sum_from(fs, (#[trigger] ds[q]).index) == ds[q].amount)
                by {
                assert(forall|q: int|
                    0 <= q < ds.len() ==> flow_sum_from(fs, (#[trigger] ds[q]).index) == (if ds[q].index
                        == f.from {
                        f.amount
                    } else {
                        0
                    }) + flow_sum_from(rest, ds[q].index));
                assert(flow_sum_from(rest, d.index) == 0) by {
                    assert(forall|k: int|
                        0 <= k < rest.len() ==> (#[trigger] rest[k]).from != d.index) by {
                        assert(forall|k: int|
                            0 <= k < rest.len() ==> idx_in(ds1, (#[trigger] rest[k]).from));
                        assert(forall|p: int|
                            0 <= p < ds1.len() ==> (#[trigger] ds1[p]).index != d.index) by {
                            assert(forall|p: int|
                                0 <= p < ds1.len() ==> (#[trigger] ds1[p]).index == ds[p
                                    + 1].index);
                        }
                    }
                    lemma_flow_sum_absent(rest, d.index);
                }
                assert(forall|q: int|
                    1 <= q < ds.len() ==> flow_sum_from(rest, (#[trigger] ds[q]).index)
                        == ds[q].amount) by {
                    assert(forall|q: int| 1 <= q < ds.len() ==> ds[q] == ds1[q - 1]);
                }
                assert(forall|q: int| 1 <= q < ds.len() ==> (#[trigger] ds[q]).index != f.from);
            }
        } else {
            let f = FlowView { from: d.index, to: c.index, amount: c.amount };
            let cs1 = cs.drop_first();
            let ds1 = ds.drop_first();
            let rest = binpack(cs1, ds1);
            assert(fs == seq![f] + rest);
            assert(all_pos(cs1) && distinct_idx(cs1)) by {
                assert(forall|p: int| 0 <= p < cs1.len() ==> #[trigger] cs1[p] == cs[p + 1]);
            }
            assert(all_pos(ds1) && distinct_idx(ds1)) by {
                assert(forall|p: int| 0 <= p < ds1.len() ==> #[trigger] ds1[p] == ds[p + 1]);
            }
            lemma_binpack_conserves(cs1, ds1);
            assert((seq![f] + rest).drop_first() =~= rest);
            assert((seq![f] + rest)[0] == f);
            assert(flows_ok(fs, cs, ds)) by {
                assert(cs[0].index == f.to && ds[0].index == f.from);
                assert(forall|k: int| 0 <= k < rest.len() ==> #[trigger] fs[k + 1] == rest[k]);
                assert(forall|k: int|
                    0 <= k < rest.len() ==> idx_in(cs, (#[trigger] rest[k]).to) && idx_in(
                        ds,
                        rest[k].from,
                    )) by {
                    assert(forall|k: int|
                        0 <= k < rest.len() ==> idx_in(cs1, (#[trigger] rest[k]).to) && idx_in(
                            ds1,
                            rest[k].from,
                        ));
                    assert(forall|i: int| idx_in(cs1, i) ==> idx_in(cs, i)) by {
                        assert(forall|p: int|
                            0 <= p < cs1.len() ==> (#[trigger] cs1[p]).index == cs[p + 1].index);
                    }
                    assert(forall|i: int| idx_in(ds1, i) ==> idx_in(ds, i)) by {
                        assert(forall|p: int|
                            0 <= p < ds1.len() ==> (#[trigger] ds1[p]).index == ds[p + 1].index);
                    }
                }
            }
            assert(forall|p: int|
                0 <= p < cs.len() ==> flow_sum_to(fs, (#[trigger] cs[p]).index) == cs[p].amount) by {
                assert(forall|p: int|
                    0 <= p < cs.len() ==> flow_sum_to(fs, (#[trigger] cs[p]).index) == (if cs[p].index
                        == f.to {
                        f.amount
                    } else {
                        0
                    }) + flow_sum_to(rest, cs[p].index));
                assert(flow_sum_to(rest, c.index) == 0) by {
                    assert(forall|k: int|
                        0 <= k < rest.len() ==> (#[trigger] rest[k]).to != c.index) by {
                        assert(forall|k: int|
                            0 <= k < rest.len() ==> idx_in(cs1, (#[trigger] rest[k]).to));
                        assert(forall|p: int|
                            0 <= p < cs1.len() ==> (#[trigger] cs1[p]).index != c.index) by {
                            assert(forall|p: int|
                                0 <= p < cs1.len() ==> (#[trigger] cs1[p]).index == cs[p
                                    + 1].index);
                        }
                    }
                    lemma_flow_sum_absent(rest, c.index);
                }
                assert(forall|p: int|
                    1 <= p < cs.len() ==> flow_sum_to(rest, (#[trigger] cs[p]).index)
                        == cs[p].amount) by {
                    assert(forall|p: int| 1 <= p < cs.len() ==> cs[p] == cs1[p - 1]);
                }
                assert(forall|p: int| 1 <= p < cs.len() ==> (#[trigger] cs[p]).index != f.to);
            }
            assert(forall|q: int|
                0 <= q < ds.len() ==> flow_sum_from(fs, (#[trigger] ds[q]).index) == ds[q].amount)
                by {
                assert(forall|q: int|
                    0 <= q < ds.len() ==> flow_sum_from(fs, (#[trigger] ds[q]).index) == (if ds[q].index
                        == f.from {
                        f.amount
                    } else {
                        0
                    }) + flow_sum_from(rest, ds[q].index));
                assert(flow_sum_from(rest, d.index) == 0) by {
                    assert(forall|k: int|
                        0 <= k < rest.len() ==> (#[trigger] rest[k]).from != d.index) by {
                        assert(forall|k: int|
                            0 <= k < rest.len() ==> idx_in(ds1, (#[trigger] rest[k]).from));
                        assert(forall|p: int|
                            0 <= p < ds1.len() ==> (#[trigger] ds1[p]).index != d.index) by {
                            assert(forall|p: int|
                                0 <= p < ds1.len() ==> (#[trigger] ds1[p]).index == ds[p
                                    + 1].index);
                        }
                    }
                    lemma_flow_sum_absent(rest, d.index);
                }
                assert(forall|q: int|
                    1 <= q < ds.len() ==> flow_sum_from(rest, (#[trigger] ds[q]).index)
                        == ds[q].amount) by {
                    assert(forall|q: int| 1 <= q < ds.len() ==> ds[q] == ds1[q - 1]);
                }
                assert(forall|q: int| 1 <= q < ds.len() ==> (#[trigger] ds[q]).index != f.from);
            }
        }
    }
}

/// Sum of the amounts of the flagged parties among the first `k`.
pub open spec fn masked_sum(ps: Seq<PartyView>, flags: Seq<bool>, k: int) -> int
    decreases k,
{
    if k <= 0 {
        0
    } else {
        masked_sum(ps, flags, k - 1) + if flags[k - 1] {
            ps[k - 1].amount
        } else {
            0
        }
    }
}

/// A masked sum reads only the first `k` flags.
proof fn lemma_masked_sum_congruence(ps: Seq<PartyView>, f1: Seq<bool>, f2: Seq<bool>, k: int)
    requires
        forall|i: int| 0 <= i < k ==> f1[i] == f2[i],
    ensures
        masked_sum(ps, f1, k) == masked_sum(ps, f2, k),
    decreases k,
{
    if k > 0 {
        lemma_masked_sum_congruence(ps, f1, f2, k - 1);
    }
}

/// Setting one unset flag adds exactly that party's amount.
proof fn lemma_masked_sum_update(ps: Seq<PartyView>, flags: Seq<bool>, j: int, k: int)
    requires
        0 <= j < k <= flags.len(),
        !flags[j],
    ensures
        masked_sum(ps, flags.update(j, true), k) == masked_sum(ps, flags, k) + ps[j].amount,
    decreases k,
{
    if j == k - 1 {
        assert(forall|i: int| 0 <= i < k - 1 ==> flags.update(j, true)[i] == flags[i]);
        lemma_masked_sum_congruence(ps, flags.update(j, true), flags, k - 1);
        assert(flags.update(j, true)[k - 1]);
    } else {
        lemma_masked_sum_update(ps, flags, j, k - 1);
        assert(flags.update(j, true)[k - 1] == flags[k - 1]);
    }
}

/// With no flag set the masked sum is zero.
proof fn lemma_masked_sum_none(ps: Seq<PartyView>, flags: Seq<bool>, k: int)
    requires
        forall|i: int| 0 <= i < k ==> !flags[i],
    ensures
        masked_sum(ps, flags, k) == 0,
    decreases k,
{
    if k > 0 {
        lemma_masked_sum_none(ps, flags, k - 1);
    }
}

/// What the exact-match pass guarantees: every flow is one first-fit match
/// of a creditor with an unmatched debtor of equal magnitude, each matched
/// creditor is paid exactly its surplus and each unmatched one nothing,
/// each matched debtor pays exactly its deficit and each unmatched one
/// nothing, and the matched surpluses and deficits have equal sums.
proof fn lemma_exact_upto_facts(cs: Seq<PartyView>, ds: Seq<PartyView>, k: int)
    requires
        0 <= k <= cs.len(),
        distinct_idx(cs),
        distinct_idx(ds),
        all_pos(cs),
        all_pos(ds),
    ensures
        exact_upto(cs, ds, k).1.len() == ds.len(),
        exact_upto(cs, ds, k).2.len() == k,
        flows_ok(exact_upto(cs, ds, k).0, cs.take(k), ds),
        forall|i: int|
            0 <= i < k ==> flow_sum_to(exact_upto(cs, ds, k).0, (#[trigger] cs[i]).index) == (
            if exact_upto(cs, ds, k).2[i] {
                cs[i].amount
            } else {
                0
            }),
        forall|j: int|
            0 <= j < ds.len() ==> flow_sum_from(exact_upto(cs, ds, k).0, (#[trigger] ds[j]).index)
                == (if exact_upto(cs, ds, k).1[j] {
                ds[j].amount
            } else {
                0
            }),
        masked_sum(cs, exact_upto(cs, ds, k).2, k) == masked_sum(
            ds,
            exact_upto(cs, ds, k).1,
            ds.len() as int,
        ),
    decreases k,
{
    let nd = ds.len() as int;
    if k == 0 {
        let used0 = exact_upto(cs, ds, 0).1;
        assert(forall|i: int| 0 <= i < nd ==> !used0[i]);
        lemma_masked_sum_none(ds, used0, nd);
        assert(forall|j: int|
            0 <= j < nd ==> flow_sum_from(exact_upto(cs, ds, 0).0, (#[trigger] ds[j]).index) == 0);
    } else {
        lemma_exact_upto_facts(cs, ds, k - 1);
        let r = exact_upto(cs, ds, k - 1);
        let fs = r.0;
        let used = r.1;
        let mc = r.2;
        let amt = cs[k - 1].amount;
        lemma_find_match_some(ds, used, amt, 0);
        assert(cs.take(k - 1) =~= cs.take(k).drop_last());
        match find_match(ds, used, amt, 0) {
            Some(j) => {
                let f = FlowView { from: ds[j].index, to: cs[k - 1].index, amount: amt };
                let fs1 = fs.push(f);
                let used1 = used.update(j, true);
                let mc1 = mc.push(true);
                assert(exact_upto(cs, ds, k).0 == fs1);
                assert(exact_upto(cs, ds, k).1 == used1);
                assert(exact_upto(cs, ds, k).2 == mc1);
                assert(fs1 =~= fs + seq![f]);
                assert forall|i: int|
                    #[trigger] flow_sum_to(fs1, i) == flow_sum_to(fs, i) + flow_sum_to(seq![f], i)
                        && #[trigger] flow_sum_from(fs1, i) == flow_sum_from(fs, i)
                        + flow_sum_from(seq![f], i) by {
                    lemma_flow_sum_concat(fs, seq![f], i);
                }
                assert forall|i: int|
                    #[trigger] flow_sum_to(seq![f], i) == (if f.to == i {
                        f.amount
                    } else {
                        0
                    }) && #[trigger] flow_sum_from(seq![f], i) == (if f.from == i {
                        f.amount
                    } else {
                        0
                    }) by {
                    assert(seq![f].drop_first() =~= Seq::<FlowView>::empty());
                    assert(flow_sum_to(seq![f].drop_first(), i) == 0);
                    assert(flow_sum_from(seq![f].drop_first(), i) == 0);
                    assert(seq![f][0] == f);
                }
                // Valid flows: the new one pairs creditor k-1 with debtor j.
                assert(flows_ok(fs1, cs.take(k), ds)) by {
                    assert(forall|t: int| 0 <= t < fs.len() ==> #[trigger] fs1[t] == fs[t]);
                    assert(fs1[fs.len() as int] == f);
                    assert(forall|i: int|
                        idx_in(cs.take(k - 1), i) ==> idx_in(cs.take(k), i)) by {
                        assert(forall|p: int|
                            0 <= p < k - 1 ==> (#[trigger] cs.take(k - 1)[p]).index == cs.take(
                                k,
                            )[p].index);
                    }
                    assert((#[trigger] cs.take(k)[k - 1]).index == f.to);
                    assert(idx_in(ds, f.from));
                    assert(f.amount > 0);
                }
                // Creditor sums.
                assert(flow_sum_to(fs, cs[k - 1].index) == 0) by {
                    assert(forall|t: int|
                        0 <= t < fs.len() ==> (#[trigger] fs[t]).to != cs[k - 1].index) by {
                        assert(forall|t: int|
                            0 <= t < fs.len() ==> idx_in(cs.take(k - 1), (#[trigger] fs[t]).to));
                        assert(forall|p: int|
                            0 <= p < k - 1 ==> (#[trigger] cs.take(k - 1)[p]).index != cs[k
                                - 1].index);
                    }
                    lemma_flow_sum_absent(fs, cs[k - 1].index);
                }
                assert forall|i: int| 0 <= i < k implies flow_sum_to(
                    fs1,
                    (#[trigger] cs[i]).index,
                ) == (if mc1[i] {
                    cs[i].amount
                } else {
                    0
                }) by {
                    lemma_flow_sum_concat(fs, seq![f], cs[i].index);
                    assert(fs1 == fs + seq![f]);
                    assert(seq![f].drop_first() =~= Seq::<FlowView>::empty());
                    assert(flow_sum_to(seq![f].drop_first(), cs[i].index) == 0);
                    assert(flow_sum_to(fs1, cs[i].index) == flow_sum_to(fs, cs[i].index)
                        + flow_sum_to(seq![f], cs[i].index));
                    if i == k - 1 {
                        assert(mc1[i]);
                        assert(f.to == cs[i].index);
                    } else {
                        assert(mc1[i] == mc[i]);
                        assert(cs[i].index != cs[k - 1].index);
                        assert(flow_sum_to(seq![f], cs[i].index) == 0);
                    }
                }
                // Debtor sums.
                assert(ds[j].amount == amt);
                assert(flow_sum_from(fs, ds[j].index) == 0);
                assert forall|jq: int| 0 <= jq < nd implies flow_sum_from(
                    fs1,
                    (#[trigger] ds[jq]).index,
                ) == (if used1[jq] {
                    ds[jq].amount
                } else {
                    0
                }) by {
                    lemma_flow_sum_concat(fs, seq![f], ds[jq].index);
                    assert(fs1 == fs + seq![f]);
                    assert(seq![f].drop_first() =~= Seq::<FlowView>::empty());
                    assert(flow_sum_from(seq![f].drop_first(), ds[jq].index) == 0);
                    assert(flow_sum_from(fs1, ds[jq].index) == flow_sum_from(fs, ds[jq].index)
                        + flow_sum_from(seq![f], ds[jq].index));
                    if jq == j {
                        assert(used1[jq]);
                        assert(f.from == ds[jq].index);
                    } else {
                        assert(used1[jq] == used[jq]);
                        assert(ds[jq].index != ds[j].index);
                        assert(flow_sum_from(seq![f], ds[jq].index) == 0);
                    }
                }
                // Matched sums stay equal.
                lemma_masked_sum_congruence(cs, mc1, mc, k - 1);
                lemma_masked_sum_update(ds, used, j, nd);
                assert(masked_sum(cs, mc1, k) == masked_sum(cs, mc, k - 1) + amt);
            },
            None => {
                let mc1 = mc.push(false);
                assert(exact_upto(cs, ds, k).0 == fs);
                assert(exact_upto(cs, ds, k).1 == used);
                assert(exact_upto(cs, ds, k).2 == mc1);
                assert(flows_ok(fs, cs.take(k), ds)) by {
                    assert(forall|i: int|
                        idx_in(cs.take(k - 1), i) ==> idx_in(cs.take(k), i)) by {
                        assert(forall|p: int|
                            0 <= p < k - 1 ==> (#[trigger] cs.take(k - 1)[p]).index == cs.take(
                                k,
                            )[p].index);
                    }
                }
                assert(forall|i: int|
                    0 <= i < k ==> flow_sum_to(fs, (#[trigger] cs[i]).index) == (if mc1[i] {
                        cs[i].amount
                    } else {
                        0
                    })) by {
                    assert(flow_sum_to(fs, cs[k - 1].index) == 0) by {
                        assert(forall|t: int|
                            0 <= t < fs.len() ==> (#[trigger] fs[t]).to != cs[k - 1].index) by {
                            assert(forall|t: int|
                                0 <= t < fs.len() ==> idx_in(cs.take(k - 1), (#[trigger] fs[t]).to));
                            assert(forall|p: int|
                                0 <= p < k - 1 ==> (#[trigger] cs.take(k - 1)[p]).index != cs[k
                                    - 1].index);
                        }
                        lemma_flow_sum_absent(fs, cs[k - 1].index);
                    }
                    assert(forall|i: int| 0 <= i < k - 1 ==> mc1[i] == mc[i]);
                    assert(!mc1[k - 1]);
                }
                lemma_masked_sum_congruence(cs, mc1, mc, k - 1);
            },
        }
    }
}

/// What keeping the unflagged parties guarantees: every kept party is an
/// unflagged source party, every unflagged source party is kept, the kept
/// sum is the source sum less the flagged sum, and distinct entries stay
/// distinct.
proof fn lemma_keep_upto_facts(ps: Seq<PartyView>, flags: Seq<bool>, k: int)
    requires
        0 <= k <= ps.len(),
        distinct_idx(ps),
    ensures
        forall|p: int|
            0 <= p < keep_upto(ps, flags, k).len() ==> exists|q: int|
                0 <= q < k && !flags[q] && #[trigger] keep_upto(ps, flags, k)[p] == ps[q],
        forall|q: int|
            0 <= q < k && !flags[q] ==> exists|p: int|
                0 <= p < keep_upto(ps, flags, k).len() && #[trigger] keep_upto(ps, flags, k)[p]
                    == ps[q],
        party_sum(keep_upto(ps, flags, k)) == party_sum(ps.take(k)) - masked_sum(ps, flags, k),
        distinct_idx(keep_upto(ps, flags, k)),
    decreases k,
{
    if k > 0 {
        lemma_keep_upto_facts(ps, flags, k - 1);
        let r = keep_upto(ps, flags, k - 1);
        let r1 = keep_upto(ps, flags, k);
        assert(party_sum(ps.take(k)) == party_sum(ps.take(k - 1)) + ps[k - 1].amount) by {
            assert(ps.take(k).drop_last() =~= ps.take(k - 1));
            assert(ps.take(k).last() == ps[k - 1]);
        }
        if !flags[k - 1] {
            assert(r1 == r.push(ps[k - 1]));
            assert(party_sum(r1) == party_sum(r) + ps[k - 1].amount) by {
                assert(r1.drop_last() =~= r);
                assert(r1.last() == ps[k - 1]);
            }
            assert(forall|p: int| 0 <= p < r.len() ==> #[trigger] r1[p] == r[p]);
            assert(r1[r.len() as int] == ps[k - 1]);
            assert forall|p: int| 0 <= p < r1.len() implies exists|q: int|
                0 <= q < k && !flags[q] && #[trigger] r1[p] == ps[q] by {
                if p < r.len() {
                    let q = choose|q: int| 0 <= q < k - 1 && !flags[q] && #[trigger] r[p] == ps[q];
                    assert(0 <= q < k && !flags[q] && r1[p] == ps[q]);
                } else {
                    assert(r1[p] == ps[k - 1]);
                }
            }
            assert forall|q: int| 0 <= q < k && !flags[q] implies exists|p: int|
                0 <= p < r1.len() && #[trigger] r1[p] == ps[q] by {
                if q < k - 1 {
                    let p = choose|p: int| 0 <= p < r.len() && #[trigger] r[p] == ps[q];
                    assert(r1[p] == ps[q]);
                } else {
                    assert(r1[r.len() as int] == ps[q]);
                }
            }
            assert forall|p: int, q: int|
                0 <= p < r1.len() && 0 <= q < r1.len() && p != q implies (
            #[trigger] r1[p]).index != (#[trigger] r1[q]).index by {
                let sp = choose|s: int| 0 <= s < k && !flags[s] && #[trigger] ps[s] == r1[p];
                let sq = choose|s: int| 0 <= s < k && !flags[s] && #[trigger] ps[s] == r1[q];
                if sp == sq {
                    // Two kept positions with the same source would both be
                    // pushes of distinct prefix steps; distinct sources are
                    // forced by strictly growing prefixes.
                    assert(r1[p] == r1[q]);
                    lemma_keep_upto_grows(ps, flags, k, p, q);
                } else {
                    assert(ps[sp].index != ps[sq].index);
                }
            }
        } else {
            assert(r1 == r);
        }
    } else {
        assert(keep_upto(ps, flags, 0) =~= Seq::<PartyView>::empty());
        assert(ps.take(0) =~= Seq::<PartyView>::empty());
    }
}

/// Kept parties come from strictly increasing source positions, so two
/// different kept positions never hold the same source entry.
proof fn lemma_keep_upto_grows(ps: Seq<PartyView>, flags: Seq<bool>, k: int, p: int, q: int)
    requires
        0 <= k <= ps.len(),
        distinct_idx(ps),
        0 <= p < keep_upto(ps, flags, k).len(),
        0 <= q < keep_upto(ps, flags, k).len(),
        p != q,
    ensures
        keep_upto(ps, flags, k)[p].index != keep_upto(ps, flags, k)[q].index,
    decreases k,
{
    let r = keep_upto(ps, flags, k - 1);
    let r1 = keep_upto(ps, flags, k);
    if k > 0 {
        lemma_keep_upto_elems_low(ps, flags, k - 1);
        if !flags[k - 1] {
            if p < r.len() && q < r.len() {
                lemma_keep_upto_grows(ps, flags, k - 1, p, q);
            } else if p < r.len() {
                // q is the new push of ps[k-1]; p comes from below k-1.
                let s = choose|s: int| 0 <= s < k - 1 && !flags[s] && #[trigger] ps[s] == r[p];
                assert(ps[s].index != ps[k - 1].index);
            } else {
                let s = choose|s: int| 0 <= s < k - 1 && !flags[s] && #[trigger] ps[s] == r[q];
                assert(ps[s].index != ps[k - 1].index);
            }
        } else {
            lemma_keep_upto_grows(ps, flags, k - 1, p, q);
        }
    }
}

/// Every kept party among the first `k` is an unflagged source party.
proof fn lemma_keep_upto_elems_low(ps: Seq<PartyView>, flags: Seq<bool>, k: int)
    requires
        0 <= k <= ps.len(),
    ensures
        forall|p: int|
            0 <= p < keep_upto(ps, flags, k).len() ==> exists|q: int|
                0 <= q < k && !flags[q] && #[trigger] keep_upto(ps, flags, k)[p] == ps[q],
    decreases k,
{
    if k > 0 {
        lemma_keep_upto_elems_low(ps, flags, k - 1);
        let r = keep_upto(ps, flags, k - 1);
        let r1 = keep_upto(ps, flags, k);
        if !flags[k - 1] {
            assert forall|p: int| 0 <= p < r1.len() implies exists|q: int|
                0 <= q < k && !flags[q] && #[trigger] r1[p] == ps[q] by {
                if p < r.len() {
                    assert(r1[p] == r[p]);
                    let q = choose|q: int| 0 <= q < k - 1 && !flags[q] && #[trigger] r[p] == ps[q];
                    assert(0 <= q < k && !flags[q] && r1[p] == ps[q]);
                } else {
                    assert(r1[p] == ps[k - 1]);
                }
            }
        }
    }
}

/// Inserting into a sequence inserts into its multiset.
proof fn lemma_seq_insert_multiset(s: Seq<PartyView>, j: int, x: PartyView)
    requires
        0 <= j <= s.len(),
    ensures
        s.insert(j, x).to_multiset() =~= s.to_multiset().insert(x),
{
    let r = s.insert(j, x);
    r.to_multiset_ensures();
    s.to_multiset_ensures();
    assert(r.remove(j) =~= s);
    assert(r[j] == x);
    assert(r.remove(j).to_multiset() =~= r.to_multiset().remove(x));
    assert(r.contains(x)) by {
        assert(r[j] == x);
    }
    assert(r.to_multiset().count(x) > 0);
    assert(s.to_multiset().insert(x) =~= r.to_multiset().remove(x).insert(x));
    assert(r.to_multiset().remove(x).insert(x) =~= r.to_multiset());
}

/// Stable insertion is insertion into the multiset.
proof fn lemma_insert_desc_multiset(s: Seq<PartyView>, x: PartyView)
    ensures
        insert_desc(s, x).to_multiset() =~= s.to_multiset().insert(x),
        insert_desc(s, x).len() == s.len() + 1,
    decreases s.len(),
{
    if s.len() > 0 && s[0].amount >= x.amount {
        lemma_insert_desc_multiset(s.drop_first(), x);
        let t = insert_desc(s.drop_first(), x);
        assert(seq![s[0]] + t =~= t.insert(0, s[0]));
        lemma_seq_insert_multiset(t, 0, s[0]);
        assert(s =~= s.drop_first().insert(0, s[0]));
        lemma_seq_insert_multiset(s.drop_first(), 0, s[0]);
        assert(t.to_multiset().insert(s[0]) =~= s.drop_first().to_multiset().insert(x).insert(
            s[0],
        ));
        assert(s.drop_first().to_multiset().insert(x).insert(s[0])
            =~= s.drop_first().to_multiset().insert(s[0]).insert(x));
    } else {
        assert(seq![x] + s =~= s.insert(0, x));
        lemma_seq_insert_multiset(s, 0, x);
    }
}

/// Sorting permutes: the multiset of parties is unchanged.
proof fn lemma_sort_desc_multiset(s: Seq<PartyView>)
    ensures
        sort_desc(s).to_multiset() =~= s.to_multiset(),
        sort_desc(s).len() == s.len(),
    decreases s.len(),
{
    if s.len() > 0 {
        lemma_sort_desc_multiset(s.drop_last());
        lemma_insert_desc_multiset(sort_desc(s.drop_last()), s.last());
        s.drop_last().to_multiset_ensures();
        assert(s.drop_last().push(s.last()).to_multiset()
            =~= s.drop_last().to_multiset().insert(s.last()));
        assert(s.drop_last().push(s.last()) =~= s);
        assert(sort_desc(s).to_multiset() =~= sort_desc(s.drop_last()).to_multiset().insert(
            s.last(),
        ));
        assert(sort_desc(s.drop_last()).to_multiset().insert(s.last())
            =~= s.drop_last().to_multiset().insert(s.last()));
    } else {
        assert(sort_desc(s) =~= s);
    }
}

/// Stable insertion adds the party's amount to the sum.
proof fn lemma_insert_desc_sum(s: Seq<PartyView>, x: PartyView)
    ensures
        party_sum(insert_desc(s, x)) == party_sum(s) + x.amount,
    decreases s.len(),
{
    if s.len() > 0 && s[0].amount >= x.amount {
        lemma_insert_desc_sum(s.drop_first(), x);
        let t = insert_desc(s.drop_first(), x);
        let r = seq![s[0]] + t;
        lemma_party_sum_front(r);
        assert(r.drop_first() =~= t);
        assert(r[0] == s[0]);
        lemma_party_sum_front(s);
    } else {
        let r = seq![x] + s;
        lemma_party_sum_front(r);
        assert(r.drop_first() =~= s);
        assert(r[0] == x);
    }
}

/// Sorting keeps the sum of amounts.
proof fn lemma_sort_desc_sum(s: Seq<PartyView>)
    ensures
        party_sum(sort_desc(s)) == party_sum(s),
    decreases s.len(),
{
    if s.len() > 0 {
        lemma_sort_desc_sum(s.drop_last());
        lemma_insert_desc_sum(sort_desc(s.drop_last()), s.last());
    }
}

/// A permutation of a list with pairwise distinct entries again has
/// pairwise distinct entries, and the same members.
proof fn lemma_perm_distinct_idx(a: Seq<PartyView>, b: Seq<PartyView>)
    requires
        a.to_multiset() == b.to_multiset(),
        distinct_idx(a),
    ensures
        distinct_idx(b),
        forall|p: int| 0 <= p < b.len() ==> a.contains(#[trigger] b[p]),
        forall|p: int| 0 <= p < a.len() ==> b.contains(#[trigger] a[p]),
    decreases 0int,
{
    a.to_multiset_ensures();
    b.to_multiset_ensures();
    assert forall|p: int| 0 <= p < b.len() implies a.contains(#[trigger] b[p]) by {
        assert(b.contains(b[p]));
        assert(b.to_multiset().count(b[p]) > 0);
    }
    assert forall|p: int| 0 <= p < a.len() implies b.contains(#[trigger] a[p]) by {
        assert(a.contains(a[p]));
        assert(a.to_multiset().count(a[p]) > 0);
    }
    assert forall|p: int, q: int|
        0 <= p < b.len() && 0 <= q < b.len() && p != q implies (#[trigger] b[p]).index != (
    #[trigger] b[q]).index by {
        if b[p] == b[q] {
            // The same value twice means a multiset count of at least two,
            // which would force two equal values in `a` as well.
            b.to_multiset_ensures();
            assert(b.remove(p).to_multiset() =~= b.to_multiset().remove(b[p]));
            assert(b.remove(p).contains(b[q])) by {
                if q < p {
                    assert(b.remove(p)[q] == b[q]);
                } else {
                    assert(b.remove(p)[q - 1] == b[q]);
                }
            }
            b.remove(p).to_multiset_ensures();
            assert(b.remove(p).to_multiset().count(b[p]) > 0);
            assert(b.to_multiset().remove(b[p]).count(b[p]) > 0);
            assert(Multiset::singleton(b[p]).count(b[p]) == 1);
            assert(b.to_multiset().sub(Multiset::singleton(b[p])).count(b[p]) > 0);
            assert(b.to_multiset().count(b[p]) >= 2);
            assert(a.to_multiset().count(b[p]) >= 2);
            assert(a.contains(b[p]));
            let i = choose|i: int| 0 <= i < a.len() && a[i] == b[p];
            assert(a.remove(i).to_multiset() =~= a.to_multiset().remove(b[p]));
            a.remove(i).to_multiset_ensures();
            assert(a.remove(i).to_multiset().count(b[p]) >= 1);
            assert(a.remove(i).contains(b[p]));
            let i2 = choose|i2: int| 0 <= i2 < a.remove(i).len() && a.remove(i)[i2] == b[p];
            if i2 < i {
                assert(a[i2] == b[p]);
                assert(a[i2].index != a[i].index);
            } else {
                assert(a[i2 + 1] == b[p]);
                assert(a[i2 + 1].index != a[i].index);
            }
        } else {
            let i = choose|i: int| 0 <= i < a.len() && a[i] == b[p];
            let i2 = choose|i2: int| 0 <= i2 < a.len() && a[i2] == b[q];
            assert(i != i2);
            assert(a[i].index != a[i2].index);
        }
    }
}

/// What the single-creditor case guarantees: one flow per debtor, each
/// paying the creditor the whole deficit.
proof fn lemma_single_flows_facts(c: PartyView, ds: Seq<PartyView>, k: int)
    requires
        0 <= k <= ds.len(),
        distinct_idx(ds),
    ensures
        single_flows_upto(c, ds, k).len() == k,
        forall|t: int|
            0 <= t < k ==> {
                let f = #[trigger] single_flows_upto(c, ds, k)[t];
                f.to == c.index && f.from == ds[t].index && f.amount == ds[t].amount
            },
        flow_sum_to(single_flows_upto(c, ds, k), c.index) == party_sum(ds.take(k)),
        forall|j: int|
            0 <= j < k ==> flow_sum_from(single_flows_upto(c, ds, k), (#[trigger] ds[j]).index)
                == ds[j].amount,
    decreases k,
{
    if k > 0 {
        lemma_single_flows_facts(c, ds, k - 1);
        let fs = single_flows_upto(c, ds, k - 1);
        let f = FlowView { from: ds[k - 1].index, to: c.index, amount: ds[k - 1].amount };
        let fs1 = single_flows_upto(c, ds, k);
        assert(fs1 == fs.push(f));
        assert(fs1 =~= fs + seq![f]);
        assert(forall|t: int| 0 <= t < k - 1 ==> #[trigger] fs1[t] == fs[t]);
        assert(fs1[k - 1] == f);
        assert(party_sum(ds.take(k)) == party_sum(ds.take(k - 1)) + ds[k - 1].amount) by {
            assert(ds.take(k).drop_last() =~= ds.take(k - 1));
            assert(ds.take(k).last() == ds[k - 1]);
        }
        assert(flow_sum_to(fs1, c.index) == flow_sum_to(fs, c.index) + flow_sum_to(
            seq![f],
            c.index,
        )) by {
            lemma_flow_sum_concat(fs, seq![f], c.index);
        }
        assert(flow_sum_to(seq![f], c.index) == f.amount) by {
            assert(seq![f].drop_first() =~= Seq::<FlowView>::empty());
            assert(flow_sum_to(seq![f].drop_first(), c.index) == 0);
        }
        assert forall|j: int| 0 <= j < k implies flow_sum_from(fs1, (#[trigger] ds[j]).index)
            == ds[j].amount by {
            lemma_flow_sum_concat(fs, seq![f], ds[j].index);
            assert(seq![f].drop_first() =~= Seq::<FlowView>::empty());
            assert(flow_sum_from(seq![f].drop_first(), ds[j].index) == 0);
            if j == k - 1 {
                assert(flow_sum_from(fs, ds[j].index) == 0) by {
                    assert(forall|t: int|
                        0 <= t < fs.len() ==> (#[trigger] fs[t]).from != ds[k - 1].index);
                    lemma_flow_sum_absent(fs, ds[k - 1].index);
                }
                assert(flow_sum_from(seq![f], ds[j].index) == f.amount);
            } else {
                assert(ds[j].index != ds[k - 1].index);
                assert(flow_sum_from(seq![f], ds[j].index) == 0);
            }
        }
    } else {
        assert(ds.take(0) =~= Seq::<PartyView>::empty());
    }
}

/// With no debtors the exact-match pass emits nothing.
proof fn lemma_exact_empty_ds(cs: Seq<PartyView>, ds: Seq<PartyView>, k: int)
    requires
        0 <= k,
        ds.len() == 0,
    ensures
        exact_upto(cs, ds, k).0 == Seq::<FlowView>::empty(),
    decreases k,
{
    if k > 0 {
        lemma_exact_empty_ds(cs, ds, k - 1);
    }
}

/// The planner settles every balance exactly: each creditor receives
/// exactly its surplus and pays nothing, each debtor pays exactly its
/// deficit and receives nothing, every flow is strictly positive and runs
/// from a listed debtor to a listed creditor, and with a single creditor
/// there is exactly one flow per debtor.
#[verifier::rlimit(100)]
pub proof fn lemma_plan_settles(cs: Seq<PartyView>, ds: Seq<PartyView>)
    requires
        all_pos(cs),
        all_pos(ds),
        party_sum(cs) == party_sum(ds),
        distinct_idx(cs),
        distinct_idx(ds),
        forall|p: int, q: int|
            0 <= p < cs.len() && 0 <= q < ds.len() ==> (#[trigger] cs[p]).index != (
            #[trigger] ds[q]).index,
    ensures
        flows_ok(spec_plan(cs, ds), cs, ds),
        forall|p: int|
            0 <= p < cs.len() ==> flow_sum_to(spec_plan(cs, ds), (#[trigger] cs[p]).index)
                == cs[p].amount,
        forall|q: int|
            0 <= q < ds.len() ==> flow_sum_from(spec_plan(cs, ds), (#[trigger] ds[q]).index)
                == ds[q].amount,
        forall|p: int|
            0 <= p < cs.len() ==> flow_sum_from(spec_plan(cs, ds), (#[trigger] cs[p]).index) == 0,
        forall|q: int|
            0 <= q < ds.len() ==> flow_sum_to(spec_plan(cs, ds), (#[trigger] ds[q]).index) == 0,
        cs.len() == 1 ==> spec_plan(cs, ds).len() == ds.len(),
        cs.len() == 0 || ds.len() == 0 ==> spec_plan(cs, ds).len() == 0,
{
    let nc = cs.len() as int;
    let nd = ds.len() as int;
    let fs = spec_plan(cs, ds);
    if nc == 1 {
        lemma_single_flows_facts(cs[0], ds, nd);
        assert(ds.take(nd) =~= ds);
        assert(party_sum(cs) == cs[0].amount) by {
            assert(cs.drop_last() =~= Seq::<PartyView>::empty());
            assert(party_sum(cs.drop_last()) == 0);
            assert(cs.last() == cs[0]);
        }
        assert(flow_sum_to(fs, cs[0].index) == cs[0].amount);
        assert(flows_ok(fs, cs, ds)) by {
            assert forall|t: int| 0 <= t < fs.len() implies (#[trigger] fs[t]).amount > 0
                && idx_in(cs, fs[t].to) && idx_in(ds, fs[t].from) by {
                assert(fs[t].to == cs[0].index && fs[t].from == ds[t].index && fs[t].amount
                    == ds[t].amount);
                assert((#[trigger] cs[0]).index == fs[t].to);
                assert((#[trigger] ds[t]).index == fs[t].from);
            }
        }
        assert forall|p: int| 0 <= p < nc implies flow_sum_from(fs, (#[trigger] cs[p]).index)
            == 0 by {
            assert(forall|t: int| 0 <= t < fs.len() ==> (#[trigger] fs[t]).from != cs[p].index);
            lemma_flow_sum_absent(fs, cs[p].index);
        }
        assert forall|q: int| 0 <= q < nd implies flow_sum_to(fs, (#[trigger] ds[q]).index)
            == 0 by {
            assert(forall|t: int| 0 <= t < fs.len() ==> (#[trigger] fs[t]).to != ds[q].index);
            lemma_flow_sum_absent(fs, ds[q].index);
        }
    } else {
        let e = exact_upto(cs, ds, nc);
        let efs = e.0;
        let used = e.1;
        let mc = e.2;
        lemma_exact_upto_facts(cs, ds, nc);
        let rc = keep_upto(cs, mc, nc);
        let rd = keep_upto(ds, used, nd);
        lemma_keep_upto_facts(cs, mc, nc);
        lemma_keep_upto_facts(ds, used, nd);
        lemma_keep_upto_pos(cs, mc, nc);
        lemma_keep_upto_pos(ds, used, nd);
        let rcs = sort_desc(rc);
        let rds = sort_desc(rd);
        lemma_sort_desc_multiset(rc);
        lemma_sort_desc_multiset(rd);
        lemma_perm_distinct_idx(rc, rcs);
        lemma_perm_distinct_idx(rd, rds);
        lemma_sort_desc_sum(rc);
        lemma_sort_desc_sum(rd);
        lemma_sort_desc_pos(rc);
        lemma_sort_desc_pos(rd);
        assert(cs.take(nc) =~= cs);
        assert(ds.take(nd) =~= ds);
        assert(party_sum(rcs) == party_sum(rds));
        lemma_binpack_conserves(rcs, rds);
        let bfs = binpack(rcs, rds);
        assert(fs == efs + bfs);
        assert forall|i: int|
            #[trigger] flow_sum_to(fs, i) == flow_sum_to(efs, i) + flow_sum_to(bfs, i)
                && #[trigger] flow_sum_from(fs, i) == flow_sum_from(efs, i) + flow_sum_from(
                bfs,
                i,
            ) by {
            lemma_flow_sum_concat(efs, bfs, i);
        }
        // Remaining creditors and debtors are exactly the unmatched ones.
        assert forall|i: int| idx_in(rcs, i) implies exists|q: int|
            0 <= q < nc && !mc[q] && (#[trigger] cs[q]).index == i by {
            let p1 = choose|p1: int| 0 <= p1 < rcs.len() && (#[trigger] rcs[p1]).index == i;
            assert(rc.contains(rcs[p1]));
            let p2 = choose|p2: int| 0 <= p2 < rc.len() && rc[p2] == rcs[p1];
            let q = choose|q: int| 0 <= q < nc && !mc[q] && #[trigger] rc[p2] == cs[q];
            assert(0 <= q < nc && !mc[q] && cs[q].index == i);
        }
        assert forall|i: int| idx_in(rds, i) implies exists|q: int|
            0 <= q < nd && !used[q] && (#[trigger] ds[q]).index == i by {
            let p1 = choose|p1: int| 0 <= p1 < rds.len() && (#[trigger] rds[p1]).index == i;
            assert(rd.contains(rds[p1]));
            let p2 = choose|p2: int| 0 <= p2 < rd.len() && rd[p2] == rds[p1];
            let q = choose|q: int| 0 <= q < nd && !used[q] && #[trigger] rd[p2] == ds[q];
            assert(0 <= q < nd && !used[q] && ds[q].index == i);
        }
        // Creditor totals.
        assert forall|p: int| 0 <= p < nc implies flow_sum_to(fs, (#[trigger] cs[p]).index)
            == cs[p].amount by {
            lemma_flow_sum_concat(efs, bfs, cs[p].index);
            if mc[p] {
                assert(flow_sum_to(efs, cs[p].index) == cs[p].amount);
                assert(flow_sum_to(bfs, cs[p].index) == 0) by {
                    assert forall|t: int|
                        0 <= t < bfs.len() implies (#[trigger] bfs[t]).to != cs[p].index by {
                        assert(idx_in(rcs, bfs[t].to));
                        let q = choose|q: int|
                            0 <= q < nc && !mc[q] && (#[trigger] cs[q]).index == bfs[t].to;
                        assert(q != p);
                        assert(cs[q].index != cs[p].index);
                    }
                    lemma_flow_sum_absent(bfs, cs[p].index);
                }
            } else {
                assert(flow_sum_to(efs, cs[p].index) == 0);
                assert(exists|p2: int| 0 <= p2 < rc.len() && #[trigger] rc[p2] == cs[p]);
                let p2 = choose|p2: int| 0 <= p2 < rc.len() && #[trigger] rc[p2] == cs[p];
                assert(rc.contains(cs[p]));
                assert(rcs.contains(cs[p]));
                let p3 = choose|p3: int| 0 <= p3 < rcs.len() && rcs[p3] == cs[p];
                assert(flow_sum_to(bfs, (rcs[p3]).index) == rcs[p3].amount);
            }
        }
        // Debtor totals.
        assert forall|q: int| 0 <= q < nd implies flow_sum_from(fs, (#[trigger] ds[q]).index)
            == ds[q].amount by {
            lemma_flow_sum_concat(efs, bfs, ds[q].index);
            if used[q] {
                assert(flow_sum_from(efs, ds[q].index) == ds[q].amount);
                assert(flow_sum_from(bfs, ds[q].index) == 0) by {
                    assert forall|t: int|
                        0 <= t < bfs.len() implies (#[trigger] bfs[t]).from != ds[q].index by {
                        assert(idx_in(rds, bfs[t].from));
                        let q2 = choose|q2: int|
                            0 <= q2 < nd && !used[q2] && (#[trigger] ds[q2]).index == bfs[t].from;
                        assert(q2 != q);
                        assert(ds[q2].index != ds[q].index);
                    }
                    lemma_flow_sum_absent(bfs, ds[q].index);
                }
            } else {
                assert(flow_sum_from(efs, ds[q].index) == 0);
                assert(exists|p2: int| 0 <= p2 < rd.len() && #[trigger] rd[p2] == ds[q]);
                let p2 = choose|p2: int| 0 <= p2 < rd.len() && #[trigger] rd[p2] == ds[q];
                assert(rd.contains(ds[q]));
                assert(rds.contains(ds[q]));
                let p3 = choose|p3: int| 0 <= p3 < rds.len() && rds[p3] == ds[q];
                assert(flow_sum_from(bfs, (rds[p3]).index) == rds[p3].amount);
            }
        }
        // Creditors never pay and debtors never receive.
        assert forall|p: int| 0 <= p < nc implies flow_sum_from(fs, (#[trigger] cs[p]).index)
            == 0 by {
            lemma_flow_sum_concat(efs, bfs, cs[p].index);
            assert forall|t: int|
                0 <= t < efs.len() implies (#[trigger] efs[t]).from != cs[p].index by {
                assert(idx_in(ds, efs[t].from));
                let q = choose|q: int| 0 <= q < nd && (#[trigger] ds[q]).index == efs[t].from;
                assert(ds[q].index != cs[p].index);
            }
            lemma_flow_sum_absent(efs, cs[p].index);
            assert forall|t: int|
                0 <= t < bfs.len() implies (#[trigger] bfs[t]).from != cs[p].index by {
                assert(idx_in(rds, bfs[t].from));
                let q = choose|q: int|
                    0 <= q < nd && !used[q] && (#[trigger] ds[q]).index == bfs[t].from;
                assert(ds[q].index != cs[p].index);
            }
            lemma_flow_sum_absent(bfs, cs[p].index);
        }
        assert forall|q: int| 0 <= q < nd implies flow_sum_to(fs, (#[trigger] ds[q]).index)
            == 0 by {
            lemma_flow_sum_concat(efs, bfs, ds[q].index);
            assert forall|t: int|
                0 <= t < efs.len() implies (#[trigger] efs[t]).to != ds[q].index by {
                assert(idx_in(cs, efs[t].to));
                let p = choose|p: int| 0 <= p < nc && (#[trigger] cs[p]).index == efs[t].to;
                assert(cs[p].index != ds[q].index);
            }
            lemma_flow_sum_absent(efs, ds[q].index);
            assert forall|t: int|
                0 <= t < bfs.len() implies (#[trigger] bfs[t]).to != ds[q].index by {
                assert(idx_in(rcs, bfs[t].to));
                let p = choose|p: int|
                    0 <= p < nc && !mc[p] && (#[trigger] cs[p]).index == bfs[t].to;
                assert(cs[p].index != ds[q].index);
            }
            lemma_flow_sum_absent(bfs, ds[q].index);
        }
        // Every flow is positive and runs from a debtor to a creditor.
        assert(flows_ok(fs, cs, ds)) by {
            assert forall|t: int| 0 <= t < fs.len() implies (#[trigger] fs[t]).amount > 0
                && idx_in(cs, fs[t].to) && idx_in(ds, fs[t].from) by {
                if t < efs.len() {
                    assert(fs[t] == efs[t]);
                } else {
                    assert(fs[t] == bfs[t - efs.len()]);
                    let f = bfs[t - efs.len()];
                    assert(idx_in(rcs, f.to) && idx_in(rds, f.from) && f.amount > 0);
                    let q = choose|q: int|
                        0 <= q < nc && !mc[q] && (#[trigger] cs[q]).index == f.to;
                    assert(idx_in(cs, f.to));
                    let q2 = choose|q2: int|
                        0 <= q2 < nd && !used[q2] && (#[trigger] ds[q2]).index == f.from;
                    assert(idx_in(ds, f.from));
                }
            }
        }
        if nc == 0 || nd == 0 {
            if nd == 0 {
                lemma_exact_empty_ds(cs, ds, nc);
                assert(rd =~= Seq::<PartyView>::empty());
                assert(rds =~= Seq::<PartyView>::empty());
            } else {
                assert(rc =~= Seq::<PartyView>::empty());
                assert(rcs =~= Seq::<PartyView>::empty());
                assert(efs =~= Seq::<FlowView>::empty());
            }
            assert(bfs =~= Seq::<FlowView>::empty());
            assert(fs.len() == 0);
        }
    }
}

/// Copy of a party record.
fn copy_party(p: &Party) -> (r: Party)
    ensures
        r@ == p@,
{
    Party { index: p.index, name: p.name.clone(), amount: p.amount }
}

/// `insert_desc` puts `x` exactly at the first position whose amount is
/// strictly smaller.
proof fn lemma_insert_desc_eq(s: Seq<PartyView>, x: PartyView, j: int)
    requires
        0 <= j <= s.len(),
        forall|p: int| 0 <= p < j ==> (#[trigger] s[p]).amount >= x.amount,
        j == s.len() || s[j].amount < x.amount,
    ensures
        insert_desc(s, x) == s.insert(j, x),
    decreases j,
{
    if j == 0 {
        if s.len() == 0 || s[0].amount < x.amount {
            assert(insert_desc(s, x) =~= s.insert(0, x));
        }
    } else {
        assert(s[0].amount >= x.amount);
        lemma_insert_desc_eq(s.drop_first(), x, j - 1);
        assert(seq![s[0]] + s.drop_first().insert(j - 1, x) =~= s.insert(j, x));
    }
}

/// Inserts a party into a descending list at its stable position.
fn sorted_insert(out: &mut Vec<Party>, x: Party)
    ensures
        parties_view(final(out)@) == insert_desc(parties_view(old(out)@), x@),
{
    let n = out.len();
    let ghost sv = parties_view(out@);
    let mut j: usize = 0;
    loop
        invariant
            j <= n,
            n == out@.len(),
            sv == parties_view(out@),
            forall|p: int| 0 <= p < j ==> (#[trigger] sv[p]).amount >= x@.amount,
        ensures
            j <= n,
            out@.len() == n,
            sv == parties_view(out@),
            forall|p: int| 0 <= p < j ==> (#[trigger] sv[p]).amount >= x@.amount,
            j == n || sv[j as int].amount < x@.amount,
        decreases n - j,
    {
        if j >= n {
            break ;
        }
        if out[j].amount < x.amount {
            proof {
                assert(sv[j as int].amount == out@[j as int].amount as int);
            }
            break ;
        }
        j = j + 1;
    }
    proof {
        lemma_insert_desc_eq(sv, x@, j as int);
    }
    let ghost old_view = out@;
    out.insert(j, x);
    proof {
        assert(parties_view(out@) =~= parties_view(old_view).insert(j as int, x@));
    }
}

/// Sorts parties by descending amount, stably.
fn sort_parties(ps: &Vec<Party>) -> (r: Vec<Party>)
    ensures
        parties_view(r@) == sort_desc(parties_view(ps@)),
{
    let ghost pv = parties_view(ps@);
    let mut out: Vec<Party> = Vec::new();
    let n = ps.len();
    let mut i: usize = 0;
    proof {
        assert(parties_view(out@) =~= Seq::<PartyView>::empty());
        assert(pv.take(0) =~= Seq::<PartyView>::empty());
    }
    while i < n
        invariant
            i <= n,
            n == ps@.len(),
            pv == parties_view(ps@),
            parties_view(out@) == sort_desc(pv.take(i as int)),
        decreases n - i,
    {
        let x = copy_party(&ps[i]);
        proof {
            assert(x@ == pv[i as int]);
        }
        sorted_insert(&mut out, x);
        proof {
            let t = pv.take(i as int + 1);
            assert(t.drop_last() =~= pv.take(i as int));
            assert(t.last() == pv[i as int]);
            assert(sort_desc(t) == insert_desc(sort_desc(pv.take(i as int)), pv[i as int]));
        }
        i = i + 1;
    }
    proof {
        assert(pv.take(n as int) =~= pv);
    }
    out
}

/// `find_match` from the start agrees with a left-to-right scan.
proof fn lemma_find_match_from(ds: Seq<PartyView>, used: Seq<bool>, amt: int, a: int, j: int)
    requires
        0 <= a <= j <= ds.len(),
        forall|p: int| a <= p < j ==> (used[p] || (#[trigger] ds[p]).amount != amt),
        j == ds.len() || (!used[j] && ds[j].amount == amt),
    ensures
        find_match(ds, used, amt, a) == if j == ds.len() {
            None
        } else {
            Some(j)
        },
    decreases j - a,
{
    if a == j {
    } else {
        assert(used[a] || ds[a].amount != amt);
        lemma_find_match_from(ds, used, amt, a + 1, j);
    }
}

/// The exact-match pass: first-fit matching of creditors with unmatched
/// debtors of exactly equal magnitude. Returns the flows, the matched
/// flags of the debtors, and the matched flags of the creditors.
fn exact_match_pass(creditors: &Vec<Party>, debtors: &Vec<Party>) -> (r: (
    Vec<Flow>,
    Vec<bool>,
    Vec<bool>,
))
    ensures
        flows_view(r.0@) == exact_upto(
            parties_view(creditors@),
            parties_view(debtors@),
            creditors@.len() as int,
        ).0,
        r.1@ == exact_upto(
            parties_view(creditors@),
            parties_view(debtors@),
            creditors@.len() as int,
        ).1,
        r.2@ == exact_upto(
            parties_view(creditors@),
            parties_view(debtors@),
            creditors@.len() as int,
        ).2,
{
    let ghost cv = parties_view(creditors@);
    let ghost dv = parties_view(debtors@);
    let nc = creditors.len();
    let nd = debtors.len();
    let mut flows: Vec<Flow> = Vec::new();
    let mut used: Vec<bool> = Vec::new();
    let mut matched: Vec<bool> = Vec::new();
    let mut j: usize = 0;
    while j < nd
        invariant
            j <= nd,
            used@ =~= Seq::new(j as nat, |p: int| false),
        decreases nd - j,
    {
        used.push(false);
        j = j + 1;
    }
    let mut i: usize = 0;
    proof {
        assert(flows_view(flows@) =~= Seq::<FlowView>::empty());
        assert(used@ =~= Seq::new(dv.len(), |p: int| false));
        assert(matched@ =~= Seq::<bool>::empty());
    }
    while i < nc
        invariant
            i <= nc,
            nc == cv.len(),
            nd == dv.len(),
            cv == parties_view(creditors@),
            dv == parties_view(debtors@),
            used@.len() == nd,
            flows_view(flows@) == exact_upto(cv, dv, i as int).0,
            used@ == exact_upto(cv, dv, i as int).1,
            matched@ == exact_upto(cv, dv, i as int).2,
        decreases nc - i,
    {
        let amt = creditors[i].amount;
        proof {
            assert(cv[i as int].amount == amt as int);
        }
        let mut j: usize = 0;
        let mut found: bool = false;
        let ghost u0 = used@;
        loop
            invariant_except_break
                !found,
            invariant
                j <= nd,
                nd == dv.len(),
                dv == parties_view(debtors@),
                used@ == u0,
                used@.len() == nd,
                forall|p: int|
                    0 <= p < j ==> (used@[p] || (#[trigger] dv[p]).amount != amt as int),
            ensures
                j <= nd,
                used@ == u0,
                forall|p: int|
                    0 <= p < j ==> (used@[p] || (#[trigger] dv[p]).amount != amt as int),
                found ==> j < nd && !used@[j as int] && dv[j as int].amount == amt as int,
                !found ==> j == nd,
            decreases nd - j,
        {
            if j >= nd {
                break ;
            }
            if !used[j] && debtors[j].amount == amt {
                proof {
                    assert(dv[j as int].amount == debtors@[j as int].amount as int);
                }
                found = true;
                break ;
            }
            proof {
                assert(used@[j as int] || dv[j as int].amount != amt as int);
            }
            j = j + 1;
        }
        proof {
            lemma_find_match_from(
                dv,
                used@,
                amt as int,
                0,
                if found {
                    j as int
                } else {
                    dv.len() as int
                },
            );
        }
        if found {
            let f = Flow { from: debtors[j].index, to: creditors[i].index, amount: amt };
            let ghost old_flows = flows@;
            flows.push(f);
            used.set(j, true);
            matched.push(true);
            proof {
                assert(flows_view(flows@) =~= flows_view(old_flows).push(
                    FlowView {
                        from: dv[j as int].index,
                        to: cv[i as int].index,
                        amount: amt as int,
                    },
                ));
            }
        } else {
            matched.push(false);
        }
        i = i + 1;
    }
    (flows, used, matched)
}

/// Keeps the parties whose flag is unset, in order.
fn keep_unmatched(ps: &Vec<Party>, flags: &Vec<bool>) -> (r: Vec<Party>)
    requires
        flags@.len() == ps@.len(),
    ensures
        parties_view(r@) == keep_upto(parties_view(ps@), flags@, ps@.len() as int),
{
    let ghost pv = parties_view(ps@);
    let n = ps.len();
    let mut out: Vec<Party> = Vec::new();
    let mut i: usize = 0;
    proof {
        assert(parties_view(out@) =~= Seq::<PartyView>::empty());
    }
    while i < n
        invariant
            i <= n,
            n == pv.len(),
            pv == parties_view(ps@),
            flags@.len() == n,
            parties_view(out@) == keep_upto(pv, flags@, i as int),
        decreases n - i,
    {
        if !flags[i] {
            let ghost old_out = out@;
            out.push(copy_party(&ps[i]));
            proof {
                assert(parties_view(out@) =~= parties_view(old_out).push(pv[i as int]));
            }
        }
        i = i + 1;
    }
    out
}

/// The state of the two-cursor walk: the current creditor with its
/// remaining surplus, followed by the creditors not yet reached.
pub open spec fn cursor_state(ps: Seq<PartyView>, i: int, rem: int) -> Seq<PartyView> {
    if 0 <= i < ps.len() {
        seq![PartyView { index: ps[i].index, name: ps[i].name, amount: rem }] + ps.skip(i + 1)
    } else {
        Seq::empty()
    }
}

/// The two-cursor walk over sorted remainders.
fn binpack_pass(creditors: &Vec<Party>, debtors: &Vec<Party>) -> (r: Vec<Flow>)
    requires
        all_pos(parties_view(creditors@)),
        all_pos(parties_view(debtors@)),
    ensures
        flows_view(r@) == binpack(parties_view(creditors@), parties_view(debtors@)),
{
    let ghost cv = parties_view(creditors@);
    let ghost dv = parties_view(debtors@);
    let nc = creditors.len();
    let nd = debtors.len();
    let mut flows: Vec<Flow> = Vec::new();
    if nc == 0 || nd == 0 {
        proof {
            assert(flows_view(flows@) =~= Seq::<FlowView>::empty());
        }
        return flows;
    }
    let mut ci: usize = 0;
    let mut di: usize = 0;
    let mut c_rem: i128 = creditors[0].amount;
    let mut d_rem: i128 = debtors[0].amount;
    proof {
        assert(cursor_state(cv, 0, c_rem as int) =~= cv);
        assert(cursor_state(dv, 0, d_rem as int) =~= dv);
        assert(flows_view(flows@) =~= Seq::<FlowView>::empty());
        assert(Seq::<FlowView>::empty() + binpack(cv, dv) =~= binpack(cv, dv));
    }
    while ci < nc && di < nd
        invariant
            ci <= nc,
            di <= nd,
            nc == cv.len(),
            nd == dv.len(),
            cv == parties_view(creditors@),
            dv == parties_view(debtors@),
            forall|p: int| 0 <= p < cv.len() ==> (#[trigger] cv[p]).amount > 0,
            forall|p: int| 0 <= p < dv.len() ==> (#[trigger] dv[p]).amount > 0,
            ci < nc ==> 0 < c_rem <= cv[ci as int].amount,
            di < nd ==> 0 < d_rem <= dv[di as int].amount,
            binpack(cv, dv) == flows_view(flows@) + binpack(
                cursor_state(cv, ci as int, c_rem as int),
                cursor_state(dv, di as int, d_rem as int),
            ),
        decreases nc - ci + nd - di,
    {
        let ghost sc = cursor_state(cv, ci as int, c_rem as int);
        let ghost sd = cursor_state(dv, di as int, d_rem as int);
        proof {
            assert(sc[0].amount == c_rem as int && sc[0].index == cv[ci as int].index);
            assert(sd[0].amount == d_rem as int && sd[0].index == dv[di as int].index);
        }
        let from = debtors[di].index;
        let to = creditors[ci].index;
        let ghost old_flows = flows@;
        if c_rem < d_rem {
            flows.push(Flow { from, to, amount: c_rem });
            proof {
                let f = FlowView { from: sd[0].index, to: sc[0].index, amount: c_rem as int };
                assert(binpack(sc, sd) == seq![f] + binpack(
                    sc.drop_first(),
                    sd.update(
                        0,
                        PartyView {
                            index: sd[0].index,
                            name: sd[0].name,
                            amount: sd[0].amount - sc[0].amount,
                        },
                    ),
                ));
                assert(flows_view(flows@) =~= flows_view(old_flows).push(f));
                assert(sc.drop_first() =~= cursor_state(cv, ci as int + 1, if ci as int + 1
                    < cv.len() {
                    cv[ci as int + 1].amount
                } else {
                    0
                }));
                assert(sd.update(
                    0,
                    PartyView {
                        index: sd[0].index,
                        name: sd[0].name,
                        amount: sd[0].amount - sc[0].amount,
                    },
                ) =~= cursor_state(dv, di as int, d_rem - c_rem));
                assert(flows_view(old_flows) + (seq![f] + binpack(
                    cursor_state(
                        cv,
                        ci as int + 1,
                        if ci as int + 1 < cv.len() {
                            cv[ci as int + 1].amount
                        } else {
                            0
                        },
                    ),
                    cursor_state(dv, di as int, d_rem - c_rem),
                )) =~= flows_view(flows@) + binpack(
                    cursor_state(
                        cv,
                        ci as int + 1,
                        if ci as int + 1 < cv.len() {
                            cv[ci as int + 1].amount
                        } else {
                            0
                        },
                    ),
                    cursor_state(dv, di as int, d_rem - c_rem),
                ));
            }
            d_rem = d_rem - c_rem;
            ci = ci + 1;
            if ci < nc {
                c_rem = creditors[ci].amount;
                proof {
                    assert(cv[ci as int].amount == c_rem as int);
                }
            }
        } else if c_rem > d_rem {
            flows.push(Flow { from, to, amount: d_rem });
            proof {
                let f = FlowView { from: sd[0].index, to: sc[0].index, amount: d_rem as int };
                assert(binpack(sc, sd) == seq![f] + binpack(
                    sc.update(
                        0,
                        PartyView {
                            index: sc[0].index,
                            name: sc[0].name,
                            amount: sc[0].amount - sd[0].amount,
                        },
                    ),
                    sd.drop_first(),
                ));
                assert(flows_view(flows@) =~= flows_view(old_flows).push(f));
                assert(sc.update(
                    0,
                    PartyView {
                        index: sc[0].index,
                        name: sc[0].name,
                        amount: sc[0].amount - sd[0].amount,
                    },
                ) =~= cursor_state(cv, ci as int, c_rem - d_rem));
                assert(sd.drop_first() =~= cursor_state(dv, di as int + 1, if di as int + 1
                    < dv.len() {
                    dv[di as int + 1].amount
                } else {
                    0
                }));
                assert(flows_view(old_flows) + (seq![f] + binpack(
                    cursor_state(cv, ci as int, c_rem - d_rem),
                    cursor_state(
                        dv,
                        di as int + 1,
                        if di as int + 1 < dv.len() {
                            dv[di as int + 1].amount
                        } else {
                            0
                        },
                    ),
                )) =~= flows_view(flows@) + binpack(
                    cursor_state(cv, ci as int, c_rem - d_rem),
                    cursor_state(
                        dv,
                        di as int + 1,
                        if di as int + 1 < dv.len() {
                            dv[di as int + 1].amount
                        } else {
                            0
                        },
                    ),
                ));
            }
            c_rem = c_rem - d_rem;
            di = di + 1;
            if di < nd {
                d_rem = debtors[di].amount;
                proof {
                    assert(dv[di as int].amount == d_rem as int);
                }
            }
        } else {
            flows.push(Flow { from, to, amount: c_rem });
            proof {
                let f = FlowView { from: sd[0].index, to: sc[0].index, amount: c_rem as int };
                assert(binpack(sc, sd) == seq![f] + binpack(sc.drop_first(), sd.drop_first()));
                assert(flows_view(flows@) =~= flows_view(old_flows).push(f));
                assert(sc.drop_first() =~= cursor_state(cv, ci as int + 1, if ci as int + 1
                    < cv.len() {
                    cv[ci as int + 1].amount
                } else {
                    0
                }));
                assert(sd.drop_first() =~= cursor_state(dv, di as int + 1, if di as int + 1
                    < dv.len() {
                    dv[di as int + 1].amount
                } else {
                    0
                }));
                assert(flows_view(old_flows) + (seq![f] + binpack(
                    cursor_state(
                        cv,
                        ci as int + 1,
                        if ci as int + 1 < cv.len() {
                            cv[ci as int + 1].amount
                        } else {
                            0
                        },
                    ),
                    cursor_state(
                        dv,
                        di as int + 1,
                        if di as int + 1 < dv.len() {
                            dv[di as int + 1].amount
                        } else {
                            0
                        },
                    ),
                )) =~= flows_view(flows@) + binpack(
                    cursor_state(
                        cv,
                        ci as int + 1,
                        if ci as int + 1 < cv.len() {
                            cv[ci as int + 1].amount
                        } else {
                            0
                        },
                    ),
                    cursor_state(
                        dv,
                        di as int + 1,
                        if di as int + 1 < dv.len() {
                            dv[di as int + 1].amount
                        } else {
                            0
                        },
                    ),
                ));
            }
            ci = ci + 1;
            di = di + 1;
            if ci < nc {
                c_rem = creditors[ci].amount;
                proof {
                    assert(cv[ci as int].amount == c_rem as int);
                }
            }
            if di < nd {
                d_rem = debtors[di].amount;
                proof {
                    assert(dv[di as int].amount == d_rem as int);
                }
            }
        }
    }
    proof {
        assert(binpack(
            cursor_state(cv, ci as int, c_rem as int),
            cursor_state(dv, di as int, d_rem as int),
        ) =~= Seq::<FlowView>::empty());
        assert(flows_view(flows@) + Seq::<FlowView>::empty() =~= flows_view(flows@));
    }
    flows
}

/// Plans the settlement: the flows that pay every creditor its surplus
/// out of every debtor's deficit, following the three planning phases.
pub fn plan(creditors: &Vec<Party>, debtors: &Vec<Party>) -> (r: Vec<Flow>)
    requires
        all_pos(parties_view(creditors@)),
        all_pos(parties_view(debtors@)),
    ensures
        flows_view(r@) == spec_plan(parties_view(creditors@), parties_view(debtors@)),
{
    let ghost cv = parties_view(creditors@);
    let ghost dv = parties_view(debtors@);
    if creditors.len() == 1 {
        let nd = debtors.len();
        let mut flows: Vec<Flow> = Vec::new();
        let mut j: usize = 0;
        proof {
            assert(flows_view(flows@) =~= single_flows_upto(cv[0], dv, 0));
        }
        while j < nd
            invariant
                j <= nd,
                nd == dv.len(),
                cv == parties_view(creditors@),
                dv == parties_view(debtors@),
                cv.len() == creditors@.len(),
                creditors@.len() == 1,
                flows_view(flows@) == single_flows_upto(cv[0], dv, j as int),
            decreases nd - j,
        {
            let ghost old_flows = flows@;
            flows.push(
                Flow { from: debtors[j].index, to: creditors[0].index, amount: debtors[j].amount },
            );
            proof {
                assert(flows_view(flows@) =~= flows_view(old_flows).push(
                    FlowView { from: dv[j as int].index, to: cv[0].index, amount: dv[j as int].amount },
                ));
            }
            j = j + 1;
        }
        flows
    } else {
        let (eflows, used, matched) = exact_match_pass(creditors, debtors);
        proof {
            lemma_exact_upto_shape(cv, dv, cv.len() as int);
        }
        let rc = keep_unmatched(creditors, &matched);
        let rd = keep_unmatched(debtors, &used);
        proof {
            lemma_keep_upto_pos(cv, exact_upto(cv, dv, cv.len() as int).2, cv.len() as int);
            lemma_keep_upto_pos(dv, exact_upto(cv, dv, cv.len() as int).1, dv.len() as int);
        }
        let rcs = sort_parties(&rc);
        let rds = sort_parties(&rd);
        proof {
            lemma_sort_desc_pos(parties_view(rc@));
            lemma_sort_desc_pos(parties_view(rd@));
        }
        let bflows = binpack_pass(&rcs, &rds);
        let mut flows = eflows;
        let ghost ef = flows@;
        let mut bf = bflows;
        let ghost bfv = bf@;
        flows.append(&mut bf);
        proof {
            assert(flows_view(flows@) =~= flows_view(ef) + flows_view(bfv));
        }
        flows
    }
}

} // verus!
