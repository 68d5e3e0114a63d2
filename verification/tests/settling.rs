//! End-to-end scenarios. Transaction amounts are scaled by the
//! participant count: a transaction amount `a` in a group of `n` stands
//! for `a / n` minor units, so `a / n / 100.0` currency units.

use settlement::engine::settle;
use settlement::types::ParseErrorKind;

#[test]
fn balanced_three_way_yields_no_transactions() {
    let s = settle("A 30\nB 30\nC 30").unwrap();
    assert_eq!(s.participant_count, 3);
    assert_eq!(s.total, 9000);
    assert!(s.transactions.is_empty());
}

#[test]
fn single_creditor_takes_one_payment_per_debtor() {
    let s = settle("A 100\nB 0\nC 0").unwrap();
    assert_eq!(s.participant_count, 3);
    assert_eq!(s.transactions.len(), 2);
    assert_eq!(s.transactions[0].from, "B");
    assert_eq!(s.transactions[0].to, "A");
    assert_eq!(s.transactions[0].amount, 10000);
    assert_eq!(s.transactions[1].from, "C");
    assert_eq!(s.transactions[1].to, "A");
    assert_eq!(s.transactions[1].amount, 10000);
    // 10000 scaled units over 3 participants is 33.33 currency units.
    let units = s.transactions[0].amount as f64 / s.participant_count as f64 / 100.0;
    assert!((units - 33.333333).abs() < 0.001);
}

#[test]
fn settled_entries_drop_and_equal_pair_matches() {
    let s = settle("A 50\nB 50\nC 0\nD 100").unwrap();
    assert_eq!(s.transactions.len(), 1);
    assert_eq!(s.transactions[0].from, "C");
    assert_eq!(s.transactions[0].to, "D");
    // 20000 scaled units over 4 participants is exactly 50 currency units.
    assert_eq!(s.transactions[0].amount, 20000);
    let units = s.transactions[0].amount as f64 / s.participant_count as f64 / 100.0;
    assert!((units - 50.0).abs() < 1e-9);
}

#[test]
fn exact_match_pass_then_nothing_remains() {
    // Fair share 45: creditors A(+45), B(+15); debtors C(-15), D(-45).
    // First-fit matches A with D and B with C; nothing is left to split.
    let s = settle("A 90\nB 60\nC 30\nD 0").unwrap();
    assert_eq!(s.participant_count, 4);
    assert_eq!(s.transactions.len(), 2);
    assert_eq!(s.transactions[0].from, "D");
    assert_eq!(s.transactions[0].to, "A");
    assert_eq!(s.transactions[0].amount, 18000); // 45 units, scaled by 4 in cents
    assert_eq!(s.transactions[1].from, "C");
    assert_eq!(s.transactions[1].to, "B");
    assert_eq!(s.transactions[1].amount, 6000); // 15 units, scaled by 4 in cents
}

#[test]
fn incomplete_line_reports_its_index() {
    let e = settle("A 10\nB").unwrap_err();
    assert_eq!(e.kind, ParseErrorKind::IncompleteLine);
    assert_eq!(e.line_index, 1);
}

#[test]
fn not_a_number_reports_its_index() {
    let e = settle("A ten").unwrap_err();
    assert_eq!(e.kind, ParseErrorKind::NotANumber);
    assert_eq!(e.line_index, 0);
}

#[test]
fn residual_pass_splits_across_creditors() {
    // Fair share 5: creditors A(+3), B(+2), C(+2); debtors D(-5), E(-1), F(-1).
    // No exact match; the two-cursor walk splits D's deficit.
    let s = settle("A 8\nB 7\nC 7\nD 0\nE 4\nF 4").unwrap();
    assert_eq!(s.participant_count, 6);
    let got: Vec<(String, String, i128)> = s
        .transactions
        .iter()
        .map(|t| (t.from.clone(), t.to.clone(), t.amount))
        .collect();
    let want = vec![
        ("D".to_string(), "A".to_string(), 1800),
        ("D".to_string(), "B".to_string(), 1200),
        ("E".to_string(), "C".to_string(), 600),
        ("F".to_string(), "C".to_string(), 600),
    ];
    assert_eq!(got, want);
    // A creditor exhausted exactly mid-walk never produces a zero payment.
    assert!(s.transactions.iter().all(|t| t.amount > 0));
}

#[test]
fn single_participant_is_always_settled() {
    let s = settle("Solo 42").unwrap();
    assert!(s.transactions.is_empty());
}

#[test]
fn empty_input_settles_to_nothing() {
    let s = settle("").unwrap();
    assert_eq!(s.participant_count, 0);
    assert_eq!(s.total, 0);
    assert!(s.contributions.is_empty());
    assert!(s.transactions.is_empty());
}

#[test]
fn trace_reports_each_stage() {
    let s = settle("A 2\nB 0").unwrap();
    assert_eq!(
        s.trace,
        "participants: 2\ntotal: 200\ncreditors: 1\ndebtors: 1\ntransactions: 1\nB -> A: 200/2\n"
    );
}

#[test]
fn duplicate_names_are_distinct_ledger_entries() {
    // Two entries named A: the underpaying one settles the overpaying one,
    // so a same-name transaction is possible with duplicate names.
    let s = settle("A 10\nA 0").unwrap();
    assert_eq!(s.transactions.len(), 1);
    assert_eq!(s.transactions[0].from, "A");
    assert_eq!(s.transactions[0].to, "A");
    assert_eq!(s.transactions[0].amount, 1000);
}

#[test]
fn negative_contributions_are_accepted() {
    // B took money out of the pot; fair share is 2.50 and B owes 7.50.
    let s = settle("A 10\nB -5").unwrap();
    assert_eq!(s.total, 500);
    assert_eq!(s.transactions.len(), 1);
    assert_eq!(s.transactions[0].from, "B");
    assert_eq!(s.transactions[0].to, "A");
    // 1500 scaled units over 2 participants: 7.50 units.
    assert_eq!(s.transactions[0].amount, 1500);
}
