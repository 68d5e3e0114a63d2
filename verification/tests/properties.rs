//! Concrete instances of the engine's proved guarantees, checked at run
//! time on real inputs.

use settlement::classify::classify;
use settlement::engine::settle;
use settlement::numfmt::int_to_string;
use settlement::plan::plan;
use settlement::types::Settlement;

/// Scaled net position of `name` after the settlement:
/// `count * paid + paid_out - received`, which conservation says equals
/// the total for every participant.
fn scaled_net(s: &Settlement, name: &str) -> i128 {
    let paid: i128 = s
        .contributions
        .iter()
        .filter(|c| c.name == name)
        .map(|c| c.amount as i128)
        .sum();
    let out: i128 = s
        .transactions
        .iter()
        .filter(|t| t.from == name)
        .map(|t| t.amount)
        .sum();
    let got: i128 = s
        .transactions
        .iter()
        .filter(|t| t.to == name)
        .map(|t| t.amount)
        .sum();
    s.participant_count as i128 * paid + out - got
}

#[test]
fn conservation_holds_for_every_participant() {
    for input in [
        "A 100\nB 0\nC 0",
        "A 50\nB 50\nC 0\nD 100",
        "A 90\nB 60\nC 30\nD 0",
        "A 8\nB 7\nC 7\nD 0\nE 4\nF 4",
        "A 10\nB -5",
        "A 1.25\nB 3.33\nC 0.02\nD 98",
    ] {
        let s = settle(input).unwrap();
        for c in &s.contributions {
            assert_eq!(scaled_net(&s, &c.name), s.total, "input {:?}, name {}", input, c.name);
        }
    }
}

#[test]
fn all_transactions_strictly_positive() {
    for input in [
        "A 100\nB 0\nC 0",
        "A 8\nB 7\nC 7\nD 0\nE 4\nF 4",
        "A 1.25\nB 3.33\nC 0.02\nD 98",
        "A 5\nB 5\nC 5",
    ] {
        let s = settle(input).unwrap();
        for t in &s.transactions {
            assert!(t.amount > 0, "input {:?}", input);
        }
    }
}

#[test]
fn no_self_payment_with_distinct_names() {
    for input in [
        "A 100\nB 0\nC 0",
        "A 8\nB 7\nC 7\nD 0\nE 4\nF 4",
        "A 1.25\nB 3.33\nC 0.02\nD 98",
    ] {
        let s = settle(input).unwrap();
        for t in &s.transactions {
            assert_ne!(t.from, t.to, "input {:?}", input);
        }
    }
}

#[test]
fn settle_is_deterministic() {
    let input = "A 8\nB 7\nC 7\nD 0\nE 4\nF 4";
    let first = settle(input).unwrap();
    let second = settle(input).unwrap();
    assert_eq!(first, second);
}

#[test]
fn single_creditor_transaction_count_equals_debtors() {
    let s = settle("A 0\nB 0\nC 9").unwrap();
    assert_eq!(s.transactions.len(), 2);
    assert_eq!(s.transactions[0].from, "A");
    assert_eq!(s.transactions[0].to, "C");
    assert_eq!(s.transactions[0].amount, 900);
    assert_eq!(s.transactions[1].from, "B");
    assert_eq!(s.transactions[1].to, "C");
    assert_eq!(s.transactions[1].amount, 900);
}

#[test]
fn balanced_input_yields_no_transactions() {
    for input in ["A 30\nB 30\nC 30", "X 0\nY 0", "Solo 7"] {
        let s = settle(input).unwrap();
        assert!(s.transactions.is_empty(), "input {:?}", input);
    }
}

#[test]
fn classifier_partitions_by_scaled_balance() {
    let cs = settle("A 90\nB 60\nC 30\nD 0").unwrap().contributions;
    let (creditors, debtors) = classify(&cs);
    assert_eq!(creditors.len(), 2);
    assert_eq!(creditors[0].index, 0);
    assert_eq!(creditors[0].name, "A");
    assert_eq!(creditors[0].amount, 18000);
    assert_eq!(creditors[1].index, 1);
    assert_eq!(creditors[1].amount, 6000);
    assert_eq!(debtors.len(), 2);
    assert_eq!(debtors[0].index, 2);
    assert_eq!(debtors[0].amount, 6000);
    assert_eq!(debtors[1].index, 3);
    assert_eq!(debtors[1].name, "D");
    assert_eq!(debtors[1].amount, 18000);
}

#[test]
fn planner_pays_every_creditor_its_surplus() {
    let cs = settle("A 8\nB 7\nC 7\nD 0\nE 4\nF 4").unwrap().contributions;
    let (creditors, debtors) = classify(&cs);
    let flows = plan(&creditors, &debtors);
    for c in &creditors {
        let inflow: i128 = flows.iter().filter(|f| f.to == c.index).map(|f| f.amount).sum();
        assert_eq!(inflow, c.amount);
    }
    for d in &debtors {
        let outflow: i128 = flows.iter().filter(|f| f.from == d.index).map(|f| f.amount).sum();
        assert_eq!(outflow, d.amount);
    }
}

#[test]
fn payments_total_the_positive_balances() {
    for input in ["A 100\nB 0\nC 0", "A 8\nB 7\nC 7\nD 0\nE 4\nF 4", "A 90\nB 60\nC 30\nD 0"] {
        let s = settle(input).unwrap();
        let n = s.participant_count as i128;
        let paid: i128 = s.transactions.iter().map(|t| t.amount).sum();
        let surplus: i128 = s
            .contributions
            .iter()
            .map(|c| (n * c.amount as i128 - s.total).max(0))
            .sum();
        assert_eq!(paid, surplus, "input {:?}", input);
    }
}

#[test]
fn integers_render_in_decimal() {
    assert_eq!(int_to_string(0), "0");
    assert_eq!(int_to_string(7), "7");
    assert_eq!(int_to_string(-1), "-1");
    assert_eq!(int_to_string(120045), "120045");
    assert_eq!(int_to_string(-98020), "-98020");
}
