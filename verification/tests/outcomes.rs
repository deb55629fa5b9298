use std::cmp::Ordering;
use ugolki_solver::EvaluationResult;
use ugolki_solver::EvaluationResult::{Defeat, InBetween, Victory};

#[test]
fn outcome_order_chain() {
    let chain = [
        Victory { in_steps: 0 },
        Victory { in_steps: 5 },
        InBetween { score: 100 },
        InBetween { score: -100 },
        Defeat { in_steps: 5 },
        Defeat { in_steps: 0 },
    ];
    for i in 0..chain.len() {
        for j in 0..chain.len() {
            assert_eq!(chain[i] > chain[j], i < j);
            assert_eq!(chain[i] < chain[j], i > j);
            assert_eq!(chain[i] >= chain[j], i <= j);
            assert_eq!(chain[i] <= chain[j], i >= j);
            assert_eq!(chain[i] == chain[j], i == j);
        }
    }
}

#[test]
fn every_victory_beats_every_estimate_and_defeat() {
    assert!(Victory { in_steps: 1000 } > InBetween { score: i32::MAX });
    assert!(InBetween { score: i32::MIN } > Defeat { in_steps: 1000 });
    assert!(Victory { in_steps: 3 } > Defeat { in_steps: 3 });
    assert!(Victory { in_steps: 2 } > Victory { in_steps: 3 });
    assert!(Defeat { in_steps: 3 } > Defeat { in_steps: 2 });
    assert!(InBetween { score: 1 } > InBetween { score: 0 });
}

#[test]
fn partial_cmp_gives_the_three_answers() {
    let a = InBetween { score: 7 };
    assert_eq!(a.partial_cmp(&InBetween { score: 7 }), Some(Ordering::Equal));
    assert_eq!(a.partial_cmp(&InBetween { score: 8 }), Some(Ordering::Less));
    assert_eq!(a.partial_cmp(&InBetween { score: 6 }), Some(Ordering::Greater));
    assert_eq!(a.partial_cmp(&Victory { in_steps: 9 }), Some(Ordering::Less));
    assert_eq!(a.partial_cmp(&Defeat { in_steps: 9 }), Some(Ordering::Greater));
    assert_eq!(
        Victory { in_steps: 1 }.partial_cmp(&Victory { in_steps: 2 }),
        Some(Ordering::Greater)
    );
    assert_eq!(
        Defeat { in_steps: 1 }.partial_cmp(&Defeat { in_steps: 2 }),
        Some(Ordering::Less)
    );
}

#[test]
fn opposite_swaps_sides() {
    assert_eq!(Victory { in_steps: 4 }.opposite(), Defeat { in_steps: 4 });
    assert_eq!(Defeat { in_steps: 0 }.opposite(), Victory { in_steps: 0 });
    assert_eq!(InBetween { score: 25 }.opposite(), InBetween { score: -25 });
    assert_eq!(InBetween { score: 0 }.opposite(), InBetween { score: 0 });
    assert_eq!(InBetween { score: i32::MAX }.opposite(), InBetween { score: -i32::MAX });
    let all = [Victory { in_steps: 4 }, Defeat { in_steps: 1 }, InBetween { score: -3 }];
    for a in all {
        assert_eq!(a.opposite().opposite(), a);
        for b in all {
            assert_eq!(a < b, b.opposite() < a.opposite());
        }
    }
}

#[test]
fn add_step_counts_only_decided_results() {
    assert_eq!(Victory { in_steps: 4 }.add_step(), Victory { in_steps: 5 });
    assert_eq!(Defeat { in_steps: 0 }.add_step(), Defeat { in_steps: 1 });
    assert_eq!(InBetween { score: 25 }.add_step(), InBetween { score: 25 });
    assert_eq!(Victory { in_steps: i32::MAX - 1 }.add_step(), Victory { in_steps: i32::MAX });
}

#[test]
fn is_end_tells_decided_results() {
    assert!(Victory { in_steps: 4 }.is_end());
    assert!(Defeat { in_steps: 0 }.is_end());
    assert!(!InBetween { score: 0 }.is_end());
}

#[test]
fn results_in_words() {
    assert_eq!(Defeat { in_steps: 3 }.to_text(), "defeat in 3 turns");
    assert_eq!(Victory { in_steps: 12 }.to_text(), "victory in 12 turns");
    assert_eq!(Victory { in_steps: 0 }.to_text(), "victory in 0 turns");
    assert_eq!(InBetween { score: 457770 }.to_text(), "457770");
    assert_eq!(InBetween { score: -36400 }.to_text(), "-36400");
    assert_eq!(InBetween { score: 0 }.to_text(), "0");
    assert_eq!(InBetween { score: i32::MIN }.to_text(), "-2147483648");
    assert_eq!(InBetween { score: i32::MAX }.to_text(), "2147483647");
    assert_eq!(Defeat { in_steps: -1 }.to_text(), "defeat in -1 turns");
    let copy: EvaluationResult = InBetween { score: 10 };
    assert_eq!(copy.to_text(), format!("{}", 10));
}
