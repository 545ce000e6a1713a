use colonizer::card_tracker::{CardTracker, State, TrackerError, MAX_PLAYERS};
use colonizer::gcd::gcd;
use colonizer::hand::Hand;
use colonizer::resource::Resource;

fn seat(tracker: &CardTracker, entry: usize, player: usize) -> [u8; 5] {
    tracker.entries()[entry].0[player].values()
}

fn check_invariants(tracker: &CardTracker) {
    let entries = tracker.entries();
    assert!(!entries.is_empty());
    assert!(entries.iter().all(|e| e.1 > 0));
    assert_eq!(entries.iter().fold(0, |g, e| gcd(g, e.1)), 1);
    for i in 0..entries.len() {
        for j in (i + 1)..entries.len() {
            assert_ne!(entries[i].0, entries[j].0);
        }
    }
}

fn expected_ratio(tracker: &CardTracker, player: usize, card: Resource) -> (u128, u128) {
    (tracker.weighted_count(player, card), tracker.total_weight())
}

#[test]
fn test_add() {
    let mut tracker = CardTracker::default();
    tracker.add(0, Hand::from(Resource::Brick));
    assert_eq!(tracker.entries()[0].0[0].get(Resource::Brick), 1);
}

#[test]
fn test_rob_unknown() {
    let mut tracker = CardTracker::default();

    tracker.add(0, Hand::from([5, 7, 9, 13, 15]));
    tracker.add(1, Hand::from([12, 11, 6, 5, 3]));

    tracker.rob(1, 0).unwrap();
    tracker.rob(1, 0).unwrap();
    tracker.rob(1, 0).unwrap();
    tracker.rob(0, 1).unwrap();
    tracker.rob(0, 1).unwrap();
    tracker.rob(0, 1).unwrap();

    assert_eq!(tracker.len(), 471);
    check_invariants(&tracker);
}

#[test]
fn unit_add_gives_single_state() {
    let mut tracker = CardTracker::new();
    tracker.add(0, Hand::from(Resource::Brick));
    assert_eq!(tracker.len(), 1);
    assert_eq!(tracker.entries()[0].1, 1);
    assert_eq!(seat(&tracker, 0, 0), [0, 1, 0, 0, 0]);
    for p in 1..MAX_PLAYERS {
        assert_eq!(seat(&tracker, 0, p), [0, 0, 0, 0, 0]);
    }
}

#[test]
fn rob_splits_by_card_counts() {
    let mut tracker = CardTracker::new();
    tracker.add(0, Hand::from([2, 1, 0, 0, 0]));
    tracker.rob(1, 0).unwrap();
    assert_eq!(tracker.len(), 2);
    let mut seen: Vec<([u8; 5], [u8; 5], u32)> = tracker
        .entries()
        .iter()
        .map(|e| (e.0[0].values(), e.0[1].values(), e.1))
        .collect();
    seen.sort();
    assert_eq!(seen, vec![([1, 1, 0, 0, 0], [1, 0, 0, 0, 0], 2), ([2, 0, 0, 0, 0], [0, 1, 0, 0, 0], 1)]);
    check_invariants(&tracker);
}

#[test]
fn rob_merges_equal_states_and_reduces() {
    let mut tracker = CardTracker::new();
    tracker.add(0, Hand::from([1, 1, 0, 0, 0]));
    tracker.rob(1, 0).unwrap();
    // two states, equal weight 1 each
    assert_eq!(tracker.len(), 2);
    assert!(tracker.entries().iter().all(|e| e.1 == 1));
    tracker.rob(1, 0).unwrap();
    // both branches end with seat 1 holding the lumber and the brick
    assert_eq!(tracker.len(), 1);
    assert_eq!(tracker.entries()[0].1, 1);
    assert_eq!(seat(&tracker, 0, 0), [0, 0, 0, 0, 0]);
    assert_eq!(seat(&tracker, 0, 1), [1, 1, 0, 0, 0]);
}

#[test]
fn rob_from_empty_hand_is_inconsistent() {
    let mut tracker = CardTracker::new();
    tracker.add(0, Hand::from([1, 0, 0, 0, 0]));
    assert_eq!(tracker.rob(0, 1), Err(TrackerError::Inconsistent));
    assert_eq!(tracker.len(), 1);
    assert_eq!(seat(&tracker, 0, 0), [1, 0, 0, 0, 0]);
}

#[test]
fn rob_into_full_count_overflows() {
    let mut tracker = CardTracker::new();
    tracker.add(0, Hand::from([1, 0, 0, 0, 0]));
    tracker.add(1, Hand::from([255, 0, 0, 0, 0]));
    assert_eq!(tracker.rob(1, 0), Err(TrackerError::Overflow));
    assert_eq!(seat(&tracker, 0, 1), [255, 0, 0, 0, 0]);
}

#[test]
fn remove_without_cards_is_inconsistent() {
    let mut tracker = CardTracker::new();
    assert_eq!(tracker.remove(2, Hand::from(Resource::Ore)), Err(TrackerError::Inconsistent));
    assert_eq!(tracker.len(), 1);
}

#[test]
fn know_has_keeps_matching_states_and_reduces() {
    let mut tracker = CardTracker::new();
    tracker.add(0, Hand::from([2, 1, 0, 0, 0]));
    tracker.rob(1, 0).unwrap();
    // seat 1 took lumber (weight 2) or brick (weight 1)
    tracker.know_has(1, Hand::from(Resource::Brick)).unwrap();
    assert_eq!(tracker.len(), 1);
    assert_eq!(tracker.entries()[0].1, 1);
    assert_eq!(seat(&tracker, 0, 1), [0, 1, 0, 0, 0]);
    check_invariants(&tracker);
}

#[test]
fn add_twice_equals_add_of_sum() {
    let mut a = CardTracker::new();
    a.add(0, Hand::from([3, 1, 0, 0, 0]));
    a.rob(2, 0).unwrap();
    let mut b = CardTracker::new();
    b.add(0, Hand::from([3, 1, 0, 0, 0]));
    b.rob(2, 0).unwrap();
    a.add(2, Hand::from([1, 0, 2, 0, 0]));
    a.add(2, Hand::from([0, 4, 1, 0, 1]));
    b.add(2, Hand::from([1, 4, 3, 0, 1]));
    assert_eq!(a.entries(), b.entries());
}

#[test]
fn add_then_remove_restores() {
    let mut tracker = CardTracker::new();
    tracker.add(0, Hand::from([3, 1, 0, 2, 0]));
    tracker.rob(1, 0).unwrap();
    let before: Vec<(State, u32)> = tracker.entries().clone();
    tracker.add(1, Hand::from([1, 1, 1, 0, 0]));
    tracker.remove(1, Hand::from([1, 1, 1, 0, 0])).unwrap();
    assert_eq!(tracker.entries(), &before);
}

#[test]
fn know_has_twice_is_once() {
    let mut tracker = CardTracker::new();
    tracker.add(0, Hand::from([3, 2, 1, 0, 0]));
    tracker.rob(1, 0).unwrap();
    tracker.rob(1, 0).unwrap();
    tracker.know_has(1, Hand::from(Resource::Lumber)).unwrap();
    let once: Vec<(State, u32)> = tracker.entries().clone();
    tracker.know_has(1, Hand::from(Resource::Lumber)).unwrap();
    assert_eq!(tracker.entries(), &once);
}

#[test]
fn robs_in_either_order_agree_on_expected_counts() {
    let setup = || {
        let mut t = CardTracker::new();
        t.add(0, Hand::from([2, 1, 0, 3, 0]));
        t.add(1, Hand::from([0, 0, 1, 1, 0]));
        t.add(2, Hand::from([1, 0, 0, 0, 1]));
        t
    };
    let mut a = setup();
    a.rob(1, 0).unwrap();
    a.rob(2, 0).unwrap();
    let mut b = setup();
    b.rob(2, 0).unwrap();
    b.rob(1, 0).unwrap();
    for p in 0..3 {
        for r in [Resource::Lumber, Resource::Brick, Resource::Wool, Resource::Grain, Resource::Ore] {
            let (na, da) = expected_ratio(&a, p, r);
            let (nb, db) = expected_ratio(&b, p, r);
            assert_eq!(na * db, nb * da);
        }
    }
}

#[test]
fn monopoly_moves_all_of_a_kind() {
    let mut tracker = CardTracker::new();
    tracker.add(0, Hand::from([0, 0, 0, 1, 0]));
    tracker.add(1, Hand::from([0, 0, 1, 2, 0]));
    tracker.rob(2, 1).unwrap();
    tracker.monopoly(0, Resource::Grain, 2).unwrap();
    for e in tracker.entries().iter() {
        assert_eq!(e.0[0].get(Resource::Grain), 3);
        for q in 1..MAX_PLAYERS {
            assert_eq!(e.0[q].get(Resource::Grain), 0);
        }
    }
    check_invariants(&tracker);
}

#[test]
fn monopoly_merges_states_that_become_equal() {
    let mut tracker = CardTracker::new();
    tracker.add(1, Hand::from([1, 0, 0, 1, 0]));
    tracker.rob(2, 1).unwrap();
    // seats 1 and 2 hold one lumber and one grain between them, either way round
    tracker.monopoly(0, Resource::Lumber, 1).unwrap();
    assert_eq!(tracker.len(), 2);
    tracker.monopoly(0, Resource::Grain, 1).unwrap();
    assert_eq!(tracker.len(), 1);
    assert_eq!(tracker.entries()[0].1, 1);
    assert_eq!(seat(&tracker, 0, 0), [1, 0, 0, 1, 0]);
    assert_eq!(seat(&tracker, 0, 1), [0, 0, 0, 0, 0]);
    assert_eq!(seat(&tracker, 0, 2), [0, 0, 0, 0, 0]);
}

#[test]
fn sure_is_componentwise_minimum() {
    let mut tracker = CardTracker::new();
    tracker.add(0, Hand::from([2, 1, 0, 0, 0]));
    tracker.rob(1, 0).unwrap();
    let sure = tracker.sure();
    assert_eq!(sure[0].values(), [1, 0, 0, 0, 0]);
    assert_eq!(sure[1].values(), [0, 0, 0, 0, 0]);
}

#[test]
fn weighted_counts_give_expected_values() {
    let mut tracker = CardTracker::new();
    tracker.add(0, Hand::from([2, 1, 0, 0, 0]));
    tracker.rob(1, 0).unwrap();
    assert_eq!(tracker.total_weight(), 3);
    assert_eq!(tracker.weighted_count(1, Resource::Lumber), 2);
    assert_eq!(tracker.weighted_count(1, Resource::Brick), 1);
    assert_eq!(tracker.weighted_count(0, Resource::Lumber), 4);
}

#[test]
fn gcd_values() {
    assert_eq!(gcd(12, 18), 6);
    assert_eq!(gcd(0, 5), 5);
    assert_eq!(gcd(7, 0), 7);
    assert_eq!(gcd(0, 0), 0);
    assert_eq!(gcd(17, 5), 1);
    assert_eq!(gcd(4294967295, 65535), 65535);
}
