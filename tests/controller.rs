use colonizer::card_tracker::TrackerError;
use colonizer::chat::Event;
use colonizer::controller::Controller;
use colonizer::hand::Hand;
use colonizer::item::Item;
use colonizer::resource::Resource;

fn hand_of(c: &Controller, player: usize) -> [u8; 5] {
    assert_eq!(c.cards().len(), 1);
    c.cards().entries()[0].0[player].values()
}

#[test]
fn purchase_takes_item_cost() {
    let mut c = Controller::new();
    c.process_event(&Event::Acquire(0, Hand::from([2, 2, 1, 1, 1]))).unwrap();
    c.process_event(&Event::Purchase(0, Item::Settlement)).unwrap();
    assert_eq!(hand_of(&c, 0), [1, 1, 0, 0, 1]);
}

#[test]
fn monopoly_consistency() {
    let mut c = Controller::new();
    for p in 0..3 {
        c.process_event(&Event::Acquire(p, Hand::from([0, 0, 0, 2, 0]))).unwrap();
    }
    c.process_event(&Event::Monopoly(0, 4, Resource::Grain)).unwrap();
    assert_eq!(hand_of(&c, 0)[3], 6);
    assert_eq!(hand_of(&c, 1)[3], 0);
    assert_eq!(hand_of(&c, 2)[3], 0);
}

#[test]
fn monopoly_with_wrong_count_is_inconsistent() {
    let mut c = Controller::new();
    for p in 0..3 {
        c.process_event(&Event::Acquire(p, Hand::from([0, 0, 0, 2, 0]))).unwrap();
    }
    assert_eq!(
        c.process_event(&Event::Monopoly(0, 3, Resource::Grain)),
        Err(TrackerError::Inconsistent)
    );
}

#[test]
fn steal_known_moves_the_card() {
    let mut c = Controller::new();
    c.process_event(&Event::Acquire(0, Hand::from([0, 1, 0, 0, 0]))).unwrap();
    c.process_event(&Event::StealKnown(1, 0, Resource::Brick)).unwrap();
    assert_eq!(hand_of(&c, 0)[1], 0);
    assert_eq!(hand_of(&c, 1)[1], 1);
}

#[test]
fn trades_exchange_cards() {
    let mut c = Controller::new();
    c.process_event(&Event::Acquire(0, Hand::from([4, 0, 0, 0, 0]))).unwrap();
    c.process_event(&Event::Acquire(1, Hand::from([0, 0, 0, 0, 1]))).unwrap();
    c.process_event(&Event::AcceptTrade {
        player: 0,
        offer: Hand::from([1, 0, 0, 0, 0]),
        request: Hand::from([0, 0, 0, 0, 1]),
        counterparty: 1,
    })
    .unwrap();
    assert_eq!(hand_of(&c, 0), [3, 0, 0, 0, 1]);
    assert_eq!(hand_of(&c, 1), [1, 0, 0, 0, 0]);
    c.process_event(&Event::BankTrade {
        player: 0,
        offer: Hand::from([3, 0, 0, 0, 0]),
        request: Hand::from([0, 1, 0, 0, 0]),
    })
    .unwrap();
    assert_eq!(hand_of(&c, 0), [0, 1, 0, 0, 1]);
    c.process_event(&Event::YearOfPlenty(1, Hand::from([0, 0, 2, 0, 0]))).unwrap();
    c.process_event(&Event::Discard(1, Hand::from([1, 0, 1, 0, 0]))).unwrap();
    assert_eq!(hand_of(&c, 1), [0, 0, 1, 0, 0]);
}

#[test]
fn offer_and_roll_change_no_counts() {
    let mut c = Controller::new();
    c.process_event(&Event::Acquire(0, Hand::from([1, 0, 0, 0, 0]))).unwrap();
    c.process_event(&Event::OfferTrade {
        player: 0,
        offer: Hand::from([1, 0, 0, 0, 0]),
        request: Hand::from([0, 0, 0, 5, 0]),
    })
    .unwrap();
    c.process_event(&Event::Roll(0, 8)).unwrap();
    c.process_event(&Event::MoveRobber(0, Resource::Ore)).unwrap();
    assert_eq!(hand_of(&c, 0), [1, 0, 0, 0, 0]);
    assert_eq!(
        c.process_event(&Event::OfferTrade {
            player: 0,
            offer: Hand::from([2, 0, 0, 0, 0]),
            request: Hand::from([0, 0, 0, 0, 0]),
        }),
        Err(TrackerError::Inconsistent)
    );
}

#[test]
fn steal_unknown_expands_states() {
    let mut c = Controller::new();
    c.process_event(&Event::Acquire(2, Hand::from([1, 1, 1, 0, 0]))).unwrap();
    c.process_event(&Event::Steal(3, 2)).unwrap();
    assert_eq!(c.cards().len(), 3);
}

#[test]
fn overflowing_acquire_is_refused() {
    let mut c = Controller::new();
    c.process_event(&Event::Acquire(0, Hand::from([255, 0, 0, 0, 0]))).unwrap();
    assert_eq!(
        c.process_event(&Event::Acquire(0, Hand::from(Resource::Lumber))),
        Err(TrackerError::Overflow)
    );
    assert_eq!(hand_of(&c, 0), [255, 0, 0, 0, 0]);
}

#[test]
fn seat_out_of_range_is_refused() {
    let mut c = Controller::new();
    assert_eq!(
        c.process_event(&Event::Acquire(6, Hand::from(Resource::Lumber))),
        Err(TrackerError::NoSuchSeat)
    );
}
