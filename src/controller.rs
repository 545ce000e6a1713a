use vstd::prelude::*;
use crate::card_tracker::{
    CardTracker, Entry, TrackerError, MAX_PLAYERS, add_outcome, know_outcome, mono_outcome,
    remove_outcome, rob_outcome,
};
use crate::chat::Event;
use crate::hand::{Hand, unit_hand};
use crate::item::cost_hand;
use crate::resource::{Resource, resource_index};

verus! {

/// One update of the belief distribution.
#[derive(Debug, Clone, Copy, PartialEq, Eq)]
pub enum Action {
    /// The seat gains the cards.
    Add(usize, Hand),
    /// The seat gives up the cards, which it must hold.
    Remove(usize, Hand),
    /// The seat is seen to hold at least the cards.
    KnowHas(usize, Hand),
    /// The first seat draws an unknown card from the second.
    Rob(usize, usize),
    /// The seat takes all cards of the kind from the others, who held this many.
    Monopoly(usize, Resource, u8),
}

/// What applying `act` to the entries `a` does, giving `b` and the result `r`.
pub open spec fn action_outcome(a: Seq<Entry>, act: Action, r: Result<(), TrackerError>, b: Seq<Entry>) -> bool {
    match act {
        Action::Add(p, h) => if p >= MAX_PLAYERS {
            r == Err::<(), _>(TrackerError::NoSuchSeat) && b == a
        } else {
            add_outcome(a, p as int, h, r, b)
        },
        Action::Remove(p, h) => if p >= MAX_PLAYERS {
            r == Err::<(), _>(TrackerError::NoSuchSeat) && b == a
        } else {
            remove_outcome(a, p as int, h, r, b)
        },
        Action::KnowHas(p, h) => if p >= MAX_PLAYERS {
            r == Err::<(), _>(TrackerError::NoSuchSeat) && b == a
        } else {
            know_outcome(a, p as int, h, r, b)
        },
        Action::Rob(rb, v) => if rb >= MAX_PLAYERS || v >= MAX_PLAYERS {
            r == Err::<(), _>(TrackerError::NoSuchSeat) && b == a
        } else {
            rob_outcome(a, rb as int, v as int, r, b)
        },
        Action::Monopoly(p, res, n) => if p >= MAX_PLAYERS {
            r == Err::<(), _>(TrackerError::NoSuchSeat) && b == a
        } else {
            mono_outcome(a, p as int, resource_index(res), n as int, r, b)
        },
    }
}

/// `states` and `results` record a run of the actions from `a`: each action applies to the
/// state before it, and after a failure the rest leave state and result as they were.
pub open spec fn run_of(
    a: Seq<Entry>,
    acts: Seq<Action>,
    states: Seq<Seq<Entry>>,
    results: Seq<Result<(), TrackerError>>,
) -> bool {
    &&& states.len() == acts.len() + 1
    &&& results.len() == acts.len() + 1
    &&& states[0] == a
    &&& results[0] is Ok
    &&& forall|i: int|
        0 <= i < acts.len() ==> if (#[trigger] results[i]) is Err {
            results[i + 1] == results[i] && states[i + 1] == states[i]
        } else {
            action_outcome(states[i], acts[i], results[i + 1], states[i + 1])
        }
}

/// Applying the actions in order to `a` gives `b` and `r`; the first failure stops the rest.
pub open spec fn actions_outcome(a: Seq<Entry>, acts: Seq<Action>, r: Result<(), TrackerError>, b: Seq<Entry>) -> bool {
    exists|states: Seq<Seq<Entry>>, results: Seq<Result<(), TrackerError>>|
        #[trigger] run_of(a, acts, states, results) && r == results.last() && b == states.last()
}

/// The updates that an event makes, in order.
pub open spec fn event_actions(e: Event) -> Seq<Action> {
    match e {
        Event::Acquire(p, h) => seq![Action::Add(p, h)],
        Event::Discard(p, h) => seq![Action::Remove(p, h)],
        Event::Purchase(p, item) => seq![Action::Remove(p, cost_hand(item))],
        Event::Steal(rb, v) => seq![Action::Rob(rb, v)],
        Event::StealKnown(rb, v, res) => seq![
            Action::Remove(v, unit_hand(res)),
            Action::Add(rb, unit_hand(res)),
        ],
        Event::OfferTrade { player, offer, request } => seq![Action::KnowHas(player, offer)],
        Event::AcceptTrade { player, offer, request, counterparty } => seq![
            Action::Add(player, request),
            Action::Remove(counterparty, request),
            Action::Add(counterparty, offer),
            Action::Remove(player, offer),
        ],
        Event::YearOfPlenty(p, h) => seq![Action::Add(p, h)],
        Event::BankTrade { player, offer, request } => seq![
            Action::Remove(player, offer),
            Action::Add(player, request),
        ],
        Event::Monopoly(p, n, res) => seq![Action::Monopoly(p, res, n)],
        Event::Roll(_, _) => seq![],
        Event::MoveRobber(_, _) => seq![],
    }
}

/// The updates that an event makes, in order.
pub fn event_actions_of(e: &Event) -> (r: Vec<Action>)
    ensures
        r@ == event_actions(*e),
{
    let r = match *e {
        Event::Acquire(p, h) => vec![Action::Add(p, h)],
        Event::Discard(p, h) => vec![Action::Remove(p, h)],
        Event::Purchase(p, item) => vec![Action::Remove(p, item.cost())],
        Event::Steal(rb, v) => vec![Action::Rob(rb, v)],
        Event::StealKnown(rb, v, res) => {
            let h = Hand::unit(res);
            vec![Action::Remove(v, h), Action::Add(rb, h)]
        },
        Event::OfferTrade { player, offer, request: _ } => vec![Action::KnowHas(player, offer)],
        Event::AcceptTrade { player, offer, request, counterparty } => vec![
            Action::Add(player, request),
            Action::Remove(counterparty, request),
            Action::Add(counterparty, offer),
            Action::Remove(player, offer),
        ],
        Event::YearOfPlenty(p, h) => vec![Action::Add(p, h)],
        Event::BankTrade { player, offer, request } => vec![
            Action::Remove(player, offer),
            Action::Add(player, request),
        ],
        Event::Monopoly(p, n, res) => vec![Action::Monopoly(p, res, n)],
        Event::Roll(_, _) | Event::MoveRobber(_, _) => Vec::new(),
    };
    proof {
        assert(r@ =~= event_actions(*e));
    }
    r
}

impl CardTracker {
    /// Applies one update; a seat index out of range changes nothing.
    pub fn apply(&mut self, act: Action) -> (r: Result<(), TrackerError>)
        requires
            old(self).wf(),
        ensures
            final(self).wf(),
            action_outcome(old(self)@, act, r, final(self)@),
    {
        match act {
            Action::Add(p, h) => {
                if p >= MAX_PLAYERS {
                    return Err(TrackerError::NoSuchSeat);
                }
                if !self.can_add(p, h) {
                    return Err(TrackerError::Overflow);
                }
                self.add(p, h);
                Ok(())
            },
            Action::Remove(p, h) => {
                if p >= MAX_PLAYERS {
                    return Err(TrackerError::NoSuchSeat);
                }
                self.remove(p, h)
            },
            Action::KnowHas(p, h) => {
                if p >= MAX_PLAYERS {
                    return Err(TrackerError::NoSuchSeat);
                }
                self.know_has(p, h)
            },
            Action::Rob(rb, v) => {
                if rb >= MAX_PLAYERS || v >= MAX_PLAYERS {
                    return Err(TrackerError::NoSuchSeat);
                }
                self.rob(rb, v)
            },
            Action::Monopoly(p, res, n) => {
                if p >= MAX_PLAYERS {
                    return Err(TrackerError::NoSuchSeat);
                }
                self.monopoly(p, res, n)
            },
        }
    }
}

/// Feeds game events, in log order, to one belief tracker.
pub struct Controller {
    cards: CardTracker,
}

impl View for Controller {
    type V = Seq<Entry>;

    closed spec fn view(&self) -> Seq<Entry> {
        self.cards@
    }
}

impl Controller {
    /// The controller's tracker is well formed.
    pub closed spec fn wf(&self) -> bool {
        self.cards.wf()
    }

    /// A controller with a fresh tracker.
    pub fn new() -> (r: Controller)
        ensures
            r.wf(),
            r@ == CardTracker::new_entries(),
    {
        Controller { cards: CardTracker::new() }
    }

    /// The tracker that the events have updated.
    pub fn cards(&self) -> (r: &CardTracker)
        requires
            self.wf(),
        ensures
            r@ == self@,
            r.wf(),
    {
        &self.cards
    }

    /// Applies the updates that `message` makes, in order, stopping at the first that fails.
    pub fn process_event(&mut self, message: &Event) -> (r: Result<(), TrackerError>)
        requires
            old(self).wf(),
        ensures
            final(self).wf(),
            actions_outcome(old(self)@, event_actions(*message), r, final(self)@),
    {
        let acts = event_actions_of(message);
        let ghost a = self@;
        let mut result: Result<(), TrackerError> = Ok(());
        let ghost mut states: Seq<Seq<Entry>> = seq![a];
        let ghost mut results: Seq<Result<(), TrackerError>> = seq![result];
        let mut i: usize = 0;
        while i < acts.len()
            invariant
                self.wf(),
                i <= acts@.len(),
                run_of(a, acts@.take(i as int), states, results),
                results.last() == result,
                states.last() == self@,
            decreases acts@.len() - i,
        {
            if result.is_ok() {
                result = self.cards.apply(acts[i]);
            }
            proof {
                let old_states = states;
                let old_results = results;
                states = states.push(self@);
                results = results.push(result);
                assert forall|j: int| 0 <= j < i + 1 implies if (#[trigger] results[j]) is Err {
                    results[j + 1] == results[j] && states[j + 1] == states[j]
                } else {
                    action_outcome(states[j], acts@.take(i + 1)[j], results[j + 1], states[j + 1])
                } by {
                    if j < i {
                        assert(old_results[j] == results[j]);
                        assert(acts@.take(i as int)[j] == acts@.take(i + 1)[j]);
                    }
                }
            }
            i += 1;
        }
        proof {
            assert(acts@.take(acts@.len() as int) =~= acts@);
            assert(run_of(a, acts@, states, results));
        }
        result
    }
}

} // verus!
