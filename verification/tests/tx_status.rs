use fuel_node::tx_status::{
    apply_tx_state_transition, next_message, validate_send, SendOutcome, State, StateTransitions,
    Subscriber, TransactionStatus, TxStatusMessage, UpdateSender,
};

const CAPACITY: usize = 4;

fn submitted(n: u64) -> TransactionStatus {
    TransactionStatus::Submitted(n)
}

fn preconfirmed(n: u64) -> TransactionStatus {
    TransactionStatus::PreConfirmationSuccess(n)
}

fn success(n: u64) -> TransactionStatus {
    TransactionStatus::Success(n)
}

fn add(s: TransactionStatus) -> StateTransitions {
    StateTransitions::AddMsg(TxStatusMessage::Status(s))
}

// One receiver of the test: the transaction, the position of its subscriber
// at the time of subscribing, and a channel that holds two messages.
struct Receiver {
    tx: u8,
    open: bool,
    buffer: Vec<TxStatusMessage>,
}

struct Harness {
    update: UpdateSender,
    // For each subscriber of `update`, in its order, the receiver it feeds.
    feeds: Vec<usize>,
    receivers: Vec<Receiver>,
}

impl Harness {
    fn new() -> Harness {
        Harness { update: UpdateSender::new(CAPACITY), feeds: vec![], receivers: vec![] }
    }

    fn subscribe(&mut self, id: u8) {
        if self.update.try_subscribe(id as u64).is_some() {
            self.receivers.push(Receiver { tx: id, open: true, buffer: vec![] });
            self.feeds.push(self.receivers.len() - 1);
        }
    }

    fn send(&mut self, id: u8, msg: TxStatusMessage) {
        let mut outcomes = vec![];
        for (at, sub) in self.update.subscribers.iter().enumerate() {
            let receiver = &mut self.receivers[self.feeds[at]];
            if sub.tx_id != id as u64 {
                outcomes.push(SendOutcome::Delivered);
            } else if !receiver.open {
                outcomes.push(SendOutcome::Closed);
            } else if receiver.buffer.len() >= 2 {
                outcomes.push(SendOutcome::Full);
            } else {
                receiver.buffer.push(msg);
                outcomes.push(SendOutcome::Delivered);
            }
        }
        let before: Vec<Subscriber> = self.update.subscribers.clone();
        self.update.send(id as u64, msg, &outcomes);
        let mut feeds = vec![];
        for (at, sub) in before.iter().enumerate() {
            let gone = sub.tx_id == id as u64
                && validate_send(outcomes[at], sub.state, msg) == State::Closed;
            if !gone {
                feeds.push(self.feeds[at]);
            }
        }
        self.feeds = feeds;
        assert_eq!(self.feeds.len(), self.update.subscriber_count());
    }

    fn recv(&mut self, i: usize) -> Option<TxStatusMessage> {
        let receiver = self.receivers.get_mut(i)?;
        assert!(receiver.tx < 2);
        if receiver.buffer.is_empty() {
            None
        } else {
            Some(receiver.buffer.remove(0))
        }
    }
}

#[test]
fn test_update_sender_reg() {
    let mut h = Harness::new();
    h.subscribe(0);
    assert_eq!(h.update.subscriber_count(), 1);
    h.send(0, TxStatusMessage::Status(success(0)));
    assert_eq!(h.update.subscriber_count(), 0);
    assert_eq!(h.recv(0), Some(TxStatusMessage::Status(success(0))));
    h.send(0, TxStatusMessage::Status(submitted(0)));
    assert_eq!(h.recv(0), None);
}

#[test]
fn subscriber_sees_submission_then_success() {
    let mut h = Harness::new();
    h.subscribe(1);
    h.send(1, TxStatusMessage::Status(submitted(7)));
    assert_eq!(h.update.subscribers[0].state, State::Empty);
    h.send(1, TxStatusMessage::Status(success(9)));
    assert_eq!(h.update.subscriber_count(), 0);
    assert_eq!(h.recv(0), Some(TxStatusMessage::Status(submitted(7))));
    assert_eq!(h.recv(0), Some(TxStatusMessage::Status(success(9))));
    assert_eq!(h.recv(0), None);
}

#[test]
fn full_channel_fails_the_subscriber() {
    let mut h = Harness::new();
    h.subscribe(1);
    h.send(1, TxStatusMessage::Status(submitted(1)));
    h.send(1, TxStatusMessage::Status(submitted(2)));
    h.send(1, TxStatusMessage::Status(submitted(3)));
    assert_eq!(h.update.subscribers[0].state, State::Failed);
    h.send(1, TxStatusMessage::Status(submitted(4)));
    assert_eq!(h.update.subscriber_count(), 0);
}

#[test]
fn closed_receiver_is_removed() {
    let mut h = Harness::new();
    h.subscribe(0);
    h.subscribe(1);
    h.receivers[0].open = false;
    h.send(0, TxStatusMessage::Status(submitted(1)));
    assert_eq!(h.update.subscriber_count(), 1);
    assert_eq!(h.update.subscribers[0].tx_id, 1);
}

#[test]
fn subscriptions_stop_at_capacity() {
    let mut update = UpdateSender::new(CAPACITY);
    assert_eq!(update.try_subscribe(0), Some(0));
    assert_eq!(update.try_subscribe(1), Some(1));
    assert_eq!(update.try_subscribe(0), Some(2));
    assert_eq!(update.try_subscribe(5), Some(3));
    assert_eq!(update.try_subscribe(6), None);
    assert_eq!(update.try_subscribe(0), None);
    assert_eq!(update.subscriber_count(), CAPACITY);
    let none = UpdateSender::new(0).try_subscribe(0);
    assert_eq!(none, None);
}

#[test]
fn transitions_from_empty() {
    assert_eq!(apply_tx_state_transition(State::Empty, add(submitted(1))), State::Submitted(submitted(1)));
    assert_eq!(
        apply_tx_state_transition(State::Empty, add(preconfirmed(1))),
        State::Preconfirmed(preconfirmed(1))
    );
    assert_eq!(
        apply_tx_state_transition(State::Empty, add(TransactionStatus::PreConfirmationFailure(2))),
        State::Preconfirmed(TransactionStatus::PreConfirmationFailure(2))
    );
    assert_eq!(apply_tx_state_transition(State::Empty, add(success(1))), State::EarlySuccess(success(1)));
    assert_eq!(
        apply_tx_state_transition(State::Empty, add(TransactionStatus::SqueezedOut(3))),
        State::EarlySuccess(TransactionStatus::SqueezedOut(3))
    );
    assert_eq!(
        apply_tx_state_transition(State::Empty, StateTransitions::AddMsg(TxStatusMessage::FailedStatus)),
        State::Failed
    );
    assert_eq!(apply_tx_state_transition(State::Empty, StateTransitions::AddFailure), State::Failed);
    assert_eq!(apply_tx_state_transition(State::Empty, StateTransitions::CloseRecv), State::Closed);
    assert_eq!(apply_tx_state_transition(State::Empty, StateTransitions::Next), State::Empty);
}

#[test]
fn transitions_from_submitted_and_preconfirmed() {
    for from in [State::Submitted(submitted(1)), State::Preconfirmed(preconfirmed(1))] {
        let prev = match from {
            State::Submitted(s) => s,
            State::Preconfirmed(s) => s,
            _ => unreachable!(),
        };
        assert_eq!(apply_tx_state_transition(from, add(submitted(2))), State::Submitted(submitted(2)));
        assert_eq!(
            apply_tx_state_transition(from, add(preconfirmed(2))),
            State::Preconfirmed(preconfirmed(2))
        );
        assert_eq!(apply_tx_state_transition(from, add(success(2))), State::Success(prev, success(2)));
        assert_eq!(
            apply_tx_state_transition(from, add(TransactionStatus::Failure(4))),
            State::Success(prev, TransactionStatus::Failure(4))
        );
        assert_eq!(
            apply_tx_state_transition(from, StateTransitions::AddMsg(TxStatusMessage::FailedStatus)),
            State::LateFailed(prev)
        );
        assert_eq!(apply_tx_state_transition(from, StateTransitions::AddFailure), State::LateFailed(prev));
        assert_eq!(apply_tx_state_transition(from, StateTransitions::CloseRecv), State::Closed);
        assert_eq!(apply_tx_state_transition(from, StateTransitions::Next), State::Empty);
    }
}

#[test]
fn transitions_from_final_states() {
    let s1 = submitted(1);
    let s2 = success(2);
    let finals = [
        (State::EarlySuccess(s2), State::Closed),
        (State::Failed, State::Closed),
        (State::SenderClosed(s2), State::Closed),
        (State::LateFailed(s1), State::Failed),
        (State::Success(s1, s2), State::SenderClosed(s2)),
        (State::Closed, State::Closed),
    ];
    for (from, after_next) in finals {
        assert_eq!(apply_tx_state_transition(from, add(submitted(9))), from);
        assert_eq!(apply_tx_state_transition(from, add(success(9))), from);
        assert_eq!(apply_tx_state_transition(from, StateTransitions::AddFailure), from);
        assert_eq!(
            apply_tx_state_transition(from, StateTransitions::AddMsg(TxStatusMessage::FailedStatus)),
            from
        );
        assert_eq!(apply_tx_state_transition(from, StateTransitions::CloseRecv), State::Closed);
        assert_eq!(apply_tx_state_transition(from, StateTransitions::Next), after_next);
    }
}

#[test]
fn messages_come_out_in_order() {
    let s1 = submitted(1);
    let s2 = success(2);
    let (state, first) = next_message(State::Success(s1, s2));
    assert_eq!(first, Some(TxStatusMessage::Status(s1)));
    let (state, second) = next_message(state);
    assert_eq!(second, Some(TxStatusMessage::Status(s2)));
    let (state, third) = next_message(state);
    assert_eq!(third, None);
    assert_eq!(state, State::Closed);
    let (state, late) = next_message(State::LateFailed(s1));
    assert_eq!(late, Some(TxStatusMessage::Status(s1)));
    let (state, failed) = next_message(state);
    assert_eq!(failed, Some(TxStatusMessage::FailedStatus));
    assert_eq!(state, State::Closed);
    assert_eq!(next_message(State::Empty), (State::Empty, None));
}

#[test]
fn validate_send_follows_the_outcome() {
    let msg = TxStatusMessage::Status(submitted(3));
    assert_eq!(validate_send(SendOutcome::Delivered, State::Empty, msg), State::Empty);
    assert_eq!(validate_send(SendOutcome::Full, State::Empty, msg), State::Failed);
    assert_eq!(validate_send(SendOutcome::Closed, State::Empty, msg), State::Closed);
    let end = TxStatusMessage::Status(success(3));
    assert_eq!(validate_send(SendOutcome::Delivered, State::Empty, end), State::Closed);
}
