//! What each subscriber of a transaction's status has seen, and what it is
//! told next.

use vstd::prelude::*;

verus! {

/// A status of a transaction, with what tells two of a kind apart.
#[derive(Clone, Copy, Debug, PartialEq, Eq, Structural)]
pub enum TransactionStatus {
    Submitted(u64),
    PreConfirmationSuccess(u64),
    PreConfirmationFailure(u64),
    Success(u64),
    SqueezedOut(u64),
    Failure(u64),
}

#[derive(Clone, Copy, Debug, PartialEq, Eq, Structural)]
pub enum TxStatusMessage {
    Status(TransactionStatus),
    /// The status could not be determined.
    FailedStatus,
}

/// What a subscriber has not been told yet.
#[derive(Clone, Copy, Debug, PartialEq, Eq, Structural)]
pub enum State {
    Empty,
    Submitted(TransactionStatus),
    Preconfirmed(TransactionStatus),
    EarlySuccess(TransactionStatus),
    Success(TransactionStatus, TransactionStatus),
    LateFailed(TransactionStatus),
    SenderClosed(TransactionStatus),
    Failed,
    Closed,
}

/// What happens to a subscriber.
#[derive(Clone, Copy, Debug, PartialEq, Eq, Structural)]
pub enum StateTransitions {
    AddMsg(TxStatusMessage),
    AddFailure,
    CloseRecv,
    Next,
}

/// The state that a status leads to from a state that still takes one:
/// a submission and a preconfirmation replace what was there, any other
/// status ends the sequence.
pub open spec fn after_status(state: State, s: TransactionStatus) -> State {
    match s {
        TransactionStatus::Submitted(_) => State::Submitted(s),
        TransactionStatus::PreConfirmationSuccess(_) => State::Preconfirmed(s),
        TransactionStatus::PreConfirmationFailure(_) => State::Preconfirmed(s),
        _ => match state {
            State::Submitted(prev) => State::Success(prev, s),
            State::Preconfirmed(prev) => State::Success(prev, s),
            _ => State::EarlySuccess(s),
        },
    }
}

/// The state machine of a subscriber.
pub open spec fn spec_transition(state: State, transition: StateTransitions) -> State {
    match transition {
        StateTransitions::CloseRecv => State::Closed,
        StateTransitions::Next => match state {
            State::Empty => State::Empty,
            State::Submitted(_) => State::Empty,
            State::Preconfirmed(_) => State::Empty,
            State::EarlySuccess(_) => State::Closed,
            State::Failed => State::Closed,
            State::SenderClosed(_) => State::Closed,
            State::LateFailed(_) => State::Failed,
            State::Success(_, s2) => State::SenderClosed(s2),
            State::Closed => State::Closed,
        },
        StateTransitions::AddMsg(TxStatusMessage::Status(s)) => match state {
            State::Empty => after_status(state, s),
            State::Submitted(_) => after_status(state, s),
            State::Preconfirmed(_) => after_status(state, s),
            _ => state,
        },
        _ => match state {
            State::Empty => State::Failed,
            State::Submitted(prev) => State::LateFailed(prev),
            State::Preconfirmed(prev) => State::LateFailed(prev),
            _ => state,
        },
    }
}

/// Applies one transition to the state of a subscriber.
pub fn apply_tx_state_transition(state: State, transition: StateTransitions) -> (next: State)
    ensures
        next == spec_transition(state, transition),
{
    match transition {
        StateTransitions::CloseRecv => State::Closed,
        StateTransitions::Next => match state {
            State::Empty => State::Empty,
            State::Submitted(_) => State::Empty,
            State::Preconfirmed(_) => State::Empty,
            State::EarlySuccess(_) => State::Closed,
            State::Failed => State::Closed,
            State::SenderClosed(_) => State::Closed,
            State::LateFailed(_) => State::Failed,
            State::Success(_, s2) => State::SenderClosed(s2),
            State::Closed => State::Closed,
        },
        StateTransitions::AddMsg(TxStatusMessage::Status(s)) => {
            let open: bool = match state {
                State::Empty => true,
                State::Submitted(_) => true,
                State::Preconfirmed(_) => true,
                _ => false,
            };
            if !open {
                return state;
            }
            match s {
                TransactionStatus::Submitted(_) => State::Submitted(s),
                TransactionStatus::PreConfirmationSuccess(_) => State::Preconfirmed(s),
                TransactionStatus::PreConfirmationFailure(_) => State::Preconfirmed(s),
                _ => match state {
                    State::Submitted(prev) => State::Success(prev, s),
                    State::Preconfirmed(prev) => State::Success(prev, s),
                    _ => State::EarlySuccess(s),
                },
            }
        },
        _ => match state {
            State::Empty => State::Failed,
            State::Submitted(prev) => State::LateFailed(prev),
            State::Preconfirmed(prev) => State::LateFailed(prev),
            _ => state,
        },
    }
}

/// What a subscriber in `state` is told next, if anything.
pub open spec fn spec_message(state: State) -> Option<TxStatusMessage> {
    match state {
        State::Empty => None,
        State::Closed => None,
        State::Failed => Some(TxStatusMessage::FailedStatus),
        State::Submitted(s) => Some(TxStatusMessage::Status(s)),
        State::Preconfirmed(s) => Some(TxStatusMessage::Status(s)),
        State::EarlySuccess(s) => Some(TxStatusMessage::Status(s)),
        State::Success(s1, _) => Some(TxStatusMessage::Status(s1)),
        State::LateFailed(s) => Some(TxStatusMessage::Status(s)),
        State::SenderClosed(s) => Some(TxStatusMessage::Status(s)),
    }
}

/// Takes the next message for a subscriber out of its state.
pub fn next_message(state: State) -> (out: (State, Option<TxStatusMessage>))
    ensures
        out.0 == spec_transition(state, StateTransitions::Next),
        out.1 == spec_message(state),
{
    let message = match state {
        State::Empty => None,
        State::Closed => None,
        State::Failed => Some(TxStatusMessage::FailedStatus),
        State::Submitted(s) => Some(TxStatusMessage::Status(s)),
        State::Preconfirmed(s) => Some(TxStatusMessage::Status(s)),
        State::EarlySuccess(s) => Some(TxStatusMessage::Status(s)),
        State::Success(s1, _) => Some(TxStatusMessage::Status(s1)),
        State::LateFailed(s) => Some(TxStatusMessage::Status(s)),
        State::SenderClosed(s) => Some(TxStatusMessage::Status(s)),
    };
    (apply_tx_state_transition(state, StateTransitions::Next), message)
}

/// How handing a message to the channel of a subscriber ended.
#[derive(Clone, Copy, Debug, PartialEq, Eq, Structural)]
pub enum SendOutcome {
    Delivered,
    /// The channel is full.
    Full,
    /// The subscriber is gone.
    Closed,
}

/// The state of a subscriber after `msg` was handed to its channel with
/// the outcome `outcome`.
pub open spec fn spec_validate_send(outcome: SendOutcome, state: State, msg: TxStatusMessage) -> State {
    let added = spec_transition(state, StateTransitions::AddMsg(msg));
    let taken = spec_transition(added, StateTransitions::Next);
    match outcome {
        SendOutcome::Delivered => taken,
        SendOutcome::Closed => spec_transition(taken, StateTransitions::CloseRecv),
        SendOutcome::Full => spec_transition(taken, StateTransitions::AddFailure),
    }
}

/// The state of a subscriber after `msg` was handed to its channel: the
/// message is added and taken; a full channel counts as one failure, a
/// closed one closes the subscriber.
pub fn validate_send(outcome: SendOutcome, state: State, msg: TxStatusMessage) -> (next: State)
    ensures
        next == spec_validate_send(outcome, state, msg),
{
    let added = apply_tx_state_transition(state, StateTransitions::AddMsg(msg));
    let taken = apply_tx_state_transition(added, StateTransitions::Next);
    match outcome {
        SendOutcome::Delivered => taken,
        SendOutcome::Closed => apply_tx_state_transition(taken, StateTransitions::CloseRecv),
        SendOutcome::Full => apply_tx_state_transition(taken, StateTransitions::AddFailure),
    }
}

/// One subscriber of the status of the transaction `tx_id`.
#[derive(Clone, Copy, Debug, PartialEq, Eq, Structural)]
pub struct Subscriber {
    pub tx_id: u64,
    pub state: State,
}

/// The subscribers of all transactions, bounded in number.
pub struct UpdateSender {
    pub capacity: usize,
    pub subscribers: Vec<Subscriber>,
}

/// The subscribers that are left of the first `n` of `subs` once `msg` for
/// the transaction `tx_id` was handed to each of its subscribers with the
/// outcomes `outcomes`: the states move on, closed subscribers leave.
pub open spec fn after_send(
    subs: Seq<Subscriber>,
    tx_id: u64,
    msg: TxStatusMessage,
    outcomes: Seq<SendOutcome>,
    n: int,
) -> Seq<Subscriber>
    decreases n,
{
    if n <= 0 {
        Seq::empty()
    } else {
        let before = after_send(subs, tx_id, msg, outcomes, n - 1);
        let sub = subs[n - 1];
        if sub.tx_id != tx_id {
            before.push(sub)
        } else {
            let state = spec_validate_send(outcomes[n - 1], sub.state, msg);
            if state is Closed {
                before
            } else {
                before.push(Subscriber { tx_id, state })
            }
        }
    }
}

impl UpdateSender {
    pub open spec fn wf(&self) -> bool {
        self.subscribers@.len() <= self.capacity
    }

    pub fn new(capacity: usize) -> (sender: UpdateSender)
        ensures
            sender.wf(),
            sender.capacity == capacity,
            sender.subscribers@.len() == 0,
    {
        UpdateSender { capacity, subscribers: Vec::new() }
    }

    /// The number of subscribers, over all transactions.
    pub fn subscriber_count(&self) -> (count: usize)
        ensures
            count == self.subscribers@.len(),
    {
        self.subscribers.len()
    }

    /// Registers a subscriber of the transaction `tx_id` with nothing to be
    /// told yet, and gives its position. Refuses once the subscribers of
    /// all transactions together have reached the capacity.
    pub fn try_subscribe(&mut self, tx_id: u64) -> (at: Option<usize>)
        requires
            old(self).wf(),
        ensures
            final(self).wf(),
            final(self).capacity == old(self).capacity,
            at.is_none() == (old(self).subscribers@.len() >= old(self).capacity),
            at.is_none() ==> final(self).subscribers@ == old(self).subscribers@,
            at.is_some() ==> at.unwrap() == old(self).subscribers@.len(),
            at.is_some() ==> final(self).subscribers@ == old(self).subscribers@.push(
                Subscriber { tx_id, state: State::Empty },
            ),
    {
        if self.subscribers.len() >= self.capacity {
            return None;
        }
        let at: usize = self.subscribers.len();
        self.subscribers.push(Subscriber { tx_id, state: State::Empty });
        Some(at)
    }

    /// Records that `msg` for the transaction `tx_id` was handed to the
    /// channel of each of its subscribers; `outcomes` tells at the position
    /// of each how that ended. Subscribers that are closed leave.
    pub fn send(&mut self, tx_id: u64, msg: TxStatusMessage, outcomes: &Vec<SendOutcome>)
        requires
            old(self).wf(),
            outcomes@.len() == old(self).subscribers@.len(),
        ensures
            final(self).wf(),
            final(self).capacity == old(self).capacity,
            final(self).subscribers@ == after_send(
                old(self).subscribers@,
                tx_id,
                msg,
                outcomes@,
                old(self).subscribers@.len() as int,
            ),
            final(self).subscribers@.len() <= old(self).subscribers@.len(),
    {
        let mut kept: Vec<Subscriber> = Vec::new();
        let mut x: usize = 0;
        while x < self.subscribers.len()
            invariant
                x <= self.subscribers.len(),
                *self == *old(self),
                outcomes@.len() == self.subscribers@.len(),
                kept@.len() <= x,
                kept@ == after_send(self.subscribers@, tx_id, msg, outcomes@, x as int),
            decreases self.subscribers.len() - x,
        {
            let sub: Subscriber = self.subscribers[x];
            if sub.tx_id != tx_id {
                kept.push(sub);
            } else {
                let state = validate_send(outcomes[x], sub.state, msg);
                let closed: bool = match state {
                    State::Closed => true,
                    _ => false,
                };
                if !closed {
                    kept.push(Subscriber { tx_id, state });
                }
            }
            x += 1;
        }
        self.subscribers = kept;
    }
}

/// A closed subscriber stays closed, whatever happens to it.
pub proof fn lemma_closed_is_final(transition: StateTransitions)
    ensures
        spec_transition(State::Closed, transition) == State::Closed,
{
}

/// Whatever the state, a closed receiver closes the subscriber.
pub proof fn lemma_close_closes(state: State)
    ensures
        spec_transition(state, StateTransitions::CloseRecv) == State::Closed,
{
}

/// The number of subscribers never passes the capacity: neither a
/// subscription nor a send takes a well-formed sender beyond it.
pub proof fn lemma_subscribers_bounded(
    subs: Seq<Subscriber>,
    tx_id: u64,
    msg: TxStatusMessage,
    outcomes: Seq<SendOutcome>,
    n: int,
)
    requires
        0 <= n <= subs.len(),
    ensures
        after_send(subs, tx_id, msg, outcomes, n).len() <= n,
    decreases n,
{
    if n > 0 {
        lemma_subscribers_bounded(subs, tx_id, msg, outcomes, n - 1);
    }
}

} // verus!
