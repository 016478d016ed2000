//! Bounded memory of what recent transactions have spent.
//!
//! The memory keeps at most `capacity` keys, the most recently spent last;
//! when it is full the oldest key leaves. A spend recorded as tentative can
//! be taken back.

use vstd::prelude::*;
use crate::txpool::types::{lemma_push_contains, Input, TxId};

verus! {

/// What the memory remembers: a transaction, or one of its inputs.
#[derive(Clone, Copy, Debug, PartialEq, Eq, Structural)]
pub enum SpentKey {
    Tx(TxId),
    Input(Input),
}

pub struct SpentInputs {
    pub capacity: usize,
    /// The remembered keys, oldest first.
    pub spent: Vec<SpentKey>,
    /// The inputs of tentative spends, each with its spender.
    pub spender_of_inputs: Vec<(TxId, Input)>,
}

/// Whether spending `input` is remembered: contracts are used, not spent.
pub open spec fn is_spendable(input: Input) -> bool {
    !(input is Contract)
}

/// The first position of `key` in `s` from `from` on, or the length of `s`
/// where there is none.
pub open spec fn first_at(s: Seq<SpentKey>, key: SpentKey, from: int) -> int
    decreases s.len() - from,
{
    if from < 0 || from >= s.len() {
        s.len() as int
    } else if s[from] == key {
        from
    } else {
        first_at(s, key, from + 1)
    }
}

/// The memory `s` of at most `capacity` keys once `key` is remembered: a
/// key that was there moves to the end; a new key is appended, and pushes
/// out the oldest key where the memory was full.
pub open spec fn remembered(s: Seq<SpentKey>, key: SpentKey, capacity: int) -> Seq<SpentKey> {
    let at = first_at(s, key, 0);
    if at < s.len() {
        s.remove(at).push(key)
    } else if s.len() >= capacity {
        s.subrange(1, s.len() as int).push(key)
    } else {
        s.push(key)
    }
}

/// The memory once the spendable ones of the first `n` of `inputs` are
/// remembered, in their order.
pub open spec fn remembered_inputs(s: Seq<SpentKey>, inputs: Seq<Input>, n: int, capacity: int) -> Seq<
    SpentKey,
>
    decreases n,
{
    if n <= 0 {
        s
    } else {
        let before = remembered_inputs(s, inputs, n - 1, capacity);
        if is_spendable(inputs[n - 1]) {
            remembered(before, SpentKey::Input(inputs[n - 1]), capacity)
        } else {
            before
        }
    }
}

/// The memory once the transaction `id` has spent `inputs`: its spendable
/// inputs are remembered in their order, then `id` itself.
pub open spec fn spent_by(s: Seq<SpentKey>, id: TxId, inputs: Seq<Input>, capacity: int) -> Seq<
    SpentKey,
> {
    remembered(
        remembered_inputs(s, inputs, inputs.len() as int, capacity),
        SpentKey::Tx(id),
        capacity,
    )
}

/// The inputs that the first `n` of `notes` hold for the spender `id`, in
/// their order.
pub open spec fn noted_for(notes: Seq<(TxId, Input)>, id: TxId, n: int) -> Seq<Input>
    decreases n,
{
    if n <= 0 {
        Seq::empty()
    } else if notes[n - 1].0 == id {
        noted_for(notes, id, n - 1).push(notes[n - 1].1)
    } else {
        noted_for(notes, id, n - 1)
    }
}

/// The first `n` of `notes` without those of the spender `id`, in their
/// order.
pub open spec fn notes_without(notes: Seq<(TxId, Input)>, id: TxId, n: int) -> Seq<(TxId, Input)>
    decreases n,
{
    if n <= 0 {
        Seq::empty()
    } else if notes[n - 1].0 != id {
        notes_without(notes, id, n - 1).push(notes[n - 1])
    } else {
        notes_without(notes, id, n - 1)
    }
}

/// `notes` with the spendable ones of the first `n` of `inputs` noted for
/// the spender `id`, in their order.
pub open spec fn notes_with(notes: Seq<(TxId, Input)>, id: TxId, inputs: Seq<Input>, n: int) -> Seq<
    (TxId, Input),
>
    decreases n,
{
    if n <= 0 {
        notes
    } else if is_spendable(inputs[n - 1]) {
        notes_with(notes, id, inputs, n - 1).push((id, inputs[n - 1]))
    } else {
        notes_with(notes, id, inputs, n - 1)
    }
}

/// Whether taking back the spend of `id` forgets `key`: the key is `id`
/// itself or an input that `notes` hold for `id`.
pub open spec fn taken_back(key: SpentKey, id: TxId, notes: Seq<(TxId, Input)>) -> bool {
    match key {
        SpentKey::Tx(spender) => spender == id,
        SpentKey::Input(input) => notes.contains((id, input)),
    }
}

/// The first `n` of `spent` without the keys that taking back the spend of
/// `id` forgets, in their order.
pub open spec fn keys_without(
    spent: Seq<SpentKey>,
    id: TxId,
    notes: Seq<(TxId, Input)>,
    n: int,
) -> Seq<SpentKey>
    decreases n,
{
    if n <= 0 {
        Seq::empty()
    } else if !taken_back(spent[n - 1], id, notes) {
        keys_without(spent, id, notes, n - 1).push(spent[n - 1])
    } else {
        keys_without(spent, id, notes, n - 1)
    }
}

impl SpentInputs {
    pub open spec fn wf(&self) -> bool {
        self.capacity >= 1 && self.spent@.len() <= self.capacity
    }

    pub open spec fn spec_is_spent_tx(&self, id: TxId) -> bool {
        self.spent@.contains(SpentKey::Tx(id))
    }

    pub open spec fn spec_is_spent_input(&self, input: Input) -> bool {
        self.spent@.contains(SpentKey::Input(input))
    }

    pub fn new(capacity: usize) -> (cache: SpentInputs)
        requires
            capacity >= 1,
        ensures
            cache.wf(),
            cache.capacity == capacity,
            cache.spent@.len() == 0,
            cache.spender_of_inputs@.len() == 0,
    {
        SpentInputs { capacity, spent: Vec::new(), spender_of_inputs: Vec::new() }
    }

    fn position(&self, key: SpentKey) -> (at: Option<usize>)
        ensures
            at.is_some() == self.spent@.contains(key),
            at.is_some() ==> at.unwrap() < self.spent@.len() && self.spent@[at.unwrap() as int]
                == key,
            first_at(self.spent@, key, 0) == (match at {
                Some(found) => found as int,
                None => self.spent@.len() as int,
            }),
    {
        let mut i: usize = 0;
        while i < self.spent.len()
            invariant
                i <= self.spent.len(),
                forall|x: int| 0 <= x < i ==> self.spent@[x] != key,
                first_at(self.spent@, key, 0) == first_at(self.spent@, key, i as int),
            decreases self.spent.len() - i,
        {
            if self.spent[i] == key {
                return Some(i);
            }
            i += 1;
        }
        None
    }

    /// Whether the transaction `id` is remembered as spent.
    pub fn is_spent_tx(&self, id: TxId) -> (spent: bool)
        ensures
            spent == self.spec_is_spent_tx(id),
    {
        self.position(SpentKey::Tx(id)).is_some()
    }

    /// Whether `input` is remembered as spent.
    pub fn is_spent_input(&self, input: Input) -> (spent: bool)
        ensures
            spent == self.spec_is_spent_input(input),
    {
        self.position(SpentKey::Input(input)).is_some()
    }

    /// Makes `key` the most recent key. A key that was remembered moves to
    /// the end; a new key is appended, and pushes out the oldest key when
    /// the memory is full.
    pub fn remember(&mut self, key: SpentKey)
        requires
            old(self).wf(),
        ensures
            final(self).wf(),
            final(self).capacity == old(self).capacity,
            final(self).spender_of_inputs == old(self).spender_of_inputs,
            final(self).spent@ == remembered(old(self).spent@, key, old(self).capacity as int),
            final(self).spent@.contains(key),
            forall|k: SpentKey| #[trigger]
                final(self).spent@.contains(k) ==> old(self).spent@.contains(k) || k == key,
    {
        let ghost s0 = self.spent@;
        match self.position(key) {
            Some(at) => {
                let taken = self.spent.remove(at);
                proof {
                    assert forall|k: SpentKey| #[trigger] s0.remove(at as int).contains(k) implies s0.contains(
                        k,
                    ) by {
                        let w = choose|w: int|
                            0 <= w < s0.remove(at as int).len() && s0.remove(at as int)[w] == k;
                        if w < at {
                            assert(s0[w] == k);
                        } else {
                            assert(s0[w + 1] == k);
                        }
                    }
                    lemma_push_contains(s0.remove(at as int), key);
                }
                self.spent.push(key);
            },
            None => {
                if self.spent.len() >= self.capacity {
                    let oldest = self.spent.remove(0);
                    proof {
                        assert(self.spent@ =~= s0.subrange(1, s0.len() as int));
                        assert forall|k: SpentKey| #[trigger] self.spent@.contains(k) implies s0.contains(
                            k,
                        ) by {
                            let w = choose|w: int| 0 <= w < self.spent@.len() && self.spent@[w] == k;
                            assert(s0[w + 1] == k);
                        }
                    }
                }
                proof {
                    lemma_push_contains(self.spent@, key);
                }
                self.spent.push(key);
            },
        }
    }

    /// Remembers every spendable input of `inputs` and then the spender
    /// `id` itself, in that order.
    fn remember_all(&mut self, id: TxId, inputs: &Vec<Input>)
        requires
            old(self).wf(),
        ensures
            final(self).wf(),
            final(self).capacity == old(self).capacity,
            final(self).spender_of_inputs == old(self).spender_of_inputs,
            final(self).spent@ == spent_by(
                old(self).spent@,
                id,
                inputs@,
                old(self).capacity as int,
            ),
            final(self).spec_is_spent_tx(id),
            forall|k: SpentKey| #[trigger]
                final(self).spent@.contains(k) ==> old(self).spent@.contains(k) || k
                    == SpentKey::Tx(id) || (k is Input && is_spendable(k->Input_0)
                    && inputs@.contains(k->Input_0)),
    {
        let mut x: usize = 0;
        while x < inputs.len()
            invariant
                x <= inputs.len(),
                self.wf(),
                self.capacity == old(self).capacity,
                self.spender_of_inputs == old(self).spender_of_inputs,
                self.spent@ == remembered_inputs(
                    old(self).spent@,
                    inputs@,
                    x as int,
                    old(self).capacity as int,
                ),
                forall|k: SpentKey| #[trigger]
                    self.spent@.contains(k) ==> old(self).spent@.contains(k) || (k is Input
                        && is_spendable(k->Input_0) && inputs@.contains(k->Input_0)),
            decreases inputs.len() - x,
        {
            let input: Input = inputs[x];
            let spendable: bool = match input {
                Input::Contract { .. } => false,
                _ => true,
            };
            if spendable {
                proof {
                    assert(inputs@.contains(input));
                }
                self.remember(SpentKey::Input(input));
            }
            x += 1;
        }
        self.remember(SpentKey::Tx(id));
    }

    /// Records a spend that may still be taken back: `id` and its spendable
    /// inputs count as spent, and the inputs are noted under `id`.
    pub fn maybe_spend_inputs(&mut self, id: TxId, inputs: &Vec<Input>)
        requires
            old(self).wf(),
        ensures
            final(self).wf(),
            final(self).capacity == old(self).capacity,
            final(self).spent@ == spent_by(
                old(self).spent@,
                id,
                inputs@,
                old(self).capacity as int,
            ),
            final(self).spender_of_inputs@ == notes_with(
                old(self).spender_of_inputs@,
                id,
                inputs@,
                inputs@.len() as int,
            ),
            final(self).spec_is_spent_tx(id),
            forall|k: SpentKey| #[trigger]
                final(self).spent@.contains(k) ==> old(self).spent@.contains(k) || k
                    == SpentKey::Tx(id) || (k is Input && is_spendable(k->Input_0)
                    && inputs@.contains(k->Input_0)),
            forall|spender: TxId, input: Input| #[trigger]
                final(self).spender_of_inputs@.contains((spender, input)) <==> (old(self).spender_of_inputs@.contains((spender, input)) || (
                spender == id && is_spendable(input) && inputs@.contains(input))),
    {
        self.remember_all(id, inputs);
        let mut x: usize = 0;
        while x < inputs.len()
            invariant
                x <= inputs.len(),
                self.wf(),
                self.capacity == old(self).capacity,
                self.spent@ == spent_by(old(self).spent@, id, inputs@, old(self).capacity as int),
                self.spender_of_inputs@ == notes_with(
                    old(self).spender_of_inputs@,
                    id,
                    inputs@,
                    x as int,
                ),
                self.spec_is_spent_tx(id),
                forall|k: SpentKey| #[trigger]
                    self.spent@.contains(k) ==> old(self).spent@.contains(k) || k == SpentKey::Tx(
                        id,
                    ) || (k is Input && is_spendable(k->Input_0) && inputs@.contains(
                        k->Input_0,
                    )),
                forall|spender: TxId, input: Input| #[trigger]
                    self.spender_of_inputs@.contains((spender, input)) <==> (old(self).spender_of_inputs@.contains((spender, input)) || (
                    spender == id && is_spendable(input) && inputs@.subrange(0, x as int).contains(
                        input,
                    ))),
            decreases inputs.len() - x,
        {
            let input: Input = inputs[x];
            let spendable: bool = match input {
                Input::Contract { .. } => false,
                _ => true,
            };
            proof {
                assert(inputs@.subrange(0, x + 1) =~= inputs@.subrange(0, x as int).push(input));
                lemma_push_contains(inputs@.subrange(0, x as int), input);
            }
            if spendable {
                proof {
                    lemma_push_contains(self.spender_of_inputs@, (id, input));
                }
                self.spender_of_inputs.push((id, input));
            }
            x += 1;
        }
        proof {
            assert(inputs@.subrange(0, inputs@.len() as int) =~= inputs@);
        }
    }

    /// Forgets what was noted under `id`.
    fn forget_tentative(&mut self, id: TxId)
        ensures
            final(self).capacity == old(self).capacity,
            final(self).spent == old(self).spent,
            final(self).spender_of_inputs@ == notes_without(
                old(self).spender_of_inputs@,
                id,
                old(self).spender_of_inputs@.len() as int,
            ),
            forall|spender: TxId, input: Input| #[trigger]
                final(self).spender_of_inputs@.contains((spender, input)) <==> (old(self).spender_of_inputs@.contains((spender, input))
                    && spender != id),
    {
        let mut kept: Vec<(TxId, Input)> = Vec::new();
        let mut x: usize = 0;
        while x < self.spender_of_inputs.len()
            invariant
                x <= self.spender_of_inputs.len(),
                kept@ == notes_without(self.spender_of_inputs@, id, x as int),
                forall|spender: TxId, input: Input| #[trigger]
                    kept@.contains((spender, input)) <==> (self.spender_of_inputs@.subrange(
                        0,
                        x as int,
                    ).contains((spender, input)) && spender != id),
            decreases self.spender_of_inputs.len() - x,
        {
            let pair: (TxId, Input) = self.spender_of_inputs[x];
            proof {
                assert(self.spender_of_inputs@.subrange(0, x + 1)
                    =~= self.spender_of_inputs@.subrange(0, x as int).push(pair));
                lemma_push_contains(self.spender_of_inputs@.subrange(0, x as int), pair);
            }
            if pair.0 != id {
                proof {
                    lemma_push_contains(kept@, pair);
                }
                kept.push(pair);
            }
            x += 1;
        }
        proof {
            assert(self.spender_of_inputs@.subrange(0, self.spender_of_inputs@.len() as int)
                =~= self.spender_of_inputs@);
        }
        self.spender_of_inputs = kept;
    }

    /// Records a committed spend: `id` and its spendable inputs count as
    /// spent, and nothing noted under `id` can be taken back any more.
    pub fn spend_inputs(&mut self, id: TxId, inputs: &Vec<Input>)
        requires
            old(self).wf(),
        ensures
            final(self).wf(),
            final(self).capacity == old(self).capacity,
            final(self).spent@ == spent_by(
                old(self).spent@,
                id,
                inputs@,
                old(self).capacity as int,
            ),
            final(self).spender_of_inputs@ == notes_without(
                old(self).spender_of_inputs@,
                id,
                old(self).spender_of_inputs@.len() as int,
            ),
            final(self).spec_is_spent_tx(id),
            forall|k: SpentKey| #[trigger]
                final(self).spent@.contains(k) ==> old(self).spent@.contains(k) || k
                    == SpentKey::Tx(id) || (k is Input && is_spendable(k->Input_0)
                    && inputs@.contains(k->Input_0)),
            forall|spender: TxId, input: Input| #[trigger]
                final(self).spender_of_inputs@.contains((spender, input)) <==> (old(self).spender_of_inputs@.contains((spender, input))
                    && spender != id),
    {
        self.forget_tentative(id);
        self.remember_all(id, inputs);
    }

    /// The inputs noted under `id`, in the order in which they were noted.
    fn noted(&self, id: TxId) -> (inputs: Vec<Input>)
        ensures
            forall|input: Input| #[trigger] inputs@.contains(input) <==> self.spender_of_inputs@.contains((id, input)),
            inputs@ == noted_for(
                self.spender_of_inputs@,
                id,
                self.spender_of_inputs@.len() as int,
            ),
    {
        let mut inputs: Vec<Input> = Vec::new();
        let mut x: usize = 0;
        while x < self.spender_of_inputs.len()
            invariant
                x <= self.spender_of_inputs.len(),
                inputs@ == noted_for(self.spender_of_inputs@, id, x as int),
                forall|input: Input| #[trigger]
                    inputs@.contains(input) <==> self.spender_of_inputs@.subrange(
                        0,
                        x as int,
                    ).contains((id, input)),
            decreases self.spender_of_inputs.len() - x,
        {
            let pair: (TxId, Input) = self.spender_of_inputs[x];
            proof {
                assert(self.spender_of_inputs@.subrange(0, x + 1)
                    =~= self.spender_of_inputs@.subrange(0, x as int).push(pair));
                lemma_push_contains(self.spender_of_inputs@.subrange(0, x as int), pair);
            }
            if pair.0 == id {
                proof {
                    lemma_push_contains(inputs@, pair.1);
                }
                inputs.push(pair.1);
            }
            x += 1;
        }
        proof {
            assert(self.spender_of_inputs@.subrange(0, self.spender_of_inputs@.len() as int)
                =~= self.spender_of_inputs@);
        }
        inputs
    }

    /// Turns the tentative spend of `id`, if one is noted, into a committed
    /// one. Without a note nothing changes.
    pub fn spend_inputs_by_tx_id(&mut self, id: TxId)
        requires
            old(self).wf(),
        ensures
            final(self).wf(),
            final(self).capacity == old(self).capacity,
            final(self).spender_of_inputs@ == notes_without(
                old(self).spender_of_inputs@,
                id,
                old(self).spender_of_inputs@.len() as int,
            ),
            final(self).spent@ == ({
                let noted = noted_for(
                    old(self).spender_of_inputs@,
                    id,
                    old(self).spender_of_inputs@.len() as int,
                );
                if noted.len() == 0 {
                    old(self).spent@
                } else {
                    spent_by(old(self).spent@, id, noted, old(self).capacity as int)
                }
            }),
            forall|k: SpentKey| #[trigger]
                final(self).spent@.contains(k) ==> old(self).spent@.contains(k) || k
                    == SpentKey::Tx(id) || (k is Input && old(self).spender_of_inputs@.contains((id, k->Input_0))),
            forall|spender: TxId, input: Input| #[trigger]
                final(self).spender_of_inputs@.contains((spender, input)) <==> (old(self).spender_of_inputs@.contains((spender, input))
                    && spender != id),
    {
        let inputs = self.noted(id);
        self.forget_tentative(id);
        if inputs.len() > 0 {
            self.remember_all(id, &inputs);
        }
    }

    /// Takes back the tentative spend of `id`: neither `id` nor any input
    /// noted under it counts as spent afterwards, and every other key stays.
    pub fn unspend_inputs(&mut self, id: TxId)
        requires
            old(self).wf(),
        ensures
            final(self).wf(),
            final(self).capacity == old(self).capacity,
            final(self).spent@ == keys_without(
                old(self).spent@,
                id,
                old(self).spender_of_inputs@,
                old(self).spent@.len() as int,
            ),
            final(self).spender_of_inputs@ == notes_without(
                old(self).spender_of_inputs@,
                id,
                old(self).spender_of_inputs@.len() as int,
            ),
            forall|k: SpentKey| #[trigger]
                final(self).spent@.contains(k) <==> (old(self).spent@.contains(k) && k
                    != SpentKey::Tx(id) && !(k is Input && old(self).spender_of_inputs@.contains((id, k->Input_0)))),
            forall|spender: TxId, input: Input| #[trigger]
                final(self).spender_of_inputs@.contains((spender, input)) <==> (old(self).spender_of_inputs@.contains((spender, input))
                    && spender != id),
    {
        let inputs = self.noted(id);
        let mut kept: Vec<SpentKey> = Vec::new();
        let mut x: usize = 0;
        while x < self.spent.len()
            invariant
                x <= self.spent.len(),
                *self == *old(self),
                kept@.len() <= x,
                kept@ == keys_without(self.spent@, id, self.spender_of_inputs@, x as int),
                forall|input: Input| #[trigger]
                    inputs@.contains(input) <==> self.spender_of_inputs@.contains((id, input)),
                forall|k: SpentKey| #[trigger]
                    kept@.contains(k) <==> (self.spent@.subrange(0, x as int).contains(k) && k
                        != SpentKey::Tx(id) && !(k is Input && self.spender_of_inputs@.contains((id, k->Input_0)))),
            decreases self.spent.len() - x,
        {
            let key: SpentKey = self.spent[x];
            proof {
                assert(self.spent@.subrange(0, x + 1) =~= self.spent@.subrange(0, x as int).push(
                    key,
                ));
                lemma_push_contains(self.spent@.subrange(0, x as int), key);
            }
            let drop: bool = match key {
                SpentKey::Tx(spender) => spender == id,
                SpentKey::Input(input) => inputs_contain(&inputs, input),
            };
            if !drop {
                proof {
                    lemma_push_contains(kept@, key);
                }
                kept.push(key);
            }
            x += 1;
        }
        proof {
            assert(self.spent@.subrange(0, self.spent@.len() as int) =~= self.spent@);
        }
        self.spent = kept;
        self.forget_tentative(id);
    }
}

/// Whether `input` occurs in `inputs`.
pub fn inputs_contain(inputs: &Vec<Input>, input: Input) -> (found: bool)
    ensures
        found == inputs@.contains(input),
{
    let mut i: usize = 0;
    while i < inputs.len()
        invariant
            i <= inputs.len(),
            forall|x: int| 0 <= x < i ==> inputs@[x] != input,
        decreases inputs.len() - i,
    {
        if inputs[i] == input {
            return true;
        }
        i += 1;
    }
    false
}

} // verus!
