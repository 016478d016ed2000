//! Whether the inputs of a candidate exist and are unspent.

use vstd::prelude::*;
use crate::txpool::error::InputValidationError;
use crate::txpool::extracted_outputs::ExtractedOutputs;
use crate::txpool::spent_inputs::{inputs_contain, is_spendable, SpentInputs};
use crate::txpool::storage::{holds_id, live, Slots, Storage};
use crate::txpool::types::{Input, PoolTx};

verus! {

/// What the persistent state says of one candidate: read before admission.
pub struct PersistentFacts {
    /// The transaction is committed already.
    pub contains_tx: bool,
    /// The blob that the transaction carries exists already.
    pub blob_exists: bool,
    /// The inputs of the transaction that the persistent state provides.
    pub known_inputs: Vec<Input>,
}

/// Whether the pooled transaction that `input` names has such an output.
pub open spec fn pooled_output(s: Slots, input: Input) -> bool {
    exists|q: int|
        live(s, q) && (#[trigger] s[q]).unwrap().transaction.id == input->Coin_tx_id
            && input->Coin_output_index < s[q].unwrap().transaction.outputs@.len()
}

/// Why `input` is refused, if it is. A spent input is refused. A coin made
/// by a pooled transaction must be one of its outputs. Any other input must
/// be an output of an extracted transaction or known to the persistent
/// state, unless the persistent state is not consulted.
pub open spec fn input_verdict(
    s: Slots,
    input: Input,
    persistent: PersistentFacts,
    extracted: ExtractedOutputs,
    spent: SpentInputs,
    utxo_validation: bool,
) -> Option<InputValidationError> {
    if is_spendable(input) && spent.spec_is_spent_input(input) {
        Some(InputValidationError::InputSpent(input))
    } else if input is Coin && holds_id(s, input->Coin_tx_id) {
        if pooled_output(s, input) {
            None
        } else {
            Some(InputValidationError::UnknownInput(input))
        }
    } else if input is Coin && extracted.spec_contains(
        input->Coin_tx_id,
        input->Coin_output_index,
    ) {
        None
    } else if !utxo_validation || persistent.known_inputs@.contains(input) {
        None
    } else {
        Some(InputValidationError::UnknownInput(input))
    }
}

impl Storage {
    /// Why `input` is refused, if it is.
    pub fn validate_input(
        &self,
        input: Input,
        persistent: &PersistentFacts,
        extracted: &ExtractedOutputs,
        spent: &SpentInputs,
        utxo_validation: bool,
    ) -> (verdict: Option<InputValidationError>)
        requires
            self.wf(),
        ensures
            verdict == input_verdict(
                self@,
                input,
                *persistent,
                *extracted,
                *spent,
                utxo_validation,
            ),
    {
        let spendable: bool = match input {
            Input::Contract { .. } => false,
            _ => true,
        };
        if spendable && spent.is_spent_input(input) {
            return Some(InputValidationError::InputSpent(input));
        }
        match input {
            Input::Coin { tx_id, output_index } => {
                match self.find(tx_id) {
                    Some(q) => {
                        let parent = self.get(q).unwrap();
                        let found: bool = (output_index as usize) < parent.transaction.outputs.len();
                        proof {
                            if pooled_output(self@, input) {
                                let w = choose|w: int|
                                    live(self@, w) && (#[trigger] self@[w]).unwrap().transaction.id
                                        == tx_id && output_index
                                        < self@[w].unwrap().transaction.outputs@.len();
                                assert(w == q);
                            }
                        }
                        if found {
                            return None;
                        } else {
                            return Some(InputValidationError::UnknownInput(input));
                        }
                    },
                    None => {
                        if extracted.contains(tx_id, output_index) {
                            return None;
                        }
                    },
                }
            },
            _ => {},
        }
        if !utxo_validation || inputs_contain(&persistent.known_inputs, input) {
            None
        } else {
            Some(InputValidationError::UnknownInput(input))
        }
    }

    /// Checks the inputs of `tx` in their order and reports the first that
    /// is refused.
    pub fn validate_inputs(
        &self,
        tx: &PoolTx,
        persistent: &PersistentFacts,
        extracted: &ExtractedOutputs,
        spent: &SpentInputs,
        utxo_validation: bool,
    ) -> (res: Result<(), InputValidationError>)
        requires
            self.wf(),
        ensures
            res == first_refusal(self@, *tx, *persistent, *extracted, *spent, utxo_validation),
    {
        let mut x: usize = 0;
        while x < tx.inputs.len()
            invariant
                x <= tx.inputs.len(),
                self.wf(),
                first_refusal_from(
                    self@,
                    *tx,
                    *persistent,
                    *extracted,
                    *spent,
                    utxo_validation,
                    x as int,
                ) == first_refusal(self@, *tx, *persistent, *extracted, *spent, utxo_validation),
            decreases tx.inputs.len() - x,
        {
            match self.validate_input(tx.inputs[x], persistent, extracted, spent, utxo_validation) {
                Some(e) => {
                    return Err(e);
                },
                None => {},
            }
            x += 1;
        }
        Ok(())
    }
}

/// The refusal of the first refused input of `tx` from position `from` on.
pub open spec fn first_refusal_from(
    s: Slots,
    tx: PoolTx,
    persistent: PersistentFacts,
    extracted: ExtractedOutputs,
    spent: SpentInputs,
    utxo_validation: bool,
    from: int,
) -> Result<(), InputValidationError>
    decreases tx.inputs@.len() - from,
{
    if from < 0 || from >= tx.inputs@.len() {
        Ok(())
    } else {
        match input_verdict(s, tx.inputs@[from], persistent, extracted, spent, utxo_validation) {
            Some(e) => Err(e),
            None => first_refusal_from(
                s,
                tx,
                persistent,
                extracted,
                spent,
                utxo_validation,
                from + 1,
            ),
        }
    }
}

/// The refusal of the first refused input of `tx`, if any is refused.
pub open spec fn first_refusal(
    s: Slots,
    tx: PoolTx,
    persistent: PersistentFacts,
    extracted: ExtractedOutputs,
    spent: SpentInputs,
    utxo_validation: bool,
) -> Result<(), InputValidationError> {
    first_refusal_from(s, tx, persistent, extracted, spent, utxo_validation, 0)
}

} // verus!
