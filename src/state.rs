//! Acceptance of transactions against the ledger's unspent outputs.

use vstd::prelude::*;
use crate::crypto::{signature_ok, verify_signature};
use crate::transaction::{Transaction, TxInput, TxOutput};
use crate::utxo::{KeyView, OutView, UtxoSet};
use crate::wallet::{address_from_public_key_bytes, address_of};

verus! {

/// Why a transaction was refused.
#[derive(Debug, Clone, Copy, PartialEq, Eq, Structural)]
pub enum Rejection {
    /// Two inputs name the same output.
    DoubleReference,
    /// An input names an output that is not unspent.
    UnknownUtxo,
    /// An input's key does not derive the spent output's address.
    AddressMismatch,
    /// An input's signature does not verify the transaction id.
    BadSignature,
    /// The outputs hold more than the inputs spend.
    ValueMismatch,
}

/// The outpoint that an input spends.
pub open spec fn input_key(i: TxInput) -> KeyView {
    (i.txid.0@, i.index)
}

/// No two inputs name the same output.
pub open spec fn distinct_inputs(s: Seq<TxInput>) -> bool {
    forall|a: int, b: int|
        0 <= a < b < s.len() ==> input_key(#[trigger] s[a]) != input_key(#[trigger] s[b])
}

/// The input names an unspent output, its key derives that output's address,
/// and its signature verifies the transaction id.
pub open spec fn input_authorized(m: Map<KeyView, OutView>, i: TxInput, id: Seq<u8>) -> bool {
    m.contains_key(input_key(i)) && address_of(i.public_key@) == Some(m[input_key(i)].1)
        && signature_ok(i.public_key@, i.signature@, id)
}

/// The amounts of the outputs that the inputs spend.
pub open spec fn input_total(m: Map<KeyView, OutView>, s: Seq<TxInput>) -> nat
    decreases s.len(),
{
    if s.len() == 0 {
        0
    } else {
        input_total(m, s.drop_last()) + m[input_key(s.last())].0 as nat
    }
}

/// The amounts of the outputs.
pub open spec fn output_total(s: Seq<TxOutput>) -> nat
    decreases s.len(),
{
    if s.len() == 0 {
        0
    } else {
        output_total(s.drop_last()) + s.last().value as nat
    }
}

/// Every input is authorized and names a distinct output.
pub open spec fn inputs_authorized(m: Map<KeyView, OutView>, tx: Transaction) -> bool {
    distinct_inputs(tx.inputs@) && forall|k: int|
        0 <= k < tx.inputs@.len() ==> input_authorized(m, #[trigger] tx.inputs@[k], tx.id.0@)
}

/// Acceptance: a coinbase always; otherwise authorized inputs that spend at
/// least what the outputs hold.
pub open spec fn tx_valid(m: Map<KeyView, OutView>, tx: Transaction) -> bool {
    tx.inputs@.len() == 0 || (inputs_authorized(m, tx) && input_total(m, tx.inputs@)
        >= output_total(tx.outputs@))
}

proof fn lemma_sum_bound(sum: u128, n: int, v: u64)
    requires
        sum <= n * (u64::MAX as int),
        0 <= n < u64::MAX,
    ensures
        sum + v <= (n + 1) * (u64::MAX as int),
        (n + 1) * (u64::MAX as int) < u128::MAX,
{
    assert((n + 1) * (u64::MAX as int) <= (u64::MAX as int) * (u64::MAX as int)) by (nonlinear_arith)
        requires
            0 <= n < u64::MAX,
    ;
}

/// An accepted transaction with inputs creates no value: its outputs hold at
/// most what its inputs spend.
pub proof fn lemma_accepted_conserves_value(m: Map<KeyView, OutView>, tx: Transaction)
    requires
        tx_valid(m, tx),
        tx.inputs@.len() > 0,
    ensures
        output_total(tx.outputs@) <= input_total(m, tx.inputs@),
{
}

/// A transaction with an input whose signature does not verify the id under
/// that input's key is refused, whatever else it holds; so a valid
/// transaction whose signature bytes are altered to ones that do not verify is
/// refused.
pub proof fn lemma_bad_signature_rejected(m: Map<KeyView, OutView>, tx: Transaction, k: int)
    requires
        0 <= k < tx.inputs@.len(),
        !signature_ok(tx.inputs@[k].public_key@, tx.inputs@[k].signature@, tx.id.0@),
    ensures
        !tx_valid(m, tx),
{
    assert(!input_authorized(m, tx.inputs@[k], tx.id.0@));
}

/// A transaction with an input whose key does not derive the spent output's
/// address is refused, whether or not its signature verifies under that key.
pub proof fn lemma_foreign_key_rejected(m: Map<KeyView, OutView>, tx: Transaction, k: int)
    requires
        0 <= k < tx.inputs@.len(),
        address_of(tx.inputs@[k].public_key@) != Some(m[input_key(tx.inputs@[k])].1),
    ensures
        !tx_valid(m, tx),
{
    assert(!input_authorized(m, tx.inputs@[k], tx.id.0@));
}

/// A transaction without inputs is accepted, whatever its outputs hold.
pub proof fn lemma_coinbase_accepted(m: Map<KeyView, OutView>, tx: Transaction)
    requires
        tx.inputs@.len() == 0,
    ensures
        tx_valid(m, tx),
{
}

/// The ledger's state as seen by the validator.
pub struct State {
    pub utxo_set: UtxoSet,
}

impl State {
    /// Checks a transaction against the unspent outputs and names the first
    /// failure met; inputs are checked in order, the amounts last.
    pub fn check_transaction(&self, tx: &Transaction) -> (r: Result<(), Rejection>)
        requires
            self.utxo_set.wf(),
        ensures
            r is Ok <==> tx_valid(self.utxo_set.model(), *tx),
            r == Err::<(), Rejection>(Rejection::DoubleReference) ==> !distinct_inputs(tx.inputs@),
            r == Err::<(), Rejection>(Rejection::UnknownUtxo) ==> exists|k: int|
                0 <= k < tx.inputs@.len() && !self.utxo_set.model().contains_key(
                    input_key(#[trigger] tx.inputs@[k]),
                ),
            r == Err::<(), Rejection>(Rejection::AddressMismatch) ==> exists|k: int|
                0 <= k < tx.inputs@.len() && self.utxo_set.model().contains_key(
                    input_key(#[trigger] tx.inputs@[k]),
                ) && address_of(tx.inputs@[k].public_key@) != Some(
                    self.utxo_set.model()[input_key(tx.inputs@[k])].1,
                ),
            r == Err::<(), Rejection>(Rejection::BadSignature) ==> exists|k: int|
                0 <= k < tx.inputs@.len() && !signature_ok(
                    #[trigger] tx.inputs@[k].public_key@,
                    tx.inputs@[k].signature@,
                    tx.id.0@,
                ),
            r == Err::<(), Rejection>(Rejection::ValueMismatch) ==> inputs_authorized(
                self.utxo_set.model(),
                *tx,
            ) && input_total(self.utxo_set.model(), tx.inputs@) < output_total(tx.outputs@),
    {
        let ghost m = self.utxo_set.model();
        if tx.is_coinbase() {
            return Ok(());
        }
        let id = tx.id.to_vec();
        let mut input_sum: u128 = 0;
        let mut i: usize = 0;
        while i < tx.inputs.len()
            invariant
                m == self.utxo_set.model(),
                self.utxo_set.wf(),
                id@ == tx.id.0@,
                i <= tx.inputs@.len(),
                distinct_inputs(tx.inputs@.subrange(0, i as int)),
                forall|k: int| 0 <= k < i ==> input_authorized(m, #[trigger] tx.inputs@[k], tx.id.0@),
                input_sum == input_total(m, tx.inputs@.subrange(0, i as int)),
                input_sum <= i * (u64::MAX as int),
            decreases tx.inputs@.len() - i,
        {
            let input = &tx.inputs[i];
            let mut j: usize = 0;
            while j < i
                invariant
                    j <= i < tx.inputs@.len(),
                    *input == tx.inputs@[i as int],
                    forall|a: int| 0 <= a < j ==> input_key(#[trigger] tx.inputs@[a]) != input_key(*input),
                decreases i - j,
            {
                let earlier = &tx.inputs[j];
                if earlier.index == input.index && earlier.txid.equals(&input.txid) {
                    assert(input_key(tx.inputs@[j as int]) == input_key(tx.inputs@[i as int]));
                    return Err(Rejection::DoubleReference);
                }
                j = j + 1;
            }
            let utxo = match self.utxo_set.get(&input.txid, input.index) {
                Some(u) => u,
                None => {
                    assert(!m.contains_key(input_key(tx.inputs@[i as int])));
                    return Err(Rejection::UnknownUtxo);
                },
            };
            let derived = match address_from_public_key_bytes(input.public_key.as_slice()) {
                Some(a) => a,
                None => {
                    assert(m.contains_key(input_key(tx.inputs@[i as int])));
                    return Err(Rejection::AddressMismatch);
                },
            };
            if derived != utxo.address {
                assert(m.contains_key(input_key(tx.inputs@[i as int])));
                return Err(Rejection::AddressMismatch);
            }
            if !verify_signature(input.public_key.as_slice(), input.signature.as_slice(), id.as_slice()) {
                assert(!signature_ok(tx.inputs@[i as int].public_key@, tx.inputs@[i as int].signature@, tx.id.0@));
                return Err(Rejection::BadSignature);
            }
            proof {
                lemma_sum_bound(input_sum, i as int, utxo.value);
                assert(tx.inputs@.subrange(0, i + 1).drop_last() =~= tx.inputs@.subrange(0, i as int));
                let s = tx.inputs@.subrange(0, i + 1);
                assert forall|a: int, b: int| 0 <= a < b < s.len() implies input_key(#[trigger] s[a]) != input_key(#[trigger] s[b]) by {
                    if b < i {
                        assert(s[a] == tx.inputs@.subrange(0, i as int)[a]);
                        assert(s[b] == tx.inputs@.subrange(0, i as int)[b]);
                    }
                }
            }
            input_sum = input_sum + utxo.value as u128;
            i = i + 1;
        }
        assert(tx.inputs@.subrange(0, i as int) =~= tx.inputs@);
        let mut output_sum: u128 = 0;
        let mut j: usize = 0;
        while j < tx.outputs.len()
            invariant
                j <= tx.outputs@.len(),
                output_sum == output_total(tx.outputs@.subrange(0, j as int)),
                output_sum <= j * (u64::MAX as int),
            decreases tx.outputs@.len() - j,
        {
            proof {
                lemma_sum_bound(output_sum, j as int, tx.outputs@[j as int].value);
                assert(tx.outputs@.subrange(0, j + 1).drop_last() =~= tx.outputs@.subrange(0, j as int));
            }
            output_sum = output_sum + tx.outputs[j].value as u128;
            j = j + 1;
        }
        assert(tx.outputs@.subrange(0, j as int) =~= tx.outputs@);
        if input_sum >= output_sum {
            Ok(())
        } else {
            Err(Rejection::ValueMismatch)
        }
    }

    /// Whether the transaction is accepted; nothing is changed.
    pub fn validate_transaction(&self, tx: &Transaction) -> (r: bool)
        requires
            self.utxo_set.wf(),
        ensures
            r == tx_valid(self.utxo_set.model(), *tx),
    {
        self.check_transaction(tx).is_ok()
    }
}

} // verus!
