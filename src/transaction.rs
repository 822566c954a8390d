//! Transactions: inputs that spend earlier outputs, and the outputs they create.

use vstd::prelude::*;
use crate::crypto::{sha256, sha256_of};
use crate::encoding::{le_bytes, framed, framed_text, push_le, push_bytes, push_framed, push_text};

verus! {

/// A reference to an earlier output, with the key and signature that claim it.
#[derive(Debug, Clone)]
pub struct TxInput {
    pub txid: crate::crypto::Hash,
    pub index: u32,
    pub signature: Vec<u8>,
    pub public_key: Vec<u8>,
}

/// An amount that the holder of `address` may spend.
#[derive(Debug, Clone)]
pub struct TxOutput {
    pub value: u64,
    pub address: String,
}

/// A value transfer; one without inputs is a coinbase.
#[derive(Debug, Clone)]
pub struct Transaction {
    pub id: crate::crypto::Hash,
    pub inputs: Vec<TxInput>,
    pub outputs: Vec<TxOutput>,
}

/// The canonical bytes of an input.
pub open spec fn input_bytes(i: TxInput) -> Seq<u8> {
    i.txid.0@ + le_bytes(i.index as nat, 4) + framed(i.signature@) + framed(i.public_key@)
}

/// The canonical bytes of an output.
pub open spec fn output_bytes(o: TxOutput) -> Seq<u8> {
    le_bytes(o.value as nat, 8) + framed_text(o.address@)
}

/// The canonical bytes of a list of inputs, without its length.
pub open spec fn inputs_bytes(s: Seq<TxInput>) -> Seq<u8>
    decreases s.len(),
{
    if s.len() == 0 {
        seq![]
    } else {
        inputs_bytes(s.drop_last()) + input_bytes(s.last())
    }
}

/// The canonical bytes of a list of outputs, without its length.
pub open spec fn outputs_bytes(s: Seq<TxOutput>) -> Seq<u8>
    decreases s.len(),
{
    if s.len() == 0 {
        seq![]
    } else {
        outputs_bytes(s.drop_last()) + output_bytes(s.last())
    }
}

/// The canonical bytes of a transaction: its id, then its inputs and outputs,
/// each list behind its length.
pub open spec fn transaction_bytes(tx: Transaction) -> Seq<u8> {
    tx.id.0@ + le_bytes(tx.inputs@.len(), 8) + inputs_bytes(tx.inputs@) + le_bytes(
        tx.outputs@.len(),
        8,
    ) + outputs_bytes(tx.outputs@)
}

/// The digest of a transaction's canonical bytes.
pub open spec fn transaction_hash(tx: Transaction) -> Seq<u8> {
    sha256_of(transaction_bytes(tx))
}

/// The canonical bytes of an input with its signature left empty.
pub open spec fn unsigned_input_bytes(i: TxInput) -> Seq<u8> {
    i.txid.0@ + le_bytes(i.index as nat, 4) + framed(seq![]) + framed(i.public_key@)
}

/// The canonical bytes of a list of inputs with their signatures left empty.
pub open spec fn unsigned_inputs_bytes(s: Seq<TxInput>) -> Seq<u8>
    decreases s.len(),
{
    if s.len() == 0 {
        seq![]
    } else {
        unsigned_inputs_bytes(s.drop_last()) + unsigned_input_bytes(s.last())
    }
}

/// The bytes that a transaction's id commits to: its canonical bytes with the
/// id zeroed and every signature empty.
pub open spec fn signing_bytes(tx: Transaction) -> Seq<u8> {
    crate::crypto::zero_digest() + le_bytes(tx.inputs@.len(), 8) + unsigned_inputs_bytes(tx.inputs@)
        + le_bytes(tx.outputs@.len(), 8) + outputs_bytes(tx.outputs@)
}

/// Where no input carries a signature, the inputs' bytes are their unsigned bytes.
pub proof fn lemma_unsigned_inputs(s: Seq<TxInput>)
    requires
        forall|k: int| 0 <= k < s.len() ==> (#[trigger] s[k]).signature@.len() == 0,
    ensures
        inputs_bytes(s) == unsigned_inputs_bytes(s),
    decreases s.len(),
{
    if s.len() > 0 {
        lemma_unsigned_inputs(s.drop_last());
        assert(s.last().signature@ =~= seq![]);
    }
}

/// Inputs that agree but for their signatures have the same unsigned bytes.
pub proof fn lemma_unsigned_inputs_agree(a: Seq<TxInput>, b: Seq<TxInput>)
    requires
        a.len() == b.len(),
        forall|k: int|
            0 <= k < a.len() ==> unsigned_input_bytes(#[trigger] a[k]) == unsigned_input_bytes(b[k]),
    ensures
        unsigned_inputs_bytes(a) == unsigned_inputs_bytes(b),
    decreases a.len(),
{
    if a.len() > 0 {
        lemma_unsigned_inputs_agree(a.drop_last(), b.drop_last());
        assert(unsigned_input_bytes(a[a.len() - 1]) == unsigned_input_bytes(b[a.len() - 1]));
    }
}

impl TxInput {
    /// Appends this input's canonical bytes.
    pub fn encode_into(&self, out: &mut Vec<u8>)
        ensures
            final(out)@ == old(out)@ + input_bytes(*self),
    {
        push_bytes(out, &self.txid.0);
        push_le(out, self.index as u128, 4);
        push_framed(out, self.signature.as_slice());
        push_framed(out, self.public_key.as_slice());
        assert(final(out)@ =~= old(out)@ + input_bytes(*self));
    }
}

impl TxOutput {
    /// Appends this output's canonical bytes.
    pub fn encode_into(&self, out: &mut Vec<u8>)
        ensures
            final(out)@ == old(out)@ + output_bytes(*self),
    {
        push_le(out, self.value as u128, 8);
        push_text(out, self.address.as_str());
        assert(final(out)@ =~= old(out)@ + output_bytes(*self));
    }

    /// A copy of this output.
    pub fn copy(&self) -> (r: TxOutput)
        ensures
            r.value == self.value,
            r.address@ == self.address@,
    {
        TxOutput { value: self.value, address: self.address.clone() }
    }
}

impl Transaction {
    /// The canonical bytes of this transaction.
    pub fn encode(&self) -> (r: Vec<u8>)
        ensures
            r@ == transaction_bytes(*self),
    {
        let mut out: Vec<u8> = Vec::new();
        push_bytes(&mut out, &self.id.0);
        push_le(&mut out, self.inputs.len() as u128, 8);
        let ghost head = out@;
        let mut i: usize = 0;
        while i < self.inputs.len()
            invariant
                i <= self.inputs@.len(),
                out@ == head + inputs_bytes(self.inputs@.subrange(0, i as int)),
            decreases self.inputs@.len() - i,
        {
            self.inputs[i].encode_into(&mut out);
            assert(self.inputs@.subrange(0, i + 1).drop_last() =~= self.inputs@.subrange(0, i as int));
            i = i + 1;
            assert(out@ =~= head + inputs_bytes(self.inputs@.subrange(0, i as int)));
        }
        assert(self.inputs@.subrange(0, i as int) =~= self.inputs@);
        push_le(&mut out, self.outputs.len() as u128, 8);
        let ghost mid = out@;
        let mut j: usize = 0;
        while j < self.outputs.len()
            invariant
                j <= self.outputs@.len(),
                out@ == mid + outputs_bytes(self.outputs@.subrange(0, j as int)),
            decreases self.outputs@.len() - j,
        {
            self.outputs[j].encode_into(&mut out);
            assert(self.outputs@.subrange(0, j + 1).drop_last() =~= self.outputs@.subrange(0, j as int));
            j = j + 1;
            assert(out@ =~= mid + outputs_bytes(self.outputs@.subrange(0, j as int)));
        }
        assert(self.outputs@.subrange(0, j as int) =~= self.outputs@);
        assert(out@ =~= transaction_bytes(*self));
        out
    }

    /// The digest of this transaction's canonical bytes.
    pub fn calculate_hash(&self) -> (r: crate::crypto::Hash)
        ensures
            r.0@ == transaction_hash(*self),
    {
        let bytes = self.encode();
        sha256(bytes.as_slice())
    }

    /// A coinbase transaction is one without inputs.
    pub fn is_coinbase(&self) -> (r: bool)
        ensures
            r == (self.inputs@.len() == 0),
    {
        self.inputs.len() == 0
    }
}

} // verus!
