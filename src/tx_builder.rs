//! Payment construction: coin selection, assembly and signing.

use vstd::prelude::*;
use crate::crypto::{ed25519_signature, hex_of, sha256_of, signature_ok};
use crate::encoding::copy_bytes;
use crate::state::{input_key, input_total, output_total, tx_valid, State};
use crate::transaction::{
    lemma_unsigned_inputs, lemma_unsigned_inputs_agree, signing_bytes, unsigned_input_bytes, transaction_bytes, Transaction, TxInput, TxOutput,
};
use crate::utxo::{lemma_entries_unique, lemma_entry_in_model, lemma_owned_members, lemma_owned_unique, lemma_total_prefix, UtxoSet, entry_view, key_view, out_view, owned, total, KeyView, OutPoint, OutView};
use crate::wallet::Wallet;

verus! {

/// Why a payment could not be built.
#[derive(Debug, Clone)]
pub enum TxBuildError {
    /// The owned outputs hold less than the amount and fee together.
    InsufficientFunds { required: u64, available: u64 },
    /// The address owns no unspent output.
    NoUtxos,
    /// Any other failure.
    Internal(String),
}

/// The address of a wallet's key.
pub open spec fn wallet_address(w: Wallet) -> Seq<char> {
    hex_of(sha256_of(w.public_key()).subrange(0, 20))
}

/// How many of the entries, taken in order from position `n` on, are taken
/// before their running total (from the start) reaches `target`; all of them
/// where it never does.
pub open spec fn cover(s: Seq<(KeyView, OutView)>, target: nat, n: nat) -> nat
    decreases s.len() - n,
{
    if n >= s.len() {
        s.len()
    } else if total(s.subrange(0, (n + 1) as int)) >= target {
        n + 1
    } else {
        cover(s, target, n + 1)
    }
}

/// The number of entries that first-fit selection takes.
pub open spec fn selection(s: Seq<(KeyView, OutView)>, target: nat) -> nat {
    cover(s, target, 0)
}

proof fn lemma_cover_bound(s: Seq<(KeyView, OutView)>, target: nat, n: nat)
    ensures
        n < s.len() ==> n < cover(s, target, n) <= s.len(),
        n >= s.len() ==> cover(s, target, n) == s.len(),
    decreases s.len() - n,
{
    if n < s.len() && total(s.subrange(0, (n + 1) as int)) < target {
        lemma_cover_bound(s, target, n + 1);
    }
}

/// The transaction that pays `amount` to `to`: one input for each of the first
/// `n` owned entries, signed by the wallet over the id, then the payment and the
/// change above `target`, if any; the id commits to the unsigned transaction.
pub open spec fn payment_tx(
    own: Seq<(KeyView, OutView)>,
    n: nat,
    total_in: nat,
    target: nat,
    wallet: Wallet,
    to: Seq<char>,
    amount: u64,
    tx: Transaction,
) -> bool {
    &&& tx.inputs@.len() == n
    &&& forall|k: int|
        0 <= k < n ==> {
            &&& input_key(#[trigger] tx.inputs@[k]) == own[k].0
            &&& tx.inputs@[k].public_key@ == wallet.public_key()
            &&& tx.inputs@[k].signature@ == ed25519_signature(wallet.secret_key(), tx.id.0@)
            &&& signature_ok(tx.inputs@[k].public_key@, tx.inputs@[k].signature@, tx.id.0@)
        }
    &&& total_in <= target + u64::MAX
    &&& tx.outputs@.len() >= 1
    &&& out_view(tx.outputs@[0]) == (amount, to)
    &&& total_in > target ==> tx.outputs@.len() == 2 && out_view(tx.outputs@[1]) == (
        (total_in - target) as u64,
        wallet_address(wallet),
    )
    &&& total_in == target ==> tx.outputs@.len() == 1
    &&& tx.id.0@ == sha256_of(signing_bytes(tx))
}

/// What a payment from the owned entries `own` comes to: no entries, too little
/// in all of them, or the payment transaction over the first-fit selection.
pub open spec fn payment_outcome(
    own: Seq<(KeyView, OutView)>,
    target: nat,
    wallet: Wallet,
    to: Seq<char>,
    amount: u64,
    r: Result<Transaction, TxBuildError>,
) -> bool {
    let n = selection(own, target);
    let total_in = total(own.subrange(0, n as int));
    if own.len() == 0 {
        match r {
            Err(TxBuildError::NoUtxos) => true,
            _ => false,
        }
    } else if total_in < target {
        match r {
            Err(TxBuildError::InsufficientFunds { required, available }) => required == target
                && available == total_in,
            _ => false,
        }
    } else {
        match r {
            Ok(tx) => payment_tx(own, n, total_in, target, wallet, to, amount, tx),
            _ => false,
        }
    }
}

/// A built payment spends exactly what its outputs hold plus the fee: the
/// payment, the change and the fee add up to the selected inputs.
pub proof fn lemma_payment_balances(
    own: Seq<(KeyView, OutView)>,
    n: nat,
    total_in: nat,
    amount: u64,
    fee: u64,
    wallet: Wallet,
    to: Seq<char>,
    tx: Transaction,
)
    requires
        payment_tx(own, n, total_in, (amount + fee) as nat, wallet, to, amount, tx),
        total_in >= amount + fee,
        total_in - (amount + fee) <= u64::MAX,
    ensures
        output_total(tx.outputs@) + fee == total_in,
{
    let s = tx.outputs@;
    let target = (amount + fee) as nat;
    if total_in == target {
        assert(s.len() == 1);
        assert(s.drop_last().len() == 0);
        assert(output_total(s) == output_total(s.drop_last()) + s[0].value);
    } else {
        assert(s.len() == 2);
        let first = s.drop_last();
        assert(first.len() == 1 && first[0] == s[0]);
        assert(first.drop_last().len() == 0);
        assert(output_total(first) == output_total(first.drop_last()) + first[0].value);
        assert(output_total(s) == output_total(first) + s[1].value);
    }
}

/// Where everything an address still owns, for instance after its outputs
/// were spent by an applied transaction, holds less than the amount and fee,
/// no payment is built: the outcome is `NoUtxos` or `InsufficientFunds`.
pub proof fn lemma_exhausted_payment_fails(
    own: Seq<(KeyView, OutView)>,
    target: nat,
    wallet: Wallet,
    to: Seq<char>,
    amount: u64,
    r: Result<Transaction, TxBuildError>,
)
    requires
        payment_outcome(own, target, wallet, to, amount, r),
        total(own) < target,
    ensures
        r matches Err(TxBuildError::NoUtxos) || r matches Err(TxBuildError::InsufficientFunds { .. }),
{
    lemma_cover_bound(own, target, 0);
    lemma_total_prefix(own, selection(own, target) as int);
}

proof fn lemma_inputs_spend_selection(
    m: Map<KeyView, OutView>,
    own: Seq<(KeyView, OutView)>,
    inputs: Seq<TxInput>,
    k: int,
)
    requires
        0 <= k <= inputs.len() <= own.len(),
        forall|j: int| 0 <= j < inputs.len() ==> input_key(#[trigger] inputs[j]) == own[j].0,
        forall|j: int| 0 <= j < inputs.len() ==> m[#[trigger] own[j].0] == own[j].1,
    ensures
        input_total(m, inputs.subrange(0, k)) == total(own.subrange(0, k)),
    decreases k,
{
    if k > 0 {
        lemma_inputs_spend_selection(m, own, inputs, k - 1);
        assert(inputs.subrange(0, k).drop_last() =~= inputs.subrange(0, k - 1));
        assert(own.subrange(0, k).drop_last() =~= own.subrange(0, k - 1));
        assert(m[own[k - 1].0] == own[k - 1].1);
        assert(input_key(inputs[k - 1]) == own[k - 1].0);
    }
}

/// A payment built from a set is accepted by the validator against that same
/// set: its inputs are distinct unspent outputs of the wallet, signed by the
/// wallet's key, and they hold the payment, the change and the fee.
pub proof fn lemma_built_payment_accepted(
    u: UtxoSet,
    wallet: Wallet,
    to: Seq<char>,
    amount: u64,
    fee: u64,
    tx: Transaction,
)
    requires
        u.wf(),
        amount + fee <= u64::MAX,
        payment_outcome(owned(u.entries(), wallet_address(wallet)), (amount + fee) as nat, wallet, to, amount, Ok(tx)),
    ensures
        tx_valid(u.model(), tx),
{
    let a = wallet_address(wallet);
    let own = owned(u.entries(), a);
    let target = (amount + fee) as nat;
    let n = selection(own, target);
    let total_in = total(own.subrange(0, n as int));
    let m = u.model();
    lemma_cover_bound(own, target, 0);
    lemma_owned_members(u.entries(), a);
    lemma_entries_unique(u);
    lemma_owned_unique(u.entries(), a);
    assert forall|j: int| 0 <= j < tx.inputs@.len() implies m[#[trigger] own[j].0] == own[j].1
        && m.contains_key(own[j].0) by {
        let i = choose|i: int| 0 <= i < u.entries().len() && u.entries()[i] == own[j];
        lemma_entry_in_model(u, i);
    }
    assert forall|k: int| 0 <= k < tx.inputs@.len() implies crate::state::input_authorized(m, #[trigger] tx.inputs@[k], tx.id.0@) by {
        assert(m.contains_key(own[k].0));
        assert(m[own[k].0] == own[k].1);
        assert(own[k].1.1 == a);
    }
    assert forall|x: int, y: int| 0 <= x < y < tx.inputs@.len() implies input_key(#[trigger] tx.inputs@[x]) != input_key(#[trigger] tx.inputs@[y]) by {
        assert(own[x].0 != own[y].0);
    }
    lemma_inputs_spend_selection(m, own, tx.inputs@, n as int);
    assert(tx.inputs@.subrange(0, n as int) =~= tx.inputs@);
    lemma_payment_balances(own, n, total_in, amount, fee, wallet, to, tx);
}

/// Builds payments from the outputs that a state holds.
pub struct TxBuilder<'a> {
    pub state: &'a State,
}

impl<'a> TxBuilder<'a> {
    pub fn new(state: &'a State) -> (r: TxBuilder<'a>)
        ensures
            r.state == state,
    {
        TxBuilder { state }
    }

    /// Pays `amount` to `to_address` with `fee` left to the block's maker, from
    /// the outputs that the wallet's address owns, taken first-fit in the set's
    /// order; what is over comes back to the wallet as change. Every input is
    /// signed over the transaction id. A wallet that owns nothing gets
    /// `NoUtxos` first; an amount and fee whose sum exceeds the largest amount
    /// get `Internal`.
    pub fn build_payment_tx(&self, wallet: &Wallet, to_address: &str, amount: u64, fee: u64) -> (r:
        Result<Transaction, TxBuildError>)
        requires
            self.state.utxo_set.wf(),
        ensures
            owned(self.state.utxo_set.entries(), wallet_address(*wallet)).len() == 0 ==> (r matches Err(
                TxBuildError::NoUtxos,
            )),
            owned(self.state.utxo_set.entries(), wallet_address(*wallet)).len() > 0 && amount + fee
                > u64::MAX ==> (r matches Err(TxBuildError::Internal(_))),
            amount + fee <= u64::MAX ==> payment_outcome(
                owned(self.state.utxo_set.entries(), wallet_address(*wallet)),
                (amount + fee) as nat,
                *wallet,
                to_address@,
                amount,
                r,
            ),
    {
        let from_address = wallet.address();
        let utxos = self.state.utxo_set.find_unspent(from_address.as_str());
        let ghost own = owned(self.state.utxo_set.entries(), wallet_address(*wallet));
        assert(utxos@.map_values(|e: (OutPoint, TxOutput)| entry_view(e)) == own);
        if utxos.len() == 0 {
            return Err(TxBuildError::NoUtxos);
        }
        if amount > u64::MAX - fee {
            return Err(TxBuildError::Internal("amount plus fee exceeds the largest amount".to_owned()));
        }
        let target: u64 = amount + fee;
        let ghost t = target as nat;

        // First-fit selection.
        let mut total_in: u128 = 0;
        let mut count: usize = 0;
        let mut done = false;
        while count < utxos.len() && !done
            invariant
                own == utxos@.map_values(|e: (OutPoint, TxOutput)| entry_view(e)),
                t == target,
                count <= utxos@.len(),
                total_in == total(own.subrange(0, count as int)),
                done ==> count > 0 && total_in >= target && selection(own, t) == count,
                !done ==> selection(own, t) == cover(own, t, count as nat) && (count > 0 ==> total_in < target),
                total_in <= target as int + u64::MAX as int,
            decreases utxos@.len() - count,
        {
            assert(own.subrange(0, count + 1).drop_last() =~= own.subrange(0, count as int));
            total_in = total_in + utxos[count].1.value as u128;
            count = count + 1;
            if total_in >= target as u128 {
                done = true;
            }
        }
        proof {
            lemma_cover_bound(own, t, count as nat);
        }
        if !done {
            return Err(TxBuildError::InsufficientFunds { required: target, available: total_in as u64 });
        }

        // Inputs, unsigned.
        let public_key = wallet.public_key_bytes();
        let mut inputs: Vec<TxInput> = Vec::new();
        let mut k: usize = 0;
        while k < count
            invariant
                own == utxos@.map_values(|e: (OutPoint, TxOutput)| entry_view(e)),
                k <= count <= utxos@.len(),
                inputs@.len() == k,
                public_key@ == wallet.public_key(),
                forall|a: int|
                    0 <= a < k ==> {
                        &&& input_key(#[trigger] inputs@[a]) == own[a].0
                        &&& inputs@[a].public_key@ == wallet.public_key()
                        &&& inputs@[a].signature@.len() == 0
                    },
            decreases count - k,
        {
            inputs.push(
                TxInput {
                    txid: utxos[k].0.0,
                    index: utxos[k].0.1,
                    signature: Vec::new(),
                    public_key: copy_bytes(public_key.as_slice()),
                },
            );
            k = k + 1;
        }

        // The payment, then the change.
        let mut outputs: Vec<TxOutput> = Vec::new();
        outputs.push(TxOutput { value: amount, address: to_address.to_owned() });
        let change: u64 = (total_in - target as u128) as u64;
        if change > 0 {
            outputs.push(TxOutput { value: change, address: from_address });
        }

        let unsigned = Transaction { id: crate::crypto::Hash::zero(), inputs, outputs };
        let id = unsigned.calculate_hash();
        proof {
            lemma_unsigned_inputs(unsigned.inputs@);
            assert(transaction_bytes(unsigned) =~= signing_bytes(unsigned));
        }
        let id_bytes = id.to_vec();
        let signature = wallet.sign(id_bytes.as_slice());

        // Every input signed over the id.
        let ghost unsigned_copy = unsigned;
        let Transaction { id: _, inputs: bare, outputs } = unsigned;
        let mut signed: Vec<TxInput> = Vec::new();
        let mut k: usize = 0;
        while k < bare.len()
            invariant
                k <= bare@.len(),
                signed@.len() == k,
                forall|a: int|
                    0 <= a < k ==> {
                        &&& (#[trigger] signed@[a]).txid == bare@[a].txid
                        &&& signed@[a].index == bare@[a].index
                        &&& signed@[a].public_key@ == bare@[a].public_key@
                        &&& signed@[a].signature@ == signature@
                    },
            decreases bare@.len() - k,
        {
            signed.push(
                TxInput {
                    txid: bare[k].txid,
                    index: bare[k].index,
                    signature: copy_bytes(signature.as_slice()),
                    public_key: copy_bytes(bare[k].public_key.as_slice()),
                },
            );
            k = k + 1;
        }
        let tx = Transaction { id, inputs: signed, outputs };
        proof {
            assert forall|a: int| 0 <= a < tx.inputs@.len() implies unsigned_input_bytes(#[trigger] tx.inputs@[a]) == unsigned_input_bytes(bare@[a]) by {}
            lemma_unsigned_inputs_agree(tx.inputs@, bare@);
            assert(signing_bytes(tx) =~= signing_bytes(unsigned_copy));
        }
        Ok(tx)
    }
}

} // verus!
