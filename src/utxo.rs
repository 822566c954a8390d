//! The set of unspent transaction outputs, keyed by the output that created them.

use vstd::prelude::*;
use crate::transaction::{Transaction, TxOutput};
use crate::encoding::{le_bytes, push_bytes, push_le, text_eq};
use crate::transaction::output_bytes;

verus! {

/// Names an output: the id of the transaction that created it and its position there.
pub type OutPoint = (crate::crypto::Hash, u32);

/// An outpoint as plain values.
pub type KeyView = (Seq<u8>, u32);

/// An output as plain values: its amount and its owner's address.
pub type OutView = (u64, Seq<char>);

pub open spec fn key_view(k: OutPoint) -> KeyView {
    (k.0.0@, k.1)
}

pub open spec fn out_view(o: TxOutput) -> OutView {
    (o.value, o.address@)
}

pub open spec fn entry_view(e: (OutPoint, TxOutput)) -> (KeyView, OutView) {
    (key_view(e.0), out_view(e.1))
}

/// No outpoint occurs twice.
pub open spec fn keys_unique(s: Seq<(OutPoint, TxOutput)>) -> bool {
    forall|i: int, j: int|
        0 <= i < s.len() && 0 <= j < s.len() && i != j ==> key_view(#[trigger] s[i].0) != key_view(
            #[trigger] s[j].0,
        )
}

pub open spec fn has_key(s: Seq<(OutPoint, TxOutput)>, k: KeyView) -> bool {
    exists|i: int| 0 <= i < s.len() && key_view(#[trigger] s[i].0) == k
}

/// The entries as a map from outpoint to output.
pub open spec fn entries_map(s: Seq<(OutPoint, TxOutput)>) -> Map<KeyView, OutView> {
    Map::new(
        |k: KeyView| has_key(s, k),
        |k: KeyView| out_view(s[choose|i: int| 0 <= i < s.len() && key_view(#[trigger] s[i].0) == k].1),
    )
}

/// Whether one of the inputs spends the outpoint.
pub open spec fn spends(tx: Transaction, k: KeyView) -> bool {
    exists|j: int|
        0 <= j < tx.inputs@.len() && (#[trigger] tx.inputs@[j].txid.0@, tx.inputs@[j].index) == k
}

/// Whether the transaction creates the outpoint.
pub open spec fn creates(tx: Transaction, k: KeyView) -> bool {
    k.0 == tx.id.0@ && (k.1 as int) < tx.outputs@.len()
}

/// The set after a transaction: what its inputs name is gone, then each of its
/// outputs stands under `(id, position)`.
pub open spec fn apply_tx(m: Map<KeyView, OutView>, tx: Transaction) -> Map<KeyView, OutView> {
    Map::new(
        |k: KeyView| creates(tx, k) || (m.contains_key(k) && !spends(tx, k)),
        |k: KeyView|
            if creates(tx, k) {
                out_view(tx.outputs@[k.1 as int])
            } else {
                m[k]
            },
    )
}

/// The set after each transaction in turn.
pub open spec fn apply_txs(m: Map<KeyView, OutView>, txs: Seq<Transaction>) -> Map<
    KeyView,
    OutView,
>
    decreases txs.len(),
{
    if txs.len() == 0 {
        m
    } else {
        apply_tx(apply_txs(m, txs.drop_last()), txs.last())
    }
}

/// The entries that an address owns, in order.
pub open spec fn owned(s: Seq<(KeyView, OutView)>, address: Seq<char>) -> Seq<(KeyView, OutView)>
    decreases s.len(),
{
    if s.len() == 0 {
        seq![]
    } else if s.last().1.1 == address {
        owned(s.drop_last(), address).push(s.last())
    } else {
        owned(s.drop_last(), address)
    }
}

/// The sum of the amounts.
pub open spec fn total(s: Seq<(KeyView, OutView)>) -> nat
    decreases s.len(),
{
    if s.len() == 0 {
        0
    } else {
        total(s.drop_last()) + s.last().1.0 as nat
    }
}

/// Whether one of the first `n` inputs spends the outpoint.
pub open spec fn spends_before(tx: Transaction, n: int, k: KeyView) -> bool {
    exists|j: int| 0 <= j < n && (#[trigger] tx.inputs@[j].txid.0@, tx.inputs@[j].index) == k
}

/// Whether one of the first `n` outputs stands under the outpoint.
pub open spec fn creates_before(tx: Transaction, n: int, k: KeyView) -> bool {
    k.0 == tx.id.0@ && (k.1 as int) < n
}

/// A transaction whose every output position fits the 32-bit index.
pub open spec fn indexable(tx: Transaction) -> bool {
    tx.outputs@.len() <= u32::MAX as int + 1
}

/// The canonical bytes of an entry: the outpoint, then the output.
pub open spec fn entry_bytes(e: (OutPoint, TxOutput)) -> Seq<u8> {
    e.0.0.0@ + le_bytes(e.0.1 as nat, 4) + output_bytes(e.1)
}

/// The canonical bytes of a list of entries, without its length.
pub open spec fn entries_bytes(s: Seq<(OutPoint, TxOutput)>) -> Seq<u8>
    decreases s.len(),
{
    if s.len() == 0 {
        seq![]
    } else {
        entries_bytes(s.drop_last()) + entry_bytes(s.last())
    }
}

/// The canonical bytes of a set: its entries, in order, behind their count.
pub open spec fn utxo_set_bytes(u: UtxoSet) -> Seq<u8> {
    le_bytes(u.utxos@.len(), 8) + entries_bytes(u.utxos@)
}

proof fn lemma_map_at(s: Seq<(OutPoint, TxOutput)>, i: int)
    requires
        keys_unique(s),
        0 <= i < s.len(),
    ensures
        entries_map(s).contains_key(key_view(s[i].0)),
        entries_map(s)[key_view(s[i].0)] == out_view(s[i].1),
{
    let k = key_view(s[i].0);
    assert(has_key(s, k));
    let j = choose|j: int| 0 <= j < s.len() && key_view(#[trigger] s[j].0) == k;
    assert(i == j);
}

/// The unspent outputs; an outpoint occurs at most once.
#[derive(Debug)]
pub struct UtxoSet {
    pub utxos: Vec<(OutPoint, TxOutput)>,
}

impl UtxoSet {
    pub open spec fn wf(&self) -> bool {
        keys_unique(self.utxos@)
    }

    /// The set as a map from outpoint to output.
    pub open spec fn model(&self) -> Map<KeyView, OutView> {
        entries_map(self.utxos@)
    }

    /// The entries as plain values, in the set's order.
    pub open spec fn entries(&self) -> Seq<(KeyView, OutView)> {
        self.utxos@.map_values(|e: (OutPoint, TxOutput)| entry_view(e))
    }

    /// An empty set.
    pub fn new() -> (r: UtxoSet)
        ensures
            r.wf(),
            r.model() == Map::<KeyView, OutView>::empty(),
            r.entries().len() == 0,
    {
        let r = UtxoSet { utxos: Vec::new() };
        assert(r.model() =~= Map::<KeyView, OutView>::empty());
        r
    }

    /// The position of an outpoint, if present.
    pub fn position(&self, txid: &crate::crypto::Hash, index: u32) -> (r: Option<usize>)
        ensures
            match r {
                Some(p) => p < self.utxos@.len() && key_view(self.utxos@[p as int].0) == (
                    txid.0@,
                    index,
                ),
                None => !has_key(self.utxos@, (txid.0@, index)),
            },
    {
        let mut i: usize = 0;
        while i < self.utxos.len()
            invariant
                i <= self.utxos@.len(),
                forall|j: int| 0 <= j < i ==> key_view(#[trigger] self.utxos@[j].0) != (txid.0@, index),
            decreases self.utxos@.len() - i,
        {
            if self.utxos[i].0.1 == index && self.utxos[i].0.0.equals(txid) {
                return Some(i);
            }
            i = i + 1;
        }
        None
    }

    /// The output stored under an outpoint, if any.
    pub fn get(&self, txid: &crate::crypto::Hash, index: u32) -> (r: Option<&TxOutput>)
        requires
            self.wf(),
        ensures
            match r {
                Some(o) => self.model().contains_key((txid.0@, index)) && self.model()[(txid.0@, index)] == out_view(*o),
                None => !self.model().contains_key((txid.0@, index)),
            },
    {
        match self.position(txid, index) {
            Some(p) => {
                proof {
                    lemma_map_at(self.utxos@, p as int);
                }
                Some(&self.utxos[p].1)
            },
            None => None,
        }
    }

    /// Stores an output under an outpoint, replacing what was there.
    pub fn insert(&mut self, key: OutPoint, output: TxOutput)
        requires
            old(self).wf(),
        ensures
            final(self).wf(),
            final(self).model() == old(self).model().insert(key_view(key), out_view(output)),
    {
        let ghost s0 = self.utxos@;
        let ghost k = key_view(key);
        match self.position(&key.0, key.1) {
            Some(p) => {
                self.utxos.set(p, (key, output));
                let ghost s1 = self.utxos@;
                assert(keys_unique(s1));
                assert forall|kk: KeyView| #[trigger] has_key(s1, kk) == (kk == k || has_key(s0, kk)) by {
                    if has_key(s0, kk) {
                        let i = choose|i: int| 0 <= i < s0.len() && key_view(#[trigger] s0[i].0) == kk;
                        assert(key_view(s1[i].0) == kk);
                    }
                    if kk == k {
                        assert(key_view(s1[p as int].0) == kk);
                    }
                }
                assert forall|kk: KeyView| #[trigger] entries_map(s1).contains_key(kk) implies entries_map(s1)[kk] == entries_map(s0).insert(k, out_view(output))[kk] by {
                    let i = choose|i: int| 0 <= i < s1.len() && key_view(#[trigger] s1[i].0) == kk;
                    lemma_map_at(s1, i);
                    if i != p {
                        lemma_map_at(s0, i);
                    }
                }
                assert(entries_map(s1) =~= entries_map(s0).insert(k, out_view(output)));
            },
            None => {
                self.utxos.push((key, output));
                let ghost s1 = self.utxos@;
                assert(keys_unique(s1));
                assert forall|kk: KeyView| #[trigger] has_key(s1, kk) == (kk == k || has_key(s0, kk)) by {
                    if has_key(s0, kk) {
                        let i = choose|i: int| 0 <= i < s0.len() && key_view(#[trigger] s0[i].0) == kk;
                        assert(key_view(s1[i].0) == kk);
                    }
                    if kk == k {
                        assert(key_view(s1[s0.len() as int].0) == kk);
                    }
                }
                assert forall|kk: KeyView| #[trigger] entries_map(s1).contains_key(kk) implies entries_map(s1)[kk] == entries_map(s0).insert(k, out_view(output))[kk] by {
                    let i = choose|i: int| 0 <= i < s1.len() && key_view(#[trigger] s1[i].0) == kk;
                    lemma_map_at(s1, i);
                    if i < s0.len() {
                        lemma_map_at(s0, i);
                    }
                }
                assert(entries_map(s1) =~= entries_map(s0).insert(k, out_view(output)));
            },
        }
    }

    /// Drops the output stored under an outpoint; nothing happens where there is none.
    pub fn remove(&mut self, txid: &crate::crypto::Hash, index: u32)
        requires
            old(self).wf(),
        ensures
            final(self).wf(),
            final(self).model() == old(self).model().remove((txid.0@, index)),
    {
        let ghost s0 = self.utxos@;
        let ghost k = (txid.0@, index);
        match self.position(txid, index) {
            Some(p) => {
                self.utxos.remove(p);
                let ghost s1 = self.utxos@;
                assert forall|i: int| 0 <= i < s1.len() implies #[trigger] s1[i] == (if i < p { s0[i] } else { s0[i + 1] }) by {}
                assert(keys_unique(s1));
                assert forall|kk: KeyView| #[trigger] has_key(s1, kk) == (kk != k && has_key(s0, kk)) by {
                    if has_key(s0, kk) && kk != k {
                        let i = choose|i: int| 0 <= i < s0.len() && key_view(#[trigger] s0[i].0) == kk;
                        if i < p {
                            assert(key_view(s1[i].0) == kk);
                        } else {
                            assert(i != p);
                            assert(key_view(s1[i - 1].0) == kk);
                        }
                    }
                    if has_key(s1, kk) {
                        let i = choose|i: int| 0 <= i < s1.len() && key_view(#[trigger] s1[i].0) == kk;
                        if i < p {
                            assert(key_view(s0[i].0) == kk);
                        } else {
                            assert(key_view(s0[i + 1].0) == kk);
                        }
                    }
                }
                assert forall|kk: KeyView| #[trigger] entries_map(s1).contains_key(kk) implies entries_map(s1)[kk] == entries_map(s0).remove(k)[kk] by {
                    let i = choose|i: int| 0 <= i < s1.len() && key_view(#[trigger] s1[i].0) == kk;
                    lemma_map_at(s1, i);
                    if i < p {
                        lemma_map_at(s0, i);
                    } else {
                        lemma_map_at(s0, i + 1);
                    }
                }
                assert(entries_map(s1) =~= entries_map(s0).remove(k));
            },
            None => {
                assert(entries_map(s0) =~= entries_map(s0).remove(k));
            },
        }
    }

    /// Spends the transaction's inputs and adds its outputs. No check is made:
    /// absent inputs are skipped and an existing outpoint is overwritten.
    pub fn apply_transaction(&mut self, tx: &Transaction)
        requires
            old(self).wf(),
            indexable(*tx),
        ensures
            final(self).wf(),
            final(self).model() == apply_tx(old(self).model(), *tx),
    {
        let ghost m0 = self.model();
        let mut i: usize = 0;
        while i < tx.inputs.len()
            invariant
                self.wf(),
                i <= tx.inputs@.len(),
                self.model() == Map::new(
                    |k: KeyView| m0.contains_key(k) && !spends_before(*tx, i as int, k),
                    |k: KeyView| m0[k],
                ),
            decreases tx.inputs@.len() - i,
        {
            let input = &tx.inputs[i];
            self.remove(&input.txid, input.index);
            let ghost n = i as int;
            proof {
                assert forall|k: KeyView| #[trigger] spends_before(*tx, n + 1, k) == (spends_before(*tx, n, k) || k == (tx.inputs@[n].txid.0@, tx.inputs@[n].index)) by {
                    if spends_before(*tx, n + 1, k) {
                        let j = choose|j: int| 0 <= j < n + 1 && (#[trigger] tx.inputs@[j].txid.0@, tx.inputs@[j].index) == k;
                        if j < n {
                            assert(spends_before(*tx, n, k));
                        }
                    }
                    if k == (tx.inputs@[n].txid.0@, tx.inputs@[n].index) {
                        assert((tx.inputs@[n].txid.0@, tx.inputs@[n].index) == k);
                    }
                }
            }
            i = i + 1;
            assert(self.model() =~= Map::new(
                |k: KeyView| m0.contains_key(k) && !spends_before(*tx, i as int, k),
                |k: KeyView| m0[k],
            ));
        }
        assert forall|k: KeyView| #[trigger] spends_before(*tx, tx.inputs@.len() as int, k) == spends(*tx, k) by {}
        let mut j: usize = 0;
        while j < tx.outputs.len()
            invariant
                self.wf(),
                j <= tx.outputs@.len(),
                indexable(*tx),
                self.model() == Map::new(
                    |k: KeyView| creates_before(*tx, j as int, k) || (m0.contains_key(k) && !spends(*tx, k)),
                    |k: KeyView|
                        if creates_before(*tx, j as int, k) {
                            out_view(tx.outputs@[k.1 as int])
                        } else {
                            m0[k]
                        },
                ),
            decreases tx.outputs@.len() - j,
        {
            let output = tx.outputs[j].copy();
            self.insert((tx.id, j as u32), output);
            j = j + 1;
            assert(self.model() =~= Map::new(
                |k: KeyView| creates_before(*tx, j as int, k) || (m0.contains_key(k) && !spends(*tx, k)),
                |k: KeyView|
                    if creates_before(*tx, j as int, k) {
                        out_view(tx.outputs@[k.1 as int])
                    } else {
                        m0[k]
                    },
            ));
        }
        assert(self.model() =~= apply_tx(m0, *tx));
    }

    /// The canonical bytes of this set, for a snapshot.
    pub fn encode(&self) -> (r: Vec<u8>)
        ensures
            r@ == utxo_set_bytes(*self),
    {
        let mut out: Vec<u8> = Vec::new();
        push_le(&mut out, self.utxos.len() as u128, 8);
        let ghost head = out@;
        let mut i: usize = 0;
        while i < self.utxos.len()
            invariant
                i <= self.utxos@.len(),
                out@ == head + entries_bytes(self.utxos@.subrange(0, i as int)),
            decreases self.utxos@.len() - i,
        {
            let ghost before = out@;
            let entry = &self.utxos[i];
            push_bytes(&mut out, &entry.0.0.0);
            push_le(&mut out, entry.0.1 as u128, 4);
            entry.1.encode_into(&mut out);
            assert(out@ =~= before + entry_bytes(self.utxos@[i as int]));
            assert(self.utxos@.subrange(0, i + 1).drop_last() =~= self.utxos@.subrange(0, i as int));
            i = i + 1;
            assert(out@ =~= head + entries_bytes(self.utxos@.subrange(0, i as int)));
        }
        assert(self.utxos@.subrange(0, i as int) =~= self.utxos@);
        assert(out@ =~= utxo_set_bytes(*self));
        out
    }

    /// Applies each of the block's transactions in order.
    pub fn apply_block(&mut self, block: &crate::block::Block)
        requires
            old(self).wf(),
            forall|t: int| 0 <= t < block.transactions@.len() ==> indexable(#[trigger] block.transactions@[t]),
        ensures
            final(self).wf(),
            final(self).model() == apply_txs(old(self).model(), block.transactions@),
    {
        let ghost m0 = self.model();
        let mut t: usize = 0;
        while t < block.transactions.len()
            invariant
                self.wf(),
                t <= block.transactions@.len(),
                forall|u: int| 0 <= u < block.transactions@.len() ==> indexable(#[trigger] block.transactions@[u]),
                self.model() == apply_txs(m0, block.transactions@.subrange(0, t as int)),
            decreases block.transactions@.len() - t,
        {
            self.apply_transaction(&block.transactions[t]);
            assert(block.transactions@.subrange(0, t + 1).drop_last() =~= block.transactions@.subrange(0, t as int));
            t = t + 1;
        }
        assert(block.transactions@.subrange(0, t as int) =~= block.transactions@);
    }

    /// The entries whose output the address owns, in the set's order.
    pub fn find_unspent(&self, address: &str) -> (r: Vec<(OutPoint, TxOutput)>)
        ensures
            r@.map_values(|e: (OutPoint, TxOutput)| entry_view(e)) == owned(self.entries(), address@),
    {
        let mut r: Vec<(OutPoint, TxOutput)> = Vec::new();
        let mut i: usize = 0;
        while i < self.utxos.len()
            invariant
                i <= self.utxos@.len(),
                r@.map_values(|e: (OutPoint, TxOutput)| entry_view(e)) == owned(self.entries().subrange(0, i as int), address@),
            decreases self.utxos@.len() - i,
        {
            let ghost before = r@;
            let entry = &self.utxos[i];
            assert(self.entries().subrange(0, i + 1).drop_last() =~= self.entries().subrange(0, i as int));
            if text_eq(entry.1.address.as_str(), address) {
                r.push((entry.0, entry.1.copy()));
                assert(r@.map_values(|e: (OutPoint, TxOutput)| entry_view(e)) =~= before.map_values(|e: (OutPoint, TxOutput)| entry_view(e)).push(entry_view(self.utxos@[i as int])));
            }
            i = i + 1;
        }
        assert(self.entries().subrange(0, i as int) =~= self.entries());
        r
    }

    /// The sum of the amounts that the address owns.
    pub fn available_balance(&self, address: &str) -> (r: u64)
        requires
            total(owned(self.entries(), address@)) <= u64::MAX,
        ensures
            r == total(owned(self.entries(), address@)),
    {
        let found = self.find_unspent(address);
        let ghost v = found@.map_values(|e: (OutPoint, TxOutput)| entry_view(e));
        let mut sum: u64 = 0;
        let mut i: usize = 0;
        while i < found.len()
            invariant
                i <= found@.len(),
                v == found@.map_values(|e: (OutPoint, TxOutput)| entry_view(e)),
                total(v) <= u64::MAX,
                sum == total(v.subrange(0, i as int)),
            decreases found@.len() - i,
        {
            assert(v.subrange(0, i + 1).drop_last() =~= v.subrange(0, i as int));
            proof {
                lemma_total_prefix(v, i as int + 1);
            }
            sum = sum + found[i].1.value;
            i = i + 1;
        }
        assert(v.subrange(0, i as int) =~= v);
        sum
    }
}

impl Default for UtxoSet {
    fn default() -> (r: UtxoSet)
        ensures
            r.wf(),
            r.model() == Map::<KeyView, OutView>::empty(),
            r.entries().len() == 0,
    {
        UtxoSet::new()
    }
}

/// Every entry that an address owns is an entry of the list, with that address.
pub proof fn lemma_owned_members(s: Seq<(KeyView, OutView)>, a: Seq<char>)
    ensures
        forall|k: int|
            0 <= k < owned(s, a).len() ==> (#[trigger] owned(s, a)[k]).1.1 == a && exists|j: int|
                0 <= j < s.len() && s[j] == owned(s, a)[k],
    decreases s.len(),
{
    if s.len() > 0 {
        lemma_owned_members(s.drop_last(), a);
        let o = owned(s.drop_last(), a);
        assert forall|k: int| 0 <= k < owned(s, a).len() implies (#[trigger] owned(s, a)[k]).1.1 == a && exists|j: int|
            0 <= j < s.len() && s[j] == owned(s, a)[k] by {
            if k < o.len() {
                assert(owned(s, a)[k] == o[k]);
                let j = choose|j: int| 0 <= j < s.drop_last().len() && s.drop_last()[j] == o[k];
                assert(s[j] == owned(s, a)[k]);
            } else {
                assert(s[s.len() - 1] == owned(s, a)[k]);
            }
        }
    }
}

/// Where the list names each outpoint once, so do the entries an address owns.
pub proof fn lemma_owned_unique(s: Seq<(KeyView, OutView)>, a: Seq<char>)
    requires
        forall|i: int, j: int| 0 <= i < j < s.len() ==> (#[trigger] s[i]).0 != (#[trigger] s[j]).0,
    ensures
        forall|i: int, j: int|
            0 <= i < j < owned(s, a).len() ==> (#[trigger] owned(s, a)[i]).0 != (#[trigger] owned(s, a)[j]).0,
    decreases s.len(),
{
    if s.len() > 0 {
        let d = s.drop_last();
        assert forall|i: int, j: int| 0 <= i < j < d.len() implies (#[trigger] d[i]).0 != (#[trigger] d[j]).0 by {
            assert(d[i] == s[i] && d[j] == s[j]);
        }
        lemma_owned_unique(d, a);
        lemma_owned_members(d, a);
        let o = owned(d, a);
        assert forall|i: int, j: int| 0 <= i < j < owned(s, a).len() implies (#[trigger] owned(s, a)[i]).0 != (#[trigger] owned(s, a)[j]).0 by {
            if j < o.len() {
                assert(owned(s, a)[i] == o[i] && owned(s, a)[j] == o[j]);
            } else {
                assert(owned(s, a)[i] == o[i]);
                assert(owned(s, a)[j] == s[s.len() - 1]);
                let m = choose|m: int| 0 <= m < d.len() && d[m] == o[i];
                assert(s[m] == o[i]);
            }
        }
    }
}

/// An entry of a well-formed set is what the set's map holds under its outpoint.
pub proof fn lemma_entry_in_model(u: UtxoSet, j: int)
    requires
        u.wf(),
        0 <= j < u.entries().len(),
    ensures
        u.model().contains_key(u.entries()[j].0),
        u.model()[u.entries()[j].0] == u.entries()[j].1,
{
    lemma_map_at(u.utxos@, j);
}

/// In a well-formed set no two entries name the same outpoint.
pub proof fn lemma_entries_unique(u: UtxoSet)
    requires
        u.wf(),
    ensures
        forall|i: int, j: int|
            0 <= i < j < u.entries().len() ==> (#[trigger] u.entries()[i]).0 != (#[trigger] u.entries()[j]).0,
{
    assert forall|i: int, j: int| 0 <= i < j < u.entries().len() implies (#[trigger] u.entries()[i]).0 != (#[trigger] u.entries()[j]).0 by {
        assert(u.entries()[i] == entry_view(u.utxos@[i]));
        assert(u.entries()[j] == entry_view(u.utxos@[j]));
    }
}

/// An output that a transaction spends, and does not itself create, is gone
/// from the set once the transaction is applied: it cannot be spent again.
pub proof fn lemma_spent_output_gone(m: Map<KeyView, OutView>, tx: Transaction, k: KeyView)
    requires
        spends(tx, k),
        !creates(tx, k),
    ensures
        !apply_tx(m, tx).contains_key(k),
{
}

/// A prefix sums to no more than the whole.
pub proof fn lemma_total_prefix(s: Seq<(KeyView, OutView)>, n: int)
    requires
        0 <= n <= s.len(),
    ensures
        total(s.subrange(0, n)) <= total(s),
    decreases s.len() - n,
{
    if n < s.len() {
        lemma_total_prefix(s, n + 1);
        assert(s.subrange(0, n + 1).drop_last() =~= s.subrange(0, n));
    } else {
        assert(s.subrange(0, n) =~= s);
    }
}

} // verus!
