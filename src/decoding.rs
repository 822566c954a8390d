//! Reading the canonical byte layout back: each reader accepts exactly the
//! bytes that the matching encoder writes.

use vstd::prelude::*;
use vstd::arithmetic::div_mod::lemma_fundamental_div_mod_converse;
use vstd::utf8::{decode_utf8, decode_utf8_encode_utf8, encode_utf8, encode_utf8_decode_utf8, encode_utf8_valid_utf8, valid_utf8};
use crate::block::{block_bytes, header_bytes, transactions_bytes, Block};
use crate::chain::{blocks_bytes, chain_bytes, Blockchain};
use crate::utxo::{entries_bytes, entry_bytes, key_view, keys_unique, utxo_set_bytes, OutPoint, UtxoSet};
use crate::encoding::{framed, framed_text, le_bytes};
use crate::transaction::{
    input_bytes, inputs_bytes, output_bytes, outputs_bytes, transaction_bytes, Transaction,
    TxInput, TxOutput,
};

verus! {

/// `e` stands in `s` at position `pos`.
pub open spec fn fits(s: Seq<u8>, pos: int, e: Seq<u8>) -> bool {
    0 <= pos && pos + e.len() <= s.len() && s.subrange(pos, pos + e.len()) == e
}

pub open spec fn pow256(n: nat) -> nat
    decreases n,
{
    if n == 0 {
        1
    } else {
        256 * pow256((n - 1) as nat)
    }
}

/// The number that little-endian bytes stand for.
pub open spec fn le_value(s: Seq<u8>) -> nat
    decreases s.len(),
{
    if s.len() == 0 {
        0
    } else {
        s[0] as nat + 256 * le_value(s.drop_first())
    }
}

pub proof fn lemma_fits_concat(s: Seq<u8>, pos: int, a: Seq<u8>, b: Seq<u8>)
    ensures
        fits(s, pos, a + b) <==> (fits(s, pos, a) && fits(s, pos + a.len(), b)),
{
    if fits(s, pos, a + b) {
        assert(s.subrange(pos, pos + a.len()) =~= (a + b).subrange(0, a.len() as int));
        assert(s.subrange(pos + a.len(), pos + a.len() + b.len()) =~= (a + b).subrange(a.len() as int, (a.len() + b.len()) as int));
        assert((a + b).subrange(0, a.len() as int) =~= a);
        assert((a + b).subrange(a.len() as int, (a.len() + b.len()) as int) =~= b);
    }
    if fits(s, pos, a) && fits(s, pos + a.len(), b) {
        assert(s.subrange(pos, pos + (a + b).len()) =~= a + b);
    }
}

pub proof fn lemma_le_bytes_len(x: nat, n: nat)
    ensures
        le_bytes(x, n).len() == n,
    decreases n,
{
    if n > 0 {
        lemma_le_bytes_len(x / 256, (n - 1) as nat);
    }
}

pub proof fn lemma_pow256_mono(a: nat, b: nat)
    requires
        a <= b,
    ensures
        1 <= pow256(a) <= pow256(b),
    decreases b,
{
    if b > a {
        lemma_pow256_mono(a, (b - 1) as nat);
    } else if a > 0 {
        lemma_pow256_mono(0, (a - 1) as nat);
    }
}

pub proof fn lemma_le_value_bound(s: Seq<u8>)
    ensures
        le_value(s) < pow256(s.len()),
    decreases s.len(),
{
    if s.len() > 0 {
        lemma_le_value_bound(s.drop_first());
        let v = le_value(s.drop_first());
        let p = pow256(s.drop_first().len());
        assert(s[0] as nat + 256 * v < 256 * p) by (nonlinear_arith)
            requires
                v < p,
                s[0] < 256,
        ;
    }
}

/// Little-endian bytes are the encoding of the number they stand for.
pub proof fn lemma_le_bytes_of_value(s: Seq<u8>)
    ensures
        le_bytes(le_value(s), s.len()) == s,
    decreases s.len(),
{
    if s.len() > 0 {
        lemma_le_bytes_of_value(s.drop_first());
        let v = le_value(s);
        lemma_fundamental_div_mod_converse(v as int, 256, le_value(s.drop_first()) as int, s[0] as int);
        assert(le_bytes(v, s.len()) =~= s);
    } else {
        assert(le_bytes(le_value(s), 0) =~= s);
    }
}

/// The encoding of a number that fits in `n` bytes stands for that number.
pub proof fn lemma_le_value_of_bytes(x: nat, n: nat)
    requires
        x < pow256(n),
    ensures
        le_value(le_bytes(x, n)) == x,
    decreases n,
{
    if n > 0 {
        let b = le_bytes(x, n);
        lemma_le_bytes_len(x / 256, (n - 1) as nat);
        assert(b.drop_first() =~= le_bytes(x / 256, (n - 1) as nat));
        let p = pow256((n - 1) as nat);
        assert(x / 256 < p) by (nonlinear_arith)
            requires
                x < 256 * p,
        ;
        lemma_le_value_of_bytes(x / 256, (n - 1) as nat);
        lemma_fundamental_div_mod_converse(x as int, 256, (x / 256) as int, (x % 256) as int);
    }
}

/// The number that the `n` bytes at `pos` stand for, little-endian; None
/// where fewer than `n` bytes are left.
pub fn read_le(bytes: &[u8], pos: usize, n: usize) -> (r: Option<u128>)
    requires
        n <= 16,
    ensures
        r is Some <==> pos + n <= bytes@.len(),
        r matches Some(v) ==> v as nat == le_value(bytes@.subrange(pos as int, pos + n)) && v < pow256(n as nat),
{
    if pos > bytes.len() || n > bytes.len() - pos {
        return None;
    }
    proof {
        assert(pow256(15) == 0x1_0000_0000_0000_0000_0000_0000_0000_00nat) by {
            reveal_with_fuel(pow256, 16);
        }
    }
    let blen = bytes.len();
    let mut v: u128 = 0;
    let mut k: usize = n;
    assert(bytes@.subrange(pos + n, pos + n).len() == 0);
    while k > 0
        invariant
            blen == bytes@.len(),
            k <= n <= 16,
            pos + n <= bytes@.len(),
            pow256(15) == 0x1_0000_0000_0000_0000_0000_0000_0000_00nat,
            v == le_value(bytes@.subrange(pos + k, pos + n)),
            v < pow256((n - k) as nat),
        decreases k,
    {
        proof {
            lemma_pow256_mono((n - k) as nat, 15);
        }
        k = k - 1;
        let ghost s = bytes@.subrange(pos + k, pos + n);
        assert(s.drop_first() =~= bytes@.subrange(pos + k + 1, pos + n));
        let byte = bytes[pos + k] as u128;
        assert(256 * v + 255 < 0x1_0000_0000_0000_0000_0000_0000_0000_0000nat) by (nonlinear_arith)
            requires
                v < 0x1_0000_0000_0000_0000_0000_0000_0000_00nat,
        ;
        v = byte + 256 * v;
        proof {
            lemma_le_value_bound(s);
        }
    }
    Some(v)
}

/// The `n` bytes at `pos`; None where fewer are left.
pub fn read_bytes(bytes: &[u8], pos: usize, n: usize) -> (r: Option<Vec<u8>>)
    ensures
        r is Some <==> pos + n <= bytes@.len(),
        r matches Some(v) ==> v@ == bytes@.subrange(pos as int, pos + n),
{
    if pos > bytes.len() || n > bytes.len() - pos {
        return None;
    }
    let blen = bytes.len();
    let mut v: Vec<u8> = Vec::new();
    let mut k: usize = 0;
    while k < n
        invariant
            blen == bytes@.len(),
            k <= n,
            pos + n <= bytes@.len(),
            v@ == bytes@.subrange(pos as int, pos + k),
        decreases n - k,
    {
        v.push(bytes[pos + k]);
        k = k + 1;
        assert(v@ =~= bytes@.subrange(pos as int, pos + k));
    }
    Some(v)
}

/// A byte string behind its 64-bit length, at `pos`, and the position after it.
pub fn read_framed(bytes: &[u8], pos: usize) -> (r: Option<(Vec<u8>, usize)>)
    ensures
        r matches Some((v, p)) ==> p == pos + framed(v@).len() && fits(bytes@, pos as int, framed(v@)),
        forall|b: Seq<u8>| #[trigger] fits(bytes@, pos as int, framed(b)) ==> (r matches Some((v, p)) && v@ == b),
{
    let len = match read_le(bytes, pos, 8) {
        Some(l) => l,
        None => {
            assert forall|b: Seq<u8>| #[trigger] fits(bytes@, pos as int, framed(b)) implies false by {
                lemma_le_bytes_len(b.len(), 8);
            }
            return None;
        },
    };
    let ghost head = bytes@.subrange(pos as int, pos + 8);
    proof {
        lemma_le_bytes_of_value(head);
        assert forall|b: Seq<u8>| #[trigger] fits(bytes@, pos as int, framed(b)) implies b.len() == len && fits(bytes@, pos + 8, b) by {
            lemma_le_bytes_len(b.len(), 8);
            lemma_fits_concat(bytes@, pos as int, le_bytes(b.len(), 8), b);
            assert(b.len() <= bytes@.len());
            assert(bytes@.len() == bytes.len());
            assert(b.len() < pow256(8)) by {
                reveal_with_fuel(pow256, 9);
            }
            lemma_le_value_of_bytes(b.len(), 8);
        }
    }
    if len as u128 > (bytes.len() - pos - 8) as u128 {
        return None;
    }
    let data = match read_bytes(bytes, pos + 8, len as usize) {
        Some(d) => d,
        None => return None,
    };
    proof {
        lemma_le_bytes_len(data@.len(), 8);
        assert(le_bytes(data@.len(), 8) == head);
        lemma_fits_concat(bytes@, pos as int, le_bytes(data@.len(), 8), data@);
        assert forall|b: Seq<u8>| #[trigger] fits(bytes@, pos as int, framed(b)) implies data@ == b by {
            assert(b.len() == len && fits(bytes@, pos + 8, b));
        }
    }
    Some((data, pos + 8 + len as usize))
}

/// Relies on String::from_utf8: the text where the bytes are UTF-8, else an error.
#[verifier::external_body]
fn text_from_utf8(v: Vec<u8>) -> (r: Option<String>)
    ensures
        match r {
            Some(s) => valid_utf8(v@) && s@ == decode_utf8(v@),
            None => !valid_utf8(v@),
        },
{
    String::from_utf8(v).ok()
}

/// UTF-8 text behind its 64-bit length, at `pos`, and the position after it.
pub fn read_text(bytes: &[u8], pos: usize) -> (r: Option<(String, usize)>)
    ensures
        r matches Some((s, p)) ==> p == pos + framed_text(s@).len() && fits(bytes@, pos as int, framed_text(s@)),
        forall|t: Seq<char>| #[trigger] fits(bytes@, pos as int, framed_text(t)) ==> (r matches Some((s, p)) && s@ == t),
{
    let (data, p) = match read_framed(bytes, pos) {
        Some(x) => x,
        None => {
            assert forall|t: Seq<char>| #[trigger] fits(bytes@, pos as int, framed_text(t)) implies false by {
                assert(fits(bytes@, pos as int, framed(encode_utf8(t))));
            }
            return None;
        },
    };
    let ghost d = data@;
    proof {
        assert forall|t: Seq<char>| #[trigger] fits(bytes@, pos as int, framed_text(t)) implies d == encode_utf8(t) by {
            assert(fits(bytes@, pos as int, framed(encode_utf8(t))));
        }
    }
    match text_from_utf8(data) {
        Some(s) => {
            proof {
                decode_utf8_encode_utf8(d);
                assert forall|t: Seq<char>| #[trigger] fits(bytes@, pos as int, framed_text(t)) implies s@ == t by {
                    encode_utf8_decode_utf8(t);
                }
            }
            Some((s, p))
        },
        None => {
            proof {
                assert forall|t: Seq<char>| #[trigger] fits(bytes@, pos as int, framed_text(t)) implies false by {
                    encode_utf8_valid_utf8(t);
                }
            }
            None
        },
    }
}

/// The 32 bytes at `pos` as a digest.
pub fn read_hash(bytes: &[u8], pos: usize) -> (r: Option<crate::crypto::Hash>)
    ensures
        r is Some <==> pos + 32 <= bytes@.len(),
        r matches Some(h) ==> h.0@ == bytes@.subrange(pos as int, pos + 32),
{
    if pos > bytes.len() || 32 > bytes.len() - pos {
        return None;
    }
    let blen = bytes.len();
    let mut a = [0u8; 32];
    let mut k: usize = 0;
    while k < 32
        invariant
            blen == bytes@.len(),
            k <= 32,
            pos + 32 <= bytes@.len(),
            forall|j: int| 0 <= j < k ==> a@[j] == bytes@[pos + j],
        decreases 32 - k,
    {
        a[k] = bytes[pos + k];
        k = k + 1;
    }
    assert(a@ =~= bytes@.subrange(pos as int, pos + 32));
    Some(crate::crypto::Hash(a))
}

/// Bytes that are no transaction's canonical bytes.
#[derive(Debug, Clone, Copy, PartialEq, Eq, Structural)]
pub enum DecodeError {
    Malformed,
}

proof fn lemma_input_parts(s: Seq<u8>, pos: int, t: TxInput)
    requires
        fits(s, pos, input_bytes(t)),
    ensures
        fits(s, pos, t.txid.0@),
        fits(s, pos + 32, le_bytes(t.index as nat, 4)),
        fits(s, pos + 36, framed(t.signature@)),
        fits(s, pos + 36 + framed(t.signature@).len(), framed(t.public_key@)),
{
    let a = t.txid.0@;
    let b = le_bytes(t.index as nat, 4);
    let c = framed(t.signature@);
    let d = framed(t.public_key@);
    lemma_le_bytes_len(t.index as nat, 4);
    lemma_fits_concat(s, pos, a + b + c, d);
    lemma_fits_concat(s, pos, a + b, c);
    lemma_fits_concat(s, pos, a, b);
}

proof fn lemma_output_parts(s: Seq<u8>, pos: int, t: TxOutput)
    requires
        fits(s, pos, output_bytes(t)),
    ensures
        fits(s, pos, le_bytes(t.value as nat, 8)),
        fits(s, pos + 8, framed_text(t.address@)),
{
    lemma_le_bytes_len(t.value as nat, 8);
    lemma_fits_concat(s, pos, le_bytes(t.value as nat, 8), framed_text(t.address@));
}

/// One input at `pos`, and the position after it.
pub fn read_input(bytes: &[u8], pos: usize) -> (r: Option<(TxInput, usize)>)
    ensures
        r matches Some((i, p)) ==> p == pos + input_bytes(i).len() && fits(bytes@, pos as int, input_bytes(i)),
        forall|t: TxInput| #[trigger] fits(bytes@, pos as int, input_bytes(t)) ==> (r matches Some((i, p)) && input_bytes(i) == input_bytes(t)),
{
    let blen = bytes.len();
    let txid = match read_hash(bytes, pos) {
        Some(h) => h,
        None => {
            assert forall|t: TxInput| #[trigger] fits(bytes@, pos as int, input_bytes(t)) implies false by {
                lemma_input_parts(bytes@, pos as int, t);
            }
            return None;
        },
    };
    let index = match read_le(bytes, pos + 32, 4) {
        Some(v) => v,
        None => {
            assert forall|t: TxInput| #[trigger] fits(bytes@, pos as int, input_bytes(t)) implies false by {
                lemma_input_parts(bytes@, pos as int, t);
                lemma_le_bytes_len(t.index as nat, 4);
            }
            return None;
        },
    };
    let ghost ib = bytes@.subrange(pos + 32, pos + 36);
    proof {
        lemma_le_value_bound(ib);
        assert(pow256(4) == 0x1_0000_0000nat) by {
            reveal_with_fuel(pow256, 5);
        }
        lemma_le_bytes_of_value(ib);
    }
    let (signature, after_sig) = match read_framed(bytes, pos + 36) {
        Some(x) => x,
        None => {
            assert forall|t: TxInput| #[trigger] fits(bytes@, pos as int, input_bytes(t)) implies false by {
                lemma_input_parts(bytes@, pos as int, t);
            }
            return None;
        },
    };
    let (public_key, after_key) = match read_framed(bytes, after_sig) {
        Some(x) => x,
        None => {
            assert forall|t: TxInput| #[trigger] fits(bytes@, pos as int, input_bytes(t)) implies false by {
                lemma_input_parts(bytes@, pos as int, t);
            }
            return None;
        },
    };
    let input = TxInput { txid, index: index as u32, signature, public_key };
    proof {
        let a = input.txid.0@;
        let b = le_bytes(input.index as nat, 4);
        let c = framed(input.signature@);
        let d = framed(input.public_key@);
        lemma_le_bytes_len(input.index as nat, 4);
        assert(b == ib);
        lemma_fits_concat(bytes@, pos as int, a, b);
        lemma_fits_concat(bytes@, pos as int, a + b, c);
        lemma_fits_concat(bytes@, pos as int, a + b + c, d);
        assert forall|t: TxInput| #[trigger] fits(bytes@, pos as int, input_bytes(t)) implies input_bytes(input) == input_bytes(t) by {
            lemma_input_parts(bytes@, pos as int, t);
            assert(t.index < pow256(4)) by {
                reveal_with_fuel(pow256, 5);
            }
            lemma_le_value_of_bytes(t.index as nat, 4);
            lemma_le_bytes_len(t.index as nat, 4);
            assert(ib == le_bytes(t.index as nat, 4));
            assert(input.index == t.index);
            assert(t.txid.0@ == a);
            let q: usize = (pos + 36) as usize;
            assert(fits(bytes@, q as int, framed(t.signature@)));
            assert(input.signature@ == t.signature@);
            assert(fits(bytes@, after_sig as int, framed(t.public_key@)));
            assert(input.public_key@ == t.public_key@);
        }
    }
    Some((input, after_key))
}

/// One output at `pos`, and the position after it.
pub fn read_output(bytes: &[u8], pos: usize) -> (r: Option<(TxOutput, usize)>)
    ensures
        r matches Some((o, p)) ==> p == pos + output_bytes(o).len() && fits(bytes@, pos as int, output_bytes(o)),
        forall|t: TxOutput| #[trigger] fits(bytes@, pos as int, output_bytes(t)) ==> (r matches Some((o, p)) && output_bytes(o) == output_bytes(t)),
{
    let blen = bytes.len();
    let value = match read_le(bytes, pos, 8) {
        Some(v) => v,
        None => {
            assert forall|t: TxOutput| #[trigger] fits(bytes@, pos as int, output_bytes(t)) implies false by {
                lemma_output_parts(bytes@, pos as int, t);
                lemma_le_bytes_len(t.value as nat, 8);
            }
            return None;
        },
    };
    let ghost vb = bytes@.subrange(pos as int, pos + 8);
    proof {
        lemma_le_bytes_of_value(vb);
        assert(pow256(8) == 0x1_0000_0000_0000_0000nat) by {
            reveal_with_fuel(pow256, 9);
        }
    }
    let value = value as u64;
    let (address, p) = match read_text(bytes, pos + 8) {
        Some(x) => x,
        None => {
            assert forall|t: TxOutput| #[trigger] fits(bytes@, pos as int, output_bytes(t)) implies false by {
                lemma_output_parts(bytes@, pos as int, t);
            }
            return None;
        },
    };
    let output = TxOutput { value, address };
    proof {
        lemma_le_bytes_len(value as nat, 8);
        lemma_fits_concat(bytes@, pos as int, le_bytes(value as nat, 8), framed_text(output.address@));
        assert forall|t: TxOutput| #[trigger] fits(bytes@, pos as int, output_bytes(t)) implies output_bytes(output) == output_bytes(t) by {
            lemma_output_parts(bytes@, pos as int, t);
            assert(t.value < pow256(8)) by {
                reveal_with_fuel(pow256, 9);
            }
            lemma_le_value_of_bytes(t.value as nat, 8);
            lemma_le_bytes_len(t.value as nat, 8);
            assert(vb == le_bytes(t.value as nat, 8));
            assert(output.value == t.value);
            let q: usize = (pos + 8) as usize;
            assert(fits(bytes@, q as int, framed_text(t.address@)));
            assert(output.address@ == t.address@);
        }
    }
    Some((output, p))
}

proof fn lemma_inputs_front(s: Seq<TxInput>)
    requires
        s.len() > 0,
    ensures
        inputs_bytes(s) == input_bytes(s[0]) + inputs_bytes(s.drop_first()),
    decreases s.len(),
{
    if s.len() == 1 {
        assert(s.drop_last() =~= Seq::<TxInput>::empty());
        assert(s.drop_first() =~= Seq::<TxInput>::empty());
        assert(inputs_bytes(s) =~= input_bytes(s[0]) + inputs_bytes(s.drop_first()));
    } else {
        lemma_inputs_front(s.drop_last());
        assert(s.drop_last().drop_first() =~= s.drop_first().drop_last());
        assert(inputs_bytes(s) =~= input_bytes(s[0]) + inputs_bytes(s.drop_first()));
    }
}

proof fn lemma_outputs_front(s: Seq<TxOutput>)
    requires
        s.len() > 0,
    ensures
        outputs_bytes(s) == output_bytes(s[0]) + outputs_bytes(s.drop_first()),
    decreases s.len(),
{
    if s.len() == 1 {
        assert(s.drop_last() =~= Seq::<TxOutput>::empty());
        assert(s.drop_first() =~= Seq::<TxOutput>::empty());
        assert(outputs_bytes(s) =~= output_bytes(s[0]) + outputs_bytes(s.drop_first()));
    } else {
        lemma_outputs_front(s.drop_last());
        assert(s.drop_last().drop_first() =~= s.drop_first().drop_last());
        assert(outputs_bytes(s) =~= output_bytes(s[0]) + outputs_bytes(s.drop_first()));
    }
}

proof fn lemma_inputs_len(s: Seq<TxInput>)
    ensures
        s.len() <= inputs_bytes(s).len(),
    decreases s.len(),
{
    if s.len() > 0 {
        lemma_inputs_len(s.drop_last());
    }
}

proof fn lemma_outputs_len(s: Seq<TxOutput>)
    ensures
        s.len() <= outputs_bytes(s).len(),
    decreases s.len(),
{
    if s.len() > 0 {
        lemma_outputs_len(s.drop_last());
        lemma_le_bytes_len(s.last().value as nat, 8);
    }
}

/// `count` inputs from `pos` on, and the position after them.
#[verifier::rlimit(50)]
pub fn read_inputs(bytes: &[u8], pos: usize, count: u64) -> (r: Option<(Vec<TxInput>, usize)>)
    ensures
        r matches Some((v, p)) ==> v@.len() == count && p == pos + inputs_bytes(v@).len() && fits(
            bytes@,
            pos as int,
            inputs_bytes(v@),
        ),
        forall|s: Seq<TxInput>|
            s.len() == count && #[trigger] fits(bytes@, pos as int, inputs_bytes(s)) ==> (r matches Some((v, p))
                && inputs_bytes(v@) == inputs_bytes(s)),
{
    let blen = bytes.len();
    if pos > blen {
        return None;
    }
    let mut v: Vec<TxInput> = Vec::new();
    let mut at: usize = pos;
    let mut k: u64 = 0;
    assert(bytes@.subrange(pos as int, pos as int) =~= inputs_bytes(v@));
    assert forall|s: Seq<TxInput>| s.len() == count && #[trigger] fits(bytes@, pos as int, inputs_bytes(s)) implies s.subrange(0, count as int) == s && s.subrange(0, 0) == v@ by {
        assert(s.subrange(0, count as int) =~= s);
        assert(s.subrange(0, 0) =~= v@);
    }
    while k < count
        invariant
            blen == bytes@.len(),
            pos <= at <= blen,
            k <= count,
            v@.len() == k,
            at == pos + inputs_bytes(v@).len(),
            fits(bytes@, pos as int, inputs_bytes(v@)),
            forall|s: Seq<TxInput>|
                s.len() == count && #[trigger] fits(bytes@, pos as int, inputs_bytes(s)) ==> fits(
                    bytes@,
                    at as int,
                    inputs_bytes(s.subrange(k as int, count as int)),
                ) && inputs_bytes(v@) == inputs_bytes(s.subrange(0, k as int)),
        decreases count - k,
    {
        assert forall|s: Seq<TxInput>| s.len() == count && #[trigger] fits(bytes@, pos as int, inputs_bytes(s)) implies fits(bytes@, at as int, input_bytes(s[k as int])) && fits(
            bytes@,
            at + input_bytes(s[k as int]).len(),
            inputs_bytes(s.subrange(k + 1, count as int)),
        ) by {
            let rest = s.subrange(k as int, count as int);
            lemma_inputs_front(rest);
            assert(rest.drop_first() =~= s.subrange(k + 1, count as int));
            lemma_fits_concat(bytes@, at as int, input_bytes(rest[0]), inputs_bytes(rest.drop_first()));
        }
        let (item, p) = match read_input(bytes, at) {
            Some(x) => x,
            None => {
                assert forall|s: Seq<TxInput>| s.len() == count && #[trigger] fits(bytes@, pos as int, inputs_bytes(s)) implies false by {
                    assert(fits(bytes@, at as int, input_bytes(s[k as int])));
                }
                return None;
            },
        };
        proof {
            assert(v@.push(item).drop_last() =~= v@);
            lemma_fits_concat(bytes@, pos as int, inputs_bytes(v@), input_bytes(item));
            assert forall|s: Seq<TxInput>| s.len() == count && #[trigger] fits(bytes@, pos as int, inputs_bytes(s)) implies fits(
                bytes@,
                p as int,
                inputs_bytes(s.subrange(k + 1, count as int)),
            ) && inputs_bytes(v@.push(item)) == inputs_bytes(s.subrange(0, k + 1)) by {
                assert(fits(bytes@, at as int, input_bytes(s[k as int])));
                assert(s.subrange(0, k + 1).drop_last() =~= s.subrange(0, k as int));
            }
        }
        v.push(item);
        at = p;
        k = k + 1;
    }
    Some((v, at))
}

/// `count` outputs from `pos` on, and the position after them.
#[verifier::rlimit(50)]
pub fn read_outputs(bytes: &[u8], pos: usize, count: u64) -> (r: Option<(Vec<TxOutput>, usize)>)
    ensures
        r matches Some((v, p)) ==> v@.len() == count && p == pos + outputs_bytes(v@).len() && fits(
            bytes@,
            pos as int,
            outputs_bytes(v@),
        ),
        forall|s: Seq<TxOutput>|
            s.len() == count && #[trigger] fits(bytes@, pos as int, outputs_bytes(s)) ==> (r matches Some((v, p))
                && outputs_bytes(v@) == outputs_bytes(s)),
{
    let blen = bytes.len();
    if pos > blen {
        return None;
    }
    let mut v: Vec<TxOutput> = Vec::new();
    let mut at: usize = pos;
    let mut k: u64 = 0;
    assert(bytes@.subrange(pos as int, pos as int) =~= outputs_bytes(v@));
    assert forall|s: Seq<TxOutput>| s.len() == count && #[trigger] fits(bytes@, pos as int, outputs_bytes(s)) implies s.subrange(0, count as int) == s && s.subrange(0, 0) == v@ by {
        assert(s.subrange(0, count as int) =~= s);
        assert(s.subrange(0, 0) =~= v@);
    }
    while k < count
        invariant
            blen == bytes@.len(),
            pos <= at <= blen,
            k <= count,
            v@.len() == k,
            at == pos + outputs_bytes(v@).len(),
            fits(bytes@, pos as int, outputs_bytes(v@)),
            forall|s: Seq<TxOutput>|
                s.len() == count && #[trigger] fits(bytes@, pos as int, outputs_bytes(s)) ==> fits(
                    bytes@,
                    at as int,
                    outputs_bytes(s.subrange(k as int, count as int)),
                ) && outputs_bytes(v@) == outputs_bytes(s.subrange(0, k as int)),
        decreases count - k,
    {
        assert forall|s: Seq<TxOutput>| s.len() == count && #[trigger] fits(bytes@, pos as int, outputs_bytes(s)) implies fits(bytes@, at as int, output_bytes(s[k as int])) && fits(
            bytes@,
            at + output_bytes(s[k as int]).len(),
            outputs_bytes(s.subrange(k + 1, count as int)),
        ) by {
            let rest = s.subrange(k as int, count as int);
            lemma_outputs_front(rest);
            assert(rest.drop_first() =~= s.subrange(k + 1, count as int));
            lemma_fits_concat(bytes@, at as int, output_bytes(rest[0]), outputs_bytes(rest.drop_first()));
        }
        let (item, p) = match read_output(bytes, at) {
            Some(x) => x,
            None => {
                assert forall|s: Seq<TxOutput>| s.len() == count && #[trigger] fits(bytes@, pos as int, outputs_bytes(s)) implies false by {
                    assert(fits(bytes@, at as int, output_bytes(s[k as int])));
                }
                return None;
            },
        };
        proof {
            assert(v@.push(item).drop_last() =~= v@);
            lemma_fits_concat(bytes@, pos as int, outputs_bytes(v@), output_bytes(item));
            assert forall|s: Seq<TxOutput>| s.len() == count && #[trigger] fits(bytes@, pos as int, outputs_bytes(s)) implies fits(
                bytes@,
                p as int,
                outputs_bytes(s.subrange(k + 1, count as int)),
            ) && outputs_bytes(v@.push(item)) == outputs_bytes(s.subrange(0, k + 1)) by {
                assert(fits(bytes@, at as int, output_bytes(s[k as int])));
                assert(s.subrange(0, k + 1).drop_last() =~= s.subrange(0, k as int));
            }
        }
        v.push(item);
        at = p;
        k = k + 1;
    }
    Some((v, at))
}

proof fn lemma_tx_parts(s: Seq<u8>, pos: int, t: Transaction)
    requires
        fits(s, pos, transaction_bytes(t)),
        s.len() < pow256(8),
    ensures
        fits(s, pos, t.id.0@),
        fits(s, pos + 32, le_bytes(t.inputs@.len(), 8)),
        fits(s, pos + 40, inputs_bytes(t.inputs@)),
        fits(s, pos + 40 + inputs_bytes(t.inputs@).len(), le_bytes(t.outputs@.len(), 8)),
        fits(s, pos + 48 + inputs_bytes(t.inputs@).len(), outputs_bytes(t.outputs@)),
        transaction_bytes(t).len() == 48 + inputs_bytes(t.inputs@).len() + outputs_bytes(t.outputs@).len(),
        t.inputs@.len() < pow256(8),
        t.outputs@.len() < pow256(8),
        le_value(le_bytes(t.inputs@.len(), 8)) == t.inputs@.len(),
        le_value(le_bytes(t.outputs@.len(), 8)) == t.outputs@.len(),
{
    let a = t.id.0@;
    let b = le_bytes(t.inputs@.len(), 8);
    let c = inputs_bytes(t.inputs@);
    let d = le_bytes(t.outputs@.len(), 8);
    let e = outputs_bytes(t.outputs@);
    lemma_le_bytes_len(t.inputs@.len(), 8);
    lemma_le_bytes_len(t.outputs@.len(), 8);
    lemma_fits_concat(s, pos, a + b + c + d, e);
    lemma_fits_concat(s, pos, a + b + c, d);
    lemma_fits_concat(s, pos, a + b, c);
    lemma_fits_concat(s, pos, a, b);
    lemma_inputs_len(t.inputs@);
    lemma_outputs_len(t.outputs@);
    lemma_le_value_of_bytes(t.inputs@.len(), 8);
    lemma_le_value_of_bytes(t.outputs@.len(), 8);
}

/// One transaction at `pos`, and the position after it.
pub fn read_transaction(bytes: &[u8], pos: usize) -> (r: Option<(Transaction, usize)>)
    ensures
        r matches Some((tx, p)) ==> p == pos + transaction_bytes(tx).len() && fits(
            bytes@,
            pos as int,
            transaction_bytes(tx),
        ),
        forall|t: Transaction| #[trigger] fits(bytes@, pos as int, transaction_bytes(t)) ==> (r matches Some((tx, p))
            && transaction_bytes(tx) == transaction_bytes(t)),
{
    let blen = bytes.len();
    assert(pow256(8) == 0x1_0000_0000_0000_0000nat) by {
        reveal_with_fuel(pow256, 9);
    }
    let id = match read_hash(bytes, pos) {
        Some(h) => h,
        None => {
            assert forall|t: Transaction| #[trigger] fits(bytes@, pos as int, transaction_bytes(t)) implies false by {
                lemma_tx_parts(bytes@, pos as int, t);
            }
            return None;
        },
    };
    let wide = match read_le(bytes, pos + 32, 8) {
        Some(v) => v,
        None => {
            assert forall|t: Transaction| #[trigger] fits(bytes@, pos as int, transaction_bytes(t)) implies false by {
                lemma_tx_parts(bytes@, pos as int, t);
                lemma_le_bytes_len(t.inputs@.len(), 8);
            }
            return None;
        },
    };
    let n_in = wide as u64;
    proof {
        lemma_le_bytes_len(n_in as nat, 8);
        lemma_le_bytes_of_value(bytes@.subrange(pos + 32, pos + 40));
    }
    assert forall|t: Transaction| #[trigger] fits(bytes@, pos as int, transaction_bytes(t)) implies t.inputs@.len() == n_in && t.id.0@ == id.0@ by {
        lemma_tx_parts(bytes@, pos as int, t);
        lemma_le_bytes_len(t.inputs@.len(), 8);
        assert(bytes@.subrange(pos + 32, pos + 40) == le_bytes(t.inputs@.len(), 8));
    }
    let (inputs, p) = match read_inputs(bytes, pos + 40, n_in) {
        Some(x) => x,
        None => {
            assert forall|t: Transaction| #[trigger] fits(bytes@, pos as int, transaction_bytes(t)) implies false by {
                lemma_tx_parts(bytes@, pos as int, t);
                assert(fits(bytes@, pos + 40, inputs_bytes(t.inputs@)));
            }
            return None;
        },
    };
    assert forall|t: Transaction| #[trigger] fits(bytes@, pos as int, transaction_bytes(t)) implies inputs_bytes(inputs@) == inputs_bytes(t.inputs@) by {
        lemma_tx_parts(bytes@, pos as int, t);
        assert(fits(bytes@, pos + 40, inputs_bytes(t.inputs@)));
    }
    let wide = match read_le(bytes, p, 8) {
        Some(v) => v,
        None => {
            assert forall|t: Transaction| #[trigger] fits(bytes@, pos as int, transaction_bytes(t)) implies false by {
                lemma_tx_parts(bytes@, pos as int, t);
                lemma_le_bytes_len(t.outputs@.len(), 8);
            }
            return None;
        },
    };
    let n_out = wide as u64;
    proof {
        lemma_le_bytes_len(n_out as nat, 8);
        lemma_le_bytes_of_value(bytes@.subrange(p as int, p + 8));
    }
    assert forall|t: Transaction| #[trigger] fits(bytes@, pos as int, transaction_bytes(t)) implies t.outputs@.len() == n_out by {
        lemma_tx_parts(bytes@, pos as int, t);
        lemma_le_bytes_len(t.outputs@.len(), 8);
        assert(bytes@.subrange(p as int, p + 8) == le_bytes(t.outputs@.len(), 8));
    }
    let (outputs, q) = match read_outputs(bytes, p + 8, n_out) {
        Some(x) => x,
        None => {
            assert forall|t: Transaction| #[trigger] fits(bytes@, pos as int, transaction_bytes(t)) implies false by {
                lemma_tx_parts(bytes@, pos as int, t);
                assert(fits(bytes@, p + 8, outputs_bytes(t.outputs@)));
            }
            return None;
        },
    };
    let tx = Transaction { id, inputs, outputs };
    proof {
        let a = tx.id.0@;
        let b = le_bytes(n_in as nat, 8);
        let c = inputs_bytes(tx.inputs@);
        let d = le_bytes(n_out as nat, 8);
        let e = outputs_bytes(tx.outputs@);
        lemma_fits_concat(bytes@, pos as int, a, b);
        lemma_fits_concat(bytes@, pos as int, a + b, c);
        lemma_fits_concat(bytes@, pos as int, a + b + c, d);
        lemma_fits_concat(bytes@, pos as int, a + b + c + d, e);
        assert forall|t: Transaction| #[trigger] fits(bytes@, pos as int, transaction_bytes(t)) implies transaction_bytes(tx) == transaction_bytes(t) by {
            lemma_tx_parts(bytes@, pos as int, t);
            assert(fits(bytes@, p + 8, outputs_bytes(t.outputs@)));
        }
    }
    Some((tx, q))
}

impl Transaction {
    /// Reads a transaction from its canonical bytes. Succeeds exactly on the
    /// canonical bytes of some transaction, and what it reads has those bytes.
    pub fn decode(bytes: &[u8]) -> (r: Result<Transaction, DecodeError>)
        ensures
            r matches Ok(tx) ==> transaction_bytes(tx) == bytes@,
            (exists|t: Transaction| transaction_bytes(t) == bytes@) ==> r is Ok,
    {
        let blen = bytes.len();
        proof {
            assert(bytes@.subrange(0, bytes@.len() as int) =~= bytes@);
        }
        match read_transaction(bytes, 0) {
            Some((tx, p)) => {
                if p != blen {
                    assert forall|t: Transaction| transaction_bytes(t) == bytes@ implies false by {
                        assert(fits(bytes@, 0, transaction_bytes(t)));
                    }
                    return Err(DecodeError::Malformed);
                }
                assert(bytes@.subrange(0, p as int) == transaction_bytes(tx));
                Ok(tx)
            },
            None => {
                assert forall|t: Transaction| transaction_bytes(t) == bytes@ implies false by {
                    assert(fits(bytes@, 0, transaction_bytes(t)));
                }
                Err(DecodeError::Malformed)
            },
        }
    }
}

proof fn lemma_transactions_front(s: Seq<Transaction>)
    requires
        s.len() > 0,
    ensures
        transactions_bytes(s) == transaction_bytes(s[0]) + transactions_bytes(s.drop_first()),
    decreases s.len(),
{
    if s.len() == 1 {
        assert(s.drop_last() =~= Seq::<Transaction>::empty());
        assert(s.drop_first() =~= Seq::<Transaction>::empty());
        assert(transactions_bytes(s) =~= transaction_bytes(s[0]) + transactions_bytes(s.drop_first()));
    } else {
        lemma_transactions_front(s.drop_last());
        assert(s.drop_last().drop_first() =~= s.drop_first().drop_last());
        assert(transactions_bytes(s) =~= transaction_bytes(s[0]) + transactions_bytes(s.drop_first()));
    }
}

proof fn lemma_transactions_len(s: Seq<Transaction>)
    ensures
        s.len() <= transactions_bytes(s).len(),
    decreases s.len(),
{
    if s.len() > 0 {
        lemma_transactions_len(s.drop_last());
    }
}

/// `count` transactions from `pos` on, and the position after them.
#[verifier::rlimit(50)]
pub fn read_transactions(bytes: &[u8], pos: usize, count: u64) -> (r: Option<(Vec<Transaction>, usize)>)
    ensures
        r matches Some((v, p)) ==> v@.len() == count && p == pos + transactions_bytes(v@).len() && fits(
            bytes@,
            pos as int,
            transactions_bytes(v@),
        ),
        forall|s: Seq<Transaction>|
            s.len() == count && #[trigger] fits(bytes@, pos as int, transactions_bytes(s)) ==> (r matches Some((v, p))
                && transactions_bytes(v@) == transactions_bytes(s)),
{
    let blen = bytes.len();
    if pos > blen {
        return None;
    }
    let mut v: Vec<Transaction> = Vec::new();
    let mut at: usize = pos;
    let mut k: u64 = 0;
    assert(bytes@.subrange(pos as int, pos as int) =~= transactions_bytes(v@));
    assert forall|s: Seq<Transaction>| s.len() == count && #[trigger] fits(bytes@, pos as int, transactions_bytes(s)) implies s.subrange(0, count as int) == s && s.subrange(0, 0) == v@ by {
        assert(s.subrange(0, count as int) =~= s);
        assert(s.subrange(0, 0) =~= v@);
    }
    while k < count
        invariant
            blen == bytes@.len(),
            pos <= at <= blen,
            k <= count,
            v@.len() == k,
            at == pos + transactions_bytes(v@).len(),
            fits(bytes@, pos as int, transactions_bytes(v@)),
            forall|s: Seq<Transaction>|
                s.len() == count && #[trigger] fits(bytes@, pos as int, transactions_bytes(s)) ==> fits(
                    bytes@,
                    at as int,
                    transactions_bytes(s.subrange(k as int, count as int)),
                ) && transactions_bytes(v@) == transactions_bytes(s.subrange(0, k as int)),
        decreases count - k,
    {
        assert forall|s: Seq<Transaction>| s.len() == count && #[trigger] fits(bytes@, pos as int, transactions_bytes(s)) implies fits(bytes@, at as int, transaction_bytes(s[k as int])) && fits(
            bytes@,
            at + transaction_bytes(s[k as int]).len(),
            transactions_bytes(s.subrange(k + 1, count as int)),
        ) by {
            let rest = s.subrange(k as int, count as int);
            lemma_transactions_front(rest);
            assert(rest.drop_first() =~= s.subrange(k + 1, count as int));
            lemma_fits_concat(bytes@, at as int, transaction_bytes(rest[0]), transactions_bytes(rest.drop_first()));
        }
        let (item, p) = match read_transaction(bytes, at) {
            Some(x) => x,
            None => {
                assert forall|s: Seq<Transaction>| s.len() == count && #[trigger] fits(bytes@, pos as int, transactions_bytes(s)) implies false by {
                    assert(fits(bytes@, at as int, transaction_bytes(s[k as int])));
                }
                return None;
            },
        };
        proof {
            assert(v@.push(item).drop_last() =~= v@);
            lemma_fits_concat(bytes@, pos as int, transactions_bytes(v@), transaction_bytes(item));
            assert forall|s: Seq<Transaction>| s.len() == count && #[trigger] fits(bytes@, pos as int, transactions_bytes(s)) implies fits(
                bytes@,
                p as int,
                transactions_bytes(s.subrange(k + 1, count as int)),
            ) && transactions_bytes(v@.push(item)) == transactions_bytes(s.subrange(0, k + 1)) by {
                assert(fits(bytes@, at as int, transaction_bytes(s[k as int])));
                assert(s.subrange(0, k + 1).drop_last() =~= s.subrange(0, k as int));
            }
        }
        v.push(item);
        at = p;
        k = k + 1;
    }
    Some((v, at))
}

proof fn lemma_block_parts(s: Seq<u8>, pos: int, b: Block)
    requires
        fits(s, pos, block_bytes(b)),
        s.len() < pow256(8),
    ensures
        fits(s, pos, le_bytes(b.index as nat, 8)),
        fits(s, pos + 8, le_bytes(b.timestamp as nat, 16)),
        fits(s, pos + 24, b.merkle_root.0@),
        fits(s, pos + 56, b.prev_hash.0@),
        fits(s, pos + 88, le_bytes(b.nonce as nat, 8)),
        fits(s, pos + 96, le_bytes(b.difficulty as nat, 4)),
        fits(s, pos + 100, b.hash.0@),
        fits(s, pos + 132, le_bytes(b.transactions@.len(), 8)),
        fits(s, pos + 140, transactions_bytes(b.transactions@)),
        block_bytes(b).len() == 140 + transactions_bytes(b.transactions@).len(),
        b.transactions@.len() < pow256(8),
        le_value(le_bytes(b.transactions@.len(), 8)) == b.transactions@.len(),
        le_value(le_bytes(b.index as nat, 8)) == b.index,
        le_value(le_bytes(b.timestamp as nat, 16)) == b.timestamp,
        le_value(le_bytes(b.nonce as nat, 8)) == b.nonce,
        le_value(le_bytes(b.difficulty as nat, 4)) == b.difficulty,
{
    let f_index = le_bytes(b.index as nat, 8);
    let f_time = le_bytes(b.timestamp as nat, 16);
    let f_root = b.merkle_root.0@;
    let f_prev = b.prev_hash.0@;
    let f_nonce = le_bytes(b.nonce as nat, 8);
    let f_diff = le_bytes(b.difficulty as nat, 4);
    let f_hash = b.hash.0@;
    let f_count = le_bytes(b.transactions@.len(), 8);
    let f_body = transactions_bytes(b.transactions@);
    lemma_le_bytes_len(b.index as nat, 8);
    lemma_le_bytes_len(b.timestamp as nat, 16);
    lemma_le_bytes_len(b.nonce as nat, 8);
    lemma_le_bytes_len(b.difficulty as nat, 4);
    lemma_le_bytes_len(b.transactions@.len(), 8);
    assert(block_bytes(b) =~= f_index + f_time + f_root + f_prev + f_nonce + f_diff + f_hash + f_count + f_body);
    lemma_fits_concat(s, pos, f_index + f_time + f_root + f_prev + f_nonce + f_diff + f_hash + f_count, f_body);
    lemma_fits_concat(s, pos, f_index + f_time + f_root + f_prev + f_nonce + f_diff + f_hash, f_count);
    lemma_fits_concat(s, pos, f_index + f_time + f_root + f_prev + f_nonce + f_diff, f_hash);
    lemma_fits_concat(s, pos, f_index + f_time + f_root + f_prev + f_nonce, f_diff);
    lemma_fits_concat(s, pos, f_index + f_time + f_root + f_prev, f_nonce);
    lemma_fits_concat(s, pos, f_index + f_time + f_root, f_prev);
    lemma_fits_concat(s, pos, f_index + f_time, f_root);
    lemma_fits_concat(s, pos, f_index, f_time);
    lemma_transactions_len(b.transactions@);
    assert(pow256(8) == 0x1_0000_0000_0000_0000nat) by {
        reveal_with_fuel(pow256, 9);
    }
    assert(pow256(4) == 0x1_0000_0000nat) by {
        reveal_with_fuel(pow256, 5);
    }
    assert(pow256(16) == 0x1_0000_0000_0000_0000_0000_0000_0000_0000nat) by {
        reveal_with_fuel(pow256, 17);
    }
    lemma_le_value_of_bytes(b.transactions@.len(), 8);
    lemma_le_value_of_bytes(b.index as nat, 8);
    lemma_le_value_of_bytes(b.timestamp as nat, 16);
    lemma_le_value_of_bytes(b.nonce as nat, 8);
    lemma_le_value_of_bytes(b.difficulty as nat, 4);
}

/// One block at `pos`, and the position after it.
pub fn read_block(bytes: &[u8], pos: usize) -> (r: Option<(Block, usize)>)
    ensures
        r matches Some((b, p)) ==> p == pos + block_bytes(b).len() && fits(bytes@, pos as int, block_bytes(b)),
        forall|c: Block| #[trigger] fits(bytes@, pos as int, block_bytes(c)) ==> (r matches Some((b, p))
            && block_bytes(b) == block_bytes(c)),
{
    let blen = bytes.len();
    proof {
        assert(pow256(8) == 0x1_0000_0000_0000_0000nat) by {
            reveal_with_fuel(pow256, 9);
        }
        assert(pow256(4) == 0x1_0000_0000nat) by {
            reveal_with_fuel(pow256, 5);
        }
    }
    if pos > blen || blen - pos < 140 {
        assert forall|c: Block| #[trigger] fits(bytes@, pos as int, block_bytes(c)) implies false by {
            lemma_block_parts(bytes@, pos as int, c);
        }
        return None;
    }
    let index = match read_le(bytes, pos, 8) {
        Some(v) => v as u64,
        None => return None,
    };
    let timestamp = match read_le(bytes, pos + 8, 16) {
        Some(v) => v,
        None => return None,
    };
    let merkle_root = match read_hash(bytes, pos + 24) {
        Some(h) => h,
        None => return None,
    };
    let prev_hash = match read_hash(bytes, pos + 56) {
        Some(h) => h,
        None => return None,
    };
    let nonce = match read_le(bytes, pos + 88, 8) {
        Some(v) => v as u64,
        None => return None,
    };
    let difficulty = match read_le(bytes, pos + 96, 4) {
        Some(v) => v as u32,
        None => return None,
    };
    let hash = match read_hash(bytes, pos + 100) {
        Some(h) => h,
        None => return None,
    };
    let count = match read_le(bytes, pos + 132, 8) {
        Some(v) => v as u64,
        None => return None,
    };
    proof {
        lemma_le_bytes_of_value(bytes@.subrange(pos as int, pos + 8));
        lemma_le_bytes_of_value(bytes@.subrange(pos + 8, pos + 24));
        lemma_le_bytes_of_value(bytes@.subrange(pos + 88, pos + 96));
        lemma_le_bytes_of_value(bytes@.subrange(pos + 96, pos + 100));
        lemma_le_bytes_of_value(bytes@.subrange(pos + 132, pos + 140));
    }
    assert forall|c: Block| #[trigger] fits(bytes@, pos as int, block_bytes(c)) implies c.transactions@.len() == count && fits(bytes@, pos + 140, transactions_bytes(c.transactions@)) by {
        lemma_block_parts(bytes@, pos as int, c);
        lemma_le_bytes_len(c.transactions@.len(), 8);
        assert(bytes@.subrange(pos + 132, pos + 140) == le_bytes(c.transactions@.len(), 8));
    }
    let (transactions, p) = match read_transactions(bytes, pos + 140, count) {
        Some(x) => x,
        None => return None,
    };
    let b = Block { index, timestamp, transactions, merkle_root, prev_hash, hash, nonce, difficulty };
    proof {
        let f_index = le_bytes(b.index as nat, 8);
        let f_time = le_bytes(b.timestamp as nat, 16);
        let f_nonce = le_bytes(b.nonce as nat, 8);
        let f_diff = le_bytes(b.difficulty as nat, 4);
        let f_count = le_bytes(b.transactions@.len(), 8);
        lemma_le_bytes_len(b.index as nat, 8);
        lemma_le_bytes_len(b.timestamp as nat, 16);
        lemma_le_bytes_len(b.nonce as nat, 8);
        lemma_le_bytes_len(b.difficulty as nat, 4);
        lemma_le_bytes_len(b.transactions@.len(), 8);
        assert(f_index == bytes@.subrange(pos as int, pos + 8));
        assert(f_time == bytes@.subrange(pos + 8, pos + 24));
        assert(f_nonce == bytes@.subrange(pos + 88, pos + 96));
        assert(f_diff == bytes@.subrange(pos + 96, pos + 100));
        assert(f_count == bytes@.subrange(pos + 132, pos + 140));
        assert(bytes@.subrange(pos as int, p as int) =~= block_bytes(b));
        assert forall|c: Block| #[trigger] fits(bytes@, pos as int, block_bytes(c)) implies block_bytes(b) == block_bytes(c) by {
            lemma_block_parts(bytes@, pos as int, c);
            assert(fits(bytes@, pos + 140, transactions_bytes(c.transactions@)));
            assert(bytes@.subrange(pos as int, pos + block_bytes(c).len()) == block_bytes(c));
        }
    }
    Some((b, p))
}

impl Block {
    /// Reads a block from its canonical bytes. Succeeds exactly on the
    /// canonical bytes of some block, and what it reads has those bytes.
    pub fn decode(bytes: &[u8]) -> (r: Result<Block, DecodeError>)
        ensures
            r matches Ok(b) ==> block_bytes(b) == bytes@,
            (exists|b: Block| block_bytes(b) == bytes@) ==> r is Ok,
    {
        let blen = bytes.len();
        proof {
            assert(bytes@.subrange(0, bytes@.len() as int) =~= bytes@);
        }
        match read_block(bytes, 0) {
            Some((b, p)) => {
                if p != blen {
                    assert forall|c: Block| block_bytes(c) == bytes@ implies false by {
                        assert(fits(bytes@, 0, block_bytes(c)));
                    }
                    return Err(DecodeError::Malformed);
                }
                assert(bytes@.subrange(0, p as int) == block_bytes(b));
                Ok(b)
            },
            None => {
                assert forall|c: Block| block_bytes(c) == bytes@ implies false by {
                    assert(fits(bytes@, 0, block_bytes(c)));
                }
                Err(DecodeError::Malformed)
            },
        }
    }
}

proof fn lemma_blocks_front(s: Seq<Block>)
    requires
        s.len() > 0,
    ensures
        blocks_bytes(s) == block_bytes(s[0]) + blocks_bytes(s.drop_first()),
    decreases s.len(),
{
    if s.len() == 1 {
        assert(s.drop_last() =~= Seq::<Block>::empty());
        assert(s.drop_first() =~= Seq::<Block>::empty());
        assert(blocks_bytes(s) =~= block_bytes(s[0]) + blocks_bytes(s.drop_first()));
    } else {
        lemma_blocks_front(s.drop_last());
        assert(s.drop_last().drop_first() =~= s.drop_first().drop_last());
        assert(blocks_bytes(s) =~= block_bytes(s[0]) + blocks_bytes(s.drop_first()));
    }
}

proof fn lemma_blocks_len(s: Seq<Block>)
    ensures
        s.len() <= blocks_bytes(s).len(),
    decreases s.len(),
{
    if s.len() > 0 {
        lemma_blocks_len(s.drop_last());
    }
}

/// `count` blocks from `pos` on, and the position after them.
#[verifier::rlimit(50)]
pub fn read_blocks(bytes: &[u8], pos: usize, count: u64) -> (r: Option<(Vec<Block>, usize)>)
    ensures
        r matches Some((v, p)) ==> v@.len() == count && p == pos + blocks_bytes(v@).len() && fits(
            bytes@,
            pos as int,
            blocks_bytes(v@),
        ),
        forall|s: Seq<Block>|
            s.len() == count && #[trigger] fits(bytes@, pos as int, blocks_bytes(s)) ==> (r matches Some((v, p))
                && blocks_bytes(v@) == blocks_bytes(s)),
{
    let blen = bytes.len();
    if pos > blen {
        return None;
    }
    let mut v: Vec<Block> = Vec::new();
    let mut at: usize = pos;
    let mut k: u64 = 0;
    assert(bytes@.subrange(pos as int, pos as int) =~= blocks_bytes(v@));
    assert forall|s: Seq<Block>| s.len() == count && #[trigger] fits(bytes@, pos as int, blocks_bytes(s)) implies s.subrange(0, count as int) == s && s.subrange(0, 0) == v@ by {
        assert(s.subrange(0, count as int) =~= s);
        assert(s.subrange(0, 0) =~= v@);
    }
    while k < count
        invariant
            blen == bytes@.len(),
            pos <= at <= blen,
            k <= count,
            v@.len() == k,
            at == pos + blocks_bytes(v@).len(),
            fits(bytes@, pos as int, blocks_bytes(v@)),
            forall|s: Seq<Block>|
                s.len() == count && #[trigger] fits(bytes@, pos as int, blocks_bytes(s)) ==> fits(
                    bytes@,
                    at as int,
                    blocks_bytes(s.subrange(k as int, count as int)),
                ) && blocks_bytes(v@) == blocks_bytes(s.subrange(0, k as int)),
        decreases count - k,
    {
        assert forall|s: Seq<Block>| s.len() == count && #[trigger] fits(bytes@, pos as int, blocks_bytes(s)) implies fits(bytes@, at as int, block_bytes(s[k as int])) && fits(
            bytes@,
            at + block_bytes(s[k as int]).len(),
            blocks_bytes(s.subrange(k + 1, count as int)),
        ) by {
            let rest = s.subrange(k as int, count as int);
            lemma_blocks_front(rest);
            assert(rest.drop_first() =~= s.subrange(k + 1, count as int));
            lemma_fits_concat(bytes@, at as int, block_bytes(rest[0]), blocks_bytes(rest.drop_first()));
        }
        let (item, p) = match read_block(bytes, at) {
            Some(x) => x,
            None => {
                assert forall|s: Seq<Block>| s.len() == count && #[trigger] fits(bytes@, pos as int, blocks_bytes(s)) implies false by {
                    assert(fits(bytes@, at as int, block_bytes(s[k as int])));
                }
                return None;
            },
        };
        proof {
            assert(v@.push(item).drop_last() =~= v@);
            lemma_fits_concat(bytes@, pos as int, blocks_bytes(v@), block_bytes(item));
            assert forall|s: Seq<Block>| s.len() == count && #[trigger] fits(bytes@, pos as int, blocks_bytes(s)) implies fits(
                bytes@,
                p as int,
                blocks_bytes(s.subrange(k + 1, count as int)),
            ) && blocks_bytes(v@.push(item)) == blocks_bytes(s.subrange(0, k + 1)) by {
                assert(fits(bytes@, at as int, block_bytes(s[k as int])));
                assert(s.subrange(0, k + 1).drop_last() =~= s.subrange(0, k as int));
            }
        }
        v.push(item);
        at = p;
        k = k + 1;
    }
    Some((v, at))
}

impl Blockchain {
    /// Reads a chain snapshot. Succeeds exactly on the canonical bytes of
    /// some chain, and what it reads has those bytes.
    pub fn decode(bytes: &[u8]) -> (r: Result<Blockchain, DecodeError>)
        ensures
            r matches Ok(c) ==> chain_bytes(c) == bytes@,
            (exists|c: Blockchain| chain_bytes(c) == bytes@) ==> r is Ok,
    {
        let ghost enc = exists|c: Blockchain| chain_bytes(c) == bytes@;
        let ghost c0 = choose|c: Blockchain| chain_bytes(c) == bytes@;
        let blen = bytes.len();
        proof {
            assert(pow256(8) == 0x1_0000_0000_0000_0000nat) by {
                reveal_with_fuel(pow256, 9);
            }
            assert(pow256(4) == 0x1_0000_0000nat) by {
                reveal_with_fuel(pow256, 5);
            }
        }
        assert(enc ==> {
            &&& fits(bytes@, 0, le_bytes(c0.difficulty as nat, 4))
            &&& fits(bytes@, 4, le_bytes(c0.chain@.len(), 8))
            &&& fits(bytes@, 12, blocks_bytes(c0.chain@))
            &&& bytes@.len() == 12 + blocks_bytes(c0.chain@).len()
            &&& le_value(le_bytes(c0.chain@.len(), 8)) == c0.chain@.len()
        }) by {
            if enc {
                let a = le_bytes(c0.difficulty as nat, 4);
                let b = le_bytes(c0.chain@.len(), 8);
                let d = blocks_bytes(c0.chain@);
                lemma_le_bytes_len(c0.difficulty as nat, 4);
                lemma_le_bytes_len(c0.chain@.len(), 8);
                assert(bytes@.subrange(0, bytes@.len() as int) =~= bytes@);
                assert(fits(bytes@, 0, a + b + d));
                lemma_fits_concat(bytes@, 0, a + b, d);
                lemma_fits_concat(bytes@, 0, a, b);
                lemma_blocks_len(c0.chain@);
                lemma_le_value_of_bytes(c0.chain@.len(), 8);
            }
        }
        let difficulty = match read_le(bytes, 0, 4) {
            Some(v) => v as u32,
            None => return Err(DecodeError::Malformed),
        };
        let count = match read_le(bytes, 4, 8) {
            Some(v) => v as u64,
            None => return Err(DecodeError::Malformed),
        };
        proof {
            lemma_le_bytes_of_value(bytes@.subrange(0, 4));
            lemma_le_bytes_of_value(bytes@.subrange(4, 12));
            lemma_le_bytes_len(difficulty as nat, 4);
            lemma_le_bytes_len(count as nat, 8);
        }
        assert(enc ==> count == c0.chain@.len()) by {
            if enc {
                lemma_le_bytes_len(c0.chain@.len(), 8);
                assert(bytes@.subrange(4, 12) == le_bytes(c0.chain@.len(), 8));
            }
        }
        let (chain, p) = match read_blocks(bytes, 12, count) {
            Some(x) => x,
            None => return Err(DecodeError::Malformed),
        };
        if p != blen {
            return Err(DecodeError::Malformed);
        }
        let c = Blockchain { chain, difficulty };
        proof {
            assert(bytes@.subrange(12, p as int) == blocks_bytes(c.chain@));
            assert(chain_bytes(c) =~= bytes@);
        }
        Ok(c)
    }
}

proof fn lemma_entries_front(s: Seq<(OutPoint, TxOutput)>)
    requires
        s.len() > 0,
    ensures
        entries_bytes(s) == entry_bytes(s[0]) + entries_bytes(s.drop_first()),
    decreases s.len(),
{
    if s.len() == 1 {
        assert(s.drop_last() =~= Seq::<(OutPoint, TxOutput)>::empty());
        assert(s.drop_first() =~= Seq::<(OutPoint, TxOutput)>::empty());
        assert(entries_bytes(s) =~= entry_bytes(s[0]) + entries_bytes(s.drop_first()));
    } else {
        lemma_entries_front(s.drop_last());
        assert(s.drop_last().drop_first() =~= s.drop_first().drop_last());
        assert(entries_bytes(s) =~= entry_bytes(s[0]) + entries_bytes(s.drop_first()));
    }
}

proof fn lemma_entries_len(s: Seq<(OutPoint, TxOutput)>)
    ensures
        s.len() <= entries_bytes(s).len(),
    decreases s.len(),
{
    if s.len() > 0 {
        lemma_entries_len(s.drop_last());
    }
}

/// Entries with the same bytes name the same outpoint.
proof fn lemma_entry_key(a: (OutPoint, TxOutput), b: (OutPoint, TxOutput))
    requires
        entry_bytes(a) == entry_bytes(b),
    ensures
        key_view(a.0) == key_view(b.0),
{
    let x = entry_bytes(a);
    lemma_le_bytes_len(a.0.1 as nat, 4);
    lemma_le_bytes_len(b.0.1 as nat, 4);
    assert(x.subrange(0, 32) =~= a.0.0.0@);
    assert(x.subrange(0, 32) =~= b.0.0.0@);
    assert(x.subrange(32, 36) =~= le_bytes(a.0.1 as nat, 4));
    assert(x.subrange(32, 36) =~= le_bytes(b.0.1 as nat, 4));
    assert(pow256(4) == 0x1_0000_0000nat) by {
        reveal_with_fuel(pow256, 5);
    }
    lemma_le_value_of_bytes(a.0.1 as nat, 4);
    lemma_le_value_of_bytes(b.0.1 as nat, 4);
}

/// One entry at `pos`, and the position after it.
pub fn read_entry(bytes: &[u8], pos: usize) -> (r: Option<((OutPoint, TxOutput), usize)>)
    ensures
        r matches Some((e, p)) ==> p == pos + entry_bytes(e).len() && fits(bytes@, pos as int, entry_bytes(e)),
        forall|t: (OutPoint, TxOutput)| #[trigger] fits(bytes@, pos as int, entry_bytes(t)) ==> (r matches Some((e, p))
            && entry_bytes(e) == entry_bytes(t)),
{
    let blen = bytes.len();
    proof {
        assert(pow256(4) == 0x1_0000_0000nat) by {
            reveal_with_fuel(pow256, 5);
        }
    }
    assert forall|t: (OutPoint, TxOutput)| #[trigger] fits(bytes@, pos as int, entry_bytes(t)) implies fits(bytes@, pos as int, t.0.0.0@) && fits(bytes@, pos + 32, le_bytes(t.0.1 as nat, 4)) && fits(bytes@, pos + 36, output_bytes(t.1)) && le_value(le_bytes(t.0.1 as nat, 4)) == t.0.1 by {
        lemma_le_bytes_len(t.0.1 as nat, 4);
        lemma_fits_concat(bytes@, pos as int, t.0.0.0@ + le_bytes(t.0.1 as nat, 4), output_bytes(t.1));
        lemma_fits_concat(bytes@, pos as int, t.0.0.0@, le_bytes(t.0.1 as nat, 4));
        lemma_le_value_of_bytes(t.0.1 as nat, 4);
    }
    let txid = match read_hash(bytes, pos) {
        Some(h) => h,
        None => return None,
    };
    let index = match read_le(bytes, pos + 32, 4) {
        Some(v) => v as u32,
        None => {
            assert forall|t: (OutPoint, TxOutput)| #[trigger] fits(bytes@, pos as int, entry_bytes(t)) implies false by {
                lemma_le_bytes_len(t.0.1 as nat, 4);
            }
            return None;
        },
    };
    proof {
        lemma_le_bytes_of_value(bytes@.subrange(pos + 32, pos + 36));
        lemma_le_bytes_len(index as nat, 4);
    }
    let (output, p) = match read_output(bytes, pos + 36) {
        Some(x) => x,
        None => {
            assert forall|t: (OutPoint, TxOutput)| #[trigger] fits(bytes@, pos as int, entry_bytes(t)) implies false by {
                assert(fits(bytes@, pos + 36, output_bytes(t.1)));
            }
            return None;
        },
    };
    let e = ((txid, index), output);
    proof {
        lemma_fits_concat(bytes@, pos as int, txid.0@, le_bytes(index as nat, 4));
        lemma_fits_concat(bytes@, pos as int, txid.0@ + le_bytes(index as nat, 4), output_bytes(output));
        assert forall|t: (OutPoint, TxOutput)| #[trigger] fits(bytes@, pos as int, entry_bytes(t)) implies entry_bytes(e) == entry_bytes(t) by {
            lemma_le_bytes_len(t.0.1 as nat, 4);
            assert(bytes@.subrange(pos + 32, pos + 36) == le_bytes(t.0.1 as nat, 4));
            assert(fits(bytes@, pos + 36, output_bytes(t.1)));
        }
    }
    Some((e, p))
}

/// `count` entries from `pos` on, and the position after them.
#[verifier::rlimit(50)]
pub fn read_entries(bytes: &[u8], pos: usize, count: u64) -> (r: Option<(Vec<(OutPoint, TxOutput)>, usize)>)
    ensures
        r matches Some((v, p)) ==> v@.len() == count && p == pos + entries_bytes(v@).len() && fits(
            bytes@,
            pos as int,
            entries_bytes(v@),
        ),
        forall|s: Seq<(OutPoint, TxOutput)>|
            s.len() == count && #[trigger] fits(bytes@, pos as int, entries_bytes(s)) ==> (r matches Some((v, p))
                && entries_bytes(v@) == entries_bytes(s) && forall|j: int| 0 <= j < count ==> entry_bytes(#[trigger] v@[j]) == entry_bytes(s[j])),
{
    let blen = bytes.len();
    if pos > blen {
        return None;
    }
    let mut v: Vec<(OutPoint, TxOutput)> = Vec::new();
    let mut at: usize = pos;
    let mut k: u64 = 0;
    assert(bytes@.subrange(pos as int, pos as int) =~= entries_bytes(v@));
    assert forall|s: Seq<(OutPoint, TxOutput)>| s.len() == count && #[trigger] fits(bytes@, pos as int, entries_bytes(s)) implies s.subrange(0, count as int) == s && s.subrange(0, 0) == v@ by {
        assert(s.subrange(0, count as int) =~= s);
        assert(s.subrange(0, 0) =~= v@);
    }
    while k < count
        invariant
            blen == bytes@.len(),
            pos <= at <= blen,
            k <= count,
            v@.len() == k,
            at == pos + entries_bytes(v@).len(),
            fits(bytes@, pos as int, entries_bytes(v@)),
            forall|s: Seq<(OutPoint, TxOutput)>|
                s.len() == count && #[trigger] fits(bytes@, pos as int, entries_bytes(s)) ==> fits(
                    bytes@,
                    at as int,
                    entries_bytes(s.subrange(k as int, count as int)),
                ) && entries_bytes(v@) == entries_bytes(s.subrange(0, k as int))
                && forall|j: int| 0 <= j < k ==> entry_bytes(#[trigger] v@[j]) == entry_bytes(s[j]),
        decreases count - k,
    {
        assert forall|s: Seq<(OutPoint, TxOutput)>| s.len() == count && #[trigger] fits(bytes@, pos as int, entries_bytes(s)) implies fits(bytes@, at as int, entry_bytes(s[k as int])) && fits(
            bytes@,
            at + entry_bytes(s[k as int]).len(),
            entries_bytes(s.subrange(k + 1, count as int)),
        ) by {
            let rest = s.subrange(k as int, count as int);
            lemma_entries_front(rest);
            assert(rest.drop_first() =~= s.subrange(k + 1, count as int));
            lemma_fits_concat(bytes@, at as int, entry_bytes(rest[0]), entries_bytes(rest.drop_first()));
        }
        let (item, p) = match read_entry(bytes, at) {
            Some(x) => x,
            None => {
                assert forall|s: Seq<(OutPoint, TxOutput)>| s.len() == count && #[trigger] fits(bytes@, pos as int, entries_bytes(s)) implies false by {
                    assert(fits(bytes@, at as int, entry_bytes(s[k as int])));
                }
                return None;
            },
        };
        proof {
            assert(v@.push(item).drop_last() =~= v@);
            lemma_fits_concat(bytes@, pos as int, entries_bytes(v@), entry_bytes(item));
            assert forall|s: Seq<(OutPoint, TxOutput)>| s.len() == count && #[trigger] fits(bytes@, pos as int, entries_bytes(s)) implies fits(
                bytes@,
                p as int,
                entries_bytes(s.subrange(k + 1, count as int)),
            ) && entries_bytes(v@.push(item)) == entries_bytes(s.subrange(0, k + 1))
                && forall|j: int| 0 <= j < k + 1 ==> entry_bytes(#[trigger] v@.push(item)[j]) == entry_bytes(s[j]) by {
                assert(fits(bytes@, at as int, entry_bytes(s[k as int])));
                assert(s.subrange(0, k + 1).drop_last() =~= s.subrange(0, k as int));
            }
        }
        v.push(item);
        at = p;
        k = k + 1;
    }
    Some((v, at))
}

impl UtxoSet {
    /// Reads a snapshot of a set. Succeeds exactly on the canonical bytes of
    /// some set whose outpoints are distinct, and what it reads has those bytes.
    pub fn decode(bytes: &[u8]) -> (r: Result<UtxoSet, DecodeError>)
        ensures
            r matches Ok(u) ==> u.wf() && utxo_set_bytes(u) == bytes@,
            (exists|u: UtxoSet| u.wf() && utxo_set_bytes(u) == bytes@) ==> r is Ok,
    {
        let ghost enc = exists|u: UtxoSet| u.wf() && utxo_set_bytes(u) == bytes@;
        let ghost u0 = choose|u: UtxoSet| u.wf() && utxo_set_bytes(u) == bytes@;
        let blen = bytes.len();
        proof {
            assert(pow256(8) == 0x1_0000_0000_0000_0000nat) by {
                reveal_with_fuel(pow256, 9);
            }
        }
        assert(enc ==> {
            &&& fits(bytes@, 0, le_bytes(u0.utxos@.len(), 8))
            &&& fits(bytes@, 8, entries_bytes(u0.utxos@))
            &&& bytes@.len() == 8 + entries_bytes(u0.utxos@).len()
            &&& le_value(le_bytes(u0.utxos@.len(), 8)) == u0.utxos@.len()
        }) by {
            if enc {
                let a = le_bytes(u0.utxos@.len(), 8);
                let d = entries_bytes(u0.utxos@);
                lemma_le_bytes_len(u0.utxos@.len(), 8);
                assert(bytes@.subrange(0, bytes@.len() as int) =~= bytes@);
                assert(fits(bytes@, 0, a + d));
                lemma_fits_concat(bytes@, 0, a, d);
                lemma_entries_len(u0.utxos@);
                lemma_le_value_of_bytes(u0.utxos@.len(), 8);
            }
        }
        let count = match read_le(bytes, 0, 8) {
            Some(v) => v as u64,
            None => return Err(DecodeError::Malformed),
        };
        proof {
            lemma_le_bytes_of_value(bytes@.subrange(0, 8));
            lemma_le_bytes_len(count as nat, 8);
        }
        assert(enc ==> count == u0.utxos@.len()) by {
            if enc {
                lemma_le_bytes_len(u0.utxos@.len(), 8);
                assert(bytes@.subrange(0, 8) == le_bytes(u0.utxos@.len(), 8));
            }
        }
        let (utxos, p) = match read_entries(bytes, 8, count) {
            Some(x) => x,
            None => return Err(DecodeError::Malformed),
        };
        if p != blen {
            return Err(DecodeError::Malformed);
        }
        assert(enc ==> u0.wf() && u0.utxos@.len() == utxos@.len());
        assert(enc ==> forall|j: int| 0 <= j < utxos@.len() ==> key_view(#[trigger] utxos@[j].0) == key_view(u0.utxos@[j].0)) by {
            if enc {
                assert forall|j: int| 0 <= j < utxos@.len() implies key_view(#[trigger] utxos@[j].0) == key_view(u0.utxos@[j].0) by {
                    lemma_entry_key(utxos@[j], u0.utxos@[j]);
                }
            }
        }
        let mut i: usize = 0;
        while i < utxos.len()
            invariant
                i <= utxos@.len(),
                enc == (exists|u: UtxoSet| u.wf() && utxo_set_bytes(u) == bytes@),
                enc ==> u0.wf() && u0.utxos@.len() == utxos@.len(),
                enc ==> forall|j: int| 0 <= j < utxos@.len() ==> key_view(#[trigger] utxos@[j].0) == key_view(u0.utxos@[j].0),
                forall|a: int, b: int| 0 <= a < b < i ==> key_view(#[trigger] utxos@[a].0) != key_view(#[trigger] utxos@[b].0),
            decreases utxos@.len() - i,
        {
            let mut j: usize = 0;
            while j < i
                invariant
                    j <= i < utxos@.len(),
                    enc == (exists|u: UtxoSet| u.wf() && utxo_set_bytes(u) == bytes@),
                enc ==> u0.wf() && u0.utxos@.len() == utxos@.len(),
                    enc ==> forall|j: int| 0 <= j < utxos@.len() ==> key_view(#[trigger] utxos@[j].0) == key_view(u0.utxos@[j].0),
                    forall|a: int| 0 <= a < j ==> key_view(#[trigger] utxos@[a].0) != key_view(utxos@[i as int].0),
                decreases i - j,
            {
                if utxos[j].0.1 == utxos[i].0.1 && utxos[j].0.0.equals(&utxos[i].0.0) {
                    assert(!enc) by {
                        if enc {
                            assert(key_view(utxos@[j as int].0) == key_view(u0.utxos@[j as int].0));
                            assert(key_view(utxos@[i as int].0) == key_view(u0.utxos@[i as int].0));
                            assert(key_view(u0.utxos@[j as int].0) == key_view(u0.utxos@[i as int].0));
                        }
                    }
                    return Err(DecodeError::Malformed);
                }
                j = j + 1;
            }
            i = i + 1;
        }
        let u = UtxoSet { utxos };
        proof {
            assert(bytes@.subrange(8, p as int) == entries_bytes(u.utxos@));
            assert(utxo_set_bytes(u) =~= bytes@);
        }
        Ok(u)
    }
}

} // verus!
