use vstd::prelude::*;

use sha2::Digest;

use crate::utxo::{InputView, OutputView, Transaction, TransactionView};

verus! {

/// The lowercase hexadecimal digit for a value below 16.
pub open spec fn hex_digit(n: int) -> char {
    seq!['0', '1', '2', '3', '4', '5', '6', '7', '8', '9', 'a', 'b', 'c', 'd', 'e', 'f'][n]
}

/// Two lowercase hexadecimal digits per byte, the high half first.
pub open spec fn hex_of(b: Seq<u8>) -> Seq<char>
    decreases b.len(),
{
    if b.len() == 0 {
        Seq::empty()
    } else {
        hex_of(b.drop_last()) + seq![hex_digit(b.last() as int / 16), hex_digit(b.last() as int % 16)]
    }
}

/// The SHA-256 digest of `b`.
pub uninterp spec fn sha256_of(b: Seq<u8>) -> Seq<u8>;

/// Relies on hex::encode: lowercase, two digits per byte, high half first.
#[verifier::external_body]
pub(crate) fn hex_encode(b: &[u8]) -> (r: String)
    ensures
        r@ == hex_of(b@),
{
    hex::encode(b)
}

/// Relies on sha2::Sha256::digest: the 32-byte SHA-256 digest of `b`.
#[verifier::external_body]
fn sha256(b: &[u8]) -> (r: Vec<u8>)
    ensures
        r@ == sha256_of(b@),
        r@.len() == 32,
{
    sha2::Sha256::digest(b).to_vec()
}

/// The lowercase hexadecimal SHA-256 digest of `b`.
pub fn sha256_hex(b: &[u8]) -> (r: String)
    ensures
        r@ == hex_of(sha256_of(b@)),
        r@.len() == 64,
{
    let d = sha256(b);
    let r = hex_encode(d.as_slice());
    proof {
        lemma_hex_len(d@);
    }
    r
}

pub proof fn lemma_hex_len(b: Seq<u8>)
    ensures
        hex_of(b).len() == 2 * b.len(),
    decreases b.len(),
{
    if b.len() > 0 {
        lemma_hex_len(b.drop_last());
    }
}

/// `x` as `n` bytes, least significant first.
pub open spec fn le_bytes(x: nat, n: nat) -> Seq<u8>
    decreases n,
{
    if n == 0 {
        Seq::empty()
    } else {
        seq![(x % 256) as u8] + le_bytes(x / 256, (n - 1) as nat)
    }
}

/// A string: its length in bytes as eight bytes, then its UTF-8 bytes.
pub open spec fn encode_text(s: Seq<char>) -> Seq<u8> {
    le_bytes(vstd::utf8::encode_utf8(s).len(), 8) + vstd::utf8::encode_utf8(s)
}

pub open spec fn encode_input(x: InputView) -> Seq<u8> {
    encode_text(x.txid) + le_bytes(x.index as nat, 4) + encode_text(x.signature) + encode_text(
        x.pubkey,
    )
}

pub open spec fn encode_output(o: OutputView) -> Seq<u8> {
    le_bytes(o.amount as nat, 8) + encode_text(o.recipient)
}

pub open spec fn encode_inputs(s: Seq<InputView>) -> Seq<u8>
    decreases s.len(),
{
    if s.len() == 0 {
        Seq::empty()
    } else {
        encode_inputs(s.drop_last()) + encode_input(s.last())
    }
}

pub open spec fn encode_outputs(s: Seq<OutputView>) -> Seq<u8>
    decreases s.len(),
{
    if s.len() == 0 {
        Seq::empty()
    } else {
        encode_outputs(s.drop_last()) + encode_output(s.last())
    }
}

/// The canonical bytes of a transaction: the inputs, then the outputs, each
/// sequence preceded by its length as eight bytes, each field in declaration
/// order, integers little-endian at their full width.
pub open spec fn encode_transaction(t: TransactionView) -> Seq<u8> {
    le_bytes(t.inputs.len(), 8) + encode_inputs(t.inputs) + le_bytes(t.outputs.len(), 8)
        + encode_outputs(t.outputs)
}

/// The identifier of a transaction: the hexadecimal SHA-256 digest of its
/// canonical bytes.
pub open spec fn txid_of(t: TransactionView) -> Seq<char> {
    hex_of(sha256_of(encode_transaction(t)))
}

/// A transaction's identifier depends on its contents alone: two
/// transactions with equal fields, in equal order, have the same identifier,
/// however often it is computed.
pub proof fn lemma_txid_stable(t1: TransactionView, t2: TransactionView)
    requires
        t1 == t2,
    ensures
        txid_of(t1) == txid_of(t2),
{
}

/// `256` to the power `n`.
pub open spec fn pow256(n: nat) -> nat
    decreases n,
{
    if n == 0 {
        1
    } else {
        256 * pow256((n - 1) as nat)
    }
}

/// Every length that the canonical bytes of `t` record fits in the eight
/// bytes set aside for it, as it does for any transaction held in memory.
pub open spec fn lengths_fit(t: TransactionView) -> bool {
    &&& t.inputs.len() < pow256(8)
    &&& t.outputs.len() < pow256(8)
    &&& forall|i: int|
        0 <= i < t.inputs.len() ==> {
            let x = #[trigger] t.inputs[i];
            &&& vstd::utf8::encode_utf8(x.txid).len() < pow256(8)
            &&& vstd::utf8::encode_utf8(x.signature).len() < pow256(8)
            &&& vstd::utf8::encode_utf8(x.pubkey).len() < pow256(8)
        }
    &&& forall|i: int|
        0 <= i < t.outputs.len() ==> vstd::utf8::encode_utf8(
            (#[trigger] t.outputs[i]).recipient,
        ).len() < pow256(8)
}

proof fn lemma_split<T>(a1: Seq<T>, r1: Seq<T>, a2: Seq<T>, r2: Seq<T>)
    requires
        a1 + r1 == a2 + r2,
        a1.len() == a2.len(),
    ensures
        a1 == a2,
        r1 == r2,
{
    assert((a1 + r1).len() == a1.len() + r1.len());
    assert((a2 + r2).len() == a2.len() + r2.len());
    assert(r1.len() == r2.len());
    assert forall|i: int| 0 <= i < a1.len() implies a1[i] == a2[i] by {
        assert((a1 + r1)[i] == a1[i]);
        assert((a2 + r2)[i] == a2[i]);
    }
    assert forall|i: int| 0 <= i < r1.len() implies r1[i] == r2[i] by {
        assert((a1 + r1)[a1.len() + i] == r1[i]);
        assert((a2 + r2)[a2.len() + i] == r2[i]);
    }
    assert(a1 =~= a2);
    assert(r1 =~= r2);
}

proof fn lemma_le_bytes_len(x: nat, n: nat)
    ensures
        le_bytes(x, n).len() == n,
    decreases n,
{
    if n > 0 {
        lemma_le_bytes_len(x / 256, (n - 1) as nat);
    }
}

proof fn lemma_le_bytes_injective(x: nat, y: nat, n: nat)
    requires
        le_bytes(x, n) == le_bytes(y, n),
        x < pow256(n),
        y < pow256(n),
    ensures
        x == y,
    decreases n,
{
    if n > 0 {
        let p = pow256((n - 1) as nat);
        let a = seq![(x % 256) as u8];
        let b = seq![(y % 256) as u8];
        lemma_split(a, le_bytes(x / 256, (n - 1) as nat), b, le_bytes(y / 256, (n - 1) as nat));
        assert(a[0] == b[0]);
        assert(x % 256 == y % 256);
        assert(x / 256 < p) by (nonlinear_arith)
            requires
                x < 256 * p,
        ;
        assert(y / 256 < p) by (nonlinear_arith)
            requires
                y < 256 * p,
        ;
        lemma_le_bytes_injective(x / 256, y / 256, (n - 1) as nat);
        assert(x == 256 * (x / 256) + x % 256) by (nonlinear_arith);
        assert(y == 256 * (y / 256) + y % 256) by (nonlinear_arith);
    }
}

proof fn lemma_pow256_values()
    ensures
        pow256(4) == 0x1_0000_0000,
        pow256(8) == 0x1_0000_0000_0000_0000,
{
    assert(pow256(0) == 1);
    assert(pow256(1) == 0x100);
    assert(pow256(2) == 0x1_0000);
    assert(pow256(3) == 0x100_0000);
    assert(pow256(4) == 0x1_0000_0000);
    assert(pow256(5) == 0x100_0000_0000);
    assert(pow256(6) == 0x1_0000_0000_0000);
    assert(pow256(7) == 0x100_0000_0000_0000);
    assert(pow256(8) == 0x1_0000_0000_0000_0000);
}

/// A fixed-width number followed by anything is read back unambiguously.
proof fn lemma_read_number(x: nat, y: nat, n: nat, r1: Seq<u8>, r2: Seq<u8>)
    requires
        le_bytes(x, n) + r1 == le_bytes(y, n) + r2,
        x < pow256(n),
        y < pow256(n),
    ensures
        x == y,
        r1 == r2,
{
    lemma_le_bytes_len(x, n);
    lemma_le_bytes_len(y, n);
    lemma_split(le_bytes(x, n), r1, le_bytes(y, n), r2);
    lemma_le_bytes_injective(x, y, n);
}

/// An encoded string followed by anything is read back unambiguously.
proof fn lemma_read_text(s1: Seq<char>, s2: Seq<char>, r1: Seq<u8>, r2: Seq<u8>)
    requires
        encode_text(s1) + r1 == encode_text(s2) + r2,
        vstd::utf8::encode_utf8(s1).len() < pow256(8),
        vstd::utf8::encode_utf8(s2).len() < pow256(8),
    ensures
        s1 == s2,
        r1 == r2,
{
    let b1 = vstd::utf8::encode_utf8(s1);
    let b2 = vstd::utf8::encode_utf8(s2);
    assert(encode_text(s1) + r1 =~= le_bytes(b1.len(), 8) + (b1 + r1));
    assert(encode_text(s2) + r2 =~= le_bytes(b2.len(), 8) + (b2 + r2));
    lemma_read_number(b1.len(), b2.len(), 8, b1 + r1, b2 + r2);
    lemma_split(b1, r1, b2, r2);
    vstd::utf8::encode_utf8_decode_utf8(s1);
    vstd::utf8::encode_utf8_decode_utf8(s2);
}

spec fn input_fits(x: InputView) -> bool {
    &&& vstd::utf8::encode_utf8(x.txid).len() < pow256(8)
    &&& vstd::utf8::encode_utf8(x.signature).len() < pow256(8)
    &&& vstd::utf8::encode_utf8(x.pubkey).len() < pow256(8)
}

proof fn lemma_read_input(x1: InputView, x2: InputView, r1: Seq<u8>, r2: Seq<u8>)
    requires
        encode_input(x1) + r1 == encode_input(x2) + r2,
        input_fits(x1),
        input_fits(x2),
    ensures
        x1 == x2,
        r1 == r2,
{
    lemma_pow256_values();
    let t1 = le_bytes(x1.index as nat, 4) + (encode_text(x1.signature) + (encode_text(x1.pubkey)
        + r1));
    let t2 = le_bytes(x2.index as nat, 4) + (encode_text(x2.signature) + (encode_text(x2.pubkey)
        + r2));
    assert(encode_input(x1) + r1 =~= encode_text(x1.txid) + t1);
    assert(encode_input(x2) + r2 =~= encode_text(x2.txid) + t2);
    lemma_read_text(x1.txid, x2.txid, t1, t2);
    lemma_read_number(
        x1.index as nat,
        x2.index as nat,
        4,
        encode_text(x1.signature) + (encode_text(x1.pubkey) + r1),
        encode_text(x2.signature) + (encode_text(x2.pubkey) + r2),
    );
    lemma_read_text(
        x1.signature,
        x2.signature,
        encode_text(x1.pubkey) + r1,
        encode_text(x2.pubkey) + r2,
    );
    lemma_read_text(x1.pubkey, x2.pubkey, r1, r2);
}

proof fn lemma_read_output(o1: OutputView, o2: OutputView, r1: Seq<u8>, r2: Seq<u8>)
    requires
        encode_output(o1) + r1 == encode_output(o2) + r2,
        vstd::utf8::encode_utf8(o1.recipient).len() < pow256(8),
        vstd::utf8::encode_utf8(o2.recipient).len() < pow256(8),
    ensures
        o1 == o2,
        r1 == r2,
{
    lemma_pow256_values();
    assert(encode_output(o1) + r1 =~= le_bytes(o1.amount as nat, 8) + (encode_text(o1.recipient)
        + r1));
    assert(encode_output(o2) + r2 =~= le_bytes(o2.amount as nat, 8) + (encode_text(o2.recipient)
        + r2));
    lemma_read_number(
        o1.amount as nat,
        o2.amount as nat,
        8,
        encode_text(o1.recipient) + r1,
        encode_text(o2.recipient) + r2,
    );
    lemma_read_text(o1.recipient, o2.recipient, r1, r2);
}

proof fn lemma_inputs_front(s: Seq<InputView>)
    requires
        s.len() > 0,
    ensures
        encode_inputs(s) == encode_input(s[0]) + encode_inputs(s.drop_first()),
    decreases s.len(),
{
    if s.len() == 1 {
        assert(s.drop_last() =~= Seq::<InputView>::empty());
        assert(s.drop_first() =~= Seq::<InputView>::empty());
        assert(encode_inputs(s) =~= encode_input(s[0]) + encode_inputs(s.drop_first()));
    } else {
        lemma_inputs_front(s.drop_last());
        assert(s.drop_last().drop_first() =~= s.drop_first().drop_last());
        assert(s.drop_first().last() == s.last());
        assert(s.drop_last()[0] == s[0]);
        assert(encode_inputs(s) =~= encode_input(s[0]) + encode_inputs(s.drop_first()));
    }
}

proof fn lemma_outputs_front(s: Seq<OutputView>)
    requires
        s.len() > 0,
    ensures
        encode_outputs(s) == encode_output(s[0]) + encode_outputs(s.drop_first()),
    decreases s.len(),
{
    if s.len() == 1 {
        assert(s.drop_last() =~= Seq::<OutputView>::empty());
        assert(s.drop_first() =~= Seq::<OutputView>::empty());
        assert(encode_outputs(s) =~= encode_output(s[0]) + encode_outputs(s.drop_first()));
    } else {
        lemma_outputs_front(s.drop_last());
        assert(s.drop_last().drop_first() =~= s.drop_first().drop_last());
        assert(s.drop_first().last() == s.last());
        assert(s.drop_last()[0] == s[0]);
        assert(encode_outputs(s) =~= encode_output(s[0]) + encode_outputs(s.drop_first()));
    }
}

proof fn lemma_read_inputs(s1: Seq<InputView>, s2: Seq<InputView>, r1: Seq<u8>, r2: Seq<u8>)
    requires
        encode_inputs(s1) + r1 == encode_inputs(s2) + r2,
        s1.len() == s2.len(),
        forall|i: int| 0 <= i < s1.len() ==> input_fits(#[trigger] s1[i]),
        forall|i: int| 0 <= i < s2.len() ==> input_fits(#[trigger] s2[i]),
    ensures
        s1 == s2,
        r1 == r2,
    decreases s1.len(),
{
    if s1.len() == 0 {
        assert(encode_inputs(s1) + r1 =~= r1);
        assert(encode_inputs(s2) + r2 =~= r2);
        assert(s1 =~= s2);
    } else {
        lemma_inputs_front(s1);
        lemma_inputs_front(s2);
        let t1 = encode_inputs(s1.drop_first()) + r1;
        let t2 = encode_inputs(s2.drop_first()) + r2;
        assert(encode_inputs(s1) + r1 =~= encode_input(s1[0]) + t1);
        assert(encode_inputs(s2) + r2 =~= encode_input(s2[0]) + t2);
        lemma_read_input(s1[0], s2[0], t1, t2);
        lemma_read_inputs(s1.drop_first(), s2.drop_first(), r1, r2);
        assert(s1 =~= s2) by {
            assert forall|i: int| 0 <= i < s1.len() implies s1[i] == s2[i] by {
                if i > 0 {
                    assert(s1[i] == s1.drop_first()[i - 1]);
                    assert(s2[i] == s2.drop_first()[i - 1]);
                }
            }
        }
    }
}

proof fn lemma_read_outputs(s1: Seq<OutputView>, s2: Seq<OutputView>, r1: Seq<u8>, r2: Seq<u8>)
    requires
        encode_outputs(s1) + r1 == encode_outputs(s2) + r2,
        s1.len() == s2.len(),
        forall|i: int|
            0 <= i < s1.len() ==> vstd::utf8::encode_utf8((#[trigger] s1[i]).recipient).len()
                < pow256(8),
        forall|i: int|
            0 <= i < s2.len() ==> vstd::utf8::encode_utf8((#[trigger] s2[i]).recipient).len()
                < pow256(8),
    ensures
        s1 == s2,
        r1 == r2,
    decreases s1.len(),
{
    if s1.len() == 0 {
        assert(encode_outputs(s1) + r1 =~= r1);
        assert(encode_outputs(s2) + r2 =~= r2);
        assert(s1 =~= s2);
    } else {
        lemma_outputs_front(s1);
        lemma_outputs_front(s2);
        let t1 = encode_outputs(s1.drop_first()) + r1;
        let t2 = encode_outputs(s2.drop_first()) + r2;
        assert(encode_outputs(s1) + r1 =~= encode_output(s1[0]) + t1);
        assert(encode_outputs(s2) + r2 =~= encode_output(s2[0]) + t2);
        lemma_read_output(s1[0], s2[0], t1, t2);
        lemma_read_outputs(s1.drop_first(), s2.drop_first(), r1, r2);
        assert(s1 =~= s2) by {
            assert forall|i: int| 0 <= i < s1.len() implies s1[i] == s2[i] by {
                if i > 0 {
                    assert(s1[i] == s1.drop_first()[i - 1]);
                    assert(s2[i] == s2.drop_first()[i - 1]);
                }
            }
        }
    }
}

/// The canonical bytes tell transactions apart: two transactions that differ
/// in any field, or in the number or order of their inputs or outputs, have
/// different canonical bytes, and so hash distinct messages.
pub proof fn lemma_encoding_injective(t1: TransactionView, t2: TransactionView)
    requires
        lengths_fit(t1),
        lengths_fit(t2),
        encode_transaction(t1) == encode_transaction(t2),
    ensures
        t1 == t2,
{
    let o1 = le_bytes(t1.outputs.len(), 8) + encode_outputs(t1.outputs);
    let o2 = le_bytes(t2.outputs.len(), 8) + encode_outputs(t2.outputs);
    assert(encode_transaction(t1) =~= le_bytes(t1.inputs.len(), 8) + (encode_inputs(t1.inputs)
        + o1));
    assert(encode_transaction(t2) =~= le_bytes(t2.inputs.len(), 8) + (encode_inputs(t2.inputs)
        + o2));
    lemma_read_number(
        t1.inputs.len(),
        t2.inputs.len(),
        8,
        encode_inputs(t1.inputs) + o1,
        encode_inputs(t2.inputs) + o2,
    );
    assert forall|i: int| 0 <= i < t1.inputs.len() implies input_fits(#[trigger] t1.inputs[i]) by {
    }
    assert forall|i: int| 0 <= i < t2.inputs.len() implies input_fits(#[trigger] t2.inputs[i]) by {
    }
    lemma_read_inputs(t1.inputs, t2.inputs, o1, o2);
    let e = Seq::<u8>::empty();
    assert(encode_outputs(t1.outputs) + e =~= encode_outputs(t1.outputs));
    assert(encode_outputs(t2.outputs) + e =~= encode_outputs(t2.outputs));
    lemma_read_number(
        t1.outputs.len(),
        t2.outputs.len(),
        8,
        encode_outputs(t1.outputs),
        encode_outputs(t2.outputs),
    );
    lemma_read_outputs(t1.outputs, t2.outputs, e, e);
}

fn put_le(out: &mut Vec<u8>, x: u64, n: usize)
    ensures
        final(out)@ == old(out)@ + le_bytes(x as nat, n as nat),
{
    let ghost start = out@;
    let mut v: u64 = x;
    let mut k: usize = 0;
    while k < n
        invariant
            0 <= k <= n,
            out@ + le_bytes(v as nat, (n - k) as nat) == start + le_bytes(x as nat, n as nat),
        decreases n - k,
    {
        let ghost before = out@;
        out.push((v % 256) as u8);
        proof {
            assert(le_bytes(v as nat, (n - k) as nat) == seq![(v % 256) as u8] + le_bytes(
                (v / 256) as nat,
                (n - k - 1) as nat,
            ));
            assert(out@ + le_bytes((v / 256) as nat, (n - k - 1) as nat) =~= before + le_bytes(
                v as nat,
                (n - k) as nat,
            ));
        }
        v = v / 256;
        k += 1;
    }
    proof {
        assert(out@ + le_bytes(v as nat, 0) =~= out@);
    }
}

fn put_bytes(out: &mut Vec<u8>, b: &[u8])
    ensures
        final(out)@ == old(out)@ + b@,
{
    let ghost start = out@;
    let mut k: usize = 0;
    while k < b.len()
        invariant
            0 <= k <= b.len(),
            out@ == start + b@.take(k as int),
        decreases b.len() - k,
    {
        out.push(b[k]);
        proof {
            assert(out@ =~= start + b@.take(k + 1));
        }
        k += 1;
    }
    proof {
        assert(b@.take(k as int) =~= b@);
    }
}

fn put_text(out: &mut Vec<u8>, s: &String)
    ensures
        final(out)@ == old(out)@ + encode_text(s@),
{
    let b = s.as_str().as_bytes();
    put_le(out, b.len() as u64, 8);
    put_bytes(out, b);
    proof {
        assert(out@ =~= old(out)@ + encode_text(s@));
    }
}

impl Transaction {
    /// The canonical bytes of this transaction.
    pub fn encode(&self) -> (r: Vec<u8>)
        ensures
            r@ == encode_transaction(self@),
    {
        let mut out: Vec<u8> = Vec::new();
        put_le(&mut out, self.inputs.len() as u64, 8);
        let ghost ins = self@.inputs;
        let mut i: usize = 0;
        while i < self.inputs.len()
            invariant
                0 <= i <= self.inputs.len(),
                ins == self@.inputs,
                out@ == le_bytes(ins.len(), 8) + encode_inputs(ins.take(i as int)),
            decreases self.inputs.len() - i,
        {
            let x = &self.inputs[i];
            let ghost before = out@;
            put_text(&mut out, &x.txid);
            put_le(&mut out, x.index as u64, 4);
            put_text(&mut out, &x.signature);
            put_text(&mut out, &x.pubkey);
            proof {
                assert(ins.take(i + 1).drop_last() =~= ins.take(i as int));
                assert(ins.take(i + 1).last() == x@);
                assert(out@ =~= le_bytes(ins.len(), 8) + encode_inputs(ins.take(i + 1)));
            }
            i += 1;
        }
        put_le(&mut out, self.outputs.len() as u64, 8);
        let ghost outs = self@.outputs;
        let ghost head = out@;
        let mut j: usize = 0;
        proof {
            assert(ins.take(i as int) =~= ins);
            assert(outs.take(0) =~= Seq::<OutputView>::empty());
            assert(head + encode_outputs(outs.take(0)) =~= head);
        }
        while j < self.outputs.len()
            invariant
                0 <= j <= self.outputs.len(),
                outs == self@.outputs,
                out@ == head + encode_outputs(outs.take(j as int)),
            decreases self.outputs.len() - j,
        {
            let o = &self.outputs[j];
            put_le(&mut out, o.amount, 8);
            put_text(&mut out, &o.recipient);
            proof {
                assert(outs.take(j + 1).drop_last() =~= outs.take(j as int));
                assert(outs.take(j + 1).last() == o@);
                assert(out@ =~= head + encode_outputs(outs.take(j + 1)));
            }
            j += 1;
        }
        proof {
            assert(outs.take(j as int) =~= outs);
            assert(out@ =~= encode_transaction(self@));
        }
        out
    }

    /// The identifier of this transaction: the lowercase hexadecimal
    /// SHA-256 digest of its canonical bytes.
    pub fn hash(&self) -> (r: String)
        ensures
            r@ == txid_of(self@),
            r@.len() == 64,
    {
        let bytes = self.encode();
        sha256_hex(bytes.as_slice())
    }
}

} // verus!
