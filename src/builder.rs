use vstd::prelude::*;

use crate::codec::{hex_encode, hex_of};
use crate::customerror::CustomError;
use crate::utxo::{
    lemma_selection_correct, lemma_total_monotone, outputs_total, selects, total, utxo_views,
    InputView, OutputView, Transaction, TransactionInput, TransactionOutput, UTX0Ledger, UtxoView,
    UTXO,
};
use crate::wallet::{address_of, ed25519_signature_of, Wallet};

verus! {

/// Which party each output of a transfer goes to.
#[derive(Debug, Clone, Copy, PartialEq, Eq, Structural)]
pub enum OutputAssignment {
    /// The payment goes back to the sender and the change to the receiver,
    /// as `create_signed_transaction` builds transfers.
    PaymentToSender,
    /// The payment goes to the receiver and the change back to the sender.
    PaymentToReceiver,
}

/// The coinbase that mints `amount` for `owner`.
pub open spec fn coinbase_outputs(owner: Seq<char>, amount: u64) -> Seq<OutputView> {
    seq![OutputView { amount: amount, recipient: owner }]
}

/// The outputs of a transfer of `amount` from `sender` to `receiver` whose
/// selected outputs sum to `selected`: the payment, then the change, if any.
pub open spec fn transfer_outputs(
    sender: Seq<char>,
    receiver: Seq<char>,
    amount: u64,
    selected: int,
    policy: OutputAssignment,
) -> Seq<OutputView> {
    let payee = if policy == OutputAssignment::PaymentToSender {
        sender
    } else {
        receiver
    };
    let change_to = if policy == OutputAssignment::PaymentToSender {
        receiver
    } else {
        sender
    };
    if selected > amount {
        seq![
            OutputView { amount: amount, recipient: payee },
            OutputView { amount: (selected - amount) as u64, recipient: change_to },
        ]
    } else {
        seq![OutputView { amount: amount, recipient: payee }]
    }
}

/// `n` in decimal ASCII digits, without leading zeros.
pub open spec fn decimal(n: nat) -> Seq<u8>
    decreases n,
{
    if n < 10 {
        seq![(48 + n) as u8]
    } else {
        decimal(n / 10).push((48 + n % 10) as u8)
    }
}

/// The text an input's signature covers: `"{txid}:{index}"`.
pub open spec fn spend_message_bytes(txid: Seq<char>, index: u32) -> Seq<u8> {
    vstd::utf8::encode_utf8(txid) + seq![58u8] + decimal(index as nat)
}

fn put_decimal(out: &mut Vec<u8>, n: u32)
    ensures
        final(out)@ == old(out)@ + decimal(n as nat),
    decreases n,
{
    if n >= 10 {
        put_decimal(out, n / 10);
    }
    out.push((48 + n % 10) as u8);
    proof {
        assert(out@ =~= old(out)@ + decimal(n as nat));
    }
}

/// The bytes a spender signs to spend output `index` of transaction `txid`.
pub fn spend_message(txid: &String, index: u32) -> (r: Vec<u8>)
    ensures
        r@ == spend_message_bytes(txid@, index),
{
    let mut out: Vec<u8> = Vec::new();
    let b = txid.as_str().as_bytes();
    let mut k: usize = 0;
    while k < b.len()
        invariant
            0 <= k <= b.len(),
            out@ == b@.take(k as int),
        decreases b.len() - k,
    {
        out.push(b[k]);
        proof {
            assert(out@ =~= b@.take(k + 1));
        }
        k += 1;
    }
    proof {
        assert(b@.take(k as int) =~= b@);
    }
    out.push(58u8);
    put_decimal(&mut out, index);
    proof {
        assert(out@ =~= spend_message_bytes(txid@, index));
    }
    out
}

/// A transaction without inputs that mints `amount` for `wallet`.
pub fn create_coinbase(wallet: &Wallet, amount: u64) -> (r: Transaction)
    ensures
        r@.inputs.len() == 0,
        r@.outputs == coinbase_outputs(wallet.addr(), amount),
{
    let recipient = wallet.address();
    let mut outputs: Vec<TransactionOutput> = Vec::new();
    outputs.push(TransactionOutput { amount, recipient });
    let r = Transaction { inputs: Vec::new(), outputs };
    proof {
        assert(r@.inputs =~= Seq::empty());
        assert(r@.outputs =~= coinbase_outputs(wallet.addr(), amount));
    }
    r
}

/// Whether `x` spends `u` on behalf of the holder of the secret key `secret`:
/// it names `u`, carries the holder's address, and holds, in hexadecimal,
/// the holder's signature of `"{txid}:{index}"`.
pub open spec fn spends(x: InputView, u: UtxoView, secret: Seq<u8>) -> bool {
    &&& x.txid == u.txid
    &&& x.index == u.index
    &&& x.pubkey == address_of(secret)
    &&& x.signature == hex_of(ed25519_signature_of(secret, spend_message_bytes(u.txid, u.index)))
}

/// Builds, without applying it, a transfer of `amount` from `sender` to
/// `receiver_address`, paid from the outputs that first-fit selection picks
/// for the sender, each input signed by the sender, the outputs assigned as
/// `policy` says.
pub fn create_signed_transaction_with(
    sender: &Wallet,
    receiver_address: &str,
    amount: u64,
    ledger: &UTX0Ledger,
    policy: OutputAssignment,
) -> (r: Result<Transaction, CustomError>)
    ensures
        sender.addr() == receiver_address@ ==> r == Err::<Transaction, CustomError>(
            CustomError::BadRequest,
        ),
        sender.addr() != receiver_address@ ==> {
            let sel = ledger@.selection(sender.addr(), amount);
            &&& (r is Ok <==> sel is Ok)
            &&& (r is Err ==> r->Err_0 == sel->Err_0)
            &&& (r is Ok ==> {
                let tx = r->Ok_0@;
                let picked = sel->Ok_0;
                &&& tx.inputs.len() == picked.len()
                &&& forall|i: int|
                    0 <= i < picked.len() ==> spends(
                        #[trigger] tx.inputs[i],
                        picked[i],
                        sender.secret(),
                    )
                &&& tx.outputs == transfer_outputs(
                    sender.addr(),
                    receiver_address@,
                    amount,
                    total(picked),
                    policy,
                )
                &&& outputs_total(tx.outputs) == total(picked)
            })
        },
{
    let sender_address = sender.address();
    let receiver = receiver_address.to_owned();
    if sender_address == receiver {
        return Err(CustomError::BadRequest);
    }
    let selected = match ledger.find_spendable_utxos(&sender_address, amount) {
        Ok(v) => v,
        Err(e) => {
            return Err(e);
        },
    };
    let ghost picked = utxo_views(selected@);
    if selected.len() == 0 {
        // nothing is held and nothing asked for: a transfer of 0 without inputs
        let payee = if policy == OutputAssignment::PaymentToSender {
            sender_address
        } else {
            receiver
        };
        let mut outputs: Vec<TransactionOutput> = Vec::new();
        outputs.push(TransactionOutput { amount, recipient: payee });
        let r = Transaction { inputs: Vec::new(), outputs };
        proof {
            lemma_selection_correct(ledger@, sender.addr(), amount);
            assert(picked =~= Seq::<UtxoView>::empty());
            assert(amount == 0);
            assert(total(picked) == 0);
            assert(r@.inputs =~= Seq::<InputView>::empty());
            let o = r@.outputs;
            assert(o =~= transfer_outputs(
                sender.addr(),
                receiver_address@,
                amount,
                total(picked),
                policy,
            ));
            assert(o.drop_last() =~= Seq::<OutputView>::empty());
            assert(outputs_total(o.drop_last()) == 0);
        }
        return Ok(r);
    }
    proof {
        let held = ledger@.held_by(sender.addr());
        let k = picked.len() as int;
        assert(picked == held.take(k));
        assert(picked.take(k) =~= picked);
        assert(held.take(k).take(k) =~= held.take(k));
        assert forall|j: int| 1 <= j < k implies total(#[trigger] picked.take(j)) < amount by {
            assert(picked.take(j) =~= held.take(j));
        }
        assert(picked.take(0) =~= Seq::<UtxoView>::empty());
    }
    let mut inputs: Vec<TransactionInput> = Vec::new();
    // sum of every selected amount but the last, which stays below `amount`
    let mut before_last: u64 = 0;
    let mut i: usize = 0;
    while i < selected.len()
        invariant
            0 <= i <= selected.len(),
            picked == utxo_views(selected@),
            selects(picked, amount as int, picked.len() as int),
            sender_address@ == sender.addr(),
            inputs@.len() == i,
            forall|j: int|
                0 <= j < i ==> spends(#[trigger] inputs@[j]@, picked[j], sender.secret()),
            i < selected.len() ==> before_last == total(picked.take(i as int)),
            i == selected.len() ==> before_last == total(picked.take(i - 1)),
        decreases selected.len() - i,
    {
        let u: &UTXO = &selected[i];
        let message = spend_message(&u.txid, u.index);
        let sig = sender.sign(message.as_slice());
        let sig_bytes = sig.as_slice();
        let signature = hex_encode(sig_bytes);
        inputs.push(
            TransactionInput {
                txid: u.txid.clone(),
                index: u.index,
                signature,
                pubkey: sender_address.clone(),
            },
        );
        proof {
            assert(spends(inputs@[i as int]@, picked[i as int], sender.secret()));
        }
        if i + 1 < selected.len() {
            proof {
                assert(picked.take(i + 1).drop_last() =~= picked.take(i as int));
                lemma_total_monotone(picked.take(i + 1), 0);
            }
            before_last = before_last + u.amount;
        }
        i += 1;
    }
    let last = selected[selected.len() - 1].amount;
    proof {
        let k = picked.len() as int;
        assert(picked.take(k) =~= picked);
        assert(picked.drop_last() =~= picked.take(k - 1));
        assert(picked[k - 1].amount == last);
        assert(total(picked) == before_last + last);
        if k > 1 {
            assert(total(picked.take(k - 1)) < amount);
        } else {
            assert(picked.take(0) =~= Seq::<UtxoView>::empty());
        }
    }
    let mut outputs: Vec<TransactionOutput> = Vec::new();
    let pay_to_sender = policy == OutputAssignment::PaymentToSender;
    let payee = if pay_to_sender {
        sender_address.clone()
    } else {
        receiver.clone()
    };
    let change_to = if pay_to_sender {
        receiver
    } else {
        sender_address
    };
    outputs.push(TransactionOutput { amount, recipient: payee });
    let shortfall = amount - before_last;
    if last > shortfall {
        outputs.push(TransactionOutput { amount: last - shortfall, recipient: change_to });
    }
    let r = Transaction { inputs, outputs };
    proof {
        let tx = r@;
        assert(tx.inputs.len() == picked.len());
        assert forall|j: int| 0 <= j < picked.len() implies spends(
            #[trigger] tx.inputs[j],
            picked[j],
            sender.secret(),
        ) by {
            assert(tx.inputs[j] == inputs@[j]@);
        }
        assert(tx.outputs =~= transfer_outputs(
            sender.addr(),
            receiver_address@,
            amount,
            total(picked),
            policy,
        ));
        let o = tx.outputs;
        assert(o.take(1).drop_last() =~= Seq::<OutputView>::empty());
        assert(outputs_total(o.take(1).drop_last()) == 0);
        assert(outputs_total(o.take(1)) == amount as int);
        assert(total(picked) >= amount);
        if o.len() == 2 {
            assert(o.drop_last() =~= o.take(1));
            assert(outputs_total(o) == outputs_total(o.take(1)) + o[1].amount);
        } else {
            assert(o =~= o.take(1));
        }
        assert(outputs_total(o) == total(picked));
        assert(picked == ledger@.selection(sender.addr(), amount)->Ok_0);
        assert(ledger@.selection(sender.addr(), amount) is Ok);
    }
    Ok(r)
}

/// Builds, without applying it, a transfer of `amount` from `sender` to
/// `receiver_address`: the payment goes back to the sender and the change,
/// if any, to the receiver.
pub fn create_signed_transaction(
    sender: &Wallet,
    receiver_address: &str,
    amount: u64,
    ledger: &mut UTX0Ledger,
) -> (r: Result<Transaction, CustomError>)
    ensures
        final(ledger)@ == old(ledger)@,
        sender.addr() == receiver_address@ ==> r == Err::<Transaction, CustomError>(
            CustomError::BadRequest,
        ),
        sender.addr() != receiver_address@ ==> {
            let sel = old(ledger)@.selection(sender.addr(), amount);
            &&& (r is Ok <==> sel is Ok)
            &&& (r is Err ==> r->Err_0 == sel->Err_0)
            &&& (r is Ok ==> {
                let tx = r->Ok_0@;
                let picked = sel->Ok_0;
                &&& tx.inputs.len() == picked.len()
                &&& forall|i: int|
                    0 <= i < picked.len() ==> spends(
                        #[trigger] tx.inputs[i],
                        picked[i],
                        sender.secret(),
                    )
                &&& tx.outputs == transfer_outputs(
                    sender.addr(),
                    receiver_address@,
                    amount,
                    total(picked),
                    OutputAssignment::PaymentToSender,
                )
                &&& outputs_total(tx.outputs) == total(picked)
            })
        },
{
    create_signed_transaction_with(
        sender,
        receiver_address,
        amount,
        ledger,
        OutputAssignment::PaymentToSender,
    )
}

} // verus!
