use ed25519_dalek::{Signature, Verifier};
use utxo_ledger::builder::{
    create_coinbase, create_signed_transaction, create_signed_transaction_with, spend_message,
    OutputAssignment,
};
use utxo_ledger::codec::sha256_hex;
use utxo_ledger::customerror::CustomError;
use utxo_ledger::utxo::{Transaction, TransactionInput, TransactionOutput, UTX0Ledger};
use utxo_ledger::wallet::Wallet;

fn alice() -> Wallet {
    Wallet::from_seed(&[1u8; 32])
}

fn bob() -> Wallet {
    Wallet::from_seed(&[2u8; 32])
}

fn output(amount: u64, recipient: &str) -> TransactionOutput {
    TransactionOutput { amount, recipient: recipient.to_string() }
}

fn input(txid: &str, index: u32, pubkey: &str) -> TransactionInput {
    TransactionInput {
        txid: txid.to_string(),
        index,
        signature: "sig".to_string(),
        pubkey: pubkey.to_string(),
    }
}

fn mint(ledger: &mut UTX0Ledger, owner: &Wallet, amount: u64) -> String {
    let tx = create_coinbase(owner, amount);
    let txid = tx.hash();
    ledger.apply_transaction(&tx, &txid);
    txid
}

#[test]
fn end_to_end_transfer_as_built() {
    let mut ledger = UTX0Ledger::new();
    let (a, b) = (alice(), bob());
    mint(&mut ledger, &a, 100);
    assert_eq!(ledger.get_balance(&a.address()), 100);
    assert_eq!(ledger.get_balance(&b.address()), 0);

    let tx = create_signed_transaction(&a, &b.address(), 23, &mut ledger).unwrap();
    assert_eq!(tx.outputs.len(), 2);
    assert_eq!(tx.outputs[0].amount, 23);
    assert_eq!(tx.outputs[0].recipient, a.address());
    assert_eq!(tx.outputs[1].amount, 77);
    assert_eq!(tx.outputs[1].recipient, b.address());
    let txid = tx.hash();
    ledger.apply_transaction(&tx, &txid);
    // the payment comes back to the sender, the change goes to the receiver
    assert_eq!(ledger.get_balance(&a.address()), 23);
    assert_eq!(ledger.get_balance(&b.address()), 77);
}

#[test]
fn end_to_end_transfer_payment_to_receiver() {
    let mut ledger = UTX0Ledger::new();
    let (a, b) = (alice(), bob());
    mint(&mut ledger, &a, 100);
    let tx = create_signed_transaction_with(
        &a,
        &b.address(),
        23,
        &ledger,
        OutputAssignment::PaymentToReceiver,
    )
    .unwrap();
    let txid = tx.hash();
    ledger.apply_transaction(&tx, &txid);
    assert_eq!(ledger.get_balance(&a.address()), 77);
    assert_eq!(ledger.get_balance(&b.address()), 23);
}

#[test]
fn exact_payment_has_no_change_output() {
    let mut ledger = UTX0Ledger::new();
    let (a, b) = (alice(), bob());
    mint(&mut ledger, &a, 40);
    let tx = create_signed_transaction_with(
        &a,
        &b.address(),
        40,
        &ledger,
        OutputAssignment::PaymentToReceiver,
    )
    .unwrap();
    assert_eq!(tx.outputs.len(), 1);
    assert_eq!(tx.outputs[0].amount, 40);
    assert_eq!(tx.outputs[0].recipient, b.address());
}

#[test]
fn builder_conserves_value() {
    let mut ledger = UTX0Ledger::new();
    let (a, b) = (alice(), bob());
    mint(&mut ledger, &a, 10);
    mint(&mut ledger, &a, 20);
    mint(&mut ledger, &a, 30);
    let tx = create_signed_transaction(&a, &b.address(), 25, &mut ledger).unwrap();
    assert_eq!(tx.inputs.len(), 2);
    let out_sum: u64 = tx.outputs.iter().map(|o| o.amount).sum();
    assert_eq!(out_sum, 30);
    let before = ledger.get_balance(&a.address()) + ledger.get_balance(&b.address());
    let txid = tx.hash();
    ledger.apply_transaction(&tx, &txid);
    let after = ledger.get_balance(&a.address()) + ledger.get_balance(&b.address());
    assert_eq!(before, after);
}

#[test]
fn self_payment_is_rejected() {
    let mut ledger = UTX0Ledger::new();
    let a = alice();
    assert_eq!(
        create_signed_transaction(&a, &a.address(), 5, &mut ledger).unwrap_err(),
        CustomError::BadRequest
    );
    mint(&mut ledger, &a, 100);
    assert_eq!(
        create_signed_transaction(&a, &a.address(), 5, &mut ledger).unwrap_err(),
        CustomError::BadRequest
    );
}

#[test]
fn transfer_errors_come_from_selection() {
    let mut ledger = UTX0Ledger::new();
    let (a, b) = (alice(), bob());
    assert_eq!(
        create_signed_transaction(&a, &b.address(), 5, &mut ledger).unwrap_err(),
        CustomError::WalletNotFound
    );
    mint(&mut ledger, &a, 4);
    assert_eq!(
        create_signed_transaction(&a, &b.address(), 5, &mut ledger).unwrap_err(),
        CustomError::ExceedsBalance
    );
}

#[test]
fn inputs_are_signed_by_the_sender() {
    let mut ledger = UTX0Ledger::new();
    let (a, b) = (alice(), bob());
    let txid = mint(&mut ledger, &a, 50);
    let tx = create_signed_transaction(&a, &b.address(), 10, &mut ledger).unwrap();
    assert_eq!(tx.inputs.len(), 1);
    let x = &tx.inputs[0];
    assert_eq!(x.txid, txid);
    assert_eq!(x.index, 0);
    assert_eq!(x.pubkey, a.address());
    assert_eq!(x.signature.len(), 128);
    let raw = hex::decode(&x.signature).unwrap();
    let sig = Signature::from_slice(&raw).unwrap();
    let message = format!("{}:{}", txid, 0);
    assert!(a.verifying_key().verify(message.as_bytes(), &sig).is_ok());
    assert!(b.verifying_key().verify(message.as_bytes(), &sig).is_err());
    assert_eq!(raw, a.sign(message.as_bytes()).to_vec());
}

#[test]
fn balance_of_unknown_address_is_zero() {
    let ledger = UTX0Ledger::new();
    assert_eq!(ledger.get_balance("nobody"), 0);
}

#[test]
fn selection_unknown_address() {
    let ledger = UTX0Ledger::new();
    assert_eq!(ledger.find_spendable_utxos("nobody", 1).unwrap_err(), CustomError::WalletNotFound);
}

#[test]
fn selection_is_first_fit_in_ledger_order() {
    let mut ledger = UTX0Ledger::new();
    let tx = Transaction {
        inputs: vec![],
        outputs: vec![output(10, "al"), output(7, "bo"), output(20, "al"), output(30, "al")],
    };
    ledger.apply_transaction(&tx, "t1");
    let sel = ledger.find_spendable_utxos("al", 25).unwrap();
    let amounts: Vec<u64> = sel.iter().map(|u| u.amount).collect();
    assert_eq!(amounts, vec![10, 20]);
    assert!(sel.iter().all(|u| u.recipient == "al" && u.txid == "t1"));
    assert_eq!(sel[1].index, 2);
    let sel = ledger.find_spendable_utxos("al", 10).unwrap();
    assert_eq!(sel.len(), 1);
    let sel = ledger.find_spendable_utxos("al", 60).unwrap();
    assert_eq!(sel.len(), 3);
    assert_eq!(ledger.find_spendable_utxos("al", 61).unwrap_err(), CustomError::ExceedsBalance);
}

#[test]
fn selection_of_zero_takes_one_output() {
    let mut ledger = UTX0Ledger::new();
    let tx = Transaction { inputs: vec![], outputs: vec![output(3, "al")] };
    ledger.apply_transaction(&tx, "t1");
    assert_eq!(ledger.find_spendable_utxos("al", 0).unwrap().len(), 1);
}

#[test]
fn emptied_address_covers_only_zero() {
    let mut ledger = UTX0Ledger::new();
    let tx = Transaction { inputs: vec![], outputs: vec![output(3, "al")] };
    ledger.apply_transaction(&tx, "t1");
    let spend = Transaction { inputs: vec![input("t1", 0, "al")], outputs: vec![] };
    ledger.apply_transaction(&spend, "t2");
    assert_eq!(ledger.get_balance("al"), 0);
    assert!(ledger.find_spendable_utxos("al", 0).unwrap().is_empty());
    assert_eq!(ledger.find_spendable_utxos("al", 1).unwrap_err(), CustomError::ExceedsBalance);
}

#[test]
fn transfer_of_zero_from_emptied_wallet() {
    let mut ledger = UTX0Ledger::new();
    let (a, b) = (alice(), bob());
    let txid = mint(&mut ledger, &a, 8);
    let spend = Transaction { inputs: vec![input(&txid, 0, &a.address())], outputs: vec![] };
    ledger.apply_transaction(&spend, "t2");
    assert_eq!(ledger.get_balance(&a.address()), 0);
    let tx = create_signed_transaction(&a, &b.address(), 0, &mut ledger).unwrap();
    assert!(tx.inputs.is_empty());
    assert_eq!(tx.outputs.len(), 1);
    assert_eq!(tx.outputs[0].amount, 0);
    assert_eq!(tx.outputs[0].recipient, a.address());
    assert_eq!(
        create_signed_transaction(&a, &b.address(), 1, &mut ledger).unwrap_err(),
        CustomError::ExceedsBalance
    );
}

#[test]
fn selection_with_large_amounts_does_not_overflow() {
    let mut ledger = UTX0Ledger::new();
    let tx = Transaction {
        inputs: vec![],
        outputs: vec![output(u64::MAX - 1, "al"), output(u64::MAX, "al")],
    };
    ledger.apply_transaction(&tx, "t1");
    assert_eq!(ledger.find_spendable_utxos("al", u64::MAX).unwrap().len(), 2);
}

#[test]
fn apply_numbers_outputs_and_removes_inputs() {
    let mut ledger = UTX0Ledger::new();
    let tx = Transaction { inputs: vec![], outputs: vec![output(5, "al"), output(6, "bo")] };
    ledger.apply_transaction(&tx, "t1");
    let held = ledger.utxos_of("bo");
    assert_eq!(held.len(), 1);
    assert_eq!(held[0].index, 1);
    assert_eq!(held[0].txid, "t1");
    assert_eq!(held[0].amount, 6);
    let spend = Transaction {
        inputs: vec![input("t1", 1, "bo"), input("t1", 0, "bo")],
        outputs: vec![output(6, "cy")],
    };
    ledger.apply_transaction(&spend, "t2");
    assert_eq!(ledger.get_balance("bo"), 0);
    // the input names the wrong owner, so the output of "al" stays
    assert_eq!(ledger.get_balance("al"), 5);
    assert_eq!(ledger.get_balance("cy"), 6);
    assert_eq!(ledger.addresses().len(), 3);
    assert_eq!(ledger.utxos().len(), 2);
}

#[test]
fn apply_does_not_validate_inputs() {
    let mut ledger = UTX0Ledger::new();
    let spend = Transaction {
        inputs: vec![input("missing", 0, "al"), input("missing", 1, "zz")],
        outputs: vec![output(1000, "al")],
    };
    ledger.apply_transaction(&spend, "t1");
    assert_eq!(ledger.get_balance("al"), 1000);
    assert_eq!(ledger.get_balance("zz"), 0);
}

#[test]
fn applying_twice_is_idempotent() {
    let mut ledger = UTX0Ledger::new();
    let tx = Transaction { inputs: vec![], outputs: vec![output(5, "al")] };
    ledger.apply_transaction(&tx, "t1");
    ledger.apply_transaction(&tx, "t1");
    assert_eq!(ledger.get_balance("al"), 5);
    assert_eq!(ledger.utxos_of("al").len(), 1);
    // a different transaction under an identifier already used is ignored too
    let other = Transaction { inputs: vec![], outputs: vec![output(9, "bo")] };
    ledger.apply_transaction(&other, "t1");
    assert_eq!(ledger.get_balance("bo"), 0);
}

#[test]
fn minting_the_same_coinbase_twice_counts_once() {
    let mut ledger = UTX0Ledger::new();
    let a = alice();
    mint(&mut ledger, &a, 100);
    mint(&mut ledger, &a, 100);
    assert_eq!(ledger.get_balance(&a.address()), 100);
    mint(&mut ledger, &a, 50);
    assert_eq!(ledger.get_balance(&a.address()), 150);
}

#[test]
fn applying_a_pure_spend_twice_changes_nothing_more() {
    let mut ledger = UTX0Ledger::new();
    let tx = Transaction { inputs: vec![], outputs: vec![output(5, "al"), output(6, "al")] };
    ledger.apply_transaction(&tx, "t1");
    let spend = Transaction { inputs: vec![input("t1", 0, "al")], outputs: vec![] };
    ledger.apply_transaction(&spend, "t2");
    assert_eq!(ledger.get_balance("al"), 6);
    ledger.apply_transaction(&spend, "t2");
    assert_eq!(ledger.get_balance("al"), 6);
    assert_eq!(ledger.utxos().len(), 1);
}

#[test]
fn encoding_is_length_prefixed_and_fixed_width() {
    let tx = Transaction { inputs: vec![input("ab", 7, "pk")], outputs: vec![output(5, "bob")] };
    let expected = hex::decode(
        "0100000000000000020000000000000061620700000003000000000000007369670200000000000000\
         706b010000000000000005000000000000000300000000000000626f62",
    )
    .unwrap();
    assert_eq!(tx.encode(), expected);
    assert_eq!(
        tx.hash(),
        "874937288d20889b7e504396f4ce172828051b1f662e07a61430f1955cb3369e"
    );
}

#[test]
fn hash_of_empty_transaction() {
    let tx = Transaction { inputs: vec![], outputs: vec![] };
    assert_eq!(
        tx.hash(),
        "374708fff7719dd5979ec875d56cd2286f6d3cf7ec317a3b25632aab28ec37bb"
    );
}

#[test]
fn hash_is_stable_and_sensitive_to_each_field() {
    let base = || Transaction {
        inputs: vec![input("ab", 7, "pk")],
        outputs: vec![output(5, "bob")],
    };
    let h = base().hash();
    assert_eq!(h, base().hash());
    let t = base();
    assert_eq!(t.hash(), t.hash());
    assert_eq!(h.len(), 64);
    assert!(h.chars().all(|c| c.is_ascii_digit() || ('a'..='f').contains(&c)));

    let mut t = base();
    t.outputs[0].amount = 6;
    assert_ne!(t.hash(), h);
    let mut t = base();
    t.outputs[0].recipient = "bob2".to_string();
    assert_ne!(t.hash(), h);
    let mut t = base();
    t.inputs[0].txid = "ac".to_string();
    assert_ne!(t.hash(), h);
    let mut t = base();
    t.inputs[0].index = 8;
    assert_ne!(t.hash(), h);
    let mut t = base();
    t.inputs[0].signature = "sih".to_string();
    assert_ne!(t.hash(), h);
    let mut t = base();
    t.inputs[0].pubkey = "pl".to_string();
    assert_ne!(t.hash(), h);
}

#[test]
fn encoding_separates_fields() {
    let a = Transaction { inputs: vec![], outputs: vec![output(1, "ab"), output(2, "c")] };
    let b = Transaction { inputs: vec![], outputs: vec![output(1, "a"), output(2, "bc")] };
    assert_ne!(a.encode(), b.encode());
    assert_ne!(a.hash(), b.hash());
}

#[test]
fn digest_in_hexadecimal() {
    assert_eq!(
        sha256_hex(b"abc"),
        "ba7816bf8f01cfea414140de5dae2223b00361a396177a9cb410ff61f20015ad"
    );
}

#[test]
fn spend_message_is_txid_colon_index() {
    assert_eq!(spend_message(&"ab12".to_string(), 0), b"ab12:0".to_vec());
    assert_eq!(spend_message(&"ff".to_string(), 4294967295), b"ff:4294967295".to_vec());
    assert_eq!(spend_message(&"".to_string(), 10), b":10".to_vec());
}

#[test]
fn wallet_address_is_digest_of_public_key() {
    let a = alice();
    assert_eq!(a.address(), sha256_hex(&a.verifying_key().to_bytes()));
    assert_eq!(a.address(), alice().address());
    assert_ne!(a.address(), bob().address());
    assert_eq!(a.address().len(), 64);
    let w = Wallet::new().unwrap();
    let v = Wallet::new().unwrap();
    assert_eq!(w.address().len(), 64);
    assert_ne!(w.address(), v.address());
}

#[test]
fn wallet_signature_verifies() {
    let a = alice();
    let sig = Signature::from_bytes(&a.sign(b"hello"));
    assert_eq!(a.sign(b"hello"), alice().sign(b"hello"));
    assert_eq!(a.signing_key().verifying_key(), *a.verifying_key());
    assert!(a.verifying_key().verify(b"hello", &sig).is_ok());
    assert!(a.verifying_key().verify(b"hellp", &sig).is_err());
}

#[test]
fn coinbase_mints_to_owner() {
    let a = alice();
    let tx = create_coinbase(&a, 100);
    assert!(tx.inputs.is_empty());
    assert_eq!(tx.outputs.len(), 1);
    assert_eq!(tx.outputs[0].amount, 100);
    assert_eq!(tx.outputs[0].recipient, a.address());
}

#[test]
fn error_messages() {
    assert_eq!(CustomError::WalletNotFound.message(), "Not Found");
    assert_eq!(CustomError::ExceedsBalance.message(), "Exceeds balance");
    assert_eq!(CustomError::BadRequest.message(), "Bad Request");
}
