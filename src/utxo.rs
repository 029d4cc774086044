use vstd::prelude::*;

use crate::customerror::CustomError;

verus! {

/// An unspent output: `amount` units owned by `recipient`, created as output
/// number `index` of the transaction whose identifier is `txid`.
#[derive(Debug, Clone)]
pub struct UTXO {
    pub txid: String,
    pub index: u32,
    pub amount: u64,
    pub recipient: String,
}

/// A reference to an earlier output, with the spender's signature over it.
#[derive(Debug)]
pub struct TransactionInput {
    pub txid: String,
    pub index: u32,
    pub signature: String,
    pub pubkey: String,
}

/// A value unit that a transaction creates.
#[derive(Debug)]
pub struct TransactionOutput {
    pub amount: u64,
    pub recipient: String,
}

/// A transfer: the outputs it consumes and the outputs it creates. A
/// transaction without inputs is a coinbase and mints value.
#[derive(Debug)]
pub struct Transaction {
    pub inputs: Vec<TransactionInput>,
    pub outputs: Vec<TransactionOutput>,
}

pub struct UtxoView {
    pub txid: Seq<char>,
    pub index: u32,
    pub amount: u64,
    pub recipient: Seq<char>,
}

pub struct InputView {
    pub txid: Seq<char>,
    pub index: u32,
    pub signature: Seq<char>,
    pub pubkey: Seq<char>,
}

pub struct OutputView {
    pub amount: u64,
    pub recipient: Seq<char>,
}

pub struct TransactionView {
    pub inputs: Seq<InputView>,
    pub outputs: Seq<OutputView>,
}

impl View for UTXO {
    type V = UtxoView;

    open spec fn view(&self) -> UtxoView {
        UtxoView {
            txid: self.txid@,
            index: self.index,
            amount: self.amount,
            recipient: self.recipient@,
        }
    }
}

impl View for TransactionInput {
    type V = InputView;

    open spec fn view(&self) -> InputView {
        InputView {
            txid: self.txid@,
            index: self.index,
            signature: self.signature@,
            pubkey: self.pubkey@,
        }
    }
}

impl View for TransactionOutput {
    type V = OutputView;

    open spec fn view(&self) -> OutputView {
        OutputView { amount: self.amount, recipient: self.recipient@ }
    }
}

impl View for Transaction {
    type V = TransactionView;

    open spec fn view(&self) -> TransactionView {
        TransactionView {
            inputs: self.inputs@.map_values(|i: TransactionInput| i@),
            outputs: self.outputs@.map_values(|o: TransactionOutput| o@),
        }
    }
}

pub open spec fn utxo_views(s: Seq<UTXO>) -> Seq<UtxoView> {
    s.map_values(|u: UTXO| u@)
}

/// The sum of the amounts of `s`.
pub open spec fn total(s: Seq<UtxoView>) -> int
    decreases s.len(),
{
    if s.len() == 0 {
        0
    } else {
        total(s.drop_last()) + s.last().amount
    }
}

/// The sum of the amounts of a transaction's outputs.
pub open spec fn outputs_total(s: Seq<OutputView>) -> int
    decreases s.len(),
{
    if s.len() == 0 {
        0
    } else {
        outputs_total(s.drop_last()) + s.last().amount
    }
}

/// The outputs of `s` that `a` owns, in the order of `s`.
pub open spec fn owned_by(s: Seq<UtxoView>, a: Seq<char>) -> Seq<UtxoView>
    decreases s.len(),
{
    if s.len() == 0 {
        s
    } else {
        let rest = owned_by(s.drop_last(), a);
        if s.last().recipient == a {
            rest.push(s.last())
        } else {
            rest
        }
    }
}

/// Taking the first `k` outputs of `s` reaches `need` and no shorter
/// non-empty prefix does: the first-fit scan stops after `k` outputs.
pub open spec fn selects(s: Seq<UtxoView>, need: int, k: int) -> bool {
    &&& 1 <= k <= s.len()
    &&& total(s.take(k)) >= need
    &&& forall|j: int| 1 <= j < k ==> total(#[trigger] s.take(j)) < need
}

/// Some non-empty prefix of `s` reaches `need`.
pub open spec fn can_cover(s: Seq<UtxoView>, need: int) -> bool {
    exists|k: int| selects(s, need, k)
}

/// The ledger in mathematical terms: the identifiers of the transactions
/// applied so far, the addresses that have an entry, and every unspent
/// output in the order in which it was created.
pub struct LedgerView {
    pub txids: Set<Seq<char>>,
    pub addresses: Set<Seq<char>>,
    pub utxos: Seq<UtxoView>,
}

impl LedgerView {
    /// Every unspent output belongs to an address that has an entry and
    /// comes from a transaction that was applied.
    pub open spec fn wf(self) -> bool {
        forall|i: int|
            0 <= i < self.utxos.len() ==> {
                &&& self.addresses.contains((#[trigger] self.utxos[i]).recipient)
                &&& self.txids.contains(self.utxos[i].txid)
            }
    }

    pub open spec fn held_by(self, a: Seq<char>) -> Seq<UtxoView> {
        owned_by(self.utxos, a)
    }

    pub open spec fn balance(self, a: Seq<char>) -> int {
        if self.addresses.contains(a) {
            total(self.held_by(a))
        } else {
            0
        }
    }

    /// What the first-fit selection returns for `a` and `amount`: nothing
    /// when `a` holds no outputs and nothing is asked for, else the shortest
    /// non-empty prefix of its outputs that reaches `amount`.
    pub open spec fn selection(self, a: Seq<char>, amount: u64) -> Result<
        Seq<UtxoView>,
        CustomError,
    > {
        if !self.addresses.contains(a) {
            Err(CustomError::WalletNotFound)
        } else if total(self.held_by(a)) < amount {
            Err(CustomError::ExceedsBalance)
        } else if self.held_by(a).len() == 0 {
            Ok(Seq::empty())
        } else {
            let k = choose|k: int| selects(self.held_by(a), amount as int, k);
            Ok(self.held_by(a).take(k))
        }
    }
}

/// The outputs that a transaction with identifier `txid` creates.
pub open spec fn created(outs: Seq<OutputView>, txid: Seq<char>) -> Seq<UtxoView> {
    Seq::new(
        outs.len(),
        |i: int|
            UtxoView {
                txid: txid,
                index: i as u32,
                amount: outs[i].amount,
                recipient: outs[i].recipient,
            },
    )
}

/// The ledger after the outputs of a transaction are added.
pub open spec fn credit(m: LedgerView, outs: Seq<OutputView>, txid: Seq<char>) -> LedgerView {
    LedgerView {
        txids: m.txids,
        addresses: m.addresses + Set::new(
            |a: Seq<char>| exists|i: int| 0 <= i < outs.len() && outs[i].recipient == a,
        ),
        utxos: m.utxos + created(outs, txid),
    }
}

/// `s` without the outputs that input `x` spends.
pub open spec fn unspent_after(s: Seq<UtxoView>, x: InputView) -> Seq<UtxoView>
    decreases s.len(),
{
    if s.len() == 0 {
        s
    } else {
        let rest = unspent_after(s.drop_last(), x);
        let u = s.last();
        if u.recipient == x.pubkey && u.txid == x.txid && u.index == x.index {
            rest
        } else {
            rest.push(u)
        }
    }
}

/// The ledger after the inputs of a transaction are spent, one after another.
pub open spec fn spend(m: LedgerView, ins: Seq<InputView>) -> LedgerView
    decreases ins.len(),
{
    if ins.len() == 0 {
        m
    } else {
        let prev = spend(m, ins.drop_last());
        let x = ins.last();
        if prev.addresses.contains(x.pubkey) {
            LedgerView {
                txids: prev.txids,
                addresses: prev.addresses,
                utxos: unspent_after(prev.utxos, x),
            }
        } else {
            prev
        }
    }
}

/// The ledger after `tx` is applied under identifier `txid`: unchanged when
/// a transaction with that identifier was applied before; otherwise the
/// outputs are added, the inputs spent, and the identifier recorded.
pub open spec fn applied(m: LedgerView, tx: TransactionView, txid: Seq<char>) -> LedgerView {
    if m.txids.contains(txid) {
        m
    } else {
        let n = spend(credit(m, tx.outputs, txid), tx.inputs);
        LedgerView { txids: n.txids.insert(txid), addresses: n.addresses, utxos: n.utxos }
    }
}

proof fn lemma_spend_keeps_txids(m: LedgerView, ins: Seq<InputView>)
    ensures
        spend(m, ins).txids == m.txids,
    decreases ins.len(),
{
    if ins.len() > 0 {
        lemma_spend_keeps_txids(m, ins.drop_last());
    }
}

/// Applying a transaction a second time under the same identifier changes
/// nothing, so it cannot add its outputs twice.
pub proof fn lemma_reapply_is_noop(m: LedgerView, tx: TransactionView, txid: Seq<char>)
    ensures
        applied(applied(m, tx, txid), tx, txid) == applied(m, tx, txid),
        applied(m, tx, txid).txids.contains(txid),
{
}

pub proof fn lemma_total_monotone(s: Seq<UtxoView>, i: int)
    requires
        0 <= i <= s.len(),
    ensures
        0 <= total(s.take(i)) <= total(s),
    decreases s.len(),
{
    if s.len() > 0 {
        if i == s.len() {
            assert(s.take(i) =~= s);
            lemma_total_monotone(s.drop_last(), 0);
        } else {
            assert(s.take(i) =~= s.drop_last().take(i));
            lemma_total_monotone(s.drop_last(), i);
        }
    } else {
        assert(s.take(i) =~= s);
    }
}

proof fn lemma_owned_by_concat(s: Seq<UtxoView>, t: Seq<UtxoView>, a: Seq<char>)
    ensures
        owned_by(s + t, a) == owned_by(s, a) + owned_by(t, a),
    decreases t.len(),
{
    if t.len() == 0 {
        assert(s + t =~= s);
        assert(owned_by(s, a) + owned_by(t, a) =~= owned_by(s, a));
    } else {
        assert((s + t).drop_last() =~= s + t.drop_last());
        lemma_owned_by_concat(s, t.drop_last(), a);
        if t.last().recipient == a {
            assert(owned_by(s, a) + owned_by(t, a) =~= (owned_by(s, a) + owned_by(
                t.drop_last(),
                a,
            )).push(t.last()));
        }
    }
}

proof fn lemma_owned_by_step(s: Seq<UtxoView>, i: int, a: Seq<char>)
    requires
        0 <= i < s.len(),
    ensures
        owned_by(s.take(i + 1), a) == if s[i].recipient == a {
            owned_by(s.take(i), a).push(s[i])
        } else {
            owned_by(s.take(i), a)
        },
{
    assert(s.take(i + 1).drop_last() =~= s.take(i));
}

proof fn lemma_unspent_after_step(s: Seq<UtxoView>, i: int, x: InputView)
    requires
        0 <= i < s.len(),
    ensures
        unspent_after(s.take(i + 1), x) == if s[i].recipient == x.pubkey && s[i].txid == x.txid
            && s[i].index == x.index {
            unspent_after(s.take(i), x)
        } else {
            unspent_after(s.take(i), x).push(s[i])
        },
{
    assert(s.take(i + 1).drop_last() =~= s.take(i));
}

proof fn lemma_selects_unique(s: Seq<UtxoView>, need: int, k1: int, k2: int)
    requires
        selects(s, need, k1),
        selects(s, need, k2),
    ensures
        k1 == k2,
{
    if k1 < k2 {
        assert(total(s.take(k1)) < need);
    } else if k2 < k1 {
        assert(total(s.take(k2)) < need);
    }
}

proof fn lemma_first_reaching(s: Seq<UtxoView>, need: int, j: int)
    requires
        1 <= j <= s.len(),
        total(s) >= need,
        forall|i: int| 1 <= i < j ==> total(#[trigger] s.take(i)) < need,
    ensures
        can_cover(s, need),
    decreases s.len() - j,
{
    if total(s.take(j)) >= need {
        assert(selects(s, need, j));
    } else {
        if j == s.len() {
            assert(s.take(j) =~= s);
        } else {
            lemma_first_reaching(s, need, j + 1);
        }
    }
}

proof fn lemma_owned_by_recipient(s: Seq<UtxoView>, a: Seq<char>)
    ensures
        forall|i: int|
            0 <= i < owned_by(s, a).len() ==> (#[trigger] owned_by(s, a)[i]).recipient == a,
    decreases s.len(),
{
    if s.len() > 0 {
        lemma_owned_by_recipient(s.drop_last(), a);
        let rest = owned_by(s.drop_last(), a);
        assert forall|i: int| 0 <= i < owned_by(s, a).len() implies (#[trigger] owned_by(
            s,
            a,
        )[i]).recipient == a by {
            if i < rest.len() {
                assert(owned_by(s, a)[i] == rest[i]);
            }
        }
    }
}

/// First-fit selection succeeds exactly when the address has an entry and
/// owns at least `amount` in all; what it returns is then the shortest
/// non-empty prefix of the address's own outputs, in ledger order, whose sum
/// reaches `amount`, or nothing when the address owns no outputs.
pub proof fn lemma_selection_correct(m: LedgerView, a: Seq<char>, amount: u64)
    ensures
        (m.selection(a, amount) == Err::<Seq<UtxoView>, CustomError>(CustomError::WalletNotFound))
            <==> !m.addresses.contains(a),
        (m.selection(a, amount) == Err::<Seq<UtxoView>, CustomError>(CustomError::ExceedsBalance))
            <==> (m.addresses.contains(a) && total(m.held_by(a)) < amount),
        m.selection(a, amount) is Ok ==> {
            let sel = m.selection(a, amount)->Ok_0;
            &&& total(sel) >= amount
            &&& (sel.len() >= 1 || m.held_by(a).len() == 0)
            &&& (sel.len() == 0 ==> amount == 0)
            &&& sel == m.held_by(a).take(sel.len() as int)
            &&& forall|i: int| 0 <= i < sel.len() ==> (#[trigger] sel[i]).recipient == a
            &&& forall|j: int| 1 <= j < sel.len() ==> total(#[trigger] sel.take(j)) < amount
        },
{
    let s = m.held_by(a);
    if s.len() > 0 && total(s) >= amount {
        lemma_first_reaching(s, amount as int, 1);
    }
    if m.addresses.contains(a) && total(s) >= amount && s.len() == 0 {
        assert(m.selection(a, amount)->Ok_0 =~= Seq::<UtxoView>::empty());
    }
    if m.addresses.contains(a) && total(s) >= amount && s.len() > 0 {
        let k = choose|k: int| selects(s, amount as int, k);
        lemma_total_monotone(s, k);
        lemma_owned_by_recipient(m.utxos, a);
        let sel = s.take(k);
        assert(sel.take(sel.len() as int) =~= sel);
        assert forall|j: int| 1 <= j < sel.len() implies total(#[trigger] sel.take(j)) < amount by {
            assert(sel.take(j) =~= s.take(j));
        }
        assert forall|i: int| 0 <= i < sel.len() implies (#[trigger] sel[i]).recipient == a by {
            assert(sel[i] == s[i]);
        }
    }
}

proof fn lemma_unspent_after_subset(s: Seq<UtxoView>, x: InputView)
    ensures
        forall|i: int|
            0 <= i < unspent_after(s, x).len() ==> s.contains(#[trigger] unspent_after(s, x)[i]),
    decreases s.len(),
{
    if s.len() > 0 {
        lemma_unspent_after_subset(s.drop_last(), x);
        let rest = unspent_after(s.drop_last(), x);
        assert forall|i: int|
            0 <= i < unspent_after(s, x).len() implies s.contains(
            #[trigger] unspent_after(s, x)[i],
        ) by {
            if i < rest.len() {
                assert(unspent_after(s, x)[i] == rest[i]);
                let j = choose|j: int| 0 <= j < s.drop_last().len() && s.drop_last()[j] == rest[i];
                assert(s[j] == rest[i]);
            } else {
                assert(unspent_after(s, x)[i] == s[s.len() - 1]);
            }
        }
    }
}

proof fn lemma_spend_keeps_wf(m: LedgerView, ins: Seq<InputView>)
    requires
        m.wf(),
    ensures
        spend(m, ins).wf(),
        spend(m, ins).txids == m.txids,
    decreases ins.len(),
{
    lemma_spend_keeps_txids(m, ins);
    if ins.len() > 0 {
        lemma_spend_keeps_wf(m, ins.drop_last());
        let prev = spend(m, ins.drop_last());
        let x = ins.last();
        if prev.addresses.contains(x.pubkey) {
            lemma_unspent_after_subset(prev.utxos, x);
            let n = spend(m, ins);
            assert forall|i: int| 0 <= i < n.utxos.len() implies {
                &&& n.addresses.contains((#[trigger] n.utxos[i]).recipient)
                &&& n.txids.contains(n.utxos[i].txid)
            } by {
                let j = choose|j: int| 0 <= j < prev.utxos.len() && prev.utxos[j] == n.utxos[i];
                assert(prev.addresses.contains(prev.utxos[j].recipient));
            }
        }
    }
}

/// Applying a transaction keeps the ledger's invariant: every unspent
/// output belongs to an address with an entry and comes from an applied
/// transaction.
pub proof fn lemma_applied_keeps_wf(m: LedgerView, tx: TransactionView, txid: Seq<char>)
    requires
        m.wf(),
    ensures
        applied(m, tx, txid).wf(),
{
    if !m.txids.contains(txid) {
        let c = credit(m, tx.outputs, txid);
        assert forall|i: int| 0 <= i < c.utxos.len() implies {
            &&& c.addresses.contains((#[trigger] c.utxos[i]).recipient)
            &&& c.txids.insert(txid).contains(c.utxos[i].txid)
        } by {
            if i >= m.utxos.len() {
                let k = i - m.utxos.len();
                assert(c.utxos[i] == created(tx.outputs, txid)[k]);
                assert(tx.outputs[k].recipient == c.utxos[i].recipient);
            } else {
                assert(c.utxos[i] == m.utxos[i]);
            }
        }
        let c2 = LedgerView { txids: c.txids.insert(txid), addresses: c.addresses, utxos: c.utxos };
        assert(c2.wf());
        lemma_spend_keeps_wf(c2, tx.inputs);
        lemma_spend_same_but_txids(c, c2, tx.inputs);
        lemma_spend_keeps_txids(c, tx.inputs);
        let n = spend(c, tx.inputs);
        assert(n.txids.insert(txid) =~= spend(c2, tx.inputs).txids);
        assert(applied(m, tx, txid) == spend(c2, tx.inputs));
    }
}

proof fn lemma_spend_same_but_txids(a: LedgerView, b: LedgerView, ins: Seq<InputView>)
    requires
        a.addresses == b.addresses,
        a.utxos == b.utxos,
    ensures
        spend(a, ins).addresses == spend(b, ins).addresses,
        spend(a, ins).utxos == spend(b, ins).utxos,
        spend(b, ins).txids == b.txids,
    decreases ins.len(),
{
    lemma_spend_keeps_txids(b, ins);
    if ins.len() > 0 {
        lemma_spend_same_but_txids(a, b, ins.drop_last());
    }
}

/// Under the invariant, an address without an entry holds nothing.
pub proof fn lemma_unknown_holds_nothing(m: LedgerView, a: Seq<char>)
    requires
        m.wf(),
        !m.addresses.contains(a),
    ensures
        m.held_by(a).len() == 0,
{
    lemma_owned_by_recipient(m.utxos, a);
    lemma_owned_by_members(m.utxos, a);
    if m.held_by(a).len() > 0 {
        let u = m.held_by(a)[0];
        let j = choose|j: int| 0 <= j < m.utxos.len() && m.utxos[j] == u;
        assert(m.addresses.contains(m.utxos[j].recipient));
    }
}

proof fn lemma_owned_by_members(s: Seq<UtxoView>, a: Seq<char>)
    ensures
        forall|i: int| 0 <= i < owned_by(s, a).len() ==> s.contains(#[trigger] owned_by(s, a)[i]),
    decreases s.len(),
{
    if s.len() > 0 {
        lemma_owned_by_members(s.drop_last(), a);
        let rest = owned_by(s.drop_last(), a);
        assert forall|i: int| 0 <= i < owned_by(s, a).len() implies s.contains(
            #[trigger] owned_by(s, a)[i],
        ) by {
            if i < rest.len() {
                assert(owned_by(s, a)[i] == rest[i]);
                let j = choose|j: int| 0 <= j < s.drop_last().len() && s.drop_last()[j] == rest[i];
                assert(s[j] == rest[i]);
            } else {
                assert(owned_by(s, a)[i] == s[s.len() - 1]);
            }
        }
    }
}

/// Whether `a` occurs among the views of `v`.
pub open spec fn listed(v: Seq<String>, a: Seq<char>) -> bool {
    exists|i: int| 0 <= i < v.len() && v[i]@ == a
}

fn contains_address(v: &Vec<String>, a: &String) -> (r: bool)
    ensures
        r == listed(v@, a@),
{
    let mut i: usize = 0;
    while i < v.len()
        invariant
            0 <= i <= v.len(),
            forall|j: int| 0 <= j < i ==> v@[j]@ != a@,
        decreases v.len() - i,
    {
        if v[i] == *a {
            return true;
        }
        i += 1;
    }
    false
}

fn copy_utxo(u: &UTXO) -> (r: UTXO)
    ensures
        r@ == u@,
{
    UTXO { txid: u.txid.clone(), index: u.index, amount: u.amount, recipient: u.recipient.clone() }
}

/// The outputs of `utxos` that input `x` does not spend, in their order.
fn without_spent(utxos: &Vec<UTXO>, x: &TransactionInput) -> (r: Vec<UTXO>)
    ensures
        utxo_views(r@) == unspent_after(utxo_views(utxos@), x@),
{
    let ghost s = utxo_views(utxos@);
    let mut kept: Vec<UTXO> = Vec::new();
    let mut k: usize = 0;
    while k < utxos.len()
        invariant
            0 <= k <= utxos.len(),
            s == utxo_views(utxos@),
            utxo_views(kept@) == unspent_after(s.take(k as int), x@),
        decreases utxos.len() - k,
    {
        proof {
            lemma_unspent_after_step(s, k as int, x@);
        }
        let u = &utxos[k];
        if !(u.recipient == x.pubkey && u.txid == x.txid && u.index == x.index) {
            kept.push(copy_utxo(u));
        }
        proof {
            assert(utxo_views(kept@) =~= unspent_after(s.take(k + 1), x@));
        }
        k += 1;
    }
    proof {
        assert(s.take(k as int) =~= s);
    }
    kept
}

/// The ledger: for every address that has received an output, the outputs
/// it still owns.
#[derive(Debug)]
pub struct UTX0Ledger {
    txids: Vec<String>,
    addresses: Vec<String>,
    utxos: Vec<UTXO>,
}

impl View for UTX0Ledger {
    type V = LedgerView;

    closed spec fn view(&self) -> LedgerView {
        LedgerView {
            txids: Set::new(|t: Seq<char>| listed(self.txids@, t)),
            addresses: Set::new(|a: Seq<char>| listed(self.addresses@, a)),
            utxos: utxo_views(self.utxos@),
        }
    }
}

impl UTX0Ledger {
    /// An empty ledger.
    pub fn new() -> (r: Self)
        ensures
            r@.wf(),
            r@.txids.is_empty(),
            r@.addresses.is_empty(),
            r@.utxos.len() == 0,
    {
        let r = UTX0Ledger { txids: Vec::new(), addresses: Vec::new(), utxos: Vec::new() };
        assert(r@.txids =~= Set::empty());
        assert(r@.addresses =~= Set::empty());
        r
    }

    /// The addresses that have an entry, in the order they first received
    /// an output.
    pub fn addresses(&self) -> (r: &Vec<String>)
        ensures
            forall|a: Seq<char>| self@.addresses.contains(a) <==> listed(r@, a),
    {
        &self.addresses
    }

    /// Every unspent output, in the order in which it was created.
    pub fn utxos(&self) -> (r: &Vec<UTXO>)
        ensures
            utxo_views(r@) == self@.utxos,
    {
        &self.utxos
    }

    /// Applies `transaction` under the identifier `txid`: every output
    /// becomes an unspent output of its recipient, numbered by its position,
    /// and then every input removes the output it names from the list of the
    /// address in its `pubkey` field. An identifier that was applied before
    /// leaves the ledger unchanged. Inputs and signatures are not validated.
    pub fn apply_transaction(&mut self, transaction: &Transaction, txid: &str)
        requires
            transaction.outputs@.len() <= u32::MAX as int + 1,
        ensures
            final(self)@ == applied(old(self)@, transaction@, txid@),
    {
        let id = txid.to_owned();
        if contains_address(&self.txids, &id) {
            return;
        }
        let ghost m0 = self@;
        let ghost outs = transaction@.outputs;
        let ghost ins = transaction@.inputs;
        let mut i: usize = 0;
        proof {
            assert(credit(m0, outs.take(0), txid@).utxos =~= m0.utxos);
            assert(credit(m0, outs.take(0), txid@).addresses =~= m0.addresses);
        }
        while i < transaction.outputs.len()
            invariant
                0 <= i <= transaction.outputs.len(),
                transaction.outputs@.len() <= u32::MAX as int + 1,
                outs == transaction@.outputs,
                id@ == txid@,
                self@ == credit(m0, outs.take(i as int), txid@),
            decreases transaction.outputs.len() - i,
        {
            let out = &transaction.outputs[i];
            let ghost before = self.addresses@;
            let ghost utxos_before = utxo_views(self.utxos@);
            let u = UTXO {
                txid: txid.to_owned(),
                index: i as u32,
                amount: out.amount,
                recipient: out.recipient.clone(),
            };
            let ghost uv = u@;
            self.utxos.push(u);
            if !contains_address(&self.addresses, &out.recipient) {
                self.addresses.push(out.recipient.clone());
            }
            proof {
                let next = credit(m0, outs.take(i + 1), txid@);
                assert(outs.take(i + 1)[i as int] == out@);
                assert(created(outs.take(i + 1), txid@) =~= created(outs.take(i as int), txid@).push(
                    uv,
                ));
                assert(utxo_views(self.utxos@) =~= utxos_before.push(uv));
                assert(self@.utxos =~= next.utxos);
                let prev = credit(m0, outs.take(i as int), txid@);
                assert(forall|w: int|
                    0 <= w < before.len() ==> self.addresses@[w] == #[trigger] before[w]);
                assert forall|a: Seq<char>| #[trigger]
                    self@.addresses.contains(a) == next.addresses.contains(a) by {
                    if next.addresses.contains(a) {
                        if a == out.recipient@ {
                            if !listed(before, a) {
                                assert(self.addresses@[before.len() as int]@ == a);
                            }
                        } else {
                            if !m0.addresses.contains(a) {
                                let w = choose|w: int|
                                    0 <= w < i + 1 && #[trigger] outs.take(i + 1)[w].recipient == a;
                                assert(w != i);
                                assert(outs.take(i as int)[w].recipient == a);
                            }
                            assert(prev.addresses.contains(a));
                            assert(listed(before, a));
                            let v = choose|v: int| 0 <= v < before.len() && before[v]@ == a;
                            assert(self.addresses@[v]@ == a);
                        }
                    }
                    if self@.addresses.contains(a) {
                        let w = choose|w: int|
                            0 <= w < self.addresses@.len() && self.addresses@[w]@ == a;
                        if w < before.len() {
                            assert(listed(before, a));
                            assert(prev.addresses.contains(a));
                            if !m0.addresses.contains(a) {
                                let v = choose|v: int|
                                    0 <= v < i && #[trigger] outs.take(i as int)[v].recipient == a;
                                assert(outs.take(i + 1)[v].recipient == a);
                            }
                        } else {
                            assert(a == out.recipient@);
                            assert(outs.take(i + 1)[i as int].recipient == a);
                        }
                    }
                }
                assert(self@.addresses =~= next.addresses);
            }
            i += 1;
        }
        proof {
            assert(outs.take(i as int) =~= outs);
        }
        let ghost m1 = self@;
        let mut j: usize = 0;
        while j < transaction.inputs.len()
            invariant
                0 <= j <= transaction.inputs.len(),
                ins == transaction@.inputs,
                id@ == txid@,
                self@ == spend(m1, ins.take(j as int)),
            decreases transaction.inputs.len() - j,
        {
            let x = &transaction.inputs[j];
            proof {
                assert(ins.take(j + 1).drop_last() =~= ins.take(j as int));
            }
            if contains_address(&self.addresses, &x.pubkey) {
                let kept = without_spent(&self.utxos, x);
                self.utxos = kept;
            }
            j += 1;
        }
        proof {
            assert(ins.take(j as int) =~= ins);
        }
        let ghost before = self.txids@;
        proof {
            lemma_spend_keeps_txids(m1, ins);
            assert(forall|t: Seq<char>| listed(before, t) == m0.txids.contains(t));
        }
        self.txids.push(id);
        proof {
            assert(forall|w: int| 0 <= w < before.len() ==> self.txids@[w] == #[trigger] before[w]);
            assert forall|t: Seq<char>| #[trigger]
                self@.txids.contains(t) == m0.txids.insert(txid@).contains(t) by {
                if listed(before, t) {
                    let w = choose|w: int| 0 <= w < before.len() && before[w]@ == t;
                    assert(self.txids@[w]@ == t);
                }
                if t == txid@ {
                    assert(self.txids@[before.len() as int]@ == t);
                }
                if self@.txids.contains(t) && t != txid@ {
                    let w = choose|w: int| 0 <= w < self.txids@.len() && self.txids@[w]@ == t;
                    assert(w < before.len());
                }
            }
            assert(self@.txids =~= m0.txids.insert(txid@));
        }
    }

    /// The sum of what `address` owns; 0 for an address without an entry.
    pub fn get_balance(&self, address: &str) -> (r: u64)
        requires
            self@.balance(address@) <= u64::MAX,
        ensures
            r == self@.balance(address@),
    {
        let a = address.to_owned();
        if !contains_address(&self.addresses, &a) {
            return 0;
        }
        let ghost s = utxo_views(self.utxos@);
        let mut sum: u64 = 0;
        let mut i: usize = 0;
        while i < self.utxos.len()
            invariant
                0 <= i <= self.utxos.len(),
                a@ == address@,
                s == utxo_views(self.utxos@),
                self@.addresses.contains(a@),
                total(owned_by(s, a@)) <= u64::MAX,
                sum == total(owned_by(s.take(i as int), a@)),
            decreases self.utxos.len() - i,
        {
            proof {
                lemma_owned_by_step(s, i as int, a@);
                lemma_owned_by_concat(s.take(i + 1), s.skip(i + 1), a@);
                assert(s.take(i + 1) + s.skip(i + 1) =~= s);
                lemma_total_monotone(owned_by(s, a@), owned_by(s.take(i + 1), a@).len() as int);
                assert(owned_by(s, a@).take(owned_by(s.take(i + 1), a@).len() as int) =~= owned_by(
                    s.take(i + 1),
                    a@,
                ));
                if s[i as int].recipient == a@ {
                    assert(owned_by(s.take(i + 1), a@).drop_last() =~= owned_by(
                        s.take(i as int),
                        a@,
                    ));
                }
            }
            if self.utxos[i].recipient == a {
                sum = sum + self.utxos[i].amount;
            }
            i += 1;
        }
        proof {
            assert(s.take(i as int) =~= s);
        }
        sum
    }

    /// First-fit coin selection: the outputs of `address`, in the ledger's
    /// order, up to and including the first one at which their running sum
    /// reaches `amount`. Nothing is marked as spent.
    pub fn find_spendable_utxos(&self, address: &str, amount: u64) -> (r: Result<
        Vec<UTXO>,
        CustomError,
    >)
        ensures
            match r {
                Ok(sel) => self@.addresses.contains(address@) && (selects(
                    self@.held_by(address@),
                    amount as int,
                    sel@.len() as int,
                ) || (sel@.len() == 0 && self@.held_by(address@).len() == 0 && amount == 0))
                    && utxo_views(sel@) == self@.held_by(address@).take(sel@.len() as int),
                Err(e) => e != CustomError::BadRequest,
            },
            r is Ok <==> self@.selection(address@, amount) is Ok,
            r is Ok ==> utxo_views(r->Ok_0@) == self@.selection(address@, amount)->Ok_0,
            r is Err ==> r->Err_0 == self@.selection(address@, amount)->Err_0,
    {
        let a = address.to_owned();
        if !contains_address(&self.addresses, &a) {
            return Err(CustomError::WalletNotFound);
        }
        let ghost s = utxo_views(self.utxos@);
        let ghost held = owned_by(s, a@);
        let mut selected: Vec<UTXO> = Vec::new();
        let mut sum: u64 = 0;
        let mut i: usize = 0;
        proof {
            assert(s.take(0) =~= Seq::<UtxoView>::empty());
            assert(s.skip(0) =~= s);
            assert(owned_by(s.take(0), a@) + held =~= held);
        }
        while i < self.utxos.len()
            invariant
                0 <= i <= self.utxos.len(),
                a@ == address@,
                s == utxo_views(self.utxos@),
                held == owned_by(s, a@),
                held == owned_by(s.take(i as int), a@) + owned_by(s.skip(i as int), a@),
                self@.addresses.contains(a@),
                utxo_views(selected@) == owned_by(s.take(i as int), a@),
                sum == total(utxo_views(selected@)),
                sum < amount || selected@.len() == 0,
                forall|j: int|
                    1 <= j <= selected@.len() ==> total(#[trigger] utxo_views(selected@).take(j))
                        < amount,
            decreases self.utxos.len() - i,
        {
            proof {
                lemma_owned_by_step(s, i as int, a@);
                lemma_owned_by_concat(s.take(i + 1), s.skip(i + 1), a@);
                assert(s.take(i + 1) + s.skip(i + 1) =~= s);
            }
            if self.utxos[i].recipient == a {
                let u = copy_utxo(&self.utxos[i]);
                let u_amount = u.amount;
                let enough = u_amount >= amount - sum;
                selected.push(u);
                proof {
                    let p = utxo_views(selected@);
                    assert(p.drop_last() =~= owned_by(s.take(i as int), a@));
                    assert(p =~= owned_by(s.take(i + 1), a@));
                    assert(p.take(p.len() as int) =~= p);
                    assert forall|j: int| 1 <= j < p.len() implies total(#[trigger] p.take(j))
                        < amount by {
                        assert(p.take(j) =~= p.drop_last().take(j));
                    }
                    assert(held.take(p.len() as int) =~= p);
                }
                if enough {
                    proof {
                        let p = utxo_views(selected@);
                        assert(p.drop_last() =~= owned_by(s.take(i as int), a@));
                        assert(p.last().amount == u_amount);
                        assert(total(p) >= amount);
                        assert(held.take(p.len() as int) =~= p);
                        assert forall|j: int| 1 <= j < p.len() implies total(
                            #[trigger] held.take(j),
                        ) < amount by {
                            assert(held.take(j) =~= p.take(j));
                        }
                        assert(selects(held, amount as int, p.len() as int));
                        lemma_total_monotone(held, p.len() as int);
                        let k = choose|k: int| selects(held, amount as int, k);
                        lemma_selects_unique(held, amount as int, k, p.len() as int);
                    }
                    return Ok(selected);
                }
                sum = sum + selected[selected.len() - 1].amount;
                proof {
                    let p = utxo_views(selected@);
                    assert(p.take(p.len() as int) =~= p);
                }
            }
            i += 1;
        }
        proof {
            assert(s.take(i as int) =~= s);
            assert(s.skip(i as int) =~= Seq::<UtxoView>::empty());
            assert(held =~= utxo_views(selected@));
            assert(total(held) == sum);
            if sum >= amount {
                assert(held.len() == 0);
                assert(held.take(0) =~= held);
                assert(utxo_views(selected@) =~= Seq::<UtxoView>::empty());
            }
        }
        if sum >= amount {
            return Ok(selected);
        }
        Err(CustomError::ExceedsBalance)
    }

    /// The outputs that `address` owns, in the ledger's order.
    pub fn utxos_of(&self, address: &str) -> (r: Vec<UTXO>)
        ensures
            utxo_views(r@) == self@.held_by(address@),
    {
        let a = address.to_owned();
        let mut r: Vec<UTXO> = Vec::new();
        let mut i: usize = 0;
        while i < self.utxos.len()
            invariant
                0 <= i <= self.utxos.len(),
                a@ == address@,
                utxo_views(r@) == owned_by(utxo_views(self.utxos@).take(i as int), a@),
            decreases self.utxos.len() - i,
        {
            proof {
                lemma_owned_by_step(utxo_views(self.utxos@), i as int, a@);
            }
            if self.utxos[i].recipient == a {
                r.push(copy_utxo(&self.utxos[i]));
            }
            proof {
                assert(utxo_views(r@) =~= owned_by(utxo_views(self.utxos@).take(i + 1), a@));
            }
            i += 1;
        }
        proof {
            assert(utxo_views(self.utxos@).take(i as int) =~= utxo_views(self.utxos@));
        }
        r
    }
}

} // verus!
