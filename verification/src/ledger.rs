//! The per-client account state machine: deposits, withdrawals, disputes,
//! resolutions and chargebacks, with idempotent transaction ids, one-way
//! account freezing, and exact bookkeeping of held funds.
use crate::balance::Balance;
use vstd::prelude::*;

verus! {

/// A client identifier, the ledger's partition key.
#[derive(Clone, Copy, Debug, Default, PartialEq, Eq, Structural, Hash, PartialOrd, Ord)]
pub struct ClientId(pub u16);

/// A transaction identifier, unique per client.
#[derive(Clone, Copy, Debug, PartialEq, Eq, Structural, Hash, PartialOrd, Ord)]
pub struct TransactionId(pub u32);

/// An instruction from the input stream.
#[derive(Clone, Copy, Debug, PartialEq, Eq, Structural)]
pub enum Action {
    Deposit { client: ClientId, transaction: TransactionId, amount: Balance },
    Withdrawal { client: ClientId, transaction: TransactionId, amount: Balance },
    Dispute { client: ClientId, transaction: TransactionId },
    Resolve { client: ClientId, transaction: TransactionId },
    Chargeback { client: ClientId, transaction: TransactionId },
}

/// A funds movement that carries an amount, as opposed to the three
/// instructions that only reference one.
#[derive(Clone, Copy, Debug, PartialEq, Eq, Structural)]
pub enum Transaction {
    Deposit { client: ClientId, transaction: TransactionId, amount: Balance },
    Withdrawal { client: ClientId, transaction: TransactionId, amount: Balance },
}

/// The kind and amount of a recorded transaction.
#[derive(Clone, Copy, Debug, PartialEq, Eq, Structural)]
pub enum TransactionKind {
    Deposit(Balance),
    Withdrawal(Balance),
}

/// One row of the final report, a projection of one account.
#[derive(Clone, Copy, Debug, PartialEq, Eq, Structural)]
pub struct AccountSummary {
    pub client: ClientId,
    pub locked: bool,
    pub available: Balance,
    pub held: Balance,
    pub total: Balance,
}

/// The mathematical image of one recorded transaction.
#[verifier::ext_equal]
pub struct TxModel {
    pub tx: u32,
    pub is_deposit: bool,
    pub amount: int,
    pub disputed: bool,
}

/// The mathematical image of one account.
#[verifier::ext_equal]
pub struct AccountModel {
    pub client: u16,
    pub txs: Seq<TxModel>,
    pub locked: bool,
    pub available: int,
    pub held: int,
}

/// The held contribution of one record: its amount while under dispute.
pub open spec fn disputed_part(e: TxModel) -> int {
    if e.disputed {
        e.amount
    } else {
        0
    }
}

/// The total amount currently under dispute.
pub open spec fn held_sum(txs: Seq<TxModel>) -> int
    decreases txs.len(),
{
    if txs.len() == 0 {
        0
    } else {
        held_sum(txs.drop_last()) + disputed_part(txs.last())
    }
}

pub open spec fn tx_ids_unique(txs: Seq<TxModel>) -> bool {
    forall|p: int, q: int| 0 <= p < q < txs.len() ==> txs[p].tx != txs[q].tx
}

pub open spec fn has_tx(txs: Seq<TxModel>, tx: u32) -> bool {
    exists|k: int| 0 <= k < txs.len() && txs[k].tx == tx
}

pub open spec fn tx_at(txs: Seq<TxModel>, tx: u32) -> int {
    choose|k: int| 0 <= k < txs.len() && txs[k].tx == tx
}

/// The account invariant: transaction ids are unique, amounts fit the stored
/// width, both balances are nonnegative, their sum fits the stored width,
/// and the held balance is exactly the sum of the disputed amounts.
pub open spec fn account_wf(a: AccountModel) -> bool {
    &&& tx_ids_unique(a.txs)
    &&& forall|k: int| 0 <= k < a.txs.len() ==> 0 <= #[trigger] a.txs[k].amount <= u128::MAX
    &&& 0 <= a.available
    &&& 0 <= a.held
    &&& a.available + a.held <= u128::MAX
    &&& a.held == held_sum(a.txs)
}

/// A fresh account: zero balances, unlocked, empty history.
pub open spec fn empty_account(c: u16) -> AccountModel {
    AccountModel { client: c, txs: Seq::empty(), locked: false, available: 0, held: 0 }
}

pub open spec fn client_of(act: Action) -> u16 {
    match act {
        Action::Deposit { client, .. } => client.0,
        Action::Withdrawal { client, .. } => client.0,
        Action::Dispute { client, .. } => client.0,
        Action::Resolve { client, .. } => client.0,
        Action::Chargeback { client, .. } => client.0,
    }
}

/// One event applied to one account. A frozen account ignores everything.
/// A deposit or withdrawal with a recorded transaction id is ignored; a
/// withdrawal or a deposit-dispute without sufficient available funds is
/// ignored; an increase that would not fit the stored width is ignored.
/// Resolve removes the record; chargeback keeps it, closes the dispute and
/// freezes the account.
pub open spec fn apply_action(a: AccountModel, act: Action) -> AccountModel {
    if a.locked {
        a
    } else {
        match act {
            Action::Deposit { transaction, amount, .. } => {
                if has_tx(a.txs, transaction.0) {
                    a
                } else if a.available + a.held + amount.0 > u128::MAX {
                    a
                } else {
                    AccountModel {
                        txs: a.txs.push(
                            TxModel {
                                tx: transaction.0,
                                is_deposit: true,
                                amount: amount.0 as int,
                                disputed: false,
                            },
                        ),
                        available: a.available + amount.0,
                        ..a
                    }
                }
            },
            Action::Withdrawal { transaction, amount, .. } => {
                if has_tx(a.txs, transaction.0) {
                    a
                } else if a.available < amount.0 {
                    a
                } else {
                    AccountModel {
                        txs: a.txs.push(
                            TxModel {
                                tx: transaction.0,
                                is_deposit: false,
                                amount: amount.0 as int,
                                disputed: false,
                            },
                        ),
                        available: a.available - amount.0,
                        ..a
                    }
                }
            },
            Action::Dispute { transaction, .. } => {
                if !has_tx(a.txs, transaction.0) {
                    a
                } else {
                    let i = tx_at(a.txs, transaction.0);
                    let e = a.txs[i];
                    if e.disputed {
                        a
                    } else if e.is_deposit {
                        if a.available < e.amount {
                            a
                        } else {
                            AccountModel {
                                txs: a.txs.update(i, TxModel { disputed: true, ..e }),
                                available: a.available - e.amount,
                                held: a.held + e.amount,
                                ..a
                            }
                        }
                    } else {
                        if a.available + a.held + e.amount > u128::MAX {
                            a
                        } else {
                            AccountModel {
                                txs: a.txs.update(i, TxModel { disputed: true, ..e }),
                                held: a.held + e.amount,
                                ..a
                            }
                        }
                    }
                }
            },
            Action::Resolve { transaction, .. } => {
                if !has_tx(a.txs, transaction.0) {
                    a
                } else {
                    let i = tx_at(a.txs, transaction.0);
                    let e = a.txs[i];
                    if !e.disputed {
                        a
                    } else if e.is_deposit {
                        AccountModel {
                            txs: a.txs.remove(i),
                            available: a.available + e.amount,
                            held: a.held - e.amount,
                            ..a
                        }
                    } else {
                        AccountModel { txs: a.txs.remove(i), held: a.held - e.amount, ..a }
                    }
                }
            },
            Action::Chargeback { transaction, .. } => {
                if !has_tx(a.txs, transaction.0) {
                    a
                } else {
                    let i = tx_at(a.txs, transaction.0);
                    let e = a.txs[i];
                    if !e.disputed {
                        a
                    } else if e.is_deposit {
                        AccountModel {
                            txs: a.txs.update(i, TxModel { disputed: false, ..e }),
                            held: a.held - e.amount,
                            locked: true,
                            ..a
                        }
                    } else {
                        AccountModel {
                            txs: a.txs.update(i, TxModel { disputed: false, ..e }),
                            available: a.available + e.amount,
                            held: a.held - e.amount,
                            locked: true,
                            ..a
                        }
                    }
                }
            },
        }
    }
}

pub open spec fn clients_sorted(l: Seq<AccountModel>) -> bool {
    forall|p: int, q: int| 0 <= p < q < l.len() ==> l[p].client < l[q].client
}

pub open spec fn states_wf(l: Seq<AccountModel>) -> bool {
    &&& clients_sorted(l)
    &&& forall|k: int| 0 <= k < l.len() ==> account_wf(#[trigger] l[k])
}

pub open spec fn has_client(l: Seq<AccountModel>, c: u16) -> bool {
    exists|k: int| 0 <= k < l.len() && l[k].client == c
}

pub open spec fn client_at(l: Seq<AccountModel>, c: u16) -> int {
    choose|k: int| 0 <= k < l.len() && l[k].client == c
}

/// How many accounts precede client `c` in ascending order.
pub open spec fn count_lt(l: Seq<AccountModel>, c: u16) -> int
    decreases l.len(),
{
    if l.len() == 0 {
        0
    } else {
        count_lt(l.drop_last(), c) + if l.last().client < c {
            1int
        } else {
            0int
        }
    }
}

/// One event applied to the ledger: the client's account is created empty on
/// first reference, then the event is applied to it.
pub open spec fn spec_process(l: Seq<AccountModel>, act: Action) -> Seq<AccountModel> {
    let c = client_of(act);
    if has_client(l, c) {
        l.update(client_at(l, c), apply_action(l[client_at(l, c)], act))
    } else {
        l.insert(count_lt(l, c), apply_action(empty_account(c), act))
    }
}

proof fn lemma_held_sum_push(txs: Seq<TxModel>, e: TxModel)
    ensures
        held_sum(txs.push(e)) == held_sum(txs) + disputed_part(e),
{
    assert(txs.push(e).drop_last() =~= txs);
    assert(txs.push(e).last() == e);
}

proof fn lemma_held_sum_update(txs: Seq<TxModel>, i: int, e: TxModel)
    requires
        0 <= i < txs.len(),
    ensures
        held_sum(txs.update(i, e)) == held_sum(txs) - disputed_part(txs[i]) + disputed_part(e),
    decreases txs.len(),
{
    let u = txs.update(i, e);
    if i == txs.len() - 1 {
        assert(u.drop_last() =~= txs.drop_last());
        assert(u.last() == e);
    } else {
        assert(u.drop_last() =~= txs.drop_last().update(i, e));
        assert(u.last() == txs.last());
        lemma_held_sum_update(txs.drop_last(), i, e);
        assert(txs.drop_last()[i] == txs[i]);
    }
}

proof fn lemma_held_sum_remove(txs: Seq<TxModel>, i: int)
    requires
        0 <= i < txs.len(),
    ensures
        held_sum(txs.remove(i)) == held_sum(txs) - disputed_part(txs[i]),
    decreases txs.len(),
{
    let u = txs.remove(i);
    if i == txs.len() - 1 {
        assert(u =~= txs.drop_last());
    } else {
        assert(u.drop_last() =~= txs.drop_last().remove(i));
        assert(u.last() == txs.last());
        lemma_held_sum_remove(txs.drop_last(), i);
        assert(txs.drop_last()[i] == txs[i]);
    }
}

proof fn lemma_held_sum_nonneg(txs: Seq<TxModel>)
    requires
        forall|k: int| 0 <= k < txs.len() ==> 0 <= #[trigger] txs[k].amount,
    ensures
        held_sum(txs) >= 0,
    decreases txs.len(),
{
    if txs.len() > 0 {
        lemma_held_sum_nonneg(txs.drop_last());
    }
}

/// A disputed record never exceeds the held total.
proof fn lemma_held_sum_at_least(txs: Seq<TxModel>, i: int)
    requires
        forall|k: int| 0 <= k < txs.len() ==> 0 <= #[trigger] txs[k].amount,
        0 <= i < txs.len(),
        txs[i].disputed,
    ensures
        held_sum(txs) >= txs[i].amount,
    decreases txs.len(),
{
    if i == txs.len() - 1 {
        lemma_held_sum_nonneg(txs.drop_last());
    } else {
        lemma_held_sum_at_least(txs.drop_last(), i);
        assert(txs.drop_last()[i] == txs[i]);
    }
}

/// One event keeps the account invariant and never changes the owner.
pub proof fn lemma_apply_action_wf(a: AccountModel, act: Action)
    requires
        account_wf(a),
    ensures
        account_wf(apply_action(a, act)),
        apply_action(a, act).client == a.client,
        apply_action(a, act).available >= 0,
        apply_action(a, act).held >= 0,
{
    let r = apply_action(a, act);
    if !a.locked {
        match act {
            Action::Deposit { transaction, amount, .. } => {
                if !has_tx(a.txs, transaction.0) && a.available + a.held + amount.0
                    <= u128::MAX {
                    let e = TxModel {
                        tx: transaction.0,
                        is_deposit: true,
                        amount: amount.0 as int,
                        disputed: false,
                    };
                    lemma_held_sum_push(a.txs, e);
                    assert forall|p: int, q: int| 0 <= p < q < r.txs.len() implies r.txs[p].tx
                        != r.txs[q].tx by {
                        if q < a.txs.len() {
                        } else {
                            assert(r.txs[q] == e);
                            assert(!(0 <= p < a.txs.len() && a.txs[p].tx == e.tx));
                        }
                    }
                }
            },
            Action::Withdrawal { transaction, amount, .. } => {
                if !has_tx(a.txs, transaction.0) && a.available >= amount.0 {
                    let e = TxModel {
                        tx: transaction.0,
                        is_deposit: false,
                        amount: amount.0 as int,
                        disputed: false,
                    };
                    lemma_held_sum_push(a.txs, e);
                    assert forall|p: int, q: int| 0 <= p < q < r.txs.len() implies r.txs[p].tx
                        != r.txs[q].tx by {
                        if q < a.txs.len() {
                        } else {
                            assert(r.txs[q] == e);
                            assert(!(0 <= p < a.txs.len() && a.txs[p].tx == e.tx));
                        }
                    }
                }
            },
            Action::Dispute { transaction, .. } => {
                if has_tx(a.txs, transaction.0) {
                    let i = tx_at(a.txs, transaction.0);
                    assert(0 <= i < a.txs.len() && a.txs[i].tx == transaction.0);
                    let e = a.txs[i];
                    if !e.disputed {
                        let d = TxModel { disputed: true, ..e };
                        if e.is_deposit && a.available >= e.amount {
                            lemma_held_sum_update(a.txs, i, d);
                        } else if !e.is_deposit && a.available + a.held + e.amount
                            <= u128::MAX {
                            lemma_held_sum_update(a.txs, i, d);
                        }
                    }
                }
            },
            Action::Resolve { transaction, .. } => {
                if has_tx(a.txs, transaction.0) {
                    let i = tx_at(a.txs, transaction.0);
                    assert(0 <= i < a.txs.len() && a.txs[i].tx == transaction.0);
                    let e = a.txs[i];
                    if e.disputed {
                        lemma_held_sum_at_least(a.txs, i);
                        lemma_held_sum_remove(a.txs, i);
                        assert forall|p: int, q: int| 0 <= p < q < r.txs.len() implies
                            r.txs[p].tx != r.txs[q].tx by {
                            assert(r.txs[p] == if p < i {
                                a.txs[p]
                            } else {
                                a.txs[p + 1]
                            });
                            assert(r.txs[q] == if q < i {
                                a.txs[q]
                            } else {
                                a.txs[q + 1]
                            });
                        }
                    }
                }
            },
            Action::Chargeback { transaction, .. } => {
                if has_tx(a.txs, transaction.0) {
                    let i = tx_at(a.txs, transaction.0);
                    assert(0 <= i < a.txs.len() && a.txs[i].tx == transaction.0);
                    let e = a.txs[i];
                    if e.disputed {
                        lemma_held_sum_at_least(a.txs, i);
                        lemma_held_sum_update(a.txs, i, TxModel { disputed: false, ..e });
                    }
                }
            },
        }
    }
}

/// Law: every event keeps every account's invariant, in particular that
/// available and held funds stay nonnegative and their sum is the total.
pub proof fn lemma_process_preserves_invariants(l: Seq<AccountModel>, act: Action)
    requires
        states_wf(l),
    ensures
        states_wf(spec_process(l, act)),
        forall|k: int|
            0 <= k < spec_process(l, act).len() ==> #[trigger] spec_process(l, act)[k].available
                >= 0 && spec_process(l, act)[k].held >= 0,
{
    let c = client_of(act);
    let r = spec_process(l, act);
    if has_client(l, c) {
        let i = client_at(l, c);
        assert(0 <= i < l.len() && l[i].client == c);
        lemma_apply_action_wf(l[i], act);
        assert forall|p: int, q: int| 0 <= p < q < r.len() implies r[p].client < r[q].client by {
            assert(l[p].client < l[q].client);
        }
        assert forall|k: int| 0 <= k < r.len() implies account_wf(#[trigger] r[k]) by {
            if k != i {
                assert(r[k] == l[k]);
            }
        }
    } else {
        let pos = count_lt(l, c);
        lemma_count_lt_bounds(l, c);
        lemma_apply_action_wf(empty_account(c), act);
        lemma_count_lt_split(l, c);
        assert forall|p: int, q: int| 0 <= p < q < r.len() implies r[p].client < r[q].client by {
            if p < pos && q == pos {
                assert(r[p] == l[p]);
            } else if p == pos && q > pos {
                assert(r[q] == l[q - 1]);
                assert(l[q - 1].client != c);
            } else if p < pos && q > pos {
                assert(r[p] == l[p]);
                assert(r[q] == l[q - 1]);
            } else if p > pos && q > pos {
                assert(r[p] == l[p - 1]);
                assert(r[q] == l[q - 1]);
            }
        }
        assert forall|k: int| 0 <= k < r.len() implies account_wf(#[trigger] r[k]) by {
            if k < pos {
                assert(r[k] == l[k]);
            } else if k > pos {
                assert(r[k] == l[k - 1]);
            }
        }
    }
}

proof fn lemma_count_lt_bounds(l: Seq<AccountModel>, c: u16)
    ensures
        0 <= count_lt(l, c) <= l.len(),
    decreases l.len(),
{
    if l.len() > 0 {
        lemma_count_lt_bounds(l.drop_last(), c);
    }
}

/// In a sorted ledger the accounts below `c` sit exactly before `count_lt`.
proof fn lemma_count_lt_split(l: Seq<AccountModel>, c: u16)
    requires
        clients_sorted(l),
    ensures
        forall|k: int| 0 <= k < l.len() ==> ((#[trigger] l[k].client < c) <==> k < count_lt(l, c)),
    decreases l.len(),
{
    lemma_count_lt_bounds(l, c);
    if l.len() > 0 {
        let d = l.drop_last();
        assert(clients_sorted(d));
        lemma_count_lt_split(d, c);
        lemma_count_lt_bounds(d, c);
        if l.last().client < c {
            assert forall|k: int| 0 <= k < d.len() implies #[trigger] l[k].client < c by {
                assert(d[k] == l[k]);
                assert(l[k].client < l[l.len() - 1].client);
            }
            assert(count_lt(d, c) == d.len());
        } else {
            assert(count_lt(l, c) == count_lt(d, c));
        }
        assert forall|k: int| 0 <= k < d.len() implies (d[k] == l[k]) by {}
    }
}

/// Law: a deposit or a withdrawal that replays a transaction id already
/// recorded for the client leaves the whole ledger unchanged.
pub proof fn lemma_replayed_tx_ignored(
    l: Seq<AccountModel>,
    c: ClientId,
    t: TransactionId,
    amount: Balance,
)
    requires
        states_wf(l),
        has_client(l, c.0),
        has_tx(l[client_at(l, c.0)].txs, t.0),
    ensures
        spec_process(l, Action::Deposit { client: c, transaction: t, amount }) == l,
        spec_process(l, Action::Withdrawal { client: c, transaction: t, amount }) == l,
{
    let i = client_at(l, c.0);
    assert(0 <= i < l.len() && l[i].client == c.0);
    assert(l.update(i, l[i]) =~= l);
}

/// Law: a dispute naming a transaction id that is not in the client's
/// history leaves the whole ledger unchanged.
pub proof fn lemma_unknown_dispute_ignored(l: Seq<AccountModel>, c: ClientId, t: TransactionId)
    requires
        states_wf(l),
        has_client(l, c.0),
        !has_tx(l[client_at(l, c.0)].txs, t.0),
    ensures
        spec_process(l, Action::Dispute { client: c, transaction: t }) == l,
{
    let i = client_at(l, c.0);
    assert(0 <= i < l.len() && l[i].client == c.0);
    assert(l.update(i, l[i]) =~= l);
}

/// The report row that one account yields.
pub open spec fn spec_summary(a: AccountModel) -> AccountSummary {
    AccountSummary {
        client: ClientId(a.client),
        locked: a.locked,
        available: Balance(a.available as u128),
        held: Balance(a.held as u128),
        total: Balance((a.available + a.held) as u128),
    }
}

/// One recorded transaction with its dispute flag.
#[derive(Clone, Copy)]
struct TxEntry {
    tx: TransactionId,
    kind: TransactionKind,
    disputed: bool,
}

spec fn entry_model(e: TxEntry) -> TxModel {
    TxModel {
        tx: e.tx.0,
        is_deposit: e.kind is Deposit,
        amount: (match e.kind {
            TransactionKind::Deposit(b) => b.0,
            TransactionKind::Withdrawal(b) => b.0,
        }) as int,
        disputed: e.disputed,
    }
}

/// One account as stored: its owner, history, dispute flags and balances.
struct AccountState {
    client: ClientId,
    txs: Vec<TxEntry>,
    locked: bool,
    available: Balance,
    held: Balance,
}

spec fn account_model(a: AccountState) -> AccountModel {
    AccountModel {
        client: a.client.0,
        txs: a.txs@.map_values(|e: TxEntry| entry_model(e)),
        locked: a.locked,
        available: a.available.0 as int,
        held: a.held.0 as int,
    }
}

impl AccountState {
    fn empty(c: ClientId) -> (r: AccountState)
        ensures
            account_model(r) == empty_account(c.0),
    {
        let r = AccountState {
            client: c,
            txs: Vec::new(),
            locked: false,
            available: Balance(0),
            held: Balance(0),
        };
        proof {
            assert(account_model(r).txs =~= Seq::<TxModel>::empty());
            assert(account_model(r) =~= empty_account(c.0));
        }
        r
    }

    /// The position of the record with the given transaction id, if any.
    fn find_tx(&self, tx: u32) -> (r: Option<usize>)
        ensures
            match r {
                Some(j) => j < account_model(*self).txs.len() && account_model(
                    *self,
                ).txs[j as int].tx == tx,
                None => !has_tx(account_model(*self).txs, tx),
            },
    {
        let ghost m = account_model(*self).txs;
        let n: usize = self.txs.len();
        let mut i: usize = 0;
        while i < n
            invariant
                0 <= i <= n,
                n == self.txs@.len(),
                m == account_model(*self).txs,
                m.len() == n,
                forall|k: int| 0 <= k < i ==> m[k].tx != tx,
            decreases n - i,
        {
            if self.txs[i].tx.0 == tx {
                proof {
                    assert(m[i as int] == entry_model(self.txs@[i as int]));
                }
                return Some(i);
            }
            proof {
                assert(m[i as int] == entry_model(self.txs@[i as int]));
            }
            i = i + 1;
        }
        proof {
            if has_tx(m, tx) {
                let k = choose|k: int| 0 <= k < m.len() && m[k].tx == tx;
                assert(false);
            }
        }
        None
    }

    /// Applies one event to this account, exactly as `apply_action` says.
    fn apply(&mut self, action: Action)
        requires
            account_wf(account_model(*old(self))),
        ensures
            account_model(*final(self)) == apply_action(account_model(*old(self)), action),
            account_wf(account_model(*final(self))),
    {
        proof {
            lemma_apply_action_wf(account_model(*old(self)), action);
        }
        let ghost a = account_model(*old(self));
        if self.locked {
            return;
        }
        match action {
            Action::Deposit { transaction, amount, .. } => {
                match self.find_tx(transaction.0) {
                    Some(_) => {},
                    None => {
                        let headroom: u128 = u128::MAX - self.available.0 - self.held.0;
                        if amount.0 <= headroom {
                            let e = TxEntry {
                                tx: transaction,
                                kind: TransactionKind::Deposit(amount),
                                disputed: false,
                            };
                            self.txs.push(e);
                            self.available = Balance(self.available.0 + amount.0);
                            proof {
                                assert(account_model(*self).txs =~= a.txs.push(entry_model(e)));
                                assert(account_model(*self) =~= apply_action(a, action));
                            }
                        } else {
                            proof {
                                assert(a.available + a.held + amount.0 > u128::MAX);
                            }
                        }
                    },
                }
            },
            Action::Withdrawal { transaction, amount, .. } => {
                match self.find_tx(transaction.0) {
                    Some(_) => {},
                    None => {
                        if amount.0 <= self.available.0 {
                            let e = TxEntry {
                                tx: transaction,
                                kind: TransactionKind::Withdrawal(amount),
                                disputed: false,
                            };
                            self.txs.push(e);
                            self.available = Balance(self.available.0 - amount.0);
                            proof {
                                assert(account_model(*self).txs =~= a.txs.push(entry_model(e)));
                                assert(account_model(*self) =~= apply_action(a, action));
                            }
                        }
                    },
                }
            },
            Action::Dispute { transaction, .. } => {
                match self.find_tx(transaction.0) {
                    None => {},
                    Some(j) => {
                        proof {
                            lemma_tx_at_found(a.txs, transaction.0, j as int);
                        }
                        let e = self.txs[j];
                        proof {
                            assert(entry_model(e) == a.txs[j as int]);
                        }
                        if !e.disputed {
                            match e.kind {
                                TransactionKind::Deposit(amt) => {
                                    if amt.0 <= self.available.0 {
                                        self.txs.set(
                                            j,
                                            TxEntry {
                                                tx: e.tx,
                                                kind: e.kind,
                                                disputed: true,
                                            },
                                        );
                                        self.available = Balance(self.available.0 - amt.0);
                                        self.held = Balance(self.held.0 + amt.0);
                                        proof {
                                            assert(account_model(*self).txs =~= a.txs.update(
                                                j as int,
                                                TxModel { disputed: true, ..a.txs[j as int] },
                                            ));
                                            assert(account_model(*self) =~= apply_action(
                                                a,
                                                action,
                                            ));
                                        }
                                    }
                                },
                                TransactionKind::Withdrawal(amt) => {
                                    let headroom: u128 = u128::MAX - self.available.0
                                        - self.held.0;
                                    if amt.0 <= headroom {
                                        self.txs.set(
                                            j,
                                            TxEntry {
                                                tx: e.tx,
                                                kind: e.kind,
                                                disputed: true,
                                            },
                                        );
                                        self.held = Balance(self.held.0 + amt.0);
                                        proof {
                                            assert(account_model(*self).txs =~= a.txs.update(
                                                j as int,
                                                TxModel { disputed: true, ..a.txs[j as int] },
                                            ));
                                            assert(account_model(*self) =~= apply_action(
                                                a,
                                                action,
                                            ));
                                        }
                                    } else {
                                        proof {
                                            assert(a.available + a.held + a.txs[j as int].amount
                                                > u128::MAX);
                                        }
                                    }
                                },
                            }
                        }
                    },
                }
            },
            Action::Resolve { transaction, .. } => {
                match self.find_tx(transaction.0) {
                    None => {},
                    Some(j) => {
                        proof {
                            lemma_tx_at_found(a.txs, transaction.0, j as int);
                        }
                        let e = self.txs[j];
                        proof {
                            assert(entry_model(e) == a.txs[j as int]);
                        }
                        if e.disputed {
                            proof {
                                lemma_held_sum_at_least(a.txs, j as int);
                            }
                            self.txs.remove(j);
                            match e.kind {
                                TransactionKind::Deposit(amt) => {
                                    self.held = Balance(self.held.0 - amt.0);
                                    self.available = Balance(self.available.0 + amt.0);
                                },
                                TransactionKind::Withdrawal(amt) => {
                                    self.held = Balance(self.held.0 - amt.0);
                                },
                            }
                            proof {
                                assert(account_model(*self).txs =~= a.txs.remove(j as int));
                                assert(account_model(*self) =~= apply_action(a, action));
                            }
                        }
                    },
                }
            },
            Action::Chargeback { transaction, .. } => {
                match self.find_tx(transaction.0) {
                    None => {},
                    Some(j) => {
                        proof {
                            lemma_tx_at_found(a.txs, transaction.0, j as int);
                        }
                        let e = self.txs[j];
                        proof {
                            assert(entry_model(e) == a.txs[j as int]);
                        }
                        if e.disputed {
                            proof {
                                lemma_held_sum_at_least(a.txs, j as int);
                            }
                            self.txs.set(
                                j,
                                TxEntry { tx: e.tx, kind: e.kind, disputed: false },
                            );
                            match e.kind {
                                TransactionKind::Deposit(amt) => {
                                    self.held = Balance(self.held.0 - amt.0);
                                },
                                TransactionKind::Withdrawal(amt) => {
                                    self.held = Balance(self.held.0 - amt.0);
                                    self.available = Balance(self.available.0 + amt.0);
                                },
                            }
                            self.locked = true;
                            proof {
                                assert(account_model(*self).txs =~= a.txs.update(
                                    j as int,
                                    TxModel { disputed: false, ..a.txs[j as int] },
                                ));
                                assert(account_model(*self) =~= apply_action(a, action));
                            }
                        }
                    },
                }
            },
        }
    }
}

/// In a history with unique ids, a found position is the chosen one.
proof fn lemma_tx_at_found(txs: Seq<TxModel>, tx: u32, j: int)
    requires
        tx_ids_unique(txs),
        0 <= j < txs.len(),
        txs[j].tx == tx,
    ensures
        has_tx(txs, tx),
        tx_at(txs, tx) == j,
{
    assert(has_tx(txs, tx));
    let w = tx_at(txs, tx);
    assert(0 <= w < txs.len() && txs[w].tx == tx);
    if w < j {
        assert(txs[w].tx != txs[j].tx);
    }
    if j < w {
        assert(txs[j].tx != txs[w].tx);
    }
}

/// The ledger: every account seen so far, ascending by client id.
pub struct AccountStates {
    accounts: Vec<AccountState>,
}

impl View for AccountStates {
    type V = Seq<AccountModel>;

    closed spec fn view(&self) -> Seq<AccountModel> {
        self.accounts@.map_values(|a: AccountState| account_model(a))
    }
}

impl Default for AccountStates {
    /// A ledger with no accounts.
    fn default() -> (r: AccountStates)
        ensures
            r@ == Seq::<AccountModel>::empty(),
            states_wf(r@),
    {
        let r = AccountStates { accounts: Vec::new() };
        proof {
            assert(r@ =~= Seq::<AccountModel>::empty());
        }
        r
    }
}

impl AccountStates {
    /// A ledger with no accounts.
    pub fn new() -> (r: AccountStates)
        ensures
            r@ == Seq::<AccountModel>::empty(),
            states_wf(r@),
    {
        let r = AccountStates { accounts: Vec::new() };
        proof {
            assert(r@ =~= Seq::<AccountModel>::empty());
        }
        r
    }

    /// Applies one event: the referenced account is created empty on first
    /// sight, then changed exactly as `spec_process` says.
    pub fn process(&mut self, action: Action)
        requires
            states_wf(old(self)@),
        ensures
            states_wf(final(self)@),
            final(self)@ == spec_process(old(self)@, action),
    {
        let ghost l = old(self)@;
        let c: u16 = match action {
            Action::Deposit { client, .. } => client.0,
            Action::Withdrawal { client, .. } => client.0,
            Action::Dispute { client, .. } => client.0,
            Action::Resolve { client, .. } => client.0,
            Action::Chargeback { client, .. } => client.0,
        };
        proof {
            assert(c == client_of(action));
        }
        let n: usize = self.accounts.len();
        proof {
            assert(l.len() == n);
        }
        let mut i: usize = 0;
        loop
            invariant
                0 <= i <= n,
                n == self.accounts@.len(),
                self@ == l,
                forall|k: int| 0 <= k < i ==> l[k].client < c,
            ensures
                0 <= i <= n,
                forall|k: int| 0 <= k < i ==> l[k].client < c,
                i == n || l[i as int].client >= c,
            decreases n - i,
        {
            if i < n {
                let cl: u16 = self.accounts[i].client.0;
                proof {
                    assert(l[i as int] == account_model(self.accounts@[i as int]));
                }
                if cl < c {
                    i = i + 1;
                } else {
                    break;
                }
            } else {
                break;
            }
        }
        let here: bool = if i < n {
            let cl: u16 = self.accounts[i].client.0;
            proof {
                assert(l[i as int] == account_model(self.accounts@[i as int]));
            }
            cl == c
        } else {
            false
        };
        if !here {
            proof {
                assert forall|k: int| 0 <= k < l.len() implies l[k].client != c by {
                    if k < i {
                    } else if k == i {
                    } else {
                        assert(l[i as int].client < l[k].client);
                    }
                }
                assert(!has_client(l, c));
                lemma_count_lt_bounds(l, c);
                lemma_count_lt_split(l, c);
                let p = count_lt(l, c);
                if p > i {
                    assert(l[i as int].client < c);
                }
                if p < i {
                    assert(l[p].client < c ==> p < p);
                    assert(l[p].client < c);
                }
                assert(p == i);
            }
            let st = AccountState::empty(ClientId(c));
            self.accounts.insert(i, st);
            proof {
                assert(self@ =~= l.insert(i as int, empty_account(c)));
            }
        } else {
            proof {
                assert(l[i as int].client == c);
                assert(has_client(l, c));
                let w = client_at(l, c);
                assert(0 <= w < l.len() && l[w].client == c);
                if w < i {
                    assert(l[w].client < c);
                }
                if w > i {
                    assert(l[i as int].client < l[w].client);
                }
                assert(w == i);
            }
        }
        let ghost l2 = self@;
        proof {
            if here {
                assert(account_wf(l2[i as int]));
            } else {
                assert(l2[i as int] == empty_account(c));
                assert(held_sum(Seq::<TxModel>::empty()) == 0);
                assert(account_wf(empty_account(c)));
            }
        }
        let mut st = self.accounts.remove(i);
        proof {
            assert(self@ =~= l2.remove(i as int));
            assert(account_model(st) == l2[i as int]);
        }
        st.apply(action);
        self.accounts.insert(i, st);
        proof {
            assert(self@ =~= l2.remove(i as int).insert(
                i as int,
                apply_action(l2[i as int], action),
            ));
            assert(self@ =~= l2.update(i as int, apply_action(l2[i as int], action)));
            if here {
                assert(self@ =~= spec_process(l, action));
            } else {
                assert(l2 == l.insert(i as int, empty_account(c)));
                assert(self@ =~= l.insert(i as int, apply_action(empty_account(c), action)));
                assert(self@ =~= spec_process(l, action));
            }
            lemma_process_preserves_invariants(l, action);
        }
    }

    /// The final report: one row per account, ascending by client id, each
    /// total being available plus held.
    pub fn summary(&self) -> (r: Vec<AccountSummary>)
        requires
            states_wf(self@),
        ensures
            r@ == self@.map_values(|a: AccountModel| spec_summary(a)),
            forall|p: int, q: int| 0 <= p < q < r@.len() ==> r@[p].client.0 < r@[q].client.0,
            forall|k: int|
                0 <= k < r@.len() ==> (#[trigger] r@[k]).total.0 == r@[k].available.0
                    + r@[k].held.0,
    {
        let n: usize = self.accounts.len();
        proof {
            assert(self@.len() == n);
        }
        let mut out: Vec<AccountSummary> = Vec::new();
        let mut i: usize = 0;
        proof {
            assert(out@ =~= self@.take(0).map_values(|a: AccountModel| spec_summary(a)));
        }
        while i < n
            invariant
                0 <= i <= n,
                n == self.accounts@.len(),
                n == self@.len(),
                states_wf(self@),
                out@ == self@.take(i as int).map_values(|a: AccountModel| spec_summary(a)),
            decreases n - i,
        {
            proof {
                assert(self@[i as int] == account_model(self.accounts@[i as int]));
                assert(account_wf(self@[i as int]));
            }
            let avail: u128 = self.accounts[i].available.0;
            let held: u128 = self.accounts[i].held.0;
            let row = AccountSummary {
                client: self.accounts[i].client,
                locked: self.accounts[i].locked,
                available: Balance(avail),
                held: Balance(held),
                total: Balance(avail + held),
            };
            out.push(row);
            proof {
                assert(row == spec_summary(self@[i as int]));
                assert(self@.take(i + 1).map_values(|a: AccountModel| spec_summary(a)) =~= self@
                    .take(i as int).map_values(|a: AccountModel| spec_summary(a)).push(
                    spec_summary(self@[i as int]),
                ));
            }
            i = i + 1;
        }
        proof {
            assert(self@.take(n as int) =~= self@);
            assert forall|p: int, q: int| 0 <= p < q < out@.len() implies out@[p].client.0
                < out@[q].client.0 by {
                assert(out@[p] == spec_summary(self@[p]));
                assert(out@[q] == spec_summary(self@[q]));
            }
            assert forall|k: int| 0 <= k < out@.len() implies (#[trigger] out@[k]).total.0
                == out@[k].available.0 + out@[k].held.0 by {
                assert(out@[k] == spec_summary(self@[k]));
                assert(account_wf(self@[k]));
            }
        }
        out
    }
}

/// The ledger after a sequence of events, applied in order to `l`.
pub open spec fn fold_process(l: Seq<AccountModel>, acts: Seq<Action>) -> Seq<AccountModel>
    decreases acts.len(),
{
    if acts.len() == 0 {
        l
    } else {
        spec_process(fold_process(l, acts.drop_last()), acts.last())
    }
}

/// The ledger that a sequence of events builds from no accounts.
pub open spec fn spec_aggregate(acts: Seq<Action>) -> Seq<AccountModel> {
    fold_process(Seq::empty(), acts)
}

/// Feeds every event of the stream, in order, through a fresh ledger and
/// reports one row per client, ascending by client id.
pub fn aggregate(stream: Vec<Action>) -> (r: Vec<AccountSummary>)
    ensures
        r@ == spec_aggregate(stream@).map_values(|a: AccountModel| spec_summary(a)),
        forall|p: int, q: int| 0 <= p < q < r@.len() ==> r@[p].client.0 < r@[q].client.0,
{
    let mut states = AccountStates::new();
    proof {
        assert(stream@.take(0) =~= Seq::<Action>::empty());
        assert(states_wf(states@));
    }
    let n: usize = stream.len();
    let mut i: usize = 0;
    while i < n
        invariant
            0 <= i <= n,
            n == stream@.len(),
            states_wf(states@),
            states@ == fold_process(Seq::<AccountModel>::empty(), stream@.take(i as int)),
        decreases n - i,
    {
        let act = stream[i];
        states.process(act);
        proof {
            assert(stream@.take(i + 1).drop_last() =~= stream@.take(i as int));
            assert(stream@.take(i + 1).last() == stream@[i as int]);
        }
        i = i + 1;
    }
    proof {
        assert(stream@.take(n as int) =~= stream@);
    }
    states.summary()
}

} // verus!
