use transaction_processor::{
    aggregate, AccountStates, Action, Balance, ClientId, TransactionId,
};

fn amount(s: &str) -> Balance {
    Balance::from_str(s).unwrap()
}

fn deposit(client: u16, tx: u32, value: &str) -> Action {
    Action::Deposit {
        client: ClientId(client),
        transaction: TransactionId(tx),
        amount: amount(value),
    }
}

fn withdrawal(client: u16, tx: u32, value: &str) -> Action {
    Action::Withdrawal {
        client: ClientId(client),
        transaction: TransactionId(tx),
        amount: amount(value),
    }
}

fn dispute(client: u16, tx: u32) -> Action {
    Action::Dispute { client: ClientId(client), transaction: TransactionId(tx) }
}

fn resolve(client: u16, tx: u32) -> Action {
    Action::Resolve { client: ClientId(client), transaction: TransactionId(tx) }
}

fn chargeback(client: u16, tx: u32) -> Action {
    Action::Chargeback { client: ClientId(client), transaction: TransactionId(tx) }
}

#[test]
fn scenario_simple_deposits_and_withdrawal() {
    let rows = aggregate(vec![
        deposit(1, 1, "1.0"),
        deposit(2, 2, "2.0"),
        deposit(1, 3, "2"),
        withdrawal(1, 4, "1.5"),
        withdrawal(2, 5, "3.0"),
    ]);
    assert_eq!(rows.len(), 2);
    assert_eq!(rows[0].client, ClientId(1));
    assert!(!rows[0].locked);
    assert_eq!(rows[0].available.render(), "1.5000");
    assert_eq!(rows[0].held.render(), "0.0000");
    assert_eq!(rows[0].total.render(), "1.5000");
    assert_eq!(rows[1].client, ClientId(2));
    assert_eq!(rows[1].available.render(), "2.0000");
}

#[test]
fn scenario_deposit_dispute_then_chargeback() {
    let mut states = AccountStates::new();
    states.process(deposit(1, 1, "1.0"));
    states.process(dispute(1, 1));
    states.process(chargeback(1, 1));
    let rows = states.summary();
    assert_eq!(rows.len(), 1);
    assert!(rows[0].locked);
    assert_eq!(rows[0].available, Balance(0));
    assert_eq!(rows[0].held, Balance(0));
    assert_eq!(rows[0].total, Balance(0));
    // the frozen account ignores every further event
    states.process(deposit(1, 10, "5.0"));
    states.process(withdrawal(1, 11, "1.0"));
    let rows = states.summary();
    assert!(rows[0].locked);
    assert_eq!(rows[0].available, Balance(0));
    assert_eq!(rows[0].held, Balance(0));
}

#[test]
fn scenario_withdrawal_dispute_chargeback_then_resolve_and_redispute() {
    let mut states = AccountStates::new();
    states.process(deposit(2, 2, "2.0"));
    // a chargeback with no open dispute is ignored
    states.process(chargeback(2, 2));
    let rows = states.summary();
    assert!(!rows[0].locked);
    assert_eq!(rows[0].available.render(), "2.0000");
    // the dispute moves the funds to held
    states.process(dispute(2, 2));
    let rows = states.summary();
    assert_eq!(rows[0].held.render(), "2.0000");
    assert_eq!(rows[0].available.render(), "0.0000");
    // the resolution releases them and closes the transaction for good
    states.process(resolve(2, 2));
    let rows = states.summary();
    assert_eq!(rows[0].held.render(), "0.0000");
    assert_eq!(rows[0].available.render(), "2.0000");
    states.process(dispute(2, 2));
    let rows = states.summary();
    assert_eq!(rows[0].held.render(), "0.0000");
    assert_eq!(rows[0].available.render(), "2.0000");
    // a fresh withdrawal of the remaining funds succeeds
    states.process(withdrawal(2, 6, "2"));
    let rows = states.summary();
    assert_eq!(rows[0].available.render(), "0.0000");
    assert!(!rows[0].locked);
}

#[test]
fn replayed_transaction_ids_are_ignored() {
    let mut states = AccountStates::new();
    states.process(deposit(1, 1, "1.0"));
    states.process(deposit(1, 1, "9.0"));
    states.process(withdrawal(1, 1, "0.5"));
    let rows = states.summary();
    assert_eq!(rows[0].available.render(), "1.0000");
    states.process(withdrawal(1, 2, "0.25"));
    states.process(withdrawal(1, 2, "0.25"));
    let rows = states.summary();
    assert_eq!(rows[0].available.render(), "0.7500");
}

#[test]
fn dispute_of_unknown_transaction_is_a_no_op() {
    let mut states = AccountStates::new();
    states.process(deposit(1, 1, "1.0"));
    states.process(dispute(1, 99));
    let rows = states.summary();
    assert_eq!(rows.len(), 1);
    assert_eq!(rows[0].available.render(), "1.0000");
    assert_eq!(rows[0].held.render(), "0.0000");
    assert!(!rows[0].locked);
}

#[test]
fn insufficient_funds_drop_withdrawal_and_deposit_dispute() {
    let mut states = AccountStates::new();
    states.process(deposit(1, 1, "1.0"));
    states.process(withdrawal(1, 2, "5.0"));
    let rows = states.summary();
    assert_eq!(rows[0].available.render(), "1.0000");
    // spend the deposit, then dispute it: nothing is left to hold
    states.process(withdrawal(1, 3, "0.75"));
    states.process(dispute(1, 1));
    let rows = states.summary();
    assert_eq!(rows[0].available.render(), "0.2500");
    assert_eq!(rows[0].held.render(), "0.0000");
}

#[test]
fn summary_is_ascending_by_client_id() {
    let rows = aggregate(vec![
        deposit(9, 1, "1.0"),
        deposit(2, 2, "1.0"),
        deposit(65535, 3, "1.0"),
        deposit(0, 4, "1.0"),
        deposit(5, 5, "1.0"),
    ]);
    let ids: Vec<u16> = rows.iter().map(|r| r.client.0).collect();
    assert_eq!(ids, vec![0, 2, 5, 9, 65535]);
}

#[test]
fn total_is_available_plus_held() {
    let mut states = AccountStates::new();
    states.process(deposit(1, 1, "3.0"));
    states.process(deposit(1, 2, "4.0"));
    states.process(dispute(1, 1));
    let rows = states.summary();
    assert_eq!(rows[0].available.render(), "4.0000");
    assert_eq!(rows[0].held.render(), "3.0000");
    assert_eq!(rows[0].total.render(), "7.0000");
}

#[test]
fn disputed_withdrawal_holds_then_chargeback_restores() {
    let mut states = AccountStates::new();
    states.process(deposit(3, 1, "5.0"));
    states.process(withdrawal(3, 2, "2.0"));
    states.process(dispute(3, 2));
    let rows = states.summary();
    assert_eq!(rows[0].available.render(), "3.0000");
    assert_eq!(rows[0].held.render(), "2.0000");
    assert_eq!(rows[0].total.render(), "5.0000");
    states.process(chargeback(3, 2));
    let rows = states.summary();
    assert_eq!(rows[0].available.render(), "5.0000");
    assert_eq!(rows[0].held.render(), "0.0000");
    assert!(rows[0].locked);
}

#[test]
fn first_reference_creates_an_empty_account() {
    let rows = aggregate(vec![dispute(7, 1)]);
    assert_eq!(rows.len(), 1);
    assert_eq!(rows[0].client, ClientId(7));
    assert_eq!(rows[0].available, Balance(0));
    assert_eq!(rows[0].held, Balance(0));
    assert!(!rows[0].locked);
}
