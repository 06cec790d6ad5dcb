use fungible_token::FungibleToken;
use fungible_token::TransferError;

fn signer() -> String {
    String::from("bob.near")
}

#[test]
fn get_total_supply() {
    let contract = FungibleToken::new(signer(), 100);
    assert_eq!(contract.get_total_supply(), 100)
}

#[test]
fn get_balance_of() {
    let contract = FungibleToken::new(signer(), 100);
    assert_eq!(contract.get_balance_of(signer()), 100);
    assert_eq!(contract.get_balance_of(String::from("emilbob.testnet")), 0)
}

#[test]
fn transfer_token() {
    let mut contract = FungibleToken::new(signer(), 100);
    contract
        .transfer(signer(), String::from("emilbob.testnet"), 10)
        .unwrap();
    assert_eq!(contract.get_balance_of(signer()), 90);
    assert_eq!(
        contract.get_balance_of(String::from("emilbob.testnet")),
        10
    );
}

#[test]
fn genesis_mints_whole_supply_to_initializer() {
    let contract = FungibleToken::new(String::from("alice"), 100);
    assert_eq!(contract.get_total_supply(), 100);
    assert_eq!(contract.get_balance_of(String::from("alice")), 100);
    assert_eq!(contract.get_balance_of(String::from("bob")), 0);
}

#[test]
fn transfer_moves_exactly_the_amount() {
    let mut contract = FungibleToken::new(String::from("alice"), 100);
    assert!(contract
        .transfer(String::from("alice"), String::from("bob"), 10)
        .is_ok());
    assert_eq!(contract.get_balance_of(String::from("alice")), 90);
    assert_eq!(contract.get_balance_of(String::from("bob")), 10);
}

#[test]
fn insufficient_balance_is_rejected_without_effect() {
    let mut contract = FungibleToken::new(String::from("alice"), 100);
    contract
        .transfer(String::from("alice"), String::from("bob"), 10)
        .unwrap();
    let result = contract.transfer(String::from("alice"), String::from("bob"), 1000);
    assert_eq!(result, Err(TransferError::InsufficientBalance));
    assert_eq!(contract.get_balance_of(String::from("alice")), 90);
    assert_eq!(contract.get_balance_of(String::from("bob")), 10);
}

#[test]
fn transfer_from_account_without_entry_is_rejected() {
    let mut contract = FungibleToken::new(String::from("alice"), 100);
    let result = contract.transfer(String::from("carol"), String::from("alice"), 1);
    assert_eq!(result, Err(TransferError::InsufficientBalance));
    assert_eq!(contract.get_balance_of(String::from("alice")), 100);
    assert_eq!(contract.get_balance_of(String::from("carol")), 0);
}

#[test]
fn zero_amount_transfer_succeeds_and_changes_nothing() {
    let mut contract = FungibleToken::new(String::from("alice"), 100);
    assert!(contract
        .transfer(String::from("carol"), String::from("alice"), 0)
        .is_ok());
    assert_eq!(contract.get_balance_of(String::from("alice")), 100);
    assert_eq!(contract.get_balance_of(String::from("carol")), 0);
}

#[test]
fn self_transfer_keeps_the_balance() {
    let mut contract = FungibleToken::new(String::from("alice"), 100);
    assert!(contract
        .transfer(String::from("alice"), String::from("alice"), 60)
        .is_ok());
    assert_eq!(contract.get_balance_of(String::from("alice")), 100);
    assert_eq!(contract.get_total_supply(), 100);
}

#[test]
fn self_transfer_still_needs_funds() {
    let mut contract = FungibleToken::new(String::from("alice"), 100);
    let result = contract.transfer(String::from("alice"), String::from("alice"), 101);
    assert_eq!(result, Err(TransferError::InsufficientBalance));
    assert_eq!(contract.get_balance_of(String::from("alice")), 100);
}

#[test]
fn chained_transfers_add_up() {
    let mut contract = FungibleToken::new(String::from("alice"), 100);
    contract
        .transfer(String::from("alice"), String::from("bob"), 30)
        .unwrap();
    contract
        .transfer(String::from("bob"), String::from("carol"), 10)
        .unwrap();
    assert_eq!(contract.get_balance_of(String::from("alice")), 70);
    assert_eq!(contract.get_balance_of(String::from("bob")), 20);
    assert_eq!(contract.get_balance_of(String::from("carol")), 10);
}

#[test]
fn balances_sum_to_the_supply_at_every_step() {
    let mut contract = FungibleToken::new(String::from("alice"), 100);
    let accounts = [
        String::from("alice"),
        String::from("bob"),
        String::from("carol"),
    ];
    let moves = [("alice", "bob", 40u128), ("bob", "carol", 15), ("carol", "alice", 5), ("alice", "alice", 65)];
    for (from, to, amount) in moves {
        contract
            .transfer(String::from(from), String::from(to), amount)
            .unwrap();
        let mut sum: u128 = 0;
        for account in &accounts {
            sum += contract.get_balance_of(account.clone());
        }
        assert_eq!(sum, contract.get_total_supply());
    }
}

#[test]
fn untouched_account_stays_at_zero() {
    let mut contract = FungibleToken::new(String::from("alice"), 100);
    contract
        .transfer(String::from("alice"), String::from("bob"), 25)
        .unwrap();
    assert_eq!(contract.get_balance_of(String::from("dan")), 0);
}

#[test]
fn full_drain_leaves_sender_at_zero() {
    let mut contract = FungibleToken::new(String::from("alice"), 100);
    contract
        .transfer(String::from("alice"), String::from("bob"), 100)
        .unwrap();
    assert_eq!(contract.get_balance_of(String::from("alice")), 0);
    assert_eq!(contract.get_balance_of(String::from("bob")), 100);
}

#[test]
fn widest_supply_moves_without_overflow() {
    let mut contract = FungibleToken::new(String::from("alice"), u128::MAX);
    assert_eq!(contract.get_total_supply(), u128::MAX);
    contract
        .transfer(String::from("alice"), String::from("bob"), u128::MAX)
        .unwrap();
    assert_eq!(contract.get_balance_of(String::from("alice")), 0);
    assert_eq!(contract.get_balance_of(String::from("bob")), u128::MAX);
}

#[test]
fn state_entries_of_a_fresh_ledger() {
    let contract = FungibleToken::new(String::from("alice"), 100);
    let entries = contract.state_entries();
    assert_eq!(entries, vec![(String::from("alice"), 100u128)]);
}

#[test]
fn state_round_trip_rebuilds_the_balances() {
    let mut contract = FungibleToken::new(String::from("alice"), 100);
    contract
        .transfer(String::from("alice"), String::from("bob"), 30)
        .unwrap();
    contract
        .transfer(String::from("bob"), String::from("carol"), 10)
        .unwrap();
    let entries = contract.state_entries();
    let rebuilt = FungibleToken::from_entries(entries, contract.get_total_supply())
        .expect("entries of a well-formed ledger are always accepted");
    for account in ["alice", "bob", "carol", "dan"] {
        assert_eq!(
            rebuilt.get_balance_of(String::from(account)),
            contract.get_balance_of(String::from(account))
        );
    }
    assert_eq!(rebuilt.get_total_supply(), 100);
}

#[test]
fn from_entries_accepts_a_consistent_state() {
    let entries = vec![(String::from("alice"), 60u128), (String::from("bob"), 40u128)];
    let contract = FungibleToken::from_entries(entries, 100).unwrap();
    assert_eq!(contract.get_balance_of(String::from("alice")), 60);
    assert_eq!(contract.get_balance_of(String::from("bob")), 40);
    assert_eq!(contract.get_total_supply(), 100);
}

#[test]
fn from_entries_rejects_a_duplicate_account() {
    let entries = vec![(String::from("alice"), 60u128), (String::from("alice"), 40u128)];
    assert!(FungibleToken::from_entries(entries, 100).is_none());
}

#[test]
fn from_entries_rejects_a_wrong_sum() {
    let entries = vec![(String::from("alice"), 60u128), (String::from("bob"), 30u128)];
    assert!(FungibleToken::from_entries(entries, 100).is_none());
}

#[test]
fn from_entries_rejects_an_overflowing_sum() {
    let entries = vec![
        (String::from("alice"), u128::MAX),
        (String::from("bob"), u128::MAX),
    ];
    assert!(FungibleToken::from_entries(entries, u128::MAX).is_none());
}
