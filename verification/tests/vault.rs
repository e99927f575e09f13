use ink::primitives::AccountId;
use minidex::ledger::Balance;
use minidex::{Error, Token, TokenVault, Vault};

fn setup() -> (AccountId, AccountId) {
    (AccountId::from([0x01; 32]), AccountId::from([0x02; 32]))
}

#[test]
fn test_deposit() {
    let (alice, _) = setup();
    let mut vault = Vault::default();
    let token = Token::Base;

    // Test initial deposit
    vault.deposit(alice, token, 100);
    assert_eq!(vault.get_balance(alice, token), 100);
    assert_eq!(vault.get_locked(alice, token), 0);

    // Test additional deposit
    vault.deposit(alice, token, 50);
    assert_eq!(vault.get_balance(alice, token), 150);
}

#[test]
fn test_withdraw() {
    let (alice, _) = setup();
    let mut vault = Vault::default();
    let token = Token::Base;

    // Setup initial balance
    vault.deposit(alice, token, 100);

    // Test successful withdrawal
    assert!(vault.withdraw(alice, token, 50).is_ok());
    assert_eq!(vault.get_balance(alice, token), 50);

    // Test withdrawal with insufficient balance
    assert!(matches!(
        vault.withdraw(alice, token, 100),
        Err(Error::InsufficientBalance(_))
    ));
}

#[test]
fn test_lock() {
    let (alice, _) = setup();
    let mut vault = Vault::default();
    let token = Token::Base;

    // Setup initial balance
    vault.deposit(alice, token, 100);

    // Test successful lock
    assert!(vault.lock(alice, token, 50).is_ok());
    assert_eq!(vault.get_balance(alice, token), 50);
    assert_eq!(vault.get_locked(alice, token), 50);

    // Test lock with insufficient balance
    assert!(matches!(
        vault.lock(alice, token, 100),
        Err(Error::InsufficientBalance(_))
    ));
}

#[test]
fn test_unlock() {
    let (alice, _) = setup();
    let mut vault = Vault::default();
    let token = Token::Base;

    // Setup initial balance and locked amount
    vault.deposit(alice, token, 100);
    vault.lock(alice, token, 50).unwrap();

    // Test successful unlock
    assert!(vault.unlock(alice, token, 30).is_ok());
    assert_eq!(vault.get_balance(alice, token), 80);
    assert_eq!(vault.get_locked(alice, token), 20);

    // Test unlock with insufficient locked balance
    assert!(matches!(
        vault.unlock(alice, token, 100),
        Err(Error::InsufficientLockedBalance(_))
    ));
}

#[test]
fn test_transfer_locked() {
    let (alice, bob) = setup();
    let mut vault = Vault::default();
    let token = Token::Base;

    // Setup initial balance and locked amount
    vault.deposit(alice, token, 100);
    vault.lock(alice, token, 50).unwrap();

    // Test successful transfer
    assert!(vault.transfer_locked(alice, bob, token, 30).is_ok());

    assert_eq!(vault.get_balance(alice, token), 50);
    assert_eq!(vault.get_locked(alice, token), 20);

    assert_eq!(vault.get_balance(bob, token), 30);
    assert_eq!(vault.get_locked(bob, token), 0);

    // Test transfer with insufficient locked balance
    assert!(matches!(
        vault.transfer_locked(alice, bob, token, 100),
        Err(Error::InsufficientLockedBalance(_))
    ));

    // Test transfer to self - should fail
    assert!(matches!(
        vault.transfer_locked(alice, alice, token, 10),
        Err(Error::InvalidTransfer(_))
    ));
}

#[test]
fn test_multiple_tokens() {
    let (alice, _) = setup();
    let mut vault = Vault::default();
    let token1 = Token::Base;
    let token2 = Token::Quote;

    // Test operations with different tokens
    vault.deposit(alice, token1, 100);
    vault.deposit(alice, token2, 200);

    assert_eq!(vault.get_balance(alice, token1), 100);
    assert_eq!(vault.get_balance(alice, token2), 200);

    // Test operations on different tokens are independent
    vault.lock(alice, token1, 50).unwrap();
    assert_eq!(vault.get_balance(alice, token1), 50);
    assert_eq!(vault.get_locked(alice, token1), 50);

    assert_eq!(vault.get_balance(alice, token2), 200);
    assert_eq!(vault.get_locked(alice, token2), 0);
}

#[test]
fn untouched_account_reads_zero() {
    let (alice, bob) = setup();
    let mut vault = Vault::new();
    assert_eq!(vault.get_balance(alice, Token::Base), 0);
    assert_eq!(vault.get_locked(alice, Token::Quote), 0);
    vault.deposit(alice, Token::Base, 7);
    assert_eq!(vault.get_balance(bob, Token::Base), 0);
    assert_eq!(vault.get_balance(alice, Token::Quote), 0);
}

#[test]
fn accounts_are_told_apart_by_every_byte() {
    let mut first = [0u8; 32];
    let mut second = [0u8; 32];
    first[31] = 1;
    second[31] = 2;
    let (a, b) = (AccountId::from(first), AccountId::from(second));
    let mut vault = Vault::new();
    vault.deposit(a, Token::Base, 10);
    vault.deposit(b, Token::Base, 20);
    assert_eq!(vault.get_balance(a, Token::Base), 10);
    assert_eq!(vault.get_balance(b, Token::Base), 20);
    vault.lock(a, Token::Base, 10).unwrap();
    assert!(vault.transfer_locked(a, b, Token::Base, 10).is_ok());
    assert_eq!(vault.get_balance(b, Token::Base), 30);
}

#[test]
fn supply_changes_only_by_deposits_and_withdrawals() {
    let (alice, bob) = setup();
    let mut vault = Vault::new();
    assert_eq!(vault.total_supply(Token::Base), 0);

    vault.deposit(alice, Token::Base, 100);
    vault.deposit(bob, Token::Base, 40);
    vault.deposit(bob, Token::Quote, 9);
    assert_eq!(vault.total_supply(Token::Base), 140);
    assert_eq!(vault.total_supply(Token::Quote), 9);

    vault.lock(alice, Token::Base, 60).unwrap();
    assert_eq!(vault.total_supply(Token::Base), 140);
    vault.unlock(alice, Token::Base, 10).unwrap();
    assert_eq!(vault.total_supply(Token::Base), 140);
    vault.transfer_locked(alice, bob, Token::Base, 50).unwrap();
    assert_eq!(vault.total_supply(Token::Base), 140);
    assert_eq!(vault.get_balance(bob, Token::Base), 90);

    vault.withdraw(bob, Token::Base, 90).unwrap();
    assert_eq!(vault.total_supply(Token::Base), 50);
    assert_eq!(vault.total_supply(Token::Quote), 9);

    // refused operations change nothing
    assert!(vault.withdraw(alice, Token::Base, 51).is_err());
    assert!(vault.lock(alice, Token::Base, 51).is_err());
    assert!(vault.unlock(alice, Token::Base, 1).is_err());
    assert!(vault.transfer_locked(alice, bob, Token::Base, 1).is_err());
    assert_eq!(vault.total_supply(Token::Base), 50);
}

#[test]
fn a_refused_operation_leaves_every_balance_as_it_was() {
    let (alice, bob) = setup();
    let mut vault = Vault::new();
    vault.deposit(alice, Token::Quote, 100);
    vault.lock(alice, Token::Quote, 30).unwrap();

    assert_eq!(
        vault.withdraw(alice, Token::Quote, 71),
        Err(Error::InsufficientBalance(Token::Quote))
    );
    assert_eq!(
        vault.lock(alice, Token::Quote, 71),
        Err(Error::InsufficientBalance(Token::Quote))
    );
    assert_eq!(
        vault.unlock(alice, Token::Quote, 31),
        Err(Error::InsufficientLockedBalance(Token::Quote))
    );
    assert_eq!(
        vault.transfer_locked(alice, bob, Token::Quote, 31),
        Err(Error::InsufficientLockedBalance(Token::Quote))
    );
    assert!(matches!(
        vault.transfer_locked(alice, alice, Token::Quote, 0),
        Err(Error::InvalidTransfer(_))
    ));

    assert_eq!(vault.get_balance(alice, Token::Quote), 70);
    assert_eq!(vault.get_locked(alice, Token::Quote), 30);
    assert_eq!(vault.get_balance(bob, Token::Quote), 0);
    assert_eq!(vault.get_locked(bob, Token::Quote), 0);
}

#[test]
fn whole_balance_can_be_moved() {
    let (alice, bob) = setup();
    let mut vault = Vault::new();
    vault.deposit(alice, Token::Base, 5);
    assert!(vault.lock(alice, Token::Base, 5).is_ok());
    assert_eq!(vault.get_balance(alice, Token::Base), 0);
    assert!(vault.transfer_locked(alice, bob, Token::Base, 5).is_ok());
    assert_eq!(vault.get_locked(alice, Token::Base), 0);
    assert!(vault.withdraw(bob, Token::Base, 5).is_ok());
    assert_eq!(vault.total_supply(Token::Base), 0);
}

#[test]
fn balances_up_to_the_128_bit_limit() {
    let (alice, bob) = setup();
    let mut vault = Vault::new();
    vault.deposit(alice, Token::Base, u128::MAX - 1);
    vault.deposit(bob, Token::Base, 1);
    assert_eq!(vault.total_supply(Token::Base), u128::MAX);
    vault.lock(bob, Token::Base, 1).unwrap();
    vault.transfer_locked(bob, alice, Token::Base, 1).unwrap();
    assert_eq!(vault.get_balance(alice, Token::Base), u128::MAX);
    vault.lock(alice, Token::Base, u128::MAX).unwrap();
    assert_eq!(vault.get_locked(alice, Token::Base), u128::MAX);
    assert_eq!(vault.get_balance(alice, Token::Base), 0);
}

#[test]
fn snapshot_is_independent_of_the_vault() {
    let (alice, _) = setup();
    let mut vault = Vault::new();
    vault.deposit(alice, Token::Base, 10);
    let copy = vault.snapshot();
    vault.deposit(alice, Token::Base, 5);
    assert_eq!(copy.get_balance(alice, Token::Base), 10);
    assert_eq!(vault.get_balance(alice, Token::Base), 15);
}

#[test]
fn balances_list_every_touched_slot_once() {
    let (alice, bob) = setup();
    let mut vault = Vault::new();
    assert!(vault.balances().is_empty());
    vault.deposit(alice, Token::Base, 10);
    vault.deposit(bob, Token::Quote, 20);
    vault.lock(bob, Token::Quote, 5).unwrap();
    vault.deposit(alice, Token::Base, 1);

    let mut list = vault.balances();
    list.sort_by_key(|b| b.available);
    assert_eq!(
        list,
        vec![
            Balance { account: alice, token: Token::Base, available: 11, locked: 0 },
            Balance { account: bob, token: Token::Quote, available: 15, locked: 5 },
        ]
    );
}

#[test]
fn a_vault_comes_back_from_its_balances() {
    let (alice, bob) = setup();
    let list = vec![
        Balance { account: alice, token: Token::Base, available: 3, locked: 4 },
        Balance { account: alice, token: Token::Quote, available: 5, locked: 0 },
        Balance { account: bob, token: Token::Base, available: 0, locked: 6 },
    ];
    let mut vault = Vault::restore(&list).unwrap();
    assert_eq!(vault.get_balance(alice, Token::Base), 3);
    assert_eq!(vault.get_locked(alice, Token::Base), 4);
    assert_eq!(vault.get_balance(alice, Token::Quote), 5);
    assert_eq!(vault.get_locked(bob, Token::Base), 6);
    assert_eq!(vault.get_balance(bob, Token::Quote), 0);
    assert_eq!(vault.total_supply(Token::Base), 13);
    assert_eq!(vault.total_supply(Token::Quote), 5);
    vault.unlock(bob, Token::Base, 6).unwrap();
    assert_eq!(vault.balances().len(), 3);
}

#[test]
fn balances_that_make_no_ledger_are_refused() {
    let (alice, bob) = setup();
    // one slot twice
    let twice = vec![
        Balance { account: alice, token: Token::Base, available: 1, locked: 0 },
        Balance { account: bob, token: Token::Base, available: 1, locked: 0 },
        Balance { account: alice, token: Token::Base, available: 2, locked: 0 },
    ];
    assert!(Vault::restore(&twice).is_none());
    // more of an asset than 128 bits hold
    let too_much = vec![
        Balance { account: alice, token: Token::Quote, available: u128::MAX, locked: 0 },
        Balance { account: bob, token: Token::Quote, available: 0, locked: 1 },
    ];
    assert!(Vault::restore(&too_much).is_none());
    let within_one_record = vec![Balance {
        account: alice,
        token: Token::Base,
        available: u128::MAX,
        locked: 1,
    }];
    assert!(Vault::restore(&within_one_record).is_none());
    // the limit itself is fine, and the two assets are counted apart
    let at_the_limit = vec![
        Balance { account: alice, token: Token::Quote, available: u128::MAX - 1, locked: 0 },
        Balance { account: bob, token: Token::Quote, available: 0, locked: 1 },
        Balance { account: bob, token: Token::Base, available: u128::MAX, locked: 0 },
    ];
    assert!(Vault::restore(&at_the_limit).is_some());
    assert!(Vault::restore(&Vec::new()).is_some());
}
