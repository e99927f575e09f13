use ink::primitives::AccountId;
use minidex::{BTreeOrderBook, Error, OrderBook, Side, Token, TokenVault, Vault};

fn setup() -> (BTreeOrderBook, Vault, AccountId, AccountId) {
    let book = BTreeOrderBook::new();
    let mut vault = Vault::default();
    let alice = AccountId::from([0x01; 32]);
    let bob = AccountId::from([0x02; 32]);

    // Setup initial balances
    vault.deposit(alice, Token::Base, 1000);
    vault.deposit(alice, Token::Quote, 1000);
    vault.deposit(bob, Token::Base, 1000);
    vault.deposit(bob, Token::Quote, 1000);

    (book, vault, alice, bob)
}

#[test]
fn test_basic_matching() {
    let (mut book, mut vault, alice, bob) = setup();
    let now = 1;

    // Alice places a buy order: 100 TokenA at price 10 TokenB
    let mut buy_order =
        book.make_new_order(alice, (Token::Base, Token::Quote), Side::Buy, 10, 100, now);
    vault.lock(alice, Token::Quote, 1000).unwrap(); // Lock 1000 TokenB
    buy_order.locked = 1000;
    book.insert_new_order(buy_order.clone());

    // Bob places a sell order: 100 TokenA at price 10 TokenB
    let mut sell_order = book.make_new_order(
        bob,
        (Token::Base, Token::Quote),
        Side::Sell,
        10,
        100,
        now + 1,
    );
    vault.lock(bob, Token::Base, 100).unwrap(); // Lock 100 TokenA
    sell_order.locked = 100;
    book.insert_new_order(sell_order.clone());

    // Check initial balances
    assert_eq!(vault.get_balance(alice, Token::Base), 1000);
    assert_eq!(vault.get_locked(alice, Token::Base), 0);
    assert_eq!(vault.get_balance(alice, Token::Quote), 0);
    assert_eq!(vault.get_locked(alice, Token::Quote), 1000);
    assert_eq!(vault.get_balance(bob, Token::Base), 900);
    assert_eq!(vault.get_locked(bob, Token::Base), 100);
    assert_eq!(vault.get_balance(bob, Token::Quote), 1000);
    assert_eq!(vault.get_locked(bob, Token::Quote), 0);

    // Match the orders
    let (remaining_sell, events) = book
        .match_buy_orders(sell_order.clone(), &mut vault)
        .unwrap();
    assert!(remaining_sell.is_none()); // Sell order should be fully filled
    assert_eq!(events.len(), 2); // Two fill events

    // Verify the match by checking the events
    let (buy_event, sell_event) = (&events[0], &events[1]);
    assert_eq!(buy_event.order_id, buy_order.id);
    assert_eq!(sell_event.order_id, sell_order.id);
    assert_eq!(buy_event.filled_price, 10);
    assert_eq!(sell_event.filled_price, 10);
    assert_eq!(buy_event.filled_qty, 100);
    assert_eq!(sell_event.filled_qty, 100);

    // Check final balances
    assert_eq!(vault.get_balance(alice, Token::Base), 1100); // Received 100 TokenA
    assert_eq!(vault.get_locked(alice, Token::Base), 0);
    assert_eq!(vault.get_balance(alice, Token::Quote), 0); // Spent 1000 TokenB
    assert_eq!(vault.get_locked(alice, Token::Quote), 0);
    assert_eq!(vault.get_balance(bob, Token::Base), 900); // Spent 100 TokenA
    assert_eq!(vault.get_locked(bob, Token::Base), 0);
    assert_eq!(vault.get_balance(bob, Token::Quote), 2000); // Received 1000 TokenB
    assert_eq!(vault.get_locked(bob, Token::Quote), 0);
}

#[test]
fn test_partial_fill() {
    let (mut book, mut vault, alice, bob) = setup();
    let now = 1;

    // Alice places a buy order: 50 TokenA at price 10 TokenB
    let mut buy_order =
        book.make_new_order(alice, (Token::Base, Token::Quote), Side::Buy, 10, 50, now);
    vault.lock(alice, Token::Quote, 500).unwrap(); // Lock 500 TokenB
    buy_order.locked = 500;
    book.insert_new_order(buy_order.clone());

    // Bob places a sell order: 100 TokenA at price 10 TokenB
    let mut sell_order = book.make_new_order(
        bob,
        (Token::Base, Token::Quote),
        Side::Sell,
        10,
        100,
        now + 1,
    );
    vault.lock(bob, Token::Base, 100).unwrap(); // Lock 100 TokenA
    sell_order.locked = 100;
    book.insert_new_order(sell_order.clone());

    // Check initial balances
    assert_eq!(vault.get_balance(alice, Token::Base), 1000);
    assert_eq!(vault.get_locked(alice, Token::Base), 0);
    assert_eq!(vault.get_balance(alice, Token::Quote), 500);
    assert_eq!(vault.get_locked(alice, Token::Quote), 500);
    assert_eq!(vault.get_balance(bob, Token::Base), 900); // 1000 - 100 locked
    assert_eq!(vault.get_locked(bob, Token::Base), 100);
    assert_eq!(vault.get_balance(bob, Token::Quote), 1000);
    assert_eq!(vault.get_locked(bob, Token::Quote), 0);

    // Match the orders
    let (remaining_sell, events) = book
        .match_buy_orders(sell_order.clone(), &mut vault)
        .unwrap();
    assert!(remaining_sell.is_some()); // Sell order should be partially filled
    assert_eq!(events.len(), 2); // Two fill events

    let remaining_sell = remaining_sell.unwrap();
    assert_eq!(remaining_sell.qty, 50); // 50 TokenA remaining

    // Verify the partial fill by checking the events
    let (buy_event, sell_event) = (&events[0], &events[1]);
    assert_eq!(buy_event.order_id, buy_order.id);
    assert_eq!(sell_event.order_id, sell_order.id);
    assert_eq!(buy_event.filled_price, 10);
    assert_eq!(sell_event.filled_price, 10);
    assert_eq!(buy_event.filled_qty, 50);
    assert_eq!(sell_event.filled_qty, 50);

    // Check final balances
    assert_eq!(vault.get_balance(alice, Token::Base), 1050); // Received 50 TokenA
    assert_eq!(vault.get_locked(alice, Token::Base), 0);
    assert_eq!(vault.get_balance(alice, Token::Quote), 500); // Spent 500 TokenB
    assert_eq!(vault.get_locked(alice, Token::Quote), 0);
    assert_eq!(vault.get_balance(bob, Token::Base), 900); // Still 900 because 100 was locked initially, 50 transferred, 50 still locked
    assert_eq!(vault.get_locked(bob, Token::Base), 50); // 50 TokenA still locked
    assert_eq!(vault.get_balance(bob, Token::Quote), 1500); // Received 500 TokenB
    assert_eq!(vault.get_locked(bob, Token::Quote), 0);
}

#[test]
fn test_price_mismatch() {
    let (mut book, mut vault, alice, bob) = setup();
    let now = 1;

    // Alice places a buy order: 100 TokenA at price 8 TokenB
    let mut buy_order =
        book.make_new_order(alice, (Token::Base, Token::Quote), Side::Buy, 8, 100, now);
    vault.lock(alice, Token::Quote, 800).unwrap(); // Lock 800 TokenB
    buy_order.locked = 800;
    book.insert_new_order(buy_order.clone());

    // Bob places a sell order: 100 TokenA at price 10 TokenB
    let mut sell_order = book.make_new_order(
        bob,
        (Token::Base, Token::Quote),
        Side::Sell,
        10,
        100,
        now + 1,
    );
    vault.lock(bob, Token::Base, 100).unwrap(); // Lock 100 TokenA
    sell_order.locked = 100;
    book.insert_new_order(sell_order.clone());

    // Check initial balances
    assert_eq!(vault.get_balance(alice, Token::Base), 1000);
    assert_eq!(vault.get_locked(alice, Token::Base), 0);
    assert_eq!(vault.get_balance(alice, Token::Quote), 200);
    assert_eq!(vault.get_locked(alice, Token::Quote), 800);
    assert_eq!(vault.get_balance(bob, Token::Base), 900);
    assert_eq!(vault.get_locked(bob, Token::Base), 100);
    assert_eq!(vault.get_balance(bob, Token::Quote), 1000);
    assert_eq!(vault.get_locked(bob, Token::Quote), 0);

    // Match the orders
    let (remaining_sell, events) = book
        .match_buy_orders(sell_order.clone(), &mut vault)
        .unwrap();
    assert!(remaining_sell.is_some()); // Sell order should not be filled
    assert!(events.is_empty()); // No fill events

    // Verify the sell order is unchanged
    let remaining_sell = remaining_sell.unwrap();
    assert_eq!(remaining_sell.qty, 100);
    assert_eq!(remaining_sell.price, 10);

    // Check final balances - should be unchanged
    assert_eq!(vault.get_balance(alice, Token::Base), 1000);
    assert_eq!(vault.get_locked(alice, Token::Base), 0);
    assert_eq!(vault.get_balance(alice, Token::Quote), 200);
    assert_eq!(vault.get_locked(alice, Token::Quote), 800);
    assert_eq!(vault.get_balance(bob, Token::Base), 900);
    assert_eq!(vault.get_locked(bob, Token::Base), 100);
    assert_eq!(vault.get_balance(bob, Token::Quote), 1000);
    assert_eq!(vault.get_locked(bob, Token::Quote), 0);
}

#[test]
fn test_buy_matches_multiple_sells() {
    let (mut book, mut vault, alice, bob) = setup();
    let now = 1;

    // Alice places a buy order: 100 TokenA at price 10 TokenB
    let mut buy_order =
        book.make_new_order(alice, (Token::Base, Token::Quote), Side::Buy, 10, 100, now);
    vault.lock(alice, Token::Quote, 1000).unwrap(); // Lock 1000 TokenB
    buy_order.locked = 1000;
    book.insert_new_order(buy_order.clone());

    // Bob places two sell orders: 60 TokenA and 40 TokenA at price 10 TokenB
    let mut sell_order1 = book.make_new_order(
        bob,
        (Token::Base, Token::Quote),
        Side::Sell,
        10,
        60,
        now + 1,
    );
    vault.lock(bob, Token::Base, 60).unwrap(); // Lock 60 TokenA
    sell_order1.locked = 60;
    book.insert_new_order(sell_order1.clone());

    let mut sell_order2 = book.make_new_order(
        bob,
        (Token::Base, Token::Quote),
        Side::Sell,
        10,
        40,
        now + 2,
    );
    vault.lock(bob, Token::Base, 40).unwrap(); // Lock 40 TokenA
    sell_order2.locked = 40;
    book.insert_new_order(sell_order2.clone());

    // Check initial balances
    assert_eq!(vault.get_balance(alice, Token::Base), 1000);
    assert_eq!(vault.get_locked(alice, Token::Base), 0);
    assert_eq!(vault.get_balance(alice, Token::Quote), 0);
    assert_eq!(vault.get_locked(alice, Token::Quote), 1000);
    assert_eq!(vault.get_balance(bob, Token::Base), 900);
    assert_eq!(vault.get_locked(bob, Token::Base), 100);
    assert_eq!(vault.get_balance(bob, Token::Quote), 1000);
    assert_eq!(vault.get_locked(bob, Token::Quote), 0);

    // Match the first sell order
    let (remaining_sell1, events1) = book
        .match_buy_orders(sell_order1.clone(), &mut vault)
        .unwrap();
    assert!(remaining_sell1.is_none()); // First sell order should be fully filled
    assert_eq!(events1.len(), 2); // Two fill events

    // Match the second sell order
    let (remaining_sell2, events2) = book
        .match_buy_orders(sell_order2.clone(), &mut vault)
        .unwrap();
    assert!(remaining_sell2.is_none()); // Second sell order should be fully filled
    assert_eq!(events2.len(), 2); // Two fill events

    // Verify the matches by checking the events
    let (buy_event1, sell_event1) = (&events1[0], &events1[1]);
    assert_eq!(buy_event1.order_id, buy_order.id);
    assert_eq!(sell_event1.order_id, sell_order1.id);
    assert_eq!(buy_event1.filled_price, 10);
    assert_eq!(sell_event1.filled_price, 10);
    assert_eq!(buy_event1.filled_qty, 60);
    assert_eq!(sell_event1.filled_qty, 60);

    let (buy_event2, sell_event2) = (&events2[0], &events2[1]);
    assert_eq!(buy_event2.order_id, buy_order.id);
    assert_eq!(sell_event2.order_id, sell_order2.id);
    assert_eq!(buy_event2.filled_price, 10);
    assert_eq!(sell_event2.filled_price, 10);
    assert_eq!(buy_event2.filled_qty, 40);
    assert_eq!(sell_event2.filled_qty, 40);

    // Check final balances
    assert_eq!(vault.get_balance(alice, Token::Base), 1100); // Received 100 TokenA
    assert_eq!(vault.get_locked(alice, Token::Base), 0);
    assert_eq!(vault.get_balance(alice, Token::Quote), 0); // Spent 1000 TokenB
    assert_eq!(vault.get_locked(alice, Token::Quote), 0);
    assert_eq!(vault.get_balance(bob, Token::Base), 900); // Spent 100 TokenA
    assert_eq!(vault.get_locked(bob, Token::Base), 0);
    assert_eq!(vault.get_balance(bob, Token::Quote), 2000); // Received 1000 TokenB
    assert_eq!(vault.get_locked(bob, Token::Quote), 0);
}

#[test]
fn test_buy_price_higher_than_sell() {
    let (mut book, mut vault, alice, bob) = setup();
    let now = 1;

    // Alice places a buy order: 100 TokenA at price 8 TokenB
    let mut buy_order =
        book.make_new_order(alice, (Token::Base, Token::Quote), Side::Buy, 8, 100, now);
    vault.lock(alice, Token::Quote, 800).unwrap(); // Lock 800 TokenB
    buy_order.locked = 800;
    book.insert_new_order(buy_order.clone());

    // Bob places a sell order: 100 TokenA at price 6 TokenB
    let mut sell_order = book.make_new_order(
        bob,
        (Token::Base, Token::Quote),
        Side::Sell,
        6,
        100,
        now + 1,
    );
    vault.lock(bob, Token::Base, 100).unwrap(); // Lock 100 TokenA
    sell_order.locked = 100;
    book.insert_new_order(sell_order.clone());

    // Check initial balances
    assert_eq!(vault.get_balance(alice, Token::Base), 1000);
    assert_eq!(vault.get_locked(alice, Token::Base), 0);
    assert_eq!(vault.get_balance(alice, Token::Quote), 200);
    assert_eq!(vault.get_locked(alice, Token::Quote), 800);
    assert_eq!(vault.get_balance(bob, Token::Base), 900);
    assert_eq!(vault.get_locked(bob, Token::Base), 100);
    assert_eq!(vault.get_balance(bob, Token::Quote), 1000);
    assert_eq!(vault.get_locked(bob, Token::Quote), 0);

    // Match the orders
    let (remaining_sell, events) = book
        .match_buy_orders(sell_order.clone(), &mut vault)
        .unwrap();
    assert!(remaining_sell.is_none()); // Sell order should be fully filled
    assert_eq!(events.len(), 2); // Two fill events

    // Verify the match by checking the events
    let (buy_event, sell_event) = (&events[0], &events[1]);
    assert_eq!(buy_event.order_id, buy_order.id);
    assert_eq!(sell_event.order_id, sell_order.id);
    assert_eq!(buy_event.filled_price, 6); // Should match at sell price
    assert_eq!(sell_event.filled_price, 6);
    assert_eq!(buy_event.filled_qty, 100);
    assert_eq!(sell_event.filled_qty, 100);

    // Check final balances
    assert_eq!(vault.get_balance(alice, Token::Base), 1100); // Received 100 TokenA
    assert_eq!(vault.get_locked(alice, Token::Base), 0);
    assert_eq!(vault.get_balance(alice, Token::Quote), 400); // Spent 600 TokenB (at sell price), 200 TokenB unlocked
    assert_eq!(vault.get_locked(alice, Token::Quote), 0);
    assert_eq!(vault.get_balance(bob, Token::Base), 900); // Spent 100 TokenA
    assert_eq!(vault.get_locked(bob, Token::Base), 0);
    assert_eq!(vault.get_balance(bob, Token::Quote), 1600); // Received 600 TokenB
    assert_eq!(vault.get_locked(bob, Token::Quote), 0);
}

#[test]
fn test_buy_price_higher_than_sell_partial_fill() {
    let (mut book, mut vault, alice, bob) = setup();
    let now = 1;

    // Alice places a buy order: 100 TokenA at price 8 TokenB
    let mut buy_order =
        book.make_new_order(alice, (Token::Base, Token::Quote), Side::Buy, 8, 100, now);
    vault.lock(alice, Token::Quote, 800).unwrap(); // Lock 800 TokenB
    buy_order.locked = 800;
    book.insert_new_order(buy_order.clone());

    // Bob places a sell order: 50 TokenA at price 6 TokenB
    let mut sell_order =
        book.make_new_order(bob, (Token::Base, Token::Quote), Side::Sell, 6, 50, now + 1);
    vault.lock(bob, Token::Base, 50).unwrap(); // Lock 50 TokenA
    sell_order.locked = 50;
    book.insert_new_order(sell_order.clone());

    // Check initial balances
    assert_eq!(vault.get_balance(alice, Token::Base), 1000);
    assert_eq!(vault.get_locked(alice, Token::Base), 0);
    assert_eq!(vault.get_balance(alice, Token::Quote), 200);
    assert_eq!(vault.get_locked(alice, Token::Quote), 800);
    assert_eq!(vault.get_balance(bob, Token::Base), 950);
    assert_eq!(vault.get_locked(bob, Token::Base), 50);
    assert_eq!(vault.get_balance(bob, Token::Quote), 1000);
    assert_eq!(vault.get_locked(bob, Token::Quote), 0);

    // Match the orders
    let (remaining_sell, events) = book
        .match_buy_orders(sell_order.clone(), &mut vault)
        .unwrap();
    assert!(remaining_sell.is_none()); // Sell order should be fully filled
    assert_eq!(events.len(), 2); // Two fill events

    // Verify the match by checking the events
    let (buy_event, sell_event) = (&events[0], &events[1]);
    assert_eq!(buy_event.order_id, buy_order.id);
    assert_eq!(sell_event.order_id, sell_order.id);
    assert_eq!(buy_event.filled_price, 6); // Should match at sell price
    assert_eq!(sell_event.filled_price, 6);
    assert_eq!(buy_event.filled_qty, 50);
    assert_eq!(sell_event.filled_qty, 50);

    // Check final balances
    assert_eq!(vault.get_balance(alice, Token::Base), 1050); // Received 50 TokenA
    assert_eq!(vault.get_locked(alice, Token::Base), 0);
    assert_eq!(vault.get_balance(alice, Token::Quote), 200);
    assert_eq!(vault.get_locked(alice, Token::Quote), 500); // Spent 300 TokenB (at sell price), 500 TokenB trasnfer
    assert_eq!(vault.get_balance(bob, Token::Base), 950); // Spent 50 TokenA
    assert_eq!(vault.get_locked(bob, Token::Base), 0);
    assert_eq!(vault.get_balance(bob, Token::Quote), 1300); // Received 300 TokenB
    assert_eq!(vault.get_locked(bob, Token::Quote), 0);
}

#[test]
fn test_sell_matches_multiple_buys() {
    let (mut book, mut vault, alice, bob) = setup();
    let now = 1;

    // Alice places two buy orders: 60 TokenA at price 10 TokenB and 40 TokenA at price 10 TokenB
    let mut buy_order1 =
        book.make_new_order(alice, (Token::Base, Token::Quote), Side::Buy, 10, 60, now);
    vault.lock(alice, Token::Quote, 600).unwrap(); // Lock 600 TokenB
    buy_order1.locked = 600;
    book.insert_new_order(buy_order1.clone());

    let mut buy_order2 = book.make_new_order(
        alice,
        (Token::Base, Token::Quote),
        Side::Buy,
        10,
        40,
        now + 1,
    );
    vault.lock(alice, Token::Quote, 400).unwrap(); // Lock 400 TokenB
    buy_order2.locked = 400;
    book.insert_new_order(buy_order2.clone());

    // Bob places a sell order: 100 TokenA at price 10 TokenB
    let mut sell_order = book.make_new_order(
        bob,
        (Token::Base, Token::Quote),
        Side::Sell,
        10,
        100,
        now + 2,
    );
    vault.lock(bob, Token::Base, 100).unwrap(); // Lock 100 TokenA
    sell_order.locked = 100;
    book.insert_new_order(sell_order.clone());

    // Check initial balances
    assert_eq!(vault.get_balance(alice, Token::Base), 1000);
    assert_eq!(vault.get_locked(alice, Token::Base), 0);
    assert_eq!(vault.get_balance(alice, Token::Quote), 0);
    assert_eq!(vault.get_locked(alice, Token::Quote), 1000);
    assert_eq!(vault.get_balance(bob, Token::Base), 900);
    assert_eq!(vault.get_locked(bob, Token::Base), 100);
    assert_eq!(vault.get_balance(bob, Token::Quote), 1000);
    assert_eq!(vault.get_locked(bob, Token::Quote), 0);

    // Match the sell order against both buy orders
    let (remaining_sell, events) = book
        .match_buy_orders(sell_order.clone(), &mut vault)
        .unwrap();
    assert!(remaining_sell.is_none()); // Sell order should be fully filled
    assert_eq!(events.len(), 4); // Four fill events (two for each match)

    // Verify the matches by checking the events
    let (buy_event1, sell_event1) = (&events[0], &events[1]);
    assert_eq!(buy_event1.order_id, buy_order1.id); // Second buy order matched first
    assert_eq!(sell_event1.order_id, sell_order.id);
    assert_eq!(buy_event1.filled_price, 10);
    assert_eq!(sell_event1.filled_price, 10);
    assert_eq!(buy_event1.filled_qty, 60);
    assert_eq!(sell_event1.filled_qty, 60);

    let (buy_event2, sell_event2) = (&events[2], &events[3]);
    assert_eq!(buy_event2.order_id, buy_order2.id); // First buy order matched second
    assert_eq!(sell_event2.order_id, sell_order.id);
    assert_eq!(buy_event2.filled_price, 10);
    assert_eq!(sell_event2.filled_price, 10);
    assert_eq!(buy_event2.filled_qty, 40);
    assert_eq!(sell_event2.filled_qty, 40);

    // Check final balances
    assert_eq!(vault.get_balance(alice, Token::Base), 1100); // Received 100 TokenA
    assert_eq!(vault.get_locked(alice, Token::Base), 0);
    assert_eq!(vault.get_balance(alice, Token::Quote), 0); // Spent 1000 TokenB
    assert_eq!(vault.get_locked(alice, Token::Quote), 0);
    assert_eq!(vault.get_balance(bob, Token::Base), 900); // Spent 100 TokenA
    assert_eq!(vault.get_locked(bob, Token::Base), 0);
    assert_eq!(vault.get_balance(bob, Token::Quote), 2000); // Received 1000 TokenB
    assert_eq!(vault.get_locked(bob, Token::Quote), 0);
}

#[test]
fn test_cancel_unmatched_order() {
    let (mut book, mut vault, alice, _) = setup();
    let now = 1;

    // Alice places a buy order: 100 TokenA at price 10 TokenB
    let mut buy_order =
        book.make_new_order(alice, (Token::Base, Token::Quote), Side::Buy, 10, 100, now);
    vault.lock(alice, Token::Quote, 1000).unwrap(); // Lock 1000 TokenB
    buy_order.locked = 1000;
    book.insert_new_order(buy_order.clone());

    // Check initial balances
    assert_eq!(vault.get_balance(alice, Token::Base), 1000);
    assert_eq!(vault.get_locked(alice, Token::Base), 0);
    assert_eq!(vault.get_balance(alice, Token::Quote), 0);
    assert_eq!(vault.get_locked(alice, Token::Quote), 1000);

    // Cancel the order
    book.cancel_order(alice, buy_order.id, &mut vault).unwrap();

    // Check final balances - all locked tokens should be unlocked
    assert_eq!(vault.get_balance(alice, Token::Base), 1000);
    assert_eq!(vault.get_locked(alice, Token::Base), 0);
    assert_eq!(vault.get_balance(alice, Token::Quote), 1000); // All TokenB unlocked
    assert_eq!(vault.get_locked(alice, Token::Quote), 0);

    // Try to cancel again - should fail
    assert!(matches!(
        book.cancel_order(alice, buy_order.id, &mut vault),
        Err(Error::OrderNotFound(_))
    ));
}

#[test]
fn test_cancel_partially_filled_order() {
    let (mut book, mut vault, alice, bob) = setup();
    let now = 1;

    // Alice places a buy order: 100 TokenA at price 10 TokenB
    let mut buy_order =
        book.make_new_order(alice, (Token::Base, Token::Quote), Side::Buy, 10, 100, now);
    vault.lock(alice, Token::Quote, 1000).unwrap(); // Lock 1000 TokenB
    buy_order.locked = 1000;
    book.insert_new_order(buy_order.clone());

    // Bob places a sell order: 50 TokenA at price 10 TokenB
    let mut sell_order = book.make_new_order(
        bob,
        (Token::Base, Token::Quote),
        Side::Sell,
        10,
        50,
        now + 1,
    );
    vault.lock(bob, Token::Base, 50).unwrap(); // Lock 50 TokenA
    sell_order.locked = 50;
    book.insert_new_order(sell_order.clone());

    // Match the orders
    let (remaining_sell, _) = book
        .match_buy_orders(sell_order.clone(), &mut vault)
        .unwrap();
    assert!(remaining_sell.is_none()); // Sell order should be fully filled

    // Check balances after partial fill
    assert_eq!(vault.get_balance(alice, Token::Base), 1050); // Received 50 TokenA
    assert_eq!(vault.get_locked(alice, Token::Base), 0);
    assert_eq!(vault.get_balance(alice, Token::Quote), 0);
    assert_eq!(vault.get_locked(alice, Token::Quote), 500); // 500 TokenB still locked

    // Cancel the partially filled buy order
    book.cancel_order(alice, buy_order.id, &mut vault).unwrap();

    // Check final balances - remaining locked tokens should be unlocked
    assert_eq!(vault.get_balance(alice, Token::Base), 1050); // Still have 50 TokenA from partial fill
    assert_eq!(vault.get_locked(alice, Token::Base), 0);
    assert_eq!(vault.get_balance(alice, Token::Quote), 500); // All remaining TokenB unlocked
    assert_eq!(vault.get_locked(alice, Token::Quote), 0);
}

#[test]
fn test_cancel_fully_filled_order() {
    let (mut book, mut vault, alice, bob) = setup();
    let now = 1;

    // Alice places a buy order: 100 TokenA at price 10 TokenB
    let mut buy_order =
        book.make_new_order(alice, (Token::Base, Token::Quote), Side::Buy, 10, 100, now);
    vault.lock(alice, Token::Quote, 1000).unwrap(); // Lock 1000 TokenB
    buy_order.locked = 1000;
    book.insert_new_order(buy_order.clone());

    // Bob places a sell order: 100 TokenA at price 10 TokenB
    let mut sell_order = book.make_new_order(
        bob,
        (Token::Base, Token::Quote),
        Side::Sell,
        10,
        100,
        now + 1,
    );
    vault.lock(bob, Token::Base, 100).unwrap(); // Lock 100 TokenA
    sell_order.locked = 100;
    book.insert_new_order(sell_order.clone());

    // Match the orders
    let (remaining_sell, _) = book
        .match_buy_orders(sell_order.clone(), &mut vault)
        .unwrap();
    assert!(remaining_sell.is_none()); // Sell order should be fully filled

    // Check balances after full fill
    assert_eq!(vault.get_balance(alice, Token::Base), 1100); // Received 100 TokenA
    assert_eq!(vault.get_locked(alice, Token::Base), 0);
    assert_eq!(vault.get_balance(alice, Token::Quote), 0); // Spent all TokenB
    assert_eq!(vault.get_locked(alice, Token::Quote), 0);

    // Try to cancel the fully filled order - should fail
    assert!(matches!(
        book.cancel_order(alice, buy_order.id, &mut vault),
        Err(Error::OrderNotFound(_))
    ));
}

#[test]
fn test_cancel_unauthorized() {
    let (mut book, mut vault, alice, bob) = setup();
    let now = 1;

    // Alice places a buy order: 100 TokenA at price 10 TokenB
    let mut buy_order =
        book.make_new_order(alice, (Token::Base, Token::Quote), Side::Buy, 10, 100, now);
    vault.lock(alice, Token::Quote, 1000).unwrap(); // Lock 1000 TokenB
    buy_order.locked = 1000;
    book.insert_new_order(buy_order.clone());

    // Bob tries to cancel Alice's order - should fail
    assert!(matches!(
        book.cancel_order(bob, buy_order.id, &mut vault),
        Err(Error::Unauthorized(_))
    ));

    // Check balances - should be unchanged
    assert_eq!(vault.get_balance(alice, Token::Base), 1000);
    assert_eq!(vault.get_locked(alice, Token::Base), 0);
    assert_eq!(vault.get_balance(alice, Token::Quote), 0);
    assert_eq!(vault.get_locked(alice, Token::Quote), 1000);
}

#[test]
fn make_new_order_takes_no_id() {
    let (mut book, _, alice, _) = setup();
    let first = book.make_new_order(alice, (Token::Base, Token::Quote), Side::Sell, 3, 4, 5);
    let again = book.make_new_order(alice, (Token::Base, Token::Quote), Side::Buy, 6, 7, 8);
    assert_eq!(first.id, 0);
    assert_eq!(again.id, 0);
    assert_eq!(first.owner, alice);
    assert_eq!(first.pair, (Token::Base, Token::Quote));
    assert_eq!(first.side, Side::Sell);
    assert_eq!(first.price, 3);
    assert_eq!(first.qty, 4);
    assert_eq!(first.timestamp, 5);
    assert_eq!(first.locked, 0);
    assert!(book.order(0).is_none());

    let mut order = first;
    order.locked = 4;
    book.insert_new_order(order);
    assert_eq!(book.order(0).unwrap().locked, 4);
    assert_eq!(book.make_new_order(alice, (Token::Base, Token::Quote), Side::Buy, 1, 1, 9).id, 1);

    book.retire_order_id();
    assert_eq!(book.make_new_order(alice, (Token::Base, Token::Quote), Side::Buy, 1, 1, 9).id, 2);
}

#[test]
fn a_buy_below_the_best_ask_changes_nothing() {
    let (mut book, mut vault, alice, bob) = setup();

    let mut sell_order = book.make_new_order(bob, (Token::Base, Token::Quote), Side::Sell, 10, 100, 1);
    vault.lock(bob, Token::Base, 100).unwrap();
    sell_order.locked = 100;
    book.insert_new_order(sell_order);

    let mut buy_order = book.make_new_order(alice, (Token::Base, Token::Quote), Side::Buy, 9, 100, 2);
    vault.lock(alice, Token::Quote, 900).unwrap();
    buy_order.locked = 900;

    let (rest, events) = book.match_sell_orders(buy_order, &mut vault).unwrap();
    assert!(events.is_empty());
    let rest = rest.unwrap();
    assert_eq!(rest.id, buy_order.id);
    assert_eq!(rest.qty, 100);
    assert_eq!(rest.locked, 900);

    assert_eq!(vault.get_balance(alice, Token::Base), 1000);
    assert_eq!(vault.get_locked(alice, Token::Base), 0);
    assert_eq!(vault.get_balance(alice, Token::Quote), 100);
    assert_eq!(vault.get_locked(alice, Token::Quote), 900);
    assert_eq!(vault.get_balance(bob, Token::Base), 900);
    assert_eq!(vault.get_locked(bob, Token::Base), 100);
    assert_eq!(vault.get_balance(bob, Token::Quote), 1000);
    assert_eq!(vault.get_locked(bob, Token::Quote), 0);
    assert_eq!(book.order(sell_order.id).unwrap().qty, 100);
}

#[test]
fn a_buy_matches_the_lowest_ask_first_and_pays_its_price() {
    let (mut book, mut vault, alice, bob) = setup();
    let pair = (Token::Base, Token::Quote);

    let mut dear = book.make_new_order(bob, pair, Side::Sell, 12, 10, 1);
    dear.locked = 10;
    vault.lock(bob, Token::Base, 10).unwrap();
    book.insert_new_order(dear);
    let mut cheap = book.make_new_order(bob, pair, Side::Sell, 7, 10, 2);
    cheap.locked = 10;
    vault.lock(bob, Token::Base, 10).unwrap();
    book.insert_new_order(cheap);

    let mut buy_order = book.make_new_order(alice, pair, Side::Buy, 12, 15, 3);
    buy_order.locked = 180;
    vault.lock(alice, Token::Quote, 180).unwrap();

    let (rest, events) = book.match_sell_orders(buy_order, &mut vault).unwrap();
    assert!(rest.is_none());
    assert_eq!(events.len(), 4);
    assert_eq!(events[0].order_id, cheap.id);
    assert_eq!(events[0].side, Side::Sell);
    assert_eq!(events[0].filled_price, 7);
    assert_eq!(events[0].filled_qty, 10);
    assert_eq!(events[1].order_id, buy_order.id);
    assert_eq!(events[1].side, Side::Buy);
    assert_eq!(events[1].filled_price, 7);
    assert_eq!(events[1].filled_qty, 10);
    assert_eq!(events[2].order_id, dear.id);
    assert_eq!(events[2].filled_price, 12);
    assert_eq!(events[2].filled_qty, 5);
    assert_eq!(events[3].order_id, buy_order.id);
    assert_eq!(events[3].filled_price, 12);
    assert_eq!(events[3].filled_qty, 5);

    // 70 + 60 paid out of 180 locked, the rest handed back
    assert_eq!(vault.get_balance(alice, Token::Quote), 1000 - 130);
    assert_eq!(vault.get_locked(alice, Token::Quote), 0);
    assert_eq!(vault.get_balance(alice, Token::Base), 1015);
    assert_eq!(vault.get_balance(bob, Token::Quote), 1130);
    assert_eq!(vault.get_locked(bob, Token::Base), 5);
    assert!(book.order(cheap.id).is_none());
    let left = book.order(dear.id).unwrap();
    assert_eq!(left.qty, 5);
    assert_eq!(left.locked, 5);
}

#[test]
fn a_trade_whose_escrow_is_missing_is_not_settled() {
    let (mut book, mut vault, alice, bob) = setup();
    let pair = (Token::Base, Token::Quote);

    // a resting sell order whose escrow was never locked in the vault
    let mut sell_order = book.make_new_order(bob, pair, Side::Sell, 10, 10, 1);
    sell_order.locked = 10;
    book.insert_new_order(sell_order);

    let mut buy_order = book.make_new_order(alice, pair, Side::Buy, 10, 10, 2);
    buy_order.locked = 100;
    vault.lock(alice, Token::Quote, 100).unwrap();

    let r = book.match_sell_orders(buy_order, &mut vault);
    assert_eq!(r.map(|_| ()), Err(Error::InsufficientLockedBalance(Token::Base)));
    // neither leg of the trade was applied
    assert_eq!(vault.get_balance(alice, Token::Quote), 900);
    assert_eq!(vault.get_locked(alice, Token::Quote), 100);
    assert_eq!(vault.get_balance(bob, Token::Quote), 1000);
    assert_eq!(vault.get_balance(alice, Token::Base), 1000);
    assert_eq!(book.order(sell_order.id).unwrap().qty, 10);

    // and neither can the order be cancelled against an escrow that is not there
    assert_eq!(
        book.cancel_order(bob, sell_order.id, &mut vault),
        Err(Error::InsufficientLockedBalance(Token::Base))
    );
    assert_eq!(book.order(sell_order.id).unwrap().qty, 10);
    assert_eq!(vault.get_balance(bob, Token::Base), 1000);
}

#[test]
fn a_taker_does_not_trade_with_its_own_resting_order() {
    let (mut book, mut vault, alice, _) = setup();
    let pair = (Token::Base, Token::Quote);

    let mut sell_order = book.make_new_order(alice, pair, Side::Sell, 10, 10, 1);
    sell_order.locked = 10;
    vault.lock(alice, Token::Base, 10).unwrap();
    book.insert_new_order(sell_order);

    let mut buy_order = book.make_new_order(alice, pair, Side::Buy, 10, 10, 2);
    buy_order.locked = 100;
    vault.lock(alice, Token::Quote, 100).unwrap();

    assert!(matches!(
        book.match_sell_orders(buy_order, &mut vault),
        Err(Error::InvalidTransfer(_))
    ));
    assert_eq!(vault.get_locked(alice, Token::Base), 10);
    assert_eq!(vault.get_locked(alice, Token::Quote), 100);
    assert_eq!(book.order(sell_order.id).unwrap().qty, 10);
}

#[test]
fn a_copy_of_the_book_goes_its_own_way() {
    let (mut book, mut vault, alice, _) = setup();
    let pair = (Token::Base, Token::Quote);
    let mut sell_order = book.make_new_order(alice, pair, Side::Sell, 10, 10, 1);
    sell_order.locked = 10;
    vault.lock(alice, Token::Base, 10).unwrap();
    book.insert_new_order(sell_order);

    let copy = book.snapshot();
    book.cancel_order(alice, sell_order.id, &mut vault).unwrap();
    assert!(book.order(sell_order.id).is_none());
    assert_eq!(copy.order(sell_order.id).unwrap().qty, 10);
    assert_eq!(copy.make_new_order(alice, pair, Side::Buy, 1, 1, 1).id, 1);
}

fn rest(book: &mut BTreeOrderBook, owner: AccountId, side: Side, price: u128, qty: u128, now: u64) -> u64 {
    let mut order = book.make_new_order(owner, (Token::Base, Token::Quote), side, price, qty, now);
    order.locked = match side {
        Side::Buy => price * qty,
        Side::Sell => qty,
    };
    book.insert_new_order(order);
    order.id
}

#[test]
fn each_side_is_listed_best_first() {
    let (mut book, _, alice, bob) = setup();
    let a90 = rest(&mut book, alice, Side::Sell, 90, 1, 1);
    let b90 = rest(&mut book, bob, Side::Sell, 90, 1, 2);
    let a85 = rest(&mut book, alice, Side::Sell, 85, 1, 3);
    let a105 = rest(&mut book, alice, Side::Sell, 105, 1, 4);
    let b70 = rest(&mut book, bob, Side::Buy, 70, 1, 5);
    let a80 = rest(&mut book, alice, Side::Buy, 80, 1, 6);
    let b80 = rest(&mut book, bob, Side::Buy, 80, 1, 6);
    let early80 = rest(&mut book, bob, Side::Buy, 80, 1, 2);

    let asks: Vec<u64> = book.resting(Side::Sell).iter().map(|o| o.id).collect();
    assert_eq!(asks, vec![a85, a90, b90, a105]);
    let bids: Vec<u64> = book.resting(Side::Buy).iter().map(|o| o.id).collect();
    assert_eq!(bids, vec![early80, a80, b80, b70]);

    let all: Vec<u64> = book.export().iter().map(|o| o.id).collect();
    assert_eq!(all, vec![a85, a90, b90, a105, early80, a80, b80, b70]);
    assert_eq!(book.next_order_id(), 8);

    assert!(BTreeOrderBook::new().resting(Side::Sell).is_empty());
    assert!(BTreeOrderBook::new().export().is_empty());
}

#[test]
fn a_book_comes_back_from_its_orders() {
    let (mut book, mut vault, alice, bob) = setup();
    rest(&mut book, alice, Side::Sell, 12, 10, 1);
    let cheap = rest(&mut book, alice, Side::Sell, 7, 10, 2);
    let bid = rest(&mut book, bob, Side::Buy, 5, 10, 3);
    vault.lock(alice, Token::Base, 20).unwrap();
    vault.lock(bob, Token::Quote, 50).unwrap();

    let mut copy = BTreeOrderBook::restore(&book.export(), book.next_order_id()).unwrap();
    assert_eq!(copy.next_order_id(), 3);
    assert_eq!(copy.order(cheap).unwrap().price, 7);
    assert_eq!(copy.order(bid).unwrap().locked, 50);
    assert!(copy.order(3).is_none());

    // the restored book matches as the first one would
    let mut buy_order = copy.make_new_order(bob, (Token::Base, Token::Quote), Side::Buy, 8, 4, 9);
    buy_order.locked = 32;
    vault.lock(bob, Token::Quote, 32).unwrap();
    let (left, events) = copy.match_sell_orders(buy_order, &mut vault).unwrap();
    assert!(left.is_none());
    assert_eq!(events.len(), 2);
    assert_eq!(events[0].order_id, cheap);
    assert_eq!(events[0].filled_price, 7);
    assert_eq!(events[0].filled_qty, 4);
    assert_eq!(copy.order(cheap).unwrap().qty, 6);
    assert_eq!(book.order(cheap).unwrap().qty, 10);
}

#[test]
fn orders_that_make_no_book_are_refused() {
    let (book, _, alice, _) = setup();
    let pair = (Token::Base, Token::Quote);
    let mut sell = book.make_new_order(alice, pair, Side::Sell, 5, 10, 1);
    sell.locked = 10;
    let mut buy = book.make_new_order(alice, pair, Side::Buy, 5, 10, 1);
    buy.id = 1;
    buy.locked = 50;

    assert!(BTreeOrderBook::restore(&vec![sell, buy], 2).is_some());
    // an id that was not given out yet
    assert!(BTreeOrderBook::restore(&vec![sell, buy], 1).is_none());
    // an id twice
    assert!(BTreeOrderBook::restore(&vec![sell, buy, sell], 2).is_none());
    // a buy order with less escrow than price * qty
    let mut short = buy;
    short.locked = 49;
    assert!(BTreeOrderBook::restore(&vec![sell, short], 2).is_none());
    // a buy order whose price * qty is beyond 128 bits
    let mut huge = buy;
    huge.price = u128::MAX;
    huge.qty = 2;
    huge.locked = u128::MAX;
    assert!(BTreeOrderBook::restore(&vec![huge], 2).is_none());
    // a sell order whose escrow is not its quantity
    let mut odd = sell;
    odd.locked = 11;
    assert!(BTreeOrderBook::restore(&vec![odd], 2).is_none());
    // a surplus on a buy order is fine
    let mut surplus = buy;
    surplus.locked = 51;
    assert!(BTreeOrderBook::restore(&vec![surplus], 2).is_some());
}
