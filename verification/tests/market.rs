use collectibles::ledger::{Balances, PaymentLedger};
use collectibles::pallet::Pallet;
use collectibles::types::{Config, DispatchError, Error, Event, PaymentError};

fn listed_item(maximum_owned: u32, seller: u64, price: u64) -> (Pallet, [u8; 16]) {
    let mut p = Pallet::new(Config { maximum_owned });
    let id = match p.create_collectible(seller, &[1; 32], 0, 0) {
        Ok(Event::CollectibleCreated { collectible, .. }) => collectible,
        other => panic!("expected a created record, got {:?}", other),
    };
    p.set_price(seller, id, price).expect("owner lists");
    (p, id)
}

#[test]
fn set_price_lists_the_collectible() {
    let mut p = Pallet::new(Config { maximum_owned: 5 });
    let id = match p.create_collectible(7, &[1; 32], 0, 0) {
        Ok(Event::CollectibleCreated { collectible, .. }) => collectible,
        other => panic!("expected a created record, got {:?}", other),
    };
    let r = p.set_price(7, id, 100);
    assert_eq!(r, Ok(Event::PriceSet { collectible: id, price: 100 }));
    assert_eq!(p.get_collectible(&id).unwrap().price, Some(100));
    // Relisting overwrites the price.
    p.set_price(7, id, 80).expect("owner relists");
    assert_eq!(p.get_collectible(&id).unwrap().price, Some(80));
}

#[test]
fn set_price_rejects_non_owner_and_unknown_id() {
    let (mut p, id) = listed_item(5, 7, 100);
    assert_eq!(p.set_price(8, id, 10), Err(Error::NotOwner));
    assert_eq!(p.set_price(7, [0xEE; 16], 10), Err(Error::NoCollectible));
    assert_eq!(p.get_collectible(&id).unwrap().price, Some(100));
}

#[test]
fn remove_from_market_delists() {
    let (mut p, id) = listed_item(5, 7, 100);
    let r = p.remove_from_market(7, id);
    assert_eq!(r, Ok(Event::NotLongerOnSale { collectible: id }));
    assert_eq!(p.get_collectible(&id).unwrap().price, None);
}

#[test]
fn remove_from_market_on_unlisted_item_fails() {
    let (mut p, id) = listed_item(5, 7, 100);
    p.remove_from_market(7, id).expect("delist once");
    let r = p.remove_from_market(7, id);
    assert_eq!(r, Err(Error::CollectibleNotForSale));
    assert_eq!(p.remove_from_market(8, id), Err(Error::NotOwner));
    assert_eq!(p.remove_from_market(7, [0xEE; 16]), Err(Error::NoCollectible));
}

#[test]
fn buy_charges_exactly_the_listed_price() {
    let (mut p, id) = listed_item(5, 7, 100);
    let mut ledger = Balances::new();
    ledger.credit(8, 150);
    // The offer is higher than the ask; the buyer pays the ask.
    let r = p.buy(&mut ledger, 8, id, 150);
    assert_eq!(
        r,
        Ok(Event::Sold { seller: 7, buyer: 8, collectible: id, price: 100 })
    );
    assert_eq!(ledger.balance(8), 50);
    assert_eq!(ledger.balance(7), 100);
    let c = p.get_collectible(&id).unwrap();
    assert_eq!(c.owner, 8);
    assert_eq!(c.price, None);
    assert_eq!(p.owned_count(7), 0);
    assert_eq!(p.owned_count(8), 1);
}

#[test]
fn buy_unlisted_collectible_fails() {
    let (mut p, id) = listed_item(5, 7, 100);
    p.remove_from_market(7, id).expect("delist");
    let mut ledger = Balances::new();
    ledger.credit(8, 500);
    let r = p.buy(&mut ledger, 8, id, 500);
    assert_eq!(r, Err(DispatchError::Registry(Error::CollectibleNotForSale)));
    assert_eq!(ledger.balance(8), 500);
    assert_eq!(p.get_collectible(&id).unwrap().owner, 7);
}

#[test]
fn buy_with_low_offer_fails() {
    let (mut p, id) = listed_item(5, 7, 100);
    let mut ledger = Balances::new();
    ledger.credit(8, 500);
    let r = p.buy(&mut ledger, 8, id, 99);
    assert_eq!(r, Err(DispatchError::Registry(Error::OfferedPriceTooLow)));
    assert_eq!(ledger.balance(8), 500);
    assert_eq!(p.get_collectible(&id).unwrap().price, Some(100));
}

#[test]
fn buy_own_collectible_fails() {
    let (mut p, id) = listed_item(5, 7, 100);
    let mut ledger = Balances::new();
    ledger.credit(7, 500);
    let r = p.buy(&mut ledger, 7, id, 100);
    assert_eq!(r, Err(DispatchError::Registry(Error::TransferToSelf)));
    assert_eq!(ledger.balance(7), 500);
}

#[test]
fn buy_without_funds_leaves_registry_untouched() {
    let (mut p, id) = listed_item(5, 7, 100);
    let mut ledger = Balances::new();
    ledger.credit(8, 40);
    let r = p.buy(&mut ledger, 8, id, 100);
    assert_eq!(r, Err(DispatchError::Payment(PaymentError::InsufficientBalance)));
    assert_eq!(ledger.balance(8), 40);
    assert_eq!(ledger.balance(7), 0);
    let c = p.get_collectible(&id).unwrap();
    assert_eq!(c.owner, 7);
    assert_eq!(c.price, Some(100));
    assert_eq!(p.owned_count(8), 0);
}

#[test]
fn buy_into_full_account_fails_before_payment() {
    let (mut p, id) = listed_item(1, 7, 100);
    match p.create_collectible(8, &[2; 32], 0, 0) {
        Ok(_) => {}
        other => panic!("expected a created record, got {:?}", other),
    }
    let mut ledger = Balances::new();
    ledger.credit(8, 500);
    let r = p.buy(&mut ledger, 8, id, 100);
    assert_eq!(r, Err(DispatchError::Registry(Error::MaximumCollectiblesOwned)));
    assert_eq!(ledger.balance(8), 500);
    assert_eq!(p.get_collectible(&id).unwrap().owner, 7);
}

#[test]
fn invariants_hold_across_a_mixed_sequence() {
    let mut p = Pallet::new(Config { maximum_owned: 3 });
    let mut ledger = Balances::new();
    let mut mint = |p: &mut Pallet, who: u64, seed: u8| match p.create_collectible(who, &[seed; 32], 0, 0) {
        Ok(Event::CollectibleCreated { collectible, .. }) => collectible,
        other => panic!("expected a created record, got {:?}", other),
    };
    let x = mint(&mut p, 1, 10);
    let y = mint(&mut p, 1, 11);
    let z = mint(&mut p, 1, 12);
    assert_eq!(p.collectibles_count(), 3);
    p.transfer(1, 2, x).expect("owner sends x away");
    p.set_price(2, x, 30).expect("new owner lists x");
    ledger.credit(3, 100);
    p.buy(&mut ledger, 3, x, 40).expect("funded buyer takes x at the ask");
    assert_eq!(ledger.balance(3), 70);
    assert_eq!(ledger.balance(2), 30);
    p.destroy_collectible(1, y).expect("owner destroys y");
    assert_eq!(p.collectibles_count(), 2);
    assert_eq!(p.owned_count(1), 1);
    assert_eq!(p.owned_count(2), 0);
    assert_eq!(p.owned_count(3), 1);
    assert_eq!(p.get_collectible(&x).unwrap().owner, 3);
    assert_eq!(p.get_collectible(&x).unwrap().price, None);
    assert!(p.get_collectible(&y).is_none());
    assert_eq!(p.get_collectible(&z).unwrap().owner, 1);
    assert_eq!(p.owned_ids(1), vec![z]);
    assert_eq!(p.owned_ids(3), vec![x]);
}

#[test]
fn ledger_moves_exact_amounts() {
    let mut ledger = Balances::new();
    ledger.credit(1, 100);
    assert_eq!(ledger.pay(1, 2, 40), Ok(()));
    assert_eq!(ledger.balance(1), 60);
    assert_eq!(ledger.balance(2), 40);
    assert_eq!(ledger.pay(1, 2, 61), Err(PaymentError::InsufficientBalance));
    assert_eq!(ledger.balance(1), 60);
    assert_eq!(ledger.balance(2), 40);
    assert_eq!(ledger.pay(3, 2, 0), Ok(()));
    assert_eq!(ledger.balance(3), 0);
}

#[test]
fn ledger_rejects_overflowing_credit() {
    let mut ledger = Balances::new();
    ledger.credit(1, 10);
    ledger.credit(2, u64::MAX - 5);
    assert_eq!(ledger.pay(1, 2, 6), Err(PaymentError::BalanceOverflow));
    assert_eq!(ledger.balance(1), 10);
    assert_eq!(ledger.balance(2), u64::MAX - 5);
}
