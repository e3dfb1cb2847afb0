use collectibles::pallet::Pallet;
use collectibles::types::{Config, Error, Event};

fn registry_with_item(maximum_owned: u32, owner: u64) -> (Pallet, [u8; 16]) {
    let mut p = Pallet::new(Config { maximum_owned });
    let id = match p.create_collectible(owner, &[1; 32], 0, 0) {
        Ok(Event::CollectibleCreated { collectible, .. }) => collectible,
        other => panic!("expected a created record, got {:?}", other),
    };
    (p, id)
}

#[test]
fn transfer_moves_ownership() {
    let (mut p, id) = registry_with_item(10, 7);
    let r = p.transfer(7, 8, id);
    assert_eq!(r, Ok(Event::TransferSucceeded { from: 7, to: 8, collectible: id }));
    assert_eq!(p.get_collectible(&id).unwrap().owner, 8);
    assert_eq!(p.owned_count(7), 0);
    assert_eq!(p.owned_count(8), 1);
    assert_eq!(p.owned_ids(8), vec![id]);
    assert_eq!(p.collectibles_count(), 1);
}

#[test]
fn transfer_resets_listing() {
    let (mut p, id) = registry_with_item(10, 7);
    p.set_price(7, id, 120).expect("owner lists");
    assert_eq!(p.get_collectible(&id).unwrap().price, Some(120));
    p.transfer(7, 8, id).expect("owner transfers");
    assert_eq!(p.get_collectible(&id).unwrap().price, None);
}

#[test]
fn transfer_to_self_is_rejected() {
    let (mut p, id) = registry_with_item(10, 7);
    p.set_price(7, id, 60).expect("owner lists");
    let r = p.transfer(7, 7, id);
    assert_eq!(r, Err(Error::TransferToSelf));
    let c = p.get_collectible(&id).unwrap();
    assert_eq!(c.owner, 7);
    assert_eq!(c.price, Some(60));
    assert_eq!(p.owned_count(7), 1);
}

#[test]
fn transfer_unknown_id_fails() {
    let (mut p, _id) = registry_with_item(10, 7);
    let r = p.transfer(7, 8, [0xCD; 16]);
    assert_eq!(r, Err(Error::NoCollectible));
}

#[test]
fn transfer_by_non_owner_fails() {
    let (mut p, id) = registry_with_item(10, 7);
    let r = p.transfer(8, 9, id);
    assert_eq!(r, Err(Error::NotOwner));
    assert_eq!(p.get_collectible(&id).unwrap().owner, 7);
    assert_eq!(p.owned_count(9), 0);
}

#[test]
fn transfer_into_full_account_fails_and_keeps_state() {
    let (mut p, id) = registry_with_item(1, 7);
    // The recipient already owns the maximum.
    match p.create_collectible(8, &[2; 32], 0, 0) {
        Ok(_) => {}
        other => panic!("expected a created record, got {:?}", other),
    }
    let r = p.transfer(7, 8, id);
    assert_eq!(r, Err(Error::MaximumCollectiblesOwned));
    assert_eq!(p.get_collectible(&id).unwrap().owner, 7);
    assert_eq!(p.owned_count(7), 1);
    assert_eq!(p.owned_count(8), 1);
}

#[test]
fn do_transfer_reports_current_owner() {
    let (mut p, id) = registry_with_item(10, 7);
    let r = p.do_transfer(id, 9);
    assert_eq!(r, Ok(Event::TransferSucceeded { from: 7, to: 9, collectible: id }));
    assert_eq!(p.get_collectible(&id).unwrap().owner, 9);
}
