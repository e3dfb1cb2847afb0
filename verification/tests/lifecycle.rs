use collectibles::identifier::gen_unique_id;
use collectibles::pallet::Pallet;
use collectibles::types::{Color, Config, Error, Event};

fn fresh_registry(maximum_owned: u32) -> Pallet {
    Pallet::new(Config { maximum_owned })
}

fn mint_for(p: &mut Pallet, caller: u64, seed: u8, index: u32) -> [u8; 16] {
    match p.create_collectible(caller, &[seed; 32], index, 0) {
        Ok(Event::CollectibleCreated { collectible, owner }) => {
            assert_eq!(owner, caller);
            collectible
        }
        other => panic!("expected a created record, got {:?}", other),
    }
}

#[test]
fn create_collectible_stores_record_and_counts() {
    let mut p = fresh_registry(10);
    assert_eq!(p.collectibles_count(), 0);
    let id = mint_for(&mut p, 7, 1, 0);
    assert_eq!(p.collectibles_count(), 1);
    assert_eq!(p.owned_count(7), 1);
    let c = p.get_collectible(&id).expect("just minted");
    assert_eq!(c.owner, 7);
    assert_eq!(c.price, None);
    assert_eq!(c.unique_id, id);
    assert_eq!(p.owned_ids(7), vec![id]);
}

#[test]
fn create_collectible_is_deterministic_and_rejects_duplicates() {
    let mut p = fresh_registry(10);
    let _ = mint_for(&mut p, 7, 1, 0);
    // The same entropy and context derive the same identifier, so a second
    // attempt collides.
    let second = p.create_collectible(7, &[1; 32], 0, 0);
    assert_eq!(second, Err(Error::DuplicateCollectible));
    assert_eq!(p.collectibles_count(), 1);
    assert_eq!(p.owned_count(7), 1);
}

#[test]
fn distinct_context_gives_distinct_identifiers() {
    let mut p = fresh_registry(10);
    let a = mint_for(&mut p, 7, 1, 0);
    let b = mint_for(&mut p, 7, 1, 1);
    let c = mint_for(&mut p, 7, 2, 0);
    assert_ne!(a, b);
    assert_ne!(a, c);
    assert_ne!(b, c);
    assert_eq!(p.collectibles_count(), 3);
    assert_eq!(p.owned_count(7), 3);
}

#[test]
fn attribute_tag_follows_digest_parity() {
    for seed in 0..16u8 {
        let (id, color) = gen_unique_id(&[seed; 32], 3, 9);
        let expected = if id[0] % 2 == 0 { Color::Red } else { Color::Yellow };
        assert_eq!(color, expected);
        // The generator reaches only two of the four declared tags.
        assert!(color == Color::Red || color == Color::Yellow);
        // Deterministic given its inputs.
        let (id_again, color_again) = gen_unique_id(&[seed; 32], 3, 9);
        assert_eq!(id, id_again);
        assert_eq!(color, color_again);
    }
}

#[test]
fn destroy_collectible_removes_everywhere() {
    let mut p = fresh_registry(10);
    let kept = mint_for(&mut p, 7, 1, 0);
    let gone = mint_for(&mut p, 7, 2, 0);
    let r = p.destroy_collectible(7, gone);
    assert_eq!(r, Ok(Event::CollectibleDestroyed { collectible: gone }));
    assert_eq!(p.collectibles_count(), 1);
    assert_eq!(p.owned_count(7), 1);
    assert!(p.get_collectible(&gone).is_none());
    assert!(p.get_collectible(&kept).is_some());
    assert_eq!(p.owned_ids(7), vec![kept]);
}

#[test]
fn destroy_unknown_id_fails_and_changes_nothing() {
    let mut p = fresh_registry(10);
    let id = mint_for(&mut p, 7, 1, 0);
    let r = p.destroy_collectible(7, [0xAB; 16]);
    assert_eq!(r, Err(Error::NoCollectible));
    assert_eq!(p.collectibles_count(), 1);
    assert_eq!(p.owned_count(7), 1);
    assert!(p.get_collectible(&id).is_some());
}

#[test]
fn destroy_by_non_owner_fails() {
    let mut p = fresh_registry(10);
    let id = mint_for(&mut p, 7, 1, 0);
    let r = p.destroy_collectible(8, id);
    assert_eq!(r, Err(Error::NotOwner));
    assert_eq!(p.collectibles_count(), 1);
    assert_eq!(p.get_collectible(&id).unwrap().owner, 7);
}

#[test]
fn destroy_listed_collectible_is_allowed() {
    let mut p = fresh_registry(10);
    let id = mint_for(&mut p, 7, 1, 0);
    p.set_price(7, id, 50).expect("owner lists");
    let r = p.destroy_collectible(7, id);
    assert_eq!(r, Ok(Event::CollectibleDestroyed { collectible: id }));
    assert!(p.get_collectible(&id).is_none());
}

#[test]
fn mint_beyond_bound_fails_and_keeps_state() {
    let mut p = fresh_registry(2);
    assert_eq!(p.maximum_owned(), 2);
    let _ = mint_for(&mut p, 7, 1, 0);
    let _ = mint_for(&mut p, 7, 2, 0);
    let r = p.create_collectible(7, &[3; 32], 0, 0);
    assert_eq!(r, Err(Error::MaximumCollectiblesOwned));
    assert_eq!(p.collectibles_count(), 2);
    assert_eq!(p.owned_count(7), 2);
    // Another account still has room.
    let _ = mint_for(&mut p, 8, 4, 0);
    assert_eq!(p.collectibles_count(), 3);
}

#[test]
fn exhausted_counter_is_rejected() {
    // A registry whose supply counter has reached its limit; minting must
    // refuse to wrap rather than overflow.
    let mut p = Pallet {
        collectibles: Vec::new(),
        count: u64::MAX,
        owners: Vec::new(),
        config: Config { maximum_owned: 5 },
    };
    let r = p.create_collectible(7, &[1; 32], 0, 0);
    assert_eq!(r, Err(Error::BoundsOverflow));
    assert_eq!(p.collectibles_count(), u64::MAX);
    assert_eq!(p.owned_count(7), 0);
}

#[test]
fn zero_bound_rejects_every_mint() {
    let mut p = fresh_registry(0);
    let r = p.create_collectible(7, &[1; 32], 0, 0);
    assert_eq!(r, Err(Error::MaximumCollectiblesOwned));
    assert_eq!(p.collectibles_count(), 0);
}
