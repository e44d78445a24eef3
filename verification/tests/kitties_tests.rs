use poe_kitties::balances::Balances;
use poe_kitties::crossover;
use poe_kitties::kitties::{Config, Error, Event, Kitty, Pallet};

const RESERVE: u64 = 10;

fn new_pallet(max_length: u32) -> Pallet {
    Pallet::new(Config {
        max_length,
        kitty_reserve: RESERVE,
    })
}

fn funded(who: u64, amount: u64) -> Balances {
    let mut balances = Balances::new();
    balances.set_balance(who, amount);
    balances
}

/// The byte sequence the registry hashes to derive a pseudo-random value.
fn payload(seed: &[u8; 32], who: u64, nonce: Option<u32>) -> Vec<u8> {
    let mut v = Vec::new();
    v.extend_from_slice(seed);
    v.extend_from_slice(&who.to_le_bytes());
    match nonce {
        Some(n) => {
            v.push(1);
            v.extend_from_slice(&n.to_le_bytes());
        }
        None => v.push(0),
    }
    v
}

#[test]
fn create_and_breed_scenario() {
    let mut kitties = new_pallet(10);
    let mut balances = funded(1, 100);
    let seed = [7u8; 32];

    assert_eq!(kitties.create(&mut balances, 1, &seed, Some(0)), Ok(()));
    assert_eq!(kitties.create(&mut balances, 1, &seed, Some(1)), Ok(()));
    assert_eq!(kitties.next_kitty_id(), 2);

    assert_eq!(
        kitties.breed(&mut balances, 1, 0, 0, &seed, Some(2)),
        Err(Error::SameKittyId)
    );
    assert_eq!(kitties.breed(&mut balances, 1, 0, 1, &seed, Some(2)), Ok(()));
    // The child's id follows the second parent's: ids are issued in order.
    assert_eq!(kitties.next_kitty_id(), 3);
    match kitties.events().last() {
        Some(Event::KittyCreated(owner, id, _)) => {
            assert_eq!(*owner, 1);
            assert_eq!(*id, 2);
        }
        other => panic!("unexpected event {:?}", other),
    }
    // Collateral was reserved once per creature.
    assert_eq!(balances.reserved_balance(1), 3 * RESERVE);
    assert_eq!(balances.free_balance(1), 100 - 3 * RESERVE);
}

#[test]
fn created_genome_is_blake2_of_payload() {
    let mut kitties = new_pallet(10);
    let mut balances = funded(5, 100);
    let seed = [3u8; 32];

    assert_eq!(kitties.create(&mut balances, 5, &seed, Some(9)), Ok(()));
    let expected = sp_crypto_hashing::blake2_128(&payload(&seed, 5, Some(9)));
    assert_eq!(kitties.kitties(0), Some(Kitty(expected)));
    assert_eq!(
        kitties.events().as_slice(),
        &[Event::TokenStake(5), Event::KittyCreated(5, 0, Kitty(expected))]
    );
}

#[test]
fn created_genome_without_nonce() {
    let mut kitties = new_pallet(10);
    let mut balances = funded(5, 100);
    let seed = [4u8; 32];

    assert_eq!(kitties.create(&mut balances, 5, &seed, None), Ok(()));
    let expected = sp_crypto_hashing::blake2_128(&payload(&seed, 5, None));
    assert_eq!(kitties.kitties(0), Some(Kitty(expected)));
}

#[test]
fn bred_genome_is_crossover_under_selector() {
    let mut kitties = new_pallet(10);
    let mut balances = funded(1, 100);
    let seed = [11u8; 32];

    assert_eq!(kitties.create(&mut balances, 1, &seed, Some(0)), Ok(()));
    assert_eq!(kitties.create(&mut balances, 1, &seed, Some(1)), Ok(()));
    assert_eq!(kitties.breed(&mut balances, 1, 0, 1, &seed, Some(2)), Ok(()));

    let parent_1 = kitties.kitties(0).unwrap().0;
    let parent_2 = kitties.kitties(1).unwrap().0;
    let selector = sp_crypto_hashing::blake2_128(&payload(&seed, 1, Some(2)));
    let child = kitties.kitties(2).unwrap().0;
    for i in 0..16 {
        assert_eq!(
            child[i],
            (parent_1[i] & selector[i]) | (parent_2[i] & !selector[i])
        );
        // Per bit: the child agrees with parent 1 where the selector is set
        // and with parent 2 where it is clear.
        assert_eq!(child[i] & selector[i], parent_1[i] & selector[i]);
        assert_eq!(child[i] & !selector[i], parent_2[i] & !selector[i]);
    }
}

#[test]
fn breeding_is_deterministic() {
    let seed = [9u8; 32];
    let mut first: Option<Kitty> = None;
    for _ in 0..2 {
        let mut kitties = new_pallet(10);
        let mut balances = funded(1, 100);
        kitties.create(&mut balances, 1, &seed, Some(0)).unwrap();
        kitties.create(&mut balances, 1, &seed, Some(1)).unwrap();
        kitties.breed(&mut balances, 1, 0, 1, &seed, Some(2)).unwrap();
        let child = kitties.kitties(2).unwrap();
        match first {
            None => first = Some(child),
            Some(prev) => assert_eq!(prev, child),
        }
    }
}

#[test]
fn crossover_selects_bits_per_byte() {
    let child = crossover(&Kitty([0xAA; 16]), &Kitty([0x55; 16]), &[0xF0; 16]);
    assert_eq!(child, Kitty([0xA5; 16]));
}

#[test]
fn crossover_extreme_selectors() {
    let p1 = Kitty([0xDE; 16]);
    let p2 = Kitty([0x13; 16]);
    assert_eq!(crossover(&p1, &p2, &[0xFF; 16]), p1);
    assert_eq!(crossover(&p1, &p2, &[0x00; 16]), p2);
}

#[test]
fn create_fails_when_token_not_enough() {
    let mut kitties = new_pallet(10);
    let mut balances = funded(1, RESERVE - 1);
    let seed = [0u8; 32];

    assert_eq!(
        kitties.create(&mut balances, 1, &seed, None),
        Err(Error::TokenNotEnough)
    );
    assert_eq!(kitties.next_kitty_id(), 0);
    assert_eq!(kitties.events().len(), 0);
    assert_eq!(balances.free_balance(1), RESERVE - 1);
    assert_eq!(balances.reserved_balance(1), 0);
}

#[test]
fn create_fails_when_inventory_full() {
    let mut kitties = new_pallet(1);
    let mut balances = funded(1, 100);
    let seed = [0u8; 32];

    assert_eq!(kitties.create(&mut balances, 1, &seed, Some(0)), Ok(()));
    assert_eq!(
        kitties.create(&mut balances, 1, &seed, Some(1)),
        Err(Error::ExceedMaxKittyOwned)
    );
    // The rejected creation left no creature, event or reservation behind.
    assert_eq!(kitties.next_kitty_id(), 1);
    assert_eq!(kitties.events().len(), 2);
    assert_eq!(balances.reserved_balance(1), RESERVE);
}

#[test]
fn breed_fails_for_unknown_parent() {
    let mut kitties = new_pallet(10);
    let mut balances = funded(1, 100);
    let seed = [0u8; 32];

    kitties.create(&mut balances, 1, &seed, Some(0)).unwrap();
    assert_eq!(
        kitties.breed(&mut balances, 1, 0, 5, &seed, Some(1)),
        Err(Error::InvalidKittyId)
    );
    assert_eq!(
        kitties.breed(&mut balances, 1, 7, 0, &seed, Some(1)),
        Err(Error::InvalidKittyId)
    );
}

#[test]
fn transfer_works() {
    let mut kitties = new_pallet(10);
    let mut balances = funded(1, 100);
    balances.set_balance(2, 50);
    let seed = [1u8; 32];

    kitties.create(&mut balances, 1, &seed, Some(0)).unwrap();
    let genome = kitties.kitties(0).unwrap();
    assert_eq!(kitties.transfer(&mut balances, 1, 0, 2), Ok(()));

    assert_eq!(kitties.kitty_owner(0), Some(2));
    assert_eq!(kitties.all_owner_kitty(1).len(), 0);
    assert_eq!(kitties.all_owner_kitty(2), vec![genome]);
    // The collateral moved with the creature.
    assert_eq!(balances.reserved_balance(1), 0);
    assert_eq!(balances.free_balance(1), 100);
    assert_eq!(balances.reserved_balance(2), RESERVE);
    assert_eq!(balances.free_balance(2), 50 - RESERVE);
    match kitties.events().last() {
        Some(Event::KittyTransferred(from, to, id)) => {
            assert_eq!((*from, *to, *id), (1, 2, 0));
        }
        other => panic!("unexpected event {:?}", other),
    }
}

#[test]
fn transfer_fails_when_not_owner() {
    let mut kitties = new_pallet(10);
    let mut balances = funded(2, 100);
    balances.set_balance(1, 100);
    let seed = [1u8; 32];

    kitties.create(&mut balances, 2, &seed, Some(0)).unwrap();
    assert_eq!(
        kitties.transfer(&mut balances, 1, 0, 3),
        Err(Error::NotOwner)
    );
    assert_eq!(kitties.kitty_owner(0), Some(2));
}

#[test]
fn transfer_fails_for_unknown_kitty() {
    let mut kitties = new_pallet(10);
    let mut balances = funded(1, 100);
    assert_eq!(
        kitties.transfer(&mut balances, 1, 0, 2),
        Err(Error::InvalidKittyId)
    );
}

#[test]
fn transfer_fails_when_recipient_token_not_enough() {
    let mut kitties = new_pallet(10);
    let mut balances = funded(1, 100);
    balances.set_balance(2, RESERVE - 1);
    let seed = [1u8; 32];

    kitties.create(&mut balances, 1, &seed, Some(0)).unwrap();
    assert_eq!(
        kitties.transfer(&mut balances, 1, 0, 2),
        Err(Error::TokenNotEnough)
    );
    assert_eq!(kitties.kitty_owner(0), Some(1));
    assert_eq!(balances.reserved_balance(1), RESERVE);
    assert_eq!(balances.reserved_balance(2), 0);
}

#[test]
fn transfer_fails_when_recipient_inventory_full() {
    let mut kitties = new_pallet(1);
    let mut balances = funded(1, 100);
    balances.set_balance(2, 100);
    let seed = [1u8; 32];

    kitties.create(&mut balances, 1, &seed, Some(0)).unwrap();
    kitties.create(&mut balances, 2, &seed, Some(1)).unwrap();
    assert_eq!(
        kitties.transfer(&mut balances, 1, 0, 2),
        Err(Error::ExceedMaxKittyOwned)
    );
    assert_eq!(kitties.kitty_owner(0), Some(1));
    assert_eq!(balances.reserved_balance(1), RESERVE);
    assert_eq!(balances.reserved_balance(2), RESERVE);
}

#[test]
fn transfer_to_self_works_at_capacity() {
    let mut kitties = new_pallet(1);
    let mut balances = funded(1, 100);
    let seed = [1u8; 32];

    kitties.create(&mut balances, 1, &seed, Some(0)).unwrap();
    let genome = kitties.kitties(0).unwrap();
    assert_eq!(kitties.transfer(&mut balances, 1, 0, 1), Ok(()));
    assert_eq!(kitties.kitty_owner(0), Some(1));
    assert_eq!(kitties.all_owner_kitty(1), vec![genome]);
    assert_eq!(balances.reserved_balance(1), RESERVE);
    assert_eq!(balances.free_balance(1), 100 - RESERVE);
}

#[test]
fn inventories_match_owner_entries() {
    let mut kitties = new_pallet(10);
    let mut balances = funded(1, 100);
    balances.set_balance(2, 100);
    let seed = [6u8; 32];

    kitties.create(&mut balances, 1, &seed, Some(0)).unwrap();
    kitties.create(&mut balances, 2, &seed, Some(1)).unwrap();
    kitties.create(&mut balances, 1, &seed, Some(2)).unwrap();
    kitties.breed(&mut balances, 1, 0, 2, &seed, Some(3)).unwrap();
    kitties.transfer(&mut balances, 1, 0, 2).unwrap();

    for account in [1u64, 2, 3] {
        let mut inventory: Vec<[u8; 16]> = kitties
            .all_owner_kitty(account)
            .iter()
            .map(|k| k.0)
            .collect();
        let mut owned: Vec<[u8; 16]> = Vec::new();
        for id in 0..kitties.next_kitty_id() {
            if kitties.kitty_owner(id) == Some(account) {
                owned.push(kitties.kitties(id).unwrap().0);
            }
        }
        inventory.sort();
        owned.sort();
        assert_eq!(inventory, owned);
    }
}

#[test]
fn balances_reserve_and_unreserve() {
    let mut balances = funded(1, 100);
    assert!(balances.can_reserve(1, 100));
    assert!(!balances.can_reserve(1, 101));
    assert_eq!(balances.reserve(1, 30), Ok(()));
    assert_eq!(balances.free_balance(1), 70);
    assert_eq!(balances.reserved_balance(1), 30);
    assert_eq!(balances.reserve(1, 71), Err(()));
    // Unreserving more than is reserved moves back only what is reserved.
    balances.unreserve(1, 50);
    assert_eq!(balances.free_balance(1), 100);
    assert_eq!(balances.reserved_balance(1), 0);
    // An account never credited has nothing to reserve.
    assert_eq!(balances.reserve(2, 1), Err(()));
    assert_eq!(balances.free_balance(2), 0);
}
