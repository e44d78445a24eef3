use vstd::bytes::*;
use vstd::multiset::Multiset;
use vstd::prelude::*;

use crate::balances::same_balances;
use crate::balances::spec_min;
use crate::balances::Balances;

verus! {

/// A creature: a fixed 16-byte genetic payload.
#[derive(Clone, Copy, Debug, PartialEq, Eq)]
pub struct Kitty(pub [u8; 16]);

/// Host-supplied configuration for the creature registry.
pub struct Config {
    /// The capacity of one account's inventory.
    pub max_length: u32,
    /// The collateral held per creature against its current owner.
    pub kitty_reserve: u64,
}

/// Terminal rejections of a creature operation; no state changes on any of
/// them.
#[derive(Clone, Copy, Debug, PartialEq, Eq, Structural)]
pub enum Error {
    /// The creature id is unknown, or the id space is exhausted.
    InvalidKittyId,
    /// The caller is not the creature's current owner.
    NotOwner,
    /// Both breeding parents are the same creature.
    SameKittyId,
    /// The inventory is at capacity.
    ExceedMaxKittyOwned,
    /// The collateral reservation failed for insufficient balance.
    TokenNotEnough,
}

/// Domain events the creature registry emits.
///
/// `KittyBred` is declared but never emitted: breeding records a
/// `KittyCreated` event for the child.
#[derive(Clone, Copy, Debug, PartialEq, Eq)]
pub enum Event {
    KittyCreated(u64, u32, Kitty),
    KittyBred(u64, u32, Kitty),
    KittyTransferred(u64, u64, u32),
    TokenStake(u64),
}

/// One account's inventory: the genomes of the creatures it owns.
struct Inventory {
    owner: u64,
    kitties: Vec<Kitty>,
}

/// The creature registry: the creatures minted so far (the creature with id
/// `i` is the `i`-th one), their owners, and each owner's inventory, with
/// collateral moved on every ownership change through a [`Balances`] ledger.
pub struct Pallet {
    config: Config,
    kitties: Vec<Kitty>,
    owners: Vec<u64>,
    inventories: Vec<Inventory>,
    events: Vec<Event>,
}

/// The 16-byte Blake2b digest of a byte sequence, named: it is a function of
/// the input bytes alone.
pub uninterp spec fn blake2_128_of(data: Seq<u8>) -> Seq<u8>;

/// Relies on sp_io::hashing::blake2_128: the unkeyed 16-byte Blake2b digest
/// of the input, a function of the input bytes alone.
#[verifier::external_body]
fn blake2_128(data: &[u8]) -> (r: [u8; 16])
    ensures
        r@ == blake2_128_of(data@),
{
    sp_io::hashing::blake2_128(data)
}

/// The byte sequence hashed to derive a pseudo-random value: the per-block
/// seed, then the caller in little-endian, then the per-block transaction
/// counter (one zero byte when absent, a one byte and little-endian bytes
/// when present).
pub open spec fn payload_of(seed: Seq<u8>, sender: u64, nonce: Option<u32>) -> Seq<u8> {
    seed + spec_u64_to_le_bytes(sender) + (match nonce {
        Some(n) => seq![1u8] + spec_u32_to_le_bytes(n),
        None => seq![0u8],
    })
}

/// The genome a bitwise uniform crossover of `p1` and `p2` produces under
/// `sel`: each bit comes from `p1` where the selector bit is 1 and from `p2`
/// where it is 0.
pub open spec fn crossover_genome(p1: Seq<u8>, p2: Seq<u8>, sel: Seq<u8>) -> Seq<u8> {
    Seq::new(16, |i: int| (p1[i] & sel[i]) | (p2[i] & !sel[i]))
}

/// Bitwise uniform crossover: for each bit, the child takes the first
/// parent's bit where the selector bit is 1 and the second parent's bit
/// where it is 0. Deterministic given the selector and the parents.
pub fn crossover(kitty_1: &Kitty, kitty_2: &Kitty, selector: &[u8; 16]) -> (child: Kitty)
    ensures
        child.0@ == crossover_genome(kitty_1.0@, kitty_2.0@, selector@),
{
    let mut data = [0u8; 16];
    let mut i: usize = 0;
    while i < 16
        invariant
            i <= 16,
            forall|j: int|
                0 <= j < i ==> data@[j] == ((kitty_1.0@[j] & selector@[j]) | (kitty_2.0@[j]
                    & !selector@[j])),
        decreases 16 - i,
    {
        data[i] = (kitty_1.0[i] & selector[i]) | (kitty_2.0[i] & !selector[i]);
        i = i + 1;
    }
    proof {
        assert(data@ =~= crossover_genome(kitty_1.0@, kitty_2.0@, selector@));
    }
    Kitty(data)
}

/// Each byte of the crossover child agrees with the first parent on the
/// selector's set bits and with the second parent on its clear bits.
pub proof fn lemma_crossover_masks(p1: Seq<u8>, p2: Seq<u8>, sel: Seq<u8>, i: int)
    requires
        p1.len() == 16,
        p2.len() == 16,
        sel.len() == 16,
        0 <= i < 16,
    ensures
        crossover_genome(p1, p2, sel)[i] & sel[i] == p1[i] & sel[i],
        crossover_genome(p1, p2, sel)[i] & !sel[i] == p2[i] & !sel[i],
{
    let a = p1[i];
    let b = p2[i];
    let s = sel[i];
    assert(((a & s) | (b & !s)) & s == a & s) by (bit_vector);
    assert(((a & s) | (b & !s)) & !s == b & !s) by (bit_vector);
}

/// The genomes of a sequence of creatures.
pub open spec fn genomes_of(ks: Seq<Kitty>) -> Seq<Seq<u8>> {
    ks.map_values(|k: Kitty| k.0@)
}

spec fn inv_match(invs: Seq<Inventory>, who: u64, i: int) -> bool {
    0 <= i < invs.len() && invs[i].owner == who
}

spec fn unique_inventories(invs: Seq<Inventory>) -> bool {
    forall|i: int, j: int| 0 <= i < j < invs.len() ==> invs[i].owner != invs[j].owner
}

/// How many of the creatures in `genomes` have owner `who` and genome `x`.
pub open spec fn owned_count(genomes: Seq<Seq<u8>>, owners: Seq<u64>, who: u64, x: Seq<u8>) -> int
    decreases owners.len(),
{
    if owners.len() == 0 || genomes.len() != owners.len() {
        0
    } else {
        owned_count(genomes.drop_last(), owners.drop_last(), who, x) + (
        if owners.last() == who && genomes.last() == x {
            1int
        } else {
            0int
        })
    }
}

/// The multiset of genomes of the creatures whose owner entry is `who`.
pub open spec fn owned_genomes(genomes: Seq<Seq<u8>>, owners: Seq<u64>, who: u64) -> Multiset<
    Seq<u8>,
>
    decreases owners.len(),
{
    if owners.len() == 0 || genomes.len() != owners.len() {
        Multiset::empty()
    } else {
        let rest = owned_genomes(genomes.drop_last(), owners.drop_last(), who);
        if owners.last() == who {
            rest.insert(genomes.last())
        } else {
            rest
        }
    }
}

/// `owned_genomes` counts each genome as `owned_count` does.
pub proof fn lemma_owned_genomes_count(genomes: Seq<Seq<u8>>, owners: Seq<u64>, who: u64, x: Seq<u8>)
    ensures
        owned_genomes(genomes, owners, who).count(x) == owned_count(genomes, owners, who, x),
    decreases owners.len(),
{
    broadcast use vstd::multiset::group_multiset_axioms;

    if owners.len() == 0 || genomes.len() != owners.len() {
    } else {
        lemma_owned_genomes_count(genomes.drop_last(), owners.drop_last(), who, x);
    }
}

/// Appending one creature adds one to the owner's count of its genome and
/// changes no other count.
proof fn lemma_owned_push(
    genomes: Seq<Seq<u8>>,
    owners: Seq<u64>,
    w: u64,
    g: Seq<u8>,
    who: u64,
    x: Seq<u8>,
)
    requires
        genomes.len() == owners.len(),
    ensures
        owned_count(genomes.push(g), owners.push(w), who, x) == owned_count(
            genomes,
            owners,
            who,
            x,
        ) + (if w == who && g == x {
            1int
        } else {
            0int
        }),
{
    assert(genomes.push(g).drop_last() =~= genomes);
    assert(owners.push(w).drop_last() =~= owners);
}

/// Rewriting one owner entry moves one count of that creature's genome from
/// the old owner to the new one and changes no other count.
proof fn lemma_owned_update(
    genomes: Seq<Seq<u8>>,
    owners: Seq<u64>,
    i: int,
    b: u64,
    who: u64,
    x: Seq<u8>,
)
    requires
        genomes.len() == owners.len(),
        0 <= i < owners.len(),
    ensures
        owned_count(genomes, owners.update(i, b), who, x) == owned_count(genomes, owners, who, x)
            - (if owners[i] == who && genomes[i] == x {
            1int
        } else {
            0int
        }) + (if b == who && genomes[i] == x {
            1int
        } else {
            0int
        }),
    decreases owners.len(),
{
    let n = owners.len() - 1;
    if i == n {
        assert(owners.update(i, b).drop_last() =~= owners.drop_last());
        assert(owners.update(i, b).last() == b);
    } else {
        assert(owners.update(i, b).drop_last() =~= owners.drop_last().update(i, b));
        assert(owners.update(i, b).last() == owners.last());
        lemma_owned_update(genomes.drop_last(), owners.drop_last(), i, b, who, x);
    }
}

/// A creature's genome is counted at least once for its owner.
proof fn lemma_owned_count_at(genomes: Seq<Seq<u8>>, owners: Seq<u64>, i: int)
    requires
        genomes.len() == owners.len(),
        0 <= i < owners.len(),
    ensures
        owned_count(genomes, owners, owners[i], genomes[i]) >= 1,
        forall|who: u64, x: Seq<u8>| owned_count(genomes, owners, who, x) >= 0,
    decreases owners.len(),
{
    assert forall|who: u64, x: Seq<u8>| owned_count(genomes, owners, who, x) >= 0 by {
        lemma_owned_count_nonneg(genomes, owners, who, x);
    }
    let n = owners.len() - 1;
    if i == n {
        lemma_owned_count_nonneg(genomes.drop_last(), owners.drop_last(), owners[i], genomes[i]);
    } else {
        lemma_owned_count_at(genomes.drop_last(), owners.drop_last(), i);
    }
}

proof fn lemma_owned_count_nonneg(genomes: Seq<Seq<u8>>, owners: Seq<u64>, who: u64, x: Seq<u8>)
    ensures
        owned_count(genomes, owners, who, x) >= 0,
    decreases owners.len(),
{
    if owners.len() == 0 || genomes.len() != owners.len() {
    } else {
        lemma_owned_count_nonneg(genomes.drop_last(), owners.drop_last(), who, x);
    }
}

impl Pallet {
    pub closed spec fn spec_kitties(self) -> Seq<Seq<u8>> {
        genomes_of(self.kitties@)
    }

    pub closed spec fn spec_owners(self) -> Seq<u64> {
        self.owners@
    }

    /// The id the next minted creature gets: ids are issued in order from 0.
    pub open spec fn spec_next_kitty_id(self) -> int {
        self.spec_kitties().len() as int
    }

    /// The genomes in `who`'s inventory, in inventory order.
    pub closed spec fn spec_inventory(self, who: u64) -> Seq<Seq<u8>> {
        if exists|i: int| inv_match(self.inventories@, who, i) {
            genomes_of(
                self.inventories@[choose|i: int| inv_match(self.inventories@, who, i)].kitties@,
            )
        } else {
            Seq::empty()
        }
    }

    /// How often genome `x` occurs in `who`'s inventory.
    pub open spec fn inv_count(self, who: u64, x: Seq<u8>) -> int {
        self.spec_inventory(who).to_multiset().count(x) as int
    }

    /// The log of emitted events, oldest first.
    pub closed spec fn spec_events(self) -> Seq<Event> {
        self.events@
    }

    pub closed spec fn spec_max_length(self) -> u32 {
        self.config.max_length
    }

    pub closed spec fn spec_kitty_reserve(self) -> u64 {
        self.config.kitty_reserve
    }

    pub closed spec fn inventories_wf(self) -> bool {
        &&& unique_inventories(self.inventories@)
        &&& forall|i: int|
            0 <= i < self.inventories@.len() ==> #[trigger] self.inventories@[i].kitties@.len()
                <= self.config.max_length
    }

    /// Inventory consistency: every account's inventory counts each genome
    /// exactly as often as the creatures it owns carry it.
    pub open spec fn consistent(self) -> bool {
        forall|a: u64, x: Seq<u8>|
            #[trigger] self.inv_count(a, x) == owned_count(
                self.spec_kitties(),
                self.spec_owners(),
                a,
                x,
            )
    }

    /// Every creature has an owner, ids fit the id type, inventories are
    /// unique and bounded, and each account's inventory agrees with the
    /// owner entries.
    pub open spec fn wf(self) -> bool {
        &&& self.spec_owners().len() == self.spec_kitties().len()
        &&& self.spec_kitties().len() <= u32::MAX
        &&& self.inventories_wf()
        &&& self.consistent()
    }
}

/// Inventory consistency as a multiset: under `wf`, every account's
/// inventory holds exactly the genomes of the creatures whose owner entry is
/// that account.
pub proof fn lemma_inventory_consistency(p: Pallet, a: u64)
    requires
        p.wf(),
    ensures
        p.spec_inventory(a).to_multiset() == owned_genomes(p.spec_kitties(), p.spec_owners(), a),
{
    assert(p.spec_inventory(a).to_multiset() =~= owned_genomes(
        p.spec_kitties(),
        p.spec_owners(),
        a,
    )) by {
        assert forall|x: Seq<u8>|
            p.spec_inventory(a).to_multiset().count(x) == owned_genomes(
                p.spec_kitties(),
                p.spec_owners(),
                a,
            ).count(x) by {
            lemma_owned_genomes_count(p.spec_kitties(), p.spec_owners(), a, x);
            assert(p.inv_count(a, x) == owned_count(p.spec_kitties(), p.spec_owners(), a, x));
        }
    }
}

/// Both registries hold the same creatures, owners, inventories, events and
/// configuration.
pub open spec fn same_state(a: Pallet, b: Pallet) -> bool {
    &&& b.spec_kitties() == a.spec_kitties()
    &&& b.spec_owners() == a.spec_owners()
    &&& forall|w: u64| #[trigger] b.spec_inventory(w) == a.spec_inventory(w)
    &&& b.spec_events() == a.spec_events()
    &&& b.spec_max_length() == a.spec_max_length()
    &&& b.spec_kitty_reserve() == a.spec_kitty_reserve()
}

impl Pallet {
    /// With unique inventory owners, an index holding `who` is the one
    /// `spec_inventory` reads from.
    proof fn lemma_inv_found(self, who: u64, i: int)
        requires
            unique_inventories(self.inventories@),
            inv_match(self.inventories@, who, i),
        ensures
            self.spec_inventory(who) == genomes_of(self.inventories@[i].kitties@),
    {
        let j = choose|j: int| inv_match(self.inventories@, who, j);
        assert(inv_match(self.inventories@, who, j));
        if i != j {
            if i < j {
                assert(self.inventories@[i].owner != self.inventories@[j].owner);
            } else {
                assert(self.inventories@[j].owner != self.inventories@[i].owner);
            }
        }
    }

    /// An update of inventory entry `j`, which holds `who` and keeps holding
    /// it, leaves every other account's inventory unchanged.
    proof fn lemma_inv_update(self, pre: Pallet, j: int, who: u64)
        requires
            unique_inventories(pre.inventories@),
            inv_match(pre.inventories@, who, j),
            self.inventories@.len() == pre.inventories@.len(),
            self.inventories@[j].owner == who,
            forall|k: int|
                0 <= k < pre.inventories@.len() && k != j ==> self.inventories@[k]
                    == pre.inventories@[k],
        ensures
            unique_inventories(self.inventories@),
            self.spec_inventory(who) == genomes_of(self.inventories@[j].kitties@),
            forall|a: u64| a != who ==> self.spec_inventory(a) == pre.spec_inventory(a),
    {
        let post = self.inventories@;
        let prev = pre.inventories@;
        assert(forall|k: int| 0 <= k < prev.len() ==> post[k].owner == prev[k].owner);
        assert forall|a: int, b: int| 0 <= a < b < post.len() implies post[a].owner
            != post[b].owner by {}
        self.lemma_inv_found(who, j);
        assert forall|a: u64| a != who implies self.spec_inventory(a) == pre.spec_inventory(a) by {
            if exists|k: int| inv_match(prev, a, k) {
                let k = choose|k: int| inv_match(prev, a, k);
                pre.lemma_inv_found(a, k);
                assert(k != j);
                assert(inv_match(post, a, k));
                self.lemma_inv_found(a, k);
            } else {
                assert forall|k: int| !inv_match(post, a, k) by {
                    if inv_match(post, a, k) {
                        assert(k != j);
                        assert(inv_match(prev, a, k));
                    }
                }
            }
        }
    }

    /// An empty registry under the given configuration.
    pub fn new(config: Config) -> (p: Pallet)
        ensures
            p.wf(),
            p.spec_kitties() == Seq::<Seq<u8>>::empty(),
            p.spec_owners() == Seq::<u64>::empty(),
            forall|a: u64| p.spec_inventory(a) == Seq::<Seq<u8>>::empty(),
            p.spec_events() == Seq::<Event>::empty(),
            p.spec_max_length() == config.max_length,
            p.spec_kitty_reserve() == config.kitty_reserve,
    {
        let p = Pallet {
            config,
            kitties: Vec::new(),
            owners: Vec::new(),
            inventories: Vec::new(),
            events: Vec::new(),
        };
        proof {
            broadcast use vstd::seq_lib::group_to_multiset_ensures;
            broadcast use vstd::multiset::group_multiset_axioms;

            assert(p.spec_kitties() =~= Seq::<Seq<u8>>::empty());
            assert forall|a: u64| p.spec_inventory(a) == Seq::<Seq<u8>>::empty() by {
                assert(forall|i: int| !inv_match(p.inventories@, a, i));
            }
            assert forall|a: u64, x: Seq<u8>|
                #[trigger] p.inv_count(a, x) == owned_count(
                    p.spec_kitties(),
                    p.spec_owners(),
                    a,
                    x,
                ) by {
                assert(p.spec_inventory(a) == Seq::<Seq<u8>>::empty());
                assert(p.spec_inventory(a).to_multiset().len() == 0);
                assert(p.spec_inventory(a).to_multiset().count(x) == 0) by {
                    assert(p.spec_inventory(a).to_multiset() =~= Multiset::empty());
                }
            }
        }
        p
    }

    pub fn max_length(&self) -> (r: u32)
        ensures
            r == self.spec_max_length(),
    {
        self.config.max_length
    }

    pub fn kitty_reserve(&self) -> (r: u64)
        ensures
            r == self.spec_kitty_reserve(),
    {
        self.config.kitty_reserve
    }

    /// The id the next minted creature will get.
    pub fn next_kitty_id(&self) -> (r: u32)
        requires
            self.wf(),
        ensures
            r == self.spec_next_kitty_id(),
    {
        self.kitties.len() as u32
    }

    /// The next free id, unless the id space is exhausted.
    fn get_next_id(&self) -> (r: Result<u32, ()>)
        requires
            self.wf(),
        ensures
            r == if self.spec_next_kitty_id() == u32::MAX {
                Err::<u32, ()>(())
            } else {
                Ok::<u32, ()>(self.spec_next_kitty_id() as u32)
            },
    {
        let next = self.kitties.len() as u32;
        if next == u32::MAX {
            Err(())
        } else {
            Ok(next)
        }
    }

    /// The creature registered under `kitty_id`.
    fn get_kitty(&self, kitty_id: u32) -> (r: Result<Kitty, ()>)
        ensures
            match r {
                Ok(k) => kitty_id < self.spec_kitties().len() && k.0@ == self.spec_kitties()[
                    kitty_id as int
                ],
                Err(()) => kitty_id >= self.spec_kitties().len(),
            },
    {
        if (kitty_id as usize) < self.kitties.len() {
            Ok(self.kitties[kitty_id as usize])
        } else {
            Err(())
        }
    }

    /// The genome of the creature registered under `kitty_id`.
    pub fn kitties(&self, kitty_id: u32) -> (r: Option<Kitty>)
        ensures
            match r {
                Some(k) => kitty_id < self.spec_kitties().len() && k.0@ == self.spec_kitties()[
                    kitty_id as int
                ],
                None => kitty_id >= self.spec_kitties().len(),
            },
    {
        match self.get_kitty(kitty_id) {
            Ok(k) => Some(k),
            Err(()) => None,
        }
    }

    /// The current owner of the creature registered under `kitty_id`.
    pub fn kitty_owner(&self, kitty_id: u32) -> (r: Option<u64>)
        ensures
            r == if kitty_id < self.spec_owners().len() {
                Some(self.spec_owners()[kitty_id as int])
            } else {
                None::<u64>
            },
    {
        if (kitty_id as usize) < self.owners.len() {
            Some(self.owners[kitty_id as usize])
        } else {
            None
        }
    }

    pub fn events(&self) -> (r: &Vec<Event>)
        ensures
            r@ == self.spec_events(),
    {
        &self.events
    }

    fn find_inventory_index(&self, who: u64) -> (r: Option<usize>)
        ensures
            match r {
                Some(i) => inv_match(self.inventories@, who, i as int),
                None => forall|i: int| !inv_match(self.inventories@, who, i),
            },
    {
        let mut i: usize = 0;
        while i < self.inventories.len()
            invariant
                i <= self.inventories@.len(),
                forall|j: int| 0 <= j < i ==> !inv_match(self.inventories@, who, j),
            decreases self.inventories@.len() - i,
        {
            if self.inventories[i].owner == who {
                return Some(i);
            }
            i = i + 1;
        }
        None
    }

    /// How many creatures `who`'s inventory holds.
    fn inventory_len(&self, who: u64) -> (r: usize)
        requires
            self.inventories_wf(),
        ensures
            r == self.spec_inventory(who).len(),
    {
        match self.find_inventory_index(who) {
            Some(i) => {
                proof {
                    self.lemma_inv_found(who, i as int);
                }
                self.inventories[i].kitties.len()
            },
            None => 0,
        }
    }

    /// The genomes of the creatures `who` owns, in inventory order.
    pub fn all_owner_kitty(&self, who: u64) -> (r: Vec<Kitty>)
        requires
            self.inventories_wf(),
        ensures
            genomes_of(r@) == self.spec_inventory(who),
    {
        let mut r: Vec<Kitty> = Vec::new();
        match self.find_inventory_index(who) {
            Some(i) => {
                proof {
                    self.lemma_inv_found(who, i as int);
                }
                let entry = &self.inventories[i];
                let mut j: usize = 0;
                while j < entry.kitties.len()
                    invariant
                        j <= entry.kitties@.len(),
                        r@ == entry.kitties@.take(j as int),
                    decreases entry.kitties@.len() - j,
                {
                    r.push(entry.kitties[j]);
                    proof {
                        assert(r@ =~= entry.kitties@.take(j + 1));
                    }
                    j = j + 1;
                }
                proof {
                    assert(entry.kitties@.take(entry.kitties@.len() as int) =~= entry.kitties@);
                }
                r
            },
            None => {
                proof {
                    assert(genomes_of(r@) =~= Seq::<Seq<u8>>::empty());
                }
                r
            },
        }
    }

    /// The index of `who`'s inventory entry, adding an empty one when there
    /// is none; every inventory is left as it was.
    fn inventory_entry_index(&mut self, who: u64) -> (i: usize)
        requires
            old(self).inventories_wf(),
        ensures
            final(self).inventories_wf(),
            inv_match(final(self).inventories@, who, i as int),
            final(self).kitties@ == old(self).kitties@,
            final(self).owners@ == old(self).owners@,
            final(self).events@ == old(self).events@,
            final(self).config == old(self).config,
            old(self).inventories@.len() <= final(self).inventories@.len(),
            forall|q: int|
                0 <= q < old(self).inventories@.len() ==> final(self).inventories@[q] == old(
                    self,
                ).inventories@[q],
            forall|a: u64| final(self).spec_inventory(a) == old(self).spec_inventory(a),
    {
        match self.find_inventory_index(who) {
            Some(i) => i,
            None => {
                let i = self.inventories.len();
                self.inventories.push(Inventory { owner: who, kitties: Vec::new() });
                proof {
                    let pre = old(self).inventories@;
                    let post = self.inventories@;
                    assert(self.inventories_wf()) by {
                        assert forall|a: int, b: int| 0 <= a < b < post.len() implies post[a].owner
                            != post[b].owner by {
                            if b == post.len() - 1 {
                                assert(!inv_match(pre, who, a));
                            }
                        }
                    }
                    assert forall|a: u64|
                        self.spec_inventory(a) == old(self).spec_inventory(a) by {
                        if a == who {
                            self.lemma_inv_found(a, i as int);
                            assert(genomes_of(post[i as int].kitties@)
                                =~= Seq::<Seq<u8>>::empty());
                            assert(forall|k: int| !inv_match(pre, a, k));
                        } else {
                            if exists|k: int| inv_match(pre, a, k) {
                                let k = choose|k: int| inv_match(pre, a, k);
                                old(self).lemma_inv_found(a, k);
                                assert(inv_match(post, a, k));
                                self.lemma_inv_found(a, k);
                            } else {
                                assert forall|k: int| !inv_match(post, a, k) by {
                                    if inv_match(post, a, k) && k < pre.len() {
                                        assert(inv_match(pre, a, k));
                                    }
                                }
                            }
                        }
                    }
                }
                i
            },
        }
    }

    /// Reserves the configured collateral from `who` and records a
    /// `TokenStake` event; fails with `TokenNotEnough`, changing nothing,
    /// when `who`'s free balance does not cover it. The registry's maps are
    /// never touched.
    pub fn stake(&mut self, balances: &mut Balances, who: u64) -> (r: Result<(), Error>)
        requires
            old(self).wf(),
            old(balances).wf(),
        ensures
            final(self).wf(),
            final(balances).wf(),
            r == if old(balances).free(who) >= old(self).spec_kitty_reserve() {
                Ok::<(), Error>(())
            } else {
                Err::<(), Error>(Error::TokenNotEnough)
            },
            final(self).spec_kitties() == old(self).spec_kitties(),
            final(self).spec_owners() == old(self).spec_owners(),
            forall|a: u64| final(self).spec_inventory(a) == old(self).spec_inventory(a),
            final(self).spec_max_length() == old(self).spec_max_length(),
            final(self).spec_kitty_reserve() == old(self).spec_kitty_reserve(),
            r is Ok ==> final(balances).free(who) == old(balances).free(who)
                - old(self).spec_kitty_reserve()
                && final(balances).reserved(who) == old(balances).reserved(who)
                + old(self).spec_kitty_reserve(),
            r is Ok ==> forall|a: u64|
                a != who ==> final(balances).free(a) == old(balances).free(a)
                    && final(balances).reserved(a) == old(balances).reserved(a),
            r is Ok ==> final(self).spec_events() == old(self).spec_events().push(
                Event::TokenStake(who),
            ),
            r is Err ==> same_balances(*old(balances), *final(balances))
                && final(self).spec_events() == old(self).spec_events(),
    {
        match balances.reserve(who, self.config.kitty_reserve) {
            Ok(()) => {
                self.events.push(Event::TokenStake(who));
                proof {
                    lemma_same_registry(*old(self), *self);
                }
                Ok(())
            },
            Err(()) => Err(Error::TokenNotEnough),
        }
    }

    /// Appends `kitty`'s genome to `who`'s inventory; fails with
    /// `ExceedMaxKittyOwned`, changing nothing, when the inventory is at
    /// capacity. Only the inventories are touched: the caller is responsible
    /// for keeping them consistent with the owner entries.
    pub fn add_kitty_to_map(&mut self, who: u64, kitty: &Kitty) -> (r: Result<(), Error>)
        requires
            old(self).inventories_wf(),
        ensures
            final(self).inventories_wf(),
            final(self).spec_kitties() == old(self).spec_kitties(),
            final(self).spec_owners() == old(self).spec_owners(),
            final(self).spec_events() == old(self).spec_events(),
            final(self).spec_max_length() == old(self).spec_max_length(),
            final(self).spec_kitty_reserve() == old(self).spec_kitty_reserve(),
            r == if old(self).spec_inventory(who).len() >= old(self).spec_max_length() {
                Err::<(), Error>(Error::ExceedMaxKittyOwned)
            } else {
                Ok::<(), Error>(())
            },
            r is Ok ==> final(self).spec_inventory(who) == old(self).spec_inventory(who).push(
                kitty.0@,
            ),
            r is Ok ==> forall|a: u64|
                a != who ==> final(self).spec_inventory(a) == old(self).spec_inventory(a),
            r is Err ==> forall|a: u64|
                final(self).spec_inventory(a) == old(self).spec_inventory(a),
    {
        let i = self.inventory_entry_index(who);
        let ghost mid = *self;
        proof {
            self.lemma_inv_found(who, i as int);
        }
        if self.inventories[i].kitties.len() >= self.config.max_length as usize {
            return Err(Error::ExceedMaxKittyOwned);
        }
        let entry = &mut self.inventories[i];
        entry.kitties.push(*kitty);
        proof {
            self.lemma_inv_update(mid, i as int, who);
            assert(self.spec_inventory(who) =~= mid.spec_inventory(who).push(kitty.0@));
        }
        Ok(())
    }
}

/// Two registries with equal maps have equal views.
proof fn lemma_same_registry(p1: Pallet, p2: Pallet)
    requires
        p1.kitties@ == p2.kitties@,
        p1.owners@ == p2.owners@,
        p1.inventories@ == p2.inventories@,
        p1.config == p2.config,
    ensures
        p1.spec_kitties() == p2.spec_kitties(),
        p1.spec_owners() == p2.spec_owners(),
        forall|a: u64| #[trigger] p1.spec_inventory(a) == p2.spec_inventory(a),
        p1.consistent() == p2.consistent(),
        p1.inventories_wf() == p2.inventories_wf(),
{
    assert forall|a: u64| #[trigger] p1.spec_inventory(a) == p2.spec_inventory(a) by {}
    assert forall|a: u64, x: Seq<u8>| p1.inv_count(a, x) == p2.inv_count(a, x) by {}
    if p1.consistent() {
        assert(p2.consistent()) by {
            assert forall|a: u64, x: Seq<u8>|
                #[trigger] p2.inv_count(a, x) == owned_count(
                    p2.spec_kitties(),
                    p2.spec_owners(),
                    a,
                    x,
                ) by {
                assert(p1.inv_count(a, x) == owned_count(p1.spec_kitties(), p1.spec_owners(), a, x));
            }
        }
    }
    if p2.consistent() {
        assert(p1.consistent()) by {
            assert forall|a: u64, x: Seq<u8>|
                #[trigger] p1.inv_count(a, x) == owned_count(
                    p1.spec_kitties(),
                    p1.spec_owners(),
                    a,
                    x,
                ) by {
                assert(p2.inv_count(a, x) == owned_count(p2.spec_kitties(), p2.spec_owners(), a, x));
            }
        }
    }
}

/// Whether `e` records the creation of a creature with the given owner, id
/// and genome.
pub open spec fn is_kitty_created(e: Event, who: u64, id: u32, genome: Seq<u8>) -> bool {
    match e {
        Event::KittyCreated(w, i, k) => w == who && i == id && k.0@ == genome,
        _ => false,
    }
}

/// What `create` returns: the id space is checked first, then the caller's
/// balance, then the caller's inventory capacity.
pub open spec fn create_outcome(p: Pallet, b: Balances, who: u64) -> Result<(), Error> {
    if p.spec_next_kitty_id() == u32::MAX {
        Err(Error::InvalidKittyId)
    } else if b.free(who) < p.spec_kitty_reserve() {
        Err(Error::TokenNotEnough)
    } else if p.spec_inventory(who).len() >= p.spec_max_length() {
        Err(Error::ExceedMaxKittyOwned)
    } else {
        Ok(())
    }
}

/// What `breed` returns: distinct parents first, then both parents'
/// existence, then the id space, the caller's balance and the caller's
/// inventory capacity.
pub open spec fn breed_outcome(
    p: Pallet,
    b: Balances,
    who: u64,
    kitty_id_1: u32,
    kitty_id_2: u32,
) -> Result<(), Error> {
    if kitty_id_1 == kitty_id_2 {
        Err(Error::SameKittyId)
    } else if kitty_id_1 >= p.spec_kitties().len() || kitty_id_2 >= p.spec_kitties().len() {
        Err(Error::InvalidKittyId)
    } else if p.spec_next_kitty_id() == u32::MAX {
        Err(Error::InvalidKittyId)
    } else if b.free(who) < p.spec_kitty_reserve() {
        Err(Error::TokenNotEnough)
    } else if p.spec_inventory(who).len() >= p.spec_max_length() {
        Err(Error::ExceedMaxKittyOwned)
    } else {
        Ok(())
    }
}

/// What `transfer` returns: the creature's existence is checked first, then
/// the caller's ownership, then the recipient's balance and inventory
/// capacity (net of the entry the caller gives up when transferring to
/// itself).
pub open spec fn transfer_outcome(
    p: Pallet,
    b: Balances,
    who: u64,
    kitty_id: u32,
    new_owner: u64,
) -> Result<(), Error> {
    if kitty_id >= p.spec_kitties().len() {
        Err(Error::InvalidKittyId)
    } else if p.spec_owners()[kitty_id as int] != who {
        Err(Error::NotOwner)
    } else if b.free(new_owner) < p.spec_kitty_reserve() {
        Err(Error::TokenNotEnough)
    } else if p.spec_inventory(new_owner).len() - (if new_owner == who {
        1int
    } else {
        0int
    }) >= p.spec_max_length() {
        Err(Error::ExceedMaxKittyOwned)
    } else {
        Ok(())
    }
}

/// A pseudo-random 16-byte value: the Blake2b digest of the per-block seed,
/// the caller and the per-block transaction counter.
fn random_value(sender: u64, seed: &[u8; 32], nonce: Option<u32>) -> (r: [u8; 16])
    ensures
        r@ == blake2_128_of(payload_of(seed@, sender, nonce)),
{
    let mut payload: Vec<u8> = Vec::new();
    let mut i: usize = 0;
    while i < 32
        invariant
            i <= 32,
            payload@ == seed@.take(i as int),
        decreases 32 - i,
    {
        payload.push(seed[i]);
        proof {
            assert(payload@ =~= seed@.take(i + 1));
        }
        i = i + 1;
    }
    proof {
        assert(payload@ =~= seed@);
    }
    let mut sender_bytes = u64_to_le_bytes(sender);
    payload.append(&mut sender_bytes);
    match nonce {
        Some(n) => {
            payload.push(1u8);
            let mut nonce_bytes = u32_to_le_bytes(n);
            payload.append(&mut nonce_bytes);
            proof {
                assert(payload@ =~= payload_of(seed@, sender, nonce));
            }
        },
        None => {
            payload.push(0u8);
            proof {
                assert(payload@ =~= payload_of(seed@, sender, nonce));
            }
        },
    }
    blake2_128(payload.as_slice())
}

/// Two registries with equal inventories agree on every account's inventory.
proof fn lemma_same_inventories(p1: Pallet, p2: Pallet)
    requires
        p1.inventories@ == p2.inventories@,
        p1.config == p2.config,
    ensures
        forall|a: u64| #[trigger] p1.spec_inventory(a) == p2.spec_inventory(a),
        p1.inventories_wf() == p2.inventories_wf(),
{
    assert forall|a: u64| #[trigger] p1.spec_inventory(a) == p2.spec_inventory(a) by {}
}

impl Pallet {
    /// The shared commit of `create` and `breed`: reserves the collateral,
    /// registers the creature under the next id for `who`, appends it to
    /// `who`'s inventory, and records the `TokenStake` and `KittyCreated`
    /// events.
    fn mint(&mut self, balances: &mut Balances, who: u64, kitty: Kitty) -> (kitty_id: u32)
        requires
            old(self).wf(),
            old(balances).wf(),
            old(self).spec_next_kitty_id() < u32::MAX,
            old(balances).free(who) >= old(self).spec_kitty_reserve(),
            old(self).spec_inventory(who).len() < old(self).spec_max_length(),
        ensures
            final(self).wf(),
            final(balances).wf(),
            kitty_id == old(self).spec_next_kitty_id(),
            final(self).spec_kitties() == old(self).spec_kitties().push(kitty.0@),
            final(self).spec_owners() == old(self).spec_owners().push(who),
            final(self).spec_inventory(who) == old(self).spec_inventory(who).push(kitty.0@),
            forall|a: u64|
                a != who ==> final(self).spec_inventory(a) == old(self).spec_inventory(a),
            final(self).spec_events() == old(self).spec_events().push(Event::TokenStake(who)).push(
                Event::KittyCreated(who, kitty_id, kitty),
            ),
            final(self).spec_max_length() == old(self).spec_max_length(),
            final(self).spec_kitty_reserve() == old(self).spec_kitty_reserve(),
            final(balances).free(who) == old(balances).free(who)
                - old(self).spec_kitty_reserve(),
            final(balances).reserved(who) == old(balances).reserved(who)
                + old(self).spec_kitty_reserve(),
            forall|a: u64|
                a != who ==> final(balances).free(a) == old(balances).free(a)
                    && final(balances).reserved(a) == old(balances).reserved(a),
    {
        let kitty_id = self.kitties.len() as u32;
        let stake_result = self.stake(balances, who);
        proof {
            assert(stake_result is Ok);
        }
        let ghost s1 = *self;
        self.kitties.push(kitty);
        self.owners.push(who);
        let ghost s2 = *self;
        proof {
            lemma_same_inventories(s1, s2);
        }
        let add_result = self.add_kitty_to_map(who, &kitty);
        proof {
            assert(add_result is Ok);
        }
        let ghost s3 = *self;
        self.events.push(Event::KittyCreated(who, kitty_id, kitty));
        proof {
            broadcast use vstd::seq_lib::group_to_multiset_ensures;
            broadcast use vstd::multiset::group_multiset_axioms;

            lemma_same_inventories(s3, *self);
            assert(s2.spec_kitties() =~= s1.spec_kitties().push(kitty.0@));
            assert(s2.spec_owners() == s1.spec_owners().push(who));
            assert(self.spec_kitties() == s3.spec_kitties());
            assert(self.spec_owners() == s3.spec_owners());
            assert(self.spec_kitties() == old(self).spec_kitties().push(kitty.0@));
            assert(self.spec_owners() == old(self).spec_owners().push(who));
            assert(self.spec_events() == old(self).spec_events().push(Event::TokenStake(who)).push(
                Event::KittyCreated(who, kitty_id, kitty),
            ));
            let g0 = old(self).spec_kitties();
            let o0 = old(self).spec_owners();
            assert forall|a: u64, x: Seq<u8>|
                #[trigger] self.inv_count(a, x) == owned_count(
                    self.spec_kitties(),
                    self.spec_owners(),
                    a,
                    x,
                ) by {
                lemma_owned_push(g0, o0, who, kitty.0@, a, x);
                assert(old(self).inv_count(a, x) == owned_count(g0, o0, a, x));
                if a == who {
                    assert(self.spec_inventory(a) == old(self).spec_inventory(a).push(kitty.0@));
                    assert(self.spec_inventory(a).to_multiset() =~= old(self).spec_inventory(
                        a,
                    ).to_multiset().insert(kitty.0@));
                } else {
                    assert(self.spec_inventory(a) == old(self).spec_inventory(a));
                }
            }
            assert(self.wf());
        }
        kitty_id
    }

    /// Mints a new creature for `who` with a pseudo-random genome derived
    /// from the per-block seed and transaction counter, against the
    /// configured collateral.
    ///
    /// Fails with `InvalidKittyId` when the id space is exhausted, with
    /// `TokenNotEnough` when `who`'s free balance does not cover the
    /// collateral, and with `ExceedMaxKittyOwned` when `who`'s inventory is
    /// full, in that order of checks; on failure nothing changes. On success
    /// the new creature carries the next id and the derived genome, `who`'s
    /// inventory gains that genome, the collateral moves from free to
    /// reserved, and `TokenStake` and `KittyCreated` events are recorded.
    pub fn create(
        &mut self,
        balances: &mut Balances,
        who: u64,
        seed: &[u8; 32],
        nonce: Option<u32>,
    ) -> (r: Result<(), Error>)
        requires
            old(self).wf(),
            old(balances).wf(),
        ensures
            final(self).wf(),
            final(balances).wf(),
            final(self).spec_max_length() == old(self).spec_max_length(),
            final(self).spec_kitty_reserve() == old(self).spec_kitty_reserve(),
            r == create_outcome(*old(self), *old(balances), who),
            r is Ok ==> ({
                let g = blake2_128_of(payload_of(seed@, who, nonce));
                &&& final(self).spec_kitties() == old(self).spec_kitties().push(g)
                &&& final(self).spec_owners() == old(self).spec_owners().push(who)
                &&& final(self).spec_inventory(who) == old(self).spec_inventory(who).push(g)
                &&& (forall|a: u64|
                    a != who ==> final(self).spec_inventory(a) == old(self).spec_inventory(a))
                &&& final(balances).free(who) == old(balances).free(who)
                    - old(self).spec_kitty_reserve()
                &&& final(balances).reserved(who) == old(balances).reserved(who)
                    + old(self).spec_kitty_reserve()
                &&& (forall|a: u64|
                    a != who ==> final(balances).free(a) == old(balances).free(a)
                        && final(balances).reserved(a) == old(balances).reserved(a))
                &&& final(self).spec_events().len() == old(self).spec_events().len() + 2
                &&& old(self).spec_events().is_prefix_of(final(self).spec_events())
                &&& final(self).spec_events()[final(self).spec_events().len() - 2]
                    == Event::TokenStake(who)
                &&& is_kitty_created(
                    final(self).spec_events().last(),
                    who,
                    old(self).spec_next_kitty_id() as u32,
                    g,
                )
            }),
            r is Err ==> same_state(*old(self), *final(self)) && same_balances(
                *old(balances),
                *final(balances),
            ),
    {
        let kitty_id = match self.get_next_id() {
            Ok(id) => id,
            Err(()) => {
                return Err(Error::InvalidKittyId);
            },
        };
        if !balances.can_reserve(who, self.config.kitty_reserve) {
            return Err(Error::TokenNotEnough);
        }
        if self.inventory_len(who) >= self.config.max_length as usize {
            return Err(Error::ExceedMaxKittyOwned);
        }
        let dna = random_value(who, seed, nonce);
        let kitty = Kitty(dna);
        let _minted = self.mint(balances, who, kitty);
        proof {
            let events = self.spec_events();
            assert(events.take(old(self).spec_events().len() as int) =~= old(self).spec_events());
        }
        Ok(())
    }

    /// Breeds a child of two distinct existing creatures for `who`: a
    /// bitwise uniform crossover of the parents' genomes under a
    /// pseudo-random selector, minted against the configured collateral.
    ///
    /// Fails with `SameKittyId` when the parents are the same id, with
    /// `InvalidKittyId` when a parent is unknown or the id space is
    /// exhausted, with `TokenNotEnough` when `who`'s free balance does not
    /// cover the collateral, and with `ExceedMaxKittyOwned` when `who`'s
    /// inventory is full, in that order of checks; on failure nothing
    /// changes.
    pub fn breed(
        &mut self,
        balances: &mut Balances,
        who: u64,
        kitty_id_1: u32,
        kitty_id_2: u32,
        seed: &[u8; 32],
        nonce: Option<u32>,
    ) -> (r: Result<(), Error>)
        requires
            old(self).wf(),
            old(balances).wf(),
        ensures
            final(self).wf(),
            final(balances).wf(),
            final(self).spec_max_length() == old(self).spec_max_length(),
            final(self).spec_kitty_reserve() == old(self).spec_kitty_reserve(),
            r == breed_outcome(*old(self), *old(balances), who, kitty_id_1, kitty_id_2),
            r is Ok ==> ({
                let sel = blake2_128_of(payload_of(seed@, who, nonce));
                let g = crossover_genome(
                    old(self).spec_kitties()[kitty_id_1 as int],
                    old(self).spec_kitties()[kitty_id_2 as int],
                    sel,
                );
                &&& final(self).spec_kitties() == old(self).spec_kitties().push(g)
                &&& final(self).spec_owners() == old(self).spec_owners().push(who)
                &&& final(self).spec_inventory(who) == old(self).spec_inventory(who).push(g)
                &&& (forall|a: u64|
                    a != who ==> final(self).spec_inventory(a) == old(self).spec_inventory(a))
                &&& final(balances).free(who) == old(balances).free(who)
                    - old(self).spec_kitty_reserve()
                &&& final(balances).reserved(who) == old(balances).reserved(who)
                    + old(self).spec_kitty_reserve()
                &&& (forall|a: u64|
                    a != who ==> final(balances).free(a) == old(balances).free(a)
                        && final(balances).reserved(a) == old(balances).reserved(a))
                &&& final(self).spec_events().len() == old(self).spec_events().len() + 2
                &&& old(self).spec_events().is_prefix_of(final(self).spec_events())
                &&& final(self).spec_events()[final(self).spec_events().len() - 2]
                    == Event::TokenStake(who)
                &&& is_kitty_created(
                    final(self).spec_events().last(),
                    who,
                    old(self).spec_next_kitty_id() as u32,
                    g,
                )
            }),
            r is Err ==> same_state(*old(self), *final(self)) && same_balances(
                *old(balances),
                *final(balances),
            ),
    {
        if kitty_id_1 == kitty_id_2 {
            return Err(Error::SameKittyId);
        }
        let kitty_1 = match self.get_kitty(kitty_id_1) {
            Ok(k) => k,
            Err(()) => {
                return Err(Error::InvalidKittyId);
            },
        };
        let kitty_2 = match self.get_kitty(kitty_id_2) {
            Ok(k) => k,
            Err(()) => {
                return Err(Error::InvalidKittyId);
            },
        };
        let kitty_id = match self.get_next_id() {
            Ok(id) => id,
            Err(()) => {
                return Err(Error::InvalidKittyId);
            },
        };
        if !balances.can_reserve(who, self.config.kitty_reserve) {
            return Err(Error::TokenNotEnough);
        }
        if self.inventory_len(who) >= self.config.max_length as usize {
            return Err(Error::ExceedMaxKittyOwned);
        }
        let selector = random_value(who, seed, nonce);
        let new_kitty = crossover(&kitty_1, &kitty_2, &selector);
        let _minted = self.mint(balances, who, new_kitty);
        proof {
            let events = self.spec_events();
            assert(events.take(old(self).spec_events().len() as int) =~= old(self).spec_events());
        }
        Ok(())
    }
}

/// Genome equality, the inventory lookup comparison.
fn kitty_eq(a: &Kitty, b: &Kitty) -> (r: bool)
    ensures
        r <==> a.0@ == b.0@,
{
    let mut i: usize = 0;
    while i < 16
        invariant
            i <= 16,
            forall|j: int| 0 <= j < i ==> a.0@[j] == b.0@[j],
        decreases 16 - i,
    {
        if a.0[i] != b.0[i] {
            return false;
        }
        i = i + 1;
    }
    proof {
        assert(a.0@ =~= b.0@);
    }
    true
}

/// The first inventory position holding `target`'s genome, if any does.
fn find_kitty_position(ks: &Vec<Kitty>, target: &Kitty) -> (r: Option<usize>)
    ensures
        match r {
            Some(p) => p < ks@.len() && ks@[p as int].0@ == target.0@,
            None => forall|i: int| 0 <= i < ks@.len() ==> ks@[i].0@ != target.0@,
        },
{
    let mut i: usize = 0;
    while i < ks.len()
        invariant
            i <= ks@.len(),
            forall|j: int| 0 <= j < i ==> ks@[j].0@ != target.0@,
        decreases ks@.len() - i,
    {
        if kitty_eq(&ks[i], target) {
            return Some(i);
        }
        i = i + 1;
    }
    None
}

/// Removing one creature removes its genome at the same position.
proof fn lemma_genomes_remove(ks: Seq<Kitty>, p: int)
    requires
        0 <= p < ks.len(),
    ensures
        genomes_of(ks.remove(p)) =~= genomes_of(ks).remove(p),
{
}

/// Appending one creature appends its genome.
proof fn lemma_genomes_push(ks: Seq<Kitty>, k: Kitty)
    ensures
        genomes_of(ks.push(k)) =~= genomes_of(ks).push(k.0@),
{
}

impl Pallet {
    /// Moves the creature registered under `kitty_id` from the caller to
    /// `new_owner`, along with its collateral: the configured amount is
    /// reserved from `new_owner` and unreserved from the caller, the
    /// creature's genome moves from the caller's inventory to `new_owner`'s,
    /// and `TokenStake` and `KittyTransferred` events are recorded.
    ///
    /// Fails with `InvalidKittyId` when the creature is unknown, with
    /// `NotOwner` when the caller does not own it, with `TokenNotEnough`
    /// when `new_owner`'s free balance does not cover the collateral, and
    /// with `ExceedMaxKittyOwned` when `new_owner`'s inventory is full, in
    /// that order of checks; on failure nothing changes.
    pub fn transfer(
        &mut self,
        balances: &mut Balances,
        who: u64,
        kitty_id: u32,
        new_owner: u64,
    ) -> (r: Result<(), Error>)
        requires
            old(self).wf(),
            old(balances).wf(),
        ensures
            final(self).wf(),
            final(balances).wf(),
            final(self).spec_max_length() == old(self).spec_max_length(),
            final(self).spec_kitty_reserve() == old(self).spec_kitty_reserve(),
            r == transfer_outcome(*old(self), *old(balances), who, kitty_id, new_owner),
            r is Ok ==> ({
                let g = old(self).spec_kitties()[kitty_id as int];
                let res = old(self).spec_kitty_reserve();
                &&& final(self).spec_kitties() == old(self).spec_kitties()
                &&& final(self).spec_owners() == old(self).spec_owners().update(
                    kitty_id as int,
                    new_owner,
                )
                &&& (forall|a: u64|
                    a != who && a != new_owner ==> final(self).spec_inventory(a) == old(
                        self,
                    ).spec_inventory(a))
                &&& (new_owner != who ==> final(self).spec_inventory(who).to_multiset() == old(
                    self,
                ).spec_inventory(who).to_multiset().remove(g))
                &&& (new_owner != who ==> final(self).spec_inventory(new_owner).to_multiset()
                    == old(self).spec_inventory(new_owner).to_multiset().insert(g))
                &&& (new_owner == who ==> final(self).spec_inventory(who).to_multiset() == old(
                    self,
                ).spec_inventory(who).to_multiset())
                &&& (new_owner != who ==> {
                    &&& final(balances).free(new_owner) == old(balances).free(new_owner) - res
                    &&& final(balances).reserved(new_owner) == old(balances).reserved(new_owner)
                        + res
                    &&& final(balances).free(who) == old(balances).free(who) + spec_min(
                        res as int,
                        old(balances).reserved(who) as int,
                    )
                    &&& final(balances).reserved(who) == old(balances).reserved(who) - spec_min(
                        res as int,
                        old(balances).reserved(who) as int,
                    )
                })
                &&& (new_owner == who ==> same_balances(*old(balances), *final(balances)))
                &&& (forall|a: u64|
                    a != who && a != new_owner ==> final(balances).free(a) == old(balances).free(a)
                        && final(balances).reserved(a) == old(balances).reserved(a))
                &&& final(self).spec_events() == old(self).spec_events().push(
                    Event::TokenStake(new_owner),
                ).push(Event::KittyTransferred(who, new_owner, kitty_id))
            }),
            r is Err ==> same_state(*old(self), *final(self)) && same_balances(
                *old(balances),
                *final(balances),
            ),
    {
        let existing_kitty = match self.get_kitty(kitty_id) {
            Ok(k) => k,
            Err(()) => {
                return Err(Error::InvalidKittyId);
            },
        };
        let ghost g = existing_kitty.0@;
        let owner = self.owners[kitty_id as usize];
        if owner != who {
            return Err(Error::NotOwner);
        }
        if !balances.can_reserve(new_owner, self.config.kitty_reserve) {
            return Err(Error::TokenNotEnough);
        }
        proof {
            broadcast use vstd::seq_lib::group_to_multiset_ensures;
            broadcast use vstd::multiset::group_multiset_axioms;

            lemma_owned_count_at(self.spec_kitties(), self.spec_owners(), kitty_id as int);
            assert(self.inv_count(who, g) >= 1);
            assert(self.spec_inventory(who).to_multiset().contains(g));
            assert(self.spec_inventory(who).contains(g));
            assert(self.spec_inventory(who).len() >= 1);
        }
        let target_len = self.inventory_len(new_owner);
        let effective = if new_owner == who {
            target_len - 1
        } else {
            target_len
        };
        if effective >= self.config.max_length as usize {
            return Err(Error::ExceedMaxKittyOwned);
        }
        let stake_result = self.stake(balances, new_owner);
        proof {
            assert(stake_result is Ok);
        }
        let ghost s1 = *self;
        let j = match self.find_inventory_index(who) {
            Some(j) => j,
            None => {
                proof {
                    assert(self.spec_inventory(who) == Seq::<Seq<u8>>::empty());
                    assert(false);
                }
                return Err(Error::NotOwner);
            },
        };
        let p = match find_kitty_position(&self.inventories[j].kitties, &existing_kitty) {
            Some(p) => p,
            None => {
                proof {
                    broadcast use vstd::seq_lib::group_to_multiset_ensures;
                    broadcast use vstd::multiset::group_multiset_axioms;

                    self.lemma_inv_found(who, j as int);
                    assert(self.spec_inventory(who).contains(g));
                    let idx = choose|idx: int|
                        0 <= idx < self.spec_inventory(who).len() && self.spec_inventory(who)[idx]
                            == g;
                    assert(self.inventories@[j as int].kitties@[idx].0@ == g);
                    assert(false);
                }
                return Err(Error::NotOwner);
            },
        };
        proof {
            self.lemma_inv_found(who, j as int);
        }
        let ghost mid = *self;
        let entry = &mut self.inventories[j];
        let _removed = entry.kitties.remove(p);
        proof {
            broadcast use vstd::seq_lib::group_to_multiset_ensures;
            broadcast use vstd::multiset::group_multiset_axioms;

            self.lemma_inv_update(mid, j as int, who);
            lemma_genomes_remove(mid.inventories@[j as int].kitties@, p as int);
            assert(self.spec_inventory(who) == genomes_of(
                mid.inventories@[j as int].kitties@,
            ).remove(p as int));
            assert(self.inventories_wf()) by {
                assert forall|k: int|
                    0 <= k < self.inventories@.len() implies #[trigger] self.inventories@[k].kitties@.len()
                    <= self.config.max_length by {
                    if k != j as int {
                        assert(self.inventories@[k] == mid.inventories@[k]);
                    }
                }
            }
        }
        let ghost s2 = *self;
        balances.unreserve(who, self.config.kitty_reserve);
        let owner_slot = &mut self.owners[kitty_id as usize];
        *owner_slot = new_owner;
        let ghost s4 = *self;
        proof {
            lemma_same_inventories(s2, s4);
        }
        let k = self.inventory_entry_index(new_owner);
        let ghost s5 = *self;
        proof {
            self.lemma_inv_found(new_owner, k as int);
            if new_owner == who {
                assert(inv_match(s5.inventories@, who, j as int));
                assert(k as int == j as int) by {
                    if k as int != j as int {
                        if (k as int) < (j as int) {
                            assert(s5.inventories@[k as int].owner != s5.inventories@[j as int].owner);
                        } else {
                            assert(s5.inventories@[j as int].owner != s5.inventories@[k as int].owner);
                        }
                    }
                }
            }
        }
        let entry2 = &mut self.inventories[k];
        entry2.kitties.push(existing_kitty);
        proof {
            self.lemma_inv_update(s5, k as int, new_owner);
            lemma_genomes_push(s5.inventories@[k as int].kitties@, existing_kitty);
            assert(self.spec_inventory(new_owner) == s5.spec_inventory(new_owner).push(g));
        }
        let ghost s6 = *self;
        self.events.push(Event::KittyTransferred(who, new_owner, kitty_id));
        proof {
            broadcast use vstd::seq_lib::group_to_multiset_ensures;
            broadcast use vstd::multiset::group_multiset_axioms;

            lemma_same_inventories(s6, *self);
            let g0 = old(self).spec_kitties();
            let o0 = old(self).spec_owners();
            let id = kitty_id as int;
            assert(self.spec_kitties() =~= g0);
            assert(self.spec_owners() == o0.update(id, new_owner));
            assert(self.spec_events() == old(self).spec_events().push(
                Event::TokenStake(new_owner),
            ).push(Event::KittyTransferred(who, new_owner, kitty_id)));

            // The inventory changes, seen per account at the multiset level.
            let inv0 = old(self).spec_inventory(who);
            assert(s1.spec_inventory(who) == inv0);
            assert(s2.spec_inventory(who).to_multiset() =~= inv0.to_multiset().remove(g)) by {
                assert(genomes_of(mid.inventories@[j as int].kitties@) == inv0);
                assert(inv0[p as int] == g);
                assert(inv0.remove(p as int).to_multiset() =~= inv0.to_multiset().remove(g));
            }
            if new_owner == who {
                assert(k == j);
                assert(s5.spec_inventory(who) == s2.spec_inventory(who));
                assert(self.spec_inventory(who).to_multiset() =~= inv0.to_multiset()) by {
                    assert(self.spec_inventory(who) == s5.spec_inventory(who).push(g));
                    assert(inv0.to_multiset().count(g) >= 1);
                }
            } else {
                assert(self.spec_inventory(who).to_multiset() == inv0.to_multiset().remove(g)) by {
                    assert(s5.spec_inventory(who) == s2.spec_inventory(who));
                    assert(self.spec_inventory(who) == s5.spec_inventory(who));
                }
                assert(self.spec_inventory(new_owner).to_multiset() =~= old(self).spec_inventory(
                    new_owner,
                ).to_multiset().insert(g)) by {
                    assert(s5.spec_inventory(new_owner) == old(self).spec_inventory(new_owner));
                }
            }
            assert forall|a: u64|
                a != who && a != new_owner implies self.spec_inventory(a) == old(
                self,
            ).spec_inventory(a) by {
                assert(s2.spec_inventory(a) == s1.spec_inventory(a));
                assert(s5.spec_inventory(a) == s2.spec_inventory(a));
                assert(self.spec_inventory(a) == s5.spec_inventory(a));
            }

            // Consistency: the owner rewrite moves exactly one count of the
            // creature's genome from the caller to the new owner.
            assert forall|a: u64, x: Seq<u8>|
                #[trigger] self.inv_count(a, x) == owned_count(
                    self.spec_kitties(),
                    self.spec_owners(),
                    a,
                    x,
                ) by {
                lemma_owned_update(g0, o0, id, new_owner, a, x);
                assert(old(self).inv_count(a, x) == owned_count(g0, o0, a, x));
                assert(owned_count(self.spec_kitties(), self.spec_owners(), a, x) == owned_count(
                    g0,
                    o0.update(id, new_owner),
                    a,
                    x,
                ));
                if a == who && a == new_owner {
                } else if a == who {
                    assert(self.inv_count(a, x) == old(self).inv_count(a, x) - (if x == g {
                        1int
                    } else {
                        0int
                    })) by {
                        assert(old(self).inv_count(a, g) >= 1);
                    }
                } else if a == new_owner {
                    assert(self.inv_count(a, x) == old(self).inv_count(a, x) + (if x == g {
                        1int
                    } else {
                        0int
                    }));
                } else {
                }
            }
            assert(self.wf());
        }
        Ok(())
    }
}

/// Id monotonicity: a successful mint issues the registry's next id and
/// appends the new creature behind the existing ones, so ids issued by
/// successive mints strictly increase, and no creature's id or genome is
/// ever rewritten by a mint.
pub proof fn lemma_id_monotonicity(p0: Pallet, p1: Pallet, p2: Pallet, id1: int, id2: int)
    requires
        id1 == p0.spec_next_kitty_id(),
        exists|g: Seq<u8>| p1.spec_kitties() == p0.spec_kitties().push(g),
        id2 == p1.spec_next_kitty_id(),
        exists|g: Seq<u8>| p2.spec_kitties() == p1.spec_kitties().push(g),
    ensures
        id1 < id2,
        id2 == id1 + 1,
        0 <= id1 < p2.spec_kitties().len(),
        0 <= id2 < p2.spec_kitties().len(),
        forall|i: int|
            0 <= i < p0.spec_kitties().len() ==> p2.spec_kitties()[i] == p0.spec_kitties()[i],
{
    let g1 = choose|g: Seq<u8>| p1.spec_kitties() == p0.spec_kitties().push(g);
    let g2 = choose|g: Seq<u8>| p2.spec_kitties() == p1.spec_kitties().push(g);
    assert(p1.spec_kitties() == p0.spec_kitties().push(g1));
    assert(p2.spec_kitties() == p1.spec_kitties().push(g2));
}

} // verus!
