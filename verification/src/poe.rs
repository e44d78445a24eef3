use vstd::map::*;
use vstd::prelude::*;

verus! {

/// Host-supplied configuration for the claim registry.
pub struct Config {
    /// The maximum length of a fingerprint that can be claimed.
    pub max_claim_length: u32,
}

/// Terminal rejections of a claim operation; no state changes on any of them.
#[derive(Clone, Copy, Debug, PartialEq, Eq, Structural)]
pub enum Error {
    /// The fingerprint is already registered.
    ProofAlreadyExist,
    /// The operation targets an unregistered fingerprint.
    ClaimNotExist,
    /// The caller is not the fingerprint's current owner.
    NotClaimOwner,
    /// The fingerprint exceeds the configured maximum length.
    ClaimTooLong,
}

/// Domain events the claim registry emits.
///
/// `ClaimTransfered` is declared but never emitted: the transfer path of the
/// registry records no event.
#[derive(Clone, Debug, PartialEq, Eq)]
pub enum Event {
    ClaimCreated(u64, Vec<u8>),
    ClaimRevoked(u64, Vec<u8>),
    ClaimTransfered(u64, Vec<u8>, u64),
}

/// One live claim: the fingerprint is the unique key.
struct Claim {
    fingerprint: Vec<u8>,
    owner: u64,
    registered_at: u64,
}

/// The claim registry: at most one live claim per fingerprint; only the
/// current owner may revoke or transfer it.
pub struct Pallet {
    config: Config,
    claims: Vec<Claim>,
    events: Vec<Event>,
}

spec fn fp_match(claims: Seq<Claim>, f: Seq<u8>, i: int) -> bool {
    0 <= i < claims.len() && claims[i].fingerprint@ == f
}

/// What `create_claim` returns on a registry whose claims are `m` under
/// maximum length `max`: the length bound is checked first, then freshness.
pub open spec fn create_claim_outcome(m: Map<Seq<u8>, (u64, u64)>, max: u32, f: Seq<u8>) -> Result<
    (),
    Error,
> {
    if f.len() > max {
        Err(Error::ClaimTooLong)
    } else if m.contains_key(f) {
        Err(Error::ProofAlreadyExist)
    } else {
        Ok(())
    }
}

/// What `revoke_claim` and `transfer_claim` return for caller `who`: the
/// length bound is checked first, then existence, then authorization.
pub open spec fn alter_claim_outcome(
    m: Map<Seq<u8>, (u64, u64)>,
    max: u32,
    f: Seq<u8>,
    who: u64,
) -> Result<(), Error> {
    if f.len() > max {
        Err(Error::ClaimTooLong)
    } else if !m.contains_key(f) {
        Err(Error::ClaimNotExist)
    } else if m[f].0 != who {
        Err(Error::NotClaimOwner)
    } else {
        Ok(())
    }
}

impl View for Pallet {
    type V = Map<Seq<u8>, (u64, u64)>;

    /// The registry as a map from fingerprint to (owner, height registered).
    closed spec fn view(&self) -> Map<Seq<u8>, (u64, u64)> {
        Map::new(
            |f: Seq<u8>| exists|i: int| fp_match(self.claims@, f, i),
            |f: Seq<u8>|
                {
                    let i = choose|i: int| fp_match(self.claims@, f, i);
                    (self.claims@[i].owner, self.claims@[i].registered_at)
                },
        )
    }
}

impl Pallet {
    /// Fingerprints are unique: at most one live claim per fingerprint.
    pub closed spec fn wf(self) -> bool {
        forall|i: int, j: int|
            0 <= i < j < self.claims@.len() ==> self.claims@[i].fingerprint@
                != self.claims@[j].fingerprint@
    }

    pub closed spec fn spec_max_claim_length(self) -> u32 {
        self.config.max_claim_length
    }

    /// The log of emitted events, oldest first.
    pub closed spec fn spec_events(self) -> Seq<Event> {
        self.events@
    }

    pub fn events(&self) -> (r: &Vec<Event>)
        ensures
            r@ == self.spec_events(),
    {
        &self.events
    }

    /// With unique fingerprints, an index holding fingerprint `f` is the one
    /// the view reads `f`'s owner and height from.
    proof fn lemma_found(self, f: Seq<u8>, i: int)
        requires
            self.wf(),
            fp_match(self.claims@, f, i),
        ensures
            self@.contains_key(f),
            self@[f] == (self.claims@[i].owner, self.claims@[i].registered_at),
    {
        let j = choose|j: int| fp_match(self.claims@, f, j);
        assert(fp_match(self.claims@, f, j));
        if i != j {
            if i < j {
                assert(self.claims@[i].fingerprint@ != self.claims@[j].fingerprint@);
            } else {
                assert(self.claims@[j].fingerprint@ != self.claims@[i].fingerprint@);
            }
        }
    }

    /// An empty registry under the given configuration.
    pub fn new(config: Config) -> (p: Pallet)
        ensures
            p.wf(),
            p@ == Map::<Seq<u8>, (u64, u64)>::empty(),
            p.spec_events() == Seq::<Event>::empty(),
            p.spec_max_claim_length() == config.max_claim_length,
    {
        let p = Pallet { config, claims: Vec::new(), events: Vec::new() };
        proof {
            assert(p@ =~= Map::<Seq<u8>, (u64, u64)>::empty());
        }
        p
    }

    pub fn max_claim_length(&self) -> (r: u32)
        ensures
            r == self.spec_max_claim_length(),
    {
        self.config.max_claim_length
    }

    /// The index of the claim holding `claim`, if one does.
    fn find_index(&self, claim: &Vec<u8>) -> (r: Option<usize>)
        ensures
            match r {
                Some(i) => fp_match(self.claims@, claim@, i as int),
                None => forall|i: int| !fp_match(self.claims@, claim@, i),
            },
    {
        let mut i: usize = 0;
        while i < self.claims.len()
            invariant
                i <= self.claims@.len(),
                forall|j: int| 0 <= j < i ==> !fp_match(self.claims@, claim@, j),
            decreases self.claims@.len() - i,
        {
            if bytes_eq(&self.claims[i].fingerprint, claim) {
                return Some(i);
            }
            i = i + 1;
        }
        None
    }

    /// Reads the claim registered for `claim`: its owner and the height it
    /// was registered at.
    pub fn proofs(&self, claim: &Vec<u8>) -> (r: Option<(u64, u64)>)
        requires
            self.wf(),
        ensures
            r == if self@.contains_key(claim@) {
                Some(self@[claim@])
            } else {
                None::<(u64, u64)>
            },
    {
        match self.find_index(claim) {
            Some(i) => {
                proof {
                    self.lemma_found(claim@, i as int);
                }
                Some((self.claims[i].owner, self.claims[i].registered_at))
            },
            None => {
                proof {
                    assert(!self@.contains_key(claim@));
                }
                None
            },
        }
    }

    /// Registers `claim` for `caller` at ledger height `height`.
    ///
    /// Fails with `ClaimTooLong` when the fingerprint exceeds the configured
    /// maximum, and with `ProofAlreadyExist` when it is already registered;
    /// on failure nothing changes. On success the claim maps to
    /// `(caller, height)` and a `ClaimCreated` event is emitted.
    pub fn create_claim(&mut self, caller: u64, claim: Vec<u8>, height: u64) -> (r: Result<
        (),
        Error,
    >)
        requires
            old(self).wf(),
        ensures
            final(self).wf(),
            final(self).spec_max_claim_length() == old(self).spec_max_claim_length(),
            r == create_claim_outcome(old(self)@, old(self).spec_max_claim_length(), claim@),
            r is Ok ==> final(self)@ == old(self)@.insert(claim@, (caller, height)),
            r is Ok ==> final(self).spec_events() == old(self).spec_events().push(Event::ClaimCreated(caller, claim)),
            r is Err ==> final(self)@ == old(self)@ && final(self).spec_events() == old(self).spec_events(),
    {
        if claim.len() > self.config.max_claim_length as usize {
            return Err(Error::ClaimTooLong);
        }
        match self.find_index(&claim) {
            Some(i) => {
                proof {
                    self.lemma_found(claim@, i as int);
                }
                Err(Error::ProofAlreadyExist)
            },
            None => {
                let fingerprint = clone_bytes(&claim);
                self.claims.push(Claim { fingerprint, owner: caller, registered_at: height });
                proof {
                    let n = self.claims@.len() - 1;
                    assert(forall|i: int, f: Seq<u8>|
                        fp_match(old(self).claims@, f, i) ==> fp_match(self.claims@, f, i));
                    assert(self.wf()) by {
                        assert forall|a: int, b: int| 0 <= a < b < self.claims@.len() implies self.claims@[a].fingerprint@
                            != self.claims@[b].fingerprint@ by {
                            if b == n {
                                assert(!fp_match(old(self).claims@, claim@, a));
                            }
                        }
                    }
                    assert(self@ =~= old(self)@.insert(claim@, (caller, height))) by {
                        assert forall|f: Seq<u8>, i: int|
                            fp_match(self.claims@, f, i) && f != claim@ implies fp_match(
                            old(self).claims@,
                            f,
                            i,
                        ) by {}
                        assert(fp_match(self.claims@, claim@, n));
                        assert forall|i: int| fp_match(self.claims@, claim@, i) implies self.claims@[i].owner
                            == caller && self.claims@[i].registered_at == height by {
                            if i < n {
                                assert(!fp_match(old(self).claims@, claim@, i));
                            }
                        }
                    }
                }
                self.events.push(Event::ClaimCreated(caller, claim));
                Ok(())
            },
        }
    }

    /// Removes `claim` if the caller owns it.
    ///
    /// Fails with `ClaimTooLong`, `ClaimNotExist` or `NotClaimOwner`, in that
    /// order of checks, with nothing changed. On success the claim is gone
    /// and a `ClaimRevoked` event is emitted.
    pub fn revoke_claim(&mut self, caller: u64, claim: Vec<u8>) -> (r: Result<(), Error>)
        requires
            old(self).wf(),
        ensures
            final(self).wf(),
            final(self).spec_max_claim_length() == old(self).spec_max_claim_length(),
            r == alter_claim_outcome(old(self)@, old(self).spec_max_claim_length(), claim@, caller),
            r is Ok ==> final(self)@ == old(self)@.remove(claim@),
            r is Ok ==> final(self).spec_events() == old(self).spec_events().push(Event::ClaimRevoked(caller, claim)),
            r is Err ==> final(self)@ == old(self)@ && final(self).spec_events() == old(self).spec_events(),
    {
        if claim.len() > self.config.max_claim_length as usize {
            return Err(Error::ClaimTooLong);
        }
        match self.find_index(&claim) {
            None => {
                proof {
                    assert(!self@.contains_key(claim@));
                }
                Err(Error::ClaimNotExist)
            },
            Some(i) => {
                proof {
                    self.lemma_found(claim@, i as int);
                }
                if self.claims[i].owner != caller {
                    return Err(Error::NotClaimOwner);
                }
                self.claims.swap_remove(i);
                proof {
                    let i = i as int;
                    let pre = old(self).claims@;
                    let post = self.claims@;
                    assert forall|j: int, f: Seq<u8>| fp_match(post, f, j) implies (exists|k: int|
                        fp_match(pre, f, k) && k != i) by {
                        if j == i {
                            assert(fp_match(pre, f, pre.len() - 1));
                            assert(pre.len() - 1 != i);
                        } else {
                            assert(fp_match(pre, f, j));
                        }
                    }
                    assert(self.wf()) by {
                        assert forall|a: int, b: int| 0 <= a < b < post.len() implies post[a].fingerprint@
                            != post[b].fingerprint@ by {
                            let fa = post[a].fingerprint@;
                            let ka: int = if a == i {
                                pre.len() - 1
                            } else {
                                a
                            };
                            let kb: int = if b == i {
                                pre.len() - 1
                            } else {
                                b
                            };
                            assert(pre[ka].fingerprint@ == post[a].fingerprint@);
                            assert(pre[kb].fingerprint@ == post[b].fingerprint@);
                            assert(ka != kb);
                        }
                    }
                    assert(self@ =~= old(self)@.remove(claim@)) by {
                        assert forall|f: Seq<u8>, k: int|
                            fp_match(pre, f, k) && k != i implies (exists|j: int|
                            fp_match(post, f, j)) by {
                            if k == pre.len() - 1 {
                                assert(fp_match(post, f, i));
                            } else {
                                assert(fp_match(post, f, k));
                            }
                        }
                        assert forall|f: Seq<u8>|
                            f != claim@ && self@.contains_key(f) implies self@[f] == old(self)@[f] by {
                            let j = choose|j: int| fp_match(post, f, j);
                            let k = choose|k: int| fp_match(pre, f, k) && k != i;
                            old(self).lemma_found(f, k);
                            self.lemma_found(f, j);
                            let kj: int = if j == i {
                                pre.len() - 1
                            } else {
                                j
                            };
                            assert(pre[kj] == post[j]);
                            old(self).lemma_found(f, kj);
                        }
                        assert forall|j: int| !fp_match(post, claim@, j) by {
                            if fp_match(post, claim@, j) {
                                let k: int = if j == i {
                                    pre.len() - 1
                                } else {
                                    j
                                };
                                assert(fp_match(pre, claim@, k));
                                if k != i {
                                    if k < i {
                                        assert(pre[k].fingerprint@ != pre[i].fingerprint@);
                                    } else {
                                        assert(pre[i].fingerprint@ != pre[k].fingerprint@);
                                    }
                                }
                            }
                        }
                    }
                }
                self.events.push(Event::ClaimRevoked(caller, claim));
                Ok(())
            },
        }
    }

    /// Re-registers `claim` for `dest` at ledger height `height`, if the
    /// caller owns it.
    ///
    /// Fails with `ClaimTooLong`, `ClaimNotExist` or `NotClaimOwner`, in that
    /// order of checks, with nothing changed. No event is emitted on success.
    pub fn transfer_claim(&mut self, caller: u64, claim: Vec<u8>, dest: u64, height: u64) -> (r:
        Result<(), Error>)
        requires
            old(self).wf(),
        ensures
            final(self).wf(),
            final(self).spec_max_claim_length() == old(self).spec_max_claim_length(),
            r == alter_claim_outcome(old(self)@, old(self).spec_max_claim_length(), claim@, caller),
            r is Ok ==> final(self)@ == old(self)@.insert(claim@, (dest, height)),
            final(self).spec_events() == old(self).spec_events(),
            r is Err ==> final(self)@ == old(self)@,
    {
        if claim.len() > self.config.max_claim_length as usize {
            return Err(Error::ClaimTooLong);
        }
        match self.find_index(&claim) {
            None => {
                proof {
                    assert(!self@.contains_key(claim@));
                }
                Err(Error::ClaimNotExist)
            },
            Some(i) => {
                proof {
                    self.lemma_found(claim@, i as int);
                }
                if self.claims[i].owner != caller {
                    return Err(Error::NotClaimOwner);
                }
                let entry = &mut self.claims[i];
                entry.owner = dest;
                entry.registered_at = height;
                proof {
                    let ii = i as int;
                    let pre = old(self).claims@;
                    let post = self.claims@;
                    assert(forall|j: int|
                        0 <= j < post.len() ==> post[j].fingerprint@ == pre[j].fingerprint@);
                    assert(self.wf());
                    assert(fp_match(post, claim@, ii));
                    self.lemma_found(claim@, ii);
                    assert(self@ =~= old(self)@.insert(claim@, (dest, height))) by {
                        assert(forall|f: Seq<u8>, j: int|
                            fp_match(post, f, j) ==> fp_match(pre, f, j));
                        assert(forall|f: Seq<u8>, j: int|
                            fp_match(pre, f, j) ==> fp_match(post, f, j));
                        assert forall|f: Seq<u8>|
                            f != claim@ && self@.contains_key(f) implies self@[f] == old(self)@[f] by {
                            let j = choose|j: int| fp_match(post, f, j);
                            assert(j != ii);
                            self.lemma_found(f, j);
                            old(self).lemma_found(f, j);
                        }
                    }
                }
                Ok(())
            },
        }
    }
}

/// Byte-sequence equality, the claim key comparison.
fn bytes_eq(a: &Vec<u8>, b: &Vec<u8>) -> (r: bool)
    ensures
        r <==> a@ == b@,
{
    if a.len() != b.len() {
        return false;
    }
    let mut i: usize = 0;
    while i < a.len()
        invariant
            a@.len() == b@.len(),
            i <= a@.len(),
            forall|j: int| 0 <= j < i ==> a@[j] == b@[j],
        decreases a@.len() - i,
    {
        if a[i] != b[i] {
            return false;
        }
        i = i + 1;
    }
    proof {
        assert(a@ =~= b@);
    }
    true
}

/// A fresh copy of a byte sequence.
fn clone_bytes(a: &Vec<u8>) -> (r: Vec<u8>)
    ensures
        r@ == a@,
{
    let mut r: Vec<u8> = Vec::new();
    let mut i: usize = 0;
    while i < a.len()
        invariant
            i <= a@.len(),
            r@ == a@.take(i as int),
        decreases a@.len() - i,
    {
        r.push(a[i]);
        proof {
            assert(r@ =~= a@.take(i + 1));
        }
        i = i + 1;
    }
    proof {
        assert(a@.take(a@.len() as int) =~= a@);
    }
    r
}

/// Uniqueness: once a fingerprint is claimed, claiming it again fails with
/// `ProofAlreadyExist`, whoever calls and at whatever height — until the
/// claim is revoked, after which claiming it succeeds again.
pub proof fn lemma_claim_uniqueness(
    m: Map<Seq<u8>, (u64, u64)>,
    max: u32,
    f: Seq<u8>,
    a: u64,
    h: u64,
)
    requires
        create_claim_outcome(m, max, f) == Ok::<(), Error>(()),
    ensures
        create_claim_outcome(m.insert(f, (a, h)), max, f) == Err::<(), Error>(
            Error::ProofAlreadyExist,
        ),
        create_claim_outcome(m.insert(f, (a, h)).remove(f), max, f) == Ok::<(), Error>(()),
{
}

/// Authorization: a claim created by `a` can be revoked or transferred only
/// by `a`: for any other caller both operations fail with `NotClaimOwner`.
pub proof fn lemma_claim_authorization(
    m: Map<Seq<u8>, (u64, u64)>,
    max: u32,
    f: Seq<u8>,
    a: u64,
    h: u64,
    b: u64,
)
    requires
        create_claim_outcome(m, max, f) == Ok::<(), Error>(()),
        b != a,
    ensures
        alter_claim_outcome(m.insert(f, (a, h)), max, f, b) == Err::<(), Error>(
            Error::NotClaimOwner,
        ),
{
}

/// Round trip: after `a` claims a fingerprint at height `h`, reading the
/// claim gives exactly `(a, h)`.
pub proof fn lemma_claim_round_trip(m: Map<Seq<u8>, (u64, u64)>, f: Seq<u8>, a: u64, h: u64)
    ensures
        m.insert(f, (a, h)).contains_key(f),
        m.insert(f, (a, h))[f] == (a, h),
{
}

/// Length bound: a fingerprint longer than the configured maximum fails
/// every claim operation with `ClaimTooLong`, independent of its content and
/// of the registry's state.
pub proof fn lemma_claim_length_bound(m: Map<Seq<u8>, (u64, u64)>, max: u32, f: Seq<u8>, who: u64)
    requires
        f.len() > max,
    ensures
        create_claim_outcome(m, max, f) == Err::<(), Error>(Error::ClaimTooLong),
        alter_claim_outcome(m, max, f, who) == Err::<(), Error>(Error::ClaimTooLong),
{
}

} // verus!
