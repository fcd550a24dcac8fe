//! The asset lifecycle and marketplace engine: one explicit state value
//! holding the identifier counter, the asset payloads, the ownership
//! ledger, the kinship graph, the market listings, the currency ledger and
//! the event log.
//!
//! Every public operation validates its preconditions against the state
//! before it mutates anything, so an operation that returns an error
//! leaves the state exactly as it was.

use std::collections::HashMap;
use vstd::prelude::*;

use crate::dna::{combine, spec_combine, Kitty};
use crate::errors::Error;
use crate::events::Event;
use crate::ledger::Ledger;
use crate::randomness::{random_value, spec_random_value};

verus! {

broadcast use vstd::std_specs::hash::group_hash_axioms;

/// The relation tag under which a parent's kinship list is kept: the
/// children it produced, or the partners it was combined with.
#[derive(Clone, Copy, PartialEq, Eq, Structural, Debug)]
pub enum Relation {
    Children,
    Partner,
}

/// The canonical form of a breeding pair: the numerically smaller parent
/// first, so that the pair names the same kinship bucket regardless of the
/// order the parents were given in.
pub open spec fn spec_canonical_pair(a: u32, b: u32) -> (u32, u32) {
    if a > b {
        (b, a)
    } else {
        (a, b)
    }
}

/// The storage key under which a canonical pair's sibling list is kept:
/// the two 32-bit identifiers packed into one 64-bit key.
pub closed spec fn spec_pair_key(p: (u32, u32)) -> u64 {
    ((p.0 as int) * 0x1_0000_0000 + (p.1 as int)) as u64
}

/// Packing a pair into its storage key loses nothing: distinct pairs get
/// distinct keys.
proof fn lemma_pair_key_injective(p: (u32, u32), q: (u32, u32))
    ensures
        spec_pair_key(p) == (p.0 as int) * 0x1_0000_0000 + (p.1 as int),
        spec_pair_key(p) == spec_pair_key(q) ==> p == q,
{
    assert(0 <= (p.0 as int) * 0x1_0000_0000 + (p.1 as int) <= u64::MAX);
    assert(0 <= (q.0 as int) * 0x1_0000_0000 + (q.1 as int) <= u64::MAX);
}

/// The whole engine state. All operations go through the methods; the
/// fields stay consistent with one another as `wf` states.
pub struct Engine {
    /// The identifier that the next minted asset will receive.
    kitties_count: u32,
    /// Asset identifier to its immutable 16-byte payload.
    kitties: HashMap<u32, Kitty>,
    /// Asset identifier to its current owner.
    kitty_owners: HashMap<u32, u64>,
    /// Owner to the assets it holds, in insertion order.
    account_kitties: HashMap<u64, Vec<u32>>,
    /// Parent to the children it produced, in creation order.
    family_children: HashMap<u32, Vec<u32>>,
    /// Parent to the distinct co-parents it was combined with.
    family_partners: HashMap<u32, Vec<u32>>,
    /// Bred asset to its canonical parent pair.
    kitty_parents: HashMap<u32, (u32, u32)>,
    /// Canonical parent pair (packed) to the assets bred from it.
    parents_children: HashMap<u64, Vec<u32>>,
    /// Asset to its ask price; absence means not for sale.
    kitty_prices: HashMap<u32, u64>,
    /// The currency ledger the stake escrow and purchases move funds on.
    balances: Ledger,
    /// The fixed collateral amount bound to each minted asset.
    stake_for_kitty: u64,
    /// The events emitted so far, oldest first.
    events: Vec<Event>,
}

impl Engine {
    /// The identifier the next minted asset will receive; every identifier
    /// issued so far is strictly below it.
    pub closed spec fn spec_kitties_count(self) -> u32 {
        self.kitties_count
    }

    /// Whether an asset with this identifier exists.
    pub closed spec fn spec_has_kitty(self, kitty_id: u32) -> bool {
        self.kitties@.contains_key(kitty_id)
    }

    /// The payload of an existing asset.
    pub closed spec fn spec_dna(self, kitty_id: u32) -> Seq<u8> {
        self.kitties@[kitty_id].0@
    }

    /// The recorded owner of an asset, if it exists.
    pub closed spec fn spec_owner(self, kitty_id: u32) -> Option<u64> {
        if self.kitty_owners@.contains_key(kitty_id) {
            Some(self.kitty_owners@[kitty_id])
        } else {
            None
        }
    }

    /// The assets an account holds, in insertion order.
    pub closed spec fn spec_owned(self, who: u64) -> Seq<u32> {
        if self.account_kitties@.contains_key(who) {
            self.account_kitties@[who]@
        } else {
            Seq::empty()
        }
    }

    /// The children an asset has produced, in creation order.
    pub closed spec fn spec_children(self, kitty_id: u32) -> Seq<u32> {
        if self.family_children@.contains_key(kitty_id) {
            self.family_children@[kitty_id]@
        } else {
            Seq::empty()
        }
    }

    /// The distinct co-parents an asset has been combined with.
    pub closed spec fn spec_partners(self, kitty_id: u32) -> Seq<u32> {
        if self.family_partners@.contains_key(kitty_id) {
            self.family_partners@[kitty_id]@
        } else {
            Seq::empty()
        }
    }

    /// The canonical parent pair of a bred asset, or `None` for an asset
    /// minted directly.
    pub closed spec fn spec_parents(self, kitty_id: u32) -> Option<(u32, u32)> {
        if self.kitty_parents@.contains_key(kitty_id) {
            Some(self.kitty_parents@[kitty_id])
        } else {
            None
        }
    }

    /// The assets recorded under this exact parent pair. Only canonical
    /// pairs ever carry a non-empty list.
    pub closed spec fn spec_siblings(self, pair: (u32, u32)) -> Seq<u32> {
        if self.parents_children@.contains_key(spec_pair_key(pair)) {
            self.parents_children@[spec_pair_key(pair)]@
        } else {
            Seq::empty()
        }
    }

    /// The ask price of an asset; `None` means not for sale.
    pub closed spec fn spec_price(self, kitty_id: u32) -> Option<u64> {
        if self.kitty_prices@.contains_key(kitty_id) {
            Some(self.kitty_prices@[kitty_id])
        } else {
            None
        }
    }

    /// The events emitted so far, oldest first.
    pub closed spec fn spec_events(self) -> Seq<Event> {
        self.events@
    }

    /// The fixed collateral amount bound to each minted asset.
    pub closed spec fn spec_stake(self) -> u64 {
        self.stake_for_kitty
    }

    /// The free balance an account holds on the currency ledger.
    pub closed spec fn spec_free(self, who: u64) -> u64 {
        self.balances.spec_free(who)
    }

    /// The reserved balance an account holds on the currency ledger.
    pub closed spec fn spec_reserved(self, who: u64) -> u64 {
        self.balances.spec_reserved(who)
    }

    /// The currency ledger's own consistency: no account's combined free
    /// and reserved balance exceeds what the balance type can carry.
    pub closed spec fn balances_wf(self) -> bool {
        self.balances.wf()
    }

    /// Both engines hold the same assets: the same counter, the same
    /// identifiers and the same payloads.
    pub open spec fn same_assets(self, other: Engine) -> bool {
        &&& other.spec_kitties_count() == self.spec_kitties_count()
        &&& forall|id: u32|
            #![trigger other.spec_has_kitty(id)]
            other.spec_has_kitty(id) == self.spec_has_kitty(id)
        &&& forall|id: u32|
            #![trigger other.spec_dna(id)]
            self.spec_has_kitty(id) ==> other.spec_dna(id) == self.spec_dna(id)
    }

    /// Every asset has the same recorded owner in both engines.
    pub open spec fn same_owners(self, other: Engine) -> bool {
        forall|id: u32| #![trigger other.spec_owner(id)] other.spec_owner(id) == self.spec_owner(id)
    }

    /// Every account holds the same asset list in both engines.
    pub open spec fn same_owned(self, other: Engine) -> bool {
        forall|a: u64| #![trigger other.spec_owned(a)] other.spec_owned(a) == self.spec_owned(a)
    }

    /// The whole kinship graph is the same in both engines: children,
    /// partners, parent pairs and sibling lists.
    pub open spec fn same_kinship(self, other: Engine) -> bool {
        &&& forall|id: u32|
            #![trigger other.spec_children(id)]
            other.spec_children(id) == self.spec_children(id)
        &&& forall|id: u32|
            #![trigger other.spec_partners(id)]
            other.spec_partners(id) == self.spec_partners(id)
        &&& forall|id: u32|
            #![trigger other.spec_parents(id)]
            other.spec_parents(id) == self.spec_parents(id)
        &&& forall|pair: (u32, u32)|
            #![trigger other.spec_siblings(pair)]
            other.spec_siblings(pair) == self.spec_siblings(pair)
    }

    /// Every asset carries the same listing state in both engines.
    pub open spec fn same_prices(self, other: Engine) -> bool {
        forall|id: u32| #![trigger other.spec_price(id)] other.spec_price(id) == self.spec_price(id)
    }

    /// Every account holds the same balances in both engines.
    pub open spec fn same_funds(self, other: Engine) -> bool {
        forall|a: u64|
            #![trigger other.spec_free(a)]
            #![trigger other.spec_reserved(a)]
            other.spec_free(a) == self.spec_free(a) && other.spec_reserved(a) == self.spec_reserved(
                a,
            )
    }

    /// Consistency of the ownership ledger: an asset exists exactly when
    /// it has an owner, every issued identifier sits strictly below the
    /// counter, and each asset appears exactly once in exactly its
    /// owner's list.
    pub open spec fn wf_ownership(self) -> bool {
        &&& forall|id: u32|
            #![trigger self.spec_owner(id)]
            #![trigger self.spec_has_kitty(id)]
            self.spec_owner(id) is Some <==> self.spec_has_kitty(id)
        &&& forall|id: u32|
            #![trigger self.spec_has_kitty(id)]
            self.spec_has_kitty(id) ==> id < self.spec_kitties_count()
        &&& forall|a: u64, i: int|
            #![trigger self.spec_owned(a)[i]]
            0 <= i < self.spec_owned(a).len() ==> self.spec_owner(self.spec_owned(a)[i]) == Some(a)
        &&& forall|id: u32|
            #![trigger self.spec_owner(id)]
            self.spec_owner(id) matches Some(a) ==> self.spec_owned(a).contains(id)
        &&& forall|a: u64| #![trigger self.spec_owned(a)] self.spec_owned(a).no_duplicates()
    }

    /// Consistency of the kinship graph across its four keyed views: a
    /// bred asset's parent pair is canonical, names existing parents, and
    /// is mirrored in the sibling bucket, in both parents' children lists
    /// and in both parents' partner lists; sibling buckets hold exactly
    /// the assets recorded under their pair; children lists hold only
    /// assets bred from their keeper; partner lists are symmetric; and
    /// both derived lists are free of duplicates.
    pub open spec fn wf_kinship(self) -> bool {
        &&& forall|c: u32|
            #![trigger self.spec_parents(c)]
            self.spec_parents(c) matches Some(p) ==> p.0 < p.1 && self.spec_has_kitty(p.0)
                && self.spec_has_kitty(p.1) && self.spec_has_kitty(c) && self.spec_siblings(
                p,
            ).contains(c) && self.spec_children(p.0).contains(c) && self.spec_children(
                p.1,
            ).contains(c) && self.spec_partners(p.0).contains(p.1) && self.spec_partners(
                p.1,
            ).contains(p.0)
        &&& forall|pr: (u32, u32), i: int|
            #![trigger self.spec_siblings(pr)[i]]
            0 <= i < self.spec_siblings(pr).len() ==> self.spec_parents(self.spec_siblings(pr)[i])
                == Some(pr)
        &&& forall|p: u32, i: int|
            #![trigger self.spec_children(p)[i]]
            0 <= i < self.spec_children(p).len() ==> self.spec_parents(self.spec_children(p)[i])
                is Some && (self.spec_parents(self.spec_children(p)[i])->Some_0.0 == p
                || self.spec_parents(self.spec_children(p)[i])->Some_0.1 == p)
        &&& forall|p: u32, i: int|
            #![trigger self.spec_partners(p)[i]]
            0 <= i < self.spec_partners(p).len() ==> self.spec_partners(
                self.spec_partners(p)[i],
            ).contains(p)
        &&& forall|p: u32| #![trigger self.spec_partners(p)] self.spec_partners(p).no_duplicates()
        &&& forall|p: u32| #![trigger self.spec_children(p)] self.spec_children(p).no_duplicates()
    }

    /// Consistency of the marketplace: only an existing, owned asset can
    /// carry an ask price.
    pub open spec fn wf_market(self) -> bool {
        forall|id: u32|
            #![trigger self.spec_price(id)]
            self.spec_price(id) is Some ==> self.spec_owner(id) is Some
    }

    /// Consistency of the whole state, preserved by every operation: the
    /// ownership ledger, the kinship graph and the marketplace each check
    /// out, and the currency ledger's balances cannot overflow.
    pub open spec fn wf(self) -> bool {
        &&& self.wf_ownership()
        &&& self.wf_kinship()
        &&& self.wf_market()
        &&& self.balances_wf()
    }

    /// A fresh engine: no assets, no kinship, no listings, an empty event
    /// log, an empty ledger, and the given fixed stake amount.
    pub fn new(stake_for_kitty: u64) -> (r: Engine)
        ensures
            r.wf(),
            r.spec_kitties_count() == 0,
            forall|id: u32| !(#[trigger] r.spec_has_kitty(id)),
            forall|id: u32| #[trigger] r.spec_owner(id) is None,
            forall|a: u64| #[trigger] r.spec_owned(a) == Seq::<u32>::empty(),
            forall|id: u32| #[trigger] r.spec_children(id) == Seq::<u32>::empty(),
            forall|id: u32| #[trigger] r.spec_partners(id) == Seq::<u32>::empty(),
            forall|id: u32| #[trigger] r.spec_parents(id) is None,
            forall|pair: (u32, u32)| #[trigger] r.spec_siblings(pair) == Seq::<u32>::empty(),
            forall|id: u32| #[trigger] r.spec_price(id) is None,
            r.spec_events() == Seq::<Event>::empty(),
            r.spec_stake() == stake_for_kitty,
            forall|a: u64| #[trigger] r.spec_free(a) == 0 && r.spec_reserved(a) == 0,
    {
        Engine {
            kitties_count: 0,
            kitties: HashMap::new(),
            kitty_owners: HashMap::new(),
            account_kitties: HashMap::new(),
            family_children: HashMap::new(),
            family_partners: HashMap::new(),
            kitty_parents: HashMap::new(),
            parents_children: HashMap::new(),
            kitty_prices: HashMap::new(),
            balances: Ledger::new(),
            stake_for_kitty,
            events: Vec::new(),
        }
    }

    /// Endows an account with a free balance, as a genesis configuration
    /// does before any operation runs.
    pub fn set_balance(&mut self, who: u64, free: u64)
        requires
            old(self).wf(),
        ensures
            final(self).wf(),
            final(self).spec_free(who) == free,
            final(self).spec_reserved(who) == 0,
            forall|a: u64|
                #![trigger final(self).spec_free(a)]
                #![trigger final(self).spec_reserved(a)]
                a != who ==> final(self).spec_free(a) == old(self).spec_free(a)
                    && final(self).spec_reserved(a) == old(self).spec_reserved(a),
            old(self).same_assets(*final(self)),
            old(self).same_owners(*final(self)),
            old(self).same_owned(*final(self)),
            old(self).same_kinship(*final(self)),
            old(self).same_prices(*final(self)),
            final(self).spec_events() == old(self).spec_events(),
            final(self).spec_stake() == old(self).spec_stake(),
    {
        self.balances.set_balance(who, free);
        proof {
            lemma_wf_from_same(*old(self), *self);
        }
    }

    /// The candidate identifier for the next minted asset, or the
    /// exhaustion error once the counter has reached the largest
    /// representable value. Does not advance the counter.
    fn next_kitty_id(&self) -> (r: Result<u32, Error>)
        ensures
            r == if self.spec_kitties_count() == u32::MAX {
                Err::<u32, Error>(Error::KittiesCountOverflow)
            } else {
                Ok::<u32, Error>(self.spec_kitties_count())
            },
    {
        if self.kitties_count == u32::MAX {
            Err(Error::KittiesCountOverflow)
        } else {
            Ok(self.kitties_count)
        }
    }

    /// Appends an asset to an owner's list unless the list already holds
    /// it. Touches nothing but that one list.
    fn add_kitty_to_owner(&mut self, owner: u64, kitty_id: u32)
        ensures
            final(self).spec_owned(owner) == if old(self).spec_owned(owner).contains(kitty_id) {
                old(self).spec_owned(owner)
            } else {
                old(self).spec_owned(owner).push(kitty_id)
            },
            forall|a: u64|
                #![trigger final(self).spec_owned(a)]
                a != owner ==> final(self).spec_owned(a) == old(self).spec_owned(a),
            old(self).same_assets(*final(self)),
            old(self).same_owners(*final(self)),
            old(self).same_kinship(*final(self)),
            old(self).same_prices(*final(self)),
            old(self).same_funds(*final(self)),
            final(self).spec_events() == old(self).spec_events(),
            final(self).spec_stake() == old(self).spec_stake(),
    {
        match self.account_kitties.remove(&owner) {
            Some(mut list) => {
                if !vec_contains(&list, kitty_id) {
                    list.push(kitty_id);
                }
                self.account_kitties.insert(owner, list);
            },
            None => {
                let mut list: Vec<u32> = Vec::new();
                list.push(kitty_id);
                self.account_kitties.insert(owner, list);
            },
        }
    }

    /// Stores a freshly minted asset: records the payload, advances the
    /// counter past the new identifier, records the owner and appends the
    /// asset to the owner's list.
    fn insert_kitty(&mut self, owner: u64, kitty_id: u32, kitty: Kitty)
        requires
            old(self).wf(),
            kitty_id == old(self).spec_kitties_count(),
            old(self).spec_kitties_count() < u32::MAX,
        ensures
            final(self).wf(),
            final(self).spec_kitties_count() == old(self).spec_kitties_count() + 1,
            forall|id: u32|
                #![trigger final(self).spec_has_kitty(id)]
                final(self).spec_has_kitty(id) == (id == kitty_id || old(self).spec_has_kitty(id)),
            final(self).spec_dna(kitty_id) == kitty.0@,
            forall|id: u32|
                #![trigger final(self).spec_dna(id)]
                id != kitty_id && old(self).spec_has_kitty(id) ==> final(self).spec_dna(id) == old(self).spec_dna(id),
            final(self).spec_owner(kitty_id) == Some(owner),
            forall|id: u32|
                #![trigger final(self).spec_owner(id)]
                id != kitty_id ==> final(self).spec_owner(id) == old(self).spec_owner(id),
            final(self).spec_owned(owner) == old(self).spec_owned(owner).push(kitty_id),
            forall|a: u64|
                #![trigger final(self).spec_owned(a)]
                a != owner ==> final(self).spec_owned(a) == old(self).spec_owned(a),
            old(self).same_kinship(*final(self)),
            old(self).same_prices(*final(self)),
            old(self).same_funds(*final(self)),
            final(self).spec_events() == old(self).spec_events(),
            final(self).spec_stake() == old(self).spec_stake(),
    {
        proof {
            // The identifier is fresh: it equals the counter, and every
            // existing asset sits strictly below the counter, so no list
            // can hold it yet.
            assert(!old(self).spec_has_kitty(kitty_id));
            assert forall|a: u64| !old(self).spec_owned(a).contains(kitty_id) by {
                if old(self).spec_owned(a).contains(kitty_id) {
                    let i = choose|i: int|
                        0 <= i < old(self).spec_owned(a).len() && old(self).spec_owned(a)[i]
                            == kitty_id;
                    assert(old(self).spec_owner(old(self).spec_owned(a)[i]) == Some(a));
                    assert(old(self).spec_has_kitty(kitty_id));
                }
            }
        }
        self.kitties.insert(kitty_id, kitty);
        self.kitties_count = kitty_id + 1;
        self.kitty_owners.insert(kitty_id, owner);
        let ghost mid = *self;
        self.add_kitty_to_owner(owner, kitty_id);
        proof {
            let pre = *old(self);
            let post = *final(self);
            lemma_push_fresh_keeps_no_duplicates(pre.spec_owned(owner), kitty_id);
            // Pointwise picture of the final state.
            assert(post.spec_owner(kitty_id) == Some(owner));
            assert forall|id: u32| id != kitty_id implies #[trigger] post.spec_owner(id)
                == pre.spec_owner(id) by {}
            assert(post.spec_owned(owner) == pre.spec_owned(owner).push(kitty_id));
            assert forall|id: u32| #[trigger]
                post.spec_has_kitty(id) == (id == kitty_id || pre.spec_has_kitty(id)) by {}
            // Each asset still sits in its owner's list.
            assert forall|id: u32, a: u64| post.spec_owner(id) == Some(a) implies post.spec_owned(
                a,
            ).contains(id) by {
                if id == kitty_id {
                    let s = post.spec_owned(owner);
                    assert(s[s.len() - 1] == kitty_id);
                } else {
                    let a = pre.spec_owner(id)->Some_0;
                    assert(pre.spec_owned(a).contains(id));
                    if a == owner {
                        let i = choose|i: int|
                            0 <= i < pre.spec_owned(a).len() && pre.spec_owned(a)[i] == id;
                        assert(post.spec_owned(a)[i] == id);
                    }
                }
            }
            // Every list element is still owned by the list's account.
            assert forall|a: u64, i: int| 0 <= i < post.spec_owned(a).len() implies post.spec_owner(
                #[trigger] post.spec_owned(a)[i],
            ) == Some(a) by {
                if a == owner && i == pre.spec_owned(owner).len() {
                } else {
                    assert(pre.spec_owned(a)[i] == post.spec_owned(a)[i]);
                    assert(pre.spec_owner(pre.spec_owned(a)[i]) == Some(a));
                    assert(pre.spec_owned(a)[i] != kitty_id);
                }
            }
            // Nothing else moved: kinship, listings and funds.
            assert(post.spec_kitties_count() == kitty_id + 1);
            assert forall|p: u32| #[trigger] post.spec_children(p) == pre.spec_children(p) by {}
            assert forall|p: u32| #[trigger] post.spec_partners(p) == pre.spec_partners(p) by {}
            assert forall|c: u32| #[trigger] post.spec_parents(c) == pre.spec_parents(c) by {}
            assert forall|pr: (u32, u32)| #[trigger] post.spec_siblings(pr) == pre.spec_siblings(
                pr,
            ) by {}
            assert forall|id: u32| #[trigger] post.spec_price(id) == pre.spec_price(id) by {}
            assert forall|a: u64|
                #[trigger] post.spec_free(a) == pre.spec_free(a) && #[trigger] post.spec_reserved(
                    a,
                ) == pre.spec_reserved(a) by {}
            assert(mid.balances_wf());
            lemma_balances_wf_from_same_funds(mid, post);
            // The freshly stored payload and the untouched older ones.
            assert(post.spec_dna(kitty_id) == kitty.0@);
            assert forall|id: u32|
                id != kitty_id && pre.spec_has_kitty(id) implies #[trigger] post.spec_dna(id)
                    == pre.spec_dna(id) by {}
        }
    }

    /// Best-effort collateral reservation at minting: asks the ledger to
    /// reserve the amount from the owner's free balance, deliberately
    /// carries on when the balance does not cover it, and records the
    /// reservation event either way.
    fn reserve(&mut self, account: u64, amount: u64)
        requires
            old(self).wf(),
        ensures
            final(self).wf(),
            old(self).spec_free(account) >= amount ==> final(self).spec_free(account) == old(self).spec_free(account) - amount && final(self).spec_reserved(account) == old(self).spec_reserved(account) + amount,
            old(self).spec_free(account) < amount ==> old(self).same_funds(*final(self)),
            forall|a: u64|
                #![trigger final(self).spec_free(a)]
                #![trigger final(self).spec_reserved(a)]
                a != account ==> final(self).spec_free(a) == old(self).spec_free(a)
                    && final(self).spec_reserved(a) == old(self).spec_reserved(a),
            final(self).spec_events() == old(self).spec_events().push(
                Event::StakeForKitty(account, amount),
            ),
            old(self).same_assets(*final(self)),
            old(self).same_owners(*final(self)),
            old(self).same_owned(*final(self)),
            old(self).same_kinship(*final(self)),
            old(self).same_prices(*final(self)),
            final(self).spec_stake() == old(self).spec_stake(),
    {
        let _ = self.balances.reserve(account, amount);
        self.events.push(Event::StakeForKitty(account, amount));
        proof {
            lemma_wf_from_same(*old(self), *self);
        }
    }

    /// Mints a new asset for `sender`: allocates the next identifier,
    /// reserves the configured stake as best effort, derives the payload
    /// from the given randomness seed and the operation's sequence number,
    /// records ownership, and emits the reservation and creation events.
    /// Fails only when the identifier space is exhausted, and then changes
    /// nothing.
    pub fn create(&mut self, sender: u64, seed: &[u8; 32], extrinsic_index: Option<u32>) -> (r:
        Result<(), Error>)
        requires
            old(self).wf(),
        ensures
            final(self).wf(),
            r == if old(self).spec_kitties_count() == u32::MAX {
                Err::<(), Error>(Error::KittiesCountOverflow)
            } else {
                Ok::<(), Error>(())
            },
            r is Err ==> *final(self) == *old(self),
            r is Ok ==> {
                let kitty_id = old(self).spec_kitties_count();
                &&& !old(self).spec_has_kitty(kitty_id)
                &&& final(self).spec_kitties_count() == kitty_id + 1
                &&& forall|id: u32|
                    #![trigger final(self).spec_has_kitty(id)]
                    final(self).spec_has_kitty(id) == (id == kitty_id || old(self).spec_has_kitty(
                        id,
                    ))
                &&& final(self).spec_dna(kitty_id) == spec_random_value(
                    seed@,
                    sender,
                    extrinsic_index,
                )
                &&& forall|id: u32|
                    #![trigger final(self).spec_dna(id)]
                    id != kitty_id && old(self).spec_has_kitty(id) ==> final(self).spec_dna(id)
                        == old(self).spec_dna(id)
                &&& final(self).spec_owner(kitty_id) == Some(sender)
                &&& forall|id: u32|
                    #![trigger final(self).spec_owner(id)]
                    id != kitty_id ==> final(self).spec_owner(id) == old(self).spec_owner(id)
                &&& final(self).spec_owned(sender) == old(self).spec_owned(sender).push(kitty_id)
                &&& forall|a: u64|
                    #![trigger final(self).spec_owned(a)]
                    a != sender ==> final(self).spec_owned(a) == old(self).spec_owned(a)
                &&& final(self).spec_events() == old(self).spec_events().push(
                    Event::StakeForKitty(sender, old(self).spec_stake()),
                ).push(Event::Created(sender, kitty_id))
                &&& old(self).spec_free(sender) >= old(self).spec_stake() ==> final(self).spec_free(sender) == old(self).spec_free(sender) - old(self).spec_stake()
                    && final(self).spec_reserved(sender) == old(self).spec_reserved(sender) + old(self).spec_stake()
                &&& old(self).spec_free(sender) < old(self).spec_stake() ==> old(self).same_funds(
                    *final(self),
                )
                &&& forall|a: u64|
                    #![trigger final(self).spec_free(a)]
                    #![trigger final(self).spec_reserved(a)]
                    a != sender ==> final(self).spec_free(a) == old(self).spec_free(a)
                        && final(self).spec_reserved(a) == old(self).spec_reserved(a)
                &&& old(self).same_kinship(*final(self))
                &&& old(self).same_prices(*final(self))
                &&& final(self).spec_stake() == old(self).spec_stake()
            },
    {
        let kitty_id = match self.next_kitty_id() {
            Ok(id) => id,
            Err(e) => {
                return Err(e);
            },
        };
        let stake = self.stake_for_kitty;
        self.reserve(sender, stake);
        let ghost staked = *self;
        let dna = random_value(sender, seed, extrinsic_index);
        let kitty = Kitty(dna);
        self.insert_kitty(sender, kitty_id, kitty);
        let ghost done = *self;
        self.events.push(Event::Created(sender, kitty_id));
        proof {
            let post = *self;
            assert forall|id: u32| #[trigger] post.spec_owner(id) == done.spec_owner(id) by {}
            assert forall|id: u32| #[trigger] post.spec_has_kitty(id) == done.spec_has_kitty(
                id,
            ) by {}
            assert forall|id: u32| #[trigger] post.spec_dna(id) == done.spec_dna(id) by {}
            assert forall|a: u64| #[trigger] post.spec_owned(a) == done.spec_owned(a) by {}
            assert forall|p: u32| #[trigger] post.spec_children(p) == done.spec_children(p) by {}
            assert forall|p: u32| #[trigger] post.spec_partners(p) == done.spec_partners(p) by {}
            assert forall|c: u32| #[trigger] post.spec_parents(c) == done.spec_parents(c) by {}
            assert forall|pr: (u32, u32)| #[trigger] post.spec_siblings(pr) == done.spec_siblings(
                pr,
            ) by {}
            assert forall|id: u32| #[trigger] post.spec_price(id) == done.spec_price(id) by {}
            assert forall|a: u64|
                #![trigger post.spec_free(a)]
                #![trigger post.spec_reserved(a)]
                post.spec_free(a) == done.spec_free(a) && post.spec_reserved(a)
                    == done.spec_reserved(a) by {}
            assert forall|a: u64|
                #![trigger done.spec_free(a)]
                #![trigger done.spec_reserved(a)]
                done.spec_free(a) == staked.spec_free(a) && done.spec_reserved(a)
                    == staked.spec_reserved(a) by {}
            lemma_wf_from_same(done, post);
        }
        Ok(())
    }

    /// Records one side of a combination on one parent: appends the child
    /// to the parent's children list, and appends the co-parent to the
    /// parent's partner list unless it is already there.
    fn add_child_and_partner(&mut self, parent: u32, other_parent: u32, child: u32)
        ensures
            final(self).spec_children(parent) == old(self).spec_children(parent).push(child),
            forall|p: u32|
                #![trigger final(self).spec_children(p)]
                p != parent ==> final(self).spec_children(p) == old(self).spec_children(p),
            final(self).spec_partners(parent) == if old(self).spec_partners(parent).contains(
                other_parent,
            ) {
                old(self).spec_partners(parent)
            } else {
                old(self).spec_partners(parent).push(other_parent)
            },
            forall|p: u32|
                #![trigger final(self).spec_partners(p)]
                p != parent ==> final(self).spec_partners(p) == old(self).spec_partners(p),
            old(self).same_assets(*final(self)),
            old(self).same_owners(*final(self)),
            old(self).same_owned(*final(self)),
            forall|c: u32|
                #![trigger final(self).spec_parents(c)]
                final(self).spec_parents(c) == old(self).spec_parents(c),
            forall|pr: (u32, u32)|
                #![trigger final(self).spec_siblings(pr)]
                final(self).spec_siblings(pr) == old(self).spec_siblings(pr),
            old(self).same_prices(*final(self)),
            old(self).same_funds(*final(self)),
            final(self).spec_events() == old(self).spec_events(),
            final(self).spec_stake() == old(self).spec_stake(),
    {
        match self.family_children.remove(&parent) {
            Some(mut children) => {
                children.push(child);
                self.family_children.insert(parent, children);
            },
            None => {
                let mut children: Vec<u32> = Vec::new();
                children.push(child);
                self.family_children.insert(parent, children);
            },
        }
        match self.family_partners.remove(&parent) {
            Some(mut partners) => {
                if !vec_contains(&partners, other_parent) {
                    partners.push(other_parent);
                }
                self.family_partners.insert(parent, partners);
            },
            None => {
                let mut partners: Vec<u32> = Vec::new();
                partners.push(other_parent);
                self.family_partners.insert(parent, partners);
            },
        }
    }

    /// Records a combination in the kinship graph: the child joins both
    /// parents' children lists, each parent gains the other as a partner
    /// unless already recorded, the child's canonical parent pair is
    /// stored, and the child joins the sibling bucket of that pair.
    fn add_kitty_to_family_tree(&mut self, parent_1: u32, parent_2: u32, child: u32)
        requires
            old(self).wf(),
            old(self).spec_has_kitty(parent_1),
            old(self).spec_has_kitty(parent_2),
            old(self).spec_has_kitty(child),
            parent_1 != parent_2,
            old(self).spec_parents(child) is None,
        ensures
            final(self).wf(),
            final(self).spec_children(parent_1) == old(self).spec_children(parent_1).push(child),
            final(self).spec_children(parent_2) == old(self).spec_children(parent_2).push(child),
            forall|p: u32|
                #![trigger final(self).spec_children(p)]
                p != parent_1 && p != parent_2 ==> final(self).spec_children(p) == old(self).spec_children(p),
            final(self).spec_partners(parent_1) == if old(self).spec_partners(parent_1).contains(
                parent_2,
            ) {
                old(self).spec_partners(parent_1)
            } else {
                old(self).spec_partners(parent_1).push(parent_2)
            },
            final(self).spec_partners(parent_2) == if old(self).spec_partners(parent_2).contains(
                parent_1,
            ) {
                old(self).spec_partners(parent_2)
            } else {
                old(self).spec_partners(parent_2).push(parent_1)
            },
            forall|p: u32|
                #![trigger final(self).spec_partners(p)]
                p != parent_1 && p != parent_2 ==> final(self).spec_partners(p) == old(self).spec_partners(p),
            final(self).spec_parents(child) == Some(spec_canonical_pair(parent_1, parent_2)),
            forall|c: u32|
                #![trigger final(self).spec_parents(c)]
                c != child ==> final(self).spec_parents(c) == old(self).spec_parents(c),
            final(self).spec_siblings(spec_canonical_pair(parent_1, parent_2)) == old(self).spec_siblings(spec_canonical_pair(parent_1, parent_2)).push(child),
            forall|pr: (u32, u32)|
                #![trigger final(self).spec_siblings(pr)]
                pr != spec_canonical_pair(parent_1, parent_2) ==> final(self).spec_siblings(pr)
                    == old(self).spec_siblings(pr),
            old(self).same_assets(*final(self)),
            old(self).same_owners(*final(self)),
            old(self).same_owned(*final(self)),
            old(self).same_prices(*final(self)),
            old(self).same_funds(*final(self)),
            final(self).spec_events() == old(self).spec_events(),
            final(self).spec_stake() == old(self).spec_stake(),
    {
        self.add_child_and_partner(parent_1, parent_2, child);
        let ghost once = *self;
        self.add_child_and_partner(parent_2, parent_1, child);
        let ghost fam = *self;
        let mut parents_tuple = (parent_1, parent_2);
        if parent_1 > parent_2 {
            parents_tuple = (parent_2, parent_1);
        }
        self.kitty_parents.insert(child, parents_tuple);
        let key = pair_key(parents_tuple);
        match self.parents_children.remove(&key) {
            Some(mut siblings) => {
                siblings.push(child);
                self.parents_children.insert(key, siblings);
            },
            None => {
                let mut siblings: Vec<u32> = Vec::new();
                siblings.push(child);
                self.parents_children.insert(key, siblings);
            },
        }
        proof {
            let pre = *old(self);
            let post = *self;
            let canonical = spec_canonical_pair(parent_1, parent_2);
            assert(parents_tuple == canonical);
            // Pointwise picture of the final state.
            assert forall|p: u32| #[trigger] post.spec_children(p) == fam.spec_children(p) by {}
            assert forall|p: u32| #[trigger] post.spec_partners(p) == fam.spec_partners(p) by {}
            assert(fam.spec_children(parent_1) == pre.spec_children(parent_1).push(child)) by {
                assert(once.spec_children(parent_1) == pre.spec_children(parent_1).push(child));
            }
            assert(fam.spec_children(parent_2) == pre.spec_children(parent_2).push(child)) by {
                assert(once.spec_children(parent_2) == pre.spec_children(parent_2));
            }
            assert forall|p: u32| p != parent_1 && p != parent_2 implies #[trigger] post.spec_children(
                p,
            ) == pre.spec_children(p) by {
                assert(once.spec_children(p) == pre.spec_children(p));
                assert(fam.spec_children(p) == once.spec_children(p));
            }
            assert(fam.spec_partners(parent_1) == if pre.spec_partners(parent_1).contains(
                parent_2,
            ) {
                pre.spec_partners(parent_1)
            } else {
                pre.spec_partners(parent_1).push(parent_2)
            }) by {
                assert(once.spec_partners(parent_1) == if pre.spec_partners(parent_1).contains(
                    parent_2,
                ) {
                    pre.spec_partners(parent_1)
                } else {
                    pre.spec_partners(parent_1).push(parent_2)
                });
                assert(fam.spec_partners(parent_1) == once.spec_partners(parent_1));
            }
            assert(fam.spec_partners(parent_2) == if pre.spec_partners(parent_2).contains(
                parent_1,
            ) {
                pre.spec_partners(parent_2)
            } else {
                pre.spec_partners(parent_2).push(parent_1)
            }) by {
                assert(once.spec_partners(parent_2) == pre.spec_partners(parent_2));
            }
            assert forall|p: u32| p != parent_1 && p != parent_2 implies #[trigger] post.spec_partners(
                p,
            ) == pre.spec_partners(p) by {
                assert(once.spec_partners(p) == pre.spec_partners(p));
                assert(fam.spec_partners(p) == once.spec_partners(p));
            }
            assert(post.spec_parents(child) == Some(canonical));
            assert forall|c: u32| c != child implies #[trigger] post.spec_parents(c)
                == pre.spec_parents(c) by {
                assert(once.spec_parents(c) == pre.spec_parents(c));
                assert(fam.spec_parents(c) == once.spec_parents(c));
            }
            assert(post.spec_siblings(canonical) == pre.spec_siblings(canonical).push(child)) by {
                assert(fam.spec_siblings(canonical) == pre.spec_siblings(canonical)) by {
                    assert(once.spec_siblings(canonical) == pre.spec_siblings(canonical));
                }
            }
            assert forall|pr: (u32, u32)| pr != canonical implies #[trigger] post.spec_siblings(pr)
                == pre.spec_siblings(pr) by {
                lemma_pair_key_injective(pr, canonical);
                assert(spec_pair_key(pr) != spec_pair_key(canonical));
                assert(once.spec_siblings(pr) == pre.spec_siblings(pr));
                assert(fam.spec_siblings(pr) == once.spec_siblings(pr));
            }
            // Untouched families, stepping through both helper calls.
            assert forall|id: u32| #[trigger] post.spec_owner(id) == pre.spec_owner(id) by {
                assert(once.spec_owner(id) == pre.spec_owner(id));
                assert(fam.spec_owner(id) == once.spec_owner(id));
            }
            assert forall|id: u32| #[trigger] post.spec_has_kitty(id) == pre.spec_has_kitty(
                id,
            ) by {
                assert(once.spec_has_kitty(id) == pre.spec_has_kitty(id));
                assert(fam.spec_has_kitty(id) == once.spec_has_kitty(id));
            }
            assert forall|id: u32| pre.spec_has_kitty(id) implies #[trigger] post.spec_dna(id)
                == pre.spec_dna(id) by {
                assert(once.spec_has_kitty(id) == pre.spec_has_kitty(id));
                assert(once.spec_dna(id) == pre.spec_dna(id));
                assert(fam.spec_dna(id) == once.spec_dna(id));
            }
            assert forall|a: u64| #[trigger] post.spec_owned(a) == pre.spec_owned(a) by {
                assert(once.spec_owned(a) == pre.spec_owned(a));
                assert(fam.spec_owned(a) == once.spec_owned(a));
            }
            assert forall|id: u32| #[trigger] post.spec_price(id) == pre.spec_price(id) by {
                assert(once.spec_price(id) == pre.spec_price(id));
                assert(fam.spec_price(id) == once.spec_price(id));
            }
            assert forall|a: u64|
                #![trigger post.spec_free(a)]
                #![trigger post.spec_reserved(a)]
                post.spec_free(a) == pre.spec_free(a) && post.spec_reserved(a)
                    == pre.spec_reserved(a) by {
                assert(once.spec_free(a) == pre.spec_free(a));
                assert(once.spec_reserved(a) == pre.spec_reserved(a));
                assert(fam.spec_free(a) == once.spec_free(a));
                assert(fam.spec_reserved(a) == once.spec_reserved(a));
            }
            assert(post.spec_events() == pre.spec_events()) by {
                assert(once.spec_events() == pre.spec_events());
                assert(fam.spec_events() == once.spec_events());
            }
            assert(post.balances_wf()) by {
                lemma_balances_wf_from_same_funds(pre, post);
            }
            // Well-formedness: ownership is untouched, partner lists keep
            // no duplicates, and every parent record still checks out.
            assert forall|id: u32| (#[trigger] post.spec_owner(id)) is Some implies
                post.spec_owned(post.spec_owner(id)->Some_0).contains(id) by {
                assert(pre.spec_owned(pre.spec_owner(id)->Some_0).contains(id));
            }
            assert forall|a: u64, i: int| 0 <= i < post.spec_owned(a).len() implies post.spec_owner(
                #[trigger] post.spec_owned(a)[i],
            ) == Some(a) by {
                assert(post.spec_owned(a) == pre.spec_owned(a));
                assert(pre.spec_owner(pre.spec_owned(a)[i]) == Some(a));
            }
            assert forall|a: u64| (#[trigger] post.spec_owned(a)).no_duplicates() by {
                assert(post.spec_owned(a) == pre.spec_owned(a));
                assert(pre.spec_owned(a).no_duplicates());
            }
            assert forall|p: u32| (#[trigger] post.spec_partners(p)).no_duplicates() by {
                assert(pre.spec_partners(p).no_duplicates());
                if p == parent_1 {
                    if !pre.spec_partners(parent_1).contains(parent_2) {
                        lemma_push_fresh_keeps_no_duplicates(pre.spec_partners(parent_1), parent_2);
                    }
                } else if p == parent_2 {
                    if !pre.spec_partners(parent_2).contains(parent_1) {
                        lemma_push_fresh_keeps_no_duplicates(pre.spec_partners(parent_2), parent_1);
                    }
                } else {
                    assert(post.spec_partners(p) == pre.spec_partners(p));
                }
            }
            // The fresh child sits in no list of the old graph.
            assert forall|pr: (u32, u32)| !(#[trigger] pre.spec_siblings(pr)).contains(child) by {
                if pre.spec_siblings(pr).contains(child) {
                    let i = choose|i: int|
                        0 <= i < pre.spec_siblings(pr).len() && pre.spec_siblings(pr)[i] == child;
                    assert(pre.spec_parents(pre.spec_siblings(pr)[i]) == Some(pr));
                }
            }
            assert forall|p: u32| !(#[trigger] pre.spec_children(p)).contains(child) by {
                if pre.spec_children(p).contains(child) {
                    let i = choose|i: int|
                        0 <= i < pre.spec_children(p).len() && pre.spec_children(p)[i] == child;
                    assert(pre.spec_parents(pre.spec_children(p)[i]) is Some);
                }
            }
            // Every list of the new graph keeps what the old one held.
            assert forall|x: u32, y: u32| pre.spec_partners(x).contains(y) implies #[trigger]
            post.spec_partners(x).contains(y) by {
                if x == parent_1 && !pre.spec_partners(parent_1).contains(parent_2) {
                    lemma_push_keeps_contains(pre.spec_partners(x), parent_2, y);
                } else if x == parent_2 && !pre.spec_partners(parent_2).contains(parent_1) {
                    lemma_push_keeps_contains(pre.spec_partners(x), parent_1, y);
                } else {
                    assert(post.spec_partners(x) == pre.spec_partners(x));
                }
            }
            assert forall|x: u32, y: u32| pre.spec_children(x).contains(y) implies #[trigger]
            post.spec_children(x).contains(y) by {
                if x == parent_1 || x == parent_2 {
                    lemma_push_keeps_contains(pre.spec_children(x), child, y);
                } else {
                    assert(post.spec_children(x) == pre.spec_children(x));
                }
            }
            assert forall|pr: (u32, u32), y: u32| pre.spec_siblings(pr).contains(y) implies #[trigger]
            post.spec_siblings(pr).contains(y) by {
                if pr == canonical {
                    lemma_push_keeps_contains(pre.spec_siblings(pr), child, y);
                } else {
                    assert(post.spec_siblings(pr) == pre.spec_siblings(pr));
                }
            }
            // The new pair is recorded on both sides of both derived
            // views.
            assert(post.spec_children(parent_1).contains(child)) by {
                let svec = post.spec_children(parent_1);
                assert(svec[svec.len() - 1] == child);
            }
            assert(post.spec_children(parent_2).contains(child)) by {
                let svec = post.spec_children(parent_2);
                assert(svec[svec.len() - 1] == child);
            }
            assert(post.spec_partners(parent_1).contains(parent_2)) by {
                if pre.spec_partners(parent_1).contains(parent_2) {
                } else {
                    let svec = post.spec_partners(parent_1);
                    assert(svec[svec.len() - 1] == parent_2);
                }
            }
            assert(post.spec_partners(parent_2).contains(parent_1)) by {
                if pre.spec_partners(parent_2).contains(parent_1) {
                } else {
                    let svec = post.spec_partners(parent_2);
                    assert(svec[svec.len() - 1] == parent_1);
                }
            }
            // A bred asset's record is mirrored in every derived view.
            assert forall|c: u32| (#[trigger] post.spec_parents(c)) is Some implies {
                let p = post.spec_parents(c)->Some_0;
                p.0 < p.1 && post.spec_has_kitty(p.0) && post.spec_has_kitty(p.1)
                    && post.spec_has_kitty(c) && post.spec_siblings(p).contains(c)
                    && post.spec_children(p.0).contains(c) && post.spec_children(p.1).contains(c)
                    && post.spec_partners(p.0).contains(p.1) && post.spec_partners(p.1).contains(
                    p.0,
                )
            } by {
                let p = post.spec_parents(c)->Some_0;
                if c == child {
                    assert(p == canonical);
                    let svec = post.spec_siblings(canonical);
                    assert(svec[svec.len() - 1] == child);
                    assert(p.0 == parent_1 || p.0 == parent_2);
                    assert(p.1 == parent_1 || p.1 == parent_2);
                } else {
                    assert(pre.spec_parents(c) == Some(p));
                    assert(pre.spec_siblings(p).contains(c));
                    assert(pre.spec_children(p.0).contains(c));
                    assert(pre.spec_children(p.1).contains(c));
                    assert(pre.spec_partners(p.0).contains(p.1));
                    assert(pre.spec_partners(p.1).contains(p.0));
                }
            }
            // Sibling buckets hold exactly the assets recorded under
            // their pair.
            assert forall|pr: (u32, u32), i: int| 0 <= i < post.spec_siblings(pr).len() implies
                post.spec_parents(#[trigger] post.spec_siblings(pr)[i]) == Some(pr) by {
                let c = post.spec_siblings(pr)[i];
                if pr == canonical {
                    if i < pre.spec_siblings(canonical).len() {
                        assert(c == pre.spec_siblings(canonical)[i]);
                        assert(pre.spec_parents(pre.spec_siblings(pr)[i]) == Some(pr));
                        assert(c != child);
                    } else {
                        assert(c == child);
                    }
                } else {
                    assert(post.spec_siblings(pr) == pre.spec_siblings(pr));
                    assert(pre.spec_parents(pre.spec_siblings(pr)[i]) == Some(pr));
                    assert(c != child);
                }
            }
            // Children lists hold only assets bred from their keeper.
            assert forall|p: u32, i: int| 0 <= i < post.spec_children(p).len() implies
                post.spec_parents(#[trigger] post.spec_children(p)[i]) is Some && (
            post.spec_parents(post.spec_children(p)[i])->Some_0.0 == p || post.spec_parents(
                post.spec_children(p)[i],
            )->Some_0.1 == p) by {
                let c = post.spec_children(p)[i];
                if p == parent_1 || p == parent_2 {
                    if i < pre.spec_children(p).len() {
                        assert(c == pre.spec_children(p)[i]);
                        assert(pre.spec_parents(pre.spec_children(p)[i]) is Some);
                        assert(c != child);
                    } else {
                        assert(c == child);
                        assert(p == canonical.0 || p == canonical.1);
                    }
                } else {
                    assert(post.spec_children(p) == pre.spec_children(p));
                    assert(pre.spec_parents(pre.spec_children(p)[i]) is Some);
                    assert(c != child);
                }
            }
            // Partner lists are symmetric.
            assert forall|p: u32, i: int| 0 <= i < post.spec_partners(p).len() implies
                post.spec_partners(#[trigger] post.spec_partners(p)[i]).contains(p) by {
                let q = post.spec_partners(p)[i];
                if p == parent_1 && i == pre.spec_partners(parent_1).len() {
                    assert(q == parent_2);
                } else if p == parent_2 && i == pre.spec_partners(parent_2).len() {
                    assert(q == parent_1);
                } else {
                    assert(q == pre.spec_partners(p)[i]);
                    assert(pre.spec_partners(pre.spec_partners(p)[i]).contains(p));
                }
            }
            // Children lists stay free of duplicates.
            assert forall|p: u32| (#[trigger] post.spec_children(p)).no_duplicates() by {
                assert(pre.spec_children(p).no_duplicates());
                if p == parent_1 || p == parent_2 {
                    lemma_push_fresh_keeps_no_duplicates(pre.spec_children(p), child);
                } else {
                    assert(post.spec_children(p) == pre.spec_children(p));
                }
            }
        }
    }

    /// The conditions under which a breed of these two parents can go
    /// through on this state, and the errors it is otherwise refused with,
    /// checked in this order: both parents must exist, they must differ,
    /// and the identifier space must not be exhausted.
    pub open spec fn spec_breed_check(self, kitty_id_1: u32, kitty_id_2: u32) -> Result<u32, Error> {
        if !self.spec_has_kitty(kitty_id_1) || !self.spec_has_kitty(kitty_id_2) {
            Err(Error::InvalidKittyId)
        } else if kitty_id_1 == kitty_id_2 {
            Err(Error::RequireDifferentParent)
        } else if self.spec_kitties_count() == u32::MAX {
            Err(Error::KittiesCountOverflow)
        } else {
            Ok(self.spec_kitties_count())
        }
    }

    /// Mints the child of two existing, distinct parents: derives its
    /// payload by combining the parents' payloads under a fresh selector,
    /// stores it for the caller, and records the combination in the
    /// kinship graph. Emits nothing and moves no funds; on failure nothing
    /// changes.
    fn do_breed(
        &mut self,
        sender: u64,
        kitty_id_1: u32,
        kitty_id_2: u32,
        seed: &[u8; 32],
        extrinsic_index: Option<u32>,
    ) -> (r: Result<u32, Error>)
        requires
            old(self).wf(),
        ensures
            final(self).wf(),
            r == old(self).spec_breed_check(kitty_id_1, kitty_id_2),
            r is Err ==> *final(self) == *old(self),
            r is Ok ==> ({
                let child = old(self).spec_kitties_count();
                &&& final(self).spec_kitties_count() == child + 1
                &&& forall|id: u32|
                    #![trigger final(self).spec_has_kitty(id)]
                    final(self).spec_has_kitty(id) == (id == child || old(self).spec_has_kitty(id))
                &&& final(self).spec_dna(child) == spec_combine(
                    old(self).spec_dna(kitty_id_1),
                    old(self).spec_dna(kitty_id_2),
                    spec_random_value(seed@, sender, extrinsic_index),
                )
                &&& forall|id: u32|
                    #![trigger final(self).spec_dna(id)]
                    id != child && old(self).spec_has_kitty(id) ==> final(self).spec_dna(id) == old(self).spec_dna(id)
                &&& final(self).spec_owner(child) == Some(sender)
                &&& forall|id: u32|
                    #![trigger final(self).spec_owner(id)]
                    id != child ==> final(self).spec_owner(id) == old(self).spec_owner(id)
                &&& final(self).spec_owned(sender) == old(self).spec_owned(sender).push(child)
                &&& forall|a: u64|
                    #![trigger final(self).spec_owned(a)]
                    a != sender ==> final(self).spec_owned(a) == old(self).spec_owned(a)
                &&& final(self).spec_children(kitty_id_1) == old(self).spec_children(
                    kitty_id_1,
                ).push(child)
                &&& final(self).spec_children(kitty_id_2) == old(self).spec_children(
                    kitty_id_2,
                ).push(child)
                &&& forall|p: u32|
                    #![trigger final(self).spec_children(p)]
                    p != kitty_id_1 && p != kitty_id_2 ==> final(self).spec_children(p) == old(self).spec_children(p)
                &&& final(self).spec_partners(kitty_id_1) == if old(self).spec_partners(
                    kitty_id_1,
                ).contains(kitty_id_2) {
                    old(self).spec_partners(kitty_id_1)
                } else {
                    old(self).spec_partners(kitty_id_1).push(kitty_id_2)
                }
                &&& final(self).spec_partners(kitty_id_2) == if old(self).spec_partners(
                    kitty_id_2,
                ).contains(kitty_id_1) {
                    old(self).spec_partners(kitty_id_2)
                } else {
                    old(self).spec_partners(kitty_id_2).push(kitty_id_1)
                }
                &&& forall|p: u32|
                    #![trigger final(self).spec_partners(p)]
                    p != kitty_id_1 && p != kitty_id_2 ==> final(self).spec_partners(p) == old(self).spec_partners(p)
                &&& final(self).spec_parents(child) == Some(
                    spec_canonical_pair(kitty_id_1, kitty_id_2),
                )
                &&& forall|c: u32|
                    #![trigger final(self).spec_parents(c)]
                    c != child ==> final(self).spec_parents(c) == old(self).spec_parents(c)
                &&& final(self).spec_siblings(spec_canonical_pair(kitty_id_1, kitty_id_2)) == old(self).spec_siblings(spec_canonical_pair(kitty_id_1, kitty_id_2)).push(child)
                &&& forall|pr: (u32, u32)|
                    #![trigger final(self).spec_siblings(pr)]
                    pr != spec_canonical_pair(kitty_id_1, kitty_id_2) ==> final(self).spec_siblings(
                        pr,
                    ) == old(self).spec_siblings(pr)
                &&& old(self).same_prices(*final(self))
                &&& old(self).same_funds(*final(self))
                &&& final(self).spec_events() == old(self).spec_events()
                &&& final(self).spec_stake() == old(self).spec_stake()
            }),
    {
        let kitty1 = match self.kitties.get(&kitty_id_1) {
            Some(k) => *k,
            None => {
                return Err(Error::InvalidKittyId);
            },
        };
        let kitty2 = match self.kitties.get(&kitty_id_2) {
            Some(k) => *k,
            None => {
                return Err(Error::InvalidKittyId);
            },
        };
        if kitty_id_1 == kitty_id_2 {
            return Err(Error::RequireDifferentParent);
        }
        let kitty_id = match self.next_kitty_id() {
            Ok(id) => id,
            Err(e) => {
                return Err(e);
            },
        };
        let selector = random_value(sender, seed, extrinsic_index);
        let new_dna = combine(&kitty1.0, &kitty2.0, &selector);
        proof {
            // The child identifier is fresh, so it carries no parent
            // record yet.
            assert(!old(self).spec_has_kitty(kitty_id));
            assert(old(self).spec_parents(kitty_id) is None);
        }
        self.insert_kitty(sender, kitty_id, Kitty(new_dna));
        let ghost minted = *self;
        self.add_kitty_to_family_tree(kitty_id_1, kitty_id_2, kitty_id);
        proof {
            let pre = *old(self);
            let post = *self;
            // Chain each family of facts through the minted state.
            assert forall|id: u32| id != kitty_id implies #[trigger] post.spec_owner(id)
                == pre.spec_owner(id) by {
                assert(minted.spec_owner(id) == pre.spec_owner(id));
                assert(post.spec_owner(id) == minted.spec_owner(id));
            }
            assert(post.spec_owner(kitty_id) == Some(sender)) by {
                assert(minted.spec_owner(kitty_id) == Some(sender));
            }
            assert forall|id: u32| #[trigger] post.spec_has_kitty(id) == (id == kitty_id
                || pre.spec_has_kitty(id)) by {
                assert(post.spec_has_kitty(id) == minted.spec_has_kitty(id));
            }
            assert(post.spec_dna(kitty_id) == spec_combine(
                pre.spec_dna(kitty_id_1),
                pre.spec_dna(kitty_id_2),
                spec_random_value(seed@, sender, extrinsic_index),
            )) by {
                assert(minted.spec_has_kitty(kitty_id));
                assert(post.spec_dna(kitty_id) == minted.spec_dna(kitty_id));
                assert(minted.spec_dna(kitty_id) == new_dna@);
            }
            assert forall|id: u32| id != kitty_id && pre.spec_has_kitty(id) implies #[trigger]
                post.spec_dna(id) == pre.spec_dna(id) by {
                assert(minted.spec_has_kitty(id));
                assert(minted.spec_dna(id) == pre.spec_dna(id));
                assert(post.spec_dna(id) == minted.spec_dna(id));
            }
            assert(post.spec_owned(sender) == pre.spec_owned(sender).push(kitty_id)) by {
                assert(minted.spec_owned(sender) == pre.spec_owned(sender).push(kitty_id));
                assert(post.spec_owned(sender) == minted.spec_owned(sender));
            }
            assert forall|a: u64| a != sender implies #[trigger] post.spec_owned(a)
                == pre.spec_owned(a) by {
                assert(minted.spec_owned(a) == pre.spec_owned(a));
                assert(post.spec_owned(a) == minted.spec_owned(a));
            }
            assert forall|p: u32| p != kitty_id_1 && p != kitty_id_2 implies #[trigger]
                post.spec_children(p) == pre.spec_children(p) by {
                assert(minted.spec_children(p) == pre.spec_children(p));
            }
            assert(minted.spec_children(kitty_id_1) == pre.spec_children(kitty_id_1));
            assert(minted.spec_children(kitty_id_2) == pre.spec_children(kitty_id_2));
            assert(minted.spec_partners(kitty_id_1) == pre.spec_partners(kitty_id_1));
            assert(minted.spec_partners(kitty_id_2) == pre.spec_partners(kitty_id_2));
            assert forall|p: u32| p != kitty_id_1 && p != kitty_id_2 implies #[trigger]
                post.spec_partners(p) == pre.spec_partners(p) by {
                assert(minted.spec_partners(p) == pre.spec_partners(p));
            }
            assert forall|c: u32| c != kitty_id implies #[trigger] post.spec_parents(c)
                == pre.spec_parents(c) by {
                assert(minted.spec_parents(c) == pre.spec_parents(c));
            }
            assert(minted.spec_siblings(spec_canonical_pair(kitty_id_1, kitty_id_2))
                == pre.spec_siblings(spec_canonical_pair(kitty_id_1, kitty_id_2)));
            assert forall|pr: (u32, u32)| pr != spec_canonical_pair(kitty_id_1, kitty_id_2) implies
                #[trigger] post.spec_siblings(pr) == pre.spec_siblings(pr) by {
                assert(minted.spec_siblings(pr) == pre.spec_siblings(pr));
            }
            assert forall|id: u32| #[trigger] post.spec_price(id) == pre.spec_price(id) by {
                assert(minted.spec_price(id) == pre.spec_price(id));
            }
            assert forall|a: u64|
                #![trigger post.spec_free(a)]
                #![trigger post.spec_reserved(a)]
                post.spec_free(a) == pre.spec_free(a) && post.spec_reserved(a)
                    == pre.spec_reserved(a) by {
                assert(minted.spec_free(a) == pre.spec_free(a));
                assert(minted.spec_reserved(a) == pre.spec_reserved(a));
                assert(post.spec_free(a) == minted.spec_free(a));
                assert(post.spec_reserved(a) == minted.spec_reserved(a));
            }
            assert(post.spec_events() == pre.spec_events()) by {
                assert(minted.spec_events() == pre.spec_events());
            }
        }
        Ok(kitty_id)
    }

    /// Breeds a new asset for `sender` from two parents it names: reserves
    /// the configured stake as best effort, mints the child with a payload
    /// mixed from the parents' payloads under a fresh selector, records
    /// the kinship, and emits the reservation and creation events. Both
    /// parents must exist and differ; any failure leaves the state exactly
    /// as it was.
    pub fn breed(
        &mut self,
        sender: u64,
        kitty_id_1: u32,
        kitty_id_2: u32,
        seed: &[u8; 32],
        extrinsic_index: Option<u32>,
    ) -> (r: Result<(), Error>)
        requires
            old(self).wf(),
        ensures
            final(self).wf(),
            r == (match old(self).spec_breed_check(kitty_id_1, kitty_id_2) {
                Ok(_) => Ok::<(), Error>(()),
                Err(e) => Err::<(), Error>(e),
            }),
            r is Err ==> *final(self) == *old(self),
            r is Ok ==> ({
                let child = old(self).spec_kitties_count();
                &&& !old(self).spec_has_kitty(child)
                &&& final(self).spec_kitties_count() == child + 1
                &&& forall|id: u32|
                    #![trigger final(self).spec_has_kitty(id)]
                    final(self).spec_has_kitty(id) == (id == child || old(self).spec_has_kitty(id))
                &&& final(self).spec_dna(child) == spec_combine(
                    old(self).spec_dna(kitty_id_1),
                    old(self).spec_dna(kitty_id_2),
                    spec_random_value(seed@, sender, extrinsic_index),
                )
                &&& final(self).spec_owner(child) == Some(sender)
                &&& forall|id: u32|
                    #![trigger final(self).spec_owner(id)]
                    id != child ==> final(self).spec_owner(id) == old(self).spec_owner(id)
                &&& final(self).spec_owned(sender) == old(self).spec_owned(sender).push(child)
                &&& forall|a: u64|
                    #![trigger final(self).spec_owned(a)]
                    a != sender ==> final(self).spec_owned(a) == old(self).spec_owned(a)
                &&& final(self).spec_children(kitty_id_1) == old(self).spec_children(
                    kitty_id_1,
                ).push(child)
                &&& final(self).spec_children(kitty_id_2) == old(self).spec_children(
                    kitty_id_2,
                ).push(child)
                &&& final(self).spec_partners(kitty_id_1) == if old(self).spec_partners(
                    kitty_id_1,
                ).contains(kitty_id_2) {
                    old(self).spec_partners(kitty_id_1)
                } else {
                    old(self).spec_partners(kitty_id_1).push(kitty_id_2)
                }
                &&& final(self).spec_partners(kitty_id_2) == if old(self).spec_partners(
                    kitty_id_2,
                ).contains(kitty_id_1) {
                    old(self).spec_partners(kitty_id_2)
                } else {
                    old(self).spec_partners(kitty_id_2).push(kitty_id_1)
                }
                &&& final(self).spec_parents(child) == Some(
                    spec_canonical_pair(kitty_id_1, kitty_id_2),
                )
                &&& final(self).spec_siblings(spec_canonical_pair(kitty_id_1, kitty_id_2)) == old(self).spec_siblings(spec_canonical_pair(kitty_id_1, kitty_id_2)).push(child)
                &&& forall|pr: (u32, u32)|
                    #![trigger final(self).spec_siblings(pr)]
                    pr != spec_canonical_pair(kitty_id_1, kitty_id_2) ==> final(self).spec_siblings(
                        pr,
                    ) == old(self).spec_siblings(pr)
                &&& final(self).spec_events() == old(self).spec_events().push(
                    Event::StakeForKitty(sender, old(self).spec_stake()),
                ).push(Event::Created(sender, child))
                &&& old(self).spec_free(sender) >= old(self).spec_stake() ==> final(self).spec_free(
                    sender,
                ) == old(self).spec_free(sender) - old(self).spec_stake() && final(self).spec_reserved(sender) == old(self).spec_reserved(sender) + old(self).spec_stake()
                &&& old(self).spec_free(sender) < old(self).spec_stake() ==> old(self).same_funds(
                    *final(self),
                )
                &&& forall|a: u64|
                    #![trigger final(self).spec_free(a)]
                    #![trigger final(self).spec_reserved(a)]
                    a != sender ==> final(self).spec_free(a) == old(self).spec_free(a)
                        && final(self).spec_reserved(a) == old(self).spec_reserved(a)
                &&& old(self).same_prices(*final(self))
                &&& final(self).spec_stake() == old(self).spec_stake()
            }),
    {
        // Validate first, exactly as the breeding routine will, so that a
        // refused breed cannot leave the best-effort reservation behind.
        if !self.kitties.contains_key(&kitty_id_1) || !self.kitties.contains_key(&kitty_id_2) {
            return Err(Error::InvalidKittyId);
        }
        if kitty_id_1 == kitty_id_2 {
            return Err(Error::RequireDifferentParent);
        }
        if self.kitties_count == u32::MAX {
            return Err(Error::KittiesCountOverflow);
        }
        let stake = self.stake_for_kitty;
        self.reserve(sender, stake);
        let ghost staked = *self;
        let new_kitty_id = match self.do_breed(sender, kitty_id_1, kitty_id_2, seed, extrinsic_index) {
            Ok(id) => id,
            Err(e) => {
                proof {
                    assert(false);
                }
                return Err(e);
            },
        };
        let ghost bred = *self;
        self.events.push(Event::Created(sender, new_kitty_id));
        proof {
            let pre = *old(self);
            let post = *self;
            assert(new_kitty_id == pre.spec_kitties_count());
            assert forall|id: u32| #[trigger] post.spec_owner(id) == bred.spec_owner(id) by {}
            assert forall|id: u32| #[trigger] post.spec_has_kitty(id) == bred.spec_has_kitty(
                id,
            ) by {}
            assert forall|id: u32| #[trigger] post.spec_dna(id) == bred.spec_dna(id) by {}
            assert forall|a: u64| #[trigger] post.spec_owned(a) == bred.spec_owned(a) by {}
            assert forall|p: u32| #[trigger] post.spec_children(p) == bred.spec_children(p) by {}
            assert forall|p: u32| #[trigger] post.spec_partners(p) == bred.spec_partners(p) by {}
            assert forall|c: u32| #[trigger] post.spec_parents(c) == bred.spec_parents(c) by {}
            assert forall|pr: (u32, u32)| #[trigger] post.spec_siblings(pr) == bred.spec_siblings(
                pr,
            ) by {}
            assert forall|id: u32| #[trigger] post.spec_price(id) == bred.spec_price(id) by {}
            assert forall|a: u64|
                #![trigger post.spec_free(a)]
                #![trigger post.spec_reserved(a)]
                post.spec_free(a) == bred.spec_free(a) && post.spec_reserved(a)
                    == bred.spec_reserved(a) by {}
            assert forall|a: u64|
                #![trigger bred.spec_free(a)]
                #![trigger bred.spec_reserved(a)]
                bred.spec_free(a) == staked.spec_free(a) && bred.spec_reserved(a)
                    == staked.spec_reserved(a) by {}
            assert forall|id: u32|
                #![trigger staked.spec_has_kitty(id)]
                staked.spec_has_kitty(id) == pre.spec_has_kitty(id) by {}
            assert forall|id: u32|
                #![trigger staked.spec_dna(id)]
                pre.spec_has_kitty(id) ==> staked.spec_dna(id) == pre.spec_dna(id) by {}
            lemma_wf_from_same(bred, post);
        }
        Ok(())
    }

    /// Sets or clears the ask price of an asset the caller owns. Setting a
    /// price lists the asset for sale; clearing it takes the asset off the
    /// market. Only the recorded owner may do either.
    pub fn ask(&mut self, sender: u64, kitty_id: u32, new_price: Option<u64>) -> (r: Result<
        (),
        Error,
    >)
        requires
            old(self).wf(),
        ensures
            final(self).wf(),
            r == (if old(self).spec_owner(kitty_id) != Some(sender) {
                Err::<(), Error>(Error::NotKittyOwner)
            } else {
                Ok::<(), Error>(())
            }),
            r is Err ==> *final(self) == *old(self),
            r is Ok ==> ({
                &&& final(self).spec_price(kitty_id) == new_price
                &&& forall|id: u32|
                    #![trigger final(self).spec_price(id)]
                    id != kitty_id ==> final(self).spec_price(id) == old(self).spec_price(id)
                &&& old(self).same_assets(*final(self))
                &&& old(self).same_owners(*final(self))
                &&& old(self).same_owned(*final(self))
                &&& old(self).same_kinship(*final(self))
                &&& old(self).same_funds(*final(self))
                &&& final(self).spec_events() == old(self).spec_events()
                &&& final(self).spec_stake() == old(self).spec_stake()
            }),
    {
        let owner = match self.kitty_owners.get(&kitty_id) {
            Some(o) => *o,
            None => {
                return Err(Error::NotKittyOwner);
            },
        };
        if owner != sender {
            return Err(Error::NotKittyOwner);
        }
        match new_price {
            Some(p) => {
                self.kitty_prices.insert(kitty_id, p);
            },
            None => {
                self.kitty_prices.remove(&kitty_id);
            },
        }
        proof {
            let pre = *old(self);
            let post = *self;
            assert forall|id: u32| (#[trigger] post.spec_price(id)) is Some implies post.spec_owner(
                id,
            ) is Some by {
                if id != kitty_id {
                    assert(pre.spec_price(id) is Some);
                    assert(pre.spec_owner(id) is Some);
                }
            }
            lemma_wf_with_new_prices(pre, post);
        }
        Ok(())
    }

    /// Whether a liquid payment of `amount` from `from` to `to` can go
    /// through on the currency ledger.
    pub open spec fn can_pay(self, from: u64, to: u64, amount: u64) -> bool {
        self.spec_free(from) >= amount && (from == to || self.spec_free(to) + self.spec_reserved(to)
            + amount <= u64::MAX)
    }

    /// Buys a listed asset: the asset must exist and carry an ask price,
    /// the offered price must reach it, and the listed price is then paid
    /// from the buyer to the current owner as liquid funds. The listing is
    /// cleared and ownership reassigned to the buyer in the same atomic
    /// unit; any failure leaves the state exactly as it was.
    pub fn buy(&mut self, sender: u64, kitty_id: u32, price: u64) -> (r: Result<(), Error>)
        requires
            old(self).wf(),
        ensures
            final(self).wf(),
            r == (if old(self).spec_owner(kitty_id) is None {
                Err::<(), Error>(Error::InvalidKittyId)
            } else if old(self).spec_price(kitty_id) is None {
                Err::<(), Error>(Error::NotForSale)
            } else if price < old(self).spec_price(kitty_id)->Some_0 {
                Err::<(), Error>(Error::PriceTooLow)
            } else if !old(self).can_pay(
                sender,
                old(self).spec_owner(kitty_id)->Some_0,
                old(self).spec_price(kitty_id)->Some_0,
            ) {
                Err::<(), Error>(Error::NotEnoughBalance)
            } else {
                Ok::<(), Error>(())
            }),
            r is Err ==> *final(self) == *old(self),
            r is Ok ==> ({
                let owner = old(self).spec_owner(kitty_id)->Some_0;
                let list_price = old(self).spec_price(kitty_id)->Some_0;
                &&& final(self).spec_owner(kitty_id) == Some(sender)
                &&& forall|id: u32|
                    #![trigger final(self).spec_owner(id)]
                    id != kitty_id ==> final(self).spec_owner(id) == old(self).spec_owner(id)
                &&& final(self).spec_price(kitty_id) is None
                &&& forall|id: u32|
                    #![trigger final(self).spec_price(id)]
                    id != kitty_id ==> final(self).spec_price(id) == old(self).spec_price(id)
                &&& owner != sender ==> final(self).spec_owned(owner) == old(self).spec_owned(
                    owner,
                ).remove_value(kitty_id) && final(self).spec_owned(sender) == old(self).spec_owned(
                    sender,
                ).push(kitty_id)
                &&& owner == sender ==> final(self).spec_owned(sender) == old(self).spec_owned(
                    sender,
                ).remove_value(kitty_id).push(kitty_id)
                &&& forall|a: u64|
                    #![trigger final(self).spec_owned(a)]
                    a != owner && a != sender ==> final(self).spec_owned(a) == old(self).spec_owned(
                        a,
                    )
                &&& owner != sender ==> final(self).spec_free(sender) == old(self).spec_free(sender)
                    - list_price && final(self).spec_free(owner) == old(self).spec_free(owner)
                    + list_price && final(self).spec_reserved(sender) == old(self).spec_reserved(
                    sender,
                ) && final(self).spec_reserved(owner) == old(self).spec_reserved(owner)
                &&& owner == sender ==> old(self).same_funds(*final(self))
                &&& forall|a: u64|
                    #![trigger final(self).spec_free(a)]
                    #![trigger final(self).spec_reserved(a)]
                    a != sender && a != owner ==> final(self).spec_free(a) == old(self).spec_free(a)
                        && final(self).spec_reserved(a) == old(self).spec_reserved(a)
                &&& old(self).same_assets(*final(self))
                &&& old(self).same_kinship(*final(self))
                &&& final(self).spec_events() == old(self).spec_events()
                &&& final(self).spec_stake() == old(self).spec_stake()
            }),
    {
        let owner = match self.kitty_owners.get(&kitty_id) {
            Some(o) => *o,
            None => {
                return Err(Error::InvalidKittyId);
            },
        };
        let kitty_price = match self.kitty_prices.get(&kitty_id) {
            Some(p) => *p,
            None => {
                return Err(Error::NotForSale);
            },
        };
        if price < kitty_price {
            return Err(Error::PriceTooLow);
        }
        match self.balances.transfer(sender, owner, kitty_price) {
            Ok(_) => (),
            Err(e) => {
                return Err(e);
            },
        }
        let ghost paid = *self;
        proof {
            assert(old(self).spec_owned(owner).contains(kitty_id));
            assert(paid.spec_owned(owner) == old(self).spec_owned(owner));
            assert(!old(self).spec_owned(sender).contains(kitty_id) || sender == owner) by {
                if sender != owner && old(self).spec_owned(sender).contains(kitty_id) {
                    let i = choose|i: int|
                        0 <= i < old(self).spec_owned(sender).len() && old(self).spec_owned(
                            sender,
                        )[i] == kitty_id;
                    assert(old(self).spec_owner(old(self).spec_owned(sender)[i]) == Some(sender));
                }
            }
            lemma_remove_value_props(old(self).spec_owned(owner), kitty_id);
        }
        self.kitty_prices.remove(&kitty_id);
        self.kitty_owners.insert(kitty_id, sender);
        let mut list = match self.account_kitties.remove(&owner) {
            Some(l) => l,
            None => Vec::new(),
        };
        proof {
            assert(list@ == paid.spec_owned(owner));
        }
        vec_remove_value(&mut list, kitty_id);
        self.account_kitties.insert(owner, list);
        let ghost relisted = *self;
        self.add_kitty_to_owner(sender, kitty_id);
        proof {
            let pre = *old(self);
            let post = *self;
            lemma_push_fresh_keeps_no_duplicates(
                pre.spec_owned(owner).remove_value(kitty_id),
                kitty_id,
            );
            if sender != owner {
                lemma_push_fresh_keeps_no_duplicates(pre.spec_owned(sender), kitty_id);
            }
            // Pointwise picture of the final state.
            assert(relisted.spec_owner(kitty_id) == Some(sender));
            assert(post.spec_owner(kitty_id) == Some(sender));
            assert forall|id: u32| id != kitty_id implies #[trigger] post.spec_owner(id)
                == pre.spec_owner(id) by {
                assert(relisted.spec_owner(id) == paid.spec_owner(id));
                assert(post.spec_owner(id) == relisted.spec_owner(id));
            }
            assert(post.spec_price(kitty_id) is None) by {
                assert(relisted.spec_price(kitty_id) is None);
            }
            assert forall|id: u32| id != kitty_id implies #[trigger] post.spec_price(id)
                == pre.spec_price(id) by {
                assert(relisted.spec_price(id) == paid.spec_price(id));
                assert(post.spec_price(id) == relisted.spec_price(id));
            }
            assert(relisted.spec_owned(owner) == pre.spec_owned(owner).remove_value(kitty_id));
            if sender != owner {
                assert(relisted.spec_owned(sender) == paid.spec_owned(sender));
                assert(paid.spec_owned(sender) == pre.spec_owned(sender));
                assert(post.spec_owned(sender) == pre.spec_owned(sender).push(kitty_id));
                assert(post.spec_owned(owner) == relisted.spec_owned(owner));
            } else {
                assert(post.spec_owned(sender) == pre.spec_owned(sender).remove_value(
                    kitty_id,
                ).push(kitty_id));
            }
            assert forall|a: u64| a != owner && a != sender implies #[trigger] post.spec_owned(a)
                == pre.spec_owned(a) by {
                assert(relisted.spec_owned(a) == paid.spec_owned(a));
                assert(paid.spec_owned(a) == pre.spec_owned(a));
                assert(post.spec_owned(a) == relisted.spec_owned(a));
            }
            assert forall|id: u32| #[trigger] post.spec_has_kitty(id) == pre.spec_has_kitty(
                id,
            ) by {
                assert(relisted.spec_has_kitty(id) == paid.spec_has_kitty(id));
                assert(post.spec_has_kitty(id) == relisted.spec_has_kitty(id));
            }
            assert forall|id: u32| pre.spec_has_kitty(id) implies #[trigger] post.spec_dna(id)
                == pre.spec_dna(id) by {
                assert(relisted.spec_has_kitty(id) == paid.spec_has_kitty(id));
                assert(relisted.spec_dna(id) == paid.spec_dna(id));
                assert(post.spec_dna(id) == relisted.spec_dna(id));
            }
            assert forall|p: u32| #[trigger] post.spec_children(p) == pre.spec_children(p) by {
                assert(relisted.spec_children(p) == paid.spec_children(p));
                assert(post.spec_children(p) == relisted.spec_children(p));
            }
            assert forall|p: u32| #[trigger] post.spec_partners(p) == pre.spec_partners(p) by {
                assert(relisted.spec_partners(p) == paid.spec_partners(p));
                assert(post.spec_partners(p) == relisted.spec_partners(p));
            }
            assert forall|c: u32| #[trigger] post.spec_parents(c) == pre.spec_parents(c) by {
                assert(relisted.spec_parents(c) == paid.spec_parents(c));
                assert(post.spec_parents(c) == relisted.spec_parents(c));
            }
            assert forall|pr: (u32, u32)| #[trigger] post.spec_siblings(pr) == pre.spec_siblings(
                pr,
            ) by {
                assert(relisted.spec_siblings(pr) == paid.spec_siblings(pr));
                assert(post.spec_siblings(pr) == relisted.spec_siblings(pr));
            }
            assert forall|a: u64|
                #![trigger post.spec_free(a)]
                #![trigger post.spec_reserved(a)]
                post.spec_free(a) == paid.spec_free(a) && post.spec_reserved(a)
                    == paid.spec_reserved(a) by {
                assert(relisted.spec_free(a) == paid.spec_free(a));
                assert(relisted.spec_reserved(a) == paid.spec_reserved(a));
                assert(post.spec_free(a) == relisted.spec_free(a));
                assert(post.spec_reserved(a) == relisted.spec_reserved(a));
            }
            assert(post.balances_wf()) by {
                assert(paid.balances_wf());
                lemma_balances_wf_from_same_funds(paid, post);
            }
            // Well-formedness of the final state.
            assert forall|id: u32| (#[trigger] post.spec_owner(id)) is Some implies
                post.spec_owned(post.spec_owner(id)->Some_0).contains(id) by {
                if id == kitty_id {
                    let svec = post.spec_owned(sender);
                    assert(svec[svec.len() - 1] == kitty_id);
                } else {
                    let a = pre.spec_owner(id)->Some_0;
                    assert(pre.spec_owned(a).contains(id));
                    if a == owner {
                        assert(pre.spec_owned(owner).remove_value(kitty_id).contains(id));
                        if sender == owner {
                            let rv = pre.spec_owned(owner).remove_value(kitty_id);
                            let i = choose|i: int| 0 <= i < rv.len() && rv[i] == id;
                            assert(post.spec_owned(a)[i] == id);
                        }
                    } else if a == sender {
                        let i = choose|i: int|
                            0 <= i < pre.spec_owned(a).len() && pre.spec_owned(a)[i] == id;
                        assert(post.spec_owned(a)[i] == id);
                    }
                }
            }
            assert forall|a: u64, i: int| 0 <= i < post.spec_owned(a).len() implies post.spec_owner(
                #[trigger] post.spec_owned(a)[i],
            ) == Some(a) by {
                let y = post.spec_owned(a)[i];
                if a == sender && i == post.spec_owned(a).len() - 1 {
                    assert(y == kitty_id);
                } else if a == owner || a == sender {
                    assert(pre.spec_owned(a).contains(y)) by {
                        if a == owner && !(a == sender) {
                            assert(post.spec_owned(a)
                                == pre.spec_owned(a).remove_value(kitty_id));
                            assert(pre.spec_owned(a).remove_value(kitty_id).contains(y)) by {
                                assert(post.spec_owned(a)[i] == y);
                            }
                        } else if a == sender && !(a == owner) {
                            assert(pre.spec_owned(a)[i] == y);
                        } else {
                            let rv = pre.spec_owned(a).remove_value(kitty_id);
                            assert(rv[i] == y);
                            assert(rv.contains(y));
                        }
                    }
                    assert(y != kitty_id) by {
                        if a == owner && !(a == sender) {
                            assert(!post.spec_owned(a).contains(kitty_id));
                            assert(post.spec_owned(a)[i] == y);
                        } else if a == sender && !(a == owner) {
                            assert(!pre.spec_owned(sender).contains(kitty_id));
                        } else {
                            let rv = pre.spec_owned(a).remove_value(kitty_id);
                            assert(rv[i] == y && !rv.contains(kitty_id)) by {
                                assert(rv[i] == y);
                            }
                        }
                    }
                    let j = choose|j: int|
                        0 <= j < pre.spec_owned(a).len() && pre.spec_owned(a)[j] == y;
                    assert(pre.spec_owner(pre.spec_owned(a)[j]) == Some(a));
                } else {
                    assert(pre.spec_owned(a)[i] == y);
                    assert(pre.spec_owner(pre.spec_owned(a)[i]) == Some(a));
                    assert(y != kitty_id);
                }
            }
            assert forall|a: u64| (#[trigger] post.spec_owned(a)).no_duplicates() by {
                if a == sender || a == owner {
                } else {
                    assert(post.spec_owned(a) == pre.spec_owned(a));
                    assert(pre.spec_owned(a).no_duplicates());
                }
            }
            assert forall|id: u32| (#[trigger] post.spec_price(id)) is Some implies post.spec_owner(
                id,
            ) is Some by {
                assert(id != kitty_id);
                assert(pre.spec_price(id) is Some);
                assert(pre.spec_owner(id) is Some);
            }
        }
        Ok(())
    }

    /// Whether the escrow move that binds a transferred asset's collateral
    /// to its new owner can be carried out in full: the source must be
    /// able to cover the amount once its reservation is released, and the
    /// destination must be able to absorb it.
    pub open spec fn can_move_stake(self, from: u64, to: u64, amount: u64) -> bool {
        &&& from != to
        &&& self.spec_free(from) + (if self.spec_reserved(from) < amount {
            self.spec_reserved(from)
        } else {
            amount
        }) >= amount
        &&& self.spec_free(to) + self.spec_reserved(to) + amount <= u64::MAX
    }

    /// Moves the collateral bound to an asset from one owner to the other:
    /// releases the source's reservation, pays the amount across as liquid
    /// funds, and reserves it against the destination. The three steps are
    /// one atomic unit: when the move cannot be carried out in full,
    /// nothing happens and the operation fails.
    fn transfer_stake(&mut self, from: u64, to: u64, amount: u64) -> (r: Result<(), Error>)
        requires
            old(self).wf(),
        ensures
            final(self).wf(),
            r is Ok <==> old(self).can_move_stake(from, to, amount),
            r is Err ==> r == Err::<(), Error>(Error::NotEnoughBalance) && *final(self) == *old(self),
            r is Ok ==> ({
                let moved = if old(self).spec_reserved(from) < amount {
                    old(self).spec_reserved(from)
                } else {
                    amount
                };
                &&& final(self).spec_free(from) == old(self).spec_free(from) + moved - amount
                &&& final(self).spec_reserved(from) == old(self).spec_reserved(from) - moved
                &&& final(self).spec_free(to) == old(self).spec_free(to)
                &&& final(self).spec_reserved(to) == old(self).spec_reserved(to) + amount
            }),
            forall|a: u64|
                #![trigger final(self).spec_free(a)]
                #![trigger final(self).spec_reserved(a)]
                a != from && a != to ==> final(self).spec_free(a) == old(self).spec_free(a)
                    && final(self).spec_reserved(a) == old(self).spec_reserved(a),
            old(self).same_assets(*final(self)),
            old(self).same_owners(*final(self)),
            old(self).same_owned(*final(self)),
            old(self).same_kinship(*final(self)),
            old(self).same_prices(*final(self)),
            final(self).spec_events() == old(self).spec_events(),
            final(self).spec_stake() == old(self).spec_stake(),
    {
        if from == to {
            return Err(Error::NotEnoughBalance);
        }
        let free_from = self.balances.free_balance(from);
        let reserved_from = self.balances.reserved_balance(from);
        let free_to = self.balances.free_balance(to);
        let reserved_to = self.balances.reserved_balance(to);
        let moved = if reserved_from < amount {
            reserved_from
        } else {
            amount
        };
        if free_from < amount - moved {
            return Err(Error::NotEnoughBalance);
        }
        if amount > u64::MAX - free_to || free_to + amount > u64::MAX - reserved_to {
            return Err(Error::NotEnoughBalance);
        }
        let _ = self.balances.unreserve(from, amount);
        let r1 = self.balances.transfer(from, to, amount);
        proof {
            assert(r1 is Ok);
        }
        let r2 = self.balances.reserve(to, amount);
        proof {
            assert(r2 is Ok);
            lemma_wf_from_same(*old(self), *self);
        }
        Ok(())
    }

    /// Moves an asset from the caller to another owner. The caller must be
    /// the recorded owner, must not name itself as the destination, and
    /// the collateral bound to the asset must be movable in full; then the
    /// stake moves, the ownership records are rewritten on both sides, and
    /// the transfer event is emitted. Any failure leaves the state exactly
    /// as it was.
    pub fn transfer(&mut self, sender: u64, to: u64, kitty_id: u32) -> (r: Result<(), Error>)
        requires
            old(self).wf(),
        ensures
            final(self).wf(),
            r == (if old(self).spec_owner(kitty_id) is None {
                Err::<(), Error>(Error::KittyNotExit)
            } else if old(self).spec_owner(kitty_id) != Some(sender) {
                Err::<(), Error>(Error::NotKittyOwner)
            } else if to == sender {
                Err::<(), Error>(Error::CantTransferToSelf)
            } else if !old(self).can_move_stake(sender, to, old(self).spec_stake()) {
                Err::<(), Error>(Error::NotEnoughBalance)
            } else {
                Ok::<(), Error>(())
            }),
            r is Err ==> *final(self) == *old(self),
            r is Ok ==> ({
                let moved = if old(self).spec_reserved(sender) < old(self).spec_stake() {
                    old(self).spec_reserved(sender)
                } else {
                    old(self).spec_stake()
                };
                &&& final(self).spec_owner(kitty_id) == Some(to)
                &&& forall|id: u32|
                    #![trigger final(self).spec_owner(id)]
                    id != kitty_id ==> final(self).spec_owner(id) == old(self).spec_owner(id)
                &&& final(self).spec_owned(sender) == old(self).spec_owned(sender).remove_value(
                    kitty_id,
                )
                &&& !final(self).spec_owned(sender).contains(kitty_id)
                &&& final(self).spec_owned(to) == old(self).spec_owned(to).push(kitty_id)
                &&& forall|a: u64|
                    #![trigger final(self).spec_owned(a)]
                    a != sender && a != to ==> final(self).spec_owned(a) == old(self).spec_owned(a)
                &&& final(self).spec_events() == old(self).spec_events().push(
                    Event::Transfered(sender, to, kitty_id),
                )
                &&& final(self).spec_free(sender) == old(self).spec_free(sender) + moved - old(self).spec_stake()
                &&& final(self).spec_reserved(sender) == old(self).spec_reserved(sender) - moved
                &&& final(self).spec_free(to) == old(self).spec_free(to)
                &&& final(self).spec_reserved(to) == old(self).spec_reserved(to) + old(self).spec_stake()
                &&& forall|a: u64|
                    #![trigger final(self).spec_free(a)]
                    #![trigger final(self).spec_reserved(a)]
                    a != sender && a != to ==> final(self).spec_free(a) == old(self).spec_free(a)
                        && final(self).spec_reserved(a) == old(self).spec_reserved(a)
                &&& old(self).same_assets(*final(self))
                &&& old(self).same_kinship(*final(self))
                &&& old(self).same_prices(*final(self))
                &&& final(self).spec_stake() == old(self).spec_stake()
            }),
    {
        let kitty_owner = match self.kitty_owners.get(&kitty_id) {
            Some(o) => *o,
            None => {
                return Err(Error::KittyNotExit);
            },
        };
        if sender != kitty_owner {
            return Err(Error::NotKittyOwner);
        }
        if sender == to {
            return Err(Error::CantTransferToSelf);
        }
        let stake = self.stake_for_kitty;
        match self.transfer_stake(sender, to, stake) {
            Ok(_) => (),
            Err(e) => {
                return Err(e);
            },
        }
        let ghost staked = *self;
        proof {
            // The caller's list holds the asset, and the destination's
            // does not, because the asset is owned by the caller alone.
            assert(old(self).spec_owned(sender).contains(kitty_id));
            assert(staked.spec_owned(sender) == old(self).spec_owned(sender));
            assert(!old(self).spec_owned(to).contains(kitty_id)) by {
                if old(self).spec_owned(to).contains(kitty_id) {
                    let i = choose|i: int|
                        0 <= i < old(self).spec_owned(to).len() && old(self).spec_owned(to)[i]
                            == kitty_id;
                    assert(old(self).spec_owner(old(self).spec_owned(to)[i]) == Some(to));
                }
            }
            lemma_remove_value_props(old(self).spec_owned(sender), kitty_id);
        }
        self.kitty_owners.insert(kitty_id, to);
        let mut list = match self.account_kitties.remove(&sender) {
            Some(l) => l,
            None => Vec::new(),
        };
        proof {
            assert(list@ == staked.spec_owned(sender));
        }
        vec_remove_value(&mut list, kitty_id);
        self.account_kitties.insert(sender, list);
        let ghost relisted = *self;
        self.add_kitty_to_owner(to, kitty_id);
        let ghost done = *self;
        self.events.push(Event::Transfered(sender, to, kitty_id));
        proof {
            let pre = *old(self);
            let post = *self;
            lemma_push_fresh_keeps_no_duplicates(pre.spec_owned(to), kitty_id);
            // Pointwise picture of the final state.
            assert forall|id: u32| #[trigger] post.spec_owner(id) == done.spec_owner(id) by {}
            assert(relisted.spec_owner(kitty_id) == Some(to));
            assert(post.spec_owner(kitty_id) == Some(to));
            assert forall|id: u32| id != kitty_id implies #[trigger] post.spec_owner(id)
                == pre.spec_owner(id) by {
                assert(relisted.spec_owner(id) == staked.spec_owner(id));
            }
            assert forall|a: u64| #[trigger] post.spec_owned(a) == done.spec_owned(a) by {}
            assert(relisted.spec_owned(sender) == pre.spec_owned(sender).remove_value(kitty_id));
            assert(relisted.spec_owned(to) == staked.spec_owned(to));
            assert(staked.spec_owned(to) == pre.spec_owned(to));
            assert(post.spec_owned(to) == pre.spec_owned(to).push(kitty_id));
            assert(post.spec_owned(sender) == pre.spec_owned(sender).remove_value(kitty_id));
            assert forall|a: u64| a != sender && a != to implies #[trigger] post.spec_owned(a)
                == pre.spec_owned(a) by {
                assert(relisted.spec_owned(a) == staked.spec_owned(a));
                assert(done.spec_owned(a) == relisted.spec_owned(a));
            }
            assert forall|id: u32| #[trigger] post.spec_has_kitty(id) == pre.spec_has_kitty(
                id,
            ) by {
                assert(relisted.spec_has_kitty(id) == staked.spec_has_kitty(id));
                assert(done.spec_has_kitty(id) == relisted.spec_has_kitty(id));
            }
            assert forall|id: u32| #[trigger] post.spec_dna(id) == done.spec_dna(id) by {}
            assert forall|id: u32| pre.spec_has_kitty(id) implies #[trigger] post.spec_dna(id)
                == pre.spec_dna(id) by {
                assert(staked.spec_has_kitty(id) == pre.spec_has_kitty(id));
                assert(relisted.spec_has_kitty(id) == staked.spec_has_kitty(id));
                assert(staked.spec_dna(id) == pre.spec_dna(id));
                assert(relisted.spec_dna(id) == staked.spec_dna(id));
                assert(done.spec_dna(id) == relisted.spec_dna(id));
            }
            assert forall|p: u32| #[trigger] post.spec_children(p) == pre.spec_children(p) by {
                assert(relisted.spec_children(p) == staked.spec_children(p));
                assert(done.spec_children(p) == relisted.spec_children(p));
            }
            assert forall|p: u32| #[trigger] post.spec_partners(p) == pre.spec_partners(p) by {
                assert(relisted.spec_partners(p) == staked.spec_partners(p));
                assert(done.spec_partners(p) == relisted.spec_partners(p));
            }
            assert forall|c: u32| #[trigger] post.spec_parents(c) == pre.spec_parents(c) by {
                assert(relisted.spec_parents(c) == staked.spec_parents(c));
                assert(done.spec_parents(c) == relisted.spec_parents(c));
            }
            assert forall|pr: (u32, u32)| #[trigger] post.spec_siblings(pr) == pre.spec_siblings(
                pr,
            ) by {
                assert(relisted.spec_siblings(pr) == staked.spec_siblings(pr));
                assert(done.spec_siblings(pr) == relisted.spec_siblings(pr));
            }
            assert forall|id: u32| #[trigger] post.spec_price(id) == pre.spec_price(id) by {
                assert(relisted.spec_price(id) == staked.spec_price(id));
                assert(done.spec_price(id) == relisted.spec_price(id));
            }
            assert forall|a: u64|
                #![trigger post.spec_free(a)]
                #![trigger post.spec_reserved(a)]
                post.spec_free(a) == staked.spec_free(a) && post.spec_reserved(a)
                    == staked.spec_reserved(a) by {
                assert(done.spec_free(a) == relisted.spec_free(a));
                assert(done.spec_reserved(a) == relisted.spec_reserved(a));
            }
            assert(post.balances_wf()) by {
                assert(staked.balances_wf());
                lemma_balances_wf_from_same_funds(staked, post);
            }
            // Well-formedness of the final state.
            assert forall|id: u32| (#[trigger] post.spec_owner(id)) is Some implies
                post.spec_owned(post.spec_owner(id)->Some_0).contains(id) by {
                if id == kitty_id {
                    let svec = post.spec_owned(to);
                    assert(svec[svec.len() - 1] == kitty_id);
                } else {
                    let a = pre.spec_owner(id)->Some_0;
                    assert(pre.spec_owned(a).contains(id));
                    if a == sender {
                        assert(post.spec_owned(a).contains(id));
                    } else if a == to {
                        let i = choose|i: int|
                            0 <= i < pre.spec_owned(a).len() && pre.spec_owned(a)[i] == id;
                        assert(post.spec_owned(a)[i] == id);
                    }
                }
            }
            assert forall|a: u64, i: int| 0 <= i < post.spec_owned(a).len() implies post.spec_owner(
                #[trigger] post.spec_owned(a)[i],
            ) == Some(a) by {
                if a == sender {
                    assert(pre.spec_owned(sender).contains(post.spec_owned(a)[i]));
                    assert(post.spec_owned(a)[i] != kitty_id);
                    let y = post.spec_owned(a)[i];
                    let j = choose|j: int|
                        0 <= j < pre.spec_owned(sender).len() && pre.spec_owned(sender)[j] == y;
                    assert(pre.spec_owner(pre.spec_owned(sender)[j]) == Some(sender));
                } else if a == to {
                    if i == pre.spec_owned(to).len() {
                    } else {
                        assert(pre.spec_owned(to)[i] == post.spec_owned(a)[i]);
                        assert(pre.spec_owner(pre.spec_owned(to)[i]) == Some(to));
                        assert(pre.spec_owned(to)[i] != kitty_id);
                    }
                } else {
                    assert(pre.spec_owned(a)[i] == post.spec_owned(a)[i]);
                    assert(pre.spec_owner(pre.spec_owned(a)[i]) == Some(a));
                    assert(pre.spec_owned(a)[i] != kitty_id);
                }
            }
            assert forall|a: u64| (#[trigger] post.spec_owned(a)).no_duplicates() by {
                if a == sender {
                } else if a == to {
                } else {
                    assert(post.spec_owned(a) == pre.spec_owned(a));
                    assert(pre.spec_owned(a).no_duplicates());
                }
            }
        }
        Ok(())
    }

    /// The payload of an asset, if it exists.
    pub fn kitties(&self, kitty_id: u32) -> (r: Option<Kitty>)
        ensures
            match r {
                Some(k) => self.spec_has_kitty(kitty_id) && k.0@ == self.spec_dna(kitty_id),
                None => !self.spec_has_kitty(kitty_id),
            },
    {
        match self.kitties.get(&kitty_id) {
            Some(k) => Some(*k),
            None => None,
        }
    }

    /// The identifier the next minted asset will receive.
    pub fn kitties_count(&self) -> (r: u32)
        ensures
            r == self.spec_kitties_count(),
    {
        self.kitties_count
    }

    /// The recorded owner of an asset, if it exists.
    pub fn kitty_owner(&self, kitty_id: u32) -> (r: Option<u64>)
        ensures
            r == self.spec_owner(kitty_id),
    {
        match self.kitty_owners.get(&kitty_id) {
            Some(o) => Some(*o),
            None => None,
        }
    }

    /// The assets an account holds, in insertion order.
    pub fn account_kitty(&self, who: u64) -> (r: Vec<u32>)
        ensures
            r@ == self.spec_owned(who),
    {
        match self.account_kitties.get(&who) {
            Some(l) => clone_ids(l),
            None => Vec::new(),
        }
    }

    /// One of an asset's kinship lists: the children it produced, or the
    /// distinct partners it was combined with.
    pub fn family_map(&self, kitty_id: u32, relation: Relation) -> (r: Vec<u32>)
        ensures
            r@ == match relation {
                Relation::Children => self.spec_children(kitty_id),
                Relation::Partner => self.spec_partners(kitty_id),
            },
    {
        let map = match relation {
            Relation::Children => &self.family_children,
            Relation::Partner => &self.family_partners,
        };
        match map.get(&kitty_id) {
            Some(l) => clone_ids(l),
            None => Vec::new(),
        }
    }

    /// The canonical parent pair of a bred asset; an asset minted directly
    /// reports the default pair.
    pub fn kitty_parents(&self, kitty_id: u32) -> (r: (u32, u32))
        ensures
            r == match self.spec_parents(kitty_id) {
                Some(p) => p,
                None => (0u32, 0u32),
            },
    {
        match self.kitty_parents.get(&kitty_id) {
            Some(p) => *p,
            None => (0, 0),
        }
    }

    /// The assets recorded under this exact parent pair.
    pub fn sibling(&self, parents: (u32, u32)) -> (r: Vec<u32>)
        ensures
            r@ == self.spec_siblings(parents),
    {
        let key = pair_key(parents);
        match self.parents_children.get(&key) {
            Some(l) => clone_ids(l),
            None => Vec::new(),
        }
    }

    /// The ask price of an asset; `None` means not for sale.
    pub fn kitty_price(&self, kitty_id: u32) -> (r: Option<u64>)
        ensures
            r == self.spec_price(kitty_id),
    {
        match self.kitty_prices.get(&kitty_id) {
            Some(p) => Some(*p),
            None => None,
        }
    }

    /// The events emitted so far, oldest first.
    pub fn events(&self) -> (r: &Vec<Event>)
        ensures
            r@ == self.spec_events(),
    {
        &self.events
    }

    /// The fixed collateral amount bound to each minted asset.
    pub fn stake_for_kitty(&self) -> (r: u64)
        ensures
            r == self.spec_stake(),
    {
        self.stake_for_kitty
    }

    /// The free balance an account holds on the currency ledger.
    pub fn free_balance(&self, who: u64) -> (r: u64)
        ensures
            r == self.spec_free(who),
    {
        self.balances.free_balance(who)
    }

    /// The reserved balance an account holds on the currency ledger.
    pub fn reserved_balance(&self, who: u64) -> (r: u64)
        ensures
            r == self.spec_reserved(who),
    {
        self.balances.reserved_balance(who)
    }
}

/// Identifier allocation is monotonic: every asset that exists sits
/// strictly below the counter, so the identifier a successful creation or
/// breed allocates next is strictly greater than every identifier issued
/// before it.
pub proof fn lemma_next_id_exceeds_existing(e: Engine)
    requires
        e.wf(),
    ensures
        forall|id: u32| #[trigger] e.spec_has_kitty(id) ==> id < e.spec_kitties_count(),
{
}

/// The canonical parent pair does not depend on the order the parents were
/// given in: combining (a, b) and (b, a) names the same kinship bucket.
pub proof fn lemma_canonical_pair_symmetric(a: u32, b: u32)
    ensures
        spec_canonical_pair(a, b) == spec_canonical_pair(b, a),
{
}

/// A recorded partner appears exactly once in the partner list, however
/// many times the two assets are bred together.
pub proof fn lemma_partner_recorded_once(e: Engine, parent: u32, partner: u32)
    requires
        e.wf(),
        e.spec_partners(parent).contains(partner),
    ensures
        exists|i: int|
            0 <= i < e.spec_partners(parent).len() && e.spec_partners(parent)[i] == partner
                && (forall|j: int|
                0 <= j < e.spec_partners(parent).len() && e.spec_partners(parent)[j] == partner
                    ==> j == i),
{
    let s = e.spec_partners(parent);
    assert(s.no_duplicates());
    let i = choose|i: int| 0 <= i < s.len() && s[i] == partner;
    assert forall|j: int| 0 <= j < s.len() && s[j] == partner implies j == i by {
        if j != i {
            assert(s[i] != s[j]);
        }
    }
    assert(0 <= i < s.len() && s[i] == partner && (forall|j: int|
        0 <= j < s.len() && s[j] == partner ==> j == i));
}

/// Ownership is single and exact: an owned asset sits in its owner's list
/// exactly once and in no other account's list.
pub proof fn lemma_owner_set_exact(e: Engine, kitty_id: u32, owner: u64)
    requires
        e.wf(),
        e.spec_owner(kitty_id) == Some(owner),
    ensures
        e.spec_owned(owner).contains(kitty_id),
        forall|b: u64| b != owner ==> !(#[trigger] e.spec_owned(b)).contains(kitty_id),
        forall|i: int, j: int|
            0 <= i < e.spec_owned(owner).len() && 0 <= j < e.spec_owned(owner).len()
                && e.spec_owned(owner)[i] == kitty_id && e.spec_owned(owner)[j] == kitty_id ==> i
                == j,
{
    assert forall|b: u64| b != owner implies !(#[trigger] e.spec_owned(b)).contains(kitty_id) by {
        if e.spec_owned(b).contains(kitty_id) {
            let i = choose|i: int| 0 <= i < e.spec_owned(b).len() && e.spec_owned(b)[i] == kitty_id;
            assert(e.spec_owner(e.spec_owned(b)[i]) == Some(b));
        }
    }
    assert(e.spec_owned(owner).no_duplicates());
}

/// A clone of an identifier list.
fn clone_ids(v: &Vec<u32>) -> (r: Vec<u32>)
    ensures
        r@ == v@,
{
    let mut r: Vec<u32> = Vec::new();
    let mut i: usize = 0;
    while i < v.len()
        invariant
            i <= v@.len(),
            r@ == v@.subrange(0, i as int),
        decreases v@.len() - i,
    {
        r.push(v[i]);
        i = i + 1;
    }
    proof {
        assert(r@ =~= v@);
    }
    r
}

/// The storage key under which a pair's sibling list is kept.
fn pair_key(p: (u32, u32)) -> (r: u64)
    ensures
        r == spec_pair_key(p),
{
    proof {
        lemma_pair_key_injective(p, p);
    }
    (p.0 as u64) * 0x1_0000_0000u64 + (p.1 as u64)
}

/// Whether a list holds a given identifier.
fn vec_contains(v: &Vec<u32>, x: u32) -> (r: bool)
    ensures
        r == v@.contains(x),
{
    let mut i: usize = 0;
    while i < v.len()
        invariant
            i <= v@.len(),
            forall|j: int| 0 <= j < i ==> v@[j] != x,
        decreases v@.len() - i,
    {
        if v[i] == x {
            return true;
        }
        i = i + 1;
    }
    false
}

/// Appending to a list keeps every identifier the list already held.
proof fn lemma_push_keeps_contains(s: Seq<u32>, x: u32, y: u32)
    requires
        s.contains(y),
    ensures
        s.push(x).contains(y),
{
    let i = choose|i: int| 0 <= i < s.len() && s[i] == y;
    assert(s.push(x)[i] == y);
}

/// Appending an identifier a list does not yet hold keeps the list free of
/// duplicates.
proof fn lemma_push_fresh_keeps_no_duplicates(s: Seq<u32>, x: u32)
    requires
        s.no_duplicates(),
        !s.contains(x),
    ensures
        s.push(x).no_duplicates(),
{
    assert forall|i: int, j: int|
        0 <= i < s.push(x).len() && 0 <= j < s.push(x).len() && i != j implies s.push(x)[i]
        != s.push(x)[j] by {
        if i < s.len() && j < s.len() {
        } else if i == s.len() {
            assert(s.push(x)[j] == s[j]);
        } else {
            assert(s.push(x)[i] == s[i]);
        }
    }
}

/// The index of the first occurrence of an identifier in a list.
fn vec_index_of_first(v: &Vec<u32>, x: u32) -> (r: usize)
    requires
        v@.contains(x),
    ensures
        0 <= r < v@.len(),
        v@[r as int] == x,
        forall|j: int| 0 <= j < r ==> v@[j] != x,
{
    let mut i: usize = 0;
    while i < v.len()
        invariant
            i <= v@.len(),
            v@.contains(x),
            forall|j: int| 0 <= j < i ==> v@[j] != x,
        decreases v@.len() - i,
    {
        if v[i] == x {
            return i;
        }
        i = i + 1;
    }
    proof {
        let k = choose|k: int| 0 <= k < v@.len() && v@[k] == x;
        assert(false);
    }
    0
}

/// Removes the first occurrence of an identifier from a list, by value.
fn vec_remove_value(v: &mut Vec<u32>, x: u32)
    requires
        old(v)@.contains(x),
    ensures
        final(v)@ == old(v)@.remove_value(x),
{
    let i = vec_index_of_first(v, x);
    proof {
        old(v)@.index_of_first_ensures(x);
        let j = old(v)@.index_of_first(x)->Some_0;
        if j < i as int {
            assert(old(v)@[j] != x);
        }
        if j > i as int {
            assert(old(v)@[i as int] != x);
        }
        assert(j == i as int);
    }
    v.remove(i);
}

/// What removing one occurrence of a value leaves behind, when the list
/// holds no duplicates: one element fewer, the value gone, every other
/// element kept.
proof fn lemma_remove_value_props(s: Seq<u32>, x: u32)
    requires
        s.no_duplicates(),
        s.contains(x),
    ensures
        s.remove_value(x).len() == s.len() - 1,
        !s.remove_value(x).contains(x),
        forall|y: u32|
            #![trigger s.remove_value(x).contains(y)]
            y != x ==> (s.remove_value(x).contains(y) <==> s.contains(y)),
        s.remove_value(x).no_duplicates(),
        forall|i: int| 0 <= i < s.remove_value(x).len() ==> s.contains(#[trigger] s.remove_value(x)[i]),
{
    s.index_of_first_ensures(x);
    let n = s.index_of_first(x)->Some_0;
    let r = s.remove(n);
    s.remove_ensures(n);
    assert(r == s.remove_value(x));
    assert forall|j: int| 0 <= j < r.len() implies #[trigger] r[j] == (if j < n {
        s[j]
    } else {
        s[j + 1]
    }) by {}
    assert forall|j: int| 0 <= j < r.len() implies #[trigger] r[j] != x by {
        if j >= n {
            assert(s[j + 1] != s[n]);
        }
    }
    assert(!r.contains(x));
    assert forall|y: u32| y != x && s.contains(y) implies #[trigger] r.contains(y) by {
        let k = choose|k: int| 0 <= k < s.len() && s[k] == y;
        assert(k != n);
        if k < n {
            assert(r[k] == y);
        } else {
            assert(r[k - 1] == y);
        }
    }
    assert forall|y: u32| y != x && r.contains(y) implies #[trigger] s.contains(y) by {
        let k = choose|k: int| 0 <= k < r.len() && r[k] == y;
        if k < n {
            assert(s[k] == y);
        } else {
            assert(s[k + 1] == y);
        }
    }
    assert forall|i: int, j: int|
        0 <= i < r.len() && 0 <= j < r.len() && i != j implies r[i] != r[j] by {
        let i2 = if i < n {
            i
        } else {
            i + 1
        };
        let j2 = if j < n {
            j
        } else {
            j + 1
        };
        assert(r[i] == s[i2] && r[j] == s[j2] && i2 != j2);
    }
    assert forall|i: int| 0 <= i < r.len() implies s.contains(#[trigger] r[i]) by {
        if i < n {
            assert(r[i] == s[i]);
        } else {
            assert(r[i] == s[i + 1]);
        }
    }
}

/// A state whose per-account balances all agree with those of a state
/// whose ledger is in range has its ledger in range too.
proof fn lemma_balances_wf_from_same_funds(pre: Engine, post: Engine)
    requires
        pre.balances_wf(),
        pre.same_funds(post),
    ensures
        post.balances_wf(),
{
    assert forall|a: u64|
        #[trigger] post.balances.spec_free(a) + #[trigger] post.balances.spec_reserved(a)
            <= u64::MAX by {
        assert(post.spec_free(a) == pre.spec_free(a));
        assert(post.spec_reserved(a) == pre.spec_reserved(a));
        assert(pre.spec_free(a) + pre.spec_reserved(a) <= u64::MAX);
    }
}

/// A state that keeps the same kinship graph as one whose graph is
/// consistent, while only ever gaining assets, has a consistent graph
/// itself.
proof fn lemma_kinship_preserved(pre: Engine, post: Engine)
    requires
        pre.wf_kinship(),
        pre.same_kinship(post),
        forall|id: u32| pre.spec_has_kitty(id) ==> #[trigger] post.spec_has_kitty(id),
    ensures
        post.wf_kinship(),
{
    assert forall|c: u32| (#[trigger] post.spec_parents(c)) is Some implies {
        let p = post.spec_parents(c)->Some_0;
        p.0 < p.1 && post.spec_has_kitty(p.0) && post.spec_has_kitty(p.1) && post.spec_has_kitty(c)
            && post.spec_siblings(p).contains(c) && post.spec_children(p.0).contains(c)
            && post.spec_children(p.1).contains(c) && post.spec_partners(p.0).contains(p.1)
            && post.spec_partners(p.1).contains(p.0)
    } by {
        let p = post.spec_parents(c)->Some_0;
        assert(post.spec_parents(c) == pre.spec_parents(c));
        assert(pre.spec_parents(c) == Some(p));
        assert(pre.spec_has_kitty(p.0) && pre.spec_has_kitty(p.1) && pre.spec_has_kitty(c));
        assert(post.spec_siblings(p) == pre.spec_siblings(p));
        assert(post.spec_children(p.0) == pre.spec_children(p.0));
        assert(post.spec_children(p.1) == pre.spec_children(p.1));
        assert(post.spec_partners(p.0) == pre.spec_partners(p.0));
        assert(post.spec_partners(p.1) == pre.spec_partners(p.1));
    }
    assert forall|pr: (u32, u32), i: int| 0 <= i < post.spec_siblings(pr).len() implies
        post.spec_parents(#[trigger] post.spec_siblings(pr)[i]) == Some(pr) by {
        assert(post.spec_siblings(pr) == pre.spec_siblings(pr));
        assert(pre.spec_parents(pre.spec_siblings(pr)[i]) == Some(pr));
        assert(post.spec_parents(pre.spec_siblings(pr)[i]) == pre.spec_parents(
            pre.spec_siblings(pr)[i],
        ));
    }
    assert forall|p: u32, i: int| 0 <= i < post.spec_children(p).len() implies post.spec_parents(
        #[trigger] post.spec_children(p)[i],
    ) is Some && (post.spec_parents(post.spec_children(p)[i])->Some_0.0 == p || post.spec_parents(
        post.spec_children(p)[i],
    )->Some_0.1 == p) by {
        assert(post.spec_children(p) == pre.spec_children(p));
        let c = pre.spec_children(p)[i];
        assert(pre.spec_parents(c) is Some && (pre.spec_parents(c)->Some_0.0 == p
            || pre.spec_parents(c)->Some_0.1 == p));
        assert(post.spec_parents(c) == pre.spec_parents(c));
    }
    assert forall|p: u32, i: int| 0 <= i < post.spec_partners(p).len() implies post.spec_partners(
        #[trigger] post.spec_partners(p)[i],
    ).contains(p) by {
        assert(post.spec_partners(p) == pre.spec_partners(p));
        let q = pre.spec_partners(p)[i];
        assert(pre.spec_partners(q).contains(p));
        assert(post.spec_partners(q) == pre.spec_partners(q));
    }
    assert forall|p: u32| (#[trigger] post.spec_partners(p)).no_duplicates() by {
        assert(post.spec_partners(p) == pre.spec_partners(p));
        assert(pre.spec_partners(p).no_duplicates());
    }
    assert forall|p: u32| (#[trigger] post.spec_children(p)).no_duplicates() by {
        assert(post.spec_children(p) == pre.spec_children(p));
        assert(pre.spec_children(p).no_duplicates());
    }
}

/// Like the preservation argument for unchanged listings, but for an
/// operation that rewrites listings: it suffices that every listed asset
/// still has an owner afterwards.
proof fn lemma_wf_with_new_prices(pre: Engine, post: Engine)
    requires
        pre.wf(),
        post.spec_kitties_count() == pre.spec_kitties_count(),
        pre.same_assets(post),
        pre.same_owners(post),
        pre.same_owned(post),
        pre.same_kinship(post),
        forall|id: u32| (#[trigger] post.spec_price(id)) is Some ==> post.spec_owner(id) is Some,
        post.balances_wf(),
    ensures
        post.wf(),
{
    assert forall|id: u32| (#[trigger] post.spec_owner(id)) is Some <==> post.spec_has_kitty(
        id,
    ) by {
        assert(post.spec_owner(id) == pre.spec_owner(id));
        assert(post.spec_has_kitty(id) == pre.spec_has_kitty(id));
    }
    assert forall|id: u32| #[trigger] post.spec_has_kitty(id) implies id
        < post.spec_kitties_count() by {
        assert(post.spec_has_kitty(id) == pre.spec_has_kitty(id));
    }
    assert forall|a: u64, i: int| 0 <= i < post.spec_owned(a).len() implies post.spec_owner(
        #[trigger] post.spec_owned(a)[i],
    ) == Some(a) by {
        assert(post.spec_owned(a) == pre.spec_owned(a));
        assert(pre.spec_owner(pre.spec_owned(a)[i]) == Some(a));
        assert(post.spec_owner(pre.spec_owned(a)[i]) == pre.spec_owner(pre.spec_owned(a)[i]));
    }
    assert forall|id: u32| (#[trigger] post.spec_owner(id)) is Some implies post.spec_owned(
        post.spec_owner(id)->Some_0,
    ).contains(id) by {
        let a = post.spec_owner(id)->Some_0;
        assert(post.spec_owner(id) == pre.spec_owner(id));
        assert(pre.spec_owned(a).contains(id));
        assert(post.spec_owned(a) == pre.spec_owned(a));
    }
    assert forall|a: u64| (#[trigger] post.spec_owned(a)).no_duplicates() by {
        assert(post.spec_owned(a) == pre.spec_owned(a));
        assert(pre.spec_owned(a).no_duplicates());
    }
    assert forall|id: u32| pre.spec_has_kitty(id) implies #[trigger] post.spec_has_kitty(id) by {
        assert(post.spec_has_kitty(id) == pre.spec_has_kitty(id));
    }
    lemma_kinship_preserved(pre, post);
}

/// A state that keeps the same assets, owners, owner lists, kinship,
/// listings and counter as a well-formed one, and whose ledger stays in
/// range, is well formed itself. Events and balances may differ freely.
proof fn lemma_wf_from_same(pre: Engine, post: Engine)
    requires
        pre.wf(),
        post.spec_kitties_count() == pre.spec_kitties_count(),
        pre.same_assets(post),
        pre.same_owners(post),
        pre.same_owned(post),
        pre.same_kinship(post),
        pre.same_prices(post),
        post.balances_wf(),
    ensures
        post.wf(),
{
    assert forall|id: u32| (#[trigger] post.spec_owner(id)) is Some <==> post.spec_has_kitty(
        id,
    ) by {
        assert(post.spec_owner(id) == pre.spec_owner(id));
        assert(post.spec_has_kitty(id) == pre.spec_has_kitty(id));
    }
    assert forall|id: u32| #[trigger] post.spec_has_kitty(id) implies id
        < post.spec_kitties_count() by {
        assert(post.spec_has_kitty(id) == pre.spec_has_kitty(id));
    }
    assert forall|a: u64, i: int| 0 <= i < post.spec_owned(a).len() implies post.spec_owner(
        #[trigger] post.spec_owned(a)[i],
    ) == Some(a) by {
        assert(post.spec_owned(a) == pre.spec_owned(a));
        assert(pre.spec_owner(pre.spec_owned(a)[i]) == Some(a));
        assert(post.spec_owner(pre.spec_owned(a)[i]) == pre.spec_owner(pre.spec_owned(a)[i]));
    }
    assert forall|id: u32| (#[trigger] post.spec_owner(id)) is Some implies post.spec_owned(
        post.spec_owner(id)->Some_0,
    ).contains(id) by {
        let a = post.spec_owner(id)->Some_0;
        assert(post.spec_owner(id) == pre.spec_owner(id));
        assert(pre.spec_owned(a).contains(id));
        assert(post.spec_owned(a) == pre.spec_owned(a));
    }
    assert forall|a: u64| (#[trigger] post.spec_owned(a)).no_duplicates() by {
        assert(post.spec_owned(a) == pre.spec_owned(a));
        assert(pre.spec_owned(a).no_duplicates());
    }
    assert forall|id: u32| (#[trigger] post.spec_price(id)) is Some implies post.spec_owner(id)
        is Some by {
        assert(post.spec_price(id) == pre.spec_price(id));
        assert(pre.spec_owner(id) is Some);
        assert(post.spec_owner(id) == pre.spec_owner(id));
    }
    assert forall|id: u32| pre.spec_has_kitty(id) implies #[trigger] post.spec_has_kitty(id) by {
        assert(post.spec_has_kitty(id) == pre.spec_has_kitty(id));
    }
    lemma_kinship_preserved(pre, post);
}

} // verus!
