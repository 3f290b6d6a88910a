//! The user registry: one record per identity, kept in the durable table.
//!
//! Its model is the table's entry sequence: every stored value decodes to a
//! well-formed record whose principal equals its key, values are canonical
//! encodings within the size bound, and entries stand in ascending key order.

use vstd::prelude::*;

use crate::codec::{
    decode_user, encode_user, lemma_decode_encode_user, lemma_fits_from_bounded, spec_decode_user,
    spec_encode_user, MAX_VALUE_SIZE,
};
use crate::order::{
    entries_sorted, lemma_lookup_index, lemma_sorted_del, lemma_sorted_del_absent,
    lemma_sorted_put, lex_lt, seq_lookup, sorted_del, sorted_put,
};
use crate::store::{store_entries, StableStore};
use crate::user::{AddUserArgs, Identity, User, UserView};
use crate::Error;

verus! {

/// The registry over one durable region.
pub struct UserRegistry {
    store: StableStore,
}

/// A stored entry is sound: its value is the canonical, bounded encoding of a
/// well-formed record whose principal is the entry's key.
pub open spec fn entry_ok(e: (Seq<u8>, Seq<u8>)) -> bool {
    &&& spec_decode_user(e.1) is Some
    &&& spec_decode_user(e.1).unwrap().principal == e.0
    &&& spec_decode_user(e.1).unwrap().wf()
    &&& e.1 == spec_encode_user(spec_decode_user(e.1).unwrap())
    &&& e.1.len() <= MAX_VALUE_SIZE
}

impl UserRegistry {
    /// The table's entries, ascending by key.
    pub closed spec fn entries(self) -> Seq<(Seq<u8>, Seq<u8>)> {
        store_entries(self.store)
    }

    pub open spec fn wf(self) -> bool {
        &&& entries_sorted(self.entries())
        &&& forall|i: int| 0 <= i < self.entries().len() ==> entry_ok(#[trigger] self.entries()[i])
    }

    /// The record at position `i` of the ascending order.
    pub open spec fn user_at(self, i: int) -> UserView {
        spec_decode_user(self.entries()[i].1).unwrap()
    }

    /// The record stored for the given identity, if any.
    pub open spec fn spec_get(self, id: Seq<u8>) -> Option<UserView> {
        match seq_lookup(self.entries(), id) {
            Option::Some(v) => Some(spec_decode_user(v).unwrap()),
            Option::None => None,
        }
    }

    /// The number of records.
    pub open spec fn len(self) -> nat {
        self.entries().len()
    }

    /// Opens the registry over the given durable region, attaching to the
    /// records already persisted there; a fresh region starts empty. Every
    /// stored entry is checked to be the canonical, bounded encoding of a
    /// well-formed record keyed by its own principal; a region holding
    /// anything else is a data-integrity fault and is refused with
    /// `EncodingFailure` rather than silently misread. Region identifier 255
    /// is reserved by the underlying memory manager.
    #[verifier::loop_isolation(false)]
    pub fn new(region_id: u8) -> (r: Result<UserRegistry, Error>)
        requires
            region_id < 255,
        ensures
            (r matches Ok(reg) ==> reg.wf()),
            (r matches Err(e) ==> e == Error::EncodingFailure),
    {
        let store = StableStore::init(region_id);
        let reg = UserRegistry { store };
        let es = reg.store.entries();
        let n = es.len();
        let mut i: usize = 0;
        while i < n
            invariant
                i <= n,
                forall|k: int| 0 <= k < i ==> entry_ok(#[trigger] reg.entries()[k]),
            decreases n - i,
        {
            let pair = &es[i];
            let u = match decode_user(&pair.1) {
                Option::Some(u) => u,
                Option::None => {
                    return Err(Error::EncodingFailure);
                },
            };
            if !bytes_eq(&pair.0, u.principal.as_bytes()) {
                return Err(Error::EncodingFailure);
            }
            if !topics_distinct(&u.followed_topics) {
                return Err(Error::EncodingFailure);
            }
            let enc = match encode_user(&u) {
                Option::Some(b) => b,
                Option::None => {
                    return Err(Error::EncodingFailure);
                },
            };
            if !bytes_eq(&enc, &pair.1) {
                return Err(Error::EncodingFailure);
            }
            proof {
                assert(reg.entries()[i as int].1 == pair.1@);
                assert(spec_decode_user(reg.entries()[i as int].1) == Some(u@));
                assert(u@.wf());
                assert(entry_ok(reg.entries()[i as int]));
            }
            i += 1;
        }
        Ok(reg)
    }

    /// Pure lookup: the record for `id`, or `None` where there is none.
    pub fn get_user(&self, id: &Identity) -> (r: Option<User>)
        requires
            self.wf(),
        ensures
            match r {
                Some(u) => self.spec_get(id@) == Some(u@) && u@.wf(),
                None => self.spec_get(id@) is None,
            },
    {
        let key = id.to_key();
        match self.store.fetch(&key) {
            Option::Some(v) => {
                proof {
                    assert(v.deep_view() =~= v@);
                    lemma_lookup_index(self.entries(), id@);
                    let i = choose|i: int|
                        0 <= i < self.entries().len() && (#[trigger] self.entries()[i]).0 == id@
                            && self.entries()[i].1 == seq_lookup(self.entries(), id@).unwrap();
                    assert(entry_ok(self.entries()[i]));
                    assert(spec_decode_user(v@) is Some);
                }
                match decode_user(&v) {
                    Option::Some(u) => Some(u),
                    Option::None => {
                        proof {
                            assert(false);
                        }
                        None
                    },
                }
            },
            Option::None => None,
        }
    }

    /// One page of the full scan: the records in ascending key order, with
    /// the first `page * limit` skipped and at most `limit` returned. A page
    /// past the end, or a limit of zero, yields the empty sequence.
    #[verifier::loop_isolation(false)]
    pub fn get_users(&self, page: u32, limit: u32) -> (r: Vec<User>)
        requires
            self.wf(),
        ensures
            ({
                let start_at = page as int * limit as int;
                let total = self.len() as int;
                let start = if start_at > total {
                    total
                } else {
                    start_at
                };
                let end = if start_at + limit > total {
                    total
                } else {
                    start_at + limit
                };
                &&& r@.len() == end - start
                &&& forall|i: int|
                    0 <= i < r@.len() ==> (#[trigger] r@[i])@ == self.user_at(start + i)
                        && r@[i]@.wf()
            }),
    {
        let es = self.store.entries();
        let n = es.len();
        proof {
            assert((page as int) * (limit as int) <= 0xffff_ffff * 0xffff_ffff) by (nonlinear_arith)
                requires
                    page as int <= 0xffff_ffff,
                    limit as int <= 0xffff_ffff,
            ;
        }
        let skip_n = (page as u64) * (limit as u64);
        let start: usize = if skip_n > n as u64 {
            n
        } else {
            skip_n as usize
        };
        let remaining = n - start;
        let take_n: usize = if (limit as u64) > (remaining as u64) {
            remaining
        } else {
            limit as usize
        };
        let mut r: Vec<User> = Vec::new();
        let mut j: usize = 0;
        while j < take_n
            invariant
                j <= take_n,
                r@.len() == j as int,
                forall|i: int|
                    0 <= i < j ==> (#[trigger] r@[i])@ == self.user_at(start + i) && r@[i]@.wf(),
            decreases take_n - j,
        {
            let pair = &es[start + j];
            proof {
                assert(entry_ok(self.entries()[start + j]));
            }
            let u = match decode_user(&pair.1) {
                Option::Some(u) => u,
                Option::None => {
                    proof {
                        assert(false);
                    }
                    return Vec::new();
                },
            };
            r.push(u);
            j += 1;
        }
        r
    }

    /// The total number of records.
    pub fn get_user_count(&self) -> (r: u64)
        ensures
            r as nat == self.len(),
    {
        self.store.count()
    }

    /// Creates the record for `caller`, with both timestamps set to `now` and
    /// no followed topics; fails with `AlreadyExists` where one is present,
    /// and with `EncodingFailure` where the record would not fit its bound.
    pub fn add_user(&mut self, caller: &Identity, args: AddUserArgs, now: u64) -> (r: Result<
        String,
        Error,
    >)
        requires
            old(self).wf(),
            caller.wf(),
        ensures
            final(self).wf(),
            ({
                let nu = UserView {
                    principal: caller@,
                    username: args@.username,
                    logo_url: args@.logo_url,
                    neuron_id: args@.neuron_id,
                    followed_topics: Seq::empty(),
                    created_at: now,
                    updated_at: now,
                };
                if old(self).spec_get(caller@) is Some {
                    r == Err::<String, Error>(Error::AlreadyExists) && final(self).entries() == old(
                        self,
                    ).entries()
                } else if spec_encode_user(nu).len() > MAX_VALUE_SIZE {
                    r == Err::<String, Error>(Error::EncodingFailure) && final(self).entries()
                        == old(self).entries()
                } else {
                    (r matches Ok(m) && m@ == "User added successfully"@) && final(self).entries()
                        == sorted_put(old(self).entries(), caller@, spec_encode_user(nu))
                }
            }),
    {
        let ghost nu = UserView {
            principal: caller@,
            username: args@.username,
            logo_url: args@.logo_url,
            neuron_id: args@.neuron_id,
            followed_topics: Seq::empty(),
            created_at: now,
            updated_at: now,
        };
        let key = caller.to_key();
        let existing = self.store.fetch(&key);
        if existing.is_some() {
            return Err(Error::AlreadyExists);
        }
        let listing = User {
            principal: caller.duplicate(),
            username: args.username,
            logo_url: args.logo_url,
            neuron_id: args.neuron_id,
            followed_topics: Vec::new(),
            created_at: now,
            updated_at: now,
        };
        proof {
            assert(listing@ =~= nu);
        }
        match encode_user(&listing) {
            Option::None => Err(Error::EncodingFailure),
            Option::Some(bytes) => {
                proof {
                    lemma_fits_from_bounded(nu);
                    lemma_decode_encode_user(nu);
                    lemma_put_preserves_wf(self.entries(), caller@, bytes@, nu);
                }
                self.store.put(key, bytes);
                Ok("User added successfully".to_owned())
            },
        }
    }

    /// Overwrites the three caller-supplied fields of `caller`'s record with
    /// the given values, absent values clearing the prior ones, and refreshes
    /// `updated_at`; the followed topics and `created_at` are untouched.
    /// Fails with `NotFound` where no record exists.
    pub fn update_user(&mut self, caller: &Identity, args: AddUserArgs, now: u64) -> (r: Result<
        (),
        Error,
    >)
        requires
            old(self).wf(),
            caller.wf(),
        ensures
            final(self).wf(),
            ({
                match old(self).spec_get(caller@) {
                    Option::None => r == Err::<(), Error>(Error::NotFound) && final(self).entries()
                        == old(self).entries(),
                    Option::Some(ou) => {
                        let nu = UserView {
                            principal: ou.principal,
                            username: args@.username,
                            logo_url: args@.logo_url,
                            neuron_id: args@.neuron_id,
                            followed_topics: ou.followed_topics,
                            created_at: ou.created_at,
                            updated_at: now,
                        };
                        if spec_encode_user(nu).len() > MAX_VALUE_SIZE {
                            r == Err::<(), Error>(Error::EncodingFailure) && final(self).entries()
                                == old(self).entries()
                        } else {
                            r == Ok::<(), Error>(()) && final(self).entries() == sorted_put(
                                old(self).entries(),
                                caller@,
                                spec_encode_user(nu),
                            )
                        }
                    },
                }
            }),
    {
        let key = caller.to_key();
        let stored = match self.store.fetch(&key) {
            Option::Some(v) => v,
            Option::None => {
                return Err(Error::NotFound);
            },
        };
        proof {
            assert(stored.deep_view() =~= stored@);
            lemma_lookup_index(self.entries(), caller@);
            let i = choose|i: int|
                0 <= i < self.entries().len() && (#[trigger] self.entries()[i]).0 == caller@
                    && self.entries()[i].1 == seq_lookup(self.entries(), caller@).unwrap();
            assert(entry_ok(self.entries()[i]));
        }
        let mut listing = match decode_user(&stored) {
            Option::Some(u) => u,
            Option::None => {
                proof {
                    assert(false);
                }
                return Err(Error::NotFound);
            },
        };
        let ghost ou = old(self).spec_get(caller@).unwrap();
        listing.username = args.username;
        listing.logo_url = args.logo_url;
        listing.neuron_id = args.neuron_id;
        listing.updated_at = now;
        let ghost nu = UserView {
            principal: ou.principal,
            username: args@.username,
            logo_url: args@.logo_url,
            neuron_id: args@.neuron_id,
            followed_topics: ou.followed_topics,
            created_at: ou.created_at,
            updated_at: now,
        };
        proof {
            assert(listing@ =~= nu);
        }
        match encode_user(&listing) {
            Option::None => Err(Error::EncodingFailure),
            Option::Some(bytes) => {
                proof {
                    lemma_fits_from_bounded(nu);
                    lemma_decode_encode_user(nu);
                    lemma_put_preserves_wf(self.entries(), caller@, bytes@, nu);
                }
                self.store.put(key, bytes);
                Ok(())
            },
        }
    }

    /// Adds `topic_id` to the topics `caller` follows; following an already
    /// followed topic leaves the list as it is, so no topic appears twice.
    /// Fails with `NotFound` where no record exists.
    pub fn follow_topic(&mut self, caller: &Identity, topic_id: String) -> (r: Result<(), Error>)
        requires
            old(self).wf(),
            caller.wf(),
        ensures
            final(self).wf(),
            ({
                match old(self).spec_get(caller@) {
                    Option::None => r == Err::<(), Error>(Error::NotFound) && final(self).entries()
                        == old(self).entries(),
                    Option::Some(ou) => {
                        let nt = if ou.followed_topics.contains(topic_id@) {
                            ou.followed_topics
                        } else {
                            ou.followed_topics.push(topic_id@)
                        };
                        let nu = UserView { followed_topics: nt, ..ou };
                        if spec_encode_user(nu).len() > MAX_VALUE_SIZE {
                            r == Err::<(), Error>(Error::EncodingFailure) && final(self).entries()
                                == old(self).entries()
                        } else {
                            r == Ok::<(), Error>(()) && final(self).entries() == sorted_put(
                                old(self).entries(),
                                caller@,
                                spec_encode_user(nu),
                            )
                        }
                    },
                }
            }),
    {
        let key = caller.to_key();
        let stored = match self.store.fetch(&key) {
            Option::Some(v) => v,
            Option::None => {
                return Err(Error::NotFound);
            },
        };
        proof {
            assert(stored.deep_view() =~= stored@);
            lemma_lookup_index(self.entries(), caller@);
            let i = choose|i: int|
                0 <= i < self.entries().len() && (#[trigger] self.entries()[i]).0 == caller@
                    && self.entries()[i].1 == seq_lookup(self.entries(), caller@).unwrap();
            assert(entry_ok(self.entries()[i]));
        }
        let mut listing = match decode_user(&stored) {
            Option::Some(u) => u,
            Option::None => {
                proof {
                    assert(false);
                }
                return Err(Error::NotFound);
            },
        };
        let ghost ou = old(self).spec_get(caller@).unwrap();
        let mut found = false;
        let mut i: usize = 0;
        while i < listing.followed_topics.len()
            invariant
                i <= listing.followed_topics.len(),
                found == ou.followed_topics.take(i as int).contains(topic_id@),
                listing@.followed_topics == ou.followed_topics,
                listing.followed_topics@.len() == ou.followed_topics.len(),
            decreases listing.followed_topics.len() - i,
        {
            let ghost pre = ou.followed_topics.take(i as int);
            let hit = listing.followed_topics[i].eq(&topic_id);
            if hit {
                found = true;
            }
            proof {
                assert(listing.followed_topics@[i as int]@ == ou.followed_topics[i as int]);
                assert(ou.followed_topics.take(i + 1) =~= pre.push(ou.followed_topics[i as int]));
                if found {
                    assert(ou.followed_topics.take(i + 1).contains(topic_id@)) by {
                        if pre.contains(topic_id@) {
                            let j = choose|j: int| 0 <= j < pre.len() && pre[j] == topic_id@;
                            assert(ou.followed_topics.take(i + 1)[j] == topic_id@);
                        } else {
                            assert(ou.followed_topics.take(i + 1)[i as int] == topic_id@);
                        }
                    }
                } else {
                    assert(!ou.followed_topics.take(i + 1).contains(topic_id@)) by {
                        if ou.followed_topics.take(i + 1).contains(topic_id@) {
                            let j = choose|j: int|
                                0 <= j < i + 1 && #[trigger] ou.followed_topics.take(i + 1)[j]
                                    == topic_id@;
                            if j < i {
                                assert(pre[j] == topic_id@);
                            }
                        }
                    }
                }
            }
            i += 1;
        }
        proof {
            assert(ou.followed_topics.take(ou.followed_topics.len() as int) =~= ou.followed_topics);
        }
        let ghost nt = if ou.followed_topics.contains(topic_id@) {
            ou.followed_topics
        } else {
            ou.followed_topics.push(topic_id@)
        };
        let ghost nu = UserView { followed_topics: nt, ..ou };
        if !found {
            let ghost tdv = listing.followed_topics.deep_view();
            listing.followed_topics.push(topic_id);
            proof {
                assert(listing.followed_topics.deep_view() =~= tdv.push(topic_id@));
            }
        }
        proof {
            assert(listing@ =~= nu);
            assert(nu.wf()) by {
                assert forall|a: int, b: int| 0 <= a < b < nt.len() implies nt[a] != nt[b] by {
                    if !ou.followed_topics.contains(topic_id@) && b == nt.len() - 1 {
                        assert(!ou.followed_topics.contains(nt[b]));
                        assert(ou.followed_topics[a] == nt[a]);
                        if nt[a] == nt[b] {
                            assert(ou.followed_topics.contains(nt[b]));
                        }
                    }
                }
            }
        }
        match encode_user(&listing) {
            Option::None => Err(Error::EncodingFailure),
            Option::Some(bytes) => {
                proof {
                    lemma_fits_from_bounded(nu);
                    lemma_decode_encode_user(nu);
                    lemma_put_preserves_wf(self.entries(), caller@, bytes@, nu);
                }
                self.store.put(key, bytes);
                Ok(())
            },
        }
    }

    /// Removes `topic_id` from the topics `caller` follows; removing a topic
    /// that is not followed is a no-op. Fails with `NotFound` where no record
    /// exists.
    pub fn unfollow_topic(&mut self, caller: &Identity, topic_id: String) -> (r: Result<
        (),
        Error,
    >)
        requires
            old(self).wf(),
            caller.wf(),
        ensures
            final(self).wf(),
            ({
                match old(self).spec_get(caller@) {
                    Option::None => r == Err::<(), Error>(Error::NotFound) && final(self).entries()
                        == old(self).entries(),
                    Option::Some(ou) => {
                        let nt = if ou.followed_topics.contains(topic_id@) {
                            ou.followed_topics.remove(ou.followed_topics.index_of(topic_id@))
                        } else {
                            ou.followed_topics
                        };
                        let nu = UserView { followed_topics: nt, ..ou };
                        if spec_encode_user(nu).len() > MAX_VALUE_SIZE {
                            r == Err::<(), Error>(Error::EncodingFailure) && final(self).entries()
                                == old(self).entries()
                        } else {
                            r == Ok::<(), Error>(()) && final(self).entries() == sorted_put(
                                old(self).entries(),
                                caller@,
                                spec_encode_user(nu),
                            )
                        }
                    },
                }
            }),
    {
        let key = caller.to_key();
        let stored = match self.store.fetch(&key) {
            Option::Some(v) => v,
            Option::None => {
                return Err(Error::NotFound);
            },
        };
        proof {
            assert(stored.deep_view() =~= stored@);
            lemma_lookup_index(self.entries(), caller@);
            let i = choose|i: int|
                0 <= i < self.entries().len() && (#[trigger] self.entries()[i]).0 == caller@
                    && self.entries()[i].1 == seq_lookup(self.entries(), caller@).unwrap();
            assert(entry_ok(self.entries()[i]));
        }
        let mut listing = match decode_user(&stored) {
            Option::Some(u) => u,
            Option::None => {
                proof {
                    assert(false);
                }
                return Err(Error::NotFound);
            },
        };
        let ghost ou = old(self).spec_get(caller@).unwrap();
        let mut found = false;
        let mut idx: usize = 0;
        let mut i: usize = 0;
        while i < listing.followed_topics.len()
            invariant
                i <= listing.followed_topics.len(),
                found == ou.followed_topics.take(i as int).contains(topic_id@),
                found ==> idx < i && ou.followed_topics[idx as int] == topic_id@,
                listing@.followed_topics == ou.followed_topics,
                listing.followed_topics@.len() == ou.followed_topics.len(),
            decreases listing.followed_topics.len() - i,
        {
            let ghost pre = ou.followed_topics.take(i as int);
            let hit = listing.followed_topics[i].eq(&topic_id);
            if !found && hit {
                found = true;
                idx = i;
            }
            proof {
                assert(listing.followed_topics@[i as int]@ == ou.followed_topics[i as int]);
                assert(ou.followed_topics.take(i + 1) =~= pre.push(ou.followed_topics[i as int]));
                if found {
                    assert(ou.followed_topics.take(i + 1).contains(topic_id@)) by {
                        if pre.contains(topic_id@) {
                            let j = choose|j: int| 0 <= j < pre.len() && pre[j] == topic_id@;
                            assert(ou.followed_topics.take(i + 1)[j] == topic_id@);
                        } else {
                            assert(ou.followed_topics.take(i + 1)[idx as int] == topic_id@);
                        }
                    }
                } else {
                    assert(!ou.followed_topics.take(i + 1).contains(topic_id@)) by {
                        if ou.followed_topics.take(i + 1).contains(topic_id@) {
                            let j = choose|j: int|
                                0 <= j < i + 1 && #[trigger] ou.followed_topics.take(i + 1)[j]
                                    == topic_id@;
                            if j < i {
                                assert(pre[j] == topic_id@);
                            }
                        }
                    }
                }
            }
            i += 1;
        }
        proof {
            assert(ou.followed_topics.take(ou.followed_topics.len() as int) =~= ou.followed_topics);
        }
        let ghost nt = if ou.followed_topics.contains(topic_id@) {
            ou.followed_topics.remove(ou.followed_topics.index_of(topic_id@))
        } else {
            ou.followed_topics
        };
        let ghost nu = UserView { followed_topics: nt, ..ou };
        if found {
            let ghost tdv = listing.followed_topics.deep_view();
            proof {
                let pick = ou.followed_topics.index_of(topic_id@);
                assert(0 <= pick < ou.followed_topics.len() && ou.followed_topics[pick]
                    == topic_id@) by {
                    assert(ou.followed_topics[idx as int] == topic_id@);
                }
                assert(pick == idx as int);
            }
            listing.followed_topics.remove(idx);
            proof {
                assert(listing.followed_topics.deep_view() =~= tdv.remove(idx as int));
            }
        }
        proof {
            assert(listing@ =~= nu);
            assert(nu.wf()) by {
                if ou.followed_topics.contains(topic_id@) {
                    let pick = ou.followed_topics.index_of(topic_id@);
                    assert forall|a: int, b: int| 0 <= a < b < nt.len() implies nt[a] != nt[b] by {
                        assert(nt[a] == if a < pick {
                            ou.followed_topics[a]
                        } else {
                            ou.followed_topics[a + 1]
                        });
                        assert(nt[b] == if b < pick {
                            ou.followed_topics[b]
                        } else {
                            ou.followed_topics[b + 1]
                        });
                    }
                }
            }
        }
        match encode_user(&listing) {
            Option::None => Err(Error::EncodingFailure),
            Option::Some(bytes) => {
                proof {
                    lemma_fits_from_bounded(nu);
                    lemma_decode_encode_user(nu);
                    lemma_put_preserves_wf(self.entries(), caller@, bytes@, nu);
                }
                self.store.put(key, bytes);
                Ok(())
            },
        }
    }

    /// Deletes `caller`'s record; removing an absent record is a no-op.
    pub fn remove_user(&mut self, caller: &Identity)
        requires
            old(self).wf(),
        ensures
            final(self).wf(),
            final(self).entries() == sorted_del(old(self).entries(), caller@),
    {
        let key = caller.to_key();
        proof {
            lemma_del_preserves_wf(self.entries(), caller@);
        }
        self.store.del(&key);
    }
}

/// Whether two byte strings hold the same bytes.
fn bytes_eq(a: &Vec<u8>, b: &Vec<u8>) -> (r: bool)
    ensures
        r == (a@ == b@),
{
    if a.len() != b.len() {
        return false;
    }
    let mut i: usize = 0;
    while i < a.len()
        invariant
            i <= a@.len(),
            a@.len() == b@.len(),
            forall|k: int| 0 <= k < i ==> a@[k] == b@[k],
        decreases a@.len() - i,
    {
        if a[i] != b[i] {
            return false;
        }
        i += 1;
    }
    proof {
        assert(a@ =~= b@);
    }
    true
}

/// Whether no topic occurs twice in the list.
fn topics_distinct(v: &Vec<String>) -> (r: bool)
    ensures
        r == (forall|a: int, b: int|
            0 <= a < b < v.deep_view().len() ==> v.deep_view()[a] != v.deep_view()[b]),
{
    let ghost dv = v.deep_view();
    let n = v.len();
    let mut i: usize = 0;
    while i < n
        invariant
            i <= n,
            n == v@.len(),
            dv == v.deep_view(),
            dv.len() == n as int,
            forall|a: int, b: int| 0 <= a < i && a < b < n ==> dv[a] != dv[b],
        decreases n - i,
    {
        let mut j: usize = i + 1;
        while j < n
            invariant
                i < n,
                i + 1 <= j <= n,
                n == v@.len(),
                dv == v.deep_view(),
                dv.len() == n as int,
                forall|k: int| i < k < j ==> dv[i as int] != dv[k],
            decreases n - j,
        {
            let same = v[i].eq(&v[j]);
            proof {
                assert(dv[i as int] == v@[i as int]@);
                assert(dv[j as int] == v@[j as int]@);
            }
            if same {
                return false;
            }
            j += 1;
        }
        i += 1;
    }
    true
}

/// The full scan is ascending: in a sound registry, records at earlier
/// positions have strictly smaller principals, so `get_users` pages come out
/// in ascending key order whatever the insertion order was.
pub proof fn law_list_ascending(reg: UserRegistry, i: int, j: int)
    requires
        reg.wf(),
        0 <= i < j < reg.len(),
    ensures
        lex_lt(reg.user_at(i).principal, reg.user_at(j).principal),
{
    assert(entry_ok(reg.entries()[i]));
    assert(entry_ok(reg.entries()[j]));
}

/// A created record is immediately visible with exactly its fields, no other
/// identity's record changes, and the count grows exactly when the identity
/// was absent. Here `post` is a registry whose table came out of writing the
/// record's encoding under its principal, as a successful `add_user` leaves
/// it.
pub proof fn law_add_then_get(pre: UserRegistry, post: UserRegistry, u: UserView)
    requires
        pre.wf(),
        u.wf(),
        spec_encode_user(u).len() <= MAX_VALUE_SIZE,
        post.entries() == sorted_put(pre.entries(), u.principal, spec_encode_user(u)),
    ensures
        post.spec_get(u.principal) == Some(u),
        forall|k: Seq<u8>| k != u.principal ==> post.spec_get(k) == pre.spec_get(k),
        post.len() == if pre.spec_get(u.principal) is Some {
            pre.len() as int
        } else {
            pre.len() + 1 as int
        },
{
    lemma_fits_from_bounded(u);
    lemma_decode_encode_user(u);
    lemma_sorted_put(pre.entries(), u.principal, spec_encode_user(u));
}

/// A removed identity's record is gone, no other identity's record changes,
/// and removing an absent identity leaves the table exactly as it was. Here
/// `post` is a registry whose table came out of deleting the identity's
/// entry, as `remove_user` leaves it.
pub proof fn law_remove_then_get(pre: UserRegistry, post: UserRegistry, id: Seq<u8>)
    requires
        pre.wf(),
        post.entries() == sorted_del(pre.entries(), id),
    ensures
        post.spec_get(id) is None,
        forall|k: Seq<u8>| k != id ==> post.spec_get(k) == pre.spec_get(k),
        pre.spec_get(id) is None ==> post.entries() == pre.entries(),
{
    lemma_sorted_del(pre.entries(), id);
    if pre.spec_get(id) is None {
        lemma_sorted_del_absent(pre.entries(), id);
    }
}

/// After a successful `follow_topic`, the topic stands in the record's list
/// exactly once, whether or not it was already followed, and nothing else of
/// the record changes. Here `post` is a registry whose table came out of
/// writing the refreshed record, as a successful `follow_topic` leaves it.
pub proof fn law_follow_topic_once(pre: UserRegistry, post: UserRegistry, id: Seq<u8>, t: Seq<char>)
    requires
        pre.wf(),
        (pre.spec_get(id) is Some),
        ({
            let ou = pre.spec_get(id).unwrap();
            let nt = if ou.followed_topics.contains(t) {
                ou.followed_topics
            } else {
                ou.followed_topics.push(t)
            };
            let nu = UserView { followed_topics: nt, ..ou };
            &&& spec_encode_user(nu).len() <= MAX_VALUE_SIZE
            &&& post.entries() == sorted_put(pre.entries(), id, spec_encode_user(nu))
        }),
    ensures
        post.spec_get(id) is Some,
        ({
            let tp = post.spec_get(id).unwrap().followed_topics;
            &&& tp.contains(t)
            &&& forall|a: int, b: int|
                0 <= a < b < tp.len() ==> !(#[trigger] tp[a] == t && #[trigger] tp[b] == t)
        }),
        (post.spec_get(id).unwrap() == UserView {
            followed_topics: post.spec_get(id).unwrap().followed_topics,
            ..pre.spec_get(id).unwrap()
        }),
        forall|k: Seq<u8>| k != id ==> post.spec_get(k) == pre.spec_get(k),
{
    let ou = pre.spec_get(id).unwrap();
    let nt = if ou.followed_topics.contains(t) {
        ou.followed_topics
    } else {
        ou.followed_topics.push(t)
    };
    let nu = UserView { followed_topics: nt, ..ou };
    lemma_lookup_index(pre.entries(), id);
    let i = choose|i: int|
        0 <= i < pre.entries().len() && (#[trigger] pre.entries()[i]).0 == id && pre.entries()[i].1
            == seq_lookup(pre.entries(), id).unwrap();
    assert(entry_ok(pre.entries()[i]));
    assert(ou.principal == id);
    assert(nu.wf()) by {
        assert forall|a: int, b: int| 0 <= a < b < nt.len() implies nt[a] != nt[b] by {
            if !ou.followed_topics.contains(t) && b == nt.len() - 1 {
                assert(ou.followed_topics[a] == nt[a]);
                if nt[a] == nt[b] {
                    assert(ou.followed_topics.contains(nt[b]));
                }
            }
        }
    }
    lemma_fits_from_bounded(nu);
    lemma_decode_encode_user(nu);
    lemma_sorted_put(pre.entries(), id, spec_encode_user(nu));
    assert(nt.contains(t)) by {
        if !ou.followed_topics.contains(t) {
            assert(nt[nt.len() - 1] == t);
        }
    }
}

/// Writing a sound entry into a sound sorted table leaves it sound.
proof fn lemma_put_preserves_wf(es: Seq<(Seq<u8>, Seq<u8>)>, k: Seq<u8>, v: Seq<u8>, u: UserView)
    requires
        entries_sorted(es),
        forall|i: int| 0 <= i < es.len() ==> entry_ok(#[trigger] es[i]),
        spec_decode_user(v) == Some(u),
        u.principal == k,
        u.wf(),
        v == spec_encode_user(u),
        v.len() <= MAX_VALUE_SIZE,
    ensures
        entries_sorted(sorted_put(es, k, v)),
        forall|i: int|
            0 <= i < sorted_put(es, k, v).len() ==> entry_ok(#[trigger] sorted_put(es, k, v)[i]),
{
    lemma_sorted_put(es, k, v);
    let r = sorted_put(es, k, v);
    assert forall|i: int| 0 <= i < r.len() implies entry_ok(#[trigger] r[i]) by {
        if r[i] != (k, v) {
            let j = choose|j: int| 0 <= j < es.len() && es[j] == r[i];
            assert(entry_ok(es[j]));
        }
    }
}

/// Deleting from a sound sorted table leaves it sound.
proof fn lemma_del_preserves_wf(es: Seq<(Seq<u8>, Seq<u8>)>, k: Seq<u8>)
    requires
        entries_sorted(es),
        forall|i: int| 0 <= i < es.len() ==> entry_ok(#[trigger] es[i]),
    ensures
        entries_sorted(sorted_del(es, k)),
        forall|i: int|
            0 <= i < sorted_del(es, k).len() ==> entry_ok(#[trigger] sorted_del(es, k)[i]),
{
    lemma_sorted_del(es, k);
    let r = sorted_del(es, k);
    assert forall|i: int| 0 <= i < r.len() implies entry_ok(#[trigger] r[i]) by {
        let j = choose|j: int| 0 <= j < es.len() && es[j] == r[i];
        assert(entry_ok(es[j]));
    }
}

} // verus!
