//! Occupancy tracker: who is in which voice channel, and how many members
//! each channel holds. The member map is authoritative; the count map is kept
//! exactly equal to the number of members mapped to each channel, so
//! "is this channel empty" has one source of truth.
use std::collections::BTreeMap;
use vstd::prelude::*;

verus! {

broadcast use {vstd::std_specs::btree::group_btree_axioms, vstd::laws_cmp::group_laws_cmp, vstd::set::group_set_axioms};

pub struct Occupancy {
    users: BTreeMap<u64, u64>,
    counts: BTreeMap<u64, u64>,
}

impl Occupancy {
    /// The member map: user id to the channel the user currently occupies.
    pub closed spec fn users_map(&self) -> Map<u64, u64> {
        self.users@
    }

    /// The count map, as recorded.
    pub closed spec fn counts_map(&self) -> Map<u64, u64> {
        self.counts@
    }

    /// The users currently mapped to channel `c`.
    pub open spec fn occupants(&self, c: u64) -> Set<u64> {
        self.users_map().dom().filter(|u: u64| self.users_map()[u] == c)
    }

    /// The live member count of channel `c`.
    pub open spec fn count_of(&self, c: u64) -> nat {
        self.occupants(c).len()
    }

    /// The count map holds an entry exactly for the non-empty channels, and
    /// each entry equals the number of users mapped to that channel.
    pub open spec fn inv(&self) -> bool {
        &&& forall|c: u64| #[trigger]
            self.counts_map().contains_key(c) ==> self.counts_map()[c] as nat == self.occupants(
                c,
            ).len() && self.counts_map()[c] > 0
        &&& forall|c: u64| !(#[trigger] self.counts_map().contains_key(c)) ==> self.occupants(c)
            =~= Set::<u64>::empty()
    }

    pub fn new() -> (r: Occupancy)
        ensures
            r.inv(),
            r.users_map() == Map::<u64, u64>::empty(),
    {
        let r = Occupancy { users: BTreeMap::new(), counts: BTreeMap::new() };
        proof {
            assert forall|c: u64| !r.counts@.contains_key(c) implies r.occupants(c) =~= Set::<
                u64,
            >::empty() by {
                assert(r.users@.dom() =~= Set::<u64>::empty());
            }
        }
        r
    }

    proof fn lemma_occupants_finite(&self, c: u64)
        ensures
            self.occupants(c).finite(),
            self.occupants(c).len() <= self.users_map().dom().len(),
    {
        assert(self.users_map().dom().finite());
        assert(self.occupants(c).subset_of(self.users_map().dom()));
        vstd::set_lib::lemma_len_subset::<u64>(self.occupants(c), self.users_map().dom());
    }

    /// Removes the user's record, if any, and decrements the channel count it
    /// pointed at; returns that channel. The member map shrinks by exactly the
    /// user's entry and every other channel keeps its occupants.
    pub fn on_leave(&mut self, user: u64) -> (r: Option<u64>)
        requires
            old(self).inv(),
        ensures
            final(self).inv(),
            match r {
                Some(c) => old(self).users_map().contains_key(user) && old(self).users_map()[user]
                    == c && final(self).users_map() == old(self).users_map().remove(user),
                None => !old(self).users_map().contains_key(user) && final(self).users_map()
                    == old(self).users_map() && final(self).counts_map() == old(
                    self,
                ).counts_map(),
            },
    {
        let prior = self.users.remove(&user);
        match prior {
            None => {
                proof {
                    assert(self.users@ =~= old(self).users@);
                    assert(self.users_map() == old(self).users_map());
                    assert forall|c2: u64| self.occupants(c2) =~= old(self).occupants(c2) by {}
                    assert forall|c2: u64| #[trigger]
                        self.counts_map().contains_key(c2) implies self.counts_map()[c2] as nat
                        == self.occupants(c2).len() && self.counts_map()[c2] > 0 by {
                        assert(old(self).counts_map().contains_key(c2));
                        assert(old(self).occupants(c2) == self.occupants(c2));
                    }
                    assert forall|c2: u64| !(#[trigger] self.counts_map().contains_key(
                        c2,
                    )) implies self.occupants(c2) =~= Set::<u64>::empty() by {
                        assert(!old(self).counts_map().contains_key(c2));
                    }
                }
                None
            },
            Some(c) => {
                let ghost pre = *old(self);
                proof {
                    assert(self.users@ =~= pre.users@.remove(user));
                    assert forall|c2: u64| c2 != c implies self.occupants(c2) =~= pre.occupants(
                        c2,
                    ) by {}
                    assert(self.occupants(c) =~= pre.occupants(c).remove(user));
                    pre.lemma_occupants_finite(c);
                    assert(pre.occupants(c).contains(user));
                    assert(self.occupants(c).len() == pre.occupants(c).len() - 1);
                }
                let cnt = match self.counts.get(&c) {
                    Some(v) => *v,
                    None => 0,
                };
                proof {
                    assert(pre.occupants(c).contains(user));
                    assert(pre.counts_map().contains_key(c));
                }
                proof {
                    assert(cnt as nat == pre.occupants(c).len());
                }
                if cnt <= 1 {
                    self.counts.remove(&c);
                    proof {
                        assert(self.counts_map() =~= pre.counts_map().remove(c));
                        assert(self.occupants(c) =~= Set::<u64>::empty());
                        self.lemma_inv_from(pre, c);
                    }
                } else {
                    self.counts.insert(c, cnt - 1);
                    proof {
                        assert(self.counts_map() =~= pre.counts_map().insert(c, (cnt - 1) as u64));
                        self.lemma_inv_from(pre, c);
                    }
                }
                Some(c)
            },
        }
    }

    /// The invariant carries over from `pre` when only channel `c` changed
    /// occupants, and the count entry for `c` was rewritten to match.
    proof fn lemma_inv_from(&self, pre: Occupancy, c: u64)
        requires
            pre.inv(),
            forall|c2: u64| c2 != c ==> self.occupants(c2) == pre.occupants(c2),
            forall|c2: u64|
                c2 != c ==> pre.counts_map().contains_key(c2) == (
                #[trigger] self.counts_map().contains_key(c2)) && (
                pre.counts_map().contains_key(c2) ==> pre.counts_map()[c2] == self.counts_map()[
                    c2
                ]),
            self.counts_map().contains_key(c) ==> self.counts_map()[c] as nat == self.occupants(
                c,
            ).len() && self.counts_map()[c] > 0,
            !self.counts_map().contains_key(c) ==> self.occupants(c) =~= Set::<u64>::empty(),
        ensures
            self.inv(),
    {
        assert forall|c2: u64| #[trigger]
            self.counts_map().contains_key(c2) implies self.counts_map()[c2] as nat
            == self.occupants(c2).len() && self.counts_map()[c2] > 0 by {
            if c2 != c {
                assert(pre.counts_map().contains_key(c2));
            }
        }
        assert forall|c2: u64| !(#[trigger] self.counts_map().contains_key(c2)) implies self
            .occupants(c2) =~= Set::<u64>::empty() by {
            if c2 != c {
                assert(!pre.counts_map().contains_key(c2));
            }
        }
    }

    /// Records the user as occupying channel `chan`; if the user was mapped
    /// somewhere else, that record is released first, so the two maps move as
    /// one atomic unit.
    pub fn on_join(&mut self, user: u64, chan: u64)
        requires
            old(self).inv(),
        ensures
            final(self).inv(),
            final(self).users_map() == old(self).users_map().insert(user, chan),
    {
        let _ = self.on_leave(user);
        let ghost mid = *self;
        let cnt_opt = self.counts.get(&chan);
        let cnt = match cnt_opt {
            Some(v) => *v,
            None => 0,
        };
        proof {
            mid.lemma_occupants_finite(chan);
            match cnt_opt {
                Some(_) => {
                    assert(mid.counts_map().contains_key(chan));
                },
                None => {
                    assert(!mid.counts_map().contains_key(chan));
                    assert(mid.occupants(chan) =~= Set::<u64>::empty());
                },
            }
            assert(cnt as nat == mid.occupants(chan).len());
        }
        self.users.insert(user, chan);
        let n = self.users.len();
        proof {
            assert(self.users@ =~= mid.users@.insert(user, chan));
            assert forall|c2: u64| c2 != chan implies self.occupants(c2) =~= mid.occupants(
                c2,
            ) by {}
            assert(self.occupants(chan) =~= mid.occupants(chan).insert(user));
            assert(!mid.occupants(chan).contains(user));
            assert(self.occupants(chan).len() == mid.occupants(chan).len() + 1);
            assert(self.users@ =~= old(self).users@.insert(user, chan));
            self.lemma_occupants_finite(chan);
            assert(self.users_map().dom().len() == n as nat);
            assert(cnt as nat + 1 <= n as nat);
        }
        let ghost mid2 = *self;
        self.counts.insert(chan, cnt + 1);
        proof {
            assert(self.counts_map() =~= mid.counts_map().insert(chan, (cnt + 1) as u64));
            assert(forall|c2: u64| c2 != chan ==> self.occupants(c2) == mid2.occupants(c2));
            assert(self.occupants(chan) == mid2.occupants(chan));
            self.lemma_inv_from_join(mid, mid2, chan);
        }
    }

    /// The invariant after a join: `mid` satisfied it, only `chan` gained an
    /// occupant, and its count entry was rewritten to the new size.
    proof fn lemma_inv_from_join(&self, mid: Occupancy, mid2: Occupancy, chan: u64)
        requires
            mid.inv(),
            forall|c2: u64| c2 != chan ==> mid2.occupants(c2) == mid.occupants(c2),
            forall|c2: u64| c2 != chan ==> self.occupants(c2) == mid2.occupants(c2),
            self.counts_map() == mid.counts_map().insert(
                chan,
                (mid2.occupants(chan).len()) as u64,
            ),
            self.occupants(chan) == mid2.occupants(chan),
            mid2.occupants(chan).len() == mid.occupants(chan).len() + 1,
            mid2.occupants(chan).len() <= u64::MAX,
        ensures
            self.inv(),
    {
        assert forall|c2: u64| #[trigger]
            self.counts_map().contains_key(c2) implies self.counts_map()[c2] as nat
            == self.occupants(c2).len() && self.counts_map()[c2] > 0 by {
            if c2 != chan {
                assert(mid.counts_map().contains_key(c2));
            }
        }
        assert forall|c2: u64| !(#[trigger] self.counts_map().contains_key(c2)) implies self
            .occupants(c2) =~= Set::<u64>::empty() by {
            assert(c2 != chan);
            assert(!mid.counts_map().contains_key(c2));
        }
    }

    /// In every state the tracker can reach, the recorded count of a channel
    /// equals the number of users currently mapped to it, a zero count has no
    /// entry, and a recorded count is never zero.
    pub proof fn lemma_count_matches_members(&self, c: u64)
        requires
            self.inv(),
        ensures
            self.count_of(c) == self.occupants(c).len(),
            self.counts_map().contains_key(c) ==> self.counts_map()[c] as nat == self.occupants(
                c,
            ).len() && self.counts_map()[c] > 0,
            !self.counts_map().contains_key(c) ==> self.occupants(c).len() == 0,
    {
    }

    /// The channel the user currently occupies, if any.
    pub fn channel_of(&self, user: u64) -> (r: Option<u64>)
        ensures
            match r {
                Some(c) => self.users_map().contains_key(user) && self.users_map()[user] == c,
                None => !self.users_map().contains_key(user),
            },
    {
        match self.users.get(&user) {
            Some(c) => Some(*c),
            None => None,
        }
    }

    /// The live member count of channel `c`.
    pub fn count(&self, c: u64) -> (r: u64)
        requires
            self.inv(),
        ensures
            r as nat == self.count_of(c),
    {
        let r = self.counts.get(&c);
        match r {
            Some(v) => {
                proof {
                    assert(self.counts_map().contains_key(c));
                }
                *v
            },
            None => {
                proof {
                    assert(!self.counts_map().contains_key(c));
                    assert(self.occupants(c) =~= Set::<u64>::empty());
                }
                0
            },
        }
    }
}

} // verus!
