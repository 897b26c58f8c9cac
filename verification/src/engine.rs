//! The group-lifecycle engine: one state value holding the occupancy
//! tracker, the bounded caches, the owner map, the cleanup ring and the role
//! capability cache, with one method per inbound decision. Remote work is
//! returned as plain values (plans) for the caller to perform; results of
//! remote work come back in as plain values.
use crate::caches::lru_contains;
use crate::caches::lru_distinct;
use crate::caches::lru_get;
use crate::caches::lru_put;
use crate::caches::lru_remove;
use crate::caches::lru_touch;
use crate::caches::lemma_lru_get_contains;
use crate::caches::lemma_lru_get_is_entry;
use crate::caches::lemma_lru_put_keys;
use crate::caches::lemma_lru_remove_keys;
use crate::caches::lemma_owner_insert_injective;
use crate::caches::lemma_lru_touch;
use crate::caches::lemma_lru_put;
use crate::caches::lemma_lru_remove_distinct;
use crate::caches::lemma_lru_remove_subset;
use crate::caches::owner_insert;
use crate::caches::owner_injective;
use crate::extern_caches::CatLru;
use crate::extern_caches::CleanupRing;
use crate::extern_caches::IgnLru;
use crate::extern_caches::RlLru;
use crate::extern_caches::cat_cache_get;
use crate::extern_caches::cat_cache_new;
use crate::extern_caches::cat_cache_peek;
use crate::extern_caches::cat_cache_pop;
use crate::extern_caches::cat_cache_push;
use crate::extern_caches::cat_cap;
use crate::extern_caches::cat_model;
use crate::extern_caches::cq_model;
use crate::extern_caches::ign_cache_get;
use crate::extern_caches::ign_cache_new;
use crate::extern_caches::ign_cache_pop;
use crate::extern_caches::ign_cache_put;
use crate::extern_caches::ign_cap;
use crate::extern_caches::ign_model;
use crate::extern_caches::owner_cache_contains_right;
use crate::extern_caches::owner_cache_get_by_left;
use crate::extern_caches::owner_cache_insert;
use crate::extern_caches::owner_cache_new;
use crate::extern_caches::owner_cache_remove_by_left;
use crate::extern_caches::owner_has_right;
use crate::extern_caches::owner_model;
use crate::extern_caches::ring_front;
use crate::extern_caches::ring_is_full;
use crate::extern_caches::ring_new;
use crate::extern_caches::ring_pop_front;
use crate::extern_caches::ring_push;
use crate::extern_caches::RingItem;
use crate::extern_caches::rl_cache_new;
use crate::extern_caches::rl_cache_peek;
use crate::extern_caches::rl_cache_put;
use crate::extern_caches::rl_cap;
use crate::extern_caches::rl_model;
use crate::extern_caches::lru_push_result;
use crate::command::Args;
use crate::command::ParseAcc;
use crate::command::empty_acc;
use crate::command::run;
use crate::listing::ChannelInfo;
use crate::listing::GroupChannels;
use crate::listing::groups_of;
use crate::listing::leftovers_of;
use crate::listing::partition_listing;
use crate::listing::Partition;
use crate::occupancy::Occupancy;
use crate::plan::CreationPlan;
use crate::plan::build_plan;
use crate::plan::plan_wf;
use crate::ratelimit::RateDecision;
use crate::ratelimit::rate_decision;
use crate::ratelimit::rate_decision_spec;
use crate::roles::RoleCache;
use crate::roles::RoleInfo;
use crate::roles::RolePerms;
use crate::roles::grants_create;
use crate::roles::grants_move;
use crate::roles::roles_folded;
use std::collections::BTreeMap;
use vstd::prelude::*;

verus! {

broadcast use {vstd::std_specs::btree::group_btree_axioms, vstd::laws_cmp::group_laws_cmp, vstd::set::group_set_axioms};

/// Capacity of the category cache.
pub const CAT_CAPACITY: u64 = 32;

/// Capacity of the ignore and rate-limit caches.
pub const SIDE_CAPACITY: u64 = 128;

/// The rate record after a decision: only an allowed attempt writes.
pub open spec fn rl_after(m: Seq<(u64, u64)>, r: RateDecision, author: u64, now: u64) -> Seq<
    (u64, u64),
> {
    if r is Allowed {
        lru_put(m, SIDE_CAPACITY as nat, author, now)
    } else {
        m
    }
}

/// The answer to a group-creation command.
pub enum CreationGate {
    /// Inside the short cooldown: dropped without an answer.
    SilentRateLimited,
    /// The author already owns a live group in this guild.
    AlreadyOwner,
    /// Inside the long cooldown; the seconds still to wait.
    TooSoon(u64),
    /// A whitelist is set and the author is not on it.
    NotPermitted,
    /// The argument string did not parse.
    BadParse,
    /// Create the group: the names, overrides and users to pull in.
    Proceed(CreationPlan),
}

/// What a voice join asks for.
pub enum JoinOutcome {
    /// The channel is known not to be managed: not even tracked.
    Ignored,
    /// Tracked; the joiner owns this channel and needs no override.
    OwnerJoined,
    /// Tracked and managed: grant the joiner the member override on this
    /// category.
    GrantPerms(u64),
    /// Tracked, but no managed group is known for the channel.
    Untracked,
}

/// What a voice leave asks for.
pub enum LeaveOutcome {
    /// The user had no occupancy record.
    NotTracked,
    /// The channel still has members.
    StillOccupied(u64),
    /// The channel emptied and is a cached group: tear these down remotely.
    Teardown(GroupChannels),
    /// The channel emptied and is already marked unmanaged: nothing to do.
    KnownUnmanaged(u64),
    /// The channel emptied, no cache knows it: fetch this guild's listing
    /// and call `resolve_after_rescan`.
    NeedRescan(u64),
}

pub struct Engine {
    me: Option<u64>,
    occ: Occupancy,
    roles: RoleCache,
    cat: CatLru,
    mirror: BTreeMap<u64, u64>,
    ignore: IgnLru,
    rate: RlLru,
    owners: bimap::BiBTreeMap<u64, (u64, u64)>,
    queue: CleanupRing,
    sweep_last: Option<u64>,
}

impl Engine {
    pub closed spec fn me_spec(&self) -> Option<u64> {
        self.me
    }

    pub closed spec fn occ_spec(&self) -> Occupancy {
        self.occ
    }

    pub closed spec fn roles_spec(&self) -> RoleCache {
        self.roles
    }

    pub closed spec fn cat_m(&self) -> Seq<(u64, (u64, Option<u64>))> {
        cat_model(self.cat)
    }

    pub closed spec fn ign_m(&self) -> Seq<(u64, ())> {
        ign_model(self.ignore)
    }

    pub closed spec fn rl_m(&self) -> Seq<(u64, u64)> {
        rl_model(self.rate)
    }

    pub closed spec fn owners_m(&self) -> Map<u64, (u64, u64)> {
        owner_model(self.owners)
    }

    pub closed spec fn queue_m(&self) -> Seq<RingItem> {
        cq_model(self.queue)
    }

    pub closed spec fn sweep_last_spec(&self) -> Option<u64> {
        self.sweep_last
    }

    /// The category-id mirror, as recorded.
    pub closed spec fn mirror_m(&self) -> Map<u64, u64> {
        self.mirror@
    }

    /// The capacity the category cache was made with.
    pub closed spec fn cat_cap_spec(&self) -> nat {
        cat_cap(self.cat)
    }

    /// The capacity the ignore cache was made with.
    pub closed spec fn ign_cap_spec(&self) -> nat {
        ign_cap(self.ignore)
    }

    /// The capacity the rate-limit cache was made with.
    pub closed spec fn rl_cap_spec(&self) -> nat {
        rl_cap(self.rate)
    }

    /// The category ids of the cached groups are pairwise distinct.
    pub open spec fn cat_ids_distinct(&self) -> bool {
        forall|i: int, j: int| 0 <= i < j < self.cat_m().len() ==> (#[trigger] self.cat_m()[i]).1.0
            != (#[trigger] self.cat_m()[j]).1.0
    }

    /// The mirror maps exactly the cached category ids to their cache keys.
    pub open spec fn mirror_ok(&self) -> bool {
        &&& forall|c: u64| #[trigger] self.mirror_m().contains_key(c) ==> exists|i: int|
            0 <= i < self.cat_m().len() && (#[trigger] self.cat_m()[i]).1.0 == c
        &&& forall|i: int| 0 <= i < self.cat_m().len() ==> self.mirror_m().contains_key(
            (#[trigger] self.cat_m()[i]).1.0,
        ) && self.mirror_m()[self.cat_m()[i].1.0] == self.cat_m()[i].0
    }

    /// No cached group's voice-channel id or category id is marked ignored.
    pub open spec fn caches_disjoint(&self) -> bool {
        forall|i: int| 0 <= i < self.cat_m().len() ==> !lru_contains(
            self.ign_m(),
            (#[trigger] self.cat_m()[i]).0,
        ) && !lru_contains(self.ign_m(), self.cat_m()[i].1.0)
    }

    pub open spec fn inv(&self) -> bool {
        &&& self.occ_spec().inv()
        &&& lru_distinct(self.cat_m())
        &&& self.cat_m().len() <= CAT_CAPACITY
        &&& self.cat_cap_spec() == CAT_CAPACITY
        &&& lru_distinct(self.ign_m())
        &&& self.ign_m().len() <= SIDE_CAPACITY
        &&& self.ign_cap_spec() == SIDE_CAPACITY
        &&& lru_distinct(self.rl_m())
        &&& self.rl_m().len() <= SIDE_CAPACITY
        &&& self.rl_cap_spec() == SIDE_CAPACITY
        &&& owner_injective(self.owners_m())
        &&& self.queue_m().len() <= 32
        &&& self.cat_ids_distinct()
        &&& self.mirror_ok()
        &&& self.caches_disjoint()
    }

    /// In every state the engine can reach, a cached group's voice-channel
    /// id and category id are absent from the ignore marks.
    pub proof fn lemma_no_group_id_ignored(&self, i: int)
        requires
            self.inv(),
            0 <= i < self.cat_m().len(),
        ensures
            !lru_contains(self.ign_m(), self.cat_m()[i].0),
            !lru_contains(self.ign_m(), self.cat_m()[i].1.0),
    {
    }

    pub fn new() -> (r: Engine)
        ensures
            r.inv(),
            r.me_spec() is None,
            r.occ_spec().users_map() == Map::<u64, u64>::empty(),
            r.cat_m() == Seq::<(u64, (u64, Option<u64>))>::empty(),
            r.ign_m() == Seq::<(u64, ())>::empty(),
            r.rl_m() == Seq::<(u64, u64)>::empty(),
            r.owners_m() == Map::<u64, (u64, u64)>::empty(),
            r.queue_m() == Seq::<RingItem>::empty(),
            r.sweep_last_spec() is None,
            r.roles_spec().move_set() == Set::<u64>::empty(),
            r.roles_spec().create_set() == Set::<u64>::empty(),
            r.roles_spec().owner_map() == Map::<u64, u64>::empty(),
            r.roles_spec().whitelist_map() == Map::<u64, u64>::empty(),
    {
        let r = Engine {
            me: None,
            occ: Occupancy::new(),
            roles: RoleCache::new(),
            cat: cat_cache_new(32),
            mirror: BTreeMap::new(),
            ignore: ign_cache_new(128),
            rate: rl_cache_new(128),
            owners: owner_cache_new(),
            queue: ring_new(),
            sweep_last: None,
        };
        r
    }

    /// Records the engine's own account id, once known from the ready event.
    pub fn set_self(&mut self, id: u64)
        requires
            old(self).inv(),
        ensures
            final(self).inv(),
            final(self).me_spec() == Some(id),
            final(self).same_but_me(*old(self)),
    {
        self.me = Some(id);
        proof {
            lemma_inv_carries(*self, *old(self));
        }
    }

    /// Whether `author` may create a group in `guild`: freely if the guild
    /// has no whitelist role; otherwise only with the whitelist role, a
    /// channel-creating role, or guild ownership.
    pub open spec fn permitted_spec(&self, guild: u64, author: u64, roles: Seq<u64>) -> bool {
        if self.roles_spec().whitelist_map().contains_key(guild) {
            let wl = self.roles_spec().whitelist_map()[guild];
            ||| exists|i: int| 0 <= i < roles.len() && (#[trigger] roles[i] == wl
                || self.roles_spec().create_set().contains(roles[i]))
            ||| (self.roles_spec().owner_map().contains_key(guild) && self.roles_spec().owner_map()[guild]
                == author)
        } else {
            true
        }
    }

    /// The caches and trackers outside the rate limiter and the account id,
    /// as one tuple, for frame conditions.
    pub open spec fn frame(&self) -> (
        Occupancy,
        RoleCache,
        Seq<(u64, (u64, Option<u64>))>,
        Map<u64, u64>,
        Seq<(u64, ())>,
        Map<u64, (u64, u64)>,
        Seq<RingItem>,
        Option<u64>,
    ) {
        (
            self.occ_spec(),
            self.roles_spec(),
            self.cat_m(),
            self.mirror_m(),
            self.ign_m(),
            self.owners_m(),
            self.queue_m(),
            self.sweep_last_spec(),
        )
    }

    /// Everything but the rate-limit record is as in `pre`.
    pub open spec fn same_but_rate(&self, pre: Engine) -> bool {
        self.frame() == pre.frame() && self.me_spec() == pre.me_spec()
    }

    /// Everything but the engine's own account id is as in `pre`.
    pub open spec fn same_but_me(&self, pre: Engine) -> bool {
        self.frame() == pre.frame() && self.rl_m() == pre.rl_m()
    }

    /// The rate policy against the recorded stamp, counting an owned live
    /// group; only an allowed attempt records its instant.
    pub fn check_and_update(&mut self, author: u64, guild: u64, now: u64) -> (r: RateDecision)
        requires
            old(self).inv(),
        ensures
            final(self).inv(),
            r == rate_decision_spec(
                lru_get(old(self).rl_m(), author),
                now,
                owner_has_right(old(self).owners_m(), (author, guild)),
            ),
            final(self).rl_m() == rl_after(old(self).rl_m(), r, author, now),
            final(self).same_but_rate(*old(self)),
    {
        let last = rl_cache_peek(&self.rate, author);
        let owns = owner_cache_contains_right(&self.owners, (author, guild));
        let dec = rate_decision(last, now, owns);
        let allowed = match dec {
            RateDecision::Allowed => true,
            _ => false,
        };
        if allowed {
            let ghost m0 = self.rl_m();
            rl_cache_put(&mut self.rate, author, now);
            proof {
                lemma_lru_put(m0, SIDE_CAPACITY as nat, author, now);
                lemma_inv_carries(*self, *old(self));
            }
        } else {
            proof {
                lemma_inv_carries(*self, *old(self));
            }
        }
        dec
    }

    /// What `begin_creation` answers and records, read against the state it
    /// started from: the rate gate decides first, an allowed attempt records
    /// its instant, then the whitelist gate, then the parse, then the plan.
    pub open spec fn creation_gate_ok(
        pre: Engine,
        rl_final: Seq<(u64, u64)>,
        r: CreationGate,
        author: u64,
        guild: u64,
        now: u64,
        roles: Seq<u64>,
        args_src: Seq<char>,
        fallback: Seq<char>,
    ) -> bool {
        let dec = rate_decision_spec(
            lru_get(pre.rl_m(), author),
            now,
            owner_has_right(pre.owners_m(), (author, guild)),
        );
        let updated = lru_put(pre.rl_m(), SIDE_CAPACITY as nat, author, now);
        match r {
            CreationGate::SilentRateLimited => dec is SilentBlock && rl_final == pre.rl_m(),
            CreationGate::AlreadyOwner => dec is AlreadyOwner && rl_final == pre.rl_m(),
            CreationGate::TooSoon(s) => dec == RateDecision::TooSoon(s) && rl_final == pre.rl_m(),
            CreationGate::NotPermitted => dec is Allowed && rl_final == updated
                && !pre.permitted_spec(guild, author, roles),
            CreationGate::BadParse => dec is Allowed && rl_final == updated && pre.permitted_spec(
                guild,
                author,
                roles,
            ) && run(args_src, 0, empty_acc()) is None,
            CreationGate::Proceed(p) => dec is Allowed && rl_final == updated
                && pre.permitted_spec(guild, author, roles) && (run(
                args_src,
                0,
                empty_acc(),
            ) matches Some(acc) && plan_wf(
                p,
                acc.kwargs,
                acc.args,
                fallback,
                author,
                pre.me_spec(),
                guild,
            )),
        }
    }

    /// Handles one creation command: the rate gate, the whitelist gate, the
    /// parse, and the plan. Only the rate-limit record changes.
    pub fn begin_creation(
        &mut self,
        author: u64,
        guild: u64,
        now: u64,
        author_roles: &Vec<u64>,
        args_src: &str,
        fallback: &str,
    ) -> (r: CreationGate)
        requires
            old(self).inv(),
        ensures
            final(self).inv(),
            final(self).same_but_rate(*old(self)),
            Engine::creation_gate_ok(
                *old(self),
                final(self).rl_m(),
                r,
                author,
                guild,
                now,
                author_roles@,
                args_src@,
                fallback@,
            ),
    {
        let dec = self.check_and_update(author, guild, now);
        match dec {
            RateDecision::SilentBlock => {
                return CreationGate::SilentRateLimited;
            },
            RateDecision::AlreadyOwner => {
                return CreationGate::AlreadyOwner;
            },
            RateDecision::TooSoon(s) => {
                return CreationGate::TooSoon(s);
            },
            RateDecision::Allowed => {},
        }
        let permitted = match self.roles.whitelist_of(guild) {
            Some(wl) => {
                if self.roles.any_whitelisted_or_creates(author_roles, wl) {
                    true
                } else {
                    match self.roles.guild_owner(guild) {
                        Some(o) => o == author,
                        None => false,
                    }
                }
            },
            None => true,
        };
        if !permitted {
            return CreationGate::NotPermitted;
        }
        match Args::parse(args_src) {
            Err(_) => CreationGate::BadParse,
            Ok(a) => {
                let p = build_plan(&a, fallback, author, self.me, guild);
                CreationGate::Proceed(p)
            },
        }
    }

    /// Remembers who created a voice channel, and in which guild.
    pub fn record_owner(&mut self, vc: u64, author: u64, guild: u64)
        requires
            old(self).inv(),
        ensures
            final(self).inv(),
            final(self).owners_m() == owner_insert(old(self).owners_m(), vc, (author, guild)),
            final(self).occ_spec() == old(self).occ_spec(),
            final(self).roles_spec() == old(self).roles_spec(),
            final(self).cat_m() == old(self).cat_m(),
            final(self).ign_m() == old(self).ign_m(),
            final(self).rl_m() == old(self).rl_m(),
            final(self).queue_m() == old(self).queue_m(),
            final(self).sweep_last_spec() == old(self).sweep_last_spec(),
            final(self).me_spec() == old(self).me_spec(),
            final(self).mirror_m() == old(self).mirror_m(),
    {
        let ghost m0 = self.owners_m();
        owner_cache_insert(&mut self.owners, vc, (author, guild));
        proof {
            lemma_owner_insert_injective(m0, vc, (author, guild));
            lemma_inv_carries(*self, *old(self));
        }
    }

    /// Forgets who created a voice channel.
    pub fn forget_owner(&mut self, vc: u64)
        requires
            old(self).inv(),
        ensures
            final(self).inv(),
            final(self).owners_m() == old(self).owners_m().remove(vc),
            final(self).occ_spec() == old(self).occ_spec(),
            final(self).roles_spec() == old(self).roles_spec(),
            final(self).cat_m() == old(self).cat_m(),
            final(self).ign_m() == old(self).ign_m(),
            final(self).rl_m() == old(self).rl_m(),
            final(self).queue_m() == old(self).queue_m(),
            final(self).sweep_last_spec() == old(self).sweep_last_spec(),
            final(self).me_spec() == old(self).me_spec(),
            final(self).mirror_m() == old(self).mirror_m(),
    {
        owner_cache_remove_by_left(&mut self.owners, vc);
        proof {
            assert(owner_injective(self.owners_m()));
            lemma_inv_carries(*self, *old(self));
        }
    }

    /// Whether `chan` can be marked unmanaged without touching a live group:
    /// it is neither a cached voice-channel id nor a cached category id.
    pub open spec fn safe_to_ignore(&self, chan: u64) -> bool {
        !lru_contains(self.cat_m(), chan) && !self.mirror_m().contains_key(chan)
    }

    /// Marks a channel as not managed, unless a cached group still claims its
    /// id; says whether the mark was made.
    pub fn ignore_mark(&mut self, chan: u64) -> (r: bool)
        requires
            old(self).inv(),
        ensures
            final(self).inv(),
            r == old(self).safe_to_ignore(chan),
            final(self).ign_m() == if r {
                lru_put(old(self).ign_m(), SIDE_CAPACITY as nat, chan, ())
            } else {
                old(self).ign_m()
            },
            final(self).occ_spec() == old(self).occ_spec(),
            final(self).roles_spec() == old(self).roles_spec(),
            final(self).cat_m() == old(self).cat_m(),
            final(self).owners_m() == old(self).owners_m(),
            final(self).rl_m() == old(self).rl_m(),
            final(self).queue_m() == old(self).queue_m(),
            final(self).sweep_last_spec() == old(self).sweep_last_spec(),
            final(self).me_spec() == old(self).me_spec(),
            final(self).mirror_m() == old(self).mirror_m(),
    {
        let cached = cat_cache_peek(&self.cat, chan);
        proof {
            lemma_lru_get_contains(self.cat_m(), chan);
        }
        let in_mirror = match self.mirror.get(&chan) {
            Some(_) => true,
            None => false,
        };
        if cached.is_none() && !in_mirror {
            let ghost ign0 = self.ign_m();
            ign_cache_put(&mut self.ignore, chan);
            proof {
                lemma_lru_put(ign0, SIDE_CAPACITY as nat, chan, ());
                lemma_lru_put_keys(ign0, SIDE_CAPACITY as nat, chan, ());
                assert forall|i: int| 0 <= i < self.cat_m().len() implies !lru_contains(
                    self.ign_m(),
                    (#[trigger] self.cat_m()[i]).0,
                ) && !lru_contains(self.ign_m(), self.cat_m()[i].1.0) by {
                    assert(self.cat_m()[i].0 != chan) by {
                        if self.cat_m()[i].0 == chan {
                            assert(lru_contains(self.cat_m(), chan));
                        }
                    }
                    assert(self.cat_m()[i].1.0 != chan) by {
                        assert(self.mirror_m().contains_key(self.cat_m()[i].1.0));
                    }
                }
            }
            true
        } else {
            false
        }
    }

    /// The cached groups after one is recorded: a stale holder of the same
    /// category id leaves first, then the insert may drop the least recent
    /// group.
    pub open spec fn record_group_model(
        m: Seq<(u64, (u64, Option<u64>))>,
        mirror: Map<u64, u64>,
        vc: u64,
        cat_id: u64,
        txt: Option<u64>,
    ) -> Seq<(u64, (u64, Option<u64>))> {
        let m1 = if mirror.contains_key(cat_id) {
            lru_remove(m, mirror[cat_id])
        } else {
            m
        };
        lru_put(m1, CAT_CAPACITY as nat, vc, (cat_id, txt))
    }

    /// The mirror after one group is recorded: the stale holder's slot and
    /// the dropped entry's slot leave, the new pair goes in.
    pub open spec fn record_group_mirror(
        m: Seq<(u64, (u64, Option<u64>))>,
        mirror: Map<u64, u64>,
        vc: u64,
        cat_id: u64,
    ) -> Map<u64, u64> {
        let mir1 = if mirror.contains_key(cat_id) {
            mirror.remove(cat_id)
        } else {
            mirror
        };
        let m1 = if mirror.contains_key(cat_id) {
            lru_remove(m, mirror[cat_id])
        } else {
            m
        };
        let mir2 = match lru_push_result(m1, CAT_CAPACITY as nat, vc) {
            Some(ev) => mir1.remove(ev.1.0),
            None => mir1,
        };
        mir2.insert(cat_id, vc)
    }

    /// Caches one group under its voice channel, keeping the ignore marks and
    /// the mirror consistent: the ids of the new group lose any ignore mark,
    /// and any stale holder of the category id leaves the cache.
    pub fn record_group(&mut self, vc: u64, cat_id: u64, txt: Option<u64>)
        requires
            old(self).inv(),
        ensures
            final(self).inv(),
            final(self).cat_m() == Engine::record_group_model(
                old(self).cat_m(),
                old(self).mirror_m(),
                vc,
                cat_id,
                txt,
            ),
            final(self).ign_m() == lru_remove(lru_remove(old(self).ign_m(), vc), cat_id),
            final(self).mirror_m() == Engine::record_group_mirror(
                old(self).cat_m(),
                old(self).mirror_m(),
                vc,
                cat_id,
            ),
            final(self).occ_spec() == old(self).occ_spec(),
            final(self).roles_spec() == old(self).roles_spec(),
            final(self).owners_m() == old(self).owners_m(),
            final(self).rl_m() == old(self).rl_m(),
            final(self).queue_m() == old(self).queue_m(),
            final(self).sweep_last_spec() == old(self).sweep_last_spec(),
            final(self).me_spec() == old(self).me_spec(),
    {
        let ghost m0 = self.cat_m();
        let ghost mir0 = self.mirror_m();

        // A stale holder of this category id leaves the cache first.
        let stale = match self.mirror.get(&cat_id) {
            Some(kk) => Some(*kk),
            None => None,
        };
        if let Some(k2) = stale {
            let _ = cat_cache_pop(&mut self.cat, k2);
            self.mirror.remove(&cat_id);
        }
        let ghost m1 = self.cat_m();
        let ghost mir1 = self.mirror_m();
        proof {
            lemma_lru_remove_subset(m0, cat_id_key(mir0, cat_id));
            lemma_lru_remove_distinct(m0, cat_id_key(mir0, cat_id));
            assert(m1 == (if mir0.contains_key(cat_id) {
                lru_remove(m0, mir0[cat_id])
            } else {
                m0
            }));
            // No entry of m1 carries this category id, and m1 keeps the
            // old entries' properties.
            assert forall|i: int| 0 <= i < m1.len() implies m0.contains(#[trigger] m1[i])
                && m1[i].1.0 != cat_id by {
                if mir0.contains_key(cat_id) {
                    assert(m1[i].0 != mir0[cat_id]);
                    let t = choose|t: int| 0 <= t < m0.len() && m0[t] == m1[i];
                    assert(m0.contains(m0[t]));
                    assert(mir0[m0[t].1.0] == m0[t].0);
                } else {
                    let t = choose|t: int| 0 <= t < m0.len() && m0[t] == m1[i];
                    assert(mir0.contains_key(m0[t].1.0));
                }
            }
            assert(lru_distinct(m1));
            lemma_entries_distinct_carry(m0, m1);
            assert(mirror_matches(m1, mir1)) by {
                assert forall|c: u64| #[trigger] mir1.contains_key(c) implies exists|i: int|
                    0 <= i < m1.len() && (#[trigger] m1[i]).1.0 == c by {
                    assert(mir0.contains_key(c) && c != cat_id);
                    let i = choose|i: int| 0 <= i < m0.len() && (#[trigger] m0[i]).1.0 == c;
                    if mir0.contains_key(cat_id) {
                        assert(m0[i].0 != mir0[cat_id]) by {
                            assert(mir0[m0[i].1.0] == m0[i].0);
                            if m0[i].0 == mir0[cat_id] {
                                let j = choose|j: int|
                                    0 <= j < m0.len() && (#[trigger] m0[j]).1.0 == cat_id;
                                assert(mir0[m0[j].1.0] == m0[j].0);
                                assert(m0[j].0 == m0[i].0);
                                assert(m0[j] == m0[i]);
                            }
                        }
                        lemma_lru_remove_distinct(m0, mir0[cat_id]);
                        assert(m0.contains(m0[i]));
                        assert(m1.contains(m0[i]));
                        let t = choose|t: int| 0 <= t < m1.len() && m1[t] == m0[i];
                    }
                }
                assert forall|i: int| 0 <= i < m1.len() implies mir1.contains_key(
                    (#[trigger] m1[i]).1.0,
                ) && mir1[m1[i].1.0] == m1[i].0 by {
                    assert(m0.contains(m1[i]));
                    assert(m1[i].1.0 != cat_id);
                }
            }
        }

        // The new group's ids lose any ignore mark.
        let ghost ign0 = self.ign_m();
        ign_cache_pop(&mut self.ignore, vc);
        ign_cache_pop(&mut self.ignore, cat_id);
        proof {
            lemma_lru_remove_subset(ign0, vc);
            lemma_lru_remove_distinct(ign0, vc);
            lemma_lru_remove_subset(lru_remove(ign0, vc), cat_id);
            lemma_lru_remove_distinct(lru_remove(ign0, vc), cat_id);
            lemma_lru_remove_keys(ign0, vc);
            lemma_lru_remove_keys(lru_remove(ign0, vc), cat_id);
        }

        // Insert, learning what left the cache.
        let evicted = cat_cache_push(&mut self.cat, vc, (cat_id, txt));
        proof {
            lemma_lru_put(m1, CAT_CAPACITY as nat, vc, (cat_id, txt));
            lemma_lru_get_contains(m1, vc);
            lemma_lru_get_is_entry(m1, vc);
        }
        if let Some(ev) = evicted {
            self.mirror.remove(&ev.1.0);
        }
        self.mirror.insert(cat_id, vc);

        proof {
            let m2 = self.cat_m();
            let mir2 = self.mirror_m();
            let rest = lru_remove(m1, vc);
            lemma_lru_remove_subset(m1, vc);
            lemma_lru_remove_distinct(m1, vc);
            let kept = kept_of(m1, vc);
            assert(m2 == seq![(vc, (cat_id, txt))] + kept);
            assert(forall|i: int| 0 <= i < kept.len() ==> rest.contains(#[trigger] kept[i]));
            assert forall|i: int| 0 < i < m2.len() implies m1.contains(#[trigger] m2[i])
                && m2[i].0 != vc by {
                assert(m2[i] == kept[i - 1]);
                assert(rest.contains(kept[i - 1]));
                let t = choose|t: int| 0 <= t < rest.len() && rest[t] == kept[i - 1];
            }
            // Which entry left, and that it is not among the kept ones.
            lemma_kept_misses_evicted(m1, vc, cat_id, txt);
            // The category ids of the final entries are pairwise distinct.
            assert forall|i: int, j: int| 0 <= i < j < m2.len() implies (#[trigger] m2[i]).1.0
                != (#[trigger] m2[j]).1.0 by {
                if i == 0 {
                    assert(m1.contains(m2[j]) && m2[j].1.0 != cat_id);
                } else {
                    lemma_two_entries_distinct_cats(m1, m2[i], m2[j]);
                }
            }
            // The mirror matches the final entries.
            assert forall|c: u64| #[trigger] mir2.contains_key(c) implies exists|i: int|
                0 <= i < m2.len() && (#[trigger] m2[i]).1.0 == c by {
                if c == cat_id {
                    assert(m2[0].1.0 == c);
                } else {
                    assert(mir1.contains_key(c));
                    let i = choose|i: int| 0 <= i < m1.len() && (#[trigger] m1[i]).1.0 == c;
                    lemma_survivor_stays(m1, vc, c, i);
                    let t = choose|t: int|
                        0 <= t < kept_of(m1, vc).len() && (#[trigger] kept_of(m1, vc)[t]).1.0
                            == c;
                    assert(m2[t + 1].1.0 == c);
                }
            }
            assert forall|i: int| 0 <= i < m2.len() implies mir2.contains_key(
                (#[trigger] m2[i]).1.0,
            ) && mir2[m2[i].1.0] == m2[i].0 by {
                if i > 0 {
                    assert(m1.contains(m2[i]) && m2[i].1.0 != cat_id);
                    assert(mir1.contains_key(m2[i].1.0) && mir1[m2[i].1.0] == m2[i].0);
                    assert(kept_of(m1, vc).contains(m2[i])) by {
                        assert(kept_of(m1, vc)[i - 1] == m2[i]);
                    }
                    lemma_entry_not_evicted(m1, vc, m2[i]);
                }
            }
            // The new entries stay clear of the ignore marks.
            assert forall|i: int| 0 <= i < m2.len() implies !lru_contains(
                self.ign_m(),
                (#[trigger] m2[i]).0,
            ) && !lru_contains(self.ign_m(), m2[i].1.0) by {
                if i == 0 {
                } else {
                    assert(m1.contains(m2[i]));
                    assert(m0.contains(m2[i]));
                    let t = choose|t: int| 0 <= t < m0.len() && m0[t] == m2[i];
                    if lru_contains(self.ign_m(), m2[i].0) {
                        assert(lru_contains(ign0, m2[i].0));
                    }
                    if lru_contains(self.ign_m(), m2[i].1.0) {
                        assert(lru_contains(ign0, m2[i].1.0));
                    }
                }
            }
        }
    }
    /// A role came into being (the role-create event).
    pub fn role_created(&mut self, guild: u64, role: u64, perms: RolePerms, whitelist_name: bool)
        requires
            old(self).inv(),
        ensures
            final(self).inv(),
            final(self).roles_spec().move_set() == (if grants_move(perms) {
                old(self).roles_spec().move_set().insert(role)
            } else {
                old(self).roles_spec().move_set().remove(role)
            }),
            final(self).roles_spec().create_set() == (if grants_create(perms) {
                old(self).roles_spec().create_set().insert(role)
            } else {
                old(self).roles_spec().create_set().remove(role)
            }),
            final(self).roles_spec().owner_map() == old(self).roles_spec().owner_map(),
            final(self).roles_spec().whitelist_map() == (if whitelist_name {
                old(self).roles_spec().whitelist_map().insert(guild, role)
            } else {
                old(self).roles_spec().whitelist_map()
            }),
            engine_same_but_roles(*final(self), *old(self)),
    {
        let ghost pre = *self;
        self.roles.on_role_create(guild, role, perms, whitelist_name);
        proof {
            lemma_roles_changed_inv(*self, pre);
        }
    }

    /// A role changed (the role-update event).
    pub fn role_updated(&mut self, guild: u64, role: u64, perms: RolePerms, whitelist_name: bool)
        requires
            old(self).inv(),
        ensures
            final(self).inv(),
            final(self).roles_spec().move_set() == (if grants_move(perms) {
                old(self).roles_spec().move_set().insert(role)
            } else {
                old(self).roles_spec().move_set().remove(role)
            }),
            final(self).roles_spec().create_set() == (if grants_create(perms) {
                old(self).roles_spec().create_set().insert(role)
            } else {
                old(self).roles_spec().create_set().remove(role)
            }),
            final(self).roles_spec().owner_map() == old(self).roles_spec().owner_map(),
            final(self).roles_spec().whitelist_map() == (if whitelist_name {
                old(self).roles_spec().whitelist_map().insert(guild, role)
            } else if old(self).roles_spec().whitelist_map().contains_key(guild) && old(
                self,
            ).roles_spec().whitelist_map()[guild] == role {
                old(self).roles_spec().whitelist_map().remove(guild)
            } else {
                old(self).roles_spec().whitelist_map()
            }),
            engine_same_but_roles(*final(self), *old(self)),
    {
        let ghost pre = *self;
        self.roles.on_role_update(guild, role, perms, whitelist_name);
        proof {
            lemma_roles_changed_inv(*self, pre);
        }
    }

    /// A role was deleted (the role-delete event).
    pub fn role_deleted(&mut self, guild: u64, role: u64)
        requires
            old(self).inv(),
        ensures
            final(self).inv(),
            final(self).roles_spec().move_set() == old(self).roles_spec().move_set().remove(role),
            final(self).roles_spec().create_set() == old(self).roles_spec().create_set().remove(
                role,
            ),
            final(self).roles_spec().owner_map() == old(self).roles_spec().owner_map(),
            final(self).roles_spec().whitelist_map() == (if old(
                self,
            ).roles_spec().whitelist_map().contains_key(guild) && old(
                self,
            ).roles_spec().whitelist_map()[guild] == role {
                old(self).roles_spec().whitelist_map().remove(guild)
            } else {
                old(self).roles_spec().whitelist_map()
            }),
            engine_same_but_roles(*final(self), *old(self)),
    {
        let ghost pre = *self;
        self.roles.on_role_delete(guild, role);
        proof {
            lemma_roles_changed_inv(*self, pre);
        }
    }

    /// A guild's owner, as a guild event carries it.
    pub fn guild_owner_seen(&mut self, guild: u64, owner: u64)
        requires
            old(self).inv(),
        ensures
            final(self).inv(),
            final(self).roles_spec().owner_map() == old(self).roles_spec().owner_map().insert(
                guild,
                owner,
            ),
            final(self).roles_spec().move_set() == old(self).roles_spec().move_set(),
            final(self).roles_spec().create_set() == old(self).roles_spec().create_set(),
            final(self).roles_spec().whitelist_map() == old(self).roles_spec().whitelist_map(),
            engine_same_but_roles(*final(self), *old(self)),
    {
        let ghost pre = *self;
        self.roles.set_guild_owner(guild, owner);
        proof {
            lemma_roles_changed_inv(*self, pre);
        }
    }

    /// Whether any of the given roles grants moving members.
    pub fn roles_any_grants_move(&self, roles: &Vec<u64>) -> (r: bool)
        ensures
            r == exists|i: int| 0 <= i < roles@.len() && self.roles_spec().move_set().contains(
                #[trigger] roles@[i],
            ),
    {
        self.roles.any_grants_move(roles)
    }

    /// Whether this user is recorded as the guild's owner.
    pub fn guild_owner_is(&self, guild: u64, user: u64) -> (r: bool)
        ensures
            r == (self.roles_spec().owner_map().contains_key(guild)
                && self.roles_spec().owner_map()[guild] == user),
    {
        match self.roles.guild_owner(guild) {
            Some(o) => o == user,
            None => false,
        }
    }

    /// Who created this voice channel, and in which guild, if known.
    pub fn owner_of(&self, vc: u64) -> (r: Option<(u64, u64)>)
        ensures
            r == (if self.owners_m().contains_key(vc) {
                Some(self.owners_m()[vc])
            } else {
                None::<(u64, u64)>
            }),
    {
        owner_cache_get_by_left(&self.owners, vc)
    }

    /// A member joined (or moved into) a voice channel: ignored channels are
    /// not tracked; a tracked join into the joiner's own group needs nothing;
    /// a tracked join into another cached group asks for the member override
    /// on its category.
    pub fn on_voice_join(&mut self, user: u64, chan: u64, guild: u64) -> (r: JoinOutcome)
        requires
            old(self).inv(),
        ensures
            final(self).inv(),
            final(self).ign_m() == lru_touch(old(self).ign_m(), chan),
            final(self).roles_spec() == old(self).roles_spec(),
            final(self).rl_m() == old(self).rl_m(),
            final(self).owners_m() == old(self).owners_m(),
            final(self).queue_m() == old(self).queue_m(),
            final(self).sweep_last_spec() == old(self).sweep_last_spec(),
            final(self).me_spec() == old(self).me_spec(),
            final(self).mirror_m() == old(self).mirror_m(),
            ({
                let ignored = lru_contains(old(self).ign_m(), chan);
                let owner_here = old(self).owners_m().contains_key(chan) && old(self).owners_m()[
                    chan
                ] == (user, guild);
                match r {
                    JoinOutcome::Ignored => ignored && final(self).occ_spec() == old(self).occ_spec() && final(self).cat_m() == old(self).cat_m(),
                    JoinOutcome::OwnerJoined => !ignored && owner_here && final(self).occ_spec().users_map() == old(self).occ_spec().users_map().insert(
                        user,
                        chan,
                    ) && final(self).cat_m() == old(self).cat_m(),
                    JoinOutcome::GrantPerms(cat) => !ignored && !owner_here && final(self).occ_spec().users_map() == old(self).occ_spec().users_map().insert(
                        user,
                        chan,
                    ) && (lru_get(old(self).cat_m(), chan) matches Some(p) && p.0 == cat)
                        && final(self).cat_m() == lru_touch(old(self).cat_m(), chan),
                    JoinOutcome::Untracked => !ignored && !owner_here && final(self).occ_spec().users_map() == old(self).occ_spec().users_map().insert(
                        user,
                        chan,
                    ) && lru_get(old(self).cat_m(), chan) is None && final(self).cat_m() == old(self).cat_m(),
                }
            }),
    {
        let ghost pre = *self;
        let ghost ign0 = self.ign_m();
        let ignored = ign_cache_get(&mut self.ignore, chan);
        proof {
            lemma_lru_touch(ign0, chan);
            lemma_ign_changed_inv(*self, pre);
        }
        if ignored {
            return JoinOutcome::Ignored;
        }
        let ghost mid = *self;
        self.occ.on_join(user, chan);
        proof {
            lemma_occ_changed_inv(*self, mid);
        }
        let own = owner_cache_get_by_left(&self.owners, chan);
        let owner_here = match own {
            Some(p) => p.0 == user && p.1 == guild,
            None => false,
        };
        if owner_here {
            return JoinOutcome::OwnerJoined;
        }
        let ghost mid2 = *self;
        let ghost cat0 = self.cat_m();
        let hit = cat_cache_get(&mut self.cat, chan);
        proof {
            lemma_lru_touch(cat0, chan);
            lemma_lru_get_contains(cat0, chan);
            lemma_cat_touched_inv(*self, mid2, chan);
        }
        match hit {
            Some(p) => JoinOutcome::GrantPerms(p.0),
            None => JoinOutcome::Untracked,
        }
    }

    /// A member left (or moved out of) a voice channel: when the channel
    /// empties, a cached group is torn down; otherwise the ignore mark
    /// answers, or a rescan of the guild is asked for.
    pub fn on_voice_leave(&mut self, user: u64) -> (r: LeaveOutcome)
        requires
            old(self).inv(),
        ensures
            final(self).inv(),
            final(self).roles_spec() == old(self).roles_spec(),
            final(self).rl_m() == old(self).rl_m(),
            final(self).queue_m() == old(self).queue_m(),
            final(self).sweep_last_spec() == old(self).sweep_last_spec(),
            final(self).me_spec() == old(self).me_spec(),
            ({
                let users = old(self).occ_spec().users_map();
                match r {
                    LeaveOutcome::NotTracked => !users.contains_key(user) && final(self).occ_spec().users_map() == users && final(self).cat_m() == old(self).cat_m() && final(self).ign_m() == old(self).ign_m() && final(self).owners_m()
                        == old(self).owners_m() && final(self).mirror_m() == old(self).mirror_m(),
                    LeaveOutcome::StillOccupied(c) => users.contains_key(user) && users[user] == c
                        && final(self).occ_spec().users_map() == users.remove(user) && final(self).occ_spec().count_of(c) > 0 && final(self).cat_m() == old(self).cat_m()
                        && final(self).ign_m() == old(self).ign_m() && final(self).owners_m()
                        == old(self).owners_m() && final(self).mirror_m() == old(self).mirror_m(),
                    LeaveOutcome::Teardown(g) => users.contains_key(user) && users[user]
                        == g.voice && final(self).occ_spec().users_map() == users.remove(user)
                        && final(self).occ_spec().count_of(g.voice) == 0 && lru_get(
                        old(self).cat_m(),
                        g.voice,
                    ) == Some((g.category, g.text)) && final(self).cat_m() == lru_remove(
                        old(self).cat_m(),
                        g.voice,
                    ) && final(self).ign_m() == old(self).ign_m() && final(self).owners_m() == old(self).owners_m().remove(g.voice),
                    LeaveOutcome::KnownUnmanaged(c) => users.contains_key(user) && users[user]
                        == c && final(self).occ_spec().users_map() == users.remove(user) && final(self).occ_spec().count_of(c) == 0 && lru_get(old(self).cat_m(), c) is None
                        && lru_contains(old(self).ign_m(), c) && final(self).cat_m() == old(self).cat_m() && final(self).ign_m() == lru_touch(old(self).ign_m(), c) && final(self).owners_m() == old(self).owners_m() && final(self).mirror_m() == old(self).mirror_m(),
                    LeaveOutcome::NeedRescan(c) => users.contains_key(user) && users[user] == c
                        && final(self).occ_spec().users_map() == users.remove(user) && final(self).occ_spec().count_of(c) == 0 && lru_get(old(self).cat_m(), c) is None
                        && !lru_contains(old(self).ign_m(), c) && final(self).cat_m() == old(self).cat_m() && final(self).ign_m() == old(self).ign_m() && final(self).owners_m()
                        == old(self).owners_m() && final(self).mirror_m() == old(self).mirror_m(),
                }
            }),
    {
        let ghost pre = *self;
        let left = self.occ.on_leave(user);
        proof {
            lemma_occ_changed_inv(*self, pre);
        }
        let chan = match left {
            None => {
                return LeaveOutcome::NotTracked;
            },
            Some(c) => c,
        };
        let cnt = self.occ.count(chan);
        if cnt > 0 {
            return LeaveOutcome::StillOccupied(chan);
        }
        let ghost mid = *self;
        let ghost cat0 = self.cat_m();
        let hit = cat_cache_pop(&mut self.cat, chan);
        proof {
            lemma_lru_get_contains(cat0, chan);
            lemma_lru_get_is_entry(cat0, chan);
        }
        match hit {
            Some(p) => {
                self.mirror.remove(&p.0);
                proof {
                    lemma_cat_popped_inv(*self, mid, chan, p);
                }
                let ghost mid3 = *self;
                owner_cache_remove_by_left(&mut self.owners, chan);
                proof {
                    assert(owner_injective(self.owners_m()));
                    lemma_inv_carries(*self, mid3);
                }
                LeaveOutcome::Teardown(GroupChannels { voice: chan, category: p.0, text: p.1 })
            },
            None => {
                proof {
                    lemma_lru_remove_distinct(mid.cat_m(), chan);
                    assert(self.cat_m() == mid.cat_m());
                    lemma_inv_carries(*self, mid);
                }
                let ghost ign0 = self.ign_m();
                let known = ign_cache_get(&mut self.ignore, chan);
                proof {
                    lemma_lru_touch(ign0, chan);
                    lemma_ign_changed_inv(*self, mid);
                    if !known {
                        assert(self.ign_m() == mid.ign_m());
                    }
                }
                if known {
                    LeaveOutcome::KnownUnmanaged(chan)
                } else {
                    LeaveOutcome::NeedRescan(chan)
                }
            },
        }
    }
}

/// The triple the snapshot and rescan folds walk over: the cached groups,
/// the mirror, and the ignore marks.
pub open spec fn apply_groups(
    cat: Seq<(u64, (u64, Option<u64>))>,
    mirror: Map<u64, u64>,
    ign: Seq<(u64, ())>,
    gs: Seq<GroupChannels>,
) -> (Seq<(u64, (u64, Option<u64>))>, Map<u64, u64>, Seq<(u64, ())>)
    decreases gs.len(),
{
    if gs.len() == 0 {
        (cat, mirror, ign)
    } else {
        let st = apply_groups(cat, mirror, ign, gs.drop_last());
        let g = gs.last();
        (
            Engine::record_group_model(st.0, st.1, g.voice, g.category, g.text),
            Engine::record_group_mirror(st.0, st.1, g.voice, g.category),
            lru_remove(lru_remove(st.2, g.voice), g.category),
        )
    }
}

/// The ignore marks after the unmanaged leftovers are marked, skipping any
/// id a cached group still claims.
pub open spec fn marks_applied(
    cat: Seq<(u64, (u64, Option<u64>))>,
    mirror: Map<u64, u64>,
    ign: Seq<(u64, ())>,
    ls: Seq<u64>,
) -> Seq<(u64, ())>
    decreases ls.len(),
{
    if ls.len() == 0 {
        ign
    } else {
        let ign1 = marks_applied(cat, mirror, ign, ls.drop_last());
        if !lru_contains(cat, ls.last()) && !mirror.contains_key(ls.last()) {
            lru_put(ign1, SIDE_CAPACITY as nat, ls.last(), ())
        } else {
            ign1
        }
    }
}

/// The member map after a snapshot's voice states are folded in.
pub open spec fn voice_folded(m: Map<u64, u64>, vs: Seq<(u64, u64)>) -> Map<u64, u64>
    decreases vs.len(),
{
    if vs.len() == 0 {
        m
    } else {
        voice_folded(m, vs.drop_last()).insert(vs.last().0, vs.last().1)
    }
}

/// One guild's snapshot, as the ready and guild events carry it.
pub struct GuildSnapshot {
    pub guild: u64,
    pub owner: u64,
    pub roles: Vec<RoleInfo>,
    pub channels: Vec<ChannelInfo>,
    pub voice: Vec<(u64, u64)>,
}

impl Engine {
    /// Rebuilds the per-guild caches from a full snapshot: the role
    /// capabilities and whitelist role, the guild owner, the recognized
    /// groups, the ignore marks for unmanaged voice channels, and the
    /// occupancy of every voice state.
    pub fn on_guild_snapshot(&mut self, g: &GuildSnapshot)
        requires
            old(self).inv(),
        ensures
            final(self).inv(),
            ({
                let rf = roles_folded(
                    old(self).roles_spec().move_set(),
                    old(self).roles_spec().create_set(),
                    old(self).roles_spec().whitelist_map(),
                    g.guild,
                    g.roles@,
                );
                &&& final(self).roles_spec().move_set() == rf.0
                &&& final(self).roles_spec().create_set() == rf.1
                &&& final(self).roles_spec().whitelist_map() == rf.2
            }),
            final(self).roles_spec().owner_map() == old(self).roles_spec().owner_map().insert(
                g.guild,
                g.owner,
            ),
            ({
                let st = apply_groups(
                    old(self).cat_m(),
                    old(self).mirror_m(),
                    old(self).ign_m(),
                    groups_of(g.channels@),
                );
                &&& final(self).cat_m() == st.0
                &&& final(self).mirror_m() == st.1
                &&& final(self).ign_m() == marks_applied(
                    st.0,
                    st.1,
                    st.2,
                    leftovers_of(g.channels@),
                )
            }),
            final(self).occ_spec().users_map() == voice_folded(
                old(self).occ_spec().users_map(),
                g.voice@,
            ),
            final(self).owners_m() == old(self).owners_m(),
            final(self).rl_m() == old(self).rl_m(),
            final(self).queue_m() == old(self).queue_m(),
            final(self).sweep_last_spec() == old(self).sweep_last_spec(),
            final(self).me_spec() == old(self).me_spec(),
    {
        let ghost pre = *self;
        // Roles and the whitelist slot.
        let nr = g.roles.len();
        let mut i: usize = 0;
        proof {
            assert(g.roles@.subrange(0, 0).len() == 0);
        }
        loop
            invariant
                i <= nr,
                nr == g.roles@.len(),
                self.inv(),
                ({
                    let rf = roles_folded(
                        pre.roles_spec().move_set(),
                        pre.roles_spec().create_set(),
                        pre.roles_spec().whitelist_map(),
                        g.guild,
                        g.roles@.subrange(0, i as int),
                    );
                    &&& self.roles_spec().move_set() == rf.0
                    &&& self.roles_spec().create_set() == rf.1
                    &&& self.roles_spec().whitelist_map() == rf.2
                }),
                self.roles_spec().owner_map() == pre.roles_spec().owner_map(),
                self.occ_spec() == pre.occ_spec(),
                self.cat_m() == pre.cat_m(),
                self.mirror_m() == pre.mirror_m(),
                self.ign_m() == pre.ign_m(),
                self.owners_m() == pre.owners_m(),
                self.rl_m() == pre.rl_m(),
                self.queue_m() == pre.queue_m(),
                self.sweep_last_spec() == pre.sweep_last_spec(),
                self.me_spec() == pre.me_spec(),
                self.cat_cap_spec() == pre.cat_cap_spec(),
                self.ign_cap_spec() == pre.ign_cap_spec(),
                self.rl_cap_spec() == pre.rl_cap_spec(),
            ensures
                ({
                    let rf = roles_folded(
                        pre.roles_spec().move_set(),
                        pre.roles_spec().create_set(),
                        pre.roles_spec().whitelist_map(),
                        g.guild,
                        g.roles@,
                    );
                    &&& self.roles_spec().move_set() == rf.0
                    &&& self.roles_spec().create_set() == rf.1
                    &&& self.roles_spec().whitelist_map() == rf.2
                }),
                self.inv(),
                self.roles_spec().owner_map() == pre.roles_spec().owner_map(),
                self.occ_spec() == pre.occ_spec(),
                self.cat_m() == pre.cat_m(),
                self.mirror_m() == pre.mirror_m(),
                self.ign_m() == pre.ign_m(),
                self.owners_m() == pre.owners_m(),
                self.rl_m() == pre.rl_m(),
                self.queue_m() == pre.queue_m(),
                self.sweep_last_spec() == pre.sweep_last_spec(),
                self.me_spec() == pre.me_spec(),
                self.cat_cap_spec() == pre.cat_cap_spec(),
                self.ign_cap_spec() == pre.ign_cap_spec(),
                self.rl_cap_spec() == pre.rl_cap_spec(),
            decreases nr - i,
        {
            if i >= nr {
                proof {
                    assert(g.roles@.subrange(0, nr as int) =~= g.roles@);
                }
                break;
            }
            let ghost rpre = g.roles@.subrange(0, i as int);
            let ghost rpost = g.roles@.subrange(0, i + 1);
            proof {
                assert(rpost.drop_last() =~= rpre);
                assert(rpost.last() == g.roles@[i as int]);
            }
            let role = &g.roles[i];
            let wl = crate::listing::name_has_whitelist_prefix(&role.name);
            let ghost mid = *self;
            self.roles.on_role_create(g.guild, role.id, role.perms, wl);
            proof {
                lemma_roles_changed_inv(*self, mid);
            }
            i = i + 1;
        }
        let ghost pre_owner = *self;
        self.roles.set_guild_owner(g.guild, g.owner);
        proof {
            lemma_roles_changed_inv(*self, pre_owner);
        }
        let ghost mid_owner = *self;

        // Groups and leftovers out of the channel listing.
        let part = partition_listing(&g.channels);
        let ghost st0 = (self.cat_m(), self.mirror_m(), self.ign_m());
        let ng = part.groups.len();
        let mut k: usize = 0;
        proof {
            assert(part.groups@.subrange(0, 0).len() == 0);
        }
        loop
            invariant
                k <= ng,
                ng == part.groups@.len(),
                part.groups@ == groups_of(g.channels@),
                self.inv(),
                ({
                    let st = apply_groups(st0.0, st0.1, st0.2, part.groups@.subrange(0, k as int));
                    &&& self.cat_m() == st.0
                    &&& self.mirror_m() == st.1
                    &&& self.ign_m() == st.2
                }),
                self.roles_spec() == mid_owner.roles_spec(),
                self.occ_spec() == mid_owner.occ_spec(),
                self.owners_m() == mid_owner.owners_m(),
                self.rl_m() == mid_owner.rl_m(),
                self.queue_m() == mid_owner.queue_m(),
                self.sweep_last_spec() == mid_owner.sweep_last_spec(),
                self.me_spec() == mid_owner.me_spec(),
                self.cat_cap_spec() == mid_owner.cat_cap_spec(),
                self.ign_cap_spec() == mid_owner.ign_cap_spec(),
                self.rl_cap_spec() == mid_owner.rl_cap_spec(),
            ensures
                self.inv(),
                ({
                    let st = apply_groups(st0.0, st0.1, st0.2, groups_of(g.channels@));
                    &&& self.cat_m() == st.0
                    &&& self.mirror_m() == st.1
                    &&& self.ign_m() == st.2
                }),
                self.roles_spec() == mid_owner.roles_spec(),
                self.occ_spec() == mid_owner.occ_spec(),
                self.owners_m() == mid_owner.owners_m(),
                self.rl_m() == mid_owner.rl_m(),
                self.queue_m() == mid_owner.queue_m(),
                self.sweep_last_spec() == mid_owner.sweep_last_spec(),
                self.me_spec() == mid_owner.me_spec(),
                self.cat_cap_spec() == mid_owner.cat_cap_spec(),
                self.ign_cap_spec() == mid_owner.ign_cap_spec(),
                self.rl_cap_spec() == mid_owner.rl_cap_spec(),
            decreases ng - k,
        {
            if k >= ng {
                proof {
                    assert(part.groups@.subrange(0, ng as int) =~= part.groups@);
                }
                break;
            }
            let ghost gpre = part.groups@.subrange(0, k as int);
            let ghost gpost = part.groups@.subrange(0, k + 1);
            proof {
                assert(gpost.drop_last() =~= gpre);
                assert(gpost.last() == part.groups@[k as int]);
            }
            let grp = part.groups[k];
            self.record_group(grp.voice, grp.category, grp.text);
            k = k + 1;
        }

        // Leftovers: mark the unmanaged voice channels, ids of live groups
        // excepted.
        let ghost st1 = (self.cat_m(), self.mirror_m(), self.ign_m());
        let nl = part.leftovers.len();
        let mut t: usize = 0;
        proof {
            assert(part.leftovers@.subrange(0, 0).len() == 0);
        }
        loop
            invariant
                t <= nl,
                nl == part.leftovers@.len(),
                part.leftovers@ == leftovers_of(g.channels@),
                self.inv(),
                self.ign_m() == marks_applied(
                    st1.0,
                    st1.1,
                    st1.2,
                    part.leftovers@.subrange(0, t as int),
                ),
                self.cat_m() == st1.0,
                self.mirror_m() == st1.1,
                self.roles_spec() == mid_owner.roles_spec(),
                self.occ_spec() == mid_owner.occ_spec(),
                self.owners_m() == mid_owner.owners_m(),
                self.rl_m() == mid_owner.rl_m(),
                self.queue_m() == mid_owner.queue_m(),
                self.sweep_last_spec() == mid_owner.sweep_last_spec(),
                self.me_spec() == mid_owner.me_spec(),
                self.cat_cap_spec() == mid_owner.cat_cap_spec(),
                self.ign_cap_spec() == mid_owner.ign_cap_spec(),
                self.rl_cap_spec() == mid_owner.rl_cap_spec(),
            ensures
                self.inv(),
                self.ign_m() == marks_applied(st1.0, st1.1, st1.2, leftovers_of(g.channels@)),
                self.cat_m() == st1.0,
                self.mirror_m() == st1.1,
                self.roles_spec() == mid_owner.roles_spec(),
                self.occ_spec() == mid_owner.occ_spec(),
                self.owners_m() == mid_owner.owners_m(),
                self.rl_m() == mid_owner.rl_m(),
                self.queue_m() == mid_owner.queue_m(),
                self.sweep_last_spec() == mid_owner.sweep_last_spec(),
                self.me_spec() == mid_owner.me_spec(),
                self.cat_cap_spec() == mid_owner.cat_cap_spec(),
                self.ign_cap_spec() == mid_owner.ign_cap_spec(),
                self.rl_cap_spec() == mid_owner.rl_cap_spec(),
            decreases nl - t,
        {
            if t >= nl {
                proof {
                    assert(part.leftovers@.subrange(0, nl as int) =~= part.leftovers@);
                }
                break;
            }
            let ghost lpre = part.leftovers@.subrange(0, t as int);
            let ghost lpost = part.leftovers@.subrange(0, t + 1);
            proof {
                assert(lpost.drop_last() =~= lpre);
                assert(lpost.last() == part.leftovers@[t as int]);
            }
            let _ = self.ignore_mark(part.leftovers[t]);
            t = t + 1;
        }

        // Voice states.
        let ghost occ0 = self.occ_spec().users_map();
        let nv = g.voice.len();
        let mut v: usize = 0;
        proof {
            assert(g.voice@.subrange(0, 0).len() == 0);
        }
        loop
            invariant
                v <= nv,
                nv == g.voice@.len(),
                self.inv(),
                self.occ_spec().users_map() == voice_folded(occ0, g.voice@.subrange(0, v as int)),
                self.cat_m() == st1.0,
                self.mirror_m() == st1.1,
                self.ign_m() == marks_applied(st1.0, st1.1, st1.2, leftovers_of(g.channels@)),
                self.roles_spec() == mid_owner.roles_spec(),
                self.owners_m() == mid_owner.owners_m(),
                self.rl_m() == mid_owner.rl_m(),
                self.queue_m() == mid_owner.queue_m(),
                self.sweep_last_spec() == mid_owner.sweep_last_spec(),
                self.me_spec() == mid_owner.me_spec(),
                self.cat_cap_spec() == mid_owner.cat_cap_spec(),
                self.ign_cap_spec() == mid_owner.ign_cap_spec(),
                self.rl_cap_spec() == mid_owner.rl_cap_spec(),
            ensures
                self.inv(),
                self.occ_spec().users_map() == voice_folded(occ0, g.voice@),
                self.cat_m() == st1.0,
                self.mirror_m() == st1.1,
                self.ign_m() == marks_applied(st1.0, st1.1, st1.2, leftovers_of(g.channels@)),
                self.roles_spec() == mid_owner.roles_spec(),
                self.owners_m() == mid_owner.owners_m(),
                self.rl_m() == mid_owner.rl_m(),
                self.queue_m() == mid_owner.queue_m(),
                self.sweep_last_spec() == mid_owner.sweep_last_spec(),
                self.me_spec() == mid_owner.me_spec(),
            decreases nv - v,
        {
            if v >= nv {
                proof {
                    assert(g.voice@.subrange(0, nv as int) =~= g.voice@);
                }
                break;
            }
            let ghost vpre = g.voice@.subrange(0, v as int);
            let ghost vpost = g.voice@.subrange(0, v + 1);
            proof {
                assert(vpost.drop_last() =~= vpre);
                assert(vpost.last() == g.voice@[v as int]);
            }
            let ghost mid = *self;
            let (vu, vchan) = (g.voice[v].0, g.voice[v].1);
            self.occ.on_join(vu, vchan);
            proof {
                lemma_occ_changed_inv(*self, mid);
            }
            v = v + 1;
        }
    }

    /// After a rescan, the listing's groups are folded into the caches and
    /// the channel is tried once more: a hit is torn down; a miss proves the
    /// channel unmanaged and it is marked ignored (unless a live group still
    /// claims its id).
    pub fn resolve_after_rescan(&mut self, chan: u64, part: &Partition) -> (r: Option<
        GroupChannels,
    >)
        requires
            old(self).inv(),
        ensures
            final(self).inv(),
            final(self).occ_spec() == old(self).occ_spec(),
            final(self).roles_spec() == old(self).roles_spec(),
            final(self).rl_m() == old(self).rl_m(),
            final(self).queue_m() == old(self).queue_m(),
            final(self).sweep_last_spec() == old(self).sweep_last_spec(),
            final(self).me_spec() == old(self).me_spec(),
            ({
                let st = apply_groups(
                    old(self).cat_m(),
                    old(self).mirror_m(),
                    old(self).ign_m(),
                    part.groups@,
                );
                match r {
                    Some(g) => g.voice == chan && lru_get(st.0, chan) == Some(
                        (g.category, g.text),
                    ) && final(self).cat_m() == lru_remove(st.0, chan) && final(self).ign_m()
                        == st.2 && final(self).owners_m() == old(self).owners_m().remove(chan),
                    None => lru_get(st.0, chan) is None && final(self).cat_m() == st.0 && final(self).owners_m() == old(self).owners_m() && final(self).ign_m() == (
                    if st.1.contains_key(chan) {
                        st.2
                    } else {
                        lru_put(st.2, SIDE_CAPACITY as nat, chan, ())
                    }),
                }
            }),
    {
        let ghost pre = *self;
        let ghost st0 = (self.cat_m(), self.mirror_m(), self.ign_m());
        let ng = part.groups.len();
        let mut k: usize = 0;
        proof {
            assert(part.groups@.subrange(0, 0).len() == 0);
        }
        loop
            invariant
                k <= ng,
                ng == part.groups@.len(),
                self.inv(),
                ({
                    let st = apply_groups(st0.0, st0.1, st0.2, part.groups@.subrange(0, k as int));
                    &&& self.cat_m() == st.0
                    &&& self.mirror_m() == st.1
                    &&& self.ign_m() == st.2
                }),
                self.roles_spec() == pre.roles_spec(),
                self.occ_spec() == pre.occ_spec(),
                self.owners_m() == pre.owners_m(),
                self.rl_m() == pre.rl_m(),
                self.queue_m() == pre.queue_m(),
                self.sweep_last_spec() == pre.sweep_last_spec(),
                self.me_spec() == pre.me_spec(),
                self.cat_cap_spec() == pre.cat_cap_spec(),
                self.ign_cap_spec() == pre.ign_cap_spec(),
                self.rl_cap_spec() == pre.rl_cap_spec(),
            ensures
                self.inv(),
                ({
                    let st = apply_groups(st0.0, st0.1, st0.2, part.groups@);
                    &&& self.cat_m() == st.0
                    &&& self.mirror_m() == st.1
                    &&& self.ign_m() == st.2
                }),
                self.roles_spec() == pre.roles_spec(),
                self.occ_spec() == pre.occ_spec(),
                self.owners_m() == pre.owners_m(),
                self.rl_m() == pre.rl_m(),
                self.queue_m() == pre.queue_m(),
                self.sweep_last_spec() == pre.sweep_last_spec(),
                self.me_spec() == pre.me_spec(),
                self.cat_cap_spec() == pre.cat_cap_spec(),
                self.ign_cap_spec() == pre.ign_cap_spec(),
                self.rl_cap_spec() == pre.rl_cap_spec(),
            decreases ng - k,
        {
            if k >= ng {
                proof {
                    assert(part.groups@.subrange(0, ng as int) =~= part.groups@);
                }
                break;
            }
            let ghost gpre = part.groups@.subrange(0, k as int);
            let ghost gpost = part.groups@.subrange(0, k + 1);
            proof {
                assert(gpost.drop_last() =~= gpre);
                assert(gpost.last() == part.groups@[k as int]);
            }
            let grp = part.groups[k];
            self.record_group(grp.voice, grp.category, grp.text);
            k = k + 1;
        }
        let ghost mid = *self;
        let ghost cat1 = self.cat_m();
        let hit = cat_cache_pop(&mut self.cat, chan);
        proof {
            lemma_lru_get_contains(cat1, chan);
            lemma_lru_get_is_entry(cat1, chan);
        }
        match hit {
            Some(p) => {
                self.mirror.remove(&p.0);
                proof {
                    lemma_cat_popped_inv(*self, mid, chan, p);
                }
                let ghost mid3 = *self;
                owner_cache_remove_by_left(&mut self.owners, chan);
                proof {
                    assert(owner_injective(self.owners_m()));
                    lemma_inv_carries(*self, mid3);
                }
                Some(GroupChannels { voice: chan, category: p.0, text: p.1 })
            },
            None => {
                proof {
                    lemma_lru_remove_distinct(mid.cat_m(), chan);
                    assert(self.cat_m() == mid.cat_m());
                    lemma_inv_carries(*self, mid);
                }
                let _ = self.ignore_mark(chan);
                None
            },
        }
    }

    /// The ring always accepts the newest pending entry, dropping the oldest
    /// of a full ring.
    pub open spec fn push_step(q: Seq<RingItem>, v: RingItem) -> Seq<RingItem> {
        if q.len() >= 32 {
            q.drop_first().push(v)
        } else {
            q.push(v)
        }
    }

    /// The creator could not be moved into the new group: it becomes a
    /// pending-deletion entry. Appending to a full ring first inspects the
    /// oldest entry; if that group is empty right now, its three channels are
    /// handed back for deletion, once each, and its owner record is purged;
    /// the oldest entry leaves the ring either way.
    pub fn creator_move_failed(&mut self, cat_id: u64, vc: u64, txt: Option<u64>) -> (r: Option<
        GroupChannels,
    >)
        requires
            old(self).inv(),
        ensures
            final(self).inv(),
            final(self).queue_m() == Engine::push_step(old(self).queue_m(), (cat_id, vc, txt)),
            r == (if old(self).queue_m().len() >= 32 && old(self).occ_spec().count_of(
                old(self).queue_m()[0].1,
            ) == 0 {
                Some(
                    GroupChannels {
                        voice: old(self).queue_m()[0].1,
                        category: old(self).queue_m()[0].0,
                        text: old(self).queue_m()[0].2,
                    },
                )
            } else {
                None::<GroupChannels>
            }),
            final(self).owners_m() == (if r is Some {
                old(self).owners_m().remove(old(self).queue_m()[0].1)
            } else {
                old(self).owners_m()
            }),
            final(self).occ_spec() == old(self).occ_spec(),
            final(self).roles_spec() == old(self).roles_spec(),
            final(self).cat_m() == old(self).cat_m(),
            final(self).mirror_m() == old(self).mirror_m(),
            final(self).ign_m() == old(self).ign_m(),
            final(self).rl_m() == old(self).rl_m(),
            final(self).sweep_last_spec() == old(self).sweep_last_spec(),
            final(self).me_spec() == old(self).me_spec(),
    {
        let mut evicted: Option<GroupChannels> = None;
        if ring_is_full(&self.queue) {
            let front = match ring_front(&self.queue) {
                Some(f) => f,
                None => (0, 0, None),
            };
            let cnt = self.occ.count(front.1);
            if cnt == 0 {
                owner_cache_remove_by_left(&mut self.owners, front.1);
                proof {
                    assert(owner_injective(self.owners_m()));
                }
                evicted = Some(
                    GroupChannels { voice: front.1, category: front.0, text: front.2 },
                );
            }
        }
        ring_push(&mut self.queue, (cat_id, vc, txt));
        proof {
            assert(self.queue_m().len() <= 32);
            lemma_inv_carries(*self, *old(self));
        }
        evicted
    }

    /// One sweep decision: what the tick does to the ring, the last-seen
    /// marker, and the popped entry, given the front entry's occupancy.
    pub open spec fn sweep_step(q: Seq<RingItem>, last: Option<u64>, cnt0: nat) -> (
        Seq<RingItem>,
        Option<u64>,
        Option<RingItem>,
    ) {
        if q.len() == 0 {
            (q, last, None)
        } else if last == Some(q[0].0) {
            if cnt0 == 0 {
                (q.drop_first(), last, Some(q[0]))
            } else {
                (q, last, None)
            }
        } else {
            (q, Some(q[0].0), None)
        }
    }

    /// One periodic sweep pass over the ring's front entry: an entry seen at
    /// the front on the last tick too, and empty now, is popped and handed
    /// back for deletion with its owner record purged; a still-occupied known
    /// entry stays; a new front entry is only remembered, so every entry gets
    /// one full interval's grace.
    pub fn sweep_tick(&mut self) -> (r: Option<GroupChannels>)
        requires
            old(self).inv(),
        ensures
            final(self).inv(),
            ({
                let q = old(self).queue_m();
                let cnt0 = if q.len() > 0 {
                    old(self).occ_spec().count_of(q[0].1)
                } else {
                    0
                };
                let st = Engine::sweep_step(q, old(self).sweep_last_spec(), cnt0);
                &&& final(self).queue_m() == st.0
                &&& final(self).sweep_last_spec() == st.1
                &&& r == (match st.2 {
                    Some(e) => Some(GroupChannels { voice: e.1, category: e.0, text: e.2 }),
                    None => None::<GroupChannels>,
                })
                &&& final(self).owners_m() == (match st.2 {
                    Some(e) => old(self).owners_m().remove(e.1),
                    None => old(self).owners_m(),
                })
            }),
            final(self).occ_spec() == old(self).occ_spec(),
            final(self).roles_spec() == old(self).roles_spec(),
            final(self).cat_m() == old(self).cat_m(),
            final(self).mirror_m() == old(self).mirror_m(),
            final(self).ign_m() == old(self).ign_m(),
            final(self).rl_m() == old(self).rl_m(),
            final(self).me_spec() == old(self).me_spec(),
    {
        let front = match ring_front(&self.queue) {
            None => {
                return None;
            },
            Some(f) => f,
        };
        let seen = match self.sweep_last {
            Some(last) => last == front.0,
            None => false,
        };
        if !seen {
            self.sweep_last = Some(front.0);
            proof {
                lemma_inv_carries(*self, *old(self));
            }
            return None;
        }
        let cnt = self.occ.count(front.1);
        if cnt != 0 {
            return None;
        }
        let _ = ring_pop_front(&mut self.queue);
        owner_cache_remove_by_left(&mut self.owners, front.1);
        proof {
            assert(owner_injective(self.owners_m()));
            lemma_inv_carries(*self, *old(self));
        }
        Some(GroupChannels { voice: front.1, category: front.0, text: front.2 })
    }
}

/// The invariant carries over when only the ignore marks were touched by a
/// promoting read, which keeps their membership.
proof fn lemma_ign_changed_inv(a: Engine, b: Engine)
    requires
        b.inv(),
        a.occ_spec() == b.occ_spec(),
        a.cat_m() == b.cat_m(),
        a.mirror_m() == b.mirror_m(),
        a.rl_m() == b.rl_m(),
        owner_injective(a.owners_m()),
        a.queue_m() == b.queue_m(),
        a.cat_cap_spec() == b.cat_cap_spec(),
        a.ign_cap_spec() == b.ign_cap_spec(),
        a.rl_cap_spec() == b.rl_cap_spec(),
        lru_distinct(a.ign_m()),
        a.ign_m().len() <= SIDE_CAPACITY,
        forall|x: u64| lru_contains(a.ign_m(), x) <==> lru_contains(b.ign_m(), x),
    ensures
        a.inv(),
{
    assert forall|i: int, j: int| 0 <= i < j < a.cat_m().len() implies (
    #[trigger] a.cat_m()[i]).1.0 != (#[trigger] a.cat_m()[j]).1.0 by {
        assert(b.cat_m()[i].1.0 != b.cat_m()[j].1.0);
    }
    assert forall|c: u64| #[trigger] a.mirror_m().contains_key(c) implies exists|i: int|
        0 <= i < a.cat_m().len() && (#[trigger] a.cat_m()[i]).1.0 == c by {
        assert(b.mirror_m().contains_key(c));
        let i = choose|i: int| 0 <= i < b.cat_m().len() && (#[trigger] b.cat_m()[i]).1.0 == c;
        assert(a.cat_m()[i].1.0 == c);
    }
    assert forall|i: int| 0 <= i < a.cat_m().len() implies a.mirror_m().contains_key(
        (#[trigger] a.cat_m()[i]).1.0,
    ) && a.mirror_m()[a.cat_m()[i].1.0] == a.cat_m()[i].0 by {
        assert(b.mirror_m().contains_key((b.cat_m()[i]).1.0) && b.mirror_m()[b.cat_m()[i].1.0]
            == b.cat_m()[i].0);
    }
    assert forall|i: int| 0 <= i < a.cat_m().len() implies !lru_contains(
        a.ign_m(),
        (#[trigger] a.cat_m()[i]).0,
    ) && !lru_contains(a.ign_m(), a.cat_m()[i].1.0) by {
        assert(!lru_contains(b.ign_m(), (b.cat_m()[i]).0) && !lru_contains(
            b.ign_m(),
            b.cat_m()[i].1.0,
        ));
    }
}

/// The invariant carries over when only the occupancy tracker changed, and
/// kept its own invariant.
proof fn lemma_occ_changed_inv(a: Engine, b: Engine)
    requires
        b.inv(),
        a.occ_spec().inv(),
        a.cat_m() == b.cat_m(),
        a.mirror_m() == b.mirror_m(),
        a.ign_m() == b.ign_m(),
        a.rl_m() == b.rl_m(),
        owner_injective(a.owners_m()),
        a.queue_m() == b.queue_m(),
        a.cat_cap_spec() == b.cat_cap_spec(),
        a.ign_cap_spec() == b.ign_cap_spec(),
        a.rl_cap_spec() == b.rl_cap_spec(),
    ensures
        a.inv(),
{
    lemma_inv_carries(a, b);
}

/// The invariant carries over when the category cache was touched by a
/// promoting read, which keeps its entries.
proof fn lemma_cat_touched_inv(a: Engine, b: Engine, chan: u64)
    requires
        b.inv(),
        a.occ_spec() == b.occ_spec(),
        a.cat_m() == lru_touch(b.cat_m(), chan),
        a.mirror_m() == b.mirror_m(),
        a.ign_m() == b.ign_m(),
        a.rl_m() == b.rl_m(),
        owner_injective(a.owners_m()),
        a.queue_m() == b.queue_m(),
        a.cat_cap_spec() == b.cat_cap_spec(),
        a.ign_cap_spec() == b.ign_cap_spec(),
        a.rl_cap_spec() == b.rl_cap_spec(),
    ensures
        a.inv(),
{
    lemma_lru_touch(b.cat_m(), chan);
    assert forall|i: int, j: int| 0 <= i < j < a.cat_m().len() implies (
    #[trigger] a.cat_m()[i]).1.0 != (#[trigger] a.cat_m()[j]).1.0 by {
        assert(a.cat_m().contains(a.cat_m()[i]) && a.cat_m().contains(a.cat_m()[j]));
        assert(b.cat_m().contains(a.cat_m()[i]) && b.cat_m().contains(a.cat_m()[j]));
        assert(a.cat_m()[i].0 != a.cat_m()[j].0);
        lemma_two_entries_distinct_cats(b.cat_m(), a.cat_m()[i], a.cat_m()[j]);
    }
    assert forall|c: u64| #[trigger] a.mirror_m().contains_key(c) implies exists|i: int|
        0 <= i < a.cat_m().len() && (#[trigger] a.cat_m()[i]).1.0 == c by {
        assert(b.mirror_m().contains_key(c));
        let i = choose|i: int| 0 <= i < b.cat_m().len() && (#[trigger] b.cat_m()[i]).1.0 == c;
        assert(b.cat_m().contains(b.cat_m()[i]));
        assert(a.cat_m().contains(b.cat_m()[i]));
        let t = choose|t: int| 0 <= t < a.cat_m().len() && a.cat_m()[t] == b.cat_m()[i];
        assert(a.cat_m()[t].1.0 == c);
    }
    assert forall|i: int| 0 <= i < a.cat_m().len() implies a.mirror_m().contains_key(
        (#[trigger] a.cat_m()[i]).1.0,
    ) && a.mirror_m()[a.cat_m()[i].1.0] == a.cat_m()[i].0 by {
        assert(a.cat_m().contains(a.cat_m()[i]));
        assert(b.cat_m().contains(a.cat_m()[i]));
        let t = choose|t: int| 0 <= t < b.cat_m().len() && b.cat_m()[t] == a.cat_m()[i];
        assert(b.mirror_m().contains_key((b.cat_m()[t]).1.0) && b.mirror_m()[b.cat_m()[t].1.0]
            == b.cat_m()[t].0);
    }
    assert forall|i: int| 0 <= i < a.cat_m().len() implies !lru_contains(
        a.ign_m(),
        (#[trigger] a.cat_m()[i]).0,
    ) && !lru_contains(a.ign_m(), a.cat_m()[i].1.0) by {
        assert(a.cat_m().contains(a.cat_m()[i]));
        assert(b.cat_m().contains(a.cat_m()[i]));
        let t = choose|t: int| 0 <= t < b.cat_m().len() && b.cat_m()[t] == a.cat_m()[i];
        assert(!lru_contains(b.ign_m(), (b.cat_m()[t]).0) && !lru_contains(
            b.ign_m(),
            b.cat_m()[t].1.0,
        ));
    }
}

/// The invariant carries over when a popped entry left the category cache
/// and its slot left the mirror.
proof fn lemma_cat_popped_inv(a: Engine, b: Engine, chan: u64, p: (u64, Option<u64>))
    requires
        b.inv(),
        a.occ_spec() == b.occ_spec(),
        lru_get(b.cat_m(), chan) == Some(p),
        a.cat_m() == lru_remove(b.cat_m(), chan),
        a.mirror_m() == b.mirror_m().remove(p.0),
        a.ign_m() == b.ign_m(),
        a.rl_m() == b.rl_m(),
        owner_injective(a.owners_m()),
        a.queue_m() == b.queue_m(),
        a.cat_cap_spec() == b.cat_cap_spec(),
        a.ign_cap_spec() == b.ign_cap_spec(),
        a.rl_cap_spec() == b.rl_cap_spec(),
    ensures
        a.inv(),
{
    let m = b.cat_m();
    lemma_lru_remove_subset(m, chan);
    lemma_lru_remove_distinct(m, chan);
    lemma_lru_get_contains(m, chan);
    lemma_lru_get_is_entry(m, chan);
    assert(m.contains((chan, p)));
    assert forall|i: int, j: int| 0 <= i < j < a.cat_m().len() implies (
    #[trigger] a.cat_m()[i]).1.0 != (#[trigger] a.cat_m()[j]).1.0 by {
        assert(m.contains(a.cat_m()[i]) && m.contains(a.cat_m()[j]));
        assert(a.cat_m()[i].0 != a.cat_m()[j].0);
        lemma_two_entries_distinct_cats(m, a.cat_m()[i], a.cat_m()[j]);
    }
    assert forall|c: u64| #[trigger] a.mirror_m().contains_key(c) implies exists|i: int|
        0 <= i < a.cat_m().len() && (#[trigger] a.cat_m()[i]).1.0 == c by {
        assert(b.mirror_m().contains_key(c) && c != p.0);
        let i = choose|i: int| 0 <= i < m.len() && (#[trigger] m[i]).1.0 == c;
        assert(m[i].0 != chan) by {
            if m[i].0 == chan {
                lemma_two_entries_same_key(m, m[i], (chan, p));
            }
        }
        assert(m.contains(m[i]));
        assert(a.cat_m().contains(m[i]));
        let t = choose|t: int| 0 <= t < a.cat_m().len() && a.cat_m()[t] == m[i];
        assert(a.cat_m()[t].1.0 == c);
    }
    assert forall|i: int| 0 <= i < a.cat_m().len() implies a.mirror_m().contains_key(
        (#[trigger] a.cat_m()[i]).1.0,
    ) && a.mirror_m()[a.cat_m()[i].1.0] == a.cat_m()[i].0 by {
        assert(m.contains(a.cat_m()[i]));
        let t = choose|t: int| 0 <= t < m.len() && m[t] == a.cat_m()[i];
        assert(b.mirror_m().contains_key((m[t]).1.0) && b.mirror_m()[m[t].1.0] == m[t].0);
        assert(a.cat_m()[i].1.0 != p.0) by {
            assert(a.cat_m()[i].0 != chan);
            lemma_two_entries_distinct_cats(m, a.cat_m()[i], (chan, p));
        }
    }
    assert forall|i: int| 0 <= i < a.cat_m().len() implies !lru_contains(
        a.ign_m(),
        (#[trigger] a.cat_m()[i]).0,
    ) && !lru_contains(a.ign_m(), a.cat_m()[i].1.0) by {
        assert(m.contains(a.cat_m()[i]));
        let t = choose|t: int| 0 <= t < m.len() && m[t] == a.cat_m()[i];
        assert(!lru_contains(b.ign_m(), (m[t]).0) && !lru_contains(b.ign_m(), m[t].1.0));
    }
}

/// The invariant carries over when only the role caches changed.
proof fn lemma_roles_changed_inv(a: Engine, b: Engine)
    requires
        b.inv(),
        a.occ_spec() == b.occ_spec(),
        a.cat_m() == b.cat_m(),
        a.mirror_m() == b.mirror_m(),
        a.ign_m() == b.ign_m(),
        a.rl_m() == b.rl_m(),
        owner_injective(a.owners_m()),
        a.queue_m() == b.queue_m(),
        a.cat_cap_spec() == b.cat_cap_spec(),
        a.ign_cap_spec() == b.ign_cap_spec(),
        a.rl_cap_spec() == b.rl_cap_spec(),
    ensures
        a.inv(),
{
    lemma_inv_carries(a, b);
}

/// Appending the thirty-third entry to a full ring always drops exactly the
/// oldest entry and keeps the ring full.
pub proof fn lemma_push_evicts_oldest(q: Seq<RingItem>, v: RingItem)
    requires
        q.len() == 32,
    ensures
        Engine::push_step(q, v) == q.drop_first().push(v),
        Engine::push_step(q, v).len() == 32,
        Engine::push_step(q, v)[31] == v,
        forall|i: int| 0 <= i < 31 ==> Engine::push_step(q, v)[i] == q[i + 1],
{
}

/// A sweep tick that pops the front entry leaves a ring whose next tick
/// cannot pop that entry again: the entry is gone, and a differing new front
/// is only recorded, never popped.
pub proof fn lemma_sweep_pops_once(q: Seq<RingItem>, last: Option<u64>, cnt2: nat)
    requires
        q.len() > 0,
        last == Some(q[0].0),
        forall|i: int| 1 <= i < q.len() ==> (#[trigger] q[i]).0 != q[0].0,
    ensures
        Engine::sweep_step(q, last, 0).2 == Some(q[0]),
        Engine::sweep_step(q, last, 0).0 == q.drop_first(),
        Engine::sweep_step(q.drop_first(), Engine::sweep_step(q, last, 0).1, cnt2).2 is None,
{
    let q1 = q.drop_first();
    if q1.len() > 0 {
        assert(q1[0] == q[1]);
    }
}

/// What stays cached after a push of key `vc`: everything but the old entry
/// of the same key, or everything but the least recent entry of a full cache.
pub open spec fn kept_of(m1: Seq<(u64, (u64, Option<u64>))>, vc: u64) -> Seq<
    (u64, (u64, Option<u64>)),
> {
    let rest = lru_remove(m1, vc);
    if !lru_contains(m1, vc) && m1.len() >= CAT_CAPACITY as nat {
        rest.drop_last()
    } else {
        rest
    }
}

/// The key a mirror holds for a category id, or an arbitrary key.
pub open spec fn cat_id_key(mirror: Map<u64, u64>, cat_id: u64) -> u64 {
    if mirror.contains_key(cat_id) {
        mirror[cat_id]
    } else {
        arbitrary()
    }
}

/// Whether a mirror maps exactly the category ids of `m` to their keys.
pub open spec fn mirror_matches(m: Seq<(u64, (u64, Option<u64>))>, mirror: Map<u64, u64>) -> bool {
    &&& forall|c: u64| #[trigger] mirror.contains_key(c) ==> exists|i: int|
        0 <= i < m.len() && (#[trigger] m[i]).1.0 == c
    &&& forall|i: int| 0 <= i < m.len() ==> mirror.contains_key((#[trigger] m[i]).1.0)
        && mirror[m[i].1.0] == m[i].0
}

/// Everything but the role capability cache is as in `pre`.
pub open spec fn engine_same_but_roles(a: Engine, b: Engine) -> bool {
    &&& a.me_spec() == b.me_spec()
    &&& a.occ_spec() == b.occ_spec()
    &&& a.cat_m() == b.cat_m()
    &&& a.mirror_m() == b.mirror_m()
    &&& a.ign_m() == b.ign_m()
    &&& a.rl_m() == b.rl_m()
    &&& a.owners_m() == b.owners_m()
    &&& a.queue_m() == b.queue_m()
    &&& a.sweep_last_spec() == b.sweep_last_spec()
}

/// The engine invariant carries over to a state with the same caches, up to
/// a rewritten rate-limit record that kept its bounds.
proof fn lemma_inv_carries(a: Engine, b: Engine)
    requires
        b.inv(),
        a.occ_spec().inv(),
        a.cat_m() == b.cat_m(),
        a.mirror_m() == b.mirror_m(),
        a.ign_m() == b.ign_m(),
        owner_injective(a.owners_m()),
        a.queue_m().len() <= 32,
        a.cat_cap_spec() == b.cat_cap_spec(),
        a.ign_cap_spec() == b.ign_cap_spec(),
        a.rl_cap_spec() == b.rl_cap_spec(),
        lru_distinct(a.rl_m()),
        a.rl_m().len() <= SIDE_CAPACITY,
    ensures
        a.inv(),
{
    assert forall|i: int, j: int| 0 <= i < j < a.cat_m().len() implies (
    #[trigger] a.cat_m()[i]).1.0 != (#[trigger] a.cat_m()[j]).1.0 by {
        assert(b.cat_m()[i].1.0 != b.cat_m()[j].1.0);
    }
    assert forall|c: u64| #[trigger] a.mirror_m().contains_key(c) implies exists|i: int|
        0 <= i < a.cat_m().len() && (#[trigger] a.cat_m()[i]).1.0 == c by {
        assert(b.mirror_m().contains_key(c));
        let i = choose|i: int| 0 <= i < b.cat_m().len() && (#[trigger] b.cat_m()[i]).1.0 == c;
        assert(a.cat_m()[i].1.0 == c);
    }
    assert forall|i: int| 0 <= i < a.cat_m().len() implies a.mirror_m().contains_key(
        (#[trigger] a.cat_m()[i]).1.0,
    ) && a.mirror_m()[a.cat_m()[i].1.0] == a.cat_m()[i].0 by {
        assert(b.mirror_m().contains_key((b.cat_m()[i]).1.0) && b.mirror_m()[b.cat_m()[i].1.0]
            == b.cat_m()[i].0);
    }
    assert forall|i: int| 0 <= i < a.cat_m().len() implies !lru_contains(
        a.ign_m(),
        (#[trigger] a.cat_m()[i]).0,
    ) && !lru_contains(a.ign_m(), a.cat_m()[i].1.0) by {
        assert(!lru_contains(b.ign_m(), (b.cat_m()[i]).0) && !lru_contains(
            b.ign_m(),
            b.cat_m()[i].1.0,
        ));
    }
}

/// Two entries of a key-distinct, category-distinct model with different
/// keys have different category ids.
proof fn lemma_two_entries_distinct_cats(
    m: Seq<(u64, (u64, Option<u64>))>,
    x: (u64, (u64, Option<u64>)),
    y: (u64, (u64, Option<u64>)),
)
    requires
        lru_distinct(m),
        forall|i: int, j: int| 0 <= i < j < m.len() ==> (#[trigger] m[i]).1.0 != (
        #[trigger] m[j]).1.0,
        m.contains(x),
        m.contains(y),
        x.0 != y.0,
    ensures
        x.1.0 != y.1.0,
{
    let i = choose|i: int| 0 <= i < m.len() && m[i] == x;
    let j = choose|j: int| 0 <= j < m.len() && m[j] == y;
    assert(i != j);
}

/// Distinct category ids carry over to a key-distinct selection of entries.
proof fn lemma_entries_distinct_carry(
    m0: Seq<(u64, (u64, Option<u64>))>,
    m1: Seq<(u64, (u64, Option<u64>))>,
)
    requires
        lru_distinct(m0),
        lru_distinct(m1),
        forall|i: int, j: int| 0 <= i < j < m0.len() ==> (#[trigger] m0[i]).1.0 != (
        #[trigger] m0[j]).1.0,
        forall|i: int| 0 <= i < m1.len() ==> m0.contains(#[trigger] m1[i]),
    ensures
        forall|i: int, j: int| 0 <= i < j < m1.len() ==> (#[trigger] m1[i]).1.0 != (
        #[trigger] m1[j]).1.0,
{
    assert forall|i: int, j: int| 0 <= i < j < m1.len() implies (#[trigger] m1[i]).1.0 != (
    #[trigger] m1[j]).1.0 by {
        lemma_two_entries_distinct_cats(m0, m1[i], m1[j]);
    }
}

/// What a push drops is not among the kept entries.
proof fn lemma_kept_misses_evicted(
    m1: Seq<(u64, (u64, Option<u64>))>,
    vc: u64,
    cat_id: u64,
    txt: Option<u64>,
)
    requires
        lru_distinct(m1),
        m1.len() <= CAT_CAPACITY,
    ensures
        match lru_push_result(m1, CAT_CAPACITY as nat, vc) {
            Some(ev) => m1.contains(ev),
            None => true,
        },
{
    lemma_lru_get_contains(m1, vc);
    lemma_lru_get_is_entry(m1, vc);
}

/// An entry of the model that keeps its key after a push stays kept.
proof fn lemma_survivor_stays(
    m1: Seq<(u64, (u64, Option<u64>))>,
    vc: u64,
    c: u64,
    i: int,
)
    requires
        lru_distinct(m1),
        forall|a: int, b: int| 0 <= a < b < m1.len() ==> (#[trigger] m1[a]).1.0 != (
        #[trigger] m1[b]).1.0,
        m1.len() <= CAT_CAPACITY,
        0 <= i < m1.len(),
        m1[i].1.0 == c,
        match lru_push_result(m1, CAT_CAPACITY as nat, vc) {
            Some(ev) => ev.1.0 != c,
            None => true,
        },
    ensures
        exists|t: int| 0 <= t < kept_of(m1, vc).len() && (#[trigger] kept_of(m1, vc)[t]).1.0
            == c,
{
    let rest = lru_remove(m1, vc);
    let kept = kept_of(m1, vc);
    lemma_lru_remove_subset(m1, vc);
    lemma_lru_remove_distinct(m1, vc);
    lemma_lru_get_contains(m1, vc);
    lemma_lru_get_is_entry(m1, vc);
    let x = m1[i];
    assert(m1.contains(x));
    if lru_contains(m1, vc) {
        // The push replaced the old entry of the same key; x keeps its key.
        assert(x.0 != vc) by {
            if x.0 == vc {
                let ov = lru_get(m1, vc)->Some_0;
                assert(m1.contains((vc, ov)));
                lemma_two_entries_same_key(m1, x, (vc, ov));
            }
        }
        assert(rest.contains(x));
        let t = choose|t: int| 0 <= t < rest.len() && rest[t] == x;
        assert(kept[t].1.0 == c);
    } else if m1.len() >= CAT_CAPACITY as nat {
        assert(rest == m1) by {
            assert(lru_remove(m1, vc) =~= m1) by {
                lemma_lru_remove_distinct(m1, vc);
            }
        }
        assert(m1.last() == lru_push_result(m1, CAT_CAPACITY as nat, vc)->Some_0);
        assert(x != m1.last());
        assert(i < m1.len() - 1) by {
            if i == m1.len() - 1 {
                assert(x == m1.last());
            }
        }
        assert(kept[i].1.0 == c);
    } else {
        assert(rest == m1) by {
            assert(lru_remove(m1, vc) =~= m1) by {
                lemma_lru_remove_distinct(m1, vc);
            }
        }
        assert(kept[i].1.0 == c);
    }
}

/// Two entries of a key-distinct model with one key are one entry.
proof fn lemma_two_entries_same_key(
    m: Seq<(u64, (u64, Option<u64>))>,
    x: (u64, (u64, Option<u64>)),
    y: (u64, (u64, Option<u64>)),
)
    requires
        lru_distinct(m),
        m.contains(x),
        m.contains(y),
        x.0 == y.0,
    ensures
        x == y,
{
    let i = choose|i: int| 0 <= i < m.len() && m[i] == x;
    let j = choose|j: int| 0 <= j < m.len() && m[j] == y;
    if i != j {
        assert(m[i].0 != m[j].0);
    }
}

/// A kept entry was not the one the push dropped.
proof fn lemma_entry_not_evicted(
    m1: Seq<(u64, (u64, Option<u64>))>,
    vc: u64,
    x: (u64, (u64, Option<u64>)),
)
    requires
        lru_distinct(m1),
        m1.len() <= CAT_CAPACITY,
        m1.contains(x),
        x.0 != vc,
        kept_of(m1, vc).contains(x),
    ensures
        match lru_push_result(m1, CAT_CAPACITY as nat, vc) {
            Some(ev) => ev != x,
            None => true,
        },
{
    let rest = lru_remove(m1, vc);
    let kept = kept_of(m1, vc);
    lemma_lru_remove_subset(m1, vc);
    lemma_lru_remove_distinct(m1, vc);
    lemma_lru_get_contains(m1, vc);
    lemma_lru_get_is_entry(m1, vc);
    match lru_push_result(m1, CAT_CAPACITY as nat, vc) {
        Some(ev) => {
            if lru_contains(m1, vc) {
                assert(ev.0 == vc);
            } else {
                assert(rest =~= m1);
                assert(ev == m1.last());
                if ev == x {
                    let t = choose|t: int| 0 <= t < kept.len() && kept[t] == x;
                    assert(kept[t] == m1[t]);
                    assert(m1[t].0 == m1[m1.len() - 1].0);
                    assert(t < m1.len() - 1);
                }
            }
        },
        None => {},
    }
}

} // verus!
