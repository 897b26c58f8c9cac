//! Role capability cache: which roles may move members or create channels,
//! each guild's owner, and each guild's whitelist role. Rebuilt incrementally
//! on role events and in bulk from guild snapshots.
use std::collections::BTreeMap;
use std::collections::BTreeSet;
use vstd::prelude::*;

verus! {

broadcast use {vstd::std_specs::btree::group_btree_axioms, vstd::laws_cmp::group_laws_cmp, vstd::set::group_set_axioms};

/// The permission bits of a role that the engine reads.
#[derive(Clone, Copy, PartialEq, Eq, Structural, Debug)]
pub struct RolePerms {
    pub administrator: bool,
    pub move_members: bool,
    pub manage_channels: bool,
}

/// A role grants moving members if it has the move-members permission or
/// administrator.
pub open spec fn grants_move(p: RolePerms) -> bool {
    p.move_members || p.administrator
}

/// A role grants creating channels if it has the manage-channels permission
/// or administrator.
pub open spec fn grants_create(p: RolePerms) -> bool {
    p.manage_channels || p.administrator
}

/// One role of a guild snapshot: its id, its name, and its permission bits.
pub struct RoleInfo {
    pub id: u64,
    pub name: String,
    pub perms: RolePerms,
}

/// The capability sets and the whitelist map after a snapshot's roles are
/// folded in, in order: each role is re-derived, and a whitelist-named role
/// takes the guild's whitelist slot, last one winning.
pub open spec fn roles_folded(
    ms: Set<u64>,
    cs: Set<u64>,
    wl: Map<u64, u64>,
    guild: u64,
    rs: Seq<RoleInfo>,
) -> (Set<u64>, Set<u64>, Map<u64, u64>)
    decreases rs.len(),
{
    if rs.len() == 0 {
        (ms, cs, wl)
    } else {
        let st = roles_folded(ms, cs, wl, guild, rs.drop_last());
        let r = rs.last();
        (
            if grants_move(r.perms) {
                st.0.insert(r.id)
            } else {
                st.0.remove(r.id)
            },
            if grants_create(r.perms) {
                st.1.insert(r.id)
            } else {
                st.1.remove(r.id)
            },
            if crate::listing::has_whitelist_prefix(r.name@) {
                st.2.insert(guild, r.id)
            } else {
                st.2
            },
        )
    }
}

pub struct RoleCache {
    move_roles: BTreeSet<u64>,
    create_roles: BTreeSet<u64>,
    guild_owner: BTreeMap<u64, u64>,
    whitelist_role: BTreeMap<u64, u64>,
}

impl RoleCache {
    pub closed spec fn move_set(&self) -> Set<u64> {
        self.move_roles@
    }

    pub closed spec fn create_set(&self) -> Set<u64> {
        self.create_roles@
    }

    pub closed spec fn owner_map(&self) -> Map<u64, u64> {
        self.guild_owner@
    }

    pub closed spec fn whitelist_map(&self) -> Map<u64, u64> {
        self.whitelist_role@
    }

    pub fn new() -> (r: RoleCache)
        ensures
            r.move_set() == Set::<u64>::empty(),
            r.create_set() == Set::<u64>::empty(),
            r.owner_map() == Map::<u64, u64>::empty(),
            r.whitelist_map() == Map::<u64, u64>::empty(),
    {
        RoleCache {
            move_roles: BTreeSet::new(),
            create_roles: BTreeSet::new(),
            guild_owner: BTreeMap::new(),
            whitelist_role: BTreeMap::new(),
        }
    }

    /// Re-derives the capability pair of one role from its permission bits.
    pub fn update_role(&mut self, role: u64, perms: RolePerms)
        ensures
            final(self).move_set() == if grants_move(perms) {
                old(self).move_set().insert(role)
            } else {
                old(self).move_set().remove(role)
            },
            final(self).create_set() == if grants_create(perms) {
                old(self).create_set().insert(role)
            } else {
                old(self).create_set().remove(role)
            },
            final(self).owner_map() == old(self).owner_map(),
            final(self).whitelist_map() == old(self).whitelist_map(),
    {
        if perms.move_members || perms.administrator {
            self.move_roles.insert(role);
        } else {
            self.move_roles.remove(&role);
        }
        if perms.manage_channels || perms.administrator {
            self.create_roles.insert(role);
        } else {
            self.create_roles.remove(&role);
        }
    }

    /// A role came into being: derive its capabilities and, when its name
    /// carries the whitelist marker, record it as the guild's whitelist role.
    pub fn on_role_create(&mut self, guild: u64, role: u64, perms: RolePerms, whitelist_name: bool)
        ensures
            final(self).move_set() == if grants_move(perms) {
                old(self).move_set().insert(role)
            } else {
                old(self).move_set().remove(role)
            },
            final(self).create_set() == if grants_create(perms) {
                old(self).create_set().insert(role)
            } else {
                old(self).create_set().remove(role)
            },
            final(self).owner_map() == old(self).owner_map(),
            final(self).whitelist_map() == if whitelist_name {
                old(self).whitelist_map().insert(guild, role)
            } else {
                old(self).whitelist_map()
            },
    {
        self.update_role(role, perms);
        if whitelist_name {
            self.whitelist_role.insert(guild, role);
        }
    }

    /// A role changed: derive its capabilities anew; the whitelist record
    /// follows the name, and is dropped if this role held it and lost the
    /// marker.
    pub fn on_role_update(&mut self, guild: u64, role: u64, perms: RolePerms, whitelist_name: bool)
        ensures
            final(self).move_set() == if grants_move(perms) {
                old(self).move_set().insert(role)
            } else {
                old(self).move_set().remove(role)
            },
            final(self).create_set() == if grants_create(perms) {
                old(self).create_set().insert(role)
            } else {
                old(self).create_set().remove(role)
            },
            final(self).owner_map() == old(self).owner_map(),
            final(self).whitelist_map() == if whitelist_name {
                old(self).whitelist_map().insert(guild, role)
            } else if old(self).whitelist_map().contains_key(guild) && old(self).whitelist_map()[
                guild
            ] == role {
                old(self).whitelist_map().remove(guild)
            } else {
                old(self).whitelist_map()
            },
    {
        self.update_role(role, perms);
        if whitelist_name {
            self.whitelist_role.insert(guild, role);
        } else {
            let cur = match self.whitelist_role.get(&guild) {
                Some(r) => Some(*r),
                None => None,
            };
            if let Some(r) = cur {
                if r == role {
                    self.whitelist_role.remove(&guild);
                }
            }
        }
    }

    /// A role was deleted: it grants nothing any more, and loses the guild's
    /// whitelist slot if it held it.
    pub fn on_role_delete(&mut self, guild: u64, role: u64)
        ensures
            final(self).move_set() == old(self).move_set().remove(role),
            final(self).create_set() == old(self).create_set().remove(role),
            final(self).owner_map() == old(self).owner_map(),
            final(self).whitelist_map() == if old(self).whitelist_map().contains_key(guild) && old(
                self,
            ).whitelist_map()[guild] == role {
                old(self).whitelist_map().remove(guild)
            } else {
                old(self).whitelist_map()
            },
    {
        self.move_roles.remove(&role);
        self.create_roles.remove(&role);
        let cur = match self.whitelist_role.get(&guild) {
            Some(r) => Some(*r),
            None => None,
        };
        if let Some(r) = cur {
            if r == role {
                self.whitelist_role.remove(&guild);
            }
        }
    }

    /// Records a guild's owner, as the snapshot events carry it.
    pub fn set_guild_owner(&mut self, guild: u64, owner: u64)
        ensures
            final(self).owner_map() == old(self).owner_map().insert(guild, owner),
            final(self).move_set() == old(self).move_set(),
            final(self).create_set() == old(self).create_set(),
            final(self).whitelist_map() == old(self).whitelist_map(),
    {
        self.guild_owner.insert(guild, owner);
    }

    pub fn guild_owner(&self, guild: u64) -> (r: Option<u64>)
        ensures
            match r {
                Some(o) => self.owner_map().contains_key(guild) && self.owner_map()[guild] == o,
                None => !self.owner_map().contains_key(guild),
            },
    {
        match self.guild_owner.get(&guild) {
            Some(o) => Some(*o),
            None => None,
        }
    }

    pub fn whitelist_of(&self, guild: u64) -> (r: Option<u64>)
        ensures
            match r {
                Some(w) => self.whitelist_map().contains_key(guild) && self.whitelist_map()[guild]
                    == w,
                None => !self.whitelist_map().contains_key(guild),
            },
    {
        match self.whitelist_role.get(&guild) {
            Some(w) => Some(*w),
            None => None,
        }
    }

    pub fn grants_move_role(&self, role: u64) -> (r: bool)
        ensures
            r == self.move_set().contains(role),
    {
        self.move_roles.contains(&role)
    }

    pub fn grants_create_role(&self, role: u64) -> (r: bool)
        ensures
            r == self.create_set().contains(role),
    {
        self.create_roles.contains(&role)
    }

    /// Whether any of the given roles is in the may-move set.
    pub fn any_grants_move(&self, roles: &Vec<u64>) -> (r: bool)
        ensures
            r == exists|i: int| 0 <= i < roles@.len() && self.move_set().contains(
                #[trigger] roles@[i],
            ),
    {
        let n = roles.len();
        let mut k: usize = 0;
        loop
            invariant
                k <= n,
                n == roles@.len(),
                forall|i: int| 0 <= i < k ==> !self.move_set().contains(#[trigger] roles@[i]),
            ensures
                k <= n,
                k < n ==> self.move_set().contains(roles@[k as int]),
                k == n ==> forall|i: int| 0 <= i < n ==> !self.move_set().contains(
                    #[trigger] roles@[i],
                ),
            decreases n - k,
        {
            if k >= n {
                break;
            }
            if self.move_roles.contains(&roles[k]) {
                break;
            }
            k = k + 1;
        }
        k < n
    }

    /// Whether any of the given roles is the whitelist role `wl` or is in the
    /// may-create set.
    pub fn any_whitelisted_or_creates(&self, roles: &Vec<u64>, wl: u64) -> (r: bool)
        ensures
            r == exists|i: int| 0 <= i < roles@.len() && (#[trigger] roles@[i] == wl
                || self.create_set().contains(roles@[i])),
    {
        let n = roles.len();
        let mut k: usize = 0;
        loop
            invariant
                k <= n,
                n == roles@.len(),
                forall|i: int| 0 <= i < k ==> !(#[trigger] roles@[i] == wl
                    || self.create_set().contains(roles@[i])),
            ensures
                k <= n,
                k < n ==> (roles@[k as int] == wl || self.create_set().contains(roles@[k as int])),
                k == n ==> forall|i: int| 0 <= i < n ==> !(#[trigger] roles@[i] == wl
                    || self.create_set().contains(roles@[i])),
            decreases n - k,
        {
            if k >= n {
                break;
            }
            let rid = roles[k];
            if rid == wl || self.create_roles.contains(&rid) {
                break;
            }
            k = k + 1;
        }
        k < n
    }
}

} // verus!
