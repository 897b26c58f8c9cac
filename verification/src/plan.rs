//! What a successful creation command asks the remote platform for: the three
//! channel names, the initial permission overrides, and the listed users to
//! pull in.
use crate::command::Args;
use crate::numbers::digits_part;
use crate::numbers::dec_val;
use crate::numbers::is_user_id_arg;
use crate::numbers::parse_user_id;
use vstd::prelude::*;

verus! {

/// Permission bits, as the remote platform defines them.
pub const PERM_PRIORITY_SPEAKER: u64 = 0x100;
pub const PERM_VIEW_CHANNEL: u64 = 0x400;
pub const PERM_SEND_MESSAGES: u64 = 0x800;
pub const PERM_MENTION_EVERYONE: u64 = 0x20000;
pub const PERM_CONNECT: u64 = 0x100000;
pub const PERM_SPEAK: u64 = 0x200000;
pub const PERM_MUTE_MEMBERS: u64 = 0x400000;
pub const PERM_MOVE_MEMBERS: u64 = 0x1000000;

/// What a plain member of a group may do in it.
pub const PERMS_MEMBER: u64 = PERM_VIEW_CHANNEL | PERM_SEND_MESSAGES | PERM_CONNECT | PERM_SPEAK
    | PERM_MOVE_MEMBERS;

/// What the creator and the listed users may do in it.
pub const PERMS_CREATOR: u64 = PERMS_MEMBER | PERM_MUTE_MEMBERS | PERM_PRIORITY_SPEAKER
    | PERM_MENTION_EVERYONE;

/// One permission override handed to the remote create call.
#[derive(Clone, Copy, PartialEq, Eq, Structural, Debug)]
pub struct OverrideSpec {
    /// Whether the target is a role (the guild's everyone role) or a member.
    pub target_role: bool,
    pub id: u64,
    pub allow: u64,
    pub deny: u64,
}

/// A creation name is cut to at most twenty characters.
pub open spec fn truncated(s: Seq<char>) -> Seq<char> {
    if s.len() <= 20 {
        s
    } else {
        s.subrange(0, 20)
    }
}

/// The chosen group name: the `name` named argument if given; else the first
/// positional argument unless it reads as a user id; else the fallback the
/// caller supplies (the message's own id rendered as text).
pub open spec fn name_part_spec(kwargs: Map<Seq<char>, Seq<char>>, args: Seq<Seq<char>>, fallback: Seq<char>) -> Seq<char> {
    if kwargs.contains_key("name"@) {
        truncated(kwargs["name"@])
    } else if args.len() > 0 {
        if is_user_id_arg(args[0]) {
            fallback
        } else {
            truncated(args[0])
        }
    } else {
        fallback
    }
}

/// The positional arguments that read as user ids, in order.
pub open spec fn listed_users_spec(args: Seq<Seq<char>>) -> Seq<u64>
    decreases args.len(),
{
    if args.len() == 0 {
        Seq::empty()
    } else {
        listed_users_spec(args.drop_last()) + if is_user_id_arg(args.last()) {
            seq![dec_val(digits_part(args.last())) as u64]
        } else {
            Seq::<u64>::empty()
        }
    }
}

/// Everyone who gets the creator-level override: the listed users, the
/// author, and the engine's own account if known.
pub open spec fn override_users(listed: Seq<u64>, author: u64, me: Option<u64>) -> Seq<u64> {
    listed.push(author) + match me {
        Some(m) => seq![m],
        None => Seq::<u64>::empty(),
    }
}

pub open spec fn member_override(u: u64) -> OverrideSpec {
    OverrideSpec { target_role: false, id: u, allow: PERMS_CREATOR, deny: 0 }
}

/// The guild's everyone role (whose id is the guild id) is denied the member
/// permissions, sealing the group.
pub open spec fn everyone_override(guild: u64) -> OverrideSpec {
    OverrideSpec { target_role: true, id: guild, allow: 0, deny: PERMS_MEMBER }
}

pub open spec fn overrides_spec(users: Seq<u64>, guild: u64) -> Seq<OverrideSpec> {
    users.map_values(|u: u64| member_override(u)).push(everyone_override(guild))
}

/// Everything the app needs to create one group remotely.
pub struct CreationPlan {
    pub cat_name: String,
    pub vc_name: String,
    pub txt_name: String,
    pub overrides: Vec<OverrideSpec>,
    pub listed_users: Vec<u64>,
}

pub open spec fn plan_wf(p: CreationPlan, kwargs: Map<Seq<char>, Seq<char>>, args: Seq<
    Seq<char>,
>, fallback: Seq<char>, author: u64, me: Option<u64>, guild: u64) -> bool {
    let name = name_part_spec(kwargs, args, fallback);
    &&& p.cat_name@ == seq!['+', '#', ' '] + name
    &&& p.vc_name@ == "Party: "@ + name
    &&& p.txt_name@ == "party-"@ + name
    &&& p.listed_users@ == listed_users_spec(args)
    &&& p.overrides@ == overrides_spec(override_users(p.listed_users@, author, me), guild)
}

fn truncate_name(s: &str) -> (r: String)
    ensures
        r@ == truncated(s@),
{
    let n = s.unicode_len();
    if n <= 20 {
        let r = s.to_owned();
        proof {
            assert(r@ =~= truncated(s@));
        }
        r
    } else {
        s.substring_char(0, 20).to_owned()
    }
}

/// Builds the plan for a parsed command.
pub fn build_plan(a: &Args, fallback: &str, author: u64, me: Option<u64>, guild: u64) -> (r:
    CreationPlan)
    ensures
        plan_wf(r, a.kwargs_map(), a.args_seq(), fallback@, author, me, guild),
{
    // Name selection.
    let name: String = match a.kwarg("name") {
        Some(v) => truncate_name(v.as_str()),
        None => {
            if a.args.len() > 0 {
                let first = &a.args[0];
                proof {
                    assert(a.args_seq()[0] == a.args@[0]@);
                }
                match parse_user_id(first.as_str()) {
                    Some(_) => fallback.to_owned(),
                    None => truncate_name(first.as_str()),
                }
            } else {
                fallback.to_owned()
            }
        },
    };
    proof {
        reveal_strlit("name");
        assert(name@ == name_part_spec(a.kwargs_map(), a.args_seq(), fallback@));
    }

    let cat_name = String::from_str("+# ").concat(name.as_str());
    let vc_name = String::from_str("Party: ").concat(name.as_str());
    let txt_name = String::from_str("party-").concat(name.as_str());
    proof {
        reveal_strlit("+# ");
        assert("+# "@ =~= seq!['+', '#', ' ']);
        assert(cat_name@ == seq!['+', '#', ' '] + name@);
    }

    // Listed users.
    let mut listed: Vec<u64> = Vec::new();
    let na = a.args.len();
    let mut i: usize = 0;
    proof {
        assert(a.args_seq().subrange(0, 0).len() == 0);
        assert(listed@ =~= listed_users_spec(a.args_seq().subrange(0, 0)));
    }
    loop
        invariant
            i <= na,
            na == a.args@.len(),
            na == a.args_seq().len(),
            listed@ == listed_users_spec(a.args_seq().subrange(0, i as int)),
        ensures
            listed@ == listed_users_spec(a.args_seq()),
        decreases na - i,
    {
        if i >= na {
            proof {
                assert(a.args_seq().subrange(0, na as int) =~= a.args_seq());
            }
            break;
        }
        let ghost pre = a.args_seq().subrange(0, i as int);
        let ghost post = a.args_seq().subrange(0, i + 1);
        proof {
            assert(post.drop_last() =~= pre);
            assert(post.last() == a.args_seq()[i as int]);
            assert(a.args_seq()[i as int] == a.args@[i as int]@);
        }
        match parse_user_id(a.args[i].as_str()) {
            Some(v) => {
                listed.push(v);
                proof {
                    assert(listed@ =~= listed_users_spec(pre) + seq![
                        dec_val(digits_part(post.last())) as u64,
                    ]);
                }
            },
            None => {
                proof {
                    assert(listed_users_spec(post) =~= listed_users_spec(pre));
                }
            },
        }
        i = i + 1;
    }

    // Overrides: one per user, then the everyone-role deny.
    let mut users: Vec<u64> = Vec::new();
    let nl = listed.len();
    let mut k: usize = 0;
    loop
        invariant
            k <= nl,
            nl == listed@.len(),
            users@ == listed@.subrange(0, k as int),
        ensures
            users@ == listed@,
        decreases nl - k,
    {
        if k >= nl {
            proof {
                assert(listed@.subrange(0, nl as int) =~= listed@);
            }
            break;
        }
        users.push(listed[k]);
        proof {
            assert(users@ =~= listed@.subrange(0, k + 1));
        }
        k = k + 1;
    }
    users.push(author);
    if let Some(m) = me {
        users.push(m);
    }
    proof {
        assert(users@ =~= override_users(listed@, author, me));
    }

    let mut overrides: Vec<OverrideSpec> = Vec::new();
    let nu = users.len();
    let mut t: usize = 0;
    loop
        invariant
            t <= nu,
            nu == users@.len(),
            overrides@ == users@.subrange(0, t as int).map_values(|u: u64| member_override(u)),
        ensures
            overrides@ == users@.map_values(|u: u64| member_override(u)),
        decreases nu - t,
    {
        if t >= nu {
            proof {
                assert(users@.subrange(0, nu as int) =~= users@);
            }
            break;
        }
        overrides.push(OverrideSpec {
            target_role: false,
            id: users[t],
            allow: PERMS_CREATOR,
            deny: 0,
        });
        proof {
            assert(overrides@ =~= users@.subrange(0, t + 1).map_values(
                |u: u64| member_override(u),
            ));
        }
        t = t + 1;
    }
    overrides.push(OverrideSpec { target_role: true, id: guild, allow: 0, deny: PERMS_MEMBER });

    CreationPlan { cat_name, vc_name, txt_name, overrides, listed_users: listed }
}

} // verus!
