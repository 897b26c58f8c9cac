use party_engine::engine::CreationGate;
use party_engine::engine::Engine;
use party_engine::engine::GuildSnapshot;
use party_engine::engine::JoinOutcome;
use party_engine::engine::LeaveOutcome;
use party_engine::listing::partition_listing;
use party_engine::listing::ChannelInfo;
use party_engine::listing::ChannelKind;
use party_engine::listing::GroupChannels;
use party_engine::ratelimit::rate_decision;
use party_engine::ratelimit::RateDecision;
use party_engine::roles::RoleCache;
use party_engine::roles::RoleInfo;
use party_engine::roles::RolePerms;

fn chan(id: u64, kind: ChannelKind, name: &str, parent: Option<u64>) -> ChannelInfo {
    ChannelInfo { id, kind, name: name.to_string(), parent }
}

#[test]
fn rate_limiter_windows() {
    // Short window blocks silently; long window answers with the exact
    // remaining seconds; a fresh user is allowed.
    assert!(matches!(rate_decision(None, 1000, false), RateDecision::Allowed));
    assert!(matches!(rate_decision(Some(1000), 1010, false), RateDecision::SilentBlock));
    assert!(matches!(rate_decision(Some(1000), 1030, false), RateDecision::TooSoon(270)));
    assert!(matches!(rate_decision(Some(1000), 1300, false), RateDecision::Allowed));
    assert!(matches!(rate_decision(Some(1000), 1030, true), RateDecision::AlreadyOwner));
    // Inside the short window, silence wins even over ownership.
    assert!(matches!(rate_decision(Some(1000), 1005, true), RateDecision::SilentBlock));
}

#[test]
fn rate_limiter_silent_block_keeps_stamp() {
    let mut e = Engine::new();
    assert!(matches!(e.check_and_update(7, 10, 1000), RateDecision::Allowed));
    // Within the short cooldown: rejected, and the stamp must not move.
    assert!(matches!(e.check_and_update(7, 10, 1010), RateDecision::SilentBlock));
    // Were the stamp reset at 1010, 1025 would still be silent; it must be
    // the messaged wait computed from the first stamp instead.
    assert!(matches!(e.check_and_update(7, 10, 1025), RateDecision::TooSoon(275)));
}

#[test]
fn creation_scenario_not_in_voice() {
    let mut e = Engine::new();
    e.set_self(999);
    let gate = e.begin_creation(1, 10, 1000, &vec![], " Raid", "5550001");
    let plan = match gate {
        CreationGate::Proceed(p) => p,
        _ => panic!("expected the creation to proceed"),
    };
    assert_eq!(plan.cat_name, "+# Raid");
    assert_eq!(plan.vc_name, "Party: Raid");
    assert_eq!(plan.txt_name, "party-Raid");
    assert!(plan.listed_users.is_empty());
    // Overrides: the author, the engine's own account, then the everyone
    // role of the guild.
    assert_eq!(plan.overrides.len(), 3);
    assert!(!plan.overrides[0].target_role);
    assert_eq!(plan.overrides[0].id, 1);
    assert!(!plan.overrides[1].target_role);
    assert_eq!(plan.overrides[1].id, 999);
    assert!(plan.overrides[2].target_role);
    assert_eq!(plan.overrides[2].id, 10);

    // Remote creation succeeded: category 200, voice 100, text 300.
    e.record_owner(100, 1, 10);
    e.record_group(100, 200, Some(300));
    assert_eq!(e.owner_of(100), Some((1, 10)));

    // The creator was not in voice, so the move failed: the group is queued
    // for later cleanup, and nothing is deleted right away.
    let evicted = e.creator_move_failed(200, 100, Some(300));
    assert!(evicted.is_none());

    // The author now owns a group: another attempt answers so.
    assert!(matches!(e.check_and_update(1, 10, 5000), RateDecision::AlreadyOwner));
}

#[test]
fn creation_name_falls_back_for_user_id() {
    let mut e = Engine::new();
    let gate = e.begin_creation(1, 10, 1000, &vec![], " 424242 77", "888");
    let plan = match gate {
        CreationGate::Proceed(p) => p,
        _ => panic!("expected the creation to proceed"),
    };
    // The first argument reads as a user id, so the fallback names the group
    // and both arguments are the listed users.
    assert_eq!(plan.cat_name, "+# 888");
    assert_eq!(plan.listed_users, vec![424242, 77]);
}

#[test]
fn creation_name_truncated_to_twenty() {
    let mut e = Engine::new();
    let gate = e.begin_creation(1, 10, 1000, &vec![], " --name abcdefghijklmnopqrstuvwxyz", "f");
    let plan = match gate {
        CreationGate::Proceed(p) => p,
        _ => panic!("expected the creation to proceed"),
    };
    assert_eq!(plan.cat_name, "+# abcdefghijklmnopqrst");
}

#[test]
fn creation_gate_bad_parse() {
    let mut e = Engine::new();
    let gate = e.begin_creation(1, 10, 1000, &vec![], " \"unterminated", "f");
    assert!(matches!(gate, CreationGate::BadParse));
}

#[test]
fn creation_gate_whitelist() {
    let mut e = Engine::new();
    let snap = GuildSnapshot {
        guild: 10,
        owner: 50,
        roles: vec![RoleInfo {
            id: 77,
            name: "+# raiders".to_string(),
            perms: RolePerms { administrator: false, move_members: false, manage_channels: false },
        }],
        channels: vec![],
        voice: vec![],
    };
    e.on_guild_snapshot(&snap);
    // No whitelist role, no channel-creating role, not the guild owner.
    let gate = e.begin_creation(1, 10, 1000, &vec![], " Raid", "f");
    assert!(matches!(gate, CreationGate::NotPermitted));
    // With the whitelist role the same author passes.
    let gate2 = e.begin_creation(2, 10, 1000, &vec![77], " Raid", "f");
    assert!(matches!(gate2, CreationGate::Proceed(_)));
    // The guild owner passes without any role.
    let gate3 = e.begin_creation(50, 10, 1000, &vec![], " Raid", "f");
    assert!(matches!(gate3, CreationGate::Proceed(_)));
}

#[test]
fn cleanup_queue_thirty_third_entry_evicts_oldest() {
    let mut e = Engine::new();
    for i in 0..32u64 {
        let evicted = e.creator_move_failed(1000 + i, 2000 + i, None);
        assert!(evicted.is_none());
    }
    // The thirty-third entry: the oldest entry's group is empty, so its
    // three channels come back for deletion, exactly once each.
    let evicted = e.creator_move_failed(5000, 6000, Some(7000));
    assert_eq!(
        evicted,
        Some(GroupChannels { voice: 2000, category: 1000, text: None })
    );
    // Pushing once more evicts the next oldest, not the same one again.
    let again = e.creator_move_failed(5001, 6001, None);
    assert_eq!(
        again,
        Some(GroupChannels { voice: 2001, category: 1001, text: None })
    );
}

#[test]
fn cleanup_queue_occupied_entry_not_deleted() {
    let mut e = Engine::new();
    for i in 0..32u64 {
        let _ = e.creator_move_failed(1000 + i, 2000 + i, None);
    }
    // Someone is in the oldest entry's voice channel now.
    let _ = e.on_voice_join(42, 2000, 10);
    let evicted = e.creator_move_failed(5000, 6000, None);
    // The oldest entry still leaves the ring, but nothing is deleted.
    assert!(evicted.is_none());
}

#[test]
fn sweep_grace_period_then_single_deletion() {
    let mut e = Engine::new();
    let _ = e.creator_move_failed(1000, 2000, Some(3000));
    // First tick: the entry is new at the front; it is only remembered.
    assert!(e.sweep_tick().is_none());
    // Second tick: same front, empty group: popped and handed back once.
    assert_eq!(
        e.sweep_tick(),
        Some(GroupChannels { voice: 2000, category: 1000, text: Some(3000) })
    );
    // Third tick: the ring is already advanced; nothing to delete twice.
    assert!(e.sweep_tick().is_none());
}

#[test]
fn sweep_leaves_occupied_front_alone() {
    let mut e = Engine::new();
    let _ = e.creator_move_failed(1000, 2000, None);
    let _ = e.on_voice_join(42, 2000, 10);
    assert!(e.sweep_tick().is_none());
    // Same front on the next tick, but occupied: left in place.
    assert!(e.sweep_tick().is_none());
    // Once the channel empties naturally, the sweep may take it.
    let _ = e.on_voice_leave(42);
    assert_eq!(
        e.sweep_tick(),
        Some(GroupChannels { voice: 2000, category: 1000, text: None })
    );
}

#[test]
fn leave_scenario_rescan_finds_nothing() {
    let mut e = Engine::new();
    match e.on_voice_join(5, 42, 10) {
        JoinOutcome::Untracked => {},
        _ => panic!("expected an untracked join"),
    }
    // Last member disconnects; neither cache knows the channel.
    let out = e.on_voice_leave(5);
    let c = match out {
        LeaveOutcome::NeedRescan(c) => c,
        _ => panic!("expected a rescan"),
    };
    assert_eq!(c, 42);
    // The rescan finds no matching category: the channel is marked ignored
    // and no deletion is asked for.
    let listing: Vec<ChannelInfo> = vec![];
    let part = partition_listing(&listing);
    assert!(e.resolve_after_rescan(42, &part).is_none());
    // The mark holds: the next join into the channel is not even tracked.
    match e.on_voice_join(5, 42, 10) {
        JoinOutcome::Ignored => {},
        _ => panic!("expected the channel to be ignored"),
    }
}

#[test]
fn leave_scenario_rescan_recovers_group() {
    let mut e = Engine::new();
    let _ = e.on_voice_join(5, 42, 10);
    let out = e.on_voice_leave(5);
    assert!(matches!(out, LeaveOutcome::NeedRescan(42)));
    // The rescan finds the category "+# X" with voice child 42 and a text
    // child: the group is recognized and torn down.
    let listing = vec![
        chan(7, ChannelKind::Category, "+# X", None),
        chan(42, ChannelKind::Voice, "Party: X", Some(7)),
        chan(8, ChannelKind::Text, "party-x", Some(7)),
    ];
    let part = partition_listing(&listing);
    let plan = e.resolve_after_rescan(42, &part).expect("the group is recognized");
    assert_eq!(plan, GroupChannels { voice: 42, category: 7, text: Some(8) });
}

#[test]
fn teardown_on_empty_tracked_channel() {
    let mut e = Engine::new();
    e.record_owner(42, 1, 10);
    e.record_group(42, 7, Some(8));
    let _ = e.on_voice_join(5, 42, 10);
    let out = e.on_voice_leave(5);
    let plan = match out {
        LeaveOutcome::Teardown(p) => p,
        _ => panic!("expected a teardown"),
    };
    assert_eq!(plan, GroupChannels { voice: 42, category: 7, text: Some(8) });
    // The owner record is purged with the group.
    assert_eq!(e.owner_of(42), None);
}

#[test]
fn join_owner_needs_no_override() {
    let mut e = Engine::new();
    e.record_owner(42, 1, 10);
    e.record_group(42, 7, None);
    match e.on_voice_join(1, 42, 10) {
        JoinOutcome::OwnerJoined => {},
        _ => panic!("expected the owner join"),
    }
    // Another member joining the tracked group gets the category override.
    match e.on_voice_join(2, 42, 10) {
        JoinOutcome::GrantPerms(cat) => assert_eq!(cat, 7),
        _ => panic!("expected a permission grant"),
    }
}

#[test]
fn occupancy_counts_follow_joins_and_leaves() {
    let mut e = Engine::new();
    let _ = e.on_voice_join(1, 42, 10);
    let _ = e.on_voice_join(2, 42, 10);
    // Moving a member is one event: leave the old channel, join the new one.
    let out = e.on_voice_leave(1);
    assert!(matches!(out, LeaveOutcome::StillOccupied(42)));
    let _ = e.on_voice_join(1, 43, 10);
    let out2 = e.on_voice_leave(2);
    assert!(matches!(out2, LeaveOutcome::NeedRescan(42)));
}

#[test]
fn role_capability_update() {
    let mut rc = RoleCache::new();
    let admin = RolePerms { administrator: true, move_members: false, manage_channels: false };
    rc.on_role_update(10, 77, admin, false);
    assert!(rc.grants_move_role(77));
    assert!(rc.grants_create_role(77));
    // The role loses administrator and manage-channels but keeps
    // move-members: it may still move, it may no longer create.
    let reduced = RolePerms { administrator: false, move_members: true, manage_channels: false };
    rc.on_role_update(10, 77, reduced, false);
    assert!(rc.grants_move_role(77));
    assert!(!rc.grants_create_role(77));
}

#[test]
fn role_delete_clears_capabilities_and_whitelist() {
    let mut rc = RoleCache::new();
    let perms = RolePerms { administrator: true, move_members: true, manage_channels: true };
    rc.on_role_create(10, 77, perms, true);
    assert_eq!(rc.whitelist_of(10), Some(77));
    rc.on_role_delete(10, 77);
    assert!(!rc.grants_move_role(77));
    assert!(!rc.grants_create_role(77));
    assert_eq!(rc.whitelist_of(10), None);
}

#[test]
fn snapshot_builds_caches_and_ignores_leftovers() {
    let mut e = Engine::new();
    let snap = GuildSnapshot {
        guild: 10,
        owner: 50,
        roles: vec![
            RoleInfo {
                id: 70,
                name: "mods".to_string(),
                perms: RolePerms {
                    administrator: false,
                    move_members: true,
                    manage_channels: false,
                },
            },
            RoleInfo {
                id: 71,
                name: "+#raiders".to_string(),
                perms: RolePerms {
                    administrator: false,
                    move_members: false,
                    manage_channels: false,
                },
            },
        ],
        channels: vec![
            chan(7, ChannelKind::Category, "+# X", None),
            chan(42, ChannelKind::Voice, "Party: X", Some(7)),
            chan(9, ChannelKind::Category, "general", None),
            chan(43, ChannelKind::Voice, "lobby", Some(9)),
        ],
        voice: vec![(1, 42), (2, 43)],
    };
    e.on_guild_snapshot(&snap);
    // The group category was recognized; the owner joining it is tracked.
    match e.on_voice_join(3, 42, 10) {
        JoinOutcome::GrantPerms(cat) => assert_eq!(cat, 7),
        _ => panic!("expected a tracked, managed channel"),
    }
    // The unmanaged voice channel was marked ignored.
    match e.on_voice_join(4, 43, 10) {
        JoinOutcome::Ignored => {},
        _ => panic!("expected the leftover channel to be ignored"),
    }
    // The snapshot's voice states count: emptying channel 42 tears the
    // recognized group down.
    let _ = e.on_voice_leave(3);
    match e.on_voice_leave(1) {
        LeaveOutcome::Teardown(p) => {
            assert_eq!(p, GroupChannels { voice: 42, category: 7, text: None });
        },
        _ => panic!("expected a teardown"),
    }
}

#[test]
fn ignored_ids_never_overlap_cached_groups() {
    let mut e = Engine::new();
    // A channel is marked unmanaged, then later recognized as a group: the
    // mark must yield to the group.
    let _ = e.on_voice_join(5, 42, 10);
    let _ = e.on_voice_leave(5);
    let part = partition_listing(&vec![]);
    assert!(e.resolve_after_rescan(42, &part).is_none());
    match e.on_voice_join(5, 42, 10) {
        JoinOutcome::Ignored => {},
        _ => panic!("expected the mark to hold"),
    }
    // Later the channel is recognized as a group's voice channel: the mark
    // must yield to the group.
    e.record_group(42, 7, None);
    match e.on_voice_join(6, 42, 10) {
        JoinOutcome::Ignored => panic!("the mark must yield to the recognized group"),
        _ => {},
    }
}

#[test]
fn category_cache_capacity_drops_oldest_silently() {
    let mut e = Engine::new();
    // Fill the 32-entry category cache, then one more.
    for i in 0..33u64 {
        e.record_group(100 + i, 200 + i, None);
    }
    // The oldest entry fell out: its channel is no longer recognized.
    let _ = e.on_voice_join(5, 100, 10);
    match e.on_voice_leave(5) {
        LeaveOutcome::NeedRescan(100) => {},
        _ => panic!("expected the dropped entry to need a rescan"),
    }
    // A newer entry is still cached.
    e.record_owner(132, 1, 10);
    let _ = e.on_voice_join(6, 132, 10);
    match e.on_voice_leave(6) {
        LeaveOutcome::Teardown(p) => assert_eq!(p.category, 232),
        _ => panic!("expected the newest entry to still be cached"),
    }
}
