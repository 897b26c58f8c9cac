//! Partition of a guild's full channel listing: categories whose name carries
//! the group marker are paired with their voice child and optional text
//! child; voice children of unmarked categories are the "leftovers" that a
//! snapshot pass records as not managed.
use vstd::prelude::*;

verus! {

#[derive(Clone, Copy, PartialEq, Eq, Structural, Debug)]
pub enum ChannelKind {
    Category,
    Text,
    Voice,
    Other,
}

/// One channel of a guild listing, as the snapshot hands it over.
pub struct ChannelInfo {
    pub id: u64,
    pub kind: ChannelKind,
    pub name: String,
    pub parent: Option<u64>,
}

/// The three channels of one recognized group.
#[derive(Clone, Copy, PartialEq, Eq, Structural, Debug)]
pub struct GroupChannels {
    pub voice: u64,
    pub category: u64,
    pub text: Option<u64>,
}

/// The marker that a group category's name begins with: `+# `.
pub open spec fn has_party_prefix(s: Seq<char>) -> bool {
    s.len() >= 3 && s[0] == '+' && s[1] == '#' && s[2] == ' '
}

/// The marker that a whitelist role's name begins with: `+#`.
pub open spec fn has_whitelist_prefix(s: Seq<char>) -> bool {
    s.len() >= 2 && s[0] == '+' && s[1] == '#'
}

pub fn name_has_party_prefix(s: &String) -> (r: bool)
    ensures
        r == has_party_prefix(s@),
{
    let n = s.as_str().unicode_len();
    n >= 3 && s.as_str().get_char(0) == '+' && s.as_str().get_char(1) == '#' && s.as_str().get_char(
        2,
    ) == ' '
}

pub fn name_has_whitelist_prefix(s: &String) -> (r: bool)
    ensures
        r == has_whitelist_prefix(s@),
{
    let n = s.as_str().unicode_len();
    n >= 2 && s.as_str().get_char(0) == '+' && s.as_str().get_char(1) == '#'
}

/// A category whose name carries the group marker.
pub open spec fn is_marked_cat(x: ChannelInfo) -> bool {
    x.kind == ChannelKind::Category && has_party_prefix(x.name@)
}

/// The ids of marked categories, in listing order.
pub open spec fn cats_marked(s: Seq<ChannelInfo>) -> Seq<u64>
    decreases s.len(),
{
    if s.len() == 0 {
        Seq::empty()
    } else {
        cats_marked(s.drop_last()) + if is_marked_cat(s.last()) {
            seq![s.last().id]
        } else {
            Seq::<u64>::empty()
        }
    }
}

/// The last voice channel of the listing whose category reference is `c`.
pub open spec fn last_voice(s: Seq<ChannelInfo>, c: u64) -> Option<u64>
    decreases s.len(),
{
    if s.len() == 0 {
        None
    } else if s.last().kind == ChannelKind::Voice && s.last().parent == Some(c) {
        Some(s.last().id)
    } else {
        last_voice(s.drop_last(), c)
    }
}

/// The last text channel of the listing whose category reference is `c`.
pub open spec fn last_text(s: Seq<ChannelInfo>, c: u64) -> Option<u64>
    decreases s.len(),
{
    if s.len() == 0 {
        None
    } else if s.last().kind == ChannelKind::Text && s.last().parent == Some(c) {
        Some(s.last().id)
    } else {
        last_text(s.drop_last(), c)
    }
}

/// Whether a listing entry is a child (text or voice) carrying a category
/// reference.
pub open spec fn child_parent(x: ChannelInfo) -> Option<u64> {
    if (x.kind == ChannelKind::Text || x.kind == ChannelKind::Voice) && x.parent is Some {
        x.parent
    } else {
        None
    }
}

/// The category ids referenced by children, in first-reference order, each
/// once.
pub open spec fn refs(s: Seq<ChannelInfo>) -> Seq<u64>
    decreases s.len(),
{
    if s.len() == 0 {
        Seq::empty()
    } else {
        let r = refs(s.drop_last());
        match child_parent(s.last()) {
            Some(c) => if r.contains(c) {
                r
            } else {
                r + seq![c]
            },
            None => r,
        }
    }
}

/// The groups recognized from a listing: each marked category that has a
/// voice child, paired with that voice child and the optional text child.
pub open spec fn groups_from_cats(cats: Seq<u64>, s: Seq<ChannelInfo>) -> Seq<GroupChannels>
    decreases cats.len(),
{
    if cats.len() == 0 {
        Seq::empty()
    } else {
        groups_from_cats(cats.drop_last(), s) + match last_voice(s, cats.last()) {
            Some(v) => seq![
                GroupChannels { voice: v, category: cats.last(), text: last_text(s, cats.last()) },
            ],
            None => Seq::<GroupChannels>::empty(),
        }
    }
}

pub open spec fn groups_of(s: Seq<ChannelInfo>) -> Seq<GroupChannels> {
    groups_from_cats(cats_marked(s), s)
}

/// The voice children of referenced but unmarked categories, in
/// first-reference order.
pub open spec fn leftovers_from_refs(rs: Seq<u64>, s: Seq<ChannelInfo>) -> Seq<u64>
    decreases rs.len(),
{
    if rs.len() == 0 {
        Seq::empty()
    } else {
        leftovers_from_refs(rs.drop_last(), s) + if !cats_marked(s).contains(rs.last()) {
            match last_voice(s, rs.last()) {
                Some(v) => seq![v],
                None => Seq::<u64>::empty(),
            }
        } else {
            Seq::<u64>::empty()
        }
    }
}

pub open spec fn leftovers_of(s: Seq<ChannelInfo>) -> Seq<u64> {
    leftovers_from_refs(refs(s), s)
}

fn vec_contains_u64(v: &Vec<u64>, x: u64) -> (r: bool)
    ensures
        r == v@.contains(x),
{
    let n = v.len();
    let mut k: usize = 0;
    loop
        invariant
            k <= n,
            n == v@.len(),
            forall|t: int| 0 <= t < k ==> v@[t] != x,
        ensures
            k <= n,
            k < n ==> v@[k as int] == x,
            k == n ==> forall|t: int| 0 <= t < n ==> v@[t] != x,
        decreases n - k,
    {
        if k >= n {
            break;
        }
        if v[k] == x {
            break;
        }
        k = k + 1;
    }
    if k < n {
        proof {
            assert(v@.contains(x));
        }
        true
    } else {
        proof {
            assert(!v@.contains(x)) by {
                if v@.contains(x) {
                    let t = choose|t: int| 0 <= t < v@.len() && v@[t] == x;
                    assert(v@[t] == x);
                }
            }
        }
        false
    }
}

fn find_last_voice(listing: &Vec<ChannelInfo>, c: u64) -> (r: Option<u64>)
    ensures
        r == last_voice(listing@, c),
{
    let n = listing.len();
    let mut cur: Option<u64> = None;
    let mut i: usize = 0;
    proof {
        assert(listing@.subrange(0, 0).len() == 0);
    }
    loop
        invariant
            i <= n,
            n == listing@.len(),
            cur == last_voice(listing@.subrange(0, i as int), c),
        ensures
            cur == last_voice(listing@, c),
        decreases n - i,
    {
        if i >= n {
            proof {
                assert(listing@.subrange(0, n as int) =~= listing@);
            }
            break;
        }
        let x = &listing[i];
        let ghost pre = listing@.subrange(0, i as int);
        let ghost post = listing@.subrange(0, i + 1);
        proof {
            assert(post.drop_last() =~= pre);
            assert(post.last() == listing@[i as int]);
        }
        let is_match = match (x.kind, x.parent) {
            (ChannelKind::Voice, Some(p)) => p == c,
            _ => false,
        };
        if is_match {
            cur = Some(x.id);
        }
        i = i + 1;
    }
    cur
}

fn find_last_text(listing: &Vec<ChannelInfo>, c: u64) -> (r: Option<u64>)
    ensures
        r == last_text(listing@, c),
{
    let n = listing.len();
    let mut cur: Option<u64> = None;
    let mut i: usize = 0;
    loop
        invariant
            i <= n,
            n == listing@.len(),
            cur == last_text(listing@.subrange(0, i as int), c),
        ensures
            cur == last_text(listing@, c),
        decreases n - i,
    {
        if i >= n {
            proof {
                assert(listing@.subrange(0, n as int) =~= listing@);
            }
            break;
        }
        let x = &listing[i];
        let ghost pre = listing@.subrange(0, i as int);
        let ghost post = listing@.subrange(0, i + 1);
        proof {
            assert(post.drop_last() =~= pre);
            assert(post.last() == listing@[i as int]);
        }
        let is_match = match (x.kind, x.parent) {
            (ChannelKind::Text, Some(p)) => p == c,
            _ => false,
        };
        if is_match {
            cur = Some(x.id);
        }
        i = i + 1;
    }
    cur
}

/// The outcome of partitioning one guild listing.
pub struct Partition {
    pub groups: Vec<GroupChannels>,
    pub leftovers: Vec<u64>,
}

/// Cuts a listing into recognized groups and unmanaged voice channels.
pub fn partition_listing(listing: &Vec<ChannelInfo>) -> (r: Partition)
    ensures
        r.groups@ == groups_of(listing@),
        r.leftovers@ == leftovers_of(listing@),
{
    let n = listing.len();

    // Marked category ids, in order.
    let mut cats: Vec<u64> = Vec::new();
    let mut i: usize = 0;
    proof {
        assert(cats@ =~= cats_marked(listing@.subrange(0, 0)));
    }
    loop
        invariant
            i <= n,
            n == listing@.len(),
            cats@ == cats_marked(listing@.subrange(0, i as int)),
        ensures
            cats@ == cats_marked(listing@),
        decreases n - i,
    {
        if i >= n {
            proof {
                assert(listing@.subrange(0, n as int) =~= listing@);
            }
            break;
        }
        let x = &listing[i];
        let ghost pre = listing@.subrange(0, i as int);
        let ghost post = listing@.subrange(0, i + 1);
        proof {
            assert(post.drop_last() =~= pre);
            assert(post.last() == listing@[i as int]);
        }
        let is_cat = match x.kind {
            ChannelKind::Category => true,
            _ => false,
        };
        if is_cat && name_has_party_prefix(&x.name) {
            cats.push(x.id);
            proof {
                assert(cats@ =~= cats_marked(pre) + seq![listing@[i as int].id]);
            }
        } else {
            proof {
                assert(cats_marked(post) =~= cats_marked(pre));
            }
        }
        i = i + 1;
    }

    // Referenced category ids, first reference first.
    let mut rs: Vec<u64> = Vec::new();
    let mut i2: usize = 0;
    proof {
        assert(rs@ =~= refs(listing@.subrange(0, 0)));
    }
    loop
        invariant
            i2 <= n,
            n == listing@.len(),
            rs@ == refs(listing@.subrange(0, i2 as int)),
        ensures
            rs@ == refs(listing@),
        decreases n - i2,
    {
        if i2 >= n {
            proof {
                assert(listing@.subrange(0, n as int) =~= listing@);
            }
            break;
        }
        let x = &listing[i2];
        let ghost pre = listing@.subrange(0, i2 as int);
        let ghost post = listing@.subrange(0, i2 + 1);
        proof {
            assert(post.drop_last() =~= pre);
            assert(post.last() == listing@[i2 as int]);
        }
        let parent = match (x.kind, x.parent) {
            (ChannelKind::Text, Some(p)) => Some(p),
            (ChannelKind::Voice, Some(p)) => Some(p),
            _ => None,
        };
        proof {
            assert(parent == child_parent(listing@[i2 as int]));
        }
        if let Some(p) = parent {
            if !vec_contains_u64(&rs, p) {
                rs.push(p);
                proof {
                    assert(rs@ =~= refs(pre) + seq![p]);
                }
            }
        }
        i2 = i2 + 1;
    }

    // Pair each marked category with its children.
    let mut groups: Vec<GroupChannels> = Vec::new();
    let nc = cats.len();
    let mut k: usize = 0;
    proof {
        assert(cats@.subrange(0, 0).len() == 0);
        assert(groups@ =~= groups_from_cats(cats@.subrange(0, 0), listing@));
    }
    loop
        invariant
            k <= nc,
            nc == cats@.len(),
            cats@ == cats_marked(listing@),
            n == listing@.len(),
            groups@ == groups_from_cats(cats@.subrange(0, k as int), listing@),
        ensures
            groups@ == groups_of(listing@),
        decreases nc - k,
    {
        if k >= nc {
            proof {
                assert(cats@.subrange(0, nc as int) =~= cats@);
            }
            break;
        }
        let c = cats[k];
        let ghost cpre = cats@.subrange(0, k as int);
        let ghost cpost = cats@.subrange(0, k + 1);
        proof {
            assert(cpost.drop_last() =~= cpre);
            assert(cpost.last() == cats@[k as int]);
        }
        match find_last_voice(listing, c) {
            Some(v) => {
                let t = find_last_text(listing, c);
                groups.push(GroupChannels { voice: v, category: c, text: t });
                proof {
                    assert(groups@ =~= groups_from_cats(cpre, listing@) + seq![
                        GroupChannels {
                            voice: v,
                            category: c,
                            text: last_text(listing@, c),
                        },
                    ]);
                }
            },
            None => {
                proof {
                    assert(groups_from_cats(cpost, listing@) =~= groups_from_cats(
                        cpre,
                        listing@,
                    ));
                }
            },
        }
        k = k + 1;
    }

    // Voice children of referenced, unmarked categories.
    let mut leftovers: Vec<u64> = Vec::new();
    let nr = rs.len();
    let mut k2: usize = 0;
    proof {
        assert(rs@.subrange(0, 0).len() == 0);
        assert(leftovers@ =~= leftovers_from_refs(rs@.subrange(0, 0), listing@));
    }
    loop
        invariant
            k2 <= nr,
            nr == rs@.len(),
            rs@ == refs(listing@),
            cats@ == cats_marked(listing@),
            nc == cats@.len(),
            n == listing@.len(),
            leftovers@ == leftovers_from_refs(rs@.subrange(0, k2 as int), listing@),
        ensures
            leftovers@ == leftovers_of(listing@),
        decreases nr - k2,
    {
        if k2 >= nr {
            proof {
                assert(rs@.subrange(0, nr as int) =~= rs@);
            }
            break;
        }
        let c = rs[k2];
        let ghost rpre = rs@.subrange(0, k2 as int);
        let ghost rpost = rs@.subrange(0, k2 + 1);
        proof {
            assert(rpost.drop_last() =~= rpre);
            assert(rpost.last() == rs@[k2 as int]);
        }
        if !vec_contains_u64(&cats, c) {
            match find_last_voice(listing, c) {
                Some(v) => {
                    leftovers.push(v);
                    proof {
                        assert(leftovers@ =~= leftovers_from_refs(rpre, listing@) + seq![v]);
                    }
                },
                None => {
                    proof {
                        assert(leftovers_from_refs(rpost, listing@) =~= leftovers_from_refs(
                            rpre,
                            listing@,
                        ));
                    }
                },
            }
        } else {
            proof {
                assert(leftovers_from_refs(rpost, listing@) =~= leftovers_from_refs(
                    rpre,
                    listing@,
                ));
            }
        }
        k2 = k2 + 1;
    }

    Partition { groups, leftovers }
}

} // verus!
