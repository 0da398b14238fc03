//! Matching of the reference file against the WordPress user base. Both
//! sides are compared on their class: the normalized address, resolved
//! through the alias map, so that two addresses of one alias group designate
//! the same person, whichever one WordPress happens to store.

use vstd::prelude::*;

use crate::aliases::{class_spec, groups_ok, law_alias_order_free, same_lines, AliasMap, GroupView};
use crate::reference::{
    identity_views, lemma_reference_same_classes, normalize_spec, reference_spec, same_classes,
    Identity, IdentityView, Normalizer, Reference,
};
use crate::text::str_eq;
use crate::wp::{is_administrator_spec, user_views, WpUser, WpUserView};

verus! {

/// The class of a WordPress user: its normalized address, resolved through
/// the alias groups.
pub open spec fn user_class(u: WpUserView, strip: bool, gs: Seq<GroupView>) -> Seq<char> {
    class_spec(gs, normalize_spec(strip, u.email))
}

/// Index of the last identity of class `c`, or -1 when there is none.
pub open spec fn owner_index(ids: Seq<IdentityView>, c: Seq<char>) -> int
    decreases ids.len(),
{
    if ids.len() == 0 {
        -1
    } else if ids.last().class == c {
        ids.len() - 1
    } else {
        owner_index(ids.drop_last(), c)
    }
}

pub proof fn lemma_owner_index(ids: Seq<IdentityView>, c: Seq<char>)
    ensures
        -1 <= owner_index(ids, c) < ids.len(),
        owner_index(ids, c) >= 0 ==> ids[owner_index(ids, c)].class == c,
        forall|j: int| owner_index(ids, c) < j < ids.len() ==> (#[trigger] ids[j]).class != c,
    decreases ids.len(),
{
    if ids.len() > 0 && ids.last().class != c {
        lemma_owner_index(ids.drop_last(), c);
        assert forall|j: int| owner_index(ids, c) < j < ids.len() implies (#[trigger] ids[j]).class != c by {
            if j < ids.len() - 1 {
                assert(ids[j] == ids.drop_last()[j]);
            }
        }
    }
}

/// The WordPress users that resolve to identity `i` (the last identity of
/// their class), in their order.
pub open spec fn owners(
    ids: Seq<IdentityView>,
    users: Seq<WpUserView>,
    strip: bool,
    gs: Seq<GroupView>,
    i: int,
) -> Seq<WpUserView> {
    users.filter(|u: WpUserView| owner_index(ids, user_class(u, strip, gs)) == i)
}

/// A reference identity and the WordPress user(s) whose e-mail resolves to
/// the same person.
#[derive(Debug)]
pub struct IdentityMatch {
    pub identity: Identity,
    pub users: Vec<WpUser>,
}

/// What a match is.
pub struct MatchView {
    pub identity: IdentityView,
    pub users: Seq<WpUserView>,
}

impl View for IdentityMatch {
    type V = MatchView;

    open spec fn view(&self) -> MatchView {
        MatchView { identity: self.identity@, users: user_views(self.users@) }
    }
}

/// The views of a list of matches.
pub open spec fn match_views(v: Seq<IdentityMatch>) -> Seq<MatchView> {
    v.map_values(|m: IdentityMatch| m@)
}

/// The WordPress account uses an alias rather than the address listed in the
/// reference file.
pub open spec fn is_alias_match_spec(m: MatchView, strip: bool) -> bool {
    exists|j: int|
        0 <= j < m.users.len() && normalize_spec(strip, (#[trigger] m.users[j]).email)
            != m.identity.email.key
}

impl IdentityMatch {
    /// True when the WordPress account uses an alias rather than the address
    /// listed in the reference file.
    pub fn is_alias_match(&self, normalizer: &Normalizer) -> (r: bool)
        ensures
            r == is_alias_match_spec(self@, normalizer.strip_plus_tags),
    {
        let mut j: usize = 0;
        while j < self.users.len()
            invariant
                j <= self.users.len(),
                forall|k: int|
                    0 <= k < j ==> normalize_spec(normalizer.strip_plus_tags, (#[trigger] user_views(self.users@)[k]).email)
                        == self@.identity.email.key,
            decreases self.users.len() - j,
        {
            let key = normalizer.normalize(self.users[j].email.as_str());
            assert(user_views(self.users@)[j as int] == self.users@[j as int]@);
            if !str_eq(key.as_str(), self.identity.email.key()) {
                proof {
                    let u = self@.users[j as int];
                    assert(normalize_spec(normalizer.strip_plus_tags, u.email) != self@.identity.email.key);
                    assert(is_alias_match_spec(self@, normalizer.strip_plus_tags));
                }
                return true;
            }
            j = j + 1;
        }
        false
    }
}

/// How many of the matches go through an alias.
pub open spec fn alias_match_count(ms: Seq<MatchView>, strip: bool) -> nat {
    ms.filter(|m: MatchView| is_alias_match_spec(m, strip)).len()
}

/// How many of the matches go through an alias (the WordPress account uses
/// another address of the person's group than the reference file).
pub fn count_alias_matches(matched: &[IdentityMatch], normalizer: &Normalizer) -> (r: usize)
    ensures
        r == alias_match_count(match_views(matched@), normalizer.strip_plus_tags),
{
    let ghost strip = normalizer.strip_plus_tags;
    let ghost pred = |m: MatchView| is_alias_match_spec(m, strip);
    let ghost ms = match_views(matched@);
    let mut n: usize = 0;
    let mut i: usize = 0;
    while i < matched.len()
        invariant
            i <= matched.len(),
            strip == normalizer.strip_plus_tags,
            pred == (|m: MatchView| is_alias_match_spec(m, strip)),
            ms == match_views(matched@),
            n == ms.subrange(0, i as int).filter(pred).len(),
            n <= i,
        decreases matched.len() - i,
    {
        let a = matched[i].is_alias_match(normalizer);
        proof {
            reveal_with_fuel(Seq::filter, 1);
            assert(ms.subrange(0, i + 1).drop_last() =~= ms.subrange(0, i as int));
            assert(ms[i as int] == matched@[i as int]@);
        }
        if a {
            n = n + 1;
        }
        i = i + 1;
    }
    assert(ms.subrange(0, matched.len() as int) =~= ms);
    n
}

/// Rules deciding which surplus users must never be deleted.
#[derive(Debug)]
pub struct Protection {
    /// Classes (normalized, alias-resolved keys) that must be kept.
    pub classes: Vec<String>,
    /// Keep administrators even when they are not in the reference file.
    pub keep_administrators: bool,
}

/// What a protection is.
pub struct ProtectionView {
    pub classes: Seq<Seq<char>>,
    pub keep_administrators: bool,
}

impl View for Protection {
    type V = ProtectionView;

    open spec fn view(&self) -> ProtectionView {
        ProtectionView {
            classes: crate::wp::string_views(self.classes@),
            keep_administrators: self.keep_administrators,
        }
    }
}

impl Default for Protection {
    /// No protection at all: no class kept, administrators included.
    fn default() -> (r: Protection)
        ensures
            r@.classes.len() == 0,
            !r@.keep_administrators,
    {
        let r = Protection { classes: Vec::new(), keep_administrators: false };
        assert(r@.classes =~= Seq::<Seq<char>>::empty());
        r
    }
}

/// Why a surplus user of class `c` is kept, if it is.
pub open spec fn reason_spec(p: ProtectionView, u: WpUserView, c: Seq<char>) -> Option<Seq<char>> {
    if p.classes.contains(c) {
        Some("protected e-mail"@)
    } else if p.keep_administrators && is_administrator_spec(u) {
        Some("administrator"@)
    } else {
        None
    }
}

impl Protection {
    fn reason(&self, user: &WpUser, class: &str) -> (r: Option<String>)
        ensures
            match r {
                Some(s) => reason_spec(self@, user@, class@) == Some(s@),
                None => reason_spec(self@, user@, class@) is None,
            },
    {
        let mut i: usize = 0;
        while i < self.classes.len()
            invariant
                i <= self.classes.len(),
                forall|j: int| 0 <= j < i ==> (#[trigger] self.classes@[j])@ != class@,
            decreases self.classes.len() - i,
        {
            if str_eq(self.classes[i].as_str(), class) {
                assert(self@.classes[i as int] == class@);
                return Some("protected e-mail".to_owned());
            }
            i = i + 1;
        }
        assert(!self@.classes.contains(class@)) by {
            assert forall|j: int| 0 <= j < self@.classes.len() implies self@.classes[j] != class@ by {
                assert(self.classes@[j]@ != class@);
            }
        }
        if self.keep_administrators && user.is_administrator() {
            return Some("administrator".to_owned());
        }
        None
    }
}

/// Outcome of a reconciliation: everything the commands need to report or
/// act.
#[derive(Debug)]
pub struct Plan {
    /// Identities matched by exactly one WordPress user.
    pub matched: Vec<IdentityMatch>,
    /// Identities matched by several WordPress users: needs a human decision.
    pub ambiguous: Vec<IdentityMatch>,
    /// Identities with no WordPress user: to create.
    pub missing: Vec<Identity>,
    /// WordPress users absent from the reference file: to delete.
    pub extra: Vec<WpUser>,
    /// WordPress users absent from the reference file but shielded from
    /// deletion, with the reason why.
    pub protected: Vec<(WpUser, String)>,
}

/// What a plan is.
pub struct PlanView {
    pub matched: Seq<MatchView>,
    pub ambiguous: Seq<MatchView>,
    pub missing: Seq<IdentityView>,
    pub extra: Seq<WpUserView>,
    pub protected: Seq<(WpUserView, Seq<char>)>,
}

impl View for Plan {
    type V = PlanView;

    open spec fn view(&self) -> PlanView {
        PlanView {
            matched: match_views(self.matched@),
            ambiguous: match_views(self.ambiguous@),
            missing: identity_views(self.missing@),
            extra: user_views(self.extra@),
            protected: self.protected@.map_values(|p: (WpUser, String)| (p.0@, p.1@)),
        }
    }
}

impl Default for Plan {
    /// The plan with nothing in it.
    fn default() -> (r: Plan)
        ensures
            r@.matched.len() == 0,
            r@.ambiguous.len() == 0,
            r@.missing.len() == 0,
            r@.extra.len() == 0,
            r@.protected.len() == 0,
    {
        Plan {
            matched: Vec::new(),
            ambiguous: Vec::new(),
            missing: Vec::new(),
            extra: Vec::new(),
            protected: Vec::new(),
        }
    }
}

/// The identities among the first `upto`, sorted out: matched by one user,
/// by several, or by none.
pub open spec fn sort_identities(
    ids: Seq<IdentityView>,
    users: Seq<WpUserView>,
    strip: bool,
    gs: Seq<GroupView>,
    upto: int,
) -> (Seq<MatchView>, Seq<MatchView>, Seq<IdentityView>)
    decreases upto,
{
    if upto <= 0 {
        (Seq::empty(), Seq::empty(), Seq::empty())
    } else {
        let (m, a, mi) = sort_identities(ids, users, strip, gs, upto - 1);
        let i = upto - 1;
        let o = owners(ids, users, strip, gs, i);
        if o.len() == 0 {
            (m, a, mi.push(ids[i]))
        } else if o.len() == 1 {
            (m.push(MatchView { identity: ids[i], users: o }), a, mi)
        } else {
            (m, a.push(MatchView { identity: ids[i], users: o }), mi)
        }
    }
}

/// The users among the first `upto` whose class is not in the reference,
/// sorted out: to delete, or kept with the reason why.
pub open spec fn sort_surplus(
    ids: Seq<IdentityView>,
    users: Seq<WpUserView>,
    strip: bool,
    gs: Seq<GroupView>,
    p: ProtectionView,
    upto: int,
) -> (Seq<WpUserView>, Seq<(WpUserView, Seq<char>)>)
    decreases upto,
{
    if upto <= 0 {
        (Seq::empty(), Seq::empty())
    } else {
        let (e, pr) = sort_surplus(ids, users, strip, gs, p, upto - 1);
        let u = users[upto - 1];
        let c = user_class(u, strip, gs);
        if owner_index(ids, c) >= 0 {
            (e, pr)
        } else {
            match reason_spec(p, u, c) {
                Some(r) => (e, pr.push((u, r))),
                None => (e.push(u), pr),
            }
        }
    }
}

/// The plan of a reconciliation.
pub open spec fn plan_spec(
    ids: Seq<IdentityView>,
    users: Seq<WpUserView>,
    strip: bool,
    gs: Seq<GroupView>,
    p: ProtectionView,
) -> PlanView {
    let (m, a, mi) = sort_identities(ids, users, strip, gs, ids.len() as int);
    let (e, pr) = sort_surplus(ids, users, strip, gs, p, users.len() as int);
    PlanView { matched: m, ambiguous: a, missing: mi, extra: e, protected: pr }
}

/// Index of the last identity of class `class`, or the number of
/// identities when there is none.
fn last_with_class(ids: &Vec<Identity>, class: &str) -> (r: usize)
    ensures
        owner_index(identity_views(ids@), class@) == -1 ==> r == ids@.len(),
        owner_index(identity_views(ids@), class@) >= 0 ==> r == owner_index(identity_views(ids@), class@),
{
    let ghost iv = identity_views(ids@);
    let ghost c = class@;
    proof {
        lemma_owner_index(iv, c);
    }
    let n = ids.len();
    let mut i: usize = n;
    let mut done = false;
    while i > 0 && !done
        invariant
            i <= n,
            n == ids@.len(),
            iv == identity_views(ids@),
            c == class@,
            forall|k: int| i <= k < n ==> (#[trigger] iv[k]).class != c,
            done ==> i > 0 && iv[i - 1].class == c,
        decreases i, (if done { 0int } else { 1int }),
    {
        assert(iv[i - 1] == ids@[i - 1]@);
        if str_eq(ids[i - 1].class.as_str(), class) {
            done = true;
        } else {
            i = i - 1;
        }
    }
    if i == 0 {
        proof {
            if owner_index(iv, c) >= 0 {
                assert(iv[owner_index(iv, c)].class == c);
            }
        }
        n
    } else {
        proof {
            assert(iv[i - 1] == ids@[i - 1]@);
            assert(iv[i - 1].class == c);
            if owner_index(iv, c) < i - 1 {
                assert(iv[i - 1].class != c);
            }
            if owner_index(iv, c) > i - 1 {
                assert(iv[owner_index(iv, c)].class == c);
            }
        }
        i - 1
    }
}

/// Compares the reference identities with the WordPress users.
pub fn reconcile(
    reference: &Reference,
    users: &[WpUser],
    normalizer: &Normalizer,
    aliases: &AliasMap,
    protection: &Protection,
) -> (r: Plan)
    ensures
        r@ == plan_spec(
            identity_views(reference.identities@),
            user_views(users@),
            normalizer.strip_plus_tags,
            aliases@.groups,
            protection@,
        ),
{
    let ghost ids = identity_views(reference.identities@);
    let ghost us = user_views(users@);
    let ghost strip = normalizer.strip_plus_tags;
    let ghost gs = aliases@.groups;
    let ghost pv = protection@;
    let mut owner_of: Vec<usize> = Vec::new();
    let mut extra: Vec<WpUser> = Vec::new();
    let mut protected: Vec<(WpUser, String)> = Vec::new();
    let n = reference.identities.len();
    let mut j: usize = 0;
    assert(user_views(extra@) =~= Seq::<WpUserView>::empty());
    assert(protected@.map_values(|p: (WpUser, String)| (p.0@, p.1@)) =~= Seq::<(WpUserView, Seq<char>)>::empty());
    while j < users.len()
        invariant
            j <= users.len(),
            ids == identity_views(reference.identities@),
            us == user_views(users@),
            strip == normalizer.strip_plus_tags,
            gs == aliases@.groups,
            pv == protection@,
            n == ids.len(),
            owner_of@.len() == j,
            forall|k: int|
                0 <= k < j ==> {
                    let o = owner_index(ids, user_class(us[k], strip, gs));
                    &&& (o == -1 ==> #[trigger] owner_of@[k] == n)
                    &&& (o >= 0 ==> owner_of@[k] == o)
                },
            (user_views(extra@), protected@.map_values(|p: (WpUser, String)| (p.0@, p.1@))) == sort_surplus(
                ids,
                us,
                strip,
                gs,
                pv,
                j as int,
            ),
        decreases users.len() - j,
    {
        let user = &users[j];
        assert(us[j as int] == user@);
        let key = normalizer.normalize(user.email.as_str());
        let class = aliases.class_of(key.as_str());
        let ghost c = user_class(us[j as int], strip, gs);
        assert(class@ == c);
        proof {
            lemma_owner_index(ids, c);
        }
        let found = last_with_class(&reference.identities, class);
        proof {
            lemma_owner_index(ids, c);
        }
        let ghost old_e = user_views(extra@);
        let ghost old_p = protected@.map_values(|p: (WpUser, String)| (p.0@, p.1@));
        owner_of.push(found);
        if found == n {
            match protection.reason(user, class) {
                Some(reason) => {
                    protected.push((user.clone(), reason));
                    assert(protected@.map_values(|p: (WpUser, String)| (p.0@, p.1@)) =~= old_p.push((us[j as int], reason@)));
                },
                None => {
                    extra.push(user.clone());
                    assert(user_views(extra@) =~= old_e.push(us[j as int]));
                },
            }
        }
        j = j + 1;
    }
    let mut matched: Vec<IdentityMatch> = Vec::new();
    let mut ambiguous: Vec<IdentityMatch> = Vec::new();
    let mut missing: Vec<Identity> = Vec::new();
    let mut i: usize = 0;
    assert(match_views(matched@) =~= Seq::<MatchView>::empty());
    assert(match_views(ambiguous@) =~= Seq::<MatchView>::empty());
    assert(identity_views(missing@) =~= Seq::<IdentityView>::empty());
    while i < n
        invariant
            i <= n,
            n == ids.len(),
            ids == identity_views(reference.identities@),
            us == user_views(users@),
            owner_of@.len() == us.len(),
            forall|k: int|
                0 <= k < us.len() ==> {
                    let o = owner_index(ids, user_class(us[k], strip, gs));
                    &&& (o == -1 ==> #[trigger] owner_of@[k] == n)
                    &&& (o >= 0 ==> owner_of@[k] == o)
                },
            (match_views(matched@), match_views(ambiguous@), identity_views(missing@)) == sort_identities(
                ids,
                us,
                strip,
                gs,
                i as int,
            ),
        decreases n - i,
    {
        let ghost pred = |u: WpUserView| owner_index(ids, user_class(u, strip, gs)) == i;
        let mut owned: Vec<WpUser> = Vec::new();
        let mut k: usize = 0;
        while k < users.len()
            invariant
                k <= users.len(),
                i < n,
                n == ids.len(),
                us == user_views(users@),
                owner_of@.len() == us.len(),
                forall|k2: int|
                    0 <= k2 < us.len() ==> {
                        let o = owner_index(ids, user_class(us[k2], strip, gs));
                        &&& (o == -1 ==> #[trigger] owner_of@[k2] == n)
                        &&& (o >= 0 ==> owner_of@[k2] == o)
                    },
                pred == (|u: WpUserView| owner_index(ids, user_class(u, strip, gs)) == i),
                user_views(owned@) == us.subrange(0, k as int).filter(pred),
            decreases users.len() - k,
        {
            let ghost before = user_views(owned@);
            assert(us[k as int] == users@[k as int]@);
            if owner_of[k] == i {
                owned.push(users[k].clone());
            }
            proof {
                reveal_with_fuel(Seq::filter, 1);
                let pre = us.subrange(0, k as int);
                let post = us.subrange(0, k + 1);
                assert(post.drop_last() =~= pre);
                assert(post.last() == us[k as int]);
                lemma_owner_index(ids, user_class(us[k as int], strip, gs));
                if pred(us[k as int]) {
                    assert(user_views(owned@) =~= before.push(us[k as int]));
                } else {
                    assert(user_views(owned@) =~= before);
                }
            }
            k = k + 1;
        }
        assert(us.subrange(0, us.len() as int) =~= us);
        let identity = reference.identities[i].clone();
        assert(ids[i as int] == identity@);
        let ghost om = match_views(matched@);
        let ghost oa = match_views(ambiguous@);
        let ghost omi = identity_views(missing@);
        if owned.len() == 0 {
            missing.push(identity);
            assert(identity_views(missing@) =~= omi.push(ids[i as int]));
        } else if owned.len() == 1 {
            let ghost mv = MatchView { identity: identity@, users: user_views(owned@) };
            matched.push(IdentityMatch { identity, users: owned });
            assert(match_views(matched@) =~= om.push(mv));
        } else {
            let ghost mv = MatchView { identity: identity@, users: user_views(owned@) };
            ambiguous.push(IdentityMatch { identity, users: owned });
            assert(match_views(ambiguous@) =~= oa.push(mv));
        }
        i = i + 1;
    }
    Plan { matched, ambiguous, missing, extra, protected }
}


// ---------------------------------------------------------------------------
// Laws of the reconciliation
// ---------------------------------------------------------------------------

/// Law: the WordPress users set against an identity (matched, or
/// ambiguous) are users of that person: their address, resolved through the
/// aliases, is the class of the identity.
pub proof fn law_owners_share_the_class(
    ids: Seq<IdentityView>,
    us: Seq<WpUserView>,
    strip: bool,
    gs: Seq<GroupView>,
    i: int,
    j: int,
)
    requires
        0 <= j < owners(ids, us, strip, gs, i).len(),
    ensures
        owner_index(ids, user_class(owners(ids, us, strip, gs, i)[j], strip, gs)) == i,
        0 <= i < ids.len() ==> user_class(owners(ids, us, strip, gs, i)[j], strip, gs) == ids[i].class,
{
    let pred = |u: WpUserView| owner_index(ids, user_class(u, strip, gs)) == i;
    us.lemma_filter_pred(pred, j);
    lemma_owner_index(ids, user_class(owners(ids, us, strip, gs, i)[j], strip, gs));
}

/// The users to delete, among the first `upto`.
pub open spec fn surplus_extra(
    ids: Seq<IdentityView>,
    us: Seq<WpUserView>,
    strip: bool,
    gs: Seq<GroupView>,
    p: ProtectionView,
    upto: int,
) -> Seq<WpUserView> {
    sort_surplus(ids, us, strip, gs, p, upto).0
}

/// The users kept as protected, among the first `upto`.
pub open spec fn surplus_protected(
    ids: Seq<IdentityView>,
    us: Seq<WpUserView>,
    strip: bool,
    gs: Seq<GroupView>,
    p: ProtectionView,
    upto: int,
) -> Seq<(WpUserView, Seq<char>)> {
    sort_surplus(ids, us, strip, gs, p, upto).1
}

/// A user to delete: absent from the reference, and unprotected.
pub open spec fn deletable(ids: Seq<IdentityView>, strip: bool, gs: Seq<GroupView>, p: ProtectionView, x: WpUserView) -> bool {
    owner_index(ids, user_class(x, strip, gs)) == -1 && reason_spec(p, x, user_class(x, strip, gs)) is None
}

/// A user kept: absent from the reference, protected for reason `x.1`.
pub open spec fn kept(ids: Seq<IdentityView>, strip: bool, gs: Seq<GroupView>, p: ProtectionView, x: (WpUserView, Seq<char>)) -> bool {
    owner_index(ids, user_class(x.0, strip, gs)) == -1 && reason_spec(p, x.0, user_class(x.0, strip, gs)) == Some(x.1)
}

proof fn lemma_sort_surplus(
    ids: Seq<IdentityView>,
    us: Seq<WpUserView>,
    strip: bool,
    gs: Seq<GroupView>,
    p: ProtectionView,
    upto: int,
)
    requires
        0 <= upto <= us.len(),
    ensures
        forall|j: int|
            0 <= j < surplus_extra(ids, us, strip, gs, p, upto).len() ==> deletable(ids, strip, gs, p, #[trigger] surplus_extra(ids, us, strip, gs, p, upto)[j]),
        forall|j: int|
            0 <= j < surplus_protected(ids, us, strip, gs, p, upto).len() ==> kept(ids, strip, gs, p, #[trigger] surplus_protected(ids, us, strip, gs, p, upto)[j]),
        forall|k: int|
            0 <= k < upto && owner_index(ids, user_class(#[trigger] us[k], strip, gs)) == -1 ==> {
                let c = user_class(us[k], strip, gs);
                &&& reason_spec(p, us[k], c) is None ==> surplus_extra(ids, us, strip, gs, p, upto).contains(us[k])
                &&& reason_spec(p, us[k], c) is Some ==> surplus_protected(ids, us, strip, gs, p, upto).contains((us[k], reason_spec(p, us[k], c)->0))
            },
    decreases upto,
{
    if upto > 0 {
        lemma_sort_surplus(ids, us, strip, gs, p, upto - 1);
        let e0 = surplus_extra(ids, us, strip, gs, p, upto - 1);
        let pr0 = surplus_protected(ids, us, strip, gs, p, upto - 1);
        let e = surplus_extra(ids, us, strip, gs, p, upto);
        let pr = surplus_protected(ids, us, strip, gs, p, upto);
        let u = us[upto - 1];
        let c = user_class(u, strip, gs);
        lemma_owner_index(ids, c);
        if owner_index(ids, c) >= 0 {
            assert(e == e0 && pr == pr0);
        } else {
            match reason_spec(p, u, c) {
                Some(r) => {
                    assert(e == e0 && pr == pr0.push((u, r)));
                    assert(pr[pr.len() - 1] == (u, r));
                    assert forall|j: int| 0 <= j < pr.len() implies kept(ids, strip, gs, p, #[trigger] pr[j]) by {
                        if j < pr0.len() {
                            assert(pr[j] == pr0[j]);
                        }
                    }
                    assert forall|k: int|
                        0 <= k < upto - 1 && reason_spec(p, us[k], user_class(us[k], strip, gs)) is Some && owner_index(ids, user_class(#[trigger] us[k], strip, gs)) == -1
                        implies pr.contains((us[k], reason_spec(p, us[k], user_class(us[k], strip, gs))->0)) by {
                        let x = (us[k], reason_spec(p, us[k], user_class(us[k], strip, gs))->0);
                        let j = choose|j: int| 0 <= j < pr0.len() && pr0[j] == x;
                        assert(pr[j] == x);
                    }
                },
                None => {
                    assert(e == e0.push(u) && pr == pr0);
                    assert(e[e.len() - 1] == u);
                    assert forall|j: int| 0 <= j < e.len() implies deletable(ids, strip, gs, p, #[trigger] e[j]) by {
                        if j < e0.len() {
                            assert(e[j] == e0[j]);
                        }
                    }
                    assert forall|k: int|
                        0 <= k < upto - 1 && reason_spec(p, us[k], user_class(us[k], strip, gs)) is None && owner_index(ids, user_class(#[trigger] us[k], strip, gs)) == -1
                        implies e.contains(us[k]) by {
                        let j = choose|j: int| 0 <= j < e0.len() && e0[j] == us[k];
                        assert(e[j] == us[k]);
                    }
                },
            }
        }
    }
}

/// Identity `i` with the users it owns.
pub open spec fn match_of(ids: Seq<IdentityView>, us: Seq<WpUserView>, strip: bool, gs: Seq<GroupView>, i: int) -> MatchView {
    MatchView { identity: ids[i], users: owners(ids, us, strip, gs, i) }
}

/// The identities among the first `upto` matched by exactly one user.
pub open spec fn ids_matched(ids: Seq<IdentityView>, us: Seq<WpUserView>, strip: bool, gs: Seq<GroupView>, upto: int) -> Seq<MatchView> {
    sort_identities(ids, us, strip, gs, upto).0
}

/// The identities among the first `upto` matched by several users.
pub open spec fn ids_ambiguous(ids: Seq<IdentityView>, us: Seq<WpUserView>, strip: bool, gs: Seq<GroupView>, upto: int) -> Seq<MatchView> {
    sort_identities(ids, us, strip, gs, upto).1
}

/// The identities among the first `upto` matched by no user.
pub open spec fn ids_missing(ids: Seq<IdentityView>, us: Seq<WpUserView>, strip: bool, gs: Seq<GroupView>, upto: int) -> Seq<IdentityView> {
    sort_identities(ids, us, strip, gs, upto).2
}

/// `x` is the match of one of the first `upto` identities, owning `count`
/// users (`count` being 1, or 2 for "at least two").
pub open spec fn is_match_of(ids: Seq<IdentityView>, us: Seq<WpUserView>, strip: bool, gs: Seq<GroupView>, upto: int, x: MatchView, several: bool) -> bool {
    exists|i: int|
        0 <= i < upto && x == #[trigger] match_of(ids, us, strip, gs, i) && (if several {
            owners(ids, us, strip, gs, i).len() >= 2
        } else {
            owners(ids, us, strip, gs, i).len() == 1
        })
}

/// `x` is one of the first `upto` identities, owning no user.
pub open spec fn is_unowned(ids: Seq<IdentityView>, us: Seq<WpUserView>, strip: bool, gs: Seq<GroupView>, upto: int, x: IdentityView) -> bool {
    exists|i: int| 0 <= i < upto && x == #[trigger] ids[i] && owners(ids, us, strip, gs, i).len() == 0
}

proof fn lemma_sort_identities(
    ids: Seq<IdentityView>,
    us: Seq<WpUserView>,
    strip: bool,
    gs: Seq<GroupView>,
    upto: int,
)
    requires
        0 <= upto <= ids.len(),
    ensures
        forall|j: int|
            0 <= j < ids_matched(ids, us, strip, gs, upto).len() ==> is_match_of(ids, us, strip, gs, upto, #[trigger] ids_matched(ids, us, strip, gs, upto)[j], false),
        forall|j: int|
            0 <= j < ids_ambiguous(ids, us, strip, gs, upto).len() ==> is_match_of(ids, us, strip, gs, upto, #[trigger] ids_ambiguous(ids, us, strip, gs, upto)[j], true),
        forall|j: int|
            0 <= j < ids_missing(ids, us, strip, gs, upto).len() ==> is_unowned(ids, us, strip, gs, upto, #[trigger] ids_missing(ids, us, strip, gs, upto)[j]),
        forall|i: int|
            0 <= i < upto ==> {
                let o = #[trigger] owners(ids, us, strip, gs, i);
                &&& o.len() == 0 ==> ids_missing(ids, us, strip, gs, upto).contains(ids[i])
                &&& o.len() == 1 ==> ids_matched(ids, us, strip, gs, upto).contains(match_of(ids, us, strip, gs, i))
                &&& o.len() >= 2 ==> ids_ambiguous(ids, us, strip, gs, upto).contains(match_of(ids, us, strip, gs, i))
            },
    decreases upto,
{
    if upto > 0 {
        lemma_sort_identities(ids, us, strip, gs, upto - 1);
        let m0 = ids_matched(ids, us, strip, gs, upto - 1);
        let a0 = ids_ambiguous(ids, us, strip, gs, upto - 1);
        let mi0 = ids_missing(ids, us, strip, gs, upto - 1);
        let m = ids_matched(ids, us, strip, gs, upto);
        let a = ids_ambiguous(ids, us, strip, gs, upto);
        let mi = ids_missing(ids, us, strip, gs, upto);
        let i0 = upto - 1;
        let o0 = owners(ids, us, strip, gs, i0);
        let mv0 = match_of(ids, us, strip, gs, i0);
        if o0.len() == 0 {
            assert(m == m0 && a == a0 && mi == mi0.push(ids[i0]));
            assert(mi[mi.len() - 1] == ids[i0]);
        } else if o0.len() == 1 {
            assert(m == m0.push(mv0) && a == a0 && mi == mi0);
            assert(m[m.len() - 1] == mv0);
        } else {
            assert(m == m0 && a == a0.push(mv0) && mi == mi0);
            assert(a[a.len() - 1] == mv0);
        }
        assert forall|j: int| 0 <= j < m.len() implies is_match_of(ids, us, strip, gs, upto, #[trigger] m[j], false) by {
            if j < m0.len() {
                assert(m[j] == m0[j]);
                assert(is_match_of(ids, us, strip, gs, upto - 1, m0[j], false));
                let i = choose|i: int| 0 <= i < upto - 1 && m0[j] == #[trigger] match_of(ids, us, strip, gs, i)
                    && owners(ids, us, strip, gs, i).len() == 1;
            } else {
                assert(m[j] == match_of(ids, us, strip, gs, i0));
            }
        }
        assert forall|j: int| 0 <= j < a.len() implies is_match_of(ids, us, strip, gs, upto, #[trigger] a[j], true) by {
            if j < a0.len() {
                assert(a[j] == a0[j]);
                assert(is_match_of(ids, us, strip, gs, upto - 1, a0[j], true));
                let i = choose|i: int| 0 <= i < upto - 1 && a0[j] == #[trigger] match_of(ids, us, strip, gs, i)
                    && owners(ids, us, strip, gs, i).len() >= 2;
            } else {
                assert(a[j] == match_of(ids, us, strip, gs, i0));
            }
        }
        assert forall|j: int| 0 <= j < mi.len() implies is_unowned(ids, us, strip, gs, upto, #[trigger] mi[j]) by {
            if j < mi0.len() {
                assert(mi[j] == mi0[j]);
                assert(is_unowned(ids, us, strip, gs, upto - 1, mi0[j]));
                let i = choose|i: int| 0 <= i < upto - 1 && mi0[j] == #[trigger] ids[i]
                    && owners(ids, us, strip, gs, i).len() == 0;
            } else {
                assert(mi[j] == ids[i0]);
            }
        }
        assert forall|i: int| 0 <= i < upto implies {
                let o = #[trigger] owners(ids, us, strip, gs, i);
                &&& o.len() == 0 ==> mi.contains(ids[i])
                &&& o.len() == 1 ==> m.contains(match_of(ids, us, strip, gs, i))
                &&& o.len() >= 2 ==> a.contains(match_of(ids, us, strip, gs, i))
            } by {
            let o = owners(ids, us, strip, gs, i);
            let mv = match_of(ids, us, strip, gs, i);
            if i < i0 {
                if o.len() == 0 {
                    let j = choose|j: int| 0 <= j < mi0.len() && mi0[j] == ids[i];
                    assert(mi[j] == ids[i]);
                } else if o.len() == 1 {
                    let j = choose|j: int| 0 <= j < m0.len() && m0[j] == mv;
                    assert(m[j] == mv);
                } else {
                    let j = choose|j: int| 0 <= j < a0.len() && a0[j] == mv;
                    assert(a[j] == mv);
                }
            }
        }
    }
}

/// Law: every surplus user to delete is absent from the reference — its
/// address, resolved through the aliases, is the class of no identity — and
/// is neither a protected address (aliases included) nor, when
/// administrators are kept, an administrator; every user kept as protected
/// is absent from the reference and carries the reason that protects it.
pub proof fn law_surplus_is_absent_and_unprotected(
    ids: Seq<IdentityView>,
    us: Seq<WpUserView>,
    strip: bool,
    gs: Seq<GroupView>,
    p: ProtectionView,
)
    ensures
        forall|j: int|
            0 <= j < plan_spec(ids, us, strip, gs, p).extra.len() ==> {
                let e = #[trigger] plan_spec(ids, us, strip, gs, p).extra[j];
                let c = user_class(e, strip, gs);
                &&& forall|i: int| 0 <= i < ids.len() ==> ids[i].class != c
                &&& !p.classes.contains(c)
                &&& !(p.keep_administrators && is_administrator_spec(e))
            },
        forall|j: int|
            0 <= j < plan_spec(ids, us, strip, gs, p).protected.len() ==> {
                let pr = #[trigger] plan_spec(ids, us, strip, gs, p).protected[j];
                let c = user_class(pr.0, strip, gs);
                &&& forall|i: int| 0 <= i < ids.len() ==> ids[i].class != c
                &&& reason_spec(p, pr.0, c) == Some(pr.1)
            },
{
    lemma_sort_surplus(ids, us, strip, gs, p, us.len() as int);
    let plan = plan_spec(ids, us, strip, gs, p);
    assert(plan.extra == surplus_extra(ids, us, strip, gs, p, us.len() as int));
    assert(plan.protected == surplus_protected(ids, us, strip, gs, p, us.len() as int));
    assert forall|j: int| 0 <= j < plan.extra.len() implies {
            let e = #[trigger] plan.extra[j];
            let c = user_class(e, strip, gs);
            &&& forall|i: int| 0 <= i < ids.len() ==> ids[i].class != c
            &&& !p.classes.contains(c)
            &&& !(p.keep_administrators && is_administrator_spec(e))
        } by {
        let e = plan.extra[j];
        let c = user_class(e, strip, gs);
        assert(deletable(ids, strip, gs, p, e));
        lemma_owner_index(ids, c);
    }
    assert forall|j: int| 0 <= j < plan.protected.len() implies {
            let pr = #[trigger] plan.protected[j];
            let c = user_class(pr.0, strip, gs);
            &&& forall|i: int| 0 <= i < ids.len() ==> ids[i].class != c
            &&& reason_spec(p, pr.0, c) == Some(pr.1)
        } by {
        let x = plan.protected[j];
        let c = user_class(x.0, strip, gs);
        assert(kept(ids, strip, gs, p, x));
        lemma_owner_index(ids, c);
    }
}

/// Law: every WordPress user is accounted for. A user whose address
/// resolves to a reference identity belongs to the match of that identity
/// (so it is never deleted); any other user is either to delete or kept as
/// protected.
pub proof fn law_every_user_accounted_for(
    ids: Seq<IdentityView>,
    us: Seq<WpUserView>,
    strip: bool,
    gs: Seq<GroupView>,
    p: ProtectionView,
    k: int,
)
    requires
        0 <= k < us.len(),
    ensures
        ({
            let plan = plan_spec(ids, us, strip, gs, p);
            let c = user_class(us[k], strip, gs);
            let o = owner_index(ids, c);
            &&& o >= 0 ==> ids[o].class == c && owners(ids, us, strip, gs, o).contains(us[k]) && (
            plan.matched.contains(match_of(ids, us, strip, gs, o))
                || plan.ambiguous.contains(match_of(ids, us, strip, gs, o)))
            &&& o == -1 ==> {
                &&& forall|i: int| 0 <= i < ids.len() ==> ids[i].class != c
                &&& reason_spec(p, us[k], c) is None ==> plan.extra.contains(us[k])
                &&& reason_spec(p, us[k], c) is Some ==> plan.protected.contains(
                    (us[k], reason_spec(p, us[k], c)->0),
                )
            }
        }),
{
    let c = user_class(us[k], strip, gs);
    let o = owner_index(ids, c);
    let plan = plan_spec(ids, us, strip, gs, p);
    lemma_owner_index(ids, c);
    lemma_sort_surplus(ids, us, strip, gs, p, us.len() as int);
    lemma_sort_identities(ids, us, strip, gs, ids.len() as int);
    assert(plan.extra == surplus_extra(ids, us, strip, gs, p, us.len() as int));
    assert(plan.protected == surplus_protected(ids, us, strip, gs, p, us.len() as int));
    assert(plan.matched == ids_matched(ids, us, strip, gs, ids.len() as int));
    assert(plan.ambiguous == ids_ambiguous(ids, us, strip, gs, ids.len() as int));
    assert(us[k] == us[k]);
    if o >= 0 {
        let pred = |u: WpUserView| owner_index(ids, user_class(u, strip, gs)) == o;
        us.lemma_filter_contains(pred, k);
        let os = owners(ids, us, strip, gs, o);
        assert(os.contains(us[k]));
        assert(os.len() > 0);
    }
}

/// Law: every reference identity is sorted out once, by the number of
/// WordPress users of its class: none (to create), one (matched) or several
/// (ambiguous, left alone); the plan holds nothing else. In particular the
/// alias file never adds an identity to create.
pub proof fn law_identities_sorted_out(
    ids: Seq<IdentityView>,
    us: Seq<WpUserView>,
    strip: bool,
    gs: Seq<GroupView>,
    p: ProtectionView,
)
    ensures
        forall|i: int|
            0 <= i < ids.len() ==> {
                let o = #[trigger] owners(ids, us, strip, gs, i);
                let plan = plan_spec(ids, us, strip, gs, p);
                &&& o.len() == 0 ==> plan.missing.contains(ids[i])
                &&& o.len() == 1 ==> plan.matched.contains(match_of(ids, us, strip, gs, i))
                &&& o.len() >= 2 ==> plan.ambiguous.contains(match_of(ids, us, strip, gs, i))
            },
        forall|j: int|
            0 <= j < plan_spec(ids, us, strip, gs, p).missing.len() ==> is_unowned(
                ids,
                us,
                strip,
                gs,
                ids.len() as int,
                #[trigger] plan_spec(ids, us, strip, gs, p).missing[j],
            ),
        forall|j: int|
            0 <= j < plan_spec(ids, us, strip, gs, p).matched.len() ==> is_match_of(
                ids,
                us,
                strip,
                gs,
                ids.len() as int,
                #[trigger] plan_spec(ids, us, strip, gs, p).matched[j],
                false,
            ),
        forall|j: int|
            0 <= j < plan_spec(ids, us, strip, gs, p).ambiguous.len() ==> is_match_of(
                ids,
                us,
                strip,
                gs,
                ids.len() as int,
                #[trigger] plan_spec(ids, us, strip, gs, p).ambiguous[j],
                true,
            ),
{
    lemma_sort_identities(ids, us, strip, gs, ids.len() as int);
    let plan = plan_spec(ids, us, strip, gs, p);
    assert(plan.matched == ids_matched(ids, us, strip, gs, ids.len() as int));
    assert(plan.ambiguous == ids_ambiguous(ids, us, strip, gs, ids.len() as int));
    assert(plan.missing == ids_missing(ids, us, strip, gs, ids.len() as int));
}

/// Law: when the reference lists each person once (as an accepted reference
/// file does), an identity that has a WordPress account under any address of
/// its alias group is not to create.
pub proof fn law_present_identity_not_missing(
    ids: Seq<IdentityView>,
    us: Seq<WpUserView>,
    strip: bool,
    gs: Seq<GroupView>,
    p: ProtectionView,
    i: int,
    k: int,
)
    requires
        forall|a: int, b: int| 0 <= a < b < ids.len() ==> (#[trigger] ids[a]).class != (#[trigger] ids[b]).class,
        0 <= i < ids.len(),
        0 <= k < us.len(),
        user_class(us[k], strip, gs) == ids[i].class,
    ensures
        !plan_spec(ids, us, strip, gs, p).missing.contains(ids[i]),
        owners(ids, us, strip, gs, i).contains(us[k]),
{
    let c = ids[i].class;
    lemma_owner_index(ids, c);
    assert(owner_index(ids, c) == i) by {
        if owner_index(ids, c) > i {
            assert(ids[owner_index(ids, c)].class == c);
        }
    }
    let pred = |u: WpUserView| owner_index(ids, user_class(u, strip, gs)) == i;
    us.lemma_filter_contains(pred, k);
    assert(owners(ids, us, strip, gs, i).contains(us[k]));
    lemma_sort_identities(ids, us, strip, gs, ids.len() as int);
    let plan = plan_spec(ids, us, strip, gs, p);
    assert(plan.missing == ids_missing(ids, us, strip, gs, ids.len() as int));
    if plan.missing.contains(ids[i]) {
        let j = choose|j: int| 0 <= j < plan.missing.len() && plan.missing[j] == ids[i];
        assert(is_unowned(ids, us, strip, gs, ids.len() as int, plan.missing[j]));
        let i2 = choose|i2: int| 0 <= i2 < ids.len() && plan.missing[j] == #[trigger] ids[i2] && owners(ids, us, strip, gs, i2).len() == 0;
        if i2 != i {
            if i2 < i {
                assert(ids[i2].class != ids[i].class);
            } else {
                assert(ids[i].class != ids[i2].class);
            }
        }
        assert(owners(ids, us, strip, gs, i).len() > 0);
    }
}


/// The WordPress users of the class of an identity.
pub open spec fn users_for_spec(
    id: IdentityView,
    us: Seq<WpUserView>,
    strip: bool,
    gs: Seq<GroupView>,
) -> Seq<WpUserView> {
    us.filter(|u: WpUserView| user_class(u, strip, gs) == id.class)
}

/// The WordPress accounts of the person behind an identity, under any
/// address of its alias group.
pub fn users_for(identity: &Identity, users: &[WpUser], normalizer: &Normalizer, aliases: &AliasMap) -> (r: Vec<WpUser>)
    ensures
        user_views(r@) == users_for_spec(identity@, user_views(users@), normalizer.strip_plus_tags, aliases@.groups),
{
    let ghost us = user_views(users@);
    let ghost strip = normalizer.strip_plus_tags;
    let ghost gs = aliases@.groups;
    let ghost pred = |u: WpUserView| user_class(u, strip, gs) == identity@.class;
    let mut r: Vec<WpUser> = Vec::new();
    let mut k: usize = 0;
    while k < users.len()
        invariant
            k <= users.len(),
            us == user_views(users@),
            strip == normalizer.strip_plus_tags,
            gs == aliases@.groups,
            pred == (|u: WpUserView| user_class(u, strip, gs) == identity@.class),
            user_views(r@) == us.subrange(0, k as int).filter(pred),
        decreases users.len() - k,
    {
        let ghost before = user_views(r@);
        let user = &users[k];
        assert(us[k as int] == user@);
        let key = normalizer.normalize(user.email.as_str());
        let class = aliases.class_of(key.as_str());
        if str_eq(class, identity.class.as_str()) {
            r.push(user.clone());
        }
        proof {
            reveal_with_fuel(Seq::filter, 1);
            let pre = us.subrange(0, k as int);
            let post = us.subrange(0, k + 1);
            assert(post.drop_last() =~= pre);
            assert(post.last() == us[k as int]);
            if pred(us[k as int]) {
                assert(user_views(r@) =~= before.push(us[k as int]));
            } else {
                assert(user_views(r@) =~= before);
            }
        }
        k = k + 1;
    }
    assert(us.subrange(0, us.len() as int) =~= us);
    r
}


/// Two alias files naming the same sets of addresses on their lines give
/// every key the same class.
pub proof fn lemma_same_lines_same_classes(
    ls1: Seq<Seq<char>>,
    ls2: Seq<Seq<char>>,
    strip: bool,
    gs1: Seq<GroupView>,
    gs2: Seq<GroupView>,
)
    requires
        groups_ok(ls1, strip, gs1),
        groups_ok(ls2, strip, gs2),
        same_lines(ls1, ls2, strip),
    ensures
        same_classes(gs1, gs2),
{
    assert forall|k: Seq<char>| #[trigger] class_spec(gs1, k) == class_spec(gs2, k) by {
        law_alias_order_free(ls1, ls2, strip, gs1, gs2, k);
    }
}

proof fn lemma_owners_same_classes(
    ids: Seq<IdentityView>,
    us: Seq<WpUserView>,
    strip: bool,
    gs1: Seq<GroupView>,
    gs2: Seq<GroupView>,
    i: int,
)
    requires
        same_classes(gs1, gs2),
    ensures
        owners(ids, us, strip, gs1, i) == owners(ids, us, strip, gs2, i),
{
    let p1 = |u: WpUserView| owner_index(ids, user_class(u, strip, gs1)) == i;
    let p2 = |u: WpUserView| owner_index(ids, user_class(u, strip, gs2)) == i;
    assert forall|u: WpUserView| #[trigger] p1(u) == p2(u) by {
        assert(class_spec(gs1, normalize_spec(strip, u.email)) == class_spec(gs2, normalize_spec(strip, u.email)));
    }
    assert(p1 =~= p2);
}

proof fn lemma_sort_identities_same_classes(
    ids: Seq<IdentityView>,
    us: Seq<WpUserView>,
    strip: bool,
    gs1: Seq<GroupView>,
    gs2: Seq<GroupView>,
    upto: int,
)
    requires
        same_classes(gs1, gs2),
    ensures
        sort_identities(ids, us, strip, gs1, upto) == sort_identities(ids, us, strip, gs2, upto),
    decreases upto,
{
    if upto > 0 {
        lemma_sort_identities_same_classes(ids, us, strip, gs1, gs2, upto - 1);
        lemma_owners_same_classes(ids, us, strip, gs1, gs2, upto - 1);
    }
}

proof fn lemma_sort_surplus_same_classes(
    ids: Seq<IdentityView>,
    us: Seq<WpUserView>,
    strip: bool,
    gs1: Seq<GroupView>,
    gs2: Seq<GroupView>,
    p: ProtectionView,
    upto: int,
)
    requires
        same_classes(gs1, gs2),
    ensures
        sort_surplus(ids, us, strip, gs1, p, upto) == sort_surplus(ids, us, strip, gs2, p, upto),
    decreases upto,
{
    if upto > 0 {
        lemma_sort_surplus_same_classes(ids, us, strip, gs1, gs2, p, upto - 1);
        let u = us[upto - 1];
        assert(user_class(u, strip, gs1) == user_class(u, strip, gs2));
    }
}

/// Law: order carries no meaning in the alias file. Two alias files naming
/// the same sets of addresses on their lines, whatever the order of the
/// lines and of the addresses on each line, read the same reference file
/// into the same identities, and reconcile it with the site's users into
/// the same plan.
pub proof fn law_plan_alias_order_free(
    ls1: Seq<Seq<char>>,
    ls2: Seq<Seq<char>>,
    strip: bool,
    gs1: Seq<GroupView>,
    gs2: Seq<GroupView>,
    reference_lines: Seq<Seq<char>>,
    ids: Seq<IdentityView>,
    us: Seq<WpUserView>,
    p: ProtectionView,
)
    requires
        groups_ok(ls1, strip, gs1),
        groups_ok(ls2, strip, gs2),
        same_lines(ls1, ls2, strip),
    ensures
        reference_spec(reference_lines, strip, gs1) == reference_spec(reference_lines, strip, gs2),
        plan_spec(ids, us, strip, gs1, p) == plan_spec(ids, us, strip, gs2, p),
{
    lemma_same_lines_same_classes(ls1, ls2, strip, gs1, gs2);
    lemma_reference_same_classes(reference_lines, strip, gs1, gs2);
    lemma_sort_identities_same_classes(ids, us, strip, gs1, gs2, ids.len() as int);
    lemma_sort_surplus_same_classes(ids, us, strip, gs1, gs2, p, us.len() as int);
}


// ---------------------------------------------------------------------------
// Every user in exactly one place
// ---------------------------------------------------------------------------

/// The number of users in a list of matches.
pub open spec fn match_user_count(ms: Seq<MatchView>) -> nat
    decreases ms.len(),
{
    if ms.len() == 0 {
        0
    } else {
        match_user_count(ms.drop_last()) + ms.last().users.len()
    }
}

/// The number of users owned by the first `upto` identities.
pub open spec fn owned_count(
    ids: Seq<IdentityView>,
    us: Seq<WpUserView>,
    strip: bool,
    gs: Seq<GroupView>,
    upto: int,
) -> nat
    decreases upto,
{
    if upto <= 0 {
        0
    } else {
        owned_count(ids, us, strip, gs, upto - 1) + owners(ids, us, strip, gs, upto - 1).len()
    }
}

/// The users whose class is that of no identity.
pub open spec fn unowned_users(ids: Seq<IdentityView>, us: Seq<WpUserView>, strip: bool, gs: Seq<GroupView>) -> Seq<WpUserView> {
    us.filter(|u: WpUserView| owner_index(ids, user_class(u, strip, gs)) == -1)
}

proof fn lemma_sorted_identities_count(
    ids: Seq<IdentityView>,
    us: Seq<WpUserView>,
    strip: bool,
    gs: Seq<GroupView>,
    upto: int,
)
    ensures
        ({
            let (m, a, mi) = sort_identities(ids, us, strip, gs, upto);
            match_user_count(m) + match_user_count(a) == owned_count(ids, us, strip, gs, upto)
        }),
    decreases upto,
{
    if upto > 0 {
        lemma_sorted_identities_count(ids, us, strip, gs, upto - 1);
        let (m, a, mi) = sort_identities(ids, us, strip, gs, upto - 1);
        let o = owners(ids, us, strip, gs, upto - 1);
        let mv = MatchView { identity: ids[upto - 1], users: o };
        assert(m.push(mv).drop_last() =~= m);
        assert(a.push(mv).drop_last() =~= a);
    }
}

proof fn lemma_sorted_surplus_count(
    ids: Seq<IdentityView>,
    us: Seq<WpUserView>,
    strip: bool,
    gs: Seq<GroupView>,
    p: ProtectionView,
    upto: int,
)
    requires
        0 <= upto <= us.len(),
    ensures
        ({
            let (e, pr) = sort_surplus(ids, us, strip, gs, p, upto);
            e.len() + pr.len() == unowned_users(ids, us.take(upto), strip, gs).len()
        }),
    decreases upto,
{
    let pred = |u: WpUserView| owner_index(ids, user_class(u, strip, gs)) == -1;
    if upto > 0 {
        lemma_sorted_surplus_count(ids, us, strip, gs, p, upto - 1);
        reveal_with_fuel(Seq::filter, 1);
        let t = us.take(upto);
        assert(t.drop_last() =~= us.take(upto - 1));
        assert(t.last() == us[upto - 1]);
        assert(unowned_users(ids, t, strip, gs) == t.filter(pred));
        assert(unowned_users(ids, us.take(upto - 1), strip, gs) == us.take(upto - 1).filter(pred));
        let (e0, pr0) = sort_surplus(ids, us, strip, gs, p, upto - 1);
        let u = us[upto - 1];
        lemma_owner_index(ids, user_class(u, strip, gs));
        if pred(u) {
            assert(t.filter(pred) == us.take(upto - 1).filter(pred).push(u));
        } else {
            assert(t.filter(pred) == us.take(upto - 1).filter(pred));
        }
    } else {
        assert(us.take(upto) =~= Seq::<WpUserView>::empty());
        assert(unowned_users(ids, us.take(upto), strip, gs) =~= Seq::<WpUserView>::empty());
    }
}

proof fn lemma_owned_count_push(
    ids: Seq<IdentityView>,
    pre: Seq<WpUserView>,
    u: WpUserView,
    strip: bool,
    gs: Seq<GroupView>,
    upto: int,
)
    ensures
        owned_count(ids, pre.push(u), strip, gs, upto) == owned_count(ids, pre, strip, gs, upto) + if 0
            <= owner_index(ids, user_class(u, strip, gs)) < upto {
            1nat
        } else {
            0nat
        },
    decreases upto,
{
    if upto > 0 {
        lemma_owned_count_push(ids, pre, u, strip, gs, upto - 1);
        reveal_with_fuel(Seq::filter, 1);
        assert(pre.push(u).drop_last() =~= pre);
    }
}

proof fn lemma_users_split(ids: Seq<IdentityView>, us: Seq<WpUserView>, strip: bool, gs: Seq<GroupView>)
    ensures
        owned_count(ids, us, strip, gs, ids.len() as int) + unowned_users(ids, us, strip, gs).len() == us.len(),
    decreases us.len(),
{
    if us.len() == 0 {
        lemma_owned_count_empty(ids, us, strip, gs, ids.len() as int);
        assert(unowned_users(ids, us, strip, gs) =~= Seq::<WpUserView>::empty());
    } else {
        let pre = us.drop_last();
        let u = us.last();
        lemma_users_split(ids, pre, strip, gs);
        assert(pre.push(u) =~= us);
        lemma_owned_count_push(ids, pre, u, strip, gs, ids.len() as int);
        lemma_owner_index(ids, user_class(u, strip, gs));
        reveal_with_fuel(Seq::filter, 1);
    }
}

proof fn lemma_owned_count_empty(
    ids: Seq<IdentityView>,
    us: Seq<WpUserView>,
    strip: bool,
    gs: Seq<GroupView>,
    upto: int,
)
    requires
        us.len() == 0,
    ensures
        owned_count(ids, us, strip, gs, upto) == 0,
    decreases upto,
{
    if upto > 0 {
        lemma_owned_count_empty(ids, us, strip, gs, upto - 1);
        assert(owners(ids, us, strip, gs, upto - 1) =~= Seq::<WpUserView>::empty());
    }
}

/// Law: no user is counted twice: the users of the matches, of the
/// ambiguous identities, to delete and kept as protected add up to the
/// users of the site (and, by `law_every_user_accounted_for`, each of them
/// is in one of these places).
pub proof fn law_users_counted_once(
    ids: Seq<IdentityView>,
    us: Seq<WpUserView>,
    strip: bool,
    gs: Seq<GroupView>,
    p: ProtectionView,
)
    ensures
        ({
            let plan = plan_spec(ids, us, strip, gs, p);
            match_user_count(plan.matched) + match_user_count(plan.ambiguous) + plan.extra.len()
                + plan.protected.len() == us.len()
        }),
{
    lemma_sorted_identities_count(ids, us, strip, gs, ids.len() as int);
    lemma_sorted_surplus_count(ids, us, strip, gs, p, us.len() as int);
    assert(us.take(us.len() as int) =~= us);
    lemma_users_split(ids, us, strip, gs);
}


proof fn lemma_sorted_identities_len(
    ids: Seq<IdentityView>,
    us: Seq<WpUserView>,
    strip: bool,
    gs: Seq<GroupView>,
    upto: int,
)
    requires
        upto >= 0,
    ensures
        ({
            let (m, a, mi) = sort_identities(ids, us, strip, gs, upto);
            m.len() + a.len() + mi.len() == upto
        }),
    decreases upto,
{
    if upto > 0 {
        lemma_sorted_identities_len(ids, us, strip, gs, upto - 1);
    }
}

/// Law: every identity of the reference is sorted out once: the matched,
/// the ambiguous and the missing identities add up to the reference (and,
/// by `law_identities_sorted_out`, each identity is in the list its number
/// of accounts calls for).
pub proof fn law_identities_counted_once(
    ids: Seq<IdentityView>,
    us: Seq<WpUserView>,
    strip: bool,
    gs: Seq<GroupView>,
    p: ProtectionView,
)
    ensures
        ({
            let plan = plan_spec(ids, us, strip, gs, p);
            plan.matched.len() + plan.ambiguous.len() + plan.missing.len() == ids.len()
        }),
{
    lemma_sorted_identities_len(ids, us, strip, gs, ids.len() as int);
}


/// Law: a surplus user is kept only for the two reasons the options give:
/// its address (aliases included) is a protected one, and the reason says
/// "protected e-mail"; or administrators are kept and its roles include
/// `administrator`, and the reason says "administrator". A user whose class
/// is that of no identity and that neither reason covers is to delete.
pub proof fn law_protection_only_by_address_or_administrator(
    ids: Seq<IdentityView>,
    us: Seq<WpUserView>,
    strip: bool,
    gs: Seq<GroupView>,
    p: ProtectionView,
)
    ensures
        forall|j: int|
            0 <= j < plan_spec(ids, us, strip, gs, p).protected.len() ==> {
                let pr = #[trigger] plan_spec(ids, us, strip, gs, p).protected[j];
                let c = user_class(pr.0, strip, gs);
                ||| p.classes.contains(c) && pr.1 == "protected e-mail"@
                ||| !p.classes.contains(c) && p.keep_administrators && pr.0.roles.contains(
                    "administrator"@,
                ) && pr.1 == "administrator"@
            },
        forall|k: int|
            0 <= k < us.len() && (forall|i: int| 0 <= i < ids.len() ==> ids[i].class != user_class(#[trigger] us[k], strip, gs))
                && !p.classes.contains(user_class(us[k], strip, gs)) && !(p.keep_administrators
                && us[k].roles.contains("administrator"@)) ==> plan_spec(ids, us, strip, gs, p).extra.contains(us[k]),
{
    law_surplus_is_absent_and_unprotected(ids, us, strip, gs, p);
    let plan = plan_spec(ids, us, strip, gs, p);
    assert forall|j: int| 0 <= j < plan.protected.len() implies {
        let pr = #[trigger] plan.protected[j];
        let c = user_class(pr.0, strip, gs);
        ||| p.classes.contains(c) && pr.1 == "protected e-mail"@
        ||| !p.classes.contains(c) && p.keep_administrators && pr.0.roles.contains("administrator"@) && pr.1
            == "administrator"@
    } by {
        let pr = plan.protected[j];
        let c = user_class(pr.0, strip, gs);
        assert(reason_spec(p, pr.0, c) == Some(pr.1));
    }
    assert forall|k: int|
        0 <= k < us.len() && (forall|i: int| 0 <= i < ids.len() ==> ids[i].class != user_class(#[trigger] us[k], strip, gs))
            && !p.classes.contains(user_class(us[k], strip, gs)) && !(p.keep_administrators && us[k].roles.contains(
            "administrator"@,
        )) implies plan.extra.contains(us[k]) by {
        let c = user_class(us[k], strip, gs);
        law_every_user_accounted_for(ids, us, strip, gs, p, k);
        lemma_owner_index(ids, c);
        if owner_index(ids, c) >= 0 {
            assert(ids[owner_index(ids, c)].class == c);
        }
        assert(reason_spec(p, us[k], c) is None);
    }
}

} // verus!
