//! The decisions the subcommands take before and between their exchanges
//! with WordPress and with the user.

use vstd::prelude::*;

use crate::aliases::{alias_fault, class_spec, groups_ok, AliasError, AliasMap};
use crate::batch::{batch_next, batch_step, batch_wf, BatchAction, BatchEvent, BatchState, batch_start};
use crate::cli::GlobalArgs;
use crate::provision::NewUserView;
use crate::reconcile::{
    law_surplus_is_absent_and_unprotected, plan_spec, user_class, Protection, ProtectionView,
};
use crate::reference::{
    identity_views, normalize_spec, reference_spec, Identity, Normalizer, Reference, ReferenceError,
    ReferenceFault,
};
use crate::text::{chars_of, lowercase, push_str, str_eq, to_lowercase, trim, trim_chars};
use crate::wp::{string_views, user_views, NewUser, WpUser};

verus! {

/// The normalizer the options ask for.
pub fn normalizer(global: &GlobalArgs) -> (r: Normalizer)
    ensures
        r.strip_plus_tags == global.strip_plus_tags,
{
    Normalizer { strip_plus_tags: global.strip_plus_tags }
}

/// The alias map the options ask for: none without an alias file, else the
/// map read from `content`, the content of that file. The alias file is
/// optional: without one, every address stands for itself.
pub fn load_aliases(global: &GlobalArgs, content: &str) -> (r: Result<AliasMap, AliasError>)
    ensures
        match global.aliases {
            None => r matches Ok(m) && m@.path is None && m@.groups.len() == 0,
            Some(path) => match r {
                Ok(m) => {
                    &&& alias_fault(crate::text::lines(content@), global.strip_plus_tags) is None
                    &&& m@.path == Some(path@)
                    &&& groups_ok(crate::text::lines(content@), global.strip_plus_tags, m@.groups)
                },
                Err(e) => alias_fault(crate::text::lines(content@), global.strip_plus_tags)
                    == Some(e@),
            },
        },
{
    match &global.aliases {
        None => Ok(AliasMap::empty()),
        Some(path) => AliasMap::from_file_content(path.as_str(), content, &normalizer(global)),
    }
}

/// The reference the options ask for, read from `content`, the content of
/// the reference file; nothing when no reference file is given.
pub fn load_reference(global: &GlobalArgs, aliases: &AliasMap, content: &str) -> (r: Option<
    Result<Reference, ReferenceError>,
>)
    ensures
        match global.reference {
            None => r is None,
            Some(path) => match reference_spec(
                crate::text::lines(content@),
                global.strip_plus_tags,
                aliases@.groups,
            ) {
                Err(f) => r matches Some(Err(e)) && e@ == f,
                Ok(ids) => if ids.len() == 0 {
                    r matches Some(Err(e)) && e@ == (ReferenceFault::Empty { path: path@ })
                } else {
                    r matches Some(Ok(rf)) && rf.path@ == path@ && identity_views(rf.identities@)
                        == ids
                },
            },
        },
{
    match &global.reference {
        None => None,
        Some(path) => Some(Reference::from_file_content(path.as_str(), content, &normalizer(global), aliases)),
    }
}

/// The key identifying the owner of a raw address.
pub open spec fn class_of_spec(gs: Seq<crate::aliases::GroupView>, strip: bool, email: Seq<char>) -> Seq<char> {
    class_spec(gs, normalize_spec(strip, email))
}

/// Resolves a raw address to the key identifying its owner.
pub fn class_of(aliases: &AliasMap, normalizer: &Normalizer, email: &str) -> (r: String)
    ensures
        r@ == class_of_spec(aliases@.groups, normalizer.strip_plus_tags, email@),
{
    let key = normalizer.normalize(email);
    aliases.class_of(key.as_str()).to_owned()
}

/// The message for a missing credential.
pub open spec fn missing_credentials(flag: Seq<char>, env: Seq<char>) -> Seq<char> {
    "missing WordPress credentials: pass "@ + flag + " or set "@ + env
}

/// A credential option, when it is given and not blank.
pub fn required<'a>(value: &'a Option<String>, flag: &str, env: &str) -> (r: Result<&'a str, String>)
    ensures
        match value {
            Some(v) if trim(v@).len() > 0 => r matches Ok(s) && s@ == v@,
            _ => r matches Err(m) && m@ == missing_credentials(flag@, env@),
        },
{
    if let Some(v) = value {
        let t = trim_chars(chars_of(v.as_str()).as_slice());
        if t.len() > 0 {
            return Ok(v.as_str());
        }
    }
    let mut m = "missing WordPress credentials: pass ".to_owned();
    push_str(&mut m, flag);
    push_str(&mut m, " or set ");
    push_str(&mut m, env);
    Err(m)
}

/// The protection of a session: the classes of the protected addresses that
/// are not blank, followed by the class of the authenticated account, which
/// is always kept; administrators are kept unless their deletion is asked.
pub open spec fn protection_spec(
    protect: Seq<Seq<char>>,
    delete_administrators: bool,
    gs: Seq<crate::aliases::GroupView>,
    strip: bool,
    me_email: Seq<char>,
) -> ProtectionView {
    ProtectionView {
        classes: protect.filter(|e: Seq<char>| trim(e).len() > 0).map_values(
            |e: Seq<char>| class_of_spec(gs, strip, e),
        ).push(class_of_spec(gs, strip, me_email)),
        keep_administrators: !delete_administrators,
    }
}

/// The protection of a session authenticated as `me_email`.
pub fn protection_for(global: &GlobalArgs, aliases: &AliasMap, normalizer: &Normalizer, me_email: &str) -> (r: Protection)
    ensures
        r@ == protection_spec(
            string_views(global.protect@),
            global.delete_administrators,
            aliases@.groups,
            normalizer.strip_plus_tags,
            me_email@,
        ),
{
    let ghost pv = string_views(global.protect@);
    let ghost gs = aliases@.groups;
    let ghost strip = normalizer.strip_plus_tags;
    let ghost pred = |e: Seq<char>| trim(e).len() > 0;
    let ghost f = |e: Seq<char>| class_of_spec(gs, strip, e);
    let mut classes: Vec<String> = Vec::new();
    let mut i: usize = 0;
    while i < global.protect.len()
        invariant
            i <= global.protect.len(),
            pv == string_views(global.protect@),
            gs == aliases@.groups,
            strip == normalizer.strip_plus_tags,
            pred == (|e: Seq<char>| trim(e).len() > 0),
            f == (|e: Seq<char>| class_of_spec(gs, strip, e)),
            string_views(classes@) == pv.subrange(0, i as int).filter(pred).map_values(f),
        decreases global.protect.len() - i,
    {
        let ghost before = string_views(classes@);
        let e = global.protect[i].as_str();
        assert(pv[i as int] == e@);
        let t = trim_chars(chars_of(e).as_slice());
        if t.len() > 0 {
            classes.push(class_of(aliases, normalizer, e));
        }
        proof {
            reveal_with_fuel(Seq::filter, 1);
            let pre = pv.subrange(0, i as int);
            let post = pv.subrange(0, i + 1);
            assert(post.drop_last() =~= pre);
            assert(post.last() == e@);
            if pred(e@) {
                assert(post.filter(pred) == pre.filter(pred).push(e@));
                assert(pre.filter(pred).push(e@).map_values(f) =~= pre.filter(pred).map_values(f).push(f(e@)));
                assert(string_views(classes@) =~= before.push(f(e@)));
            } else {
                assert(post.filter(pred) == pre.filter(pred));
                assert(string_views(classes@) =~= before);
            }
        }
        i = i + 1;
    }
    assert(pv.subrange(0, pv.len() as int) =~= pv);
    let ghost before = string_views(classes@);
    classes.push(class_of(aliases, normalizer, me_email));
    assert(string_views(classes@) =~= before.push(class_of_spec(gs, strip, me_email@)));
    Protection { classes, keep_administrators: !global.delete_administrators }
}

/// Whether the reference lists the person behind an identity.
pub fn is_listed(reference: &Reference, identity: &Identity) -> (r: bool)
    ensures
        r == exists|i: int|
            0 <= i < reference.identities@.len() && (#[trigger] identity_views(reference.identities@)[i]).class
                == identity@.class,
{
    let ghost ids = identity_views(reference.identities@);
    let mut i: usize = 0;
    while i < reference.identities.len()
        invariant
            i <= reference.identities.len(),
            ids == identity_views(reference.identities@),
            forall|j: int| 0 <= j < i ==> (#[trigger] ids[j]).class != identity@.class,
        decreases reference.identities.len() - i,
    {
        assert(ids[i as int] == reference.identities@[i as int]@);
        if str_eq(reference.identities[i].class.as_str(), identity.class.as_str()) {
            return true;
        }
        i = i + 1;
    }
    false
}

/// The usernames already taken on the site, lowercased.
pub fn taken_usernames(users: &[WpUser]) -> (r: Vec<String>)
    ensures
        string_views(r@) == user_views(users@).map_values(|u: crate::wp::WpUserView| lowercase(u.username)),
{
    let mut r: Vec<String> = Vec::new();
    let mut i: usize = 0;
    while i < users.len()
        invariant
            i <= users.len(),
            r@.len() == i,
            forall|j: int| 0 <= j < i ==> (#[trigger] r@[j])@ == lowercase(users@[j]@.username),
        decreases users.len() - i,
    {
        r.push(to_lowercase(users[i].username.as_str()));
        i = i + 1;
    }
    assert(string_views(r@) =~= user_views(users@).map_values(|u: crate::wp::WpUserView| lowercase(u.username)));
    r
}


/// Law: in a session, no user to delete is the authenticated account, nor
/// an address given with `--protect`, nor an alias of either; and no
/// administrator is deleted unless their deletion is asked.
pub proof fn law_session_never_deletes_protected(
    ids: Seq<crate::reference::IdentityView>,
    us: Seq<crate::wp::WpUserView>,
    strip: bool,
    gs: Seq<crate::aliases::GroupView>,
    protect: Seq<Seq<char>>,
    delete_administrators: bool,
    me_email: Seq<char>,
)
    ensures
        forall|j: int|
            0 <= j < plan_spec(ids, us, strip, gs, protection_spec(protect, delete_administrators, gs, strip, me_email)).extra.len()
                ==> {
                let e = #[trigger] plan_spec(ids, us, strip, gs, protection_spec(protect, delete_administrators, gs, strip, me_email)).extra[j];
                &&& user_class(e, strip, gs) != class_of_spec(gs, strip, me_email)
                &&& forall|q: int|
                    0 <= q < protect.len() && trim(protect[q]).len() > 0 ==> user_class(e, strip, gs)
                        != class_of_spec(gs, strip, #[trigger] protect[q])
                &&& !delete_administrators ==> !crate::wp::is_administrator_spec(e)
            },
{
    let p = protection_spec(protect, delete_administrators, gs, strip, me_email);
    let plan = plan_spec(ids, us, strip, gs, p);
    law_surplus_is_absent_and_unprotected(ids, us, strip, gs, p);
    let pred = |e: Seq<char>| trim(e).len() > 0;
    let f = |e: Seq<char>| class_of_spec(gs, strip, e);
    let kept = protect.filter(pred);
    assert forall|j: int| 0 <= j < plan.extra.len() implies {
            let e = #[trigger] plan.extra[j];
            &&& user_class(e, strip, gs) != class_of_spec(gs, strip, me_email)
            &&& forall|q: int|
                0 <= q < protect.len() && trim(protect[q]).len() > 0 ==> user_class(e, strip, gs)
                    != class_of_spec(gs, strip, #[trigger] protect[q])
            &&& !delete_administrators ==> !crate::wp::is_administrator_spec(e)
        } by {
        let e = plan.extra[j];
        let c = user_class(e, strip, gs);
        assert(!p.classes.contains(c));
        let cl = kept.map_values(f);
        assert(p.classes[cl.len() as int] == class_of_spec(gs, strip, me_email));
        assert forall|q: int|
            0 <= q < protect.len() && trim(protect[q]).len() > 0 implies c != class_of_spec(gs, strip, #[trigger] protect[q]) by {
            protect.lemma_filter_contains(pred, q);
            let k = choose|k: int| 0 <= k < kept.len() && kept[k] == protect[q];
            assert(cl[k] == f(protect[q]));
            assert(p.classes[k] == cl[k]);
        }
    }
}


// ---------------------------------------------------------------------------
// Deleting the surplus users
// ---------------------------------------------------------------------------

/// Where the deletion of the surplus users stands.
#[derive(Debug)]
pub struct DeletionState {
    pub batch: BatchState,
    /// The ids of the users to delete, in the order of the plan.
    pub ids: Vec<u64>,
    /// The user inheriting their content, if any.
    pub reassign: Option<u64>,
}

/// What happened since the last action of a deletion.
#[derive(Debug, Clone, Copy)]
pub enum DeletionEvent {
    Start,
    /// The user answered: `phrase_ok` when the word `delete` was typed back.
    Answered { phrase_ok: bool },
    /// No terminal to ask the question in.
    NoTerminal,
    /// The deletion under way is over.
    Deleted { ok: bool },
}

/// What to do next in a deletion.
#[derive(Debug, Clone, Copy)]
pub enum DeletionAction {
    /// Ask for the word `delete` (`assumed` under `--yes`).
    Ask { assumed: bool },
    /// Delete this user, handing its content to `reassign`.
    Delete { id: u64, reassign: Option<u64> },
    /// The user declined: nothing is deleted.
    Abort,
    /// No answer can be had: nothing is deleted, and that is an error.
    Refuse,
    /// Over: `Ok` with the number of users deleted, `Err` with the number of
    /// failures.
    Done(Result<usize, usize>),
    /// The event does not fit: nothing to do.
    Ignore,
}

/// A deletion is a batch over its users.
pub open spec fn deletion_wf(s: DeletionState) -> bool {
    batch_wf(s.batch) && s.batch.total == s.ids@.len()
}

/// The batch event a deletion event is.
pub open spec fn deletion_event(e: DeletionEvent) -> BatchEvent {
    match e {
        DeletionEvent::Start => BatchEvent::Start,
        DeletionEvent::Answered { phrase_ok } => BatchEvent::Answered { yes: phrase_ok },
        DeletionEvent::NoTerminal => BatchEvent::NoTerminal,
        DeletionEvent::Deleted { ok } => BatchEvent::Finished { ok },
    }
}

/// The deletion action a batch action is: change number `i` is the
/// deletion of the `i`-th user.
pub open spec fn deletion_action(a: BatchAction, ids: Seq<u64>, reassign: Option<u64>) -> DeletionAction {
    match a {
        BatchAction::Ask { assumed } => DeletionAction::Ask { assumed },
        BatchAction::Run(i) => DeletionAction::Delete { id: ids[i as int], reassign },
        BatchAction::Abort => DeletionAction::Abort,
        BatchAction::Refuse => DeletionAction::Refuse,
        BatchAction::Done(r) => DeletionAction::Done(r),
        BatchAction::Ignore => DeletionAction::Ignore,
    }
}

impl DeletionState {
    /// The deletion of `users`, in their order, not started.
    pub fn new(users: &[WpUser], reassign: Option<u64>, assume_yes: bool) -> (r: DeletionState)
        ensures
            deletion_wf(r),
            r.ids@ == user_views(users@).map_values(|u: crate::wp::WpUserView| u.id),
            r.reassign == reassign,
            r.batch == batch_start(users@.len() as usize, assume_yes),
    {
        let mut ids: Vec<u64> = Vec::new();
        let mut i: usize = 0;
        while i < users.len()
            invariant
                i <= users.len(),
                ids@ == user_views(users@).subrange(0, i as int).map_values(|u: crate::wp::WpUserView| u.id),
            decreases users.len() - i,
        {
            ids.push(users[i].id);
            assert(user_views(users@).subrange(0, i + 1).map_values(|u: crate::wp::WpUserView| u.id)
                =~= user_views(users@).subrange(0, i as int).map_values(|u: crate::wp::WpUserView| u.id).push(users@[i as int].id));
            i = i + 1;
        }
        assert(user_views(users@).subrange(0, users@.len() as int) =~= user_views(users@));
        DeletionState { batch: BatchState::new(users.len(), assume_yes), ids, reassign }
    }
}

/// The step of a deletion: nothing is deleted before the word `delete` was
/// typed back (or `--yes` given), then each user once, in order; the
/// outcome is an error exactly when some deletion failed (see the laws of
/// `crate::batch`).
pub fn deletion_step(state: DeletionState, event: DeletionEvent) -> (r: (DeletionState, DeletionAction))
    requires
        deletion_wf(state),
    ensures
        deletion_wf(r.0),
        r.0.ids@ == state.ids@,
        r.0.reassign == state.reassign,
        r.0.batch == batch_next(state.batch, deletion_event(event)).0,
        r.1 == deletion_action(batch_next(state.batch, deletion_event(event)).1, state.ids@, state.reassign),
{
    let e = match event {
        DeletionEvent::Start => BatchEvent::Start,
        DeletionEvent::Answered { phrase_ok } => BatchEvent::Answered { yes: phrase_ok },
        DeletionEvent::NoTerminal => BatchEvent::NoTerminal,
        DeletionEvent::Deleted { ok } => BatchEvent::Finished { ok },
    };
    let (batch, a) = batch_step(state.batch, e);
    let action = match a {
        BatchAction::Ask { assumed } => DeletionAction::Ask { assumed },
        BatchAction::Run(i) => DeletionAction::Delete { id: state.ids[i], reassign: state.reassign },
        BatchAction::Abort => DeletionAction::Abort,
        BatchAction::Refuse => DeletionAction::Refuse,
        BatchAction::Done(r) => DeletionAction::Done(r),
        BatchAction::Ignore => DeletionAction::Ignore,
    };
    (DeletionState { batch, ids: state.ids, reassign: state.reassign }, action)
}

// ---------------------------------------------------------------------------
// Creating the missing users
// ---------------------------------------------------------------------------

/// Where the creation of the missing users stands: a batch over the
/// payloads built for them (see `new_users_for`).
#[derive(Debug, Clone, Copy)]
pub struct CreationState {
    pub batch: BatchState,
}

/// What happened since the last action of a creation.
#[derive(Debug, Clone, Copy)]
pub enum CreationEvent {
    Start,
    /// The user answered the yes/no question.
    Answered { yes: bool },
    /// No terminal to ask the question in.
    NoTerminal,
    /// The creation under way is over.
    Created { ok: bool },
}

/// What to do next in a creation.
#[derive(Debug, Clone, Copy)]
pub enum CreationAction {
    /// Ask for a yes (`assumed` under `--yes`).
    Ask { assumed: bool },
    /// Create the user of payload number `i`.
    Create(usize),
    /// The user declined: nothing is created.
    Abort,
    /// No answer can be had: nothing is created, and that is an error.
    Refuse,
    /// Over: `Ok` with the number of users created, `Err` with the number of
    /// failures.
    Done(Result<usize, usize>),
    /// The event does not fit: nothing to do.
    Ignore,
}

/// The batch event a creation event is.
pub open spec fn creation_event(e: CreationEvent) -> BatchEvent {
    match e {
        CreationEvent::Start => BatchEvent::Start,
        CreationEvent::Answered { yes } => BatchEvent::Answered { yes },
        CreationEvent::NoTerminal => BatchEvent::NoTerminal,
        CreationEvent::Created { ok } => BatchEvent::Finished { ok },
    }
}

/// The creation action a batch action is: change number `i` is the
/// creation of payload `i`.
pub open spec fn creation_action(a: BatchAction) -> CreationAction {
    match a {
        BatchAction::Ask { assumed } => CreationAction::Ask { assumed },
        BatchAction::Run(i) => CreationAction::Create(i),
        BatchAction::Abort => CreationAction::Abort,
        BatchAction::Refuse => CreationAction::Refuse,
        BatchAction::Done(r) => CreationAction::Done(r),
        BatchAction::Ignore => CreationAction::Ignore,
    }
}

impl CreationState {
    /// The creation of the users of `payloads`, in order, not started.
    pub fn new(payloads: &[(NewUser, String)], assume_yes: bool) -> (r: CreationState)
        ensures
            batch_wf(r.batch),
            r.batch == batch_start(payloads@.len() as usize, assume_yes),
    {
        CreationState { batch: BatchState::new(payloads.len(), assume_yes) }
    }
}

/// The step of a creation: nothing is created before a yes (or `--yes`),
/// then each payload once, in order; the outcome is an error exactly when
/// some creation failed (see the laws of `crate::batch`).
pub fn creation_step(state: CreationState, event: CreationEvent) -> (r: (CreationState, CreationAction))
    requires
        batch_wf(state.batch),
    ensures
        batch_wf(r.0.batch),
        r.0.batch == batch_next(state.batch, creation_event(event)).0,
        r.1 == creation_action(batch_next(state.batch, creation_event(event)).1),
{
    let e = match event {
        CreationEvent::Start => BatchEvent::Start,
        CreationEvent::Answered { yes } => BatchEvent::Answered { yes },
        CreationEvent::NoTerminal => BatchEvent::NoTerminal,
        CreationEvent::Created { ok } => BatchEvent::Finished { ok },
    };
    let (batch, a) = batch_step(state.batch, e);
    let action = match a {
        BatchAction::Ask { assumed } => CreationAction::Ask { assumed },
        BatchAction::Run(i) => CreationAction::Create(i),
        BatchAction::Abort => CreationAction::Abort,
        BatchAction::Refuse => CreationAction::Refuse,
        BatchAction::Done(r) => CreationAction::Done(r),
        BatchAction::Ignore => CreationAction::Ignore,
    };
    (CreationState { batch }, action)
}

/// What `create-user` does once the site's accounts of the person are
/// known.
#[derive(Debug, Clone, Copy)]
pub enum CreateDecision {
    /// The person already has an account: nothing to create.
    NothingToCreate,
    /// Ask before creating.
    Ask,
    /// Warn that the reference file does not list the address, then ask.
    AskWithWarning,
}

/// The decision of `create-user`, given the accounts the person already has
/// and, when a reference file is given, whether it lists the person.
pub fn create_user_decision(existing: &[WpUser], listed: Option<bool>) -> (r: CreateDecision)
    ensures
        r is NothingToCreate <==> existing@.len() > 0,
        r is AskWithWarning <==> (existing@.len() == 0 && listed == Some(false)),
        r is Ask <==> (existing@.len() == 0 && listed != Some(false)),
{
    if existing.len() > 0 {
        CreateDecision::NothingToCreate
    } else {
        match listed {
            Some(false) => CreateDecision::AskWithWarning,
            _ => CreateDecision::Ask,
        }
    }
}

} // verus!
