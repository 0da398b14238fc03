use wp_user_manager::aliases::AliasMap;
use wp_user_manager::cli::GlobalArgs;
use wp_user_manager::commands::{
    class_of, is_listed, load_aliases, load_reference, normalizer, protection_for, required,
    taken_usernames,
};
use wp_user_manager::prompt::{accepts, phrase_confirmed};
use wp_user_manager::reconcile::reconcile;
use wp_user_manager::reference::{parse, Email, Identity, Normalizer, Reference};
use wp_user_manager::wp::WpUser;

fn global(protect: &[&str], delete_administrators: bool) -> GlobalArgs {
    GlobalArgs {
        wp_url: None,
        wp_user: None,
        wp_app_password: None,
        reference: None,
        aliases: None,
        strip_plus_tags: false,
        protect: protect.iter().map(|p| p.to_string()).collect(),
        delete_administrators,
        yes: false,
        timeout: 0,
    }
}

#[test]
fn required_asks_for_a_non_blank_value() {
    let set = Some("admin".to_string());
    assert_eq!(required(&set, "--wp-user", "WP_USER").unwrap(), "admin");
    let blank = Some("  ".to_string());
    assert_eq!(
        required(&blank, "--wp-user", "WP_USER").unwrap_err(),
        "missing WordPress credentials: pass --wp-user or set WP_USER"
    );
    assert!(required(&None, "--wp-url", "WP_URL").is_err());
}

#[test]
fn protection_covers_the_listed_addresses_and_the_caller() {
    let aliases = AliasMap::parse("boss@example.com boss@old.com\n", &Normalizer::default()).unwrap();
    let g = global(&["Boss@Old.com", " "], false);
    let n = normalizer(&g);
    let protection = protection_for(&g, &aliases, &n, "me@example.com");
    assert_eq!(protection.classes, vec!["boss@example.com".to_string(), "me@example.com".to_string()]);
    assert!(protection.keep_administrators);
    let protection = protection_for(&global(&[], true), &aliases, &n, "me@example.com");
    assert!(!protection.keep_administrators);
}

#[test]
fn class_of_goes_through_the_alias_map() {
    let aliases = AliasMap::parse("new@example.com old@legacy.com\n", &Normalizer::default()).unwrap();
    let n = Normalizer { strip_plus_tags: true };
    assert_eq!(class_of(&aliases, &n, "Old+x@Legacy.com"), "new@example.com");
    assert_eq!(class_of(&aliases, &n, "Other@example.com"), "other@example.com");
}

#[test]
fn is_listed_compares_classes() {
    let aliases = AliasMap::parse("new@example.com old@legacy.com\n", &Normalizer::default()).unwrap();
    let n = Normalizer::default();
    let reference = Reference {
        path: "<test>".to_string(),
        identities: parse("new@example.com\n", &n, &aliases).unwrap(),
    };
    let old = Identity::ad_hoc(Email::new("old@legacy.com", &n).unwrap(), &aliases);
    let other = Identity::ad_hoc(Email::new("x@legacy.com", &n).unwrap(), &aliases);
    assert!(is_listed(&reference, &old));
    assert!(!is_listed(&reference, &other));
}

#[test]
fn taken_usernames_are_lowercased() {
    let users = vec![WpUser {
        id: 1,
        username: "Jane".to_string(),
        name: String::new(),
        email: String::new(),
        roles: vec![],
    }];
    assert_eq!(taken_usernames(&users), vec!["jane".to_string()]);
}

#[test]
fn timeout_is_at_least_one_second() {
    assert_eq!(global(&[], false).timeout(), 1);
    let mut g = global(&[], false);
    g.timeout = 30;
    assert_eq!(g.timeout(), 30);
}

#[test]
fn prompt_answers() {
    assert!(accepts(" Y "));
    assert!(accepts("yes"));
    assert!(accepts("YES\n"));
    assert!(!accepts("no"));
    assert!(!accepts(""));
    assert!(phrase_confirmed("delete 3 users\n", "delete 3 users"));
    assert!(!phrase_confirmed("delete 2 users", "delete 3 users"));
}

#[test]
fn no_alias_file_means_no_alias() {
    let g = global(&[], false);
    let aliases = load_aliases(&g, "ignored nonsense").unwrap();
    assert!(aliases.groups().is_empty());
    assert!(aliases.path().is_none());
}

#[test]
fn the_alias_file_is_read_when_given() {
    let mut g = global(&[], false);
    g.aliases = Some("aliases.txt".to_string());
    let aliases = load_aliases(&g, "a@example.com a@old.com\n").unwrap();
    assert_eq!(aliases.path(), Some("aliases.txt"));
    assert_eq!(aliases.groups().len(), 1);
    assert!(load_aliases(&g, "a@example.com\n").is_err());
}

#[test]
fn the_reference_needs_a_file() {
    let mut g = global(&[], false);
    let aliases = load_aliases(&g, "").unwrap();
    assert!(load_reference(&g, &aliases, "a@example.com\n").is_none());
    g.reference = Some("people.txt".to_string());
    let reference = load_reference(&g, &aliases, "a@example.com\n").unwrap().unwrap();
    assert_eq!(reference.path, "people.txt");
    assert_eq!(reference.identities.len(), 1);
    assert!(load_reference(&g, &aliases, "# nobody\n").unwrap().is_err());
}

#[test]
fn a_session_never_deletes_the_caller_nor_the_protected() {
    let n = Normalizer::default();
    let aliases = AliasMap::parse("boss@example.com boss@old.com\n", &n).unwrap();
    let reference = Reference {
        path: "<test>".to_string(),
        identities: parse("a@example.com\n", &n, &aliases).unwrap(),
    };
    let user = |id: u64, email: &str, role: &str| WpUser {
        id,
        username: id.to_string(),
        name: String::new(),
        email: email.to_string(),
        roles: vec![role.to_string()],
    };
    let users = vec![
        user(1, "Me@Example.com", "editor"),
        user(2, "boss@old.com", "author"),
        user(3, "root@example.com", "administrator"),
        user(4, "gone@example.com", "subscriber"),
    ];
    let g = global(&["boss@example.com"], false);
    let protection = protection_for(&g, &aliases, &n, "me@example.com");
    let plan = reconcile(&reference, &users, &n, &aliases, &protection);
    let extra: Vec<u64> = plan.extra.iter().map(|u| u.id).collect();
    assert_eq!(extra, vec![4]);
    let kept: Vec<u64> = plan.protected.iter().map(|(u, _)| u.id).collect();
    assert_eq!(kept, vec![1, 2, 3]);

    let g = global(&[], true);
    let protection = protection_for(&g, &aliases, &n, "me@example.com");
    let plan = reconcile(&reference, &users, &n, &aliases, &protection);
    let extra: Vec<u64> = plan.extra.iter().map(|u| u.id).collect();
    assert_eq!(extra, vec![2, 3, 4]);
}

use wp_user_manager::commands::{
    create_user_decision, creation_step, deletion_step, CreateDecision, CreationAction,
    CreationEvent, CreationState, DeletionAction, DeletionEvent, DeletionState,
};

fn wp_user(id: u64) -> WpUser {
    WpUser {
        id,
        username: format!("u{id}"),
        name: String::new(),
        email: format!("u{id}@example.com"),
        roles: vec![],
    }
}

#[test]
fn deletion_waits_for_the_typed_word_then_deletes_in_order() {
    let users = vec![wp_user(4), wp_user(9)];
    let state = DeletionState::new(&users, Some(1), false);
    let (state, action) = deletion_step(state, DeletionEvent::Start);
    assert!(matches!(action, DeletionAction::Ask { assumed: false }));
    let (state, action) = deletion_step(state, DeletionEvent::Answered { phrase_ok: true });
    assert!(matches!(action, DeletionAction::Delete { id: 4, reassign: Some(1) }));
    let (state, action) = deletion_step(state, DeletionEvent::Deleted { ok: false });
    assert!(matches!(action, DeletionAction::Delete { id: 9, reassign: Some(1) }));
    let (_, action) = deletion_step(state, DeletionEvent::Deleted { ok: true });
    assert!(matches!(action, DeletionAction::Done(Err(1))));
}

#[test]
fn deletion_without_the_word_deletes_nothing() {
    let users = vec![wp_user(4)];
    let (state, _) = deletion_step(DeletionState::new(&users, None, false), DeletionEvent::Start);
    let (state, action) = deletion_step(state, DeletionEvent::Answered { phrase_ok: false });
    assert!(matches!(action, DeletionAction::Abort));
    let (_, action) = deletion_step(state, DeletionEvent::Deleted { ok: true });
    assert!(matches!(action, DeletionAction::Ignore));

    let (state, _) = deletion_step(DeletionState::new(&users, None, false), DeletionEvent::Start);
    let (_, action) = deletion_step(state, DeletionEvent::NoTerminal);
    assert!(matches!(action, DeletionAction::Refuse));
}

#[test]
fn an_empty_deletion_is_over_without_a_question() {
    let (_, action) = deletion_step(DeletionState::new(&[], None, false), DeletionEvent::Start);
    assert!(matches!(action, DeletionAction::Done(Ok(0))));
}

#[test]
fn creation_under_yes_needs_no_terminal() {
    let mut taken: Vec<String> = Vec::new();
    let n = Normalizer::default();
    let identities = parse("a@example.com\nb@example.com\n", &n, &AliasMap::empty()).unwrap();
    let payloads = wp_user_manager::provision::new_users_for(&identities, "subscriber", &mut taken);
    let (state, action) = creation_step(CreationState::new(&payloads, true), CreationEvent::Start);
    assert!(matches!(action, CreationAction::Ask { assumed: true }));
    let (state, action) = creation_step(state, CreationEvent::NoTerminal);
    assert!(matches!(action, CreationAction::Create(0)));
    let (state, action) = creation_step(state, CreationEvent::Created { ok: true });
    assert!(matches!(action, CreationAction::Create(1)));
    let (_, action) = creation_step(state, CreationEvent::Created { ok: true });
    assert!(matches!(action, CreationAction::Done(Ok(2))));
}

#[test]
fn creation_needs_a_yes() {
    let mut taken: Vec<String> = Vec::new();
    let n = Normalizer::default();
    let identities = parse("a@example.com\n", &n, &AliasMap::empty()).unwrap();
    let payloads = wp_user_manager::provision::new_users_for(&identities, "subscriber", &mut taken);
    let (state, _) = creation_step(CreationState::new(&payloads, false), CreationEvent::Start);
    let (_, action) = creation_step(state, CreationEvent::Answered { yes: false });
    assert!(matches!(action, CreationAction::Abort));
    let (_, action) = creation_step(CreationState::new(&[], false), CreationEvent::Start);
    assert!(matches!(action, CreationAction::Done(Ok(0))));
}

#[test]
fn create_user_decides_from_the_existing_accounts() {
    assert!(matches!(create_user_decision(&[wp_user(1)], Some(false)), CreateDecision::NothingToCreate));
    assert!(matches!(create_user_decision(&[], Some(false)), CreateDecision::AskWithWarning));
    assert!(matches!(create_user_decision(&[], Some(true)), CreateDecision::Ask));
    assert!(matches!(create_user_decision(&[], None), CreateDecision::Ask));
}

#[test]
fn load_aliases_gives_the_groups_parse_gives() {
    let mut g = global(&[], false);
    g.aliases = Some("aliases.txt".to_string());
    let content = "b@x.com b@y.com\na@x.com, a@y.com\nb@y.com b@z.com\n";
    let loaded = load_aliases(&g, content).unwrap();
    let parsed = AliasMap::parse(content, &Normalizer::default()).unwrap();
    assert_eq!(loaded.groups().len(), parsed.groups().len());
    for (l, p) in loaded.groups().iter().zip(parsed.groups()) {
        assert_eq!(l.canonical, p.canonical);
        assert_eq!(l.lines, p.lines);
        assert_eq!(l.display(), p.display());
    }
}
