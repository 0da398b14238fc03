use wp_user_manager::aliases::AliasMap;
use wp_user_manager::reconcile::{count_alias_matches, reconcile, users_for, Protection};
use wp_user_manager::reference::{parse, Normalizer, Reference};
use wp_user_manager::wp::WpUser;

fn aliases(content: &str) -> AliasMap {
    AliasMap::parse(content, &Normalizer::default()).unwrap()
}

fn reference_from(content: &str, aliases: &AliasMap) -> Reference {
    Reference {
        path: "<test>".to_string(),
        identities: parse(content, &Normalizer::default(), aliases).unwrap(),
    }
}

fn user(id: u64, email: &str, roles: &[&str]) -> WpUser {
    WpUser {
        id,
        username: email.split('@').next().unwrap().to_string(),
        name: email.to_string(),
        email: email.to_string(),
        roles: roles.iter().map(|r| r.to_string()).collect(),
    }
}

#[test]
fn splits_missing_matched_and_extra() {
    let normalizer = Normalizer::default();
    let aliases = AliasMap::empty();
    let reference = reference_from("a@example.com\nb@example.com\n", &aliases);
    let users = vec![
        user(1, "a@example.com", &["subscriber"]),
        user(2, "c@example.com", &["subscriber"]),
    ];

    let plan = reconcile(
        &reference,
        &users,
        &normalizer,
        &aliases,
        &Protection::default(),
    );

    assert_eq!(plan.matched.len(), 1);
    assert_eq!(plan.matched[0].users[0].id, 1);
    assert_eq!(plan.missing.len(), 1);
    assert_eq!(plan.missing[0].email().raw(), "b@example.com");
    assert_eq!(plan.extra.len(), 1);
    assert_eq!(plan.extra[0].id, 2);
}

#[test]
fn matches_a_wordpress_account_registered_under_an_alias() {
    let normalizer = Normalizer::default();
    let aliases = aliases("new@example.com old@legacy.com\n");
    let reference = reference_from("new@example.com\n", &aliases);
    let users = vec![user(7, "old@legacy.com", &["author"])];

    let plan = reconcile(
        &reference,
        &users,
        &normalizer,
        &aliases,
        &Protection::default(),
    );

    assert!(
        plan.missing.is_empty(),
        "the account exists under its alias"
    );
    assert!(plan.extra.is_empty(), "an alias is not a surplus user");
    assert_eq!(plan.matched.len(), 1);
    assert!(plan.matched[0].is_alias_match(&normalizer));
}

#[test]
fn matches_through_an_alias_even_when_the_reference_lists_the_old_address() {
    let normalizer = Normalizer::default();
    let aliases = aliases("old@legacy.com new@example.com\n");
    let reference = reference_from("old@legacy.com\n", &aliases);
    let users = vec![user(7, "new@example.com", &["author"])];

    let plan = reconcile(
        &reference,
        &users,
        &normalizer,
        &aliases,
        &Protection::default(),
    );

    assert_eq!(plan.matched.len(), 1, "the mapping works both ways");
    assert!(plan.missing.is_empty());
    assert!(plan.extra.is_empty());
}

#[test]
fn an_alias_never_becomes_a_user_to_create() {
    let normalizer = Normalizer::default();
    let aliases = aliases("a@example.com a@old.com\nunused@example.com unused@old.com\n");
    let reference = reference_from("a@example.com\n", &aliases);
    let users = vec![user(1, "a@old.com", &["subscriber"])];

    let plan = reconcile(
        &reference,
        &users,
        &normalizer,
        &aliases,
        &Protection::default(),
    );

    assert!(
        plan.missing.is_empty(),
        "aliases are a mapping, not reference entries"
    );
    assert_eq!(plan.matched.len(), 1);
}

#[test]
fn reports_several_accounts_for_one_identity_as_ambiguous() {
    let normalizer = Normalizer::default();
    let aliases = aliases("new@example.com old@legacy.com\n");
    let reference = reference_from("new@example.com\n", &aliases);
    let users = vec![
        user(1, "new@example.com", &["subscriber"]),
        user(2, "old@legacy.com", &["subscriber"]),
    ];

    let plan = reconcile(
        &reference,
        &users,
        &normalizer,
        &aliases,
        &Protection::default(),
    );

    assert!(plan.matched.is_empty());
    assert_eq!(plan.ambiguous.len(), 1);
    assert_eq!(plan.ambiguous[0].users.len(), 2);
    assert!(plan.extra.is_empty());
}

#[test]
fn shields_protected_emails_and_administrators() {
    let normalizer = Normalizer::default();
    let aliases = AliasMap::empty();
    let reference = reference_from("a@example.com\n", &aliases);
    let users = vec![
        user(1, "a@example.com", &["subscriber"]),
        user(2, "admin@example.com", &["administrator"]),
        user(3, "keep@example.com", &["editor"]),
        user(4, "gone@example.com", &["subscriber"]),
    ];
    let protection = Protection {
        classes: vec!["keep@example.com".to_string()],
        keep_administrators: true,
    };

    let plan = reconcile(&reference, &users, &normalizer, &aliases, &protection);

    assert_eq!(plan.extra.len(), 1);
    assert_eq!(plan.extra[0].id, 4);
    let protected: Vec<u64> = plan.protected.iter().map(|(u, _)| u.id).collect();
    assert_eq!(protected, vec![2, 3]);
}

#[test]
fn protects_a_user_through_an_alias_of_the_protected_address() {
    let normalizer = Normalizer::default();
    let aliases = aliases("owner@example.com owner@old.com\n");
    let reference = reference_from("a@example.com\n", &aliases);
    let users = vec![user(9, "owner@old.com", &["editor"])];
    let protection = Protection {
        classes: vec![aliases.class_of("owner@example.com").to_string()],
        keep_administrators: false,
    };

    let plan = reconcile(&reference, &users, &normalizer, &aliases, &protection);

    assert!(plan.extra.is_empty());
    assert_eq!(plan.protected.len(), 1);
}

// ---------------------------------------------------------------------------
// Further cases
// ---------------------------------------------------------------------------

#[test]
fn gives_the_reason_a_user_is_protected() {
    let normalizer = Normalizer::default();
    let aliases = AliasMap::empty();
    let reference = reference_from("a@example.com\n", &aliases);
    let users = vec![
        user(2, "admin@example.com", &["administrator"]),
        user(3, "keep@example.com", &["editor"]),
    ];
    let protection = Protection {
        classes: vec!["keep@example.com".to_string()],
        keep_administrators: true,
    };

    let plan = reconcile(&reference, &users, &normalizer, &aliases, &protection);

    assert_eq!(plan.protected[0].1, "administrator");
    assert_eq!(plan.protected[1].1, "protected e-mail");
    assert_eq!(plan.missing.len(), 1);
}

#[test]
fn administrators_are_surplus_when_not_kept() {
    let normalizer = Normalizer::default();
    let aliases = AliasMap::empty();
    let reference = reference_from("a@example.com\n", &aliases);
    let users = vec![user(2, "admin@example.com", &["administrator"])];

    let plan = reconcile(&reference, &users, &normalizer, &aliases, &Protection::default());

    assert_eq!(plan.extra.len(), 1);
    assert!(plan.protected.is_empty());
}

#[test]
fn every_user_lands_in_exactly_one_place() {
    let normalizer = Normalizer::default();
    let aliases = aliases("b@example.com b@old.com\n");
    let reference = reference_from("a@example.com\nb@example.com\nc@example.com\n", &aliases);
    let users = vec![
        user(1, "A@example.com", &["subscriber"]),
        user(2, "b@example.com", &["subscriber"]),
        user(3, "b@old.com", &["subscriber"]),
        user(4, "x@example.com", &["administrator"]),
        user(5, "y@example.com", &["subscriber"]),
    ];
    let protection = Protection {
        classes: vec![],
        keep_administrators: true,
    };

    let plan = reconcile(&reference, &users, &normalizer, &aliases, &protection);

    let placed = plan.matched.iter().map(|m| m.users.len()).sum::<usize>()
        + plan.ambiguous.iter().map(|m| m.users.len()).sum::<usize>()
        + plan.extra.len()
        + plan.protected.len();
    assert_eq!(placed, users.len());
    assert_eq!(
        plan.matched.len() + plan.ambiguous.len() + plan.missing.len(),
        reference.identities.len()
    );
    assert_eq!(plan.missing[0].email().raw(), "c@example.com");
    assert!(!plan.matched[0].is_alias_match(&normalizer));
}

#[test]
fn plus_tags_count_when_stripping_is_on() {
    let normalizer = Normalizer {
        strip_plus_tags: true,
    };
    let aliases = AliasMap::empty();
    let reference = Reference {
        path: "<test>".to_string(),
        identities: parse("alice@example.com\n", &normalizer, &aliases).unwrap(),
    };
    let users = vec![user(1, "alice+wp@example.com", &["subscriber"])];

    let plan = reconcile(&reference, &users, &normalizer, &aliases, &Protection::default());

    assert_eq!(plan.matched.len(), 1);
    assert!(plan.extra.is_empty());
}

#[test]
fn users_for_finds_the_accounts_of_one_person() {
    let normalizer = Normalizer::default();
    let aliases = aliases("new@example.com old@legacy.com\n");
    let reference = reference_from("new@example.com\n", &aliases);
    let users = vec![
        user(1, "OLD@legacy.com", &["subscriber"]),
        user(2, "other@example.com", &["subscriber"]),
        user(3, "new@example.com", &["subscriber"]),
    ];

    let found = users_for(&reference.identities[0], &users, &normalizer, &aliases);

    let ids: Vec<u64> = found.iter().map(|u| u.id).collect();
    assert_eq!(ids, vec![1, 3]);
}

#[test]
fn counts_the_matches_made_through_an_alias() {
    let normalizer = Normalizer::default();
    let aliases = aliases("a@example.com a@old.com\nb@example.com b@old.com\n");
    let reference = reference_from("a@example.com\nb@example.com\nc@example.com\n", &aliases);
    let users = vec![
        user(1, "a@old.com", &["subscriber"]),
        user(2, "b@example.com", &["subscriber"]),
        user(3, "c@example.com", &["subscriber"]),
    ];

    let plan = reconcile(&reference, &users, &normalizer, &aliases, &Protection::default());

    assert_eq!(plan.matched.len(), 3);
    assert_eq!(count_alias_matches(&plan.matched, &normalizer), 1);
}

#[test]
fn the_plan_ignores_the_order_of_the_alias_file() {
    let normalizer = Normalizer::default();
    let first = aliases("a@example.com a@old.com\nb@old.com a@old.com\nc@example.com c@old.com\n");
    let second = aliases("c@old.com, c@example.com\na@old.com b@old.com\na@old.com a@example.com\n");
    let users = vec![
        user(1, "b@old.com", &["subscriber"]),
        user(2, "c@old.com", &["subscriber"]),
        user(3, "z@example.com", &["subscriber"]),
    ];
    let summary = |aliases: &AliasMap| {
        let reference = reference_from("a@example.com\nc@example.com\nd@example.com\n", aliases);
        let plan = reconcile(&reference, &users, &normalizer, aliases, &Protection::default());
        let matched: Vec<(usize, Vec<u64>)> = plan
            .matched
            .iter()
            .map(|m| (m.identity.line, m.users.iter().map(|u| u.id).collect()))
            .collect();
        let classes: Vec<String> = reference.identities.iter().map(|i| i.class.clone()).collect();
        let missing: Vec<usize> = plan.missing.iter().map(|i| i.line).collect();
        let extra: Vec<u64> = plan.extra.iter().map(|u| u.id).collect();
        (classes, matched, missing, extra)
    };
    let expected = (
        vec![
            "a@example.com".to_string(),
            "c@example.com".to_string(),
            "d@example.com".to_string(),
        ],
        vec![(1, vec![1]), (2, vec![2])],
        vec![3],
        vec![3],
    );
    assert_eq!(summary(&first), expected);
    assert_eq!(summary(&second), expected);
}
