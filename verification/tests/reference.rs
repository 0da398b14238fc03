use wp_user_manager::aliases::AliasMap;
use wp_user_manager::reference::{parse, Email, Identity, Normalizer, Reference, ReferenceError};

fn no_aliases() -> AliasMap {
    AliasMap::empty()
}

fn alias_map(content: &str) -> AliasMap {
    AliasMap::parse(content, &Normalizer::default()).unwrap()
}

fn parse_with(content: &str, aliases: &AliasMap) -> Result<Vec<Identity>, ReferenceError> {
    parse(content, &Normalizer::default(), aliases)
}

#[test]
fn reads_one_identity_per_line() {
    let identities = parse_with("a@example.com\nb@example.com\n", &no_aliases()).unwrap();
    assert_eq!(identities.len(), 2);
    assert_eq!(identities[0].email().raw(), "a@example.com");
    assert_eq!(identities[1].line, 2);
}

#[test]
fn ignores_blank_lines_and_comments() {
    let identities =
        parse_with("# header\n\n  a@example.com  # the boss\n", &no_aliases()).unwrap();
    assert_eq!(identities.len(), 1);
    assert_eq!(identities[0].line, 3);
}

#[test]
fn compares_addresses_case_insensitively() {
    let identities = parse_with("Alice@Example.COM\n", &no_aliases()).unwrap();
    assert_eq!(identities[0].email().raw(), "Alice@Example.COM");
    assert_eq!(identities[0].class, "alice@example.com");
}

#[test]
fn strips_plus_tags_when_asked() {
    let normalizer = Normalizer {
        strip_plus_tags: true,
    };
    let identities = parse("alice+wp@example.com\n", &normalizer, &no_aliases()).unwrap();
    assert_eq!(identities[0].class, "alice@example.com");
}

#[test]
fn an_ad_hoc_identity_resolves_through_the_alias_map() {
    let aliases = alias_map("new@example.com old@legacy.com\n");
    let normalizer = Normalizer::default();
    let email = Email::new("Old@Legacy.com", &normalizer).unwrap();

    let identity = Identity::ad_hoc(email, &aliases);

    assert_eq!(identity.line, 0);
    assert_eq!(identity.email().raw(), "Old@Legacy.com");
    assert_eq!(identity.class, "new@example.com");
}

#[test]
fn shares_the_class_of_its_alias_group() {
    let aliases = alias_map("a@example.com a@old.com\n");
    let identities = parse_with("a@example.com\n", &aliases).unwrap();
    assert_eq!(identities[0].class, aliases.class_of("a@old.com"));
    assert_eq!(
        identities[0].display(&aliases),
        "a@example.com  (aliases: a@old.com)"
    );
}

#[test]
fn an_alias_alone_is_not_a_reference_entry() {
    let aliases = alias_map("a@example.com a@old.com\n");
    let identities = parse_with("b@example.com\n", &aliases).unwrap();
    assert_eq!(identities.len(), 1, "the alias file must not add entries");
    assert_eq!(identities[0].email().raw(), "b@example.com");
}

#[test]
fn rejects_several_addresses_on_one_line() {
    let err = parse_with("a@example.com, a@old.com\n", &no_aliases()).unwrap_err();
    assert!(matches!(err, ReferenceError::SeveralEmails { line: 1, .. }));
}

#[test]
fn reference_rejects_invalid_addresses() {
    let err = parse_with("not-an-email\n", &no_aliases()).unwrap_err();
    assert!(matches!(err, ReferenceError::InvalidEmail { line: 1, .. }));
}

#[test]
fn rejects_the_same_address_twice() {
    let err = parse_with("a@example.com\na@example.com\n", &no_aliases()).unwrap_err();
    assert!(matches!(
        err,
        ReferenceError::DuplicateEmail {
            line: 2,
            first_line: 1,
            ..
        }
    ));
}

#[test]
fn rejects_two_entries_that_are_aliases_of_each_other() {
    let aliases = alias_map("a@example.com a@old.com\n");
    let err = parse_with("a@example.com\na@old.com\n", &aliases).unwrap_err();
    assert!(matches!(
        err,
        ReferenceError::AliasOfAnotherEntry {
            line: 2,
            first_line: 1,
            ..
        }
    ));
}

// ---------------------------------------------------------------------------

#[test]
fn the_error_values_say_what_was_read() {
    let aliases = alias_map("a@example.com a@old.com\n");
    match parse_with("a@example.com\nA@Old.com\n", &aliases).unwrap_err() {
        ReferenceError::AliasOfAnotherEntry { value, other, .. } => {
            assert_eq!(value, "A@Old.com");
            assert_eq!(other, "a@example.com");
        }
        other => panic!("unexpected {other:?}"),
    }
    match parse_with("x@y.com\n  b@c.com ;d@e.com # two\n", &no_aliases()).unwrap_err() {
        ReferenceError::SeveralEmails { line, value } => {
            assert_eq!(line, 2);
            assert_eq!(value, "b@c.com ;d@e.com");
        }
        other => panic!("unexpected {other:?}"),
    }
    match parse_with("B@C.com\nb@c.COM\n", &no_aliases()).unwrap_err() {
        ReferenceError::DuplicateEmail { value, .. } => assert_eq!(value, "b@c.COM"),
        other => panic!("unexpected {other:?}"),
    }
}

#[test]
fn a_line_of_separators_is_skipped() {
    let identities = parse_with(" ,;\na@b.co\n", &no_aliases()).unwrap();
    assert_eq!(identities.len(), 1);
    assert_eq!(identities[0].line, 2);
}

#[test]
fn an_empty_reference_file_is_refused() {
    let err = Reference::from_file_content("ref.txt", "# nobody\n\n", &Normalizer::default(), &no_aliases())
        .unwrap_err();
    match err {
        ReferenceError::Empty { path } => assert_eq!(path, "ref.txt"),
        other => panic!("unexpected {other:?}"),
    }
    let reference =
        Reference::from_file_content("ref.txt", "a@b.co\n", &Normalizer::default(), &no_aliases())
            .unwrap();
    assert_eq!(reference.path, "ref.txt");
    assert_eq!(reference.identities.len(), 1);
}

#[test]
fn plausible_addresses() {
    let n = Normalizer::default();
    assert!(Email::new("  a@b.co ", &n).is_some());
    assert_eq!(Email::new("  a@b.co ", &n).unwrap().raw(), "a@b.co");
    for bad in ["@b.co", "a@", "a@bco", "a@.b.co", "a@b.co.", "a@b@c.co", "a b@c.co", "a@b\u{a0}.co"] {
        assert!(Email::new(bad, &n).is_none(), "{bad}");
    }
}

#[test]
fn normalizes_keys() {
    let plain = Normalizer::default();
    let strip = Normalizer { strip_plus_tags: true };
    assert_eq!(plain.normalize("  Ann+Tag@Example.ORG "), "ann+tag@example.org");
    assert_eq!(strip.normalize("Ann+Tag+More@Example.ORG"), "ann@example.org");
    assert_eq!(strip.normalize("no-at-sign+x"), "no-at-sign+x");
    assert_eq!(strip.normalize("a@b+c.org"), "a@b+c.org");
    assert_eq!(plain.normalize("ÉMILE@Exemple.FR"), "émile@exemple.fr");
    assert_eq!(strip.normalize_lowered("x+y@z.com"), "x@z.com");
}

#[test]
fn the_local_part_is_what_precedes_the_at_sign() {
    let n = Normalizer::default();
    let e = Email::new("Jane.Doe@example.com", &n).unwrap();
    assert_eq!(e.local_part(), "Jane.Doe");
    assert_eq!(e.key(), "jane.doe@example.com");
}

#[test]
fn display_without_alias_is_the_address() {
    let aliases = alias_map("a@example.com a@old.com A@Example.com\n");
    let identities = parse_with("b@example.com\n", &aliases).unwrap();
    assert_eq!(identities[0].display(&aliases), "b@example.com");
    let identity = Identity::ad_hoc(Email::new("a@example.com", &Normalizer::default()).unwrap(), &aliases);
    assert_eq!(identity.display(&aliases), "a@example.com  (aliases: a@old.com)");
}

#[test]
fn every_significant_line_gives_one_identity() {
    let identities = parse_with(
        "# people\n\na@example.com\n   # nobody\nb@example.com # boss\n\nc@example.com\n",
        &no_aliases(),
    )
    .unwrap();
    let lines: Vec<usize> = identities.iter().map(|i| i.line).collect();
    assert_eq!(lines, vec![3, 5, 7]);
}
