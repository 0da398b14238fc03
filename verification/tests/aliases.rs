use wp_user_manager::aliases::{AliasError, AliasMap};
use wp_user_manager::reference::Normalizer;

fn parse(content: &str) -> AliasMap {
    AliasMap::parse(content, &Normalizer::default()).unwrap()
}

#[test]
fn maps_every_address_of_a_group_to_the_same_class() {
    let map = parse("a@example.com, a@old.com\n");
    assert_eq!(map.groups().len(), 1);
    assert_eq!(map.class_of("a@example.com"), map.class_of("a@old.com"));
}

#[test]
fn leaves_unknown_addresses_untouched() {
    let map = parse("a@example.com a@old.com\n");
    assert_eq!(map.class_of("b@example.com"), "b@example.com");
    assert!(map.group_of("b@example.com").is_none());
}

#[test]
fn does_not_depend_on_the_order_inside_a_line() {
    let one = parse("a@example.com, z@old.com\n");
    let other = parse("z@old.com, a@example.com\n");
    assert_eq!(
        one.class_of("z@old.com"),
        other.class_of("a@example.com"),
        "the canonical key must not depend on the position on the line"
    );
    assert_eq!(one.groups()[0].emails.len(), other.groups()[0].emails.len());
}

#[test]
fn merges_groups_sharing_an_address_whatever_the_line_order() {
    let one = parse("a@example.com b@old.com\nb@old.com c@older.com\n");
    let other = parse("b@old.com c@older.com\na@example.com b@old.com\n");
    for map in [&one, &other] {
        assert_eq!(map.groups().len(), 1);
        assert_eq!(map.groups()[0].emails.len(), 3);
        assert_eq!(map.class_of("a@example.com"), map.class_of("c@older.com"));
    }
    assert_eq!(one.class_of("c@older.com"), other.class_of("a@example.com"));
}

#[test]
fn keeps_separate_groups_separate() {
    let map = parse("a@example.com a@old.com\nb@example.com b@old.com\n");
    assert_eq!(map.groups().len(), 2);
    assert_ne!(map.class_of("a@old.com"), map.class_of("b@old.com"));
}

#[test]
fn ignores_comments_and_blank_lines() {
    let map = parse("# aliases\n\n  a@example.com a@old.com # renamed\n");
    assert_eq!(map.groups().len(), 1);
    assert_eq!(map.groups()[0].lines, vec![3]);
}

#[test]
fn rejects_a_line_holding_a_single_address() {
    let err = AliasMap::parse("a@example.com\n", &Normalizer::default()).unwrap_err();
    assert!(matches!(err, AliasError::LonelyEmail { line: 1, .. }));
}

#[test]
fn aliases_rejects_invalid_addresses() {
    let err = AliasMap::parse("a@example.com oops\n", &Normalizer::default()).unwrap_err();
    assert!(matches!(err, AliasError::InvalidEmail { line: 1, .. }));
}

// ---------------------------------------------------------------------------

#[test]
fn the_canonical_key_is_the_smallest_key_of_the_group() {
    let map = parse("Zed@B.com  alpha@c.com; m@d.org\n");
    let group = &map.groups()[0];
    assert_eq!(group.canonical, "alpha@c.com");
    let keys: Vec<&str> = group.emails.iter().map(|e| e.key()).collect();
    assert_eq!(keys, vec!["alpha@c.com", "m@d.org", "zed@b.com"]);
    assert_eq!(group.display(), "alpha@c.com = m@d.org = Zed@B.com");
}

#[test]
fn a_merged_group_keeps_the_address_of_its_first_line() {
    // `B@old.com` on line 2 has the key of `b@old.com` from line 1
    let map = parse("a@example.com b@old.com\nB@old.com c@older.com\n");
    let group = &map.groups()[0];
    let raws: Vec<&str> = group.emails.iter().map(|e| e.raw()).collect();
    assert_eq!(raws, vec!["a@example.com", "b@old.com", "c@older.com"]);
    assert_eq!(group.lines, vec![1, 2]);
}

#[test]
fn a_line_repeating_one_address_is_lonely_with_its_last_spelling() {
    let err = AliasMap::parse("\n\nA@x.com a@X.com\n", &Normalizer::default()).unwrap_err();
    match err {
        AliasError::LonelyEmail { line, value } => {
            assert_eq!(line, 3);
            assert_eq!(value, "a@X.com");
        }
        other => panic!("unexpected {other:?}"),
    }
}

#[test]
fn a_line_of_separators_is_lonely_with_no_value() {
    let err = AliasMap::parse(" , ;\n", &Normalizer::default()).unwrap_err();
    match err {
        AliasError::LonelyEmail { line, value } => {
            assert_eq!(line, 1);
            assert_eq!(value, "");
        }
        other => panic!("unexpected {other:?}"),
    }
}

#[test]
fn the_first_faulty_line_is_reported() {
    let err = AliasMap::parse("a@x.com b@x.com\nnope c@x.com\nd@x.com\n", &Normalizer::default())
        .unwrap_err();
    match err {
        AliasError::InvalidEmail { line, value } => {
            assert_eq!(line, 2);
            assert_eq!(value, "nope");
        }
        other => panic!("unexpected {other:?}"),
    }
}

#[test]
fn a_line_bridging_two_groups_merges_them_in_place_of_the_first() {
    let map = parse(
        "a@x.com a2@x.com\nb@x.com b2@x.com\nc@x.com c2@x.com\nc2@x.com a2@x.com\n",
    );
    assert_eq!(map.groups().len(), 2);
    assert_eq!(map.groups()[0].lines, vec![1, 3, 4]);
    assert_eq!(map.groups()[1].lines, vec![2]);
    assert_eq!(map.class_of("c@x.com"), "a2@x.com");
    assert_eq!(map.class_of("b2@x.com"), "b2@x.com");
}

#[test]
fn the_file_content_records_its_path() {
    let map = AliasMap::from_file_content("aliases.txt", "a@x.com b@x.com\n", &Normalizer::default())
        .unwrap();
    assert_eq!(map.path(), Some("aliases.txt"));
    assert_eq!(AliasMap::empty().path(), None);
    assert!(AliasMap::empty().groups().is_empty());
}

#[test]
fn plus_tags_are_merged_when_asked() {
    let normalizer = Normalizer { strip_plus_tags: true };
    let map = AliasMap::parse("a+one@x.com b@x.com\n", &normalizer).unwrap();
    assert_eq!(map.class_of("a@x.com"), "a@x.com");
    assert_eq!(map.class_of("b@x.com"), "a@x.com");
}

#[test]
fn windows_line_endings_are_read_like_unix_ones() {
    let map = parse("a@x.com b@x.com\r\nc@x.com d@x.com\r\n");
    assert_eq!(map.groups().len(), 2);
    assert_eq!(map.class_of("d@x.com"), "c@x.com");
}

#[test]
fn reordering_the_alias_file_keeps_its_acceptance_and_group_count() {
    let n = wp_user_manager::reference::Normalizer::default();
    let first = wp_user_manager::aliases::AliasMap::parse(
        "a@x.com a@y.com\nb@x.com b@y.com\na@y.com a@z.com\n",
        &n,
    )
    .unwrap();
    let second = wp_user_manager::aliases::AliasMap::parse(
        "a@z.com, a@y.com\nb@y.com b@x.com\na@y.com a@x.com\n",
        &n,
    )
    .unwrap();
    assert_eq!(first.groups().len(), 2);
    assert_eq!(second.groups().len(), 2);
    for key in ["a@x.com", "a@z.com", "b@y.com", "c@x.com"] {
        assert_eq!(first.class_of(key), second.class_of(key));
        assert_eq!(first.group_of(key).is_some(), second.group_of(key).is_some());
    }
    assert!(wp_user_manager::aliases::AliasMap::parse("b@x.com\na@x.com a@y.com\n", &n).is_err());
    assert!(wp_user_manager::aliases::AliasMap::parse("a@x.com a@y.com\nb@x.com\n", &n).is_err());
}
