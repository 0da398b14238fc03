use wp_user_manager::aliases::AliasMap;
use wp_user_manager::provision::{
    display_name, generate_password, name_words, new_user_for, new_users_for, password_from,
    sanitize_lowered, sanitize_username,
    unique_username, PASSWORD_LEN, USERNAME_MAX_LEN,
};
use wp_user_manager::reference::{parse, Identity, Normalizer};

fn identity(line: &str) -> Identity {
    parse(line, &Normalizer::default(), &AliasMap::empty())
        .unwrap()
        .remove(0)
}

#[test]
fn derives_username_and_display_name_from_the_reference_email() {
    let mut taken: Vec<String> = Vec::new();
    let (user, _) = new_user_for(
        &identity("Jane.Doe@example.com\n"),
        "subscriber",
        &mut taken,
    );
    assert_eq!(user.username, "jane.doe");
    assert_eq!(user.name, "Jane Doe");
    assert_eq!(user.email, "Jane.Doe@example.com");
    assert_eq!(user.roles, vec!["subscriber".to_string()]);
}

#[test]
fn suffixes_usernames_already_taken() {
    let mut taken: Vec<String> = vec!["jane".to_string()];
    let (user, _) = new_user_for(&identity("jane@example.com\n"), "subscriber", &mut taken);
    assert_eq!(user.username, "jane2");
    assert!(taken.contains(&"jane2".to_string()));
}

#[test]
fn replaces_characters_wordpress_would_reject() {
    let mut taken: Vec<String> = Vec::new();
    let (user, _) = new_user_for(&identity("a+b/c@example.com\n"), "subscriber", &mut taken);
    assert_eq!(user.username, "a.b.c");
}

#[test]
fn generates_a_long_random_password() {
    let first = generate_password();
    assert_eq!(first.chars().count(), PASSWORD_LEN);
    assert_ne!(first, generate_password());
}

// ---------------------------------------------------------------------------
// Further cases
// ---------------------------------------------------------------------------

#[test]
fn password_has_alphanumerics_then_symbols() {
    let password = generate_password();
    let chars: Vec<char> = password.chars().collect();
    assert!(chars[..PASSWORD_LEN - 4].iter().all(|c| c.is_ascii_alphanumeric()));
    assert!(chars[PASSWORD_LEN - 4..]
        .iter()
        .all(|c| "!@#$%^&*()-_=+[]{}".contains(*c)));
}

#[test]
fn new_user_password_is_the_one_returned() {
    let mut taken: Vec<String> = Vec::new();
    let (user, password) = new_user_for(&identity("bob@example.com\n"), "editor", &mut taken);
    assert_eq!(user.password, password);
    assert_eq!(taken, vec!["bob".to_string()]);
}

#[test]
fn two_new_users_of_one_name_get_distinct_usernames() {
    let mut taken: Vec<String> = Vec::new();
    let (first, _) = new_user_for(&identity("sam@example.com\n"), "subscriber", &mut taken);
    let (second, _) = new_user_for(&identity("sam@example.org\n"), "subscriber", &mut taken);
    assert_eq!(first.username, "sam");
    assert_eq!(second.username, "sam2");
    assert_eq!(taken, vec!["sam".to_string(), "sam2".to_string()]);
}

#[test]
fn sanitize_trims_dots_and_falls_back_to_user() {
    assert_eq!(sanitize_username("..Ab.."), "ab");
    assert_eq!(sanitize_username("+++"), "user");
    assert_eq!(sanitize_username(""), "user");
    assert_eq!(sanitize_username("x_y-z"), "x_y-z");
    assert_eq!(sanitize_username("Élodie"), "lodie");
}

#[test]
fn sanitize_keeps_at_most_sixty_characters() {
    let long = "a".repeat(70);
    let name = sanitize_username(&long);
    assert_eq!(name.chars().count(), USERNAME_MAX_LEN);
}

#[test]
fn unique_username_skips_every_taken_suffix() {
    let taken: Vec<String> = vec!["jo".to_string(), "jo2".to_string(), "jo3".to_string()];
    assert_eq!(unique_username("jo", &taken), "jo4");
    assert_eq!(unique_username("al", &taken), "al");
}

#[test]
fn unique_username_falls_back_to_a_large_number() {
    let mut taken: Vec<String> = vec!["x".to_string()];
    for n in 2..1000 {
        taken.push(format!("x{n}"));
    }
    let name = unique_username("x", &taken);
    let suffix: u64 = name[1..].parse().unwrap();
    assert!(suffix >= 1000);
    assert!(!taken.contains(&name));
}

#[test]
fn display_name_capitalizes_each_word() {
    assert_eq!(display_name("jane.doe"), "Jane Doe");
    assert_eq!(display_name("a__b-c"), "A B C");
    assert_eq!(display_name("..."), "");
    assert_eq!(display_name("émile.zola"), "Émile Zola");
}

#[test]
fn a_batch_of_new_users_gets_distinct_usernames() {
    let identities = parse(
        "jo@example.com\nJo@example.org\njo+x@example.net\nann@example.com\n",
        &Normalizer::default(),
        &AliasMap::empty(),
    )
    .unwrap();
    let mut taken: Vec<String> = vec!["jo".to_string(), "ann".to_string()];
    let payloads = new_users_for(&identities, "author", &mut taken);
    let names: Vec<&str> = payloads.iter().map(|(u, _)| u.username.as_str()).collect();
    assert_eq!(names, vec!["jo2", "jo3", "jo.x", "ann2"]);
    assert_eq!(taken, vec!["jo", "ann", "jo2", "jo3", "jo.x", "ann2"]);
    for (user, password) in &payloads {
        assert_eq!(&user.password, password);
        assert_eq!(user.roles, vec!["author".to_string()]);
    }
}

#[test]
fn a_password_is_made_from_the_drawn_values() {
    let alnum: Vec<u8> = b"abcdefghijKLMNOPQ123".to_vec();
    assert_eq!(password_from(&alnum, &[0, 17, 5, 10]), "abcdefghijKLMNOPQ123!}^-");
}

#[test]
fn sanitize_lowered_gives_exact_usernames() {
    assert_eq!(sanitize_lowered("jane.doe"), "jane.doe");
    assert_eq!(sanitize_lowered("a+b/c"), "a.b.c");
    assert_eq!(sanitize_lowered("..x.."), "x");
    assert_eq!(sanitize_lowered("%%"), "user");
}

#[test]
fn name_words_splits_on_dots_dashes_and_underscores() {
    assert_eq!(name_words("jane.doe"), vec!["jane".to_string(), "doe".to_string()]);
    assert_eq!(name_words("-a__b-"), vec!["a".to_string(), "b".to_string()]);
    assert!(name_words("._-").is_empty());
}
