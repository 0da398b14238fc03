use wp_user_manager::wp::{
    api_base, credentials, endpoint, header_number, next_page, reassign_param, status_error,
    truncate, user_path, WpError, WpUser, PER_PAGE,
};

fn user(roles: &[&str]) -> WpUser {
    WpUser {
        id: 1,
        username: "u".to_string(),
        name: "U".to_string(),
        email: "u@example.com".to_string(),
        roles: roles.iter().map(|r| r.to_string()).collect(),
    }
}

#[test]
fn api_base_of_a_site() {
    assert_eq!(api_base("https://example.com").unwrap(), "https://example.com/wp-json/wp/v2");
    assert_eq!(api_base("  https://example.com/// ").unwrap(), "https://example.com/wp-json/wp/v2");
    assert_eq!(api_base("https://example.com/wp-json").unwrap(), "https://example.com/wp-json/wp/v2");
    assert_eq!(
        api_base("https://example.com/wp-json/custom/v1/").unwrap(),
        "https://example.com/wp-json/custom/v1"
    );
}

#[test]
fn api_base_rejects_what_is_not_a_web_address() {
    match api_base("example.com") {
        Err(WpError::InvalidUrl(u)) => assert_eq!(u, "example.com"),
        other => panic!("unexpected {other:?}"),
    }
    assert!(matches!(api_base("   "), Err(WpError::InvalidUrl(_))));
    assert!(matches!(api_base("///"), Err(WpError::InvalidUrl(_))));
}

#[test]
fn endpoint_joins_base_and_path() {
    assert_eq!(endpoint("https://x/wp-json/wp/v2", "/users/me"), "https://x/wp-json/wp/v2/users/me");
    assert_eq!(endpoint("https://x/wp-json/wp/v2", "users"), "https://x/wp-json/wp/v2/users");
}

#[test]
fn credentials_drop_spaces_of_the_app_password() {
    let (user, password) = credentials("  admin ", "abcd efgh ijkl");
    assert_eq!(user, "admin");
    assert_eq!(password, "abcdefghijkl");
}

#[test]
fn truncate_marks_the_cut() {
    assert_eq!(truncate("  short  ", 10), "short");
    assert_eq!(truncate("abcdef", 3), "abc…");
    assert_eq!(truncate("abc", 3), "abc");
}

#[test]
fn status_error_reads_the_answer() {
    assert!(status_error(200, None, "").is_none());
    assert!(status_error(204, None, "").is_none());
    assert!(matches!(status_error(401, None, ""), Some(WpError::Unauthorized)));
    match status_error(403, Some(("rest_forbidden".to_string(), "No".to_string())), "{}") {
        Some(WpError::Api { status, code, message }) => {
            assert_eq!(status, 403);
            assert_eq!(code, "rest_forbidden");
            assert_eq!(message, "No");
        }
        other => panic!("unexpected {other:?}"),
    }
    match status_error(500, None, " oops ") {
        Some(WpError::Api { status, code, message }) => {
            assert_eq!(status, 500);
            assert_eq!(code, "unknown");
            assert_eq!(message, "oops");
        }
        other => panic!("unexpected {other:?}"),
    }
}

#[test]
fn next_page_stops_at_the_last_or_a_short_page() {
    assert_eq!(next_page(1, 3, PER_PAGE), Some(2));
    assert_eq!(next_page(3, 3, PER_PAGE), None);
    assert_eq!(next_page(1, 3, PER_PAGE - 1), None);
}

#[test]
fn roles_and_administrators() {
    assert_eq!(user(&[]).roles_display(), "-");
    assert_eq!(user(&["editor", "author"]).roles_display(), "editor,author");
    assert!(user(&["editor", "administrator"]).is_administrator());
    assert!(!user(&["editor"]).is_administrator());
}

#[test]
fn header_number_reads_what_u32_parse_reads() {
    for text in ["3", " 12 ", "+7", "", "+", "-1", "4294967295", "4294967296", "1x", "007", "  ", "99999999999"] {
        assert_eq!(header_number(text), text.trim().parse::<u32>().ok(), "{text:?}");
    }
}

#[test]
fn deletion_parameters() {
    assert_eq!(reassign_param(None), "false");
    assert_eq!(reassign_param(Some(42)), "42");
    assert_eq!(user_path(17), "users/17");
}
