//! WordPress users as the library sees them, and the decisions taken about
//! the REST API (its address, its error answers, its pages). The HTTP
//! exchanges themselves are the caller's business.

use vstd::prelude::*;

use crate::reference::{join, join_strs};
use crate::text::{
    chars_eq, chars_of, is_ws, push_str, slice_chars, str_eq, string_of, string_push, trim, trim_chars,
    trim_end, trim_start,
};

verus! {

/// A WordPress user as returned in the `edit` context.
#[derive(Debug)]
pub struct WpUser {
    pub id: u64,
    pub username: String,
    pub name: String,
    pub email: String,
    pub roles: Vec<String>,
}

/// What a WordPress user is.
pub struct WpUserView {
    pub id: u64,
    pub username: Seq<char>,
    pub name: Seq<char>,
    pub email: Seq<char>,
    pub roles: Seq<Seq<char>>,
}

/// The views of a list of strings.
pub open spec fn string_views(v: Seq<String>) -> Seq<Seq<char>> {
    v.map_values(|s: String| s@)
}

impl View for WpUser {
    type V = WpUserView;

    open spec fn view(&self) -> WpUserView {
        WpUserView {
            id: self.id,
            username: self.username@,
            name: self.name@,
            email: self.email@,
            roles: string_views(self.roles@),
        }
    }
}

/// The views of a list of users.
pub open spec fn user_views(v: Seq<WpUser>) -> Seq<WpUserView> {
    v.map_values(|u: WpUser| u@)
}

/// A copy of a list of strings.
pub fn clone_strings(v: &Vec<String>) -> (r: Vec<String>)
    ensures
        string_views(r@) == string_views(v@),
{
    let mut r: Vec<String> = Vec::new();
    let mut i: usize = 0;
    while i < v.len()
        invariant
            i <= v.len(),
            r@.len() == i,
            forall|j: int| 0 <= j < i ==> (#[trigger] r@[j])@ == v@[j]@,
        decreases v.len() - i,
    {
        r.push(v[i].clone());
        i = i + 1;
    }
    assert(string_views(r@) =~= string_views(v@));
    r
}

impl Clone for WpUser {
    fn clone(&self) -> (r: Self)
        ensures
            r@ == self@,
    {
        WpUser {
            id: self.id,
            username: self.username.clone(),
            name: self.name.clone(),
            email: self.email.clone(),
            roles: clone_strings(&self.roles),
        }
    }
}

/// Whether the user has the administrator role.
pub open spec fn is_administrator_spec(u: WpUserView) -> bool {
    u.roles.contains("administrator"@)
}

/// How the roles of a user are displayed.
pub open spec fn roles_display_spec(u: WpUserView) -> Seq<char> {
    if u.roles.len() == 0 {
        "-"@
    } else {
        join(u.roles, ","@)
    }
}

impl WpUser {
    /// The roles, comma-separated, or `-` when there is none.
    pub fn roles_display(&self) -> (r: String)
        ensures
            r@ == roles_display_spec(self@),
    {
        if self.roles.len() == 0 {
            return "-".to_owned();
        }
        let mut parts: Vec<&str> = Vec::new();
        let mut i: usize = 0;
        while i < self.roles.len()
            invariant
                i <= self.roles.len(),
                parts@.len() == i,
                forall|j: int| 0 <= j < i ==> (#[trigger] parts@[j])@ == self.roles@[j]@,
            decreases self.roles.len() - i,
        {
            parts.push(self.roles[i].as_str());
            i = i + 1;
        }
        assert(parts@.map_values(|p: &str| p@) =~= string_views(self.roles@));
        join_strs(&parts, ",")
    }

    /// Whether the user has the administrator role.
    pub fn is_administrator(&self) -> (r: bool)
        ensures
            r == is_administrator_spec(self@),
    {
        let mut i: usize = 0;
        while i < self.roles.len()
            invariant
                i <= self.roles.len(),
                forall|j: int| 0 <= j < i ==> (#[trigger] self.roles@[j])@ != "administrator"@,
            decreases self.roles.len() - i,
        {
            if str_eq(self.roles[i].as_str(), "administrator") {
                assert(string_views(self.roles@)[i as int] == "administrator"@);
                return true;
            }
            i = i + 1;
        }
        assert forall|j: int| 0 <= j < self.roles@.len() implies string_views(self.roles@)[j] != "administrator"@ by {
            assert(self.roles@[j]@ != "administrator"@);
        }
        false
    }
}

/// Payload used to create a user.
#[derive(Debug)]
pub struct NewUser {
    pub username: String,
    pub email: String,
    pub name: String,
    pub password: String,
    pub roles: Vec<String>,
}


// ---------------------------------------------------------------------------
// The REST API
// ---------------------------------------------------------------------------

/// Number of users asked for per page.
pub const PER_PAGE: u32 = 100;

/// Errors of the WordPress client that the library decides on.
#[derive(Debug)]
pub enum WpError {
    /// WordPress answered with an error.
    Api { status: u16, code: String, message: String },
    /// WordPress rejected the credentials.
    Unauthorized,
    /// The site URL cannot be used.
    InvalidUrl(String),
}

/// What a client error says.
pub enum WpFault {
    Api { status: u16, code: Seq<char>, message: Seq<char> },
    Unauthorized,
    InvalidUrl(Seq<char>),
}

impl View for WpError {
    type V = WpFault;

    open spec fn view(&self) -> WpFault {
        match self {
            WpError::Api { status, code, message } => WpFault::Api {
                status: *status,
                code: code@,
                message: message@,
            },
            WpError::Unauthorized => WpFault::Unauthorized,
            WpError::InvalidUrl(u) => WpFault::InvalidUrl(u@),
        }
    }
}

/// Trailing slashes removed.
pub open spec fn strip_slashes_end(s: Seq<char>) -> Seq<char>
    decreases s.len(),
{
    if s.len() > 0 && s.last() == '/' {
        strip_slashes_end(s.drop_last())
    } else {
        s
    }
}

/// Leading slashes removed.
pub open spec fn strip_slashes_start(s: Seq<char>) -> Seq<char>
    decreases s.len(),
{
    if s.len() > 0 && s[0] == '/' {
        strip_slashes_start(s.drop_first())
    } else {
        s
    }
}

/// `s` begins with `p`.
pub open spec fn starts_with(s: Seq<char>, p: Seq<char>) -> bool {
    p.len() <= s.len() && s.subrange(0, p.len() as int) == p
}

/// `s` ends with `p`.
pub open spec fn ends_with(s: Seq<char>, p: Seq<char>) -> bool {
    p.len() <= s.len() && s.subrange(s.len() - p.len(), s.len() as int) == p
}

/// `t` occurs in `s`.
pub open spec fn contains_seq(s: Seq<char>, t: Seq<char>) -> bool {
    exists|i: int| 0 <= i <= s.len() - t.len() && #[trigger] s.subrange(i, i + t.len()) == t
}

/// The base of the REST API of a site: the URL trimmed of whitespace and of
/// trailing slashes, which must start with `http`; `/wp/v2` is added after
/// a final `/wp-json`, nothing when `/wp-json/` is already there, and
/// `/wp-json/wp/v2` otherwise.
pub open spec fn api_base_spec(url: Seq<char>) -> Result<Seq<char>, WpFault> {
    let t = strip_slashes_end(trim(url));
    if t.len() == 0 || !starts_with(t, "http"@) {
        Err(WpFault::InvalidUrl(url))
    } else if ends_with(t, "/wp-json"@) {
        Ok(t + "/wp/v2"@)
    } else if contains_seq(t, "/wp-json/"@) {
        Ok(t)
    } else {
        Ok(t + "/wp-json/wp/v2"@)
    }
}

/// Law: a site address that starts with `http://` or `https://`, has no
/// surrounding whitespace and does not mention `/wp-json` gets the API
/// below `/wp-json/wp/v2`: the address itself, without its trailing
/// slashes, followed by `/wp-json/wp/v2`.
pub proof fn law_plain_site_api_base(site: Seq<char>, slashes: Seq<char>)
    requires
        site.len() >= 8,
        site.subrange(0, 7) == "http://"@ || site.subrange(0, 8) == "https://"@,
        site.last() != '/',
        !is_ws(site.last()),
        forall|i: int| 0 <= i < slashes.len() ==> #[trigger] slashes[i] == '/',
        forall|i: int| 0 <= i <= site.len() - 8 ==> #[trigger] site.subrange(i, i + 8) != "/wp-json"@,
    ensures
        api_base_spec(site + slashes) == Ok::<Seq<char>, WpFault>(site + "/wp-json/wp/v2"@),
{
    reveal_strlit("http://");
    reveal_strlit("https://");
    reveal_strlit("http");
    reveal_strlit("/wp-json");
    reveal_strlit("/wp-json/");
    reveal_strlit("/wp-json/wp/v2");
    let url = site + slashes;
    assert(site[0] == 'h') by {
        if site.subrange(0, 7) == "http://"@ {
            assert(site[0] == site.subrange(0, 7)[0]);
        } else {
            assert(site[0] == site.subrange(0, 8)[0]);
        }
    }
    assert(url[0] == site[0]);
    assert(!is_ws(url[0]));
    assert(trim_start(url) == url);
    assert(!is_ws(url.last())) by {
        if slashes.len() > 0 {
            assert(url.last() == slashes.last());
        } else {
            assert(url.last() == site.last());
        }
    }
    assert(trim_end(url) == url);
    assert(trim(url) == url);
    lemma_strip_slashes_end(url, site.len() as int);
    assert(url.subrange(0, site.len() as int) =~= site);
    assert(strip_slashes_end(site) == site);
    let t = site;
    assert(t.subrange(0, 4) =~= "http"@) by {
        if site.subrange(0, 7) == "http://"@ {
            assert(t.subrange(0, 4) =~= site.subrange(0, 7).subrange(0, 4));
        } else {
            assert(t.subrange(0, 4) =~= site.subrange(0, 8).subrange(0, 4));
        }
    }
    assert(starts_with(t, "http"@));
    assert(!ends_with(t, "/wp-json"@)) by {
        if ends_with(t, "/wp-json"@) {
            let i = t.len() - 8;
            assert(t.subrange(i, i + 8) == "/wp-json"@);
        }
    }
    assert(!contains_seq(t, "/wp-json/"@)) by {
        if contains_seq(t, "/wp-json/"@) {
            let i = choose|i: int| 0 <= i <= t.len() - 9 && #[trigger] t.subrange(i, i + 9) == "/wp-json/"@;
            assert(t.subrange(i, i + 8) =~= t.subrange(i, i + 9).subrange(0, 8));
            assert("/wp-json/"@.subrange(0, 8) =~= "/wp-json"@);
        }
    }
}

/// Law: a site address given down to its `/wp-json` (with or without
/// trailing slashes) gets the API below `/wp-json/wp/v2`: `/wp/v2` is
/// added after `/wp-json`.
pub proof fn law_wp_json_site_api_base(base: Seq<char>, slashes: Seq<char>)
    requires
        base.len() >= 8,
        base.subrange(0, 7) == "http://"@ || base.subrange(0, 8) == "https://"@,
        forall|i: int| 0 <= i < slashes.len() ==> #[trigger] slashes[i] == '/',
    ensures
        api_base_spec(base + "/wp-json"@ + slashes) == Ok::<Seq<char>, WpFault>(base + "/wp-json/wp/v2"@),
{
    reveal_strlit("http://");
    reveal_strlit("https://");
    reveal_strlit("http");
    reveal_strlit("/wp-json");
    reveal_strlit("/wp/v2");
    reveal_strlit("/wp-json/wp/v2");
    let site = base + "/wp-json"@;
    let url = site + slashes;
    assert(base[0] == 'h') by {
        if base.subrange(0, 7) == "http://"@ {
            assert(base[0] == base.subrange(0, 7)[0]);
        } else {
            assert(base[0] == base.subrange(0, 8)[0]);
        }
    }
    assert(url[0] == base[0]);
    assert(trim_start(url) == url);
    assert(site.last() == 'n');
    assert(!is_ws(url.last())) by {
        if slashes.len() > 0 {
            assert(url.last() == slashes.last());
        } else {
            assert(url.last() == site.last());
        }
    }
    assert(trim_end(url) == url);
    assert(trim(url) == url);
    lemma_strip_slashes_end(url, site.len() as int);
    assert(url.subrange(0, site.len() as int) =~= site);
    assert(strip_slashes_end(site) == site);
    assert(site.subrange(0, 4) =~= "http"@) by {
        if base.subrange(0, 7) == "http://"@ {
            assert(site.subrange(0, 4) =~= base.subrange(0, 7).subrange(0, 4));
        } else {
            assert(site.subrange(0, 4) =~= base.subrange(0, 8).subrange(0, 4));
        }
    }
    assert(site.subrange(site.len() - 8, site.len() as int) =~= "/wp-json"@);
    assert(site + "/wp/v2"@ =~= base + "/wp-json/wp/v2"@);
}

/// The view of a result carrying a string or a client error.
pub open spec fn string_result_view(r: Result<String, WpError>) -> Result<Seq<char>, WpFault> {
    match r {
        Ok(s) => Ok(s@),
        Err(e) => Err(e@),
    }
}

proof fn lemma_strip_slashes_end(s: Seq<char>, i: int)
    requires
        0 <= i <= s.len(),
        forall|j: int| i <= j < s.len() ==> #[trigger] s[j] == '/',
    ensures
        strip_slashes_end(s) == strip_slashes_end(s.subrange(0, i)),
    decreases s.len() - i,
{
    if i < s.len() {
        assert(s[s.len() - 1] == '/');
        assert(s.drop_last() =~= s.subrange(0, s.len() - 1));
        lemma_strip_slashes_end(s.drop_last(), i);
        assert(s.drop_last().subrange(0, i) =~= s.subrange(0, i));
    } else {
        assert(s.subrange(0, i) =~= s);
    }
}

proof fn lemma_strip_slashes_start(s: Seq<char>, i: int)
    requires
        0 <= i <= s.len(),
        forall|j: int| 0 <= j < i ==> #[trigger] s[j] == '/',
    ensures
        strip_slashes_start(s) == strip_slashes_start(s.subrange(i, s.len() as int)),
    decreases i,
{
    if i > 0 {
        assert(s[0] == '/');
        assert(s.drop_first() =~= s.subrange(1, s.len() as int));
        lemma_strip_slashes_start(s.drop_first(), i - 1);
        assert(s.drop_first().subrange(i - 1, s.drop_first().len() as int) =~= s.subrange(i, s.len() as int));
    } else {
        assert(s.subrange(0, s.len() as int) =~= s);
    }
}

/// Whether `v[at..at + p.len()]` is `p`.
fn matches_at(v: &[char], at: usize, p: &[char]) -> (r: bool)
    requires
        at <= v.len(),
    ensures
        r == (p.len() <= v.len() - at && v@.subrange(at as int, at + p.len()) == p@),
{
    if p.len() > v.len() - at {
        return false;
    }
    let w = slice_chars(v, at, at + p.len());
    chars_eq(w.as_slice(), p)
}

/// Whether `t` occurs in `v`.
fn contains_chars(v: &[char], t: &[char]) -> (r: bool)
    ensures
        r == contains_seq(v@, t@),
{
    if t.len() > v.len() {
        return false;
    }
    if t.len() == 0 {
        assert(v@.subrange(0, 0int + t@.len()) =~= t@);
        return true;
    }
    let mut i: usize = 0;
    while i <= v.len() - t.len()
        invariant
            1 <= t.len() <= v.len(),
            i <= v.len() - t.len() + 1,
            forall|j: int| 0 <= j < i ==> #[trigger] v@.subrange(j, j + t.len()) != t@,
        decreases v.len() - t.len() + 1 - i,
    {
        if matches_at(v, i, t) {
            assert(v@.subrange(i as int, i + t.len()) == t@);
            return true;
        }
        i = i + 1;
    }
    false
}

/// The base of the REST API of a site, or `InvalidUrl`.
pub fn api_base(site_url: &str) -> (r: Result<String, WpError>)
    ensures
        string_result_view(r) == api_base_spec(site_url@),
{
    let tr = trim_chars(chars_of(site_url).as_slice());
    let mut end: usize = tr.len();
    while end > 0 && tr[end - 1] == '/'
        invariant
            end <= tr.len(),
            forall|j: int| end <= j < tr@.len() ==> #[trigger] tr@[j] == '/',
        decreases end,
    {
        end = end - 1;
    }
    proof {
        lemma_strip_slashes_end(tr@, end as int);
        let u = tr@.subrange(0, end as int);
        if u.len() > 0 {
            assert(u.last() == tr@[end - 1]);
        }
        assert(strip_slashes_end(u) == u);
    }
    let t = slice_chars(tr.as_slice(), 0, end);
    let http = chars_of("http");
    if t.len() == 0 || !matches_at(t.as_slice(), 0, http.as_slice()) {
        return Err(WpError::InvalidUrl(site_url.to_owned()));
    }
    let wp_json = chars_of("/wp-json");
    let ends = wp_json.len() <= t.len() && matches_at(t.as_slice(), t.len() - wp_json.len(), wp_json.as_slice());
    let mut base = string_of(t.as_slice());
    if ends {
        push_str(&mut base, "/wp/v2");
        return Ok(base);
    }
    if contains_chars(t.as_slice(), chars_of("/wp-json/").as_slice()) {
        return Ok(base);
    }
    push_str(&mut base, "/wp-json/wp/v2");
    Ok(base)
}

/// The address of an endpoint: the base, a slash, and the path without its
/// leading slashes.
pub open spec fn endpoint_spec(api_base: Seq<char>, path: Seq<char>) -> Seq<char> {
    api_base + "/"@ + strip_slashes_start(path)
}

/// The address of an endpoint of the API.
pub fn endpoint(api_base: &str, path: &str) -> (r: String)
    ensures
        r@ == endpoint_spec(api_base@, path@),
{
    let p = chars_of(path);
    let mut start: usize = 0;
    while start < p.len() && p[start] == '/'
        invariant
            start <= p.len(),
            forall|j: int| 0 <= j < start ==> #[trigger] p@[j] == '/',
        decreases p.len() - start,
    {
        start = start + 1;
    }
    proof {
        lemma_strip_slashes_start(p@, start as int);
        let u = p@.subrange(start as int, p@.len() as int);
        if u.len() > 0 {
            assert(u[0] == p@[start as int]);
        }
        assert(strip_slashes_start(u) == u);
    }
    let rest = slice_chars(p.as_slice(), start, p.len());
    let mut r = api_base.to_owned();
    string_push(&mut r, '/');
    let tail = string_of(rest.as_slice());
    push_str(&mut r, tail.as_str());
    proof {
        reveal_strlit("/");
        assert(r@ =~= endpoint_spec(api_base@, path@));
    }
    r
}

/// The credentials sent: the login trimmed, and the application password
/// without its spaces (WordPress shows it in groups of four characters).
pub fn credentials(user: &str, app_password: &str) -> (r: (String, String))
    ensures
        r.0@ == trim(user@),
        r.1@ == app_password@.filter(|c: char| c != ' '),
{
    let u = trim_chars(chars_of(user).as_slice());
    let ghost pred = |c: char| c != ' ';
    let v = chars_of(app_password);
    let mut p: Vec<char> = Vec::new();
    let mut i: usize = 0;
    while i < v.len()
        invariant
            i <= v.len(),
            pred == (|c: char| c != ' '),
            p@ == v@.subrange(0, i as int).filter(pred),
        decreases v.len() - i,
    {
        if v[i] != ' ' {
            p.push(v[i]);
        }
        proof {
            reveal_with_fuel(Seq::filter, 1);
            assert(v@.subrange(0, i + 1).drop_last() =~= v@.subrange(0, i as int));
        }
        i = i + 1;
    }
    assert(v@.subrange(0, v.len() as int) =~= v@);
    (string_of(u.as_slice()), string_of(p.as_slice()))
}

/// A text trimmed and cut to `max` characters, an ellipsis marking the cut.
pub open spec fn truncate_spec(value: Seq<char>, max: nat) -> Seq<char> {
    let t = trim(value);
    if t.len() <= max {
        t
    } else {
        t.subrange(0, max as int) + "…"@
    }
}

/// A text trimmed and cut to `max` characters.
pub fn truncate(value: &str, max: usize) -> (r: String)
    ensures
        r@ == truncate_spec(value@, max as nat),
{
    let t = trim_chars(chars_of(value).as_slice());
    if t.len() <= max {
        return string_of(t.as_slice());
    }
    let head = slice_chars(t.as_slice(), 0, max);
    let mut r = string_of(head.as_slice());
    push_str(&mut r, "…");
    r
}

/// What an HTTP status means: nothing wrong for a success (2xx),
/// `Unauthorized` for 401, and otherwise an API error with the code and
/// message WordPress gave, or `unknown` and the start of the body.
pub open spec fn status_fault(status: u16, api_error: Option<(Seq<char>, Seq<char>)>, body: Seq<char>) -> Option<WpFault> {
    if 200 <= status <= 299 {
        None
    } else if status == 401 {
        Some(WpFault::Unauthorized)
    } else {
        match api_error {
            Some((code, message)) => Some(WpFault::Api { status, code, message }),
            None => Some(WpFault::Api { status, code: "unknown"@, message: truncate_spec(body, 300) }),
        }
    }
}

/// The error an HTTP answer carries, if any, given the error object parsed
/// from its body (when it holds one) and the body itself.
pub fn status_error(status: u16, api_error: Option<(String, String)>, body: &str) -> (r: Option<WpError>)
    ensures
        match r {
            Some(e) => status_fault(status, match api_error {
                Some(p) => Some((p.0@, p.1@)),
                None => None,
            }, body@) == Some(e@),
            None => status_fault(status, match api_error {
                Some(p) => Some((p.0@, p.1@)),
                None => None,
            }, body@) is None,
        },
{
    if 200 <= status && status <= 299 {
        return None;
    }
    if status == 401 {
        return Some(WpError::Unauthorized);
    }
    match api_error {
        Some((code, message)) => Some(WpError::Api { status, code, message }),
        None => Some(WpError::Api { status, code: "unknown".to_owned(), message: truncate(body, 300) }),
    }
}

/// The page to ask for after page `page`, if any: none once the last page
/// announced by WordPress is reached or a page comes back short.
pub fn next_page(page: u32, total_pages: u32, batch_len: u32) -> (r: Option<u32>)
    ensures
        r == if page >= total_pages || batch_len < PER_PAGE {
            None
        } else {
            Some((page + 1) as u32)
        },
{
    if page >= total_pages || batch_len < PER_PAGE {
        None
    } else {
        Some(page + 1)
    }
}


/// Whether every character of `s` is an ASCII digit.
pub open spec fn all_digits(s: Seq<char>) -> bool {
    forall|i: int| 0 <= i < s.len() ==> '0' <= #[trigger] s[i] <= '9'
}

/// The number written by the decimal digits `s`.
pub open spec fn digits_value(s: Seq<char>) -> nat
    decreases s.len(),
{
    if s.len() == 0 {
        0
    } else {
        digits_value(s.drop_last()) * 10 + ((s.last() as u32) - ('0' as u32)) as nat
    }
}

/// What `u32::from_str` accepts: an optional `+` and at least one decimal
/// digit, the number fitting in 32 bits.
pub open spec fn u32_value(s: Seq<char>) -> Option<u32> {
    let d = if s.len() > 0 && s[0] == '+' {
        s.drop_first()
    } else {
        s
    };
    if d.len() > 0 && all_digits(d) && digits_value(d) <= u32::MAX {
        Some(digits_value(d) as u32)
    } else {
        None
    }
}

proof fn lemma_digits_value_grows(s: Seq<char>, j: int)
    requires
        0 <= j <= s.len(),
        all_digits(s),
    ensures
        digits_value(s.subrange(0, j)) <= digits_value(s),
    decreases s.len(),
{
    if j < s.len() {
        let t = s.drop_last();
        assert(all_digits(t));
        lemma_digits_value_grows(t, j);
        assert(t.subrange(0, j) =~= s.subrange(0, j));
    } else {
        assert(s.subrange(0, j) =~= s);
    }
}

/// A number read from a response header (such as `X-WP-TotalPages`):
/// the header text trimmed and read as a `u32`, or nothing.
pub fn header_number(value: &str) -> (r: Option<u32>)
    ensures
        r == u32_value(trim(value@)),
{
    let t = trim_chars(chars_of(value).as_slice());
    let start: usize = if t.len() > 0 && t[0] == '+' { 1 } else { 0 };
    let ghost d = if t@.len() > 0 && t@[0] == '+' { t@.drop_first() } else { t@ };
    assert(d =~= t@.subrange(start as int, t@.len() as int));
    if start >= t.len() {
        return None;
    }
    let mut acc: u64 = 0;
    let mut i: usize = start;
    while i < t.len()
        invariant
            start <= i <= t.len(),
            t@ == trim(value@),
            d == (if t@.len() > 0 && t@[0] == '+' { t@.drop_first() } else { t@ }),
            d =~= t@.subrange(start as int, t@.len() as int),
            all_digits(d.subrange(0, i - start)),
            acc == digits_value(d.subrange(0, i - start)),
            acc <= u32::MAX,
        decreases t.len() - i,
    {
        let c = t[i];
        let ghost k: int = i - start;
        assert(d.subrange(0, k + 1).drop_last() =~= d.subrange(0, k));
        assert(d[k] == c);
        if c < '0' || c > '9' {
            assert(!all_digits(d));
            return None;
        }
        let v: u64 = acc * 10 + ((c as u32) - ('0' as u32)) as u64;
        assert(v == digits_value(d.subrange(0, k + 1)));
        assert(all_digits(d.subrange(0, k + 1)));
        if v > 4294967295u64 {
            proof {
                if all_digits(d) {
                    lemma_digits_value_grows(d, k + 1);
                }
            }
            return None;
        }
        acc = v;
        i = i + 1;
    }
    assert(d.subrange(0, d.len() as int) =~= d);
    Some(acc as u32)
}

/// The `reassign` parameter of a deletion: the id of the user inheriting
/// the content, or `false` when the content goes with the user.
pub open spec fn reassign_spec(reassign: Option<u64>) -> Seq<char> {
    match reassign {
        Some(id) => crate::text::decimal(id as nat),
        None => "false"@,
    }
}

/// The `reassign` parameter of a deletion.
pub fn reassign_param(reassign: Option<u64>) -> (r: String)
    ensures
        r@ == reassign_spec(reassign),
{
    match reassign {
        Some(id) => crate::text::decimal_string(id),
        None => "false".to_owned(),
    }
}

/// The path of the endpoint of one user.
pub fn user_path(id: u64) -> (r: String)
    ensures
        r@ == "users/"@ + crate::text::decimal(id as nat),
{
    let mut r = "users/".to_owned();
    let digits = crate::text::decimal_string(id);
    push_str(&mut r, digits.as_str());
    r
}

} // verus!
