//! The reference file: the source of truth for which users must exist in
//! WordPress. One address per line, one line per user; blank lines and `#`
//! comments are ignored. Alternative addresses of a person belong in the
//! alias file, which only maps addresses to one another.

use vstd::prelude::*;

use crate::aliases::{class_spec, group_index, AliasMap, GroupView};
use crate::text::{
    after, before, chars_of, find, find_char, is_whitespace, is_ws, lemma_find, lemma_find_at,
    lowercase, trim_end, trim_start,
    line_text, push_str, slice_chars, split_lines, split_tokens, str_eq, string_of, text_of_line,
    to_lowercase, tokens, trim, trim_chars,
};

verus! {

// ---------------------------------------------------------------------------
// Normalization
// ---------------------------------------------------------------------------

/// How raw e-mail addresses are turned into comparison keys.
#[derive(Debug, Clone, Copy)]
pub struct Normalizer {
    /// Drop `+tag` suffixes in the local part (`a+wp@x.com` == `a@x.com`).
    pub strip_plus_tags: bool,
}

impl Default for Normalizer {
    /// Plus tags kept: `a+wp@x.com` and `a@x.com` are different addresses.
    fn default() -> (r: Normalizer)
        ensures
            !r.strip_plus_tags,
    {
        Normalizer { strip_plus_tags: false }
    }
}

/// The key of an already trimmed and lowercased address: the `+tag` of the
/// local part dropped when asked.
pub open spec fn key_of_lowered(strip_plus_tags: bool, t: Seq<char>) -> Seq<char> {
    if find(t, '@') == t.len() {
        t
    } else {
        let local = before(t, '@');
        let local = if strip_plus_tags {
            before(local, '+')
        } else {
            local
        };
        local + seq!['@'] + after(t, '@')
    }
}

/// The comparison key of a raw address: trimmed, lowercased, and with the
/// `+tag` dropped when asked.
pub open spec fn normalize_spec(strip_plus_tags: bool, raw: Seq<char>) -> Seq<char> {
    key_of_lowered(strip_plus_tags, lowercase(trim(raw)))
}

impl Normalizer {
    /// The key of an address, given the address already trimmed and
    /// lowercased.
    pub fn normalize_lowered(&self, lowered: &str) -> (r: String)
        ensures
            r@ == key_of_lowered(self.strip_plus_tags, lowered@),
    {
        let t = chars_of(lowered);
        let at = find_char(t.as_slice(), '@');
        if at == t.len() {
            return string_of(t.as_slice());
        }
        let local = slice_chars(t.as_slice(), 0, at);
        let local_end = if self.strip_plus_tags {
            find_char(local.as_slice(), '+')
        } else {
            local.len()
        };
        proof {
            lemma_find(local@, '+');
        }
        let mut key = slice_chars(local.as_slice(), 0, local_end);
        key.push('@');
        let mut i: usize = at + 1;
        let ghost head = key@;
        while i < t.len()
            invariant
                at < t.len(),
                at + 1 <= i <= t.len(),
                key@ == head + t@.subrange(at + 1, i as int),
            decreases t.len() - i,
        {
            key.push(t[i]);
            i = i + 1;
        }
        proof {
            let local_s = before(t@, '@');
            assert(local_s =~= local@);
            if !self.strip_plus_tags {
                assert(local@.subrange(0, local@.len() as int) =~= local@);
            }
            assert(key@ =~= key_of_lowered(self.strip_plus_tags, t@));
        }
        string_of(key.as_slice())
    }

    /// The comparison key of a raw address.
    pub fn normalize(&self, raw: &str) -> (r: String)
        ensures
            r@ == normalize_spec(self.strip_plus_tags, raw@),
    {
        let v = chars_of(raw);
        let t = trim_chars(v.as_slice());
        let ts = string_of(t.as_slice());
        let lowered = to_lowercase(ts.as_str());
        self.normalize_lowered(lowered.as_str())
    }
}

/// Law: when plus tags are kept, the key of a lowercased address is the
/// address itself.
pub proof fn law_key_is_address_without_stripping(lowered: Seq<char>)
    ensures
        key_of_lowered(false, lowered) == lowered,
{
    lemma_find(lowered, '@');
    if find(lowered, '@') < lowered.len() {
        let i = find(lowered, '@');
        assert(lowered.subrange(0, i) + seq!['@'] + lowered.subrange(i + 1, lowered.len() as int) =~= lowered);
    }
}

/// Law: when plus tags are stripped, an address and the same address with
/// a `+tag` appended to its local part get the same key (`a+wp@x.com` and
/// `a@x.com` designate the same person).
pub proof fn law_plus_tag_ignored(local: Seq<char>, tag: Seq<char>, domain: Seq<char>)
    requires
        !local.contains('@'),
        !local.contains('+'),
        !tag.contains('@'),
    ensures
        key_of_lowered(true, local + seq!['+'] + tag + seq!['@'] + domain) == key_of_lowered(
            true,
            local + seq!['@'] + domain,
        ),
{
    let tagged_local = local + seq!['+'] + tag;
    let s1 = tagged_local + seq!['@'] + domain;
    let s2 = local + seq!['@'] + domain;
    assert forall|j: int| 0 <= j < tagged_local.len() implies s1[j] != '@' by {
        if j < local.len() {
            assert(s1[j] == local[j]);
        } else if j > local.len() {
            assert(s1[j] == tag[j - local.len() - 1]);
        }
    }
    assert(s1[tagged_local.len() as int] == '@');
    lemma_find_at(s1, '@', tagged_local.len() as int);
    assert forall|j: int| 0 <= j < local.len() implies s2[j] != '@' by {
        assert(s2[j] == local[j]);
    }
    assert(s2[local.len() as int] == '@');
    lemma_find_at(s2, '@', local.len() as int);
    assert(before(s1, '@') =~= tagged_local);
    assert forall|j: int| 0 <= j < local.len() implies tagged_local[j] != '+' by {
        assert(tagged_local[j] == local[j]);
    }
    assert(tagged_local[local.len() as int] == '+');
    lemma_find_at(tagged_local, '+', local.len() as int);
    assert(before(tagged_local, '+') =~= local);
    assert(before(s2, '@') =~= local);
    lemma_find(local, '+');
    assert(before(local, '+') =~= local);
    assert(after(s1, '@') =~= domain);
    assert(after(s2, '@') =~= domain);
}

// ---------------------------------------------------------------------------
// E-mail addresses
// ---------------------------------------------------------------------------

/// Whether a (trimmed) value looks like an e-mail address: exactly one `@`,
/// a non-empty local part, a domain holding a `.` that neither starts nor
/// ends it, and no whitespace anywhere.
pub open spec fn plausible(v: Seq<char>) -> bool {
    let d = after(v, '@');
    &&& find(v, '@') < v.len()
    &&& find(v, '@') > 0
    &&& d.len() > 0
    &&& d.contains('.')
    &&& d[0] != '.'
    &&& d.last() != '.'
    &&& !d.contains('@')
    &&& forall|i: int| 0 <= i < v.len() ==> !is_ws(#[trigger] v[i])
}

/// A character of a plain local part: an ASCII letter or digit, `.`, `_`,
/// `+` or `-`.
pub open spec fn plain_local_char(c: char) -> bool {
    ('a' <= c && c <= 'z') || ('A' <= c && c <= 'Z') || ('0' <= c && c <= '9') || c == '.' || c
        == '_' || c == '+' || c == '-'
}

/// A character of a plain domain: an ASCII letter or digit, `.` or `-`.
pub open spec fn plain_domain_char(c: char) -> bool {
    ('a' <= c && c <= 'z') || ('A' <= c && c <= 'Z') || ('0' <= c && c <= '9') || c == '.' || c
        == '-'
}

/// Law: an address made of a non-empty plain local part, `@`, and a plain
/// domain holding a dot, neither starting nor ending with one, is accepted
/// as written, whatever the number of dots (`john@example.co.uk`), with its
/// key.
pub proof fn law_plain_addresses_accepted(local: Seq<char>, domain: Seq<char>, strip: bool)
    requires
        local.len() > 0,
        forall|i: int| 0 <= i < local.len() ==> plain_local_char(#[trigger] local[i]),
        forall|i: int| 0 <= i < domain.len() ==> plain_domain_char(#[trigger] domain[i]),
        domain.contains('.'),
        domain[0] != '.',
        domain.last() != '.',
    ensures
        email_spec(local + seq!['@'] + domain, strip) == Some(
            EmailView {
                raw: local + seq!['@'] + domain,
                key: normalize_spec(strip, local + seq!['@'] + domain),
            },
        ),
{
    let v = local + seq!['@'] + domain;
    assert forall|i: int| 0 <= i < v.len() implies !is_ws(#[trigger] v[i]) by {
        if i < local.len() {
            assert(v[i] == local[i]);
        } else if i > local.len() {
            assert(v[i] == domain[i - local.len() - 1]);
        }
    }
    assert(trim_start(v) == v);
    assert(trim_end(v) == v);
    assert(trim(v) == v);
    assert forall|j: int| 0 <= j < local.len() implies v[j] != '@' by {
        assert(v[j] == local[j]);
    }
    lemma_find_at(v, '@', local.len() as int);
    assert(after(v, '@') =~= domain);
    assert(!domain.contains('@'));
    assert(plausible(v));
}

/// Law: an address is refused when it has no `@`, an empty local part, a
/// second `@`, or a domain that is empty, holds no dot, or starts or ends
/// with one.
pub proof fn law_implausible_addresses_refused(local: Seq<char>, domain: Seq<char>, strip: bool)
    requires
        !local.contains('@'),
        forall|i: int| 0 <= i < local.len() ==> !is_ws(#[trigger] local[i]),
        forall|i: int| 0 <= i < domain.len() ==> !is_ws(#[trigger] domain[i]),
    ensures
        !local.contains('@') ==> email_spec(local, strip) is None,
        (local.len() == 0 || domain.len() == 0 || !domain.contains('.') || domain.contains('@')
            || domain[0] == '.' || domain.last() == '.') ==> email_spec(local + seq!['@'] + domain, strip)
            is None,
{
    lemma_find(local, '@');
    if local.len() > 0 {
        assert(trim_start(local) == local);
        assert(trim_end(local) == local);
    } else {
        assert(trim_start(local) == local);
        assert(trim_end(local) == local);
    }
    assert(!plausible(local));
    let v = local + seq!['@'] + domain;
    assert forall|i: int| 0 <= i < v.len() implies !is_ws(#[trigger] v[i]) by {
        if i < local.len() {
            assert(v[i] == local[i]);
        } else if i > local.len() {
            assert(v[i] == domain[i - local.len() - 1]);
        }
    }
    assert(trim_start(v) == v);
    assert(trim_end(v) == v);
    assert forall|j: int| 0 <= j < local.len() implies v[j] != '@' by {
        assert(v[j] == local[j]);
    }
    lemma_find_at(v, '@', local.len() as int);
    assert(after(v, '@') =~= domain);
}

fn contains_char(v: &[char], c: char) -> (b: bool)
    ensures
        b == v@.contains(c),
{
    let i = find_char(v, c);
    proof {
        lemma_find(v@, c);
    }
    i < v.len()
}

fn plausible_chars(v: &[char]) -> (b: bool)
    ensures
        b == plausible(v@),
{
    proof {
        lemma_find(v@, '@');
    }
    let at = find_char(v, '@');
    if at == v.len() || at == 0 {
        return false;
    }
    let d = slice_chars(v, at + 1, v.len());
    if d.len() == 0 || !contains_char(d.as_slice(), '.') || d[0] == '.' || d[d.len() - 1] == '.'
        || contains_char(d.as_slice(), '@') {
        return false;
    }
    let mut i: usize = 0;
    while i < v.len()
        invariant
            i <= v.len(),
            forall|j: int| 0 <= j < i ==> !is_ws(#[trigger] v@[j]),
        decreases v.len() - i,
    {
        if is_whitespace(v[i]) {
            return false;
        }
        i = i + 1;
    }
    true
}

/// An e-mail address, together with the key used to compare it.
#[derive(Debug, PartialEq, Eq)]
pub struct Email {
    raw: String,
    key: String,
}

/// What an e-mail address is: the address as written and its key.
pub struct EmailView {
    pub raw: Seq<char>,
    pub key: Seq<char>,
}

impl View for Email {
    type V = EmailView;

    closed spec fn view(&self) -> EmailView {
        EmailView { raw: self.raw@, key: self.key@ }
    }
}

impl Clone for Email {
    fn clone(&self) -> (r: Self)
        ensures
            r@ == self@,
    {
        Email { raw: self.raw.clone(), key: self.key.clone() }
    }
}

/// The view of an optional address.
pub open spec fn email_view_opt(r: Option<Email>) -> Option<EmailView> {
    match r {
        Some(e) => Some(e@),
        None => None,
    }
}

/// The e-mail address read from a raw value, if it is plausible.
pub open spec fn email_spec(raw: Seq<char>, strip_plus_tags: bool) -> Option<EmailView> {
    let r = trim(raw);
    if plausible(r) {
        Some(EmailView { raw: r, key: normalize_spec(strip_plus_tags, r) })
    } else {
        None
    }
}

/// The local part of an address: what precedes the first `@`.
pub open spec fn local_part_spec(raw: Seq<char>) -> Seq<char> {
    before(raw, '@')
}

impl Email {
    pub(crate) fn from_chars(raw: &[char], normalizer: &Normalizer) -> (r: Option<Email>)
        ensures
            email_view_opt(r) == email_spec(raw@, normalizer.strip_plus_tags),
    {
        let t = trim_chars(raw);
        if !plausible_chars(t.as_slice()) {
            return None;
        }
        let raw_s = string_of(t.as_slice());
        let key = normalizer.normalize(raw_s.as_str());
        Some(Email { raw: raw_s, key })
    }

    /// The address read from `raw`, when it is a plausible e-mail address.
    pub fn new(raw: &str, normalizer: &Normalizer) -> (r: Option<Email>)
        ensures
            email_view_opt(r) == email_spec(raw@, normalizer.strip_plus_tags),
    {
        let v = chars_of(raw);
        Email::from_chars(v.as_slice(), normalizer)
    }

    /// The address as written, to be displayed and sent to WordPress.
    pub fn raw(&self) -> (r: &str)
        ensures
            r@ == self@.raw,
    {
        self.raw.as_str()
    }

    /// The normalized comparison key.
    pub fn key(&self) -> (r: &str)
        ensures
            r@ == self@.key,
    {
        self.key.as_str()
    }

    /// Local part of the address as written.
    pub fn local_part(&self) -> (r: &str)
        ensures
            r@ == local_part_spec(self@.raw),
    {
        let v = chars_of(self.raw.as_str());
        let at = find_char(v.as_slice(), '@');
        self.raw.as_str().substring_char(0, at)
    }
}


// ---------------------------------------------------------------------------
// Joining
// ---------------------------------------------------------------------------

/// The parts joined with `sep` between them.
pub open spec fn join(parts: Seq<Seq<char>>, sep: Seq<char>) -> Seq<char>
    decreases parts.len(),
{
    if parts.len() == 0 {
        Seq::empty()
    } else if parts.len() == 1 {
        parts[0]
    } else {
        join(parts.drop_last(), sep) + sep + parts.last()
    }
}

/// Joins strings with a separator.
pub fn join_strs(parts: &Vec<&str>, sep: &str) -> (r: String)
    ensures
        r@ == join(parts@.map_values(|p: &str| p@), sep@),
{
    let ghost pv = parts@.map_values(|p: &str| p@);
    let mut r = String::new();
    let mut i: usize = 0;
    while i < parts.len()
        invariant
            i <= parts.len(),
            pv == parts@.map_values(|p: &str| p@),
            r@ == join(pv.subrange(0, i as int), sep@),
        decreases parts.len() - i,
    {
        if i > 0 {
            push_str(&mut r, sep);
        }
        push_str(&mut r, parts[i]);
        proof {
            let pre = pv.subrange(0, i as int);
            let post = pv.subrange(0, i + 1);
            assert(post.drop_last() =~= pre);
            if i == 0 {
                assert(r@ =~= post[0]);
            }
        }
        i = i + 1;
    }
    assert(pv.subrange(0, parts.len() as int) =~= pv);
    r
}

// ---------------------------------------------------------------------------
// Identities
// ---------------------------------------------------------------------------

/// One line of the reference file: one person who must exist in WordPress.
#[derive(Debug)]
pub struct Identity {
    /// 1-based line number in the reference file; 0 when the identity does
    /// not come from a file (see `Identity::ad_hoc`).
    pub line: usize,
    /// The address as listed; the one used if the account has to be created.
    pub email: Email,
    /// Key shared with every alias of this address (see `AliasMap`).
    pub class: String,
}

/// What an identity is.
pub struct IdentityView {
    pub line: int,
    pub email: EmailView,
    pub class: Seq<char>,
}

impl View for Identity {
    type V = IdentityView;

    open spec fn view(&self) -> IdentityView {
        IdentityView { line: self.line as int, email: self.email@, class: self.class@ }
    }
}

impl Clone for Identity {
    fn clone(&self) -> (r: Self)
        ensures
            r@ == self@,
    {
        Identity { line: self.line, email: self.email.clone(), class: self.class.clone() }
    }
}

/// The views of a list of identities.
pub open spec fn identity_views(ids: Seq<Identity>) -> Seq<IdentityView> {
    ids.map_values(|i: Identity| i@)
}

/// The other addresses of a group, as written, in the group's order.
pub open spec fn other_raws(es: Seq<crate::reference::EmailView>, key: Seq<char>) -> Seq<Seq<char>> {
    es.filter(|e: EmailView| e.key != key).map_values(|e: EmailView| e.raw)
}

/// How an identity is displayed: its address, followed by its aliases.
pub open spec fn identity_display(id: IdentityView, gs: Seq<GroupView>) -> Seq<char> {
    let g = group_index(gs, id.email.key);
    if g < gs.len() && other_raws(gs[g].emails, id.email.key).len() > 0 {
        id.email.raw + "  (aliases: "@ + join(other_raws(gs[g].emails, id.email.key), ", "@) + ")"@
    } else {
        id.email.raw
    }
}

/// Each part of a joined text occurs in it.
proof fn lemma_join_contains(parts: Seq<Seq<char>>, sep: Seq<char>, m: int)
    requires
        0 <= m < parts.len(),
    ensures
        exists|off: int|
            0 <= off && off + parts[m].len() <= join(parts, sep).len() && #[trigger] join(parts, sep).subrange(
                off,
                off + parts[m].len(),
            ) == parts[m],
    decreases parts.len(),
{
    let j = join(parts, sep);
    if parts.len() == 1 {
        let off: int = 0;
        assert(j.subrange(off, off + parts[m].len()) =~= parts[m]);
    } else if m == parts.len() - 1 {
        let pre = join(parts.drop_last(), sep) + sep;
        assert(j == pre + parts[m]);
        let off: int = pre.len() as int;
        assert(j.subrange(off, off + parts[m].len()) =~= parts[m]);
    } else {
        lemma_join_contains(parts.drop_last(), sep, m);
        let inner = join(parts.drop_last(), sep);
        assert(parts.drop_last()[m] == parts[m]);
        let off = choose|off: int|
            0 <= off && off + parts.drop_last()[m].len() <= inner.len() && #[trigger] inner.subrange(
                off,
                off + parts.drop_last()[m].len(),
            ) == parts.drop_last()[m];
        assert(j == inner + sep + parts.last());
        assert(j.subrange(off, off + parts[m].len()) =~= inner.subrange(off, off + parts[m].len()));
    }
}

/// Law: the display of an identity names every other address of its alias
/// group: each raw address of the group whose key is not the identity's
/// occurs in the displayed text, and the text starts with the identity's
/// own address.
pub proof fn law_display_names_every_alias(id: IdentityView, gs: Seq<GroupView>, j: int)
    requires
        group_index(gs, id.email.key) < gs.len(),
        0 <= j < gs[group_index(gs, id.email.key)].emails.len(),
        gs[group_index(gs, id.email.key)].emails[j].key != id.email.key,
    ensures
        ({
            let raw = gs[group_index(gs, id.email.key)].emails[j].raw;
            let d = identity_display(id, gs);
            exists|off: int| 0 <= off && off + raw.len() <= d.len() && #[trigger] d.subrange(off, off + raw.len()) == raw
        }),
        identity_display(id, gs).subrange(0, id.email.raw.len() as int) == id.email.raw,
{
    let g = group_index(gs, id.email.key);
    let es = gs[g].emails;
    let key = id.email.key;
    let pred = |e: EmailView| e.key != key;
    let kept = es.filter(pred);
    es.lemma_filter_contains(pred, j);
    let m = choose|m: int| 0 <= m < kept.len() && kept[m] == es[j];
    let parts = kept.map_values(|e: EmailView| e.raw);
    assert(other_raws(es, key) == parts);
    assert(parts[m] == es[j].raw);
    lemma_join_contains(parts, ", "@, m);
    let jn = join(parts, ", "@);
    let off = choose|off: int| 0 <= off && off + parts[m].len() <= jn.len() && #[trigger] jn.subrange(off, off + parts[m].len()) == parts[m];
    let head = id.email.raw + "  (aliases: "@;
    let d = identity_display(id, gs);
    assert(d == head + jn + ")"@);
    assert(d.subrange(head.len() + off, head.len() + off + parts[m].len()) =~= jn.subrange(off, off + parts[m].len()));
    assert(d.subrange(0, id.email.raw.len() as int) =~= id.email.raw);
}

/// Law: an identity whose address has no alias group, or whose group holds
/// no other address, is displayed as its address alone.
pub proof fn law_display_without_aliases(id: IdentityView, gs: Seq<GroupView>)
    requires
        group_index(gs, id.email.key) >= gs.len() || forall|j: int|
            0 <= j < gs[group_index(gs, id.email.key)].emails.len() ==> (#[trigger] gs[group_index(
                gs,
                id.email.key,
            )].emails[j]).key == id.email.key,
    ensures
        identity_display(id, gs) == id.email.raw,
{
    let g = group_index(gs, id.email.key);
    if g < gs.len() {
        let es = gs[g].emails;
        let key = id.email.key;
        let pred = |e: EmailView| e.key != key;
        if es.filter(pred).len() > 0 {
            let e = es.filter(pred)[0];
            assert(es.filter(pred).contains(e));
            es.lemma_filter_contains_rev(pred, e);
            let j = choose|j: int| 0 <= j < es.len() && es[j] == e;
            assert(es[j].key == key);
            assert(pred(e));
        }
    }
}

impl Identity {
    /// An identity given on the command line rather than read from the
    /// reference file. It is resolved through the alias map like any other,
    /// so it matches an account registered under one of its aliases.
    pub fn ad_hoc(email: Email, aliases: &AliasMap) -> (r: Identity)
        ensures
            r@ == (IdentityView {
                line: 0,
                email: email@,
                class: class_spec(aliases@.groups, email@.key),
            }),
    {
        let class = string_of(chars_of(aliases.class_of(email.key())).as_slice());
        Identity { line: 0, email, class }
    }

    /// The address of this identity.
    pub fn email(&self) -> (r: &Email)
        ensures
            r@ == self@.email,
    {
        &self.email
    }

    /// The address, plus its known aliases, for display.
    pub fn display(&self, aliases: &AliasMap) -> (r: String)
        ensures
            r@ == identity_display(self@, aliases@.groups),
    {
        let raw = string_of(chars_of(self.email.raw()).as_slice());
        match aliases.group_of(self.email.key()) {
            None => raw,
            Some(group) => {
                let ghost es = group@.emails;
                let ghost key = self@.email.key;
                let ghost pred = |e: EmailView| e.key != key;
                let mut others: Vec<&str> = Vec::new();
                let mut i: usize = 0;
                while i < group.emails.len()
                    invariant
                        i <= group.emails.len(),
                        es == group@.emails,
                        key == self@.email.key,
                        pred == (|e: EmailView| e.key != key),
                        others@.map_values(|p: &str| p@) == es.subrange(0, i as int).filter(pred).map_values(
                            |e: EmailView| e.raw,
                        ),
                    decreases group.emails.len() - i,
                {
                    let ghost before = others@;
                    let e = &group.emails[i];
                    assert(es[i as int] == e@);
                    if !str_eq(e.key(), self.email.key()) {
                        let rr = e.raw();
                        others.push(rr);
                        assert(others@ == before.push(rr));
                        assert(rr@ == e@.raw);
                    }
                    proof {
                        reveal_with_fuel(Seq::filter, 1);
                        let pre = es.subrange(0, i as int);
                        let post = es.subrange(0, i + 1);
                        assert(post.drop_last() =~= pre);
                        assert(post.last() == e@);
                        let fpre = pre.filter(pred);
                        if pred(e@) {
                            assert(post.filter(pred) == fpre.push(e@));
                            assert(fpre.push(e@).map_values(|e: EmailView| e.raw) =~= fpre.map_values(
                                |e: EmailView| e.raw,
                            ).push(e@.raw));
                            assert(others@.map_values(|p: &str| p@) =~= before.map_values(|p: &str| p@).push(e@.raw));
                        } else {
                            assert(post.filter(pred) == fpre);
                        }
                        assert(others@.map_values(|p: &str| p@) =~= post.filter(pred).map_values(
                            |e: EmailView| e.raw,
                        ));
                    }
                    i = i + 1;
                }
                assert(es.subrange(0, es.len() as int) =~= es);
                if others.len() == 0 {
                    raw
                } else {
                    let mut r = raw;
                    push_str(&mut r, "  (aliases: ");
                    let joined = join_strs(&others, ", ");
                    push_str(&mut r, joined.as_str());
                    push_str(&mut r, ")");
                    r
                }
            },
        }
    }
}


// ---------------------------------------------------------------------------
// The reference file
// ---------------------------------------------------------------------------

/// Errors in the reference file. (Reading the file is the caller's
/// business.)
#[derive(Debug)]
pub enum ReferenceError {
    /// The token of a line is not a plausible e-mail address.
    InvalidEmail { line: usize, value: String },
    /// A line holds more than one token.
    SeveralEmails { line: usize, value: String },
    /// The address was already listed on an earlier line.
    DuplicateEmail { line: usize, first_line: usize, value: String },
    /// The address is an alias of an address listed on an earlier line.
    AliasOfAnotherEntry { line: usize, first_line: usize, value: String, other: String },
    /// The file lists no address at all.
    Empty { path: String },
}

/// What a reference file error says.
pub enum ReferenceFault {
    InvalidEmail { line: int, value: Seq<char> },
    SeveralEmails { line: int, value: Seq<char> },
    DuplicateEmail { line: int, first_line: int, value: Seq<char> },
    AliasOfAnotherEntry { line: int, first_line: int, value: Seq<char>, other: Seq<char> },
    Empty { path: Seq<char> },
}

impl View for ReferenceError {
    type V = ReferenceFault;

    open spec fn view(&self) -> ReferenceFault {
        match self {
            ReferenceError::InvalidEmail { line, value } => ReferenceFault::InvalidEmail {
                line: *line as int,
                value: value@,
            },
            ReferenceError::SeveralEmails { line, value } => ReferenceFault::SeveralEmails {
                line: *line as int,
                value: value@,
            },
            ReferenceError::DuplicateEmail { line, first_line, value } => ReferenceFault::DuplicateEmail {
                line: *line as int,
                first_line: *first_line as int,
                value: value@,
            },
            ReferenceError::AliasOfAnotherEntry { line, first_line, value, other } =>
                ReferenceFault::AliasOfAnotherEntry {
                line: *line as int,
                first_line: *first_line as int,
                value: value@,
                other: other@,
            },
            ReferenceError::Empty { path } => ReferenceFault::Empty { path: path@ },
        }
    }
}

/// Index of the first identity of class `class`, or the number of
/// identities.
pub open spec fn class_index(ids: Seq<IdentityView>, class: Seq<char>) -> int
    decreases ids.len(),
{
    if ids.len() == 0 {
        0
    } else if ids[0].class == class {
        0
    } else {
        1 + class_index(ids.drop_first(), class)
    }
}

pub proof fn lemma_class_index(ids: Seq<IdentityView>, class: Seq<char>)
    ensures
        0 <= class_index(ids, class) <= ids.len(),
        forall|j: int| 0 <= j < class_index(ids, class) ==> (#[trigger] ids[j]).class != class,
        class_index(ids, class) < ids.len() ==> ids[class_index(ids, class)].class == class,
    decreases ids.len(),
{
    if ids.len() > 0 && ids[0].class != class {
        lemma_class_index(ids.drop_first(), class);
        assert forall|j: int| 0 <= j < class_index(ids, class) implies (#[trigger] ids[j]).class != class by {
            if j > 0 {
                assert(ids[j] == ids.drop_first()[j - 1]);
            }
        }
    }
}

/// Reading line number `n` of the reference file after the identities
/// `ids`: they are kept as they are for a blank line, extended with the
/// line's identity, or an error is found.
pub open spec fn reference_step(
    ids: Seq<IdentityView>,
    line: Seq<char>,
    n: int,
    strip: bool,
    gs: Seq<GroupView>,
) -> Result<Seq<IdentityView>, ReferenceFault> {
    let text = line_text(line);
    let toks = tokens(text);
    if text.len() == 0 || toks.len() == 0 {
        Ok(ids)
    } else if toks.len() >= 2 {
        Err(ReferenceFault::SeveralEmails { line: n, value: text })
    } else {
        match email_spec(toks[0], strip) {
            None => Err(ReferenceFault::InvalidEmail { line: n, value: toks[0] }),
            Some(e) => {
                let class = class_spec(gs, e.key);
                let p = class_index(ids, class);
                if p < ids.len() {
                    if ids[p].email.key == e.key {
                        Err(
                            ReferenceFault::DuplicateEmail {
                                line: n,
                                first_line: ids[p].line,
                                value: e.raw,
                            },
                        )
                    } else {
                        Err(
                            ReferenceFault::AliasOfAnotherEntry {
                                line: n,
                                first_line: ids[p].line,
                                value: e.raw,
                                other: ids[p].email.raw,
                            },
                        )
                    }
                } else {
                    Ok(ids.push(IdentityView { line: n, email: e, class }))
                }
            },
        }
    }
}

/// The identities of a reference file whose lines are `ls`, or the error of
/// its first faulty line.
pub open spec fn reference_spec(ls: Seq<Seq<char>>, strip: bool, gs: Seq<GroupView>) -> Result<
    Seq<IdentityView>,
    ReferenceFault,
>
    decreases ls.len(),
{
    if ls.len() == 0 {
        Ok(Seq::empty())
    } else {
        match reference_spec(ls.drop_last(), strip, gs) {
            Err(f) => Err(f),
            Ok(ids) => reference_step(ids, ls.last(), ls.len() as int, strip, gs),
        }
    }
}

/// Two lists of groups give every key the same class.
pub open spec fn same_classes(gs1: Seq<GroupView>, gs2: Seq<GroupView>) -> bool {
    forall|k: Seq<char>| #[trigger] class_spec(gs1, k) == class_spec(gs2, k)
}

/// The identities read from a reference file depend on the alias groups
/// only through the class they give each key.
pub proof fn lemma_reference_same_classes(ls: Seq<Seq<char>>, strip: bool, gs1: Seq<GroupView>, gs2: Seq<GroupView>)
    requires
        same_classes(gs1, gs2),
    ensures
        reference_spec(ls, strip, gs1) == reference_spec(ls, strip, gs2),
    decreases ls.len(),
{
    if ls.len() > 0 {
        lemma_reference_same_classes(ls.drop_last(), strip, gs1, gs2);
        let line = ls.last();
        let toks = tokens(line_text(line));
        if toks.len() == 1 {
            if let Some(e) = email_spec(toks[0], strip) {
                assert(class_spec(gs1, e.key) == class_spec(gs2, e.key));
            }
        }
    }
}

/// A line of the reference file that names something, comments and blanks
/// set aside.
pub open spec fn significant(line: Seq<char>) -> bool {
    line_text(line).len() > 0 && tokens(line_text(line)).len() > 0
}

/// Law: an accepted reference file yields an identity for every
/// significant line (with the law above: exactly one, in the order of the
/// lines).
pub proof fn law_reference_one_identity_per_line(ls: Seq<Seq<char>>, strip: bool, gs: Seq<GroupView>)
    ensures
        reference_spec(ls, strip, gs) matches Ok(ids) ==> forall|n: int|
            1 <= n <= ls.len() && #[trigger] significant(ls[n - 1]) ==> exists|i: int|
                0 <= i < ids.len() && ids[i].line == n,
    decreases ls.len(),
{
    if ls.len() > 0 {
        let pre = ls.drop_last();
        law_reference_one_identity_per_line(pre, strip, gs);
        if let Ok(ids) = reference_spec(ls, strip, gs) {
            let ids0 = reference_spec(pre, strip, gs)->Ok_0;
            assert(reference_spec(pre, strip, gs) is Ok);
            assert(reference_step(ids0, ls.last(), ls.len() as int, strip, gs) == Ok::<Seq<IdentityView>, ReferenceFault>(ids));
            assert(ids.len() >= ids0.len());
            assert forall|i: int| 0 <= i < ids0.len() implies ids[i] == ids0[i] by {}
            assert forall|n: int| 1 <= n <= ls.len() && #[trigger] significant(ls[n - 1]) implies exists|i: int|
                0 <= i < ids.len() && ids[i].line == n by {
                if n < ls.len() {
                    assert(ls[n - 1] == pre[n - 1]);
                    assert(significant(pre[n - 1]));
                    let i = choose|i: int| 0 <= i < ids0.len() && ids0[i].line == n;
                    assert(ids[i] == ids0[i]);
                } else {
                    assert(ls[n - 1] == ls.last());
                    assert(ids == ids0.push(ids[ids0.len() as int]));
                    assert(ids[ids0.len() as int].line == n);
                }
            }
        }
    }
}

/// The view of a parse result.
pub open spec fn parse_view(r: Result<Vec<Identity>, ReferenceError>) -> Result<
    Seq<IdentityView>,
    ReferenceFault,
> {
    match r {
        Ok(ids) => Ok(identity_views(ids@)),
        Err(e) => Err(e@),
    }
}

proof fn lemma_reference_err_prefix(ls: Seq<Seq<char>>, strip: bool, gs: Seq<GroupView>, i: int, j: int)
    requires
        0 <= i <= j <= ls.len(),
        reference_spec(ls.subrange(0, i), strip, gs) is Err,
    ensures
        reference_spec(ls.subrange(0, j), strip, gs) == reference_spec(ls.subrange(0, i), strip, gs),
    decreases j - i,
{
    if j > i {
        lemma_reference_err_prefix(ls, strip, gs, i, j - 1);
        assert(ls.subrange(0, j).drop_last() =~= ls.subrange(0, j - 1));
    }
}

/// The identities listed in the reference file content, one per non-blank
/// line, or the error of the first faulty line.
pub fn parse(content: &str, normalizer: &Normalizer, aliases: &AliasMap) -> (r: Result<
    Vec<Identity>,
    ReferenceError,
>)
    ensures
        parse_view(r) == reference_spec(
            crate::text::lines(content@),
            normalizer.strip_plus_tags,
            aliases@.groups,
        ),
{
    let ghost strip = normalizer.strip_plus_tags;
    let ghost gs = aliases@.groups;
    let lines = split_lines(content);
    let ghost lsv = lines@.map_values(|l: Vec<char>| l@);
    let mut identities: Vec<Identity> = Vec::new();
    let mut i: usize = 0;
    assert(identity_views(identities@) =~= Seq::<IdentityView>::empty());
    assert(lsv.subrange(0, 0) =~= Seq::<Seq<char>>::empty());
    while i < lines.len()
        invariant
            i <= lines.len(),
            strip == normalizer.strip_plus_tags,
            gs == aliases@.groups,
            lsv == lines@.map_values(|l: Vec<char>| l@),
            lsv == crate::text::lines(content@),
            reference_spec(lsv.subrange(0, i as int), strip, gs) == Ok::<Seq<IdentityView>, ReferenceFault>(identity_views(identities@)),
        decreases lines.len() - i,
    {
        let ghost pre = lsv.subrange(0, i as int);
        let ghost post = lsv.subrange(0, i + 1);
        let ghost ids = identity_views(identities@);
        assert(post.drop_last() =~= pre);
        assert(lines@[i as int]@ == lsv[i as int]);
        assert(post.last() == lsv[i as int]);
        let n = i + 1;
        let text = text_of_line(lines[i].as_slice());
        if text.len() > 0 {
            let toks = split_tokens(text.as_slice());
            let ghost tv = toks@.map_values(|t: Vec<char>| t@);
            if toks.len() >= 2 {
                proof {
                    lemma_reference_err_prefix(lsv, strip, gs, i + 1, lsv.len() as int);
                    assert(lsv.subrange(0, lsv.len() as int) =~= lsv);
                }
                return Err(ReferenceError::SeveralEmails { line: n, value: string_of(text.as_slice()) });
            }
            if toks.len() == 1 {
                assert(tv[0] == toks@[0]@);
                let email = match Email::from_chars(toks[0].as_slice(), normalizer) {
                    Some(e) => e,
                    None => {
                        proof {
                            lemma_reference_err_prefix(lsv, strip, gs, i + 1, lsv.len() as int);
                            assert(lsv.subrange(0, lsv.len() as int) =~= lsv);
                        }
                        return Err(ReferenceError::InvalidEmail { line: n, value: string_of(toks[0].as_slice()) });
                    },
                };
                let class = string_of(chars_of(aliases.class_of(email.key())).as_slice());
                proof {
                    lemma_class_index(ids, class@);
                }
                let mut p: usize = 0;
                #[verifier::loop_isolation(false)]
                while p < identities.len()
                    invariant
                        p <= identities.len(),
                        ids == identity_views(identities@),
                        forall|j: int| 0 <= j < p ==> (#[trigger] ids[j]).class != class@,
                        0 <= class_index(ids, class@) <= ids.len(),
                        forall|j: int| 0 <= j < class_index(ids, class@) ==> (#[trigger] ids[j]).class != class@,
                        class_index(ids, class@) < ids.len() ==> ids[class_index(ids, class@)].class == class@,
                    decreases identities.len() - p,
                {
                    assert(ids[p as int] == identities@[p as int]@);
                    if str_eq(identities[p].class.as_str(), class.as_str()) {
                        let previous = &identities[p];
                        let err = if str_eq(previous.email.key(), email.key()) {
                            ReferenceError::DuplicateEmail {
                                line: n,
                                first_line: previous.line,
                                value: string_of(chars_of(email.raw()).as_slice()),
                            }
                        } else {
                            ReferenceError::AliasOfAnotherEntry {
                                line: n,
                                first_line: previous.line,
                                value: string_of(chars_of(email.raw()).as_slice()),
                                other: string_of(chars_of(previous.email.raw()).as_slice()),
                            }
                        };
                        proof {
                            assert(class_index(ids, class@) == p);
                            lemma_reference_err_prefix(lsv, strip, gs, i + 1, lsv.len() as int);
                            assert(lsv.subrange(0, lsv.len() as int) =~= lsv);
                        }
                        return Err(err);
                    }
                    p = p + 1;
                }
                let ghost ev = email@;
                identities.push(Identity { line: n, email, class });
                assert(identity_views(identities@) =~= ids.push(IdentityView { line: n as int, email: ev, class: class_spec(gs, ev.key) }));
            }
        }
        i = i + 1;
    }
    assert(lsv.subrange(0, lines.len() as int) =~= lsv);
    Ok(identities)
}

/// The reference file content read from `path`.
#[derive(Debug)]
pub struct Reference {
    pub path: String,
    pub identities: Vec<Identity>,
}

impl Reference {
    /// The reference read from the content of the file at `path`: its
    /// identities, the error of its first faulty line, or `Empty` when it
    /// lists nobody.
    pub fn from_file_content(
        path: &str,
        content: &str,
        normalizer: &Normalizer,
        aliases: &AliasMap,
    ) -> (r: Result<Reference, ReferenceError>)
        ensures
            match reference_spec(crate::text::lines(content@), normalizer.strip_plus_tags, aliases@.groups) {
                Err(f) => r matches Err(e) && e@ == f,
                Ok(ids) => if ids.len() == 0 {
                    r matches Err(e) && e@ == (ReferenceFault::Empty { path: path@ })
                } else {
                    r matches Ok(rf) && rf.path@ == path@ && identity_views(rf.identities@) == ids
                },
            },
    {
        let identities = parse(content, normalizer, aliases)?;
        let p = string_of(chars_of(path).as_slice());
        if identities.len() == 0 {
            return Err(ReferenceError::Empty { path: p });
        }
        Ok(Reference { path: p, identities })
    }
}


/// Each identity comes from the single address of its own line.
pub open spec fn from_its_line(ls: Seq<Seq<char>>, strip: bool, gs: Seq<GroupView>, id: IdentityView) -> bool {
    let toks = tokens(line_text(ls[id.line - 1]));
    &&& 1 <= id.line <= ls.len()
    &&& toks.len() == 1
    &&& email_spec(toks[0], strip) == Some(id.email)
    &&& id.class == class_spec(gs, id.email.key)
}

/// Law: a reference file that is accepted lists every person once — no two
/// identities share a class, directly or through an alias — and each
/// identity is the single address of its own line, in the order of the
/// lines. The alias file never adds an identity.
pub proof fn law_reference_lists_each_person_once(ls: Seq<Seq<char>>, strip: bool, gs: Seq<GroupView>)
    ensures
        reference_spec(ls, strip, gs) matches Ok(ids) ==> {
            &&& forall|i: int, j: int|
                0 <= i < j < ids.len() ==> (#[trigger] ids[i]).class != (#[trigger] ids[j]).class
                    && ids[i].line < ids[j].line
            &&& forall|i: int| 0 <= i < ids.len() ==> from_its_line(ls, strip, gs, #[trigger] ids[i])
        },
    decreases ls.len(),
{
    if ls.len() > 0 {
        let pre = ls.drop_last();
        law_reference_lists_each_person_once(pre, strip, gs);
        if let Ok(ids0) = reference_spec(pre, strip, gs) {
            assert forall|i: int| 0 <= i < ids0.len() implies from_its_line(ls, strip, gs, #[trigger] ids0[i]) by {
                assert(from_its_line(pre, strip, gs, ids0[i]));
                assert(ls[ids0[i].line - 1] == pre[ids0[i].line - 1]);
            }
            if let Ok(ids) = reference_spec(ls, strip, gs) {
                if ids.len() != ids0.len() {
                    let line = ls.last();
                    let toks = tokens(line_text(line));
                    let e = email_spec(toks[0], strip)->0;
                    let class = class_spec(gs, e.key);
                    lemma_class_index(ids0, class);
                    assert(ids == ids0.push(IdentityView { line: ls.len() as int, email: e, class }));
                    assert forall|i: int, j: int|
                        0 <= i < j < ids.len() implies (#[trigger] ids[i]).class != (#[trigger] ids[j]).class
                            && ids[i].line < ids[j].line by {
                        if j == ids.len() - 1 {
                            assert(ids[i] == ids0[i]);
                            assert(from_its_line(pre, strip, gs, ids0[i]));
                        } else {
                            assert(ids[i] == ids0[i] && ids[j] == ids0[j]);
                        }
                    }
                    assert forall|i: int| 0 <= i < ids.len() implies from_its_line(ls, strip, gs, #[trigger] ids[i]) by {
                        if i < ids0.len() {
                            assert(ids[i] == ids0[i]);
                        }
                    }
                }
            }
        }
    }
}

} // verus!
