//! The alias file: a pure mapping between e-mail addresses, kept apart from
//! the reference list.
//!
//! One group per line, at least two addresses (separated by whitespace, `,`
//! or `;`) that all designate the same person; blank lines and `#` comments
//! are ignored. A group is a set: neither the order of the addresses on a
//! line nor the order of the lines matters, and lines sharing an address are
//! merged. Being listed here never makes an address a reference entry.

use vstd::prelude::*;

use crate::reference::{email_spec, Email, EmailView, Normalizer};
use crate::text::{
    chars_of, key_less, key_lt, lemma_key_lt_irreflexive, lemma_key_lt_total,
    lemma_key_lt_transitive, line_text, split_tokens, str_eq, string_of, text_of_line, tokens,
};

verus! {

// ---------------------------------------------------------------------------
// Sorted lists of addresses
// ---------------------------------------------------------------------------

/// The keys of a list of addresses.
pub open spec fn keys_of(es: Seq<EmailView>) -> Set<Seq<char>> {
    Set::new(|k: Seq<char>| exists|j: int| 0 <= j < es.len() && #[trigger] es[j].key == k)
}

/// Addresses strictly ordered by key (hence with distinct keys).
pub open spec fn sorted_emails(es: Seq<EmailView>) -> bool {
    forall|i: int, j: int| 0 <= i < j < es.len() ==> key_lt(#[trigger] es[i].key, #[trigger] es[j].key)
}

/// The views of a list of addresses.
pub open spec fn email_views(es: Seq<Email>) -> Seq<EmailView> {
    es.map_values(|e: Email| e@)
}

pub proof fn lemma_sorted_unique(es: Seq<EmailView>, i: int, j: int)
    requires
        sorted_emails(es),
        0 <= i < es.len(),
        0 <= j < es.len(),
        es[i].key == es[j].key,
    ensures
        i == j,
{
    if i < j {
        assert(key_lt(es[i].key, es[j].key));
        lemma_key_lt_irreflexive(es[i].key);
    } else if j < i {
        assert(key_lt(es[j].key, es[i].key));
        lemma_key_lt_irreflexive(es[i].key);
    }
}

/// Inserts an address in a sorted list; an address with the same key is
/// replaced by it.
fn insert_email(v: &mut Vec<Email>, e: Email)
    requires
        sorted_emails(email_views(old(v)@)),
    ensures
        sorted_emails(email_views(final(v)@)),
        keys_of(email_views(final(v)@)) == keys_of(email_views(old(v)@)).insert(e@.key),
        forall|j: int|
            0 <= j < final(v)@.len() && (#[trigger] email_views(final(v)@)[j]).key == e@.key
                ==> email_views(final(v)@)[j] == e@,
        forall|j: int|
            0 <= j < final(v)@.len() && (#[trigger] email_views(final(v)@)[j]).key != e@.key
                ==> exists|i: int|
                0 <= i < old(v)@.len() && email_views(old(v)@)[i] == email_views(final(v)@)[j],
        final(v)@.len() >= old(v)@.len(),
        final(v)@.len() >= 1,
{
    let ghost ov = email_views(v@);
    let ek = chars_of(e.key());
    let mut p: usize = 0;
    while p < v.len() && key_less(chars_of(v[p].key()).as_slice(), ek.as_slice())
        invariant
            p <= v.len(),
            ov == email_views(v@),
            ek@ == e@.key,
            forall|i: int| 0 <= i < p ==> key_lt(#[trigger] ov[i].key, e@.key),
        decreases v.len() - p,
    {
        p = p + 1;
    }
    if p < v.len() && str_eq(v[p].key(), e.key()) {
        v.set(p, e);
        proof {
            let nv = email_views(v@);
            assert(nv =~= ov.update(p as int, e@));
            assert forall|j: int| 0 <= j < nv.len() implies #[trigger] nv[j].key == ov[j].key by {}
            assert(sorted_emails(nv));
            assert(keys_of(nv) =~= keys_of(ov).insert(e@.key)) by {
                assert(nv[p as int].key == ov[p as int].key);
                assert forall|k: Seq<char>| keys_of(ov).contains(k) implies keys_of(nv).contains(k) by {
                    let j = choose|j: int| 0 <= j < ov.len() && ov[j].key == k;
                    assert(nv[j].key == k);
                }
                assert forall|k: Seq<char>| keys_of(nv).contains(k) implies keys_of(ov).insert(e@.key).contains(k) by {
                    let j = choose|j: int| 0 <= j < nv.len() && nv[j].key == k;
                    if j != p {
                        assert(ov[j].key == k);
                    }
                }
            }
            assert forall|j: int|
                0 <= j < v@.len() && (#[trigger] nv[j]).key == e@.key implies nv[j] == e@ by {
                if j != p {
                    assert(nv[j].key == nv[p as int].key);
                    lemma_sorted_unique(ov, j, p as int);
                }
            }
            assert forall|j: int|
                0 <= j < v@.len() && (#[trigger] nv[j]).key != e@.key implies exists|i: int|
                    0 <= i < ov.len() && ov[i] == nv[j] by {
                assert(j != p);
                assert(ov[j] == nv[j]);
            }
        }
    } else {
        let ghost old_v = v@;
        v.insert(p, e);
        proof {
            let nv = email_views(v@);
            assert(nv =~= ov.insert(p as int, e@));
            if p < ov.len() {
                lemma_key_lt_total(ov[p as int].key, e@.key);
            }
            assert forall|i: int, j: int| 0 <= i < j < nv.len() implies key_lt(
                #[trigger] nv[i].key,
                #[trigger] nv[j].key,
            ) by {
                if j < p {
                    assert(nv[i] == ov[i] && nv[j] == ov[j]);
                } else if j == p {
                    assert(nv[i] == ov[i]);
                } else if i == p {
                    assert(nv[j] == ov[j - 1]);
                    if j - 1 > p {
                        assert(key_lt(ov[p as int].key, ov[j - 1].key));
                        lemma_key_lt_transitive(e@.key, ov[p as int].key, ov[j - 1].key);
                    }
                } else if i < p {
                    assert(nv[i] == ov[i]);
                    assert(nv[j] == ov[j - 1]);
                    assert(key_lt(ov[i].key, e@.key));
                    assert(key_lt(e@.key, ov[p as int].key));
                    lemma_key_lt_transitive(ov[i].key, e@.key, ov[p as int].key);
                    if j - 1 > p {
                        lemma_key_lt_transitive(ov[i].key, ov[p as int].key, ov[j - 1].key);
                    }
                } else {
                    assert(nv[i] == ov[i - 1]);
                    assert(nv[j] == ov[j - 1]);
                }
            }
            assert(keys_of(nv) =~= keys_of(ov).insert(e@.key)) by {
                assert forall|k: Seq<char>| keys_of(ov).contains(k) implies keys_of(nv).contains(k) by {
                    let j = choose|j: int| 0 <= j < ov.len() && ov[j].key == k;
                    if j < p {
                        assert(nv[j].key == k);
                    } else {
                        assert(nv[j + 1].key == k);
                    }
                }
                assert(nv[p as int].key == e@.key);
                assert forall|k: Seq<char>| keys_of(nv).contains(k) implies keys_of(ov).insert(e@.key).contains(k) by {
                    let j = choose|j: int| 0 <= j < nv.len() && nv[j].key == k;
                    if j < p {
                        assert(ov[j].key == k);
                    } else if j > p {
                        assert(ov[j - 1].key == k);
                    }
                }
            }
            assert forall|j: int|
                0 <= j < v@.len() && (#[trigger] nv[j]).key == e@.key implies nv[j] == e@ by {
                if j != p {
                    assert(nv[j].key == nv[p as int].key);
                    lemma_sorted_unique(nv, j, p as int);
                }
            }
            assert forall|j: int|
                0 <= j < v@.len() && (#[trigger] nv[j]).key != e@.key implies exists|i: int|
                    0 <= i < ov.len() && ov[i] == nv[j] by {
                if j < p {
                    assert(ov[j] == nv[j]);
                } else {
                    assert(ov[j - 1] == nv[j]);
                }
            }
        }
    }
}


// ---------------------------------------------------------------------------
// One line of the alias file
// ---------------------------------------------------------------------------

/// Errors in the alias file. (Reading the file is the caller's business.)
#[derive(Debug)]
pub enum AliasError {
    /// A token of the line is not a plausible e-mail address.
    InvalidEmail { line: usize, value: String },
    /// The line names fewer than two distinct addresses.
    LonelyEmail { line: usize, value: String },
}

/// What an alias file error says.
pub enum AliasFault {
    InvalidEmail { line: int, value: Seq<char> },
    LonelyEmail { line: int, value: Seq<char> },
}

impl View for AliasError {
    type V = AliasFault;

    open spec fn view(&self) -> AliasFault {
        match self {
            AliasError::InvalidEmail { line, value } => AliasFault::InvalidEmail {
                line: *line as int,
                value: value@,
            },
            AliasError::LonelyEmail { line, value } => AliasFault::LonelyEmail {
                line: *line as int,
                value: value@,
            },
        }
    }
}

/// The tokens of a line of either file: its text before any `#`, trimmed,
/// split at `,`, `;`, spaces and tabs.
pub open spec fn line_tokens(line: Seq<char>) -> Seq<Seq<char>> {
    tokens(line_text(line))
}

/// A line holding nothing but whitespace and comments.
pub open spec fn is_blank(line: Seq<char>) -> bool {
    line_text(line).len() == 0
}

/// The address a token stands for (meaningful when it is valid).
pub open spec fn token_email(t: Seq<char>, strip: bool) -> EmailView {
    email_spec(t, strip)->0
}

/// Index of the first token that is not a plausible address, or the number
/// of tokens when all are.
pub open spec fn first_invalid(toks: Seq<Seq<char>>, strip: bool) -> int
    decreases toks.len(),
{
    if toks.len() == 0 {
        0
    } else if email_spec(toks[0], strip) is None {
        0
    } else {
        1 + first_invalid(toks.drop_first(), strip)
    }
}

pub proof fn lemma_first_invalid(toks: Seq<Seq<char>>, strip: bool)
    ensures
        0 <= first_invalid(toks, strip) <= toks.len(),
        forall|j: int| 0 <= j < first_invalid(toks, strip) ==> email_spec(#[trigger] toks[j], strip) is Some,
        first_invalid(toks, strip) < toks.len() ==> email_spec(toks[first_invalid(toks, strip)], strip) is None,
    decreases toks.len(),
{
    if toks.len() > 0 && email_spec(toks[0], strip) is Some {
        lemma_first_invalid(toks.drop_first(), strip);
        assert forall|j: int| 0 <= j < first_invalid(toks, strip) implies email_spec(#[trigger] toks[j], strip) is Some by {
            if j > 0 {
                assert(toks[j] == toks.drop_first()[j - 1]);
            }
        }
    }
}

/// All the tokens of a line designate one and the same key.
pub open spec fn all_same_key(toks: Seq<Seq<char>>, strip: bool) -> bool {
    forall|i: int, j: int|
        0 <= i < toks.len() && 0 <= j < toks.len() ==> token_email(#[trigger] toks[i], strip).key
            == token_email(#[trigger] toks[j], strip).key
}

/// The error of line number `n`, if it has one: its first token that is not
/// an address, or else the lack of two distinct addresses.
pub open spec fn line_fault(line: Seq<char>, n: int, strip: bool) -> Option<AliasFault> {
    let toks = line_tokens(line);
    if is_blank(line) {
        None
    } else if first_invalid(toks, strip) < toks.len() {
        Some(AliasFault::InvalidEmail { line: n, value: toks[first_invalid(toks, strip)] })
    } else if all_same_key(toks, strip) {
        Some(
            AliasFault::LonelyEmail {
                line: n,
                value: if toks.len() == 0 {
                    Seq::empty()
                } else {
                    token_email(toks.last(), strip).raw
                },
            },
        )
    } else {
        None
    }
}

/// The error of the first faulty line, if any.
pub open spec fn alias_fault(lines: Seq<Seq<char>>, strip: bool) -> Option<AliasFault>
    decreases lines.len(),
{
    if lines.len() == 0 {
        None
    } else {
        match alias_fault(lines.drop_last(), strip) {
            Some(f) => Some(f),
            None => line_fault(lines.last(), lines.len() as int, strip),
        }
    }
}

proof fn lemma_alias_fault_prefix(ls: Seq<Seq<char>>, strip: bool, i: int, j: int)
    requires
        0 <= i <= j <= ls.len(),
        alias_fault(ls.subrange(0, i), strip) is Some,
    ensures
        alias_fault(ls.subrange(0, j), strip) == alias_fault(ls.subrange(0, i), strip),
    decreases j - i,
{
    if j > i {
        lemma_alias_fault_prefix(ls, strip, i, j - 1);
        assert(ls.subrange(0, j).drop_last() =~= ls.subrange(0, j - 1));
    }
}

/// The keys of the addresses of a line.
pub open spec fn line_keys(line: Seq<char>, strip: bool) -> Set<Seq<char>> {
    let toks = line_tokens(line);
    Set::new(
        |k: Seq<char>|
            exists|j: int| 0 <= j < toks.len() && #[trigger] token_email(toks[j], strip).key == k,
    )
}

/// The address as written for key `k` on a line: its last occurrence there.
pub open spec fn line_raw(toks: Seq<Seq<char>>, strip: bool, k: Seq<char>) -> Option<Seq<char>>
    decreases toks.len(),
{
    if toks.len() == 0 {
        None
    } else if token_email(toks.last(), strip).key == k {
        Some(token_email(toks.last(), strip).raw)
    } else {
        line_raw(toks.drop_last(), strip, k)
    }
}

/// The addresses of the first `i` tokens of a line, one per key.
pub open spec fn prefix_keys(ts: Seq<Seq<char>>, strip: bool, i: int) -> Set<Seq<char>> {
    Set::new(|k: Seq<char>| exists|j: int| 0 <= j < i && #[trigger] token_email(ts[j], strip).key == k)
}

proof fn lemma_line_step(
    ts: Seq<Seq<char>>,
    strip: bool,
    i: int,
    before: Seq<EmailView>,
    after: Seq<EmailView>,
    ev: EmailView,
)
    requires
        0 <= i < ts.len(),
        ev == token_email(ts[i], strip),
        keys_of(before) == prefix_keys(ts, strip, i),
        forall|j: int|
            0 <= j < before.len() ==> line_raw(ts.subrange(0, i), strip, (#[trigger] before[j]).key)
                == Some(before[j].raw),
        keys_of(after) == keys_of(before).insert(ev.key),
        forall|j: int| 0 <= j < after.len() && (#[trigger] after[j]).key == ev.key ==> after[j] == ev,
        forall|j: int|
            0 <= j < after.len() && (#[trigger] after[j]).key != ev.key ==> exists|i2: int|
                0 <= i2 < before.len() && before[i2] == after[j],
    ensures
        keys_of(after) == prefix_keys(ts, strip, i + 1),
        forall|j: int|
            0 <= j < after.len() ==> line_raw(ts.subrange(0, i + 1), strip, (#[trigger] after[j]).key)
                == Some(after[j].raw),
{
    let pre = ts.subrange(0, i);
    let post = ts.subrange(0, i + 1);
    assert(post.drop_last() =~= pre);
    assert(post.last() == ts[i]);
    assert forall|j: int| 0 <= j < after.len() implies line_raw(post, strip, (#[trigger] after[j]).key)
        == Some(after[j].raw) by {
        if after[j].key != ev.key {
            let i2 = choose|i2: int| 0 <= i2 < before.len() && before[i2] == after[j];
            assert(line_raw(pre, strip, before[i2].key) == Some(before[i2].raw));
        }
    }
    assert(keys_of(after) =~= prefix_keys(ts, strip, i + 1)) by {
        assert forall|k: Seq<char>| keys_of(after).contains(k) implies #[trigger] prefix_keys(ts, strip, i + 1).contains(k) by {
            if k != ev.key {
                assert(keys_of(before).contains(k));
                assert(prefix_keys(ts, strip, i).contains(k));
                let j = choose|j: int| 0 <= j < i && #[trigger] token_email(ts[j], strip).key == k;
                assert(token_email(ts[j], strip).key == k);
            } else {
                assert(token_email(ts[i], strip).key == k);
            }
        }
        assert forall|k: Seq<char>| #[trigger] prefix_keys(ts, strip, i + 1).contains(k) implies keys_of(after).contains(k) by {
            let j = choose|j: int| 0 <= j < i + 1 && #[trigger] token_email(ts[j], strip).key == k;
            if j < i {
                assert(prefix_keys(ts, strip, i).contains(k));
            }
        }
    }
}

/// Reads one line of the alias file: `None` for a blank line, else its
/// addresses, one per key, ordered by key.
fn read_alias_line(line: &[char], n: usize, normalizer: &Normalizer) -> (r: Result<
    Option<Vec<Email>>,
    AliasError,
>)
    ensures
        match r {
            Err(e) => line_fault(line@, n as int, normalizer.strip_plus_tags) == Some(e@),
            Ok(None) => is_blank(line@),
            Ok(Some(es)) => {
                let toks = line_tokens(line@);
                let strip = normalizer.strip_plus_tags;
                &&& !is_blank(line@)
                &&& line_fault(line@, n as int, strip) is None
                &&& sorted_emails(email_views(es@))
                &&& keys_of(email_views(es@)) == line_keys(line@, strip)
                &&& es@.len() >= 2
                &&& forall|j: int|
                    0 <= j < es@.len() ==> line_raw(toks, strip, (#[trigger] email_views(es@)[j]).key) == Some(
                        email_views(es@)[j].raw,
                    )
            },
        },
{
    let ghost strip = normalizer.strip_plus_tags;
    let text = text_of_line(line);
    if text.len() == 0 {
        return Ok(None);
    }
    let toks = split_tokens(text.as_slice());
    let ghost ts = toks@.map_values(|t: Vec<char>| t@);
    assert(ts == line_tokens(line@));
    proof {
        lemma_first_invalid(ts, strip);
    }
    let mut es: Vec<Email> = Vec::new();
    let mut i: usize = 0;
    while i < toks.len()
        invariant
            i <= toks.len(),
            ts == toks@.map_values(|t: Vec<char>| t@),
            ts == line_tokens(line@),
            strip == normalizer.strip_plus_tags,
            0 <= first_invalid(ts, strip) <= ts.len(),
            forall|j: int| 0 <= j < first_invalid(ts, strip) ==> email_spec(#[trigger] ts[j], strip) is Some,
            first_invalid(ts, strip) < ts.len() ==> email_spec(ts[first_invalid(ts, strip)], strip) is None,
            i <= first_invalid(ts, strip),
            sorted_emails(email_views(es@)),
            keys_of(email_views(es@)) == prefix_keys(ts, strip, i as int),
            forall|j: int|
                0 <= j < es@.len() ==> line_raw(ts.subrange(0, i as int), strip, (#[trigger] email_views(es@)[j]).key) == Some(
                    email_views(es@)[j].raw,
                ),
            i == 0 <==> es@.len() == 0,
        decreases toks.len() - i,
    {
        let e = match Email::from_chars(toks[i].as_slice(), normalizer) {
            Some(e) => e,
            None => {
                proof {
                    if i < first_invalid(ts, strip) {
                        assert(email_spec(ts[i as int], strip) is Some);
                    }
                }
                return Err(AliasError::InvalidEmail { line: n, value: string_of(toks[i].as_slice()) });
            },
        };
        let ghost before = email_views(es@);
        let ghost ev = e@;
        assert(ev == token_email(ts[i as int], strip));
        insert_email(&mut es, e);
        proof {
            lemma_line_step(ts, strip, i as int, before, email_views(es@), ev);
        }
        i = i + 1;
    }
    proof {
        assert(ts.subrange(0, ts.len() as int) =~= ts);
        assert(prefix_keys(ts, strip, ts.len() as int) =~= line_keys(line@, strip));
    }
    if es.len() < 2 {
        let value = if es.len() == 1 {
            string_of(chars_of(es[0].raw()).as_slice())
        } else {
            String::new()
        };
        proof {
            let ev = email_views(es@);
            if es.len() == 1 {
                assert forall|a: int, b: int|
                    0 <= a < ts.len() && 0 <= b < ts.len() implies token_email(#[trigger] ts[a], strip).key
                        == token_email(#[trigger] ts[b], strip).key by {
                    assert(keys_of(ev).contains(token_email(ts[a], strip).key));
                    assert(keys_of(ev).contains(token_email(ts[b], strip).key));
                }
                let last = token_email(ts.last(), strip);
                assert(keys_of(ev).contains(last.key));
                assert(ev[0].key == last.key);
                assert(ts.drop_last().push(ts.last()) =~= ts);
            } else {
                assert(ts.len() == 0);
            }
        }
        return Err(AliasError::LonelyEmail { line: n, value });
    }
    proof {
        let ev = email_views(es@);
        assert(key_lt(ev[0].key, ev[1].key));
        lemma_key_lt_irreflexive(ev[0].key);
        assert(keys_of(ev).contains(ev[0].key));
        assert(keys_of(ev).contains(ev[1].key));
        let a = choose|a: int| 0 <= a < ts.len() && token_email(ts[a], strip).key == ev[0].key;
        let b = choose|b: int| 0 <= b < ts.len() && token_email(ts[b], strip).key == ev[1].key;
        assert(!all_same_key(ts, strip));
    }
    Ok(Some(es))
}

// ---------------------------------------------------------------------------
// Groups
// ---------------------------------------------------------------------------

/// A set of addresses designating the same person.
#[derive(Debug)]
pub struct AliasGroup {
    /// Smallest normalized key of the group; identifies the group without
    /// privileging any address.
    pub canonical: String,
    /// The addresses as written, ordered by normalized key.
    pub emails: Vec<Email>,
    /// Alias file lines this group was built from, in increasing order.
    pub lines: Vec<usize>,
}

/// What a group is.
pub struct GroupView {
    pub canonical: Seq<char>,
    pub emails: Seq<EmailView>,
    pub lines: Seq<usize>,
}

impl View for AliasGroup {
    type V = GroupView;

    open spec fn view(&self) -> GroupView {
        GroupView {
            canonical: self.canonical@,
            emails: email_views(self.emails@),
            lines: self.lines@,
        }
    }
}

/// How a group is displayed: its addresses as written, in key order,
/// separated by ` = `.
pub open spec fn group_display(g: GroupView) -> Seq<char> {
    crate::reference::join(g.emails.map_values(|e: EmailView| e.raw), " = "@)
}

impl AliasGroup {
    /// The addresses of the group, separated by ` = `.
    pub fn display(&self) -> (r: String)
        ensures
            r@ == group_display(self@),
    {
        let mut parts: Vec<&str> = Vec::new();
        let mut i: usize = 0;
        while i < self.emails.len()
            invariant
                i <= self.emails.len(),
                parts@.len() == i,
                forall|j: int| 0 <= j < i ==> (#[trigger] parts@[j])@ == self.emails@[j]@.raw,
            decreases self.emails.len() - i,
        {
            parts.push(self.emails[i].raw());
            i = i + 1;
        }
        assert(parts@.map_values(|p: &str| p@) =~= email_views(self.emails@).map_values(|e: EmailView| e.raw));
        crate::reference::join_strs(&parts, " = ")
    }
}

/// The views of a list of groups.
pub open spec fn group_views(gs: Seq<AliasGroup>) -> Seq<GroupView> {
    gs.map_values(|g: AliasGroup| g@)
}

/// The keys of a group.
pub open spec fn group_keys(g: GroupView) -> Set<Seq<char>> {
    keys_of(g.emails)
}

// ---------------------------------------------------------------------------
// What the groups of an alias file are
// ---------------------------------------------------------------------------

/// Line index `i` exists and is not blank.
pub open spec fn active(ls: Seq<Seq<char>>, i: int) -> bool {
    0 <= i < ls.len() && !is_blank(ls[i])
}

/// Every key named by the lines.
pub open spec fn all_keys(ls: Seq<Seq<char>>, strip: bool) -> Set<Seq<char>> {
    Set::new(
        |k: Seq<char>|
            exists|i: int| active(ls, i) && #[trigger] line_keys(ls[i], strip).contains(k),
    )
}

/// The address as written for key `k`: from the first line naming it, its
/// last occurrence on that line.
pub open spec fn first_raw(ls: Seq<Seq<char>>, strip: bool, k: Seq<char>) -> Option<Seq<char>>
    decreases ls.len(),
{
    if ls.len() == 0 {
        None
    } else {
        match first_raw(ls.drop_last(), strip, k) {
            Some(r) => Some(r),
            None => line_raw(line_tokens(ls.last()), strip, k),
        }
    }
}

/// Line `i` holds a key of `s` and a key of `b` outside `s`.
pub open spec fn crosses(
    ls: Seq<Seq<char>>,
    strip: bool,
    i: int,
    s: Set<Seq<char>>,
    b: Set<Seq<char>>,
) -> bool {
    &&& active(ls, i)
    &&& exists|k: Seq<char>| #[trigger] line_keys(ls[i], strip).contains(k) && s.contains(k)
    &&& exists|k: Seq<char>|
        #[trigger] line_keys(ls[i], strip).contains(k) && b.contains(k) && !s.contains(k)
}

/// The keys of `b` are linked by the lines: no non-empty proper part of `b`
/// is left alone by every line.
pub open spec fn connected(ls: Seq<Seq<char>>, strip: bool, b: Set<Seq<char>>) -> bool {
    forall|s: Set<Seq<char>>|
        #![trigger s.subset_of(b)]
        s.subset_of(b) && (exists|k: Seq<char>| s.contains(k)) && (exists|k: Seq<char>|
            b.contains(k) && !s.contains(k)) ==> exists|i: int| crosses(ls, strip, i, s, b)
}

/// The line numbers of a group: increasing, and exactly the lines whose
/// keys all belong to the group.
pub open spec fn lines_ok(ls: Seq<Seq<char>>, strip: bool, g: GroupView) -> bool {
    &&& g.lines.len() > 0
    &&& forall|a: int, b: int| 0 <= a < b < g.lines.len() ==> #[trigger] g.lines[a] < #[trigger] g.lines[b]
    &&& forall|n: usize|
        #![trigger g.lines.contains(n)]
        g.lines.contains(n) <==> (1 <= n <= ls.len() && active(ls, n - 1) && line_keys(
            ls[n - 1],
            strip,
        ).subset_of(group_keys(g)))
}

/// One group, on its own.
pub open spec fn group_ok(ls: Seq<Seq<char>>, strip: bool, g: GroupView) -> bool {
    &&& g.emails.len() >= 2
    &&& g.canonical == g.emails[0].key
    &&& sorted_emails(g.emails)
    &&& connected(ls, strip, group_keys(g))
    &&& forall|j: int|
        0 <= j < g.emails.len() ==> first_raw(ls, strip, (#[trigger] g.emails[j]).key) == Some(
            g.emails[j].raw,
        )
    &&& lines_ok(ls, strip, g)
}

/// The groups of an alias file whose lines are `ls`: the connected
/// components of the relation "named on the same line", each with its
/// addresses ordered by key and the line numbers it comes from; the groups
/// are ordered by their first line.
pub open spec fn groups_ok(ls: Seq<Seq<char>>, strip: bool, gs: Seq<GroupView>) -> bool {
    &&& forall|g: int| 0 <= g < gs.len() ==> group_ok(ls, strip, #[trigger] gs[g])
    &&& forall|g1: int, g2: int|
        0 <= g1 < gs.len() && 0 <= g2 < gs.len() && g1 != g2 ==> group_keys(#[trigger] gs[g1]).disjoint(
            group_keys(#[trigger] gs[g2]),
        )
    &&& forall|k: Seq<char>|
        #[trigger] all_keys(ls, strip).contains(k) <==> exists|g: int|
            0 <= g < gs.len() && #[trigger] group_keys(gs[g]).contains(k)
    &&& forall|i: int|
        #[trigger] active(ls, i) ==> exists|g: int|
            0 <= g < gs.len() && line_keys(ls[i], strip).subset_of(#[trigger] group_keys(gs[g]))
    &&& forall|g1: int, g2: int|
        0 <= g1 < g2 < gs.len() ==> (#[trigger] gs[g1]).lines[0] < (#[trigger] gs[g2]).lines[0]
}


// ---------------------------------------------------------------------------
// Lemmas on lines
// ---------------------------------------------------------------------------

proof fn lemma_tokens_empty()
    ensures
        tokens(Seq::<char>::empty()).len() == 0,
{
    reveal_with_fuel(crate::text::token_scan, 2);
}

proof fn lemma_blank_no_tokens(line: Seq<char>)
    requires
        is_blank(line),
    ensures
        line_tokens(line).len() == 0,
{
    lemma_tokens_empty();
    assert(line_text(line) =~= Seq::<char>::empty());
}

proof fn lemma_line_raw(toks: Seq<Seq<char>>, strip: bool, k: Seq<char>)
    ensures
        line_raw(toks, strip, k) is Some <==> exists|j: int|
            0 <= j < toks.len() && #[trigger] token_email(toks[j], strip).key == k,
    decreases toks.len(),
{
    if toks.len() > 0 {
        lemma_line_raw(toks.drop_last(), strip, k);
        if exists|j: int| 0 <= j < toks.len() && #[trigger] token_email(toks[j], strip).key == k {
            let j = choose|j: int| 0 <= j < toks.len() && #[trigger] token_email(toks[j], strip).key == k;
            if j < toks.len() - 1 {
                assert(token_email(toks.drop_last()[j], strip).key == k);
            }
        }
        if exists|j: int|
            0 <= j < toks.drop_last().len() && #[trigger] token_email(toks.drop_last()[j], strip).key == k {
            let j = choose|j: int|
                0 <= j < toks.drop_last().len() && #[trigger] token_email(toks.drop_last()[j], strip).key == k;
            assert(token_email(toks[j], strip).key == k);
        }
    }
}

proof fn lemma_first_raw(ls: Seq<Seq<char>>, strip: bool, k: Seq<char>)
    ensures
        first_raw(ls, strip, k) is Some <==> all_keys(ls, strip).contains(k),
    decreases ls.len(),
{
    if ls.len() > 0 {
        let pre = ls.drop_last();
        let l = ls.last();
        lemma_first_raw(pre, strip, k);
        lemma_line_raw(line_tokens(l), strip, k);
        if all_keys(ls, strip).contains(k) {
            let i = choose|i: int| active(ls, i) && #[trigger] line_keys(ls[i], strip).contains(k);
            if i < ls.len() - 1 {
                assert(pre[i] == ls[i]);
                assert(active(pre, i));
                assert(all_keys(pre, strip).contains(k));
            }
        }
        if all_keys(pre, strip).contains(k) {
            let i = choose|i: int| active(pre, i) && #[trigger] line_keys(pre[i], strip).contains(k);
            assert(pre[i] == ls[i]);
            assert(active(ls, i));
        }
        if line_raw(line_tokens(l), strip, k) is Some {
            if is_blank(l) {
                lemma_blank_no_tokens(l);
            }
            assert(line_keys(ls[ls.len() - 1], strip).contains(k));
            assert(active(ls, ls.len() - 1));
        }
    }
}

proof fn lemma_crosses_push(
    ls: Seq<Seq<char>>,
    l: Seq<char>,
    strip: bool,
    i: int,
    s: Set<Seq<char>>,
    b: Set<Seq<char>>,
)
    requires
        crosses(ls, strip, i, s, b),
    ensures
        crosses(ls.push(l), strip, i, s, b),
{
    assert(ls.push(l)[i] == ls[i]);
}

proof fn lemma_connected_push(ls: Seq<Seq<char>>, l: Seq<char>, strip: bool, b: Set<Seq<char>>)
    requires
        connected(ls, strip, b),
    ensures
        connected(ls.push(l), strip, b),
{
    assert forall|s: Set<Seq<char>>|
        #![trigger s.subset_of(b)]
        s.subset_of(b) && (exists|k: Seq<char>| s.contains(k)) && (exists|k: Seq<char>|
            b.contains(k) && !s.contains(k)) implies exists|i: int| crosses(ls.push(l), strip, i, s, b) by {
        let i = choose|i: int| crosses(ls, strip, i, s, b);
        lemma_crosses_push(ls, l, strip, i, s, b);
    }
}

proof fn lemma_connected_use(ls: Seq<Seq<char>>, strip: bool, b: Set<Seq<char>>, s: Set<Seq<char>>, x: Seq<char>, y: Seq<char>)
    requires
        connected(ls, strip, b),
        s.subset_of(b),
        s.contains(x),
        b.contains(y),
        !s.contains(y),
    ensures
        exists|i: int| crosses(ls, strip, i, s, b),
{
    assert(exists|k: Seq<char>| s.contains(k));
    assert(exists|k: Seq<char>| b.contains(k) && !s.contains(k));
}

/// A blank line changes nothing.
proof fn lemma_push_blank(ls: Seq<Seq<char>>, l: Seq<char>, strip: bool, gs: Seq<GroupView>)
    requires
        groups_ok(ls, strip, gs),
        is_blank(l),
    ensures
        groups_ok(ls.push(l), strip, gs),
{
    let ls2 = ls.push(l);
    assert(ls2.drop_last() =~= ls);
    lemma_blank_no_tokens(l);
    assert forall|i: int| 0 <= i < ls.len() implies #[trigger] ls2[i] == ls[i] by {}
    assert forall|k: Seq<char>| #[trigger] first_raw(ls2, strip, k) == first_raw(ls, strip, k) by {
        lemma_line_raw(line_tokens(l), strip, k);
    }
    assert forall|g: int| 0 <= g < gs.len() implies group_ok(ls2, strip, #[trigger] gs[g]) by {
        let gv = gs[g];
        lemma_connected_push(ls, l, strip, group_keys(gv));
        assert forall|n: usize| #![trigger gv.lines.contains(n)]
            gv.lines.contains(n) <==> (1 <= n <= ls2.len() && active(ls2, n - 1) && line_keys(
                ls2[n - 1],
                strip,
            ).subset_of(group_keys(gv))) by {
            if n == ls2.len() {
                assert(!active(ls2, n - 1));
                assert(!(1 <= n <= ls.len()));
            }
        }
    }
    assert forall|k: Seq<char>| #[trigger] all_keys(ls2, strip).contains(k) == all_keys(ls, strip).contains(k) by {
        if all_keys(ls2, strip).contains(k) {
            let i = choose|i: int| active(ls2, i) && #[trigger] line_keys(ls2[i], strip).contains(k);
            assert(active(ls, i));
        }
        if all_keys(ls, strip).contains(k) {
            let i = choose|i: int| active(ls, i) && #[trigger] line_keys(ls[i], strip).contains(k);
            assert(active(ls2, i));
        }
    }
    assert forall|i: int| #[trigger] active(ls2, i) implies exists|g: int|
        0 <= g < gs.len() && line_keys(ls2[i], strip).subset_of(#[trigger] group_keys(gs[g])) by {
        assert(active(ls, i));
    }
}


// ---------------------------------------------------------------------------
// Building blocks of the merge
// ---------------------------------------------------------------------------

impl Clone for AliasGroup {
    fn clone(&self) -> (r: Self)
        ensures
            r@ == self@,
    {
        let mut emails: Vec<Email> = Vec::new();
        let mut i: usize = 0;
        while i < self.emails.len()
            invariant
                i <= self.emails.len(),
                emails@.len() == i,
                forall|j: int| 0 <= j < i ==> (#[trigger] emails@[j])@ == self.emails@[j]@,
            decreases self.emails.len() - i,
        {
            let e = self.emails[i].clone();
            let ghost before = emails@;
            emails.push(e);
            assert(emails@ == before.push(e));
            i = i + 1;
        }
        let mut lines: Vec<usize> = Vec::new();
        let mut j: usize = 0;
        while j < self.lines.len()
            invariant
                j <= self.lines.len(),
                lines@ == self.lines@.subrange(0, j as int),
            decreases self.lines.len() - j,
        {
            lines.push(self.lines[j]);
            j = j + 1;
        }
        assert(email_views(emails@) =~= email_views(self.emails@));
        assert(self.lines@.subrange(0, self.lines@.len() as int) =~= self.lines@);
        AliasGroup { canonical: self.canonical.clone(), emails, lines }
    }
}

/// Whether a key is among the keys of a list of addresses.
fn has_key(es: &Vec<Email>, k: &str) -> (b: bool)
    ensures
        b == keys_of(email_views(es@)).contains(k@),
{
    let mut i: usize = 0;
    while i < es.len()
        invariant
            i <= es.len(),
            forall|j: int| 0 <= j < i ==> (#[trigger] email_views(es@)[j]).key != k@,
        decreases es.len() - i,
    {
        if str_eq(es[i].key(), k) {
            assert(email_views(es@)[i as int].key == k@);
            return true;
        }
        i = i + 1;
    }
    false
}

/// Whether two lists of addresses share a key.
fn shares_key(a: &Vec<Email>, b: &Vec<Email>) -> (r: bool)
    ensures
        r == !keys_of(email_views(a@)).disjoint(keys_of(email_views(b@))),
{
    let mut i: usize = 0;
    while i < a.len()
        invariant
            i <= a.len(),
            forall|j: int| 0 <= j < i ==> !keys_of(email_views(b@)).contains((#[trigger] email_views(a@)[j]).key),
        decreases a.len() - i,
    {
        if has_key(b, a[i].key()) {
            assert(keys_of(email_views(a@)).contains(email_views(a@)[i as int].key));
            return true;
        }
        i = i + 1;
    }
    assert forall|k: Seq<char>| keys_of(email_views(a@)).contains(k) implies !keys_of(email_views(b@)).contains(k) by {
        let j = choose|j: int| 0 <= j < email_views(a@).len() && email_views(a@)[j].key == k;
    }
    false
}

/// Adds the addresses of `src` to the sorted list `v`; the addresses of
/// `src` replace those of `v` that have the same key.
fn absorb_emails(v: &mut Vec<Email>, src: &Vec<Email>)
    requires
        sorted_emails(email_views(old(v)@)),
    ensures
        sorted_emails(email_views(final(v)@)),
        keys_of(email_views(final(v)@)) == keys_of(email_views(old(v)@)).union(
            keys_of(email_views(src@)),
        ),
        forall|j: int|
            0 <= j < final(v)@.len() && keys_of(email_views(src@)).contains(
                (#[trigger] email_views(final(v)@)[j]).key,
            ) ==> exists|i: int|
                0 <= i < src@.len() && email_views(src@)[i] == email_views(final(v)@)[j],
        forall|j: int|
            0 <= j < final(v)@.len() && !keys_of(email_views(src@)).contains(
                (#[trigger] email_views(final(v)@)[j]).key,
            ) ==> exists|i: int|
                0 <= i < old(v)@.len() && email_views(old(v)@)[i] == email_views(final(v)@)[j],
        final(v)@.len() >= old(v)@.len(),
{
    let ghost ov = email_views(v@);
    let ghost sv = email_views(src@);
    let mut i: usize = 0;
    while i < src.len()
        invariant
            i <= src.len(),
            sv == email_views(src@),
            sorted_emails(email_views(v@)),
            keys_of(email_views(v@)) == keys_of(ov).union(keys_of(sv.subrange(0, i as int))),
            forall|j: int|
                0 <= j < v@.len() && keys_of(sv.subrange(0, i as int)).contains(
                    (#[trigger] email_views(v@)[j]).key,
                ) ==> exists|i2: int| 0 <= i2 < i && sv[i2] == email_views(v@)[j],
            forall|j: int|
                0 <= j < v@.len() && !keys_of(sv.subrange(0, i as int)).contains(
                    (#[trigger] email_views(v@)[j]).key,
                ) ==> exists|i2: int| 0 <= i2 < ov.len() && ov[i2] == email_views(v@)[j],
            v@.len() >= ov.len(),
        decreases src.len() - i,
    {
        let ghost before = email_views(v@);
        let e = src[i].clone();
        let ghost ev = e@;
        insert_email(v, e);
        proof {
            let after = email_views(v@);
            let pre = sv.subrange(0, i as int);
            let post = sv.subrange(0, i + 1);
            assert(post =~= pre.push(ev));
            assert(keys_of(post) =~= keys_of(pre).insert(ev.key)) by {
                assert forall|k: Seq<char>| keys_of(post).contains(k) implies keys_of(pre).insert(ev.key).contains(k) by {
                    let j = choose|j: int| 0 <= j < post.len() && post[j].key == k;
                    if j < i {
                        assert(pre[j].key == k);
                    }
                }
                assert forall|k: Seq<char>| keys_of(pre).insert(ev.key).contains(k) implies keys_of(post).contains(k) by {
                    if k == ev.key {
                        assert(post[i as int].key == k);
                    } else {
                        let j = choose|j: int| 0 <= j < pre.len() && pre[j].key == k;
                        assert(post[j].key == k);
                    }
                }
            }
            assert(keys_of(after) =~= keys_of(ov).union(keys_of(post)));
            assert forall|j: int|
                0 <= j < v@.len() && keys_of(post).contains((#[trigger] email_views(v@)[j]).key)
                    implies exists|i2: int| 0 <= i2 < i + 1 && sv[i2] == email_views(v@)[j] by {
                if after[j].key == ev.key {
                    assert(sv[i as int] == after[j]);
                } else {
                    let i3 = choose|i3: int| 0 <= i3 < before.len() && before[i3] == after[j];
                    assert(keys_of(pre).contains(before[i3].key));
                }
            }
            assert forall|j: int|
                0 <= j < v@.len() && !keys_of(post).contains((#[trigger] email_views(v@)[j]).key)
                    implies exists|i2: int| 0 <= i2 < ov.len() && ov[i2] == email_views(v@)[j] by {
                assert(after[j].key != ev.key);
                let i3 = choose|i3: int| 0 <= i3 < before.len() && before[i3] == after[j];
                assert(!keys_of(pre).contains(before[i3].key));
            }
        }
        i = i + 1;
    }
    assert(sv.subrange(0, src@.len() as int) =~= sv);
}

/// Inserts a number in a strictly increasing list, unless it is there.
fn insert_line(v: &mut Vec<usize>, x: usize)
    requires
        forall|a: int, b: int| 0 <= a < b < old(v)@.len() ==> #[trigger] old(v)@[a] < #[trigger] old(v)@[b],
    ensures
        forall|a: int, b: int| 0 <= a < b < final(v)@.len() ==> #[trigger] final(v)@[a] < #[trigger] final(v)@[b],
        forall|y: usize| #[trigger] final(v)@.contains(y) <==> (old(v)@.contains(y) || y == x),
{
    let mut p: usize = 0;
    while p < v.len() && v[p] < x
        invariant
            p <= v.len(),
            forall|a: int| 0 <= a < p ==> #[trigger] v@[a] < x,
        decreases v.len() - p,
    {
        p = p + 1;
    }
    if p < v.len() && v[p] == x {
        return;
    }
    let ghost ov = v@;
    v.insert(p, x);
    proof {
        assert(v@ =~= ov.insert(p as int, x));
        assert forall|a: int, b: int| 0 <= a < b < v@.len() implies #[trigger] v@[a] < #[trigger] v@[b] by {
            if b < p {
            } else if b == p {
            } else if a == p {
                assert(v@[b] == ov[b - 1]);
                assert(ov[p as int] > x);
                if b - 1 > p {
                    assert(ov[p as int] < ov[b - 1]);
                }
            } else if a < p {
                assert(ov[p as int] > x);
                assert(v@[b] == ov[b - 1]);
                if b - 1 > p {
                    assert(ov[p as int] < ov[b - 1]);
                }
            } else {
                assert(v@[a] == ov[a - 1]);
                assert(v@[b] == ov[b - 1]);
            }
        }
        assert forall|y: usize| #[trigger] v@.contains(y) <==> (ov.contains(y) || y == x) by {
            if v@.contains(y) {
                let j = choose|j: int| 0 <= j < v@.len() && v@[j] == y;
                if j < p {
                    assert(ov[j] == y);
                } else if j > p {
                    assert(ov[j - 1] == y);
                }
            }
            if ov.contains(y) {
                let j = choose|j: int| 0 <= j < ov.len() && ov[j] == y;
                if j < p {
                    assert(v@[j] == y);
                } else {
                    assert(v@[j + 1] == y);
                }
            }
            if y == x {
                assert(v@[p as int] == y);
            }
        }
    }
}

/// Adds the numbers of `src` to a strictly increasing list.
fn absorb_lines(v: &mut Vec<usize>, src: &Vec<usize>)
    requires
        forall|a: int, b: int| 0 <= a < b < old(v)@.len() ==> #[trigger] old(v)@[a] < #[trigger] old(v)@[b],
    ensures
        forall|a: int, b: int| 0 <= a < b < final(v)@.len() ==> #[trigger] final(v)@[a] < #[trigger] final(v)@[b],
        forall|y: usize| #[trigger] final(v)@.contains(y) <==> (old(v)@.contains(y) || src@.contains(y)),
{
    let ghost ov = v@;
    let mut i: usize = 0;
    while i < src.len()
        invariant
            i <= src.len(),
            forall|a: int, b: int| 0 <= a < b < v@.len() ==> #[trigger] v@[a] < #[trigger] v@[b],
            forall|y: usize| #[trigger] v@.contains(y) <==> (ov.contains(y) || src@.subrange(0, i as int).contains(y)),
        decreases src.len() - i,
    {
        insert_line(v, src[i]);
        proof {
            let pre = src@.subrange(0, i as int);
            let post = src@.subrange(0, i + 1);
            assert(post =~= pre.push(src@[i as int]));
            assert forall|y: usize| #[trigger] post.contains(y) <==> (pre.contains(y) || y == src@[i as int]) by {
                if post.contains(y) {
                    let j = choose|j: int| 0 <= j < post.len() && post[j] == y;
                    if j < i {
                        assert(pre[j] == y);
                    }
                }
                if pre.contains(y) {
                    let j = choose|j: int| 0 <= j < pre.len() && pre[j] == y;
                    assert(post[j] == y);
                }
                if y == src@[i as int] {
                    assert(post[i as int] == y);
                }
            }
        }
        i = i + 1;
    }
    assert(src@.subrange(0, src@.len() as int) =~= src@);
}


// ---------------------------------------------------------------------------
// Merging a new line into the groups
// ---------------------------------------------------------------------------

/// Group `g` shares a key with `b`.
pub open spec fn touched(g: GroupView, b: Set<Seq<char>>) -> bool {
    !group_keys(g).disjoint(b)
}

/// The keys of the groups before index `upto` that share a key with `b`.
pub open spec fn touched_keys(gs: Seq<GroupView>, b: Set<Seq<char>>, upto: int) -> Set<Seq<char>> {
    Set::new(
        |k: Seq<char>|
            exists|h: int|
                0 <= h < upto && touched(gs[h], b) && #[trigger] group_keys(gs[h]).contains(k),
    )
}

/// What the merged group of a new line satisfies.
pub open spec fn merged_ok(
    ls: Seq<Seq<char>>,
    l: Seq<char>,
    strip: bool,
    gs: Seq<GroupView>,
    m: GroupView,
    first: int,
) -> bool {
    let b = line_keys(l, strip);
    let n = ls.len() + 1;
    &&& m.emails.len() >= 2
    &&& m.canonical == m.emails[0].key
    &&& sorted_emails(m.emails)
    &&& group_keys(m) == b.union(touched_keys(gs, b, gs.len() as int))
    &&& forall|j: int|
        0 <= j < m.emails.len() ==> first_raw(ls.push(l), strip, (#[trigger] m.emails[j]).key)
            == Some(m.emails[j].raw)
    &&& m.lines.len() > 0
    &&& forall|a: int, c: int| 0 <= a < c < m.lines.len() ==> #[trigger] m.lines[a] < #[trigger] m.lines[c]
    &&& forall|x: usize|
        #[trigger] m.lines.contains(x) <==> (x == n || exists|h: int|
            0 <= h < gs.len() && touched(gs[h], b) && #[trigger] gs[h].lines.contains(x))
    &&& 0 <= first <= gs.len()
    &&& (first == gs.len() <==> forall|h: int| 0 <= h < gs.len() ==> !touched(#[trigger] gs[h], b))
    &&& first < gs.len() ==> touched(gs[first], b) && forall|h: int|
        0 <= h < first ==> !touched(#[trigger] gs[h], b)
    &&& m.lines[0] == (if first < gs.len() {
        gs[first].lines[0] as int
    } else {
        n as int
    })
}

/// The group formed by a new line and every group it shares a key with,
/// together with which groups those are and the first of them.
fn build_merged(
    groups: &Vec<AliasGroup>,
    es: &Vec<Email>,
    n: usize,
    Ghost(ls): Ghost<Seq<Seq<char>>>,
    Ghost(l): Ghost<Seq<char>>,
    Ghost(strip): Ghost<bool>,
) -> (r: (AliasGroup, Vec<bool>, usize))
    requires
        groups_ok(ls, strip, group_views(groups@)),
        n == ls.len() + 1,
        sorted_emails(email_views(es@)),
        keys_of(email_views(es@)) == line_keys(l, strip),
        es@.len() >= 2,
        forall|j: int|
            0 <= j < es@.len() ==> line_raw(line_tokens(l), strip, (#[trigger] email_views(es@)[j]).key)
                == Some(email_views(es@)[j].raw),
    ensures
        merged_ok(ls, l, strip, group_views(groups@), r.0@, r.2 as int),
        r.1@.len() == groups@.len(),
        forall|g: int|
            0 <= g < groups@.len() ==> #[trigger] r.1@[g] == touched(group_views(groups@)[g], line_keys(l, strip)),
{
    let ghost gs = group_views(groups@);
    let ghost b = line_keys(l, strip);
    let ghost toks = line_tokens(l);
    let mut m: Vec<Email> = Vec::new();
    absorb_emails(&mut m, es);
    proof {
        assert(keys_of(email_views(Seq::<Email>::empty())) =~= Set::empty());
        let ev = email_views(es@);
        let mv = email_views(m@);
        assert(key_lt(ev[0].key, ev[1].key));
        lemma_key_lt_irreflexive(ev[0].key);
        assert(keys_of(ev).contains(ev[0].key));
        assert(keys_of(ev).contains(ev[1].key));
        assert(keys_of(mv).contains(ev[0].key));
        assert(keys_of(mv).contains(ev[1].key));
        let j0 = choose|j: int| 0 <= j < mv.len() && mv[j].key == ev[0].key;
        let j1 = choose|j: int| 0 <= j < mv.len() && mv[j].key == ev[1].key;
        assert(j0 != j1);
    }
    let mut ml: Vec<usize> = Vec::new();
    let mut tv: Vec<bool> = Vec::new();
    let mut first: usize = groups.len();
    let mut g: usize = 0;
    while g < groups.len()
        invariant
            g <= groups.len(),
            gs == group_views(groups@),
            b == line_keys(l, strip),
            toks == line_tokens(l),
            groups_ok(ls, strip, gs),
            keys_of(email_views(es@)) == b,
            sorted_emails(email_views(m@)),
            m@.len() >= 2,
            keys_of(email_views(m@)) == b.union(touched_keys(gs, b, g as int)),
            forall|j: int|
                0 <= j < m@.len() ==> {
                    let e = #[trigger] email_views(m@)[j];
                    &&& touched_keys(gs, b, g as int).contains(e.key) ==> first_raw(ls, strip, e.key) == Some(e.raw)
                    &&& !touched_keys(gs, b, g as int).contains(e.key) ==> line_raw(toks, strip, e.key) == Some(e.raw)
                },
            forall|a: int, c: int| 0 <= a < c < ml@.len() ==> #[trigger] ml@[a] < #[trigger] ml@[c],
            forall|x: usize|
                #[trigger] ml@.contains(x) <==> exists|h: int|
                    0 <= h < g && touched(gs[h], b) && #[trigger] gs[h].lines.contains(x),
            tv@.len() == g,
            forall|h: int| 0 <= h < g ==> #[trigger] tv@[h] == touched(gs[h], b),
            first <= groups.len(),
            first == groups.len() <==> forall|h: int| 0 <= h < g ==> !touched(#[trigger] gs[h], b),
            first < groups.len() ==> first < g && touched(gs[first as int], b) && forall|h: int|
                0 <= h < first ==> !touched(#[trigger] gs[h], b),
        decreases groups.len() - g,
    {
        let t = shares_key(&groups[g].emails, es);
        assert(gs[g as int] == groups@[g as int]@);
        let ghost mbefore = email_views(m@);
        if t {
            absorb_emails(&mut m, &groups[g].emails);
            absorb_lines(&mut ml, &groups[g].lines);
            if first == groups.len() {
                first = g;
            }
        }
        tv.push(t);
        proof {
            let gv = gs[g as int];
            let tk0 = touched_keys(gs, b, g as int);
            let tk1 = touched_keys(gs, b, g + 1);
            assert(group_ok(ls, strip, gv));
            assert forall|k: Seq<char>| #[trigger] tk1.contains(k) <==> (tk0.contains(k) || (t && group_keys(gv).contains(k))) by {
                if tk1.contains(k) {
                    let h = choose|h: int| 0 <= h < g + 1 && touched(gs[h], b) && #[trigger] group_keys(gs[h]).contains(k);
                    if h < g {
                        assert(tk0.contains(k));
                    }
                }
                if tk0.contains(k) {
                    let h = choose|h: int| 0 <= h < g && touched(gs[h], b) && #[trigger] group_keys(gs[h]).contains(k);
                    assert(tk1.contains(k));
                }
            }
            let mv = email_views(m@);
            assert(keys_of(mv) =~= b.union(tk1));
            assert forall|j: int| 0 <= j < m@.len() implies {
                    let e = #[trigger] email_views(m@)[j];
                    &&& tk1.contains(e.key) ==> first_raw(ls, strip, e.key) == Some(e.raw)
                    &&& !tk1.contains(e.key) ==> line_raw(toks, strip, e.key) == Some(e.raw)
                } by {
                let e = mv[j];
                if t && group_keys(gv).contains(e.key) {
                    let i = choose|i: int| 0 <= i < gv.emails.len() && gv.emails[i] == e;
                    assert(first_raw(ls, strip, gv.emails[i].key) == Some(gv.emails[i].raw));
                } else {
                    if t {
                        let i = choose|i: int| 0 <= i < mbefore.len() && mbefore[i] == e;
                    }
                }
            }
            assert forall|x: usize|
                #[trigger] ml@.contains(x) <==> exists|h: int|
                    0 <= h < g + 1 && touched(gs[h], b) && #[trigger] gs[h].lines.contains(x) by {
                if exists|h: int| 0 <= h < g + 1 && touched(gs[h], b) && #[trigger] gs[h].lines.contains(x) {
                    let h = choose|h: int| 0 <= h < g + 1 && touched(gs[h], b) && #[trigger] gs[h].lines.contains(x);
                    if h < g {
                        assert(exists|h2: int| 0 <= h2 < g && touched(gs[h2], b) && #[trigger] gs[h2].lines.contains(x));
                    }
                }
            }
        }
        g = g + 1;
    }
    proof {
        // every key of the merged group gets the address of its first line
        let mv = email_views(m@);
        let tk = touched_keys(gs, b, gs.len() as int);
        assert(ls.push(l).drop_last() =~= ls);
        assert forall|j: int| 0 <= j < mv.len() implies first_raw(ls.push(l), strip, (#[trigger] mv[j]).key)
            == Some(mv[j].raw) by {
            let k = mv[j].key;
            lemma_first_raw(ls, strip, k);
            if !tk.contains(k) {
                assert(keys_of(mv).contains(k));
                assert(b.contains(k));
                if all_keys(ls, strip).contains(k) {
                    let h = choose|h: int| 0 <= h < gs.len() && #[trigger] group_keys(gs[h]).contains(k);
                    assert(!group_keys(gs[h]).disjoint(b));
                    assert(tk.contains(k));
                }
            }
        }
        // every line number of the touched groups is below `n`
        assert forall|x: usize| #[trigger] ml@.contains(x) implies x < n by {
            let h = choose|h: int| 0 <= h < gs.len() && touched(gs[h], b) && #[trigger] gs[h].lines.contains(x);
            assert(group_ok(ls, strip, gs[h]));
        }
    }
    let ghost ml0 = ml@;
    ml.push(n);
    proof {
        assert forall|a: int, c: int| 0 <= a < c < ml@.len() implies #[trigger] ml@[a] < #[trigger] ml@[c] by {
            if c == ml@.len() - 1 {
                assert(ml0.contains(ml0[a]));
            }
        }
        assert forall|x: usize| #[trigger] ml@.contains(x) <==> (ml0.contains(x) || x == n) by {
            if ml@.contains(x) {
                let j = choose|j: int| 0 <= j < ml@.len() && ml@[j] == x;
                if j < ml0.len() {
                    assert(ml0[j] == x);
                }
            }
            if ml0.contains(x) {
                let j = choose|j: int| 0 <= j < ml0.len() && ml0[j] == x;
                assert(ml@[j] == x);
            }
            if x == n {
                assert(ml@[ml0.len() as int] == x);
            }
        }
        // the first line of the merged group
        if first < groups.len() {
            let gf = gs[first as int];
            assert(group_ok(ls, strip, gf));
            assert(gf.lines.contains(gf.lines[0]));
            assert(ml@.contains(gf.lines[0]));
            let j0 = choose|j: int| 0 <= j < ml@.len() && ml@[j] == gf.lines[0];
            assert(ml@.contains(ml@[0]));
            if ml@[0] != n {
                let h = choose|h: int| 0 <= h < gs.len() && touched(gs[h], b) && #[trigger] gs[h].lines.contains(ml@[0]);
                assert(group_ok(ls, strip, gs[h]));
                let jh = choose|jh: int| 0 <= jh < gs[h].lines.len() && gs[h].lines[jh] == ml@[0];
                if h != first {
                    assert(h > first);
                    assert(gs[first as int].lines[0] < gs[h].lines[0]);
                    if jh > 0 {
                        assert(gs[h].lines[0] < gs[h].lines[jh]);
                    }
                }
                if jh > 0 {
                    assert(gs[h].lines[0] < gs[h].lines[jh]);
                }
                if j0 > 0 {
                    assert(ml@[0] < ml@[j0]);
                }
            } else {
                assert(ml0.len() == 0 || ml0.contains(ml0[0]));
                assert(ml0.contains(gf.lines[0]));
                assert(ml0.len() > 0);
                assert(ml@[0] == ml0[0]);
                assert(ml0[0] < n);
            }
        } else {
            assert forall|x: usize| !ml0.contains(x) by {
                if ml0.contains(x) {
                    let h = choose|h: int| 0 <= h < gs.len() && touched(gs[h], b) && #[trigger] gs[h].lines.contains(x);
                }
            }
            if ml0.len() > 0 {
                assert(ml0.contains(ml0[0]));
            }
        }
        assert(key_lt(email_views(m@)[0].key, email_views(m@)[1].key));
    }
    let canonical = string_of(chars_of(m[0].key()).as_slice());
    let merged = AliasGroup { canonical, emails: m, lines: ml };
    (merged, tv, first)
}


// ---------------------------------------------------------------------------
// The merge keeps the groups right
// ---------------------------------------------------------------------------

proof fn lemma_line_has_keys(l: Seq<char>, n: int, strip: bool)
    requires
        !is_blank(l),
        line_fault(l, n, strip) is None,
    ensures
        exists|k: Seq<char>| line_keys(l, strip).contains(k),
        first_invalid(line_tokens(l), strip) == line_tokens(l).len(),
{
    let toks = line_tokens(l);
    lemma_first_invalid(toks, strip);
    assert(!all_same_key(toks, strip));
    let (a, c) = choose|a: int, c: int|
        0 <= a < toks.len() && 0 <= c < toks.len() && token_email(#[trigger] toks[a], strip).key
            != token_email(#[trigger] toks[c], strip).key;
    assert(line_keys(l, strip).contains(token_email(toks[a], strip).key));
}

proof fn lemma_fault_free_line(ls: Seq<Seq<char>>, strip: bool, i: int)
    requires
        alias_fault(ls, strip) is None,
        active(ls, i),
    ensures
        line_fault(ls[i], i + 1, strip) is None,
        exists|k: Seq<char>| line_keys(ls[i], strip).contains(k),
    decreases ls.len(),
{
    if i < ls.len() - 1 {
        assert(ls.drop_last()[i] == ls[i]);
        lemma_fault_free_line(ls.drop_last(), strip, i);
    } else {
        lemma_line_has_keys(ls[i], i + 1, strip);
    }
}

/// Facts about the lines before and after a new line is added.
proof fn lemma_push_facts(ls: Seq<Seq<char>>, l: Seq<char>, strip: bool)
    ensures
        ls.push(l).drop_last() == ls,
        forall|i: int| 0 <= i < ls.len() ==> #[trigger] ls.push(l)[i] == ls[i],
        forall|i: int| 0 <= i < ls.len() ==> (active(ls.push(l), i) <==> #[trigger] active(ls, i)),
        forall|k: Seq<char>|
            #[trigger] first_raw(ls, strip, k) is Some ==> first_raw(ls.push(l), strip, k) == first_raw(ls, strip, k),
{
    assert(ls.push(l).drop_last() =~= ls);
}

/// A group that the new line does not touch stays as it is.
proof fn lemma_untouched_group(ls: Seq<Seq<char>>, l: Seq<char>, strip: bool, g: GroupView)
    requires
        group_ok(ls, strip, g),
        group_keys(g).disjoint(line_keys(l, strip)),
        exists|k: Seq<char>| line_keys(l, strip).contains(k),
    ensures
        group_ok(ls.push(l), strip, g),
{
    let ls2 = ls.push(l);
    lemma_push_facts(ls, l, strip);
    lemma_connected_push(ls, l, strip, group_keys(g));
    assert forall|j: int| 0 <= j < g.emails.len() implies first_raw(ls2, strip, (#[trigger] g.emails[j]).key)
        == Some(g.emails[j].raw) by {
        assert(first_raw(ls, strip, g.emails[j].key) == Some(g.emails[j].raw));
    }
    assert forall|n: usize|
        #![trigger g.lines.contains(n)]
        g.lines.contains(n) <==> (1 <= n <= ls2.len() && active(ls2, n - 1) && line_keys(
            ls2[n - 1],
            strip,
        ).subset_of(group_keys(g))) by {
        if n == ls2.len() {
            let k = choose|k: Seq<char>| line_keys(l, strip).contains(k);
            assert(ls2[n - 1] == l);
            assert(!group_keys(g).contains(k));
            if g.lines.contains(n) {
                assert(n <= ls.len());
            }
        }
    }
}

/// The merged group is a group of the lines with the new one.
#[verifier::spinoff_prover]
#[verifier::rlimit(40)]
proof fn lemma_merged_group(
    ls: Seq<Seq<char>>,
    l: Seq<char>,
    strip: bool,
    gs: Seq<GroupView>,
    m: GroupView,
    first: int,
)
    requires
        groups_ok(ls, strip, gs),
        alias_fault(ls, strip) is None,
        !is_blank(l),
        line_fault(l, ls.len() + 1 as int, strip) is None,
        merged_ok(ls, l, strip, gs, m, first),
    ensures
        group_ok(ls.push(l), strip, m),
{
    let ls2 = ls.push(l);
    let b = line_keys(l, strip);
    let mk = group_keys(m);
    let tk = touched_keys(gs, b, gs.len() as int);
    lemma_push_facts(ls, l, strip);
    assert(ls2[ls.len() as int] == l);
    assert(active(ls2, ls.len() as int));
    // connected: a part of the merged keys is crossed by the new line or by
    // a line of one of the merged groups
    assert forall|s: Set<Seq<char>>|
        #![trigger s.subset_of(mk)]
        s.subset_of(mk) && (exists|k: Seq<char>| s.contains(k)) && (exists|k: Seq<char>|
            mk.contains(k) && !s.contains(k)) implies exists|i: int| crosses(ls2, strip, i, s, mk) by {
        let i_new = ls.len() as int;
        if crosses(ls2, strip, i_new, s, mk) {
        } else {
            let x = choose|k: Seq<char>| s.contains(k);
            let y = choose|k: Seq<char>| mk.contains(k) && !s.contains(k);
            // the merged group to look into, and a key of it inside and outside `s`
            let (h, inside, outside) = if b.subset_of(s) {
                assert(!b.contains(y));
                assert(tk.contains(y));
                let h = choose|h: int|
                    0 <= h < gs.len() && touched(gs[h], b) && #[trigger] group_keys(gs[h]).contains(y);
                let t = choose|t: Seq<char>| group_keys(gs[h]).contains(t) && b.contains(t);
                (h, t, y)
            } else {
                // no key of the new line is in `s`
                assert forall|k: Seq<char>| b.contains(k) implies !s.contains(k) by {
                    let z = choose|z: Seq<char>| b.contains(z) && !s.contains(z);
                    if s.contains(k) {
                        assert(line_keys(ls2[i_new], strip).contains(k));
                        assert(line_keys(ls2[i_new], strip).contains(z));
                    }
                }
                assert(!b.contains(x));
                assert(tk.contains(x));
                let h = choose|h: int|
                    0 <= h < gs.len() && touched(gs[h], b) && #[trigger] group_keys(gs[h]).contains(x);
                let t = choose|t: Seq<char>| group_keys(gs[h]).contains(t) && b.contains(t);
                (h, x, t)
            };
            let gk = group_keys(gs[h]);
            assert(group_ok(ls, strip, gs[h]));
            let s2 = s.intersect(gk);
            assert(s2.subset_of(gk));
            lemma_connected_use(ls, strip, gk, s2, inside, outside);
            let i = choose|i: int| crosses(ls, strip, i, s2, gk);
            let k1 = choose|k: Seq<char>| #[trigger] line_keys(ls[i], strip).contains(k) && s2.contains(k);
            let k2 = choose|k: Seq<char>|
                #[trigger] line_keys(ls[i], strip).contains(k) && gk.contains(k) && !s2.contains(k);
            assert(tk.contains(k2));
            assert(line_keys(ls2[i], strip).contains(k1));
            assert(line_keys(ls2[i], strip).contains(k2));
            assert(crosses(ls2, strip, i, s, mk));
        }
    }
    // lines
    assert forall|x: usize|
        #![trigger m.lines.contains(x)]
        m.lines.contains(x) <==> (1 <= x <= ls2.len() && active(ls2, x - 1) && line_keys(
            ls2[x - 1],
            strip,
        ).subset_of(mk)) by {
        if x == ls2.len() {
        } else if 1 <= x <= ls.len() && active(ls, x - 1) {
            let li = line_keys(ls[x - 1], strip);
            if m.lines.contains(x) {
                let h = choose|h: int|
                    0 <= h < gs.len() && touched(gs[h], b) && #[trigger] gs[h].lines.contains(x);
                assert(group_ok(ls, strip, gs[h]));
                assert forall|k: Seq<char>| li.contains(k) implies mk.contains(k) by {
                    assert(group_keys(gs[h]).contains(k));
                    assert(tk.contains(k));
                }
            }
            if li.subset_of(mk) {
                let h = choose|h: int|
                    0 <= h < gs.len() && li.subset_of(#[trigger] group_keys(gs[h]));
                lemma_fault_free_line(ls, strip, x - 1);
                let k = choose|k: Seq<char>| li.contains(k);
                assert(mk.contains(k));
                if b.contains(k) {
                    assert(touched(gs[h], b));
                } else {
                    assert(tk.contains(k));
                    let h2 = choose|h2: int|
                        0 <= h2 < gs.len() && touched(gs[h2], b) && #[trigger] group_keys(gs[h2]).contains(k);
                    if h2 != h {
                        assert(group_keys(gs[h]).disjoint(group_keys(gs[h2])));
                    }
                }
                assert(group_ok(ls, strip, gs[h]));
                assert(gs[h].lines.contains(x));
            }
        } else if 1 <= x <= ls.len() {
            if m.lines.contains(x) {
                let h = choose|h: int|
                    0 <= h < gs.len() && touched(gs[h], b) && #[trigger] gs[h].lines.contains(x);
                assert(group_ok(ls, strip, gs[h]));
            }
        } else {
            if m.lines.contains(x) {
                if x != ls2.len() {
                    let h = choose|h: int|
                        0 <= h < gs.len() && touched(gs[h], b) && #[trigger] gs[h].lines.contains(x);
                    assert(group_ok(ls, strip, gs[h]));
                }
            }
        }
    }
}


/// How the new list of groups is made of the old one: the groups the new
/// line does not touch, in their order, and the merged group once.
pub open spec fn rebuilt(
    gs: Seq<GroupView>,
    b: Set<Seq<char>>,
    m: GroupView,
    out: Seq<GroupView>,
    src: Seq<int>,
) -> bool {
    &&& out.len() == src.len()
    &&& forall|j: int|
        0 <= j < out.len() ==> (#[trigger] src[j] == -1 ==> out[j] == m) && (src[j] != -1 ==> 0
            <= src[j] < gs.len() && !touched(gs[src[j]], b) && out[j] == gs[src[j]])
    &&& forall|j1: int, j2: int|
        0 <= j1 < out.len() && 0 <= j2 < out.len() && j1 != j2 ==> #[trigger] src[j1] != #[trigger] src[j2]
    &&& exists|j: int| 0 <= j < out.len() && src[j] == -1
    &&& forall|h: int|
        0 <= h < gs.len() && !touched(#[trigger] gs[h], b) ==> exists|j: int|
            0 <= j < out.len() && src[j] == h
}

/// Adding a line and merging the groups it touches gives the groups of the
/// lines with the new one.
proof fn lemma_merge(
    ls: Seq<Seq<char>>,
    l: Seq<char>,
    strip: bool,
    gs: Seq<GroupView>,
    m: GroupView,
    first: int,
    out: Seq<GroupView>,
    src: Seq<int>,
)
    requires
        groups_ok(ls, strip, gs),
        alias_fault(ls, strip) is None,
        !is_blank(l),
        line_fault(l, ls.len() + 1 as int, strip) is None,
        merged_ok(ls, l, strip, gs, m, first),
        rebuilt(gs, line_keys(l, strip), m, out, src),
        forall|j1: int, j2: int| 0 <= j1 < j2 < out.len() ==> (#[trigger] out[j1]).lines[0] < (#[trigger] out[j2]).lines[0],
    ensures
        groups_ok(ls.push(l), strip, out),
{
    let ls2 = ls.push(l);
    let b = line_keys(l, strip);
    let tk = touched_keys(gs, b, gs.len() as int);
    lemma_push_facts(ls, l, strip);
    lemma_line_has_keys(l, ls.len() + 1 as int, strip);
    assert(ls2[ls.len() as int] == l);
    lemma_merged_group(ls, l, strip, gs, m, first);
    assert forall|j: int| 0 <= j < out.len() implies group_ok(ls2, strip, #[trigger] out[j]) by {
        if src[j] != -1 {
            let h = src[j];
            assert(group_ok(ls, strip, gs[h]));
            assert(!touched(gs[h], b));
            lemma_untouched_group(ls, l, strip, gs[h]);
        }
    }
    assert forall|j1: int, j2: int|
        0 <= j1 < out.len() && 0 <= j2 < out.len() && j1 != j2 implies group_keys(#[trigger] out[j1]).disjoint(
            group_keys(#[trigger] out[j2]),
        ) by {
        if src[j1] != -1 && src[j2] != -1 {
            assert(src[j1] != src[j2]);
        } else if src[j1] == -1 && src[j2] == -1 {
            assert(src[j1] != src[j2]);
        } else {
            let (jo, jm) = if src[j1] == -1 { (j2, j1) } else { (j1, j2) };
            let h = src[jo];
            assert forall|k: Seq<char>| group_keys(gs[h]).contains(k) implies !group_keys(m).contains(k) by {
                if group_keys(m).contains(k) {
                    if b.contains(k) {
                        assert(touched(gs[h], b));
                    } else {
                        assert(tk.contains(k));
                        let h2 = choose|h2: int|
                            0 <= h2 < gs.len() && touched(gs[h2], b) && #[trigger] group_keys(gs[h2]).contains(k);
                        assert(group_keys(gs[h]).disjoint(group_keys(gs[h2])));
                    }
                }
            }
        }
    }
    let jm = choose|j: int| 0 <= j < out.len() && src[j] == -1;
    assert forall|k: Seq<char>|
        #[trigger] all_keys(ls2, strip).contains(k) <==> exists|g: int|
            0 <= g < out.len() && #[trigger] group_keys(out[g]).contains(k) by {
        if all_keys(ls2, strip).contains(k) {
            let i = choose|i: int| active(ls2, i) && #[trigger] line_keys(ls2[i], strip).contains(k);
            if i == ls.len() {
                assert(group_keys(out[jm]).contains(k));
            } else {
                assert(all_keys(ls, strip).contains(k));
                let h = choose|h: int| 0 <= h < gs.len() && #[trigger] group_keys(gs[h]).contains(k);
                if touched(gs[h], b) {
                    assert(tk.contains(k));
                    assert(group_keys(out[jm]).contains(k));
                } else {
                    let j = choose|j: int| 0 <= j < out.len() && src[j] == h;
                    assert(group_keys(out[j]).contains(k));
                }
            }
        }
        if exists|g: int| 0 <= g < out.len() && #[trigger] group_keys(out[g]).contains(k) {
            let g = choose|g: int| 0 <= g < out.len() && #[trigger] group_keys(out[g]).contains(k);
            if src[g] == -1 {
                if b.contains(k) {
                    assert(line_keys(ls2[ls.len() as int], strip).contains(k));
                } else {
                    assert(tk.contains(k));
                    let h2 = choose|h2: int|
                        0 <= h2 < gs.len() && touched(gs[h2], b) && #[trigger] group_keys(gs[h2]).contains(k);
                    assert(all_keys(ls, strip).contains(k));
                    let i = choose|i: int| active(ls, i) && #[trigger] line_keys(ls[i], strip).contains(k);
                    assert(line_keys(ls2[i], strip).contains(k));
                }
            } else {
                assert(group_keys(gs[src[g]]).contains(k));
                assert(all_keys(ls, strip).contains(k));
                let i = choose|i: int| active(ls, i) && #[trigger] line_keys(ls[i], strip).contains(k);
                assert(line_keys(ls2[i], strip).contains(k));
            }
        }
    }
    assert forall|i: int| #[trigger] active(ls2, i) implies exists|g: int|
        0 <= g < out.len() && line_keys(ls2[i], strip).subset_of(#[trigger] group_keys(out[g])) by {
        if i == ls.len() {
            assert(line_keys(ls2[i], strip).subset_of(group_keys(out[jm])));
        } else {
            assert(active(ls, i));
            let h = choose|h: int| 0 <= h < gs.len() && line_keys(ls[i], strip).subset_of(#[trigger] group_keys(gs[h]));
            if touched(gs[h], b) {
                assert forall|k: Seq<char>| line_keys(ls2[i], strip).contains(k) implies group_keys(out[jm]).contains(k) by {
                    assert(group_keys(gs[h]).contains(k));
                    assert(tk.contains(k));
                }
            } else {
                let j = choose|j: int| 0 <= j < out.len() && src[j] == h;
                assert(line_keys(ls2[i], strip).subset_of(group_keys(out[j])));
            }
        }
    }
}


/// The new list of groups: the untouched ones in order, the merged group in
/// place of the first touched one (or last when none is touched).
fn rebuild(
    groups: &Vec<AliasGroup>,
    merged: AliasGroup,
    tv: &Vec<bool>,
    first: usize,
    Ghost(ls): Ghost<Seq<Seq<char>>>,
    Ghost(l): Ghost<Seq<char>>,
    Ghost(strip): Ghost<bool>,
) -> (r: (Vec<AliasGroup>, Ghost<Seq<int>>))
    requires
        groups_ok(ls, strip, group_views(groups@)),
        merged_ok(ls, l, strip, group_views(groups@), merged@, first as int),
        tv@.len() == groups@.len(),
        forall|g: int|
            0 <= g < groups@.len() ==> #[trigger] tv@[g] == touched(group_views(groups@)[g], line_keys(l, strip)),
    ensures
        rebuilt(group_views(groups@), line_keys(l, strip), merged@, group_views(r.0@), r.1@),
        forall|j1: int, j2: int|
            0 <= j1 < j2 < r.0@.len() ==> (#[trigger] group_views(r.0@)[j1]).lines[0] < (
            #[trigger] group_views(r.0@)[j2]).lines[0],
{
    let ghost gs = group_views(groups@);
    let ghost b = line_keys(l, strip);
    let ghost mv = merged@;
    let mut out: Vec<AliasGroup> = Vec::new();
    let ghost mut src: Seq<int> = Seq::empty();
    let mut g: usize = 0;
    while g < groups.len()
        invariant
            g <= groups.len(),
            gs == group_views(groups@),
            b == line_keys(l, strip),
            mv == merged@,
            groups_ok(ls, strip, gs),
            merged_ok(ls, l, strip, gs, mv, first as int),
            tv@.len() == groups@.len(),
            forall|h: int| 0 <= h < groups@.len() ==> #[trigger] tv@[h] == touched(gs[h], b),
            src.len() == out@.len(),
            forall|j: int|
                0 <= j < out@.len() ==> (#[trigger] src[j] == -1 ==> group_views(out@)[j] == mv) && (src[j]
                    != -1 ==> 0 <= src[j] < g && !touched(gs[src[j]], b) && group_views(out@)[j]
                    == gs[src[j]]),
            forall|j1: int, j2: int|
                0 <= j1 < out@.len() && 0 <= j2 < out@.len() && j1 != j2 ==> #[trigger] src[j1]
                    != #[trigger] src[j2],
            (first < g) <==> exists|j: int| 0 <= j < out@.len() && src[j] == -1,
            forall|h: int|
                0 <= h < g && !touched(#[trigger] gs[h], b) ==> exists|j: int|
                    0 <= j < out@.len() && src[j] == h,
            forall|j1: int, j2: int|
                0 <= j1 < j2 < out@.len() ==> (#[trigger] group_views(out@)[j1]).lines[0] < (
                #[trigger] group_views(out@)[j2]).lines[0],
            forall|j: int, h: int|
                0 <= j < out@.len() && g <= h < gs.len() ==> (#[trigger] group_views(out@)[j]).lines[0]
                    < (#[trigger] gs[h]).lines[0],
        decreases groups.len() - g,
    {
        let ghost before = group_views(out@);
        let ghost osrc = src;
        if g == first {
            let c = merged.clone();
            out.push(c);
            proof {
                src = src.push(-1);
                let after = group_views(out@);
                assert forall|j: int| 0 <= j < before.len() implies #[trigger] after[j] == before[j] by {}
                assert(after[before.len() as int] == mv);
                assert forall|j: int, h: int|
                    0 <= j < after.len() && g + 1 <= h < gs.len() implies (#[trigger] after[j]).lines[0]
                        < (#[trigger] gs[h]).lines[0] by {
                    if j == before.len() {
                        assert(gs[first as int].lines[0] < gs[h].lines[0]);
                    } else {
                        assert(before[j].lines[0] < gs[h].lines[0]);
                    }
                }
                assert forall|h: int|
                    0 <= h < g + 1 && !touched(#[trigger] gs[h], b) implies exists|j: int|
                        0 <= j < out@.len() && src[j] == h by {
                    let j = choose|j: int| 0 <= j < before.len() && osrc[j] == h;
                    assert(src[j] == h);
                }
            }
        } else if !tv[g] {
            let c = groups[g].clone();
            out.push(c);
            proof {
                src = src.push(g as int);
                let after = group_views(out@);
                assert(gs[g as int] == groups@[g as int]@);
                assert forall|j: int| 0 <= j < before.len() implies #[trigger] after[j] == before[j] by {}
                assert(after[before.len() as int] == gs[g as int]);
                assert forall|j: int, h: int|
                    0 <= j < after.len() && g + 1 <= h < gs.len() implies (#[trigger] after[j]).lines[0]
                        < (#[trigger] gs[h]).lines[0] by {
                    if j == before.len() {
                        assert(gs[g as int].lines[0] < gs[h].lines[0]);
                    } else {
                        assert(before[j].lines[0] < gs[h].lines[0]);
                    }
                }
                assert forall|j1: int, j2: int|
                    0 <= j1 < j2 < after.len() implies (#[trigger] after[j1]).lines[0] < (
                    #[trigger] after[j2]).lines[0] by {
                    if j2 == before.len() {
                        assert(before[j1].lines[0] < gs[g as int].lines[0]);
                    }
                }
                assert forall|h: int|
                    0 <= h < g + 1 && !touched(#[trigger] gs[h], b) implies exists|j: int|
                        0 <= j < out@.len() && src[j] == h by {
                    if h == g {
                        assert(src[before.len() as int] == h);
                    } else {
                        let j = choose|j: int| 0 <= j < before.len() && osrc[j] == h;
                        assert(src[j] == h);
                    }
                }
            }
        } else {
            proof {
                assert forall|h: int|
                    0 <= h < g + 1 && !touched(#[trigger] gs[h], b) implies exists|j: int|
                        0 <= j < out@.len() && src[j] == h by {
                    if h == g {
                        assert(tv@[h] == touched(gs[h], b));
                    }
                }
            }
        }
        proof {
            if exists|j: int| 0 <= j < out@.len() && src[j] == -1 {
                let j = choose|j: int| 0 <= j < out@.len() && src[j] == -1;
                if j < before.len() {
                    assert(osrc[j] == -1);
                } else {
                    assert(g == first);
                }
            }
            if first < g {
                let j = choose|j: int| 0 <= j < before.len() && osrc[j] == -1;
                assert(src[j] == -1);
            }
            if first == g {
                assert(src[before.len() as int] == -1);
            }
        }
        g = g + 1;
    }
    proof {
        if first < groups.len() {
            let j = choose|j: int| 0 <= j < out@.len() && src[j] == -1;
            assert(src[j] == -1);
        }
    }
    if first == groups.len() {
        let ghost before = group_views(out@);
        let ghost osrc = src;
        out.push(merged);
        proof {
            src = src.push(-1);
            let after = group_views(out@);
            assert forall|j: int| 0 <= j < before.len() implies #[trigger] after[j] == before[j] by {}
            assert(after[before.len() as int] == mv);
            assert forall|j1: int, j2: int|
                0 <= j1 < j2 < after.len() implies (#[trigger] after[j1]).lines[0] < (
                #[trigger] after[j2]).lines[0] by {
                if j2 == before.len() {
                    let h = src[j1];
                    assert(group_ok(ls, strip, gs[h]));
                    assert(gs[h].lines.contains(gs[h].lines[0]));
                }
            }
            assert(src[before.len() as int] == -1);
            assert forall|h: int|
                0 <= h < gs.len() && !touched(#[trigger] gs[h], b) implies exists|j: int|
                    0 <= j < out@.len() && src[j] == h by {
                let j = choose|j: int| 0 <= j < before.len() && osrc[j] == h;
                assert(src[j] == h);
            }
        }
    }
    (out, Ghost(src))
}

// ---------------------------------------------------------------------------
// The alias map
// ---------------------------------------------------------------------------

/// The mapping itself: from any known address to the group it belongs to.
#[derive(Debug)]
pub struct AliasMap {
    path: Option<String>,
    groups: Vec<AliasGroup>,
}

/// What an alias map is: where it was read from, and its groups.
pub struct AliasMapView {
    pub path: Option<Seq<char>>,
    pub groups: Seq<GroupView>,
}

impl View for AliasMap {
    type V = AliasMapView;

    closed spec fn view(&self) -> AliasMapView {
        AliasMapView {
            path: match self.path {
                Some(p) => Some(p@),
                None => None,
            },
            groups: group_views(self.groups@),
        }
    }
}

/// Index of the first group holding key `k`, or the number of groups.
pub open spec fn group_index(gs: Seq<GroupView>, k: Seq<char>) -> int
    decreases gs.len(),
{
    if gs.len() == 0 {
        0
    } else if group_keys(gs[0]).contains(k) {
        0
    } else {
        1 + group_index(gs.drop_first(), k)
    }
}

pub proof fn lemma_group_index(gs: Seq<GroupView>, k: Seq<char>)
    ensures
        0 <= group_index(gs, k) <= gs.len(),
        forall|g: int| 0 <= g < group_index(gs, k) ==> !group_keys(#[trigger] gs[g]).contains(k),
        group_index(gs, k) < gs.len() ==> group_keys(gs[group_index(gs, k)]).contains(k),
    decreases gs.len(),
{
    if gs.len() > 0 && !group_keys(gs[0]).contains(k) {
        lemma_group_index(gs.drop_first(), k);
        assert forall|g: int| 0 <= g < group_index(gs, k) implies !group_keys(#[trigger] gs[g]).contains(k) by {
            if g > 0 {
                assert(gs[g] == gs.drop_first()[g - 1]);
            }
        }
    }
}

/// The key identifying the person behind key `k`: the canonical key of its
/// group, or `k` itself when it has no alias.
pub open spec fn class_spec(gs: Seq<GroupView>, k: Seq<char>) -> Seq<char> {
    if group_index(gs, k) < gs.len() {
        gs[group_index(gs, k)].canonical
    } else {
        k
    }
}

impl AliasMap {
    /// The map without any alias: every address stands for itself.
    pub fn empty() -> (r: AliasMap)
        ensures
            r@.path is None,
            r@.groups == Seq::<GroupView>::empty(),
    {
        let r = AliasMap { path: None, groups: Vec::new() };
        assert(r@.groups =~= Seq::<GroupView>::empty());
        r
    }

    /// The file the map was read from, if any.
    pub fn path(&self) -> (r: Option<&str>)
        ensures
            match r {
                Some(p) => self@.path == Some(p@),
                None => self@.path is None,
            },
    {
        match &self.path {
            Some(p) => Some(p.as_str()),
            None => None,
        }
    }

    /// The groups, ordered by their first line.
    pub fn groups(&self) -> (r: &[AliasGroup])
        ensures
            group_views(r@) == self@.groups,
    {
        self.groups.as_slice()
    }

    /// The key identifying the person behind this address: the canonical
    /// key of its alias group, or the address itself when it has no alias.
    pub fn class_of<'a>(&'a self, key: &'a str) -> (r: &'a str)
        ensures
            r@ == class_spec(self@.groups, key@),
    {
        let ghost gs = self@.groups;
        proof {
            lemma_group_index(gs, key@);
        }
        let mut g: usize = 0;
        while g < self.groups.len()
            invariant
                g <= self.groups.len(),
                gs == group_views(self.groups@),
                forall|h: int| 0 <= h < g ==> !group_keys(#[trigger] gs[h]).contains(key@),
                0 <= group_index(gs, key@) <= gs.len(),
                forall|h: int| 0 <= h < group_index(gs, key@) ==> !group_keys(#[trigger] gs[h]).contains(key@),
                group_index(gs, key@) < gs.len() ==> group_keys(gs[group_index(gs, key@)]).contains(key@),
            decreases self.groups.len() - g,
        {
            if has_key(&self.groups[g].emails, key) {
                assert(gs[g as int] == self.groups@[g as int]@);
                return self.groups[g].canonical.as_str();
            }
            assert(gs[g as int] == self.groups@[g as int]@);
            g = g + 1;
        }
        key
    }

    /// The group of this address, if it has one.
    pub fn group_of(&self, key: &str) -> (r: Option<&AliasGroup>)
        ensures
            match r {
                Some(g) => group_index(self@.groups, key@) < self@.groups.len() && g@
                    == self@.groups[group_index(self@.groups, key@)],
                None => group_index(self@.groups, key@) == self@.groups.len(),
            },
    {
        let ghost gs = self@.groups;
        proof {
            lemma_group_index(gs, key@);
        }
        let mut g: usize = 0;
        while g < self.groups.len()
            invariant
                g <= self.groups.len(),
                gs == group_views(self.groups@),
                forall|h: int| 0 <= h < g ==> !group_keys(#[trigger] gs[h]).contains(key@),
                0 <= group_index(gs, key@) <= gs.len(),
                forall|h: int| 0 <= h < group_index(gs, key@) ==> !group_keys(#[trigger] gs[h]).contains(key@),
                group_index(gs, key@) < gs.len() ==> group_keys(gs[group_index(gs, key@)]).contains(key@),
            decreases self.groups.len() - g,
        {
            assert(gs[g as int] == self.groups@[g as int]@);
            if has_key(&self.groups[g].emails, key) {
                return Some(&self.groups[g]);
            }
            g = g + 1;
        }
        None
    }

    /// Reads the alias file content: its groups, or the error of its first
    /// faulty line.
    pub fn parse(content: &str, normalizer: &Normalizer) -> (r: Result<AliasMap, AliasError>)
        ensures
            match r {
                Ok(m) => {
                    &&& alias_fault(crate::text::lines(content@), normalizer.strip_plus_tags) is None
                    &&& m@.path is None
                    &&& groups_ok(crate::text::lines(content@), normalizer.strip_plus_tags, m@.groups)
                },
                Err(e) => alias_fault(crate::text::lines(content@), normalizer.strip_plus_tags)
                    == Some(e@),
            },
    {
        let ghost strip = normalizer.strip_plus_tags;
        let lines = crate::text::split_lines(content);
        let ghost lsv = lines@.map_values(|l: Vec<char>| l@);
        let mut groups: Vec<AliasGroup> = Vec::new();
        let mut i: usize = 0;
        proof {
            let e = lsv.subrange(0, 0);
            assert(all_keys(e, strip) =~= Set::empty());
            assert(group_views(groups@) =~= Seq::<GroupView>::empty());
        }
        while i < lines.len()
            invariant
                i <= lines.len(),
                strip == normalizer.strip_plus_tags,
                lsv == lines@.map_values(|l: Vec<char>| l@),
                lsv == crate::text::lines(content@),
                alias_fault(lsv.subrange(0, i as int), strip) is None,
                groups_ok(lsv.subrange(0, i as int), strip, group_views(groups@)),
            decreases lines.len() - i,
        {
            let ghost pre = lsv.subrange(0, i as int);
            let ghost post = lsv.subrange(0, i + 1);
            let ghost l = lsv[i as int];
            assert(post =~= pre.push(l));
            assert(post.drop_last() =~= pre);
            assert(lines@[i as int]@ == l);
            match read_alias_line(lines[i].as_slice(), i + 1, normalizer) {
                Err(e) => {
                    proof {
                        lemma_alias_fault_prefix(lsv, strip, i + 1, lsv.len() as int);
                        assert(lsv.subrange(0, lsv.len() as int) =~= lsv);
                    }
                    return Err(e);
                },
                Ok(None) => {
                    proof {
                        lemma_push_blank(pre, l, strip, group_views(groups@));
                    }
                },
                Ok(Some(es)) => {
                    let (merged, tv, first) = build_merged(
                        &groups,
                        &es,
                        i + 1,
                        Ghost(pre),
                        Ghost(l),
                        Ghost(strip),
                    );
                    let (out, Ghost(src)) = rebuild(
                        &groups,
                        merged,
                        &tv,
                        first,
                        Ghost(pre),
                        Ghost(l),
                        Ghost(strip),
                    );
                    proof {
                        lemma_merge(pre, l, strip, group_views(groups@), merged@, first as int, group_views(out@), src);
                    }
                    groups = out;
                },
            }
            i = i + 1;
        }
        assert(lsv.subrange(0, lines.len() as int) =~= lsv);
        Ok(AliasMap { path: None, groups })
    }

    /// The alias map read from the content of the file at `path`.
    pub fn from_file_content(path: &str, content: &str, normalizer: &Normalizer) -> (r: Result<
        AliasMap,
        AliasError,
    >)
        ensures
            match r {
                Ok(m) => {
                    &&& alias_fault(crate::text::lines(content@), normalizer.strip_plus_tags) is None
                    &&& m@.path == Some(path@)
                    &&& groups_ok(crate::text::lines(content@), normalizer.strip_plus_tags, m@.groups)
                },
                Err(e) => alias_fault(crate::text::lines(content@), normalizer.strip_plus_tags)
                    == Some(e@),
            },
    {
        let m = AliasMap::parse(content, normalizer)?;
        let p = string_of(chars_of(path).as_slice());
        Ok(AliasMap { path: Some(p), groups: m.groups })
    }
}


// ---------------------------------------------------------------------------
// Laws of the alias file
// ---------------------------------------------------------------------------

/// Some non-blank line of `ls` names exactly the keys `keys`.
#[verifier::opaque]
pub open spec fn has_line(ls: Seq<Seq<char>>, strip: bool, keys: Set<Seq<char>>) -> bool {
    exists|j: int| active(ls, j) && #[trigger] line_keys(ls[j], strip) == keys
}

/// Two alias files name the same sets of addresses on their lines, whatever
/// the order of the lines and of the addresses on each line.
pub open spec fn same_lines(ls1: Seq<Seq<char>>, ls2: Seq<Seq<char>>, strip: bool) -> bool {
    &&& forall|i: int| active(ls1, i) ==> #[trigger] has_line(ls2, strip, line_keys(ls1[i], strip))
    &&& forall|j: int| active(ls2, j) ==> #[trigger] has_line(ls1, strip, line_keys(ls2[j], strip))
}

proof fn lemma_group_of_key(ls: Seq<Seq<char>>, strip: bool, gs: Seq<GroupView>, k: Seq<char>)
    requires
        groups_ok(ls, strip, gs),
    ensures
        all_keys(ls, strip).contains(k) <==> group_index(gs, k) < gs.len(),
        group_index(gs, k) < gs.len() ==> forall|g: int|
            0 <= g < gs.len() && #[trigger] group_keys(gs[g]).contains(k) ==> g == group_index(gs, k),
{
    lemma_group_index(gs, k);
    if all_keys(ls, strip).contains(k) {
        let g = choose|g: int| 0 <= g < gs.len() && #[trigger] group_keys(gs[g]).contains(k);
        assert(group_index(gs, k) <= g);
    }
    if group_index(gs, k) < gs.len() {
        let g0 = group_index(gs, k);
        assert(group_keys(gs[g0]).contains(k));
        assert forall|g: int| 0 <= g < gs.len() && #[trigger] group_keys(gs[g]).contains(k) implies g == g0 by {
            if g != g0 {
                assert(group_keys(gs[g]).disjoint(group_keys(gs[g0])));
            }
        }
    }
}

/// The groups of two alias files naming the same sets of addresses on their
/// lines hold the same keys.
proof fn lemma_same_group(
    ls1: Seq<Seq<char>>,
    ls2: Seq<Seq<char>>,
    strip: bool,
    gs1: Seq<GroupView>,
    gs2: Seq<GroupView>,
    g1: int,
    g2: int,
    k: Seq<char>,
)
    requires
        groups_ok(ls1, strip, gs1),
        groups_ok(ls2, strip, gs2),
        same_lines(ls1, ls2, strip),
        0 <= g1 < gs1.len(),
        0 <= g2 < gs2.len(),
        group_keys(gs1[g1]).contains(k),
        group_keys(gs2[g2]).contains(k),
    ensures
        group_keys(gs1[g1]).subset_of(group_keys(gs2[g2])),
{
    let b = group_keys(gs1[g1]);
    let c = group_keys(gs2[g2]);
    if !b.subset_of(c) {
        let y = choose|y: Seq<char>| b.contains(y) && !c.contains(y);
        let s = b.intersect(c);
        assert(group_ok(ls1, strip, gs1[g1]));
        lemma_connected_use(ls1, strip, b, s, k, y);
        let i = choose|i: int| crosses(ls1, strip, i, s, b);
        let k1 = choose|k1: Seq<char>| #[trigger] line_keys(ls1[i], strip).contains(k1) && s.contains(k1);
        let k2 = choose|k2: Seq<char>|
            #[trigger] line_keys(ls1[i], strip).contains(k2) && b.contains(k2) && !s.contains(k2);
        assert(has_line(ls2, strip, line_keys(ls1[i], strip)));
        reveal(has_line);
        let j = choose|j: int| active(ls2, j) && #[trigger] line_keys(ls2[j], strip) == line_keys(ls1[i], strip);
        let h = choose|h: int| 0 <= h < gs2.len() && line_keys(ls2[j], strip).subset_of(#[trigger] group_keys(gs2[h]));
        assert(group_keys(gs2[h]).contains(k1));
        if h != g2 {
            assert(group_keys(gs2[h]).disjoint(group_keys(gs2[g2])));
        }
        assert(c.contains(k2));
    }
}

proof fn lemma_sorted_first(a: Seq<EmailView>, b: Seq<EmailView>)
    requires
        sorted_emails(a),
        sorted_emails(b),
        a.len() > 0,
        keys_of(a) == keys_of(b),
    ensures
        b.len() > 0,
        a[0].key == b[0].key,
{
    assert(keys_of(a).contains(a[0].key));
    let j = choose|j: int| 0 <= j < b.len() && b[j].key == a[0].key;
    assert(keys_of(b).contains(b[0].key));
    let i = choose|i: int| 0 <= i < a.len() && a[i].key == b[0].key;
    if j > 0 && i > 0 {
        assert(key_lt(b[0].key, b[j].key));
        assert(key_lt(a[0].key, a[i].key));
        lemma_key_lt_total(a[0].key, b[0].key);
    } else if j > 0 {
        assert(key_lt(b[0].key, b[j].key));
        lemma_key_lt_irreflexive(b[0].key);
    } else if i > 0 {
        assert(key_lt(a[0].key, a[i].key));
        lemma_key_lt_irreflexive(a[0].key);
    }
}

proof fn lemma_same_all_keys(ls1: Seq<Seq<char>>, ls2: Seq<Seq<char>>, strip: bool, k: Seq<char>)
    requires
        same_lines(ls1, ls2, strip),
    ensures
        all_keys(ls1, strip).contains(k) == all_keys(ls2, strip).contains(k),
{
        reveal(has_line);
        if all_keys(ls1, strip).contains(k) {
            let i = choose|i: int| active(ls1, i) && #[trigger] line_keys(ls1[i], strip).contains(k);
            assert(has_line(ls2, strip, line_keys(ls1[i], strip)));
            let j = choose|j: int| active(ls2, j) && #[trigger] line_keys(ls2[j], strip) == line_keys(ls1[i], strip);
            assert(line_keys(ls2[j], strip).contains(k));
        }
        if all_keys(ls2, strip).contains(k) {
            let j = choose|j: int| active(ls2, j) && #[trigger] line_keys(ls2[j], strip).contains(k);
            assert(has_line(ls1, strip, line_keys(ls2[j], strip)));
            let i = choose|i: int| active(ls1, i) && #[trigger] line_keys(ls1[i], strip) == line_keys(ls2[j], strip);
            assert(line_keys(ls1[i], strip).contains(k));
        }
    }

proof fn lemma_same_lines_symmetric(ls1: Seq<Seq<char>>, ls2: Seq<Seq<char>>, strip: bool)
    requires
        same_lines(ls1, ls2, strip),
    ensures
        same_lines(ls2, ls1, strip),
{
}

/// Law: the mapping does not depend on the order of the lines, nor on the
/// order of the addresses on a line — two alias files naming the same sets
/// of addresses on their lines give every address the same class.
pub proof fn law_alias_order_free(
    ls1: Seq<Seq<char>>,
    ls2: Seq<Seq<char>>,
    strip: bool,
    gs1: Seq<GroupView>,
    gs2: Seq<GroupView>,
    k: Seq<char>,
)
    requires
        groups_ok(ls1, strip, gs1),
        groups_ok(ls2, strip, gs2),
        same_lines(ls1, ls2, strip),
    ensures
        class_spec(gs1, k) == class_spec(gs2, k),
{
    lemma_group_of_key(ls1, strip, gs1, k);
    lemma_group_of_key(ls2, strip, gs2, k);
    lemma_same_all_keys(ls1, ls2, strip, k);
    if all_keys(ls1, strip).contains(k) {
        let g1 = group_index(gs1, k);
        let g2 = group_index(gs2, k);
        lemma_group_index(gs1, k);
        lemma_group_index(gs2, k);
        lemma_same_group(ls1, ls2, strip, gs1, gs2, g1, g2, k);
        lemma_same_lines_symmetric(ls1, ls2, strip);
        lemma_same_group(ls2, ls1, strip, gs2, gs1, g2, g1, k);
        assert(group_keys(gs1[g1]) =~= group_keys(gs2[g2]));
        assert(group_ok(ls1, strip, gs1[g1]));
        assert(group_ok(ls2, strip, gs2[g2]));
        lemma_sorted_first(gs1[g1].emails, gs2[g2].emails);
    }
}

/// A line of the alias file is accepted, wherever it stands.
pub open spec fn line_accepted(line: Seq<char>, strip: bool) -> bool {
    line_fault(line, 1, strip) is None
}

proof fn lemma_alias_fault_none(ls: Seq<Seq<char>>, strip: bool)
    ensures
        alias_fault(ls, strip) is None <==> forall|i: int|
            0 <= i < ls.len() ==> line_accepted(#[trigger] ls[i], strip),
    decreases ls.len(),
{
    if ls.len() > 0 {
        let pre = ls.drop_last();
        lemma_alias_fault_none(pre, strip);
        assert(line_fault(ls.last(), ls.len() as int, strip) is None <==> line_accepted(ls.last(), strip));
        if alias_fault(ls, strip) is None {
            assert forall|i: int| 0 <= i < ls.len() implies line_accepted(#[trigger] ls[i], strip) by {
                if i < ls.len() - 1 {
                    assert(ls[i] == pre[i]);
                }
            }
        }
        if forall|i: int| 0 <= i < ls.len() ==> line_accepted(#[trigger] ls[i], strip) {
            assert forall|i: int| 0 <= i < pre.len() implies line_accepted(#[trigger] pre[i], strip) by {
                assert(ls[i] == pre[i]);
            }
            assert(line_accepted(ls[ls.len() - 1], strip));
        }
    }
}

/// Law: whether an alias file is accepted does not depend on the order of
/// its lines: a file made of lines of an accepted file, in any order, is
/// accepted too.
pub proof fn law_alias_acceptance_order_free(ls1: Seq<Seq<char>>, ls2: Seq<Seq<char>>, strip: bool)
    requires
        alias_fault(ls1, strip) is None,
        forall|j: int| 0 <= j < ls2.len() ==> ls1.contains(#[trigger] ls2[j]),
    ensures
        alias_fault(ls2, strip) is None,
{
    lemma_alias_fault_none(ls1, strip);
    lemma_alias_fault_none(ls2, strip);
    assert forall|j: int| 0 <= j < ls2.len() implies line_accepted(#[trigger] ls2[j], strip) by {
        assert(ls1.contains(ls2[j]));
        let i = choose|i: int| 0 <= i < ls1.len() && ls1[i] == ls2[j];
        assert(line_accepted(ls1[i], strip));
    }
}

/// Two lines hold the same addresses, in any order: the same tokens, each
/// as many times, and both blank or both not.
pub open spec fn same_tokens(l1: Seq<char>, l2: Seq<char>) -> bool {
    &&& line_tokens(l1).to_multiset() == line_tokens(l2).to_multiset()
    &&& is_blank(l1) == is_blank(l2)
}

/// Whether a line is accepted, told from which tokens it holds.
proof fn lemma_line_accepted_by_tokens(line: Seq<char>, strip: bool)
    ensures
        line_accepted(line, strip) <==> (is_blank(line) || ({
            let toks = line_tokens(line);
            &&& forall|t: Seq<char>| #[trigger] toks.contains(t) ==> email_spec(t, strip) is Some
            &&& exists|t1: Seq<char>, t2: Seq<char>|
                #[trigger] toks.contains(t1) && #[trigger] toks.contains(t2) && token_email(t1, strip).key
                    != token_email(t2, strip).key
        })),
{
    let toks = line_tokens(line);
    lemma_first_invalid(toks, strip);
    if !is_blank(line) {
        if first_invalid(toks, strip) < toks.len() {
            let t = toks[first_invalid(toks, strip)];
            assert(toks.contains(t));
        } else {
            assert forall|t: Seq<char>| #[trigger] toks.contains(t) implies email_spec(t, strip) is Some by {
                let j = choose|j: int| 0 <= j < toks.len() && toks[j] == t;
            }
        }
        if all_same_key(toks, strip) {
            if exists|t1: Seq<char>, t2: Seq<char>|
                #[trigger] toks.contains(t1) && #[trigger] toks.contains(t2) && token_email(t1, strip).key
                    != token_email(t2, strip).key {
                let (t1, t2) = choose|t1: Seq<char>, t2: Seq<char>|
                    #[trigger] toks.contains(t1) && #[trigger] toks.contains(t2) && token_email(t1, strip).key
                        != token_email(t2, strip).key;
                let i = choose|i: int| 0 <= i < toks.len() && toks[i] == t1;
                let j = choose|j: int| 0 <= j < toks.len() && toks[j] == t2;
                assert(token_email(toks[i], strip).key == token_email(toks[j], strip).key);
            }
        } else {
            let (i, j) = choose|i: int, j: int|
                0 <= i < toks.len() && 0 <= j < toks.len() && token_email(#[trigger] toks[i], strip).key
                    != token_email(#[trigger] toks[j], strip).key;
            assert(toks.contains(toks[i]) && toks.contains(toks[j]));
        }
    }
}

/// Two lines holding the same addresses are both accepted or both not.
proof fn lemma_same_tokens_accepted(l1: Seq<char>, l2: Seq<char>, strip: bool)
    requires
        same_tokens(l1, l2),
    ensures
        line_accepted(l1, strip) == line_accepted(l2, strip),
{
    broadcast use vstd::seq_lib::group_to_multiset_ensures;

    let t1 = line_tokens(l1);
    let t2 = line_tokens(l2);
    assert forall|t: Seq<char>| t1.contains(t) <==> t2.contains(t) by {
        assert(t1.to_multiset().count(t) == t2.to_multiset().count(t));
    }
    lemma_line_accepted_by_tokens(l1, strip);
    lemma_line_accepted_by_tokens(l2, strip);
}

/// Law: whether an alias file is accepted does not depend on the order of
/// its lines nor on the order of the addresses on a line: a file whose
/// every line holds the addresses of some line of an accepted file, in any
/// order, is accepted too.
pub proof fn law_alias_acceptance_address_order_free(ls1: Seq<Seq<char>>, ls2: Seq<Seq<char>>, strip: bool)
    requires
        alias_fault(ls1, strip) is None,
        forall|j: int|
            0 <= j < ls2.len() ==> exists|i: int| 0 <= i < ls1.len() && same_tokens(ls1[i], #[trigger] ls2[j]),
    ensures
        alias_fault(ls2, strip) is None,
{
    lemma_alias_fault_none(ls1, strip);
    lemma_alias_fault_none(ls2, strip);
    assert forall|j: int| 0 <= j < ls2.len() implies line_accepted(#[trigger] ls2[j], strip) by {
        let i = choose|i: int| 0 <= i < ls1.len() && same_tokens(ls1[i], ls2[j]);
        assert(line_accepted(ls1[i], strip));
        lemma_same_tokens_accepted(ls1[i], ls2[j], strip);
    }
}

/// Law: the addresses that have a group do not depend on the order of the
/// lines of the alias file, nor on the order of the addresses on a line.
pub proof fn law_grouped_addresses_order_free(
    ls1: Seq<Seq<char>>,
    ls2: Seq<Seq<char>>,
    strip: bool,
    gs1: Seq<GroupView>,
    gs2: Seq<GroupView>,
    k: Seq<char>,
)
    requires
        groups_ok(ls1, strip, gs1),
        groups_ok(ls2, strip, gs2),
        same_lines(ls1, ls2, strip),
    ensures
        (group_index(gs1, k) < gs1.len()) == (group_index(gs2, k) < gs2.len()),
{
    lemma_group_of_key(ls1, strip, gs1, k);
    lemma_group_of_key(ls2, strip, gs2, k);
    lemma_same_all_keys(ls1, ls2, strip, k);
}

proof fn lemma_group_count_le(
    ls1: Seq<Seq<char>>,
    ls2: Seq<Seq<char>>,
    strip: bool,
    gs1: Seq<GroupView>,
    gs2: Seq<GroupView>,
)
    requires
        groups_ok(ls1, strip, gs1),
        groups_ok(ls2, strip, gs2),
        same_lines(ls1, ls2, strip),
    ensures
        gs1.len() <= gs2.len(),
{
    lemma_same_lines_symmetric(ls1, ls2, strip);
    let f = |g: int| group_index(gs2, gs1[g].canonical);
    let x = vstd::set_lib::set_int_range(0, gs1.len() as int);
    let r2 = vstd::set_lib::set_int_range(0, gs2.len() as int);
    vstd::set_lib::lemma_int_range(0, gs1.len() as int);
    vstd::set_lib::lemma_int_range(0, gs2.len() as int);
    assert forall|g: int| 0 <= g < gs1.len() implies {
        &&& 0 <= #[trigger] f(g) < gs2.len()
        &&& group_keys(gs1[g]) == group_keys(gs2[f(g)])
        &&& group_keys(gs1[g]).contains(gs1[g].canonical)
    } by {
        let c = gs1[g].canonical;
        assert(group_ok(ls1, strip, gs1[g]));
        assert(gs1[g].emails[0].key == c);
        assert(group_keys(gs1[g]).contains(c));
        assert(all_keys(ls1, strip).contains(c));
        lemma_same_all_keys(ls1, ls2, strip, c);
        lemma_group_of_key(ls2, strip, gs2, c);
        lemma_group_index(gs2, c);
        let h = f(g);
        lemma_same_group(ls1, ls2, strip, gs1, gs2, g, h, c);
        lemma_same_group(ls2, ls1, strip, gs2, gs1, h, g, c);
        assert(group_keys(gs1[g]) =~= group_keys(gs2[h]));
    }
    assert forall|a: int, b: int| x.contains(a) && x.contains(b) && #[trigger] f(a) == #[trigger] f(b) implies a == b by {
        if a != b {
            assert(group_keys(gs1[a]) == group_keys(gs1[b]));
            assert(group_keys(gs1[a]).disjoint(group_keys(gs1[b])));
            assert(group_keys(gs1[a]).contains(gs1[a].canonical));
        }
    }
    let y = x.map(f);
    vstd::set_lib::lemma_map_size(x, y, f);
    assert(y.subset_of(r2)) by {
        assert forall|v: int| y.contains(v) implies r2.contains(v) by {
            let g = choose|g: int| x.contains(g) && f(g) == v;
        }
    }
    vstd::set_lib::lemma_len_subset(y, r2);
}

/// Law: the number of groups does not depend on the order of the lines of
/// the alias file, nor on the order of the addresses on a line.
pub proof fn law_group_count_order_free(
    ls1: Seq<Seq<char>>,
    ls2: Seq<Seq<char>>,
    strip: bool,
    gs1: Seq<GroupView>,
    gs2: Seq<GroupView>,
)
    requires
        groups_ok(ls1, strip, gs1),
        groups_ok(ls2, strip, gs2),
        same_lines(ls1, ls2, strip),
    ensures
        gs1.len() == gs2.len(),
{
    lemma_same_lines_symmetric(ls1, ls2, strip);
    lemma_group_count_le(ls1, ls2, strip, gs1, gs2);
    lemma_group_count_le(ls2, ls1, strip, gs2, gs1);
}

proof fn lemma_same_lines_reflexive(ls: Seq<Seq<char>>, strip: bool)
    ensures
        same_lines(ls, ls, strip),
{
    reveal(has_line);
    assert forall|i: int| active(ls, i) implies #[trigger] has_line(ls, strip, line_keys(ls[i], strip)) by {
        assert(active(ls, i) && line_keys(ls[i], strip) == line_keys(ls[i], strip));
    }
}

/// Two lists of addresses ordered by key, with the same keys, have the
/// same keys at every place.
proof fn lemma_sorted_keys_equal(a: Seq<EmailView>, b: Seq<EmailView>)
    requires
        sorted_emails(a),
        sorted_emails(b),
        keys_of(a) == keys_of(b),
    ensures
        a.len() == b.len(),
        forall|i: int| 0 <= i < a.len() ==> (#[trigger] a[i]).key == b[i].key,
    decreases a.len(),
{
    if a.len() == 0 {
        if b.len() > 0 {
            assert(keys_of(b).contains(b[0].key));
        }
    } else {
        lemma_sorted_first(a, b);
        let a1 = a.drop_first();
        let b1 = b.drop_first();
        assert forall|k: Seq<char>| keys_of(a1).contains(k) <==> keys_of(b1).contains(k) by {
            if keys_of(a1).contains(k) {
                let j = choose|j: int| 0 <= j < a1.len() && #[trigger] a1[j].key == k;
                assert(a[j + 1].key == k);
                assert(keys_of(b).contains(k));
                let m = choose|m: int| 0 <= m < b.len() && #[trigger] b[m].key == k;
                if m == 0 {
                    lemma_sorted_unique(a, 0, j + 1);
                }
                assert(b1[m - 1].key == k);
            }
            if keys_of(b1).contains(k) {
                let j = choose|j: int| 0 <= j < b1.len() && #[trigger] b1[j].key == k;
                assert(b[j + 1].key == k);
                assert(keys_of(a).contains(k));
                let m = choose|m: int| 0 <= m < a.len() && #[trigger] a[m].key == k;
                if m == 0 {
                    lemma_sorted_unique(b, 0, j + 1);
                }
                assert(a1[m - 1].key == k);
            }
        }
        assert(keys_of(a1) =~= keys_of(b1));
        lemma_sorted_keys_equal(a1, b1);
        assert forall|i: int| 0 <= i < a.len() implies (#[trigger] a[i]).key == b[i].key by {
            if i > 0 {
                assert(a[i] == a1[i - 1]);
                assert(b[i] == b1[i - 1]);
            }
        }
    }
}

/// Two strictly increasing lists of numbers holding the same numbers are
/// equal.
proof fn lemma_increasing_equal(a: Seq<int>, b: Seq<int>)
    requires
        forall|i: int, j: int| 0 <= i < j < a.len() ==> #[trigger] a[i] < #[trigger] a[j],
        forall|i: int, j: int| 0 <= i < j < b.len() ==> #[trigger] b[i] < #[trigger] b[j],
        forall|x: int| a.contains(x) <==> b.contains(x),
    ensures
        a == b,
    decreases a.len(),
{
    if a.len() == 0 {
        if b.len() > 0 {
            assert(b.contains(b[0]));
        }
        assert(a =~= b);
    } else {
        assert(a.contains(a[0]));
        let j = choose|j: int| 0 <= j < b.len() && b[j] == a[0];
        assert(b.contains(b[0]));
        let i = choose|i: int| 0 <= i < a.len() && a[i] == b[0];
        if j > 0 && i > 0 {
            assert(b[0] < b[j]);
            assert(a[0] < a[i]);
        }
        assert(a[0] == b[0]);
        let a1 = a.drop_first();
        let b1 = b.drop_first();
        assert forall|x: int| a1.contains(x) <==> b1.contains(x) by {
            if a1.contains(x) {
                let p = choose|p: int| 0 <= p < a1.len() && a1[p] == x;
                assert(a[p + 1] == x && a[0] < a[p + 1]);
                assert(a.contains(x));
                let q = choose|q: int| 0 <= q < b.len() && b[q] == x;
                assert(q > 0);
                assert(b1[q - 1] == x);
            }
            if b1.contains(x) {
                let p = choose|p: int| 0 <= p < b1.len() && b1[p] == x;
                assert(b[p + 1] == x && b[0] < b[p + 1]);
                assert(b.contains(x));
                let q = choose|q: int| 0 <= q < a.len() && a[q] == x;
                assert(q > 0);
                assert(a1[q - 1] == x);
            }
        }
        lemma_increasing_equal(a1, b1);
        assert(a =~= b1.insert(0, b[0]));
        assert(b =~= b1.insert(0, b[0]));
    }
}

/// Two groups of the same file with the same keys are the same group.
proof fn lemma_group_determined(ls: Seq<Seq<char>>, strip: bool, g1: GroupView, g2: GroupView)
    requires
        group_ok(ls, strip, g1),
        group_ok(ls, strip, g2),
        group_keys(g1) == group_keys(g2),
    ensures
        g1 == g2,
{
    lemma_sorted_keys_equal(g1.emails, g2.emails);
    assert forall|i: int| 0 <= i < g1.emails.len() implies #[trigger] g1.emails[i] == g2.emails[i] by {
        assert(first_raw(ls, strip, g1.emails[i].key) == Some(g1.emails[i].raw));
        assert(first_raw(ls, strip, g2.emails[i].key) == Some(g2.emails[i].raw));
    }
    assert(g1.emails =~= g2.emails);
    let l1 = g1.lines.map_values(|n: usize| n as int);
    let l2 = g2.lines.map_values(|n: usize| n as int);
    assert forall|x: int| l1.contains(x) <==> l2.contains(x) by {
        if l1.contains(x) {
            let p = choose|p: int| 0 <= p < l1.len() && l1[p] == x;
            let n = g1.lines[p];
            assert(g1.lines.contains(n));
            assert(g2.lines.contains(n));
            let q = choose|q: int| 0 <= q < g2.lines.len() && g2.lines[q] == n;
            assert(l2[q] == x);
        }
        if l2.contains(x) {
            let p = choose|p: int| 0 <= p < l2.len() && l2[p] == x;
            let n = g2.lines[p];
            assert(g2.lines.contains(n));
            assert(g1.lines.contains(n));
            let q = choose|q: int| 0 <= q < g1.lines.len() && g1.lines[q] == n;
            assert(l1[q] == x);
        }
    }
    assert forall|i: int, j: int| 0 <= i < j < l1.len() implies #[trigger] l1[i] < #[trigger] l1[j] by {
        assert(g1.lines[i] < g1.lines[j]);
    }
    assert forall|i: int, j: int| 0 <= i < j < l2.len() implies #[trigger] l2[i] < #[trigger] l2[j] by {
        assert(g2.lines[i] < g2.lines[j]);
    }
    lemma_increasing_equal(l1, l2);
    assert forall|i: int| 0 <= i < g1.lines.len() implies #[trigger] g1.lines[i] == g2.lines[i] by {
        assert(l1[i] == l2[i]);
    }
    assert(g1.lines =~= g2.lines);
}

/// Law: the groups of an alias file are determined by its lines: any two
/// lists of groups that satisfy `groups_ok` for the same lines are equal.
/// So every function whose contract states `groups_ok` (`AliasMap::parse`,
/// `AliasMap::from_file_content`, `commands::load_aliases`) gives the same
/// groups on the same content.
pub proof fn law_groups_determined(ls: Seq<Seq<char>>, strip: bool, gs1: Seq<GroupView>, gs2: Seq<GroupView>)
    requires
        groups_ok(ls, strip, gs1),
        groups_ok(ls, strip, gs2),
    ensures
        gs1 == gs2,
{
    lemma_same_lines_reflexive(ls, strip);
    law_group_count_order_free(ls, ls, strip, gs1, gs2);
    let f = |g: int| group_index(gs2, gs1[g].canonical);
    assert forall|g: int| 0 <= g < gs1.len() implies 0 <= #[trigger] f(g) < gs2.len() && gs2[f(g)] == gs1[g] by {
        let c = gs1[g].canonical;
        assert(group_ok(ls, strip, gs1[g]));
        assert(gs1[g].emails[0].key == c);
        assert(group_keys(gs1[g]).contains(c));
        assert(all_keys(ls, strip).contains(c));
        lemma_group_of_key(ls, strip, gs2, c);
        lemma_group_index(gs2, c);
        let h = f(g);
        lemma_same_group(ls, ls, strip, gs1, gs2, g, h, c);
        lemma_same_group(ls, ls, strip, gs2, gs1, h, g, c);
        assert(group_keys(gs1[g]) =~= group_keys(gs2[h]));
        lemma_group_determined(ls, strip, gs1[g], gs2[h]);
    }
    let f2 = |h: int| group_index(gs1, gs2[h].canonical);
    assert forall|h: int| 0 <= h < gs2.len() implies 0 <= #[trigger] f2(h) < gs1.len() && gs1[f2(h)] == gs2[h] by {
        let c = gs2[h].canonical;
        assert(group_ok(ls, strip, gs2[h]));
        assert(gs2[h].emails[0].key == c);
        assert(group_keys(gs2[h]).contains(c));
        assert(all_keys(ls, strip).contains(c));
        lemma_group_of_key(ls, strip, gs1, c);
        lemma_group_index(gs1, c);
        let g = f2(h);
        lemma_same_group(ls, ls, strip, gs2, gs1, h, g, c);
        lemma_same_group(ls, ls, strip, gs1, gs2, g, h, c);
        assert(group_keys(gs2[h]) =~= group_keys(gs1[g]));
        lemma_group_determined(ls, strip, gs2[h], gs1[g]);
    }
    let l1 = gs1.map_values(|g: GroupView| g.lines[0] as int);
    let l2 = gs2.map_values(|g: GroupView| g.lines[0] as int);
    assert forall|i: int, j: int| 0 <= i < j < l1.len() implies #[trigger] l1[i] < #[trigger] l1[j] by {
        assert(gs1[i].lines[0] < gs1[j].lines[0]);
    }
    assert forall|i: int, j: int| 0 <= i < j < l2.len() implies #[trigger] l2[i] < #[trigger] l2[j] by {
        assert(gs2[i].lines[0] < gs2[j].lines[0]);
    }
    assert forall|x: int| l1.contains(x) <==> l2.contains(x) by {
        if l1.contains(x) {
            let p = choose|p: int| 0 <= p < l1.len() && l1[p] == x;
            assert(0 <= f(p) < gs2.len() && gs2[f(p)] == gs1[p]);
            assert(l2[f(p)] == x);
        }
        if l2.contains(x) {
            let p = choose|p: int| 0 <= p < l2.len() && l2[p] == x;
            assert(0 <= f2(p) < gs1.len() && gs1[f2(p)] == gs2[p]);
            assert(l1[f2(p)] == x);
        }
    }
    lemma_increasing_equal(l1, l2);
    assert forall|g: int| 0 <= g < gs1.len() implies #[trigger] gs1[g] == gs2[g] by {
        assert(0 <= f(g) < gs2.len() && gs2[f(g)] == gs1[g]);
        assert(l2[f(g)] == l1[g]);
        assert(l1[g] == l2[g]);
        if f(g) < g {
            assert(l2[f(g)] < l2[g]);
        } else if f(g) > g {
            assert(l2[g] < l2[f(g)]);
        }
    }
    assert(gs1 =~= gs2);
}

/// Law: the addresses listed on one line of the alias file designate the
/// same person.
pub proof fn law_line_is_one_person(
    ls: Seq<Seq<char>>,
    strip: bool,
    gs: Seq<GroupView>,
    i: int,
    k1: Seq<char>,
    k2: Seq<char>,
)
    requires
        groups_ok(ls, strip, gs),
        active(ls, i),
        line_keys(ls[i], strip).contains(k1),
        line_keys(ls[i], strip).contains(k2),
    ensures
        class_spec(gs, k1) == class_spec(gs, k2),
        group_index(gs, k1) == group_index(gs, k2) < gs.len(),
{
    let g = choose|g: int| 0 <= g < gs.len() && line_keys(ls[i], strip).subset_of(#[trigger] group_keys(gs[g]));
    assert(all_keys(ls, strip).contains(k1));
    assert(all_keys(ls, strip).contains(k2));
    lemma_group_of_key(ls, strip, gs, k1);
    lemma_group_of_key(ls, strip, gs, k2);
}

/// Law: an address that the alias file does not name stands for itself and
/// has no group.
pub proof fn law_unknown_address_untouched(ls: Seq<Seq<char>>, strip: bool, gs: Seq<GroupView>, k: Seq<char>)
    requires
        groups_ok(ls, strip, gs),
        !all_keys(ls, strip).contains(k),
    ensures
        class_spec(gs, k) == k,
        group_index(gs, k) == gs.len(),
{
    lemma_group_of_key(ls, strip, gs, k);
    lemma_group_index(gs, k);
}

/// Law: every address of a group designates the group's canonical key, the
/// smallest of its keys.
pub proof fn law_group_members_share_class(ls: Seq<Seq<char>>, strip: bool, gs: Seq<GroupView>, g: int, k: Seq<char>)
    requires
        groups_ok(ls, strip, gs),
        0 <= g < gs.len(),
        group_keys(gs[g]).contains(k),
    ensures
        class_spec(gs, k) == gs[g].canonical,
        forall|j: int| 0 <= j < gs[g].emails.len() ==> !key_lt(#[trigger] gs[g].emails[j].key, gs[g].canonical),
{
    assert(all_keys(ls, strip).contains(k));
    lemma_group_of_key(ls, strip, gs, k);
    assert(group_ok(ls, strip, gs[g]));
    assert forall|j: int| 0 <= j < gs[g].emails.len() implies !key_lt(#[trigger] gs[g].emails[j].key, gs[g].canonical) by {
        if j > 0 {
            assert(key_lt(gs[g].emails[0].key, gs[g].emails[j].key));
            lemma_key_lt_total(gs[g].emails[0].key, gs[g].emails[j].key);
        } else {
            lemma_key_lt_irreflexive(gs[g].canonical);
        }
    }
}

} // verus!
