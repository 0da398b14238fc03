//! The WordPress account details derived for a user to be created: a
//! username kept unique against the ones already taken, a display name, and
//! a random password.

use vstd::prelude::*;

use rand::distributions::{Alphanumeric, Distribution, Uniform};

use crate::reference::{identity_views, join, join_strs, local_part_spec, Identity, IdentityView};
use crate::text::{
    chars_of, decimal, decimal_string, lowercase, push_str, str_eq, string_of, string_push, to_lowercase,
    to_uppercase_char, uppercase_char,
};
use crate::wp::{string_views, NewUser};

verus! {

/// Longest username derived from an address.
pub const USERNAME_MAX_LEN: usize = 60;

/// Length of a generated password.
pub const PASSWORD_LEN: usize = 24;

// ---------------------------------------------------------------------------
// Usernames
// ---------------------------------------------------------------------------

/// The characters kept as they are in a username.
pub open spec fn username_char(c: char) -> bool {
    ('a' <= c && c <= 'z') || ('A' <= c && c <= 'Z') || ('0' <= c && c <= '9') || c == '.' || c
        == '-' || c == '_'
}

/// A character of a username: kept, or replaced by a dot.
pub open spec fn map_username_char(c: char) -> char {
    if username_char(c) {
        c
    } else {
        '.'
    }
}

/// Leading dots removed.
pub open spec fn strip_dots_start(s: Seq<char>) -> Seq<char>
    decreases s.len(),
{
    if s.len() > 0 && s[0] == '.' {
        strip_dots_start(s.drop_first())
    } else {
        s
    }
}

/// Trailing dots removed.
pub open spec fn strip_dots_end(s: Seq<char>) -> Seq<char>
    decreases s.len(),
{
    if s.len() > 0 && s.last() == '.' {
        strip_dots_end(s.drop_last())
    } else {
        s
    }
}

/// The username derived from the local part of an address: lowercased,
/// every character WordPress would reject replaced by a dot, dots trimmed at
/// both ends, at most 60 characters, and `user` when nothing is left.
pub open spec fn sanitize_spec(local: Seq<char>) -> Seq<char> {
    sanitize_lowered_spec(lowercase(local))
}

/// The username derived from an already lowercased local part: every
/// character WordPress would reject replaced by a dot, dots trimmed at both
/// ends, at most 60 characters, and `user` when nothing is left.
pub open spec fn sanitize_lowered_spec(lowered: Seq<char>) -> Seq<char> {
    let mapped = lowered.map_values(|c: char| map_username_char(c));
    let t = strip_dots_end(strip_dots_start(mapped));
    let t = if t.len() > USERNAME_MAX_LEN {
        t.subrange(0, USERNAME_MAX_LEN as int)
    } else {
        t
    };
    if t.len() == 0 {
        "user"@
    } else {
        t
    }
}

proof fn lemma_strip_start(s: Seq<char>, i: int)
    requires
        0 <= i <= s.len(),
        forall|j: int| 0 <= j < i ==> #[trigger] s[j] == '.',
    ensures
        strip_dots_start(s) == strip_dots_start(s.subrange(i, s.len() as int)),
    decreases i,
{
    if i > 0 {
        assert(s[0] == '.');
        assert(s.drop_first() =~= s.subrange(1, s.len() as int));
        lemma_strip_start(s.drop_first(), i - 1);
        assert(s.drop_first().subrange(i - 1, s.drop_first().len() as int) =~= s.subrange(i, s.len() as int));
    } else {
        assert(s.subrange(0, s.len() as int) =~= s);
    }
}

proof fn lemma_strip_end(s: Seq<char>, i: int)
    requires
        0 <= i <= s.len(),
        forall|j: int| i <= j < s.len() ==> #[trigger] s[j] == '.',
    ensures
        strip_dots_end(s) == strip_dots_end(s.subrange(0, i)),
    decreases s.len() - i,
{
    if i < s.len() {
        assert(s[s.len() - 1] == '.');
        assert(s.drop_last() =~= s.subrange(0, s.len() - 1));
        lemma_strip_end(s.drop_last(), i);
        assert(s.drop_last().subrange(0, i) =~= s.subrange(0, i));
    } else {
        assert(s.subrange(0, i) =~= s);
    }
}

/// An ASCII letter or digit.
pub open spec fn ascii_letter_or_digit(c: char) -> bool {
    ('a' <= c && c <= 'z') || ('A' <= c && c <= 'Z') || ('0' <= c && c <= '9')
}

/// Law: every ASCII letter and digit is kept as it is: a lowercased local
/// part made of ASCII letters and digits only, at most 60 long, is its own
/// username.
pub proof fn law_letters_and_digits_kept(lowered: Seq<char>)
    requires
        0 < lowered.len() <= 60,
        forall|i: int| 0 <= i < lowered.len() ==> ascii_letter_or_digit(#[trigger] lowered[i]),
    ensures
        sanitize_lowered_spec(lowered) == lowered,
{
    law_plain_username_kept(lowered);
}

/// Law: a lowercased local part made of ASCII letters, digits, `.`, `-`
/// and `_`, neither starting nor ending with a dot, at most 60 long, is its
/// own username.
pub proof fn law_plain_username_kept(lowered: Seq<char>)
    requires
        0 < lowered.len() <= 60,
        forall|i: int|
            0 <= i < lowered.len() ==> ascii_letter_or_digit(#[trigger] lowered[i]) || lowered[i] == '.'
                || lowered[i] == '-' || lowered[i] == '_',
        lowered[0] != '.',
        lowered.last() != '.',
    ensures
        sanitize_lowered_spec(lowered) == lowered,
{
    let mapped = lowered.map_values(|c: char| map_username_char(c));
    assert(mapped =~= lowered);
    assert(strip_dots_start(lowered) == lowered);
    assert(strip_dots_end(lowered) == lowered);
}

/// Law: a character WordPress would reject in a username becomes a dot,
/// in its place: between two runs of ASCII letters and digits, it turns
/// into `.` and the letters and digits around it are kept.
pub proof fn law_rejected_character_becomes_dot(a: Seq<char>, c: char, b: Seq<char>)
    requires
        a.len() > 0,
        b.len() > 0,
        a.len() + 1 + b.len() <= 60,
        forall|i: int| 0 <= i < a.len() ==> ascii_letter_or_digit(#[trigger] a[i]),
        forall|i: int| 0 <= i < b.len() ==> ascii_letter_or_digit(#[trigger] b[i]),
        !ascii_letter_or_digit(c),
        c != '-',
        c != '_',
    ensures
        sanitize_lowered_spec(a + seq![c] + b) == a + seq!['.'] + b,
{
    let s = a + seq![c] + b;
    let r = a + seq!['.'] + b;
    let mapped = s.map_values(|x: char| map_username_char(x));
    assert(mapped =~= r) by {
        assert forall|i: int| 0 <= i < r.len() implies mapped[i] == r[i] by {
            if i < a.len() {
                assert(s[i] == a[i]);
            } else if i > a.len() {
                assert(s[i] == b[i - a.len() - 1]);
            }
        }
    }
    assert(r[0] == a[0]);
    assert(r.last() == b.last());
    law_plain_username_kept(r);
    let m2 = r.map_values(|x: char| map_username_char(x));
    assert(m2 =~= r) by {
        assert forall|i: int| 0 <= i < r.len() implies m2[i] == r[i] by {
            if i < a.len() {
                assert(r[i] == a[i]);
            } else if i > a.len() {
                assert(r[i] == b[i - a.len() - 1]);
            }
        }
    }
}

/// Law: whatever the lowercased local part, the username holds only ASCII
/// letters, digits, `.`, `-` and `_`, is never empty, and is at most 60
/// long.
pub proof fn law_username_characters(lowered: Seq<char>)
    ensures
        0 < sanitize_lowered_spec(lowered).len() <= 60,
        forall|i: int|
            0 <= i < sanitize_lowered_spec(lowered).len() ==> ascii_letter_or_digit(
                #[trigger] sanitize_lowered_spec(lowered)[i],
            ) || sanitize_lowered_spec(lowered)[i] == '.' || sanitize_lowered_spec(lowered)[i] == '-'
                || sanitize_lowered_spec(lowered)[i] == '_',
{
    let mapped = lowered.map_values(|c: char| map_username_char(c));
    lemma_strip_dots_subrange(mapped);
    reveal_strlit("user");
}

proof fn lemma_strip_dots_subrange(s: Seq<char>)
    ensures
        exists|a: int, b: int|
            0 <= a <= b <= s.len() && #[trigger] strip_dots_end(strip_dots_start(s)) == s.subrange(a, b),
{
    lemma_strip_start_is_suffix(s);
    let a = s.len() - strip_dots_start(s).len();
    let t = strip_dots_start(s);
    lemma_strip_end_is_prefix(t);
    let b = a + strip_dots_end(t).len();
    assert(strip_dots_end(t) =~= s.subrange(a, b));
}

proof fn lemma_strip_start_is_suffix(s: Seq<char>)
    ensures
        strip_dots_start(s).len() <= s.len(),
        strip_dots_start(s) == s.subrange(s.len() - strip_dots_start(s).len(), s.len() as int),
    decreases s.len(),
{
    if s.len() > 0 && s[0] == '.' {
        lemma_strip_start_is_suffix(s.drop_first());
        assert(s.drop_first().subrange(s.drop_first().len() - strip_dots_start(s).len(), s.drop_first().len() as int)
            =~= s.subrange(s.len() - strip_dots_start(s).len(), s.len() as int));
    } else {
        assert(s.subrange(0, s.len() as int) =~= s);
    }
}

proof fn lemma_strip_end_is_prefix(s: Seq<char>)
    ensures
        strip_dots_end(s).len() <= s.len(),
        strip_dots_end(s) == s.subrange(0, strip_dots_end(s).len() as int),
    decreases s.len(),
{
    if s.len() > 0 && s.last() == '.' {
        lemma_strip_end_is_prefix(s.drop_last());
        assert(s.drop_last().subrange(0, strip_dots_end(s).len() as int) =~= s.subrange(0, strip_dots_end(s).len() as int));
    } else {
        assert(s.subrange(0, s.len() as int) =~= s);
    }
}

/// The username derived from the local part of an address.
pub fn sanitize_username(local_part: &str) -> (r: String)
    ensures
        r@ == sanitize_spec(local_part@),
{
    let lowered = to_lowercase(local_part);
    sanitize_lowered(lowered.as_str())
}

/// The username derived from an already lowercased local part.
pub fn sanitize_lowered(lowered: &str) -> (r: String)
    ensures
        r@ == sanitize_lowered_spec(lowered@),
{
    let lc = chars_of(lowered);
    let mut mapped: Vec<char> = Vec::new();
    let mut i: usize = 0;
    while i < lc.len()
        invariant
            i <= lc.len(),
            mapped@ == lc@.subrange(0, i as int).map_values(|c: char| map_username_char(c)),
        decreases lc.len() - i,
    {
        let c = lc[i];
        let keep = ('a' <= c && c <= 'z') || ('A' <= c && c <= 'Z') || ('0' <= c && c <= '9') || c
            == '.' || c == '-' || c == '_';
        mapped.push(if keep { c } else { '.' });
        assert(mapped@ =~= lc@.subrange(0, i + 1).map_values(|c: char| map_username_char(c)));
        i = i + 1;
    }
    assert(lc@.subrange(0, lc.len() as int) =~= lc@);
    let ghost m = mapped@;
    let mut start: usize = 0;
    while start < mapped.len() && mapped[start] == '.'
        invariant
            start <= mapped.len(),
            m == mapped@,
            forall|j: int| 0 <= j < start ==> #[trigger] m[j] == '.',
        decreases mapped.len() - start,
    {
        start = start + 1;
    }
    proof {
        lemma_strip_start(m, start as int);
    }
    let ghost t = m.subrange(start as int, m.len() as int);
    assert(strip_dots_start(t) == t);
    let mut end: usize = mapped.len();
    while end > start && mapped[end - 1] == '.'
        invariant
            start <= end <= mapped.len(),
            m == mapped@,
            forall|j: int| end <= j < m.len() ==> #[trigger] m[j] == '.',
        decreases end,
    {
        end = end - 1;
    }
    proof {
        assert forall|j: int| end - start <= j < t.len() implies #[trigger] t[j] == '.' by {
            assert(t[j] == m[j + start]);
        }
        lemma_strip_end(t, end - start);
        let u = t.subrange(0, end - start);
        assert(u =~= m.subrange(start as int, end as int));
        if u.len() > 0 {
            assert(u.last() == m[end - 1]);
        }
        assert(strip_dots_end(u) == u);
    }
    let stop = if end - start > USERNAME_MAX_LEN {
        start + USERNAME_MAX_LEN
    } else {
        end
    };
    let mut r: Vec<char> = Vec::new();
    let mut k: usize = start;
    while k < stop
        invariant
            start <= k <= stop <= end <= mapped.len(),
            r@ == mapped@.subrange(start as int, k as int),
        decreases stop - k,
    {
        r.push(mapped[k]);
        k = k + 1;
    }
    if r.len() == 0 {
        return "user".to_owned();
    }
    proof {
        let u = m.subrange(start as int, end as int);
        if u.len() > USERNAME_MAX_LEN {
            assert(r@ =~= u.subrange(0, USERNAME_MAX_LEN as int));
        } else {
            assert(r@ =~= u);
        }
    }
    string_of(r.as_slice())
}

// ---------------------------------------------------------------------------
// Unique usernames
// ---------------------------------------------------------------------------

/// The candidate username `base` followed by the number `n`.
pub open spec fn candidate(base: Seq<char>, n: nat) -> Seq<char> {
    base + decimal(n)
}

/// What a chosen username is, given the base and the names already taken:
/// the base when free; else the base followed by the smallest number from 2
/// to 999 that makes it free; else the base followed by a random number
/// from 1000 up (not checked against the taken names).
pub open spec fn unique_username_spec(base: Seq<char>, taken: Seq<Seq<char>>, r: Seq<char>) -> bool {
    if !taken.contains(base) {
        r == base
    } else if exists|n: nat| 2 <= n < 1000 && !taken.contains(#[trigger] candidate(base, n)) {
        exists|n: nat|
            2 <= n < 1000 && r == #[trigger] candidate(base, n) && !taken.contains(r) && forall|m: nat|
                2 <= m < n ==> taken.contains(#[trigger] candidate(base, m))
    } else {
        exists|n: nat| 1000 <= n < u32::MAX && r == #[trigger] candidate(base, n)
    }
}

/// Whether a name is among the taken ones.
fn is_taken(taken: &Vec<String>, name: &str) -> (b: bool)
    ensures
        b == string_views(taken@).contains(name@),
{
    let mut i: usize = 0;
    while i < taken.len()
        invariant
            i <= taken.len(),
            forall|j: int| 0 <= j < i ==> (#[trigger] taken@[j])@ != name@,
        decreases taken.len() - i,
    {
        if str_eq(taken[i].as_str(), name) {
            assert(string_views(taken@)[i as int] == name@);
            return true;
        }
        i = i + 1;
    }
    assert forall|j: int| 0 <= j < taken@.len() implies string_views(taken@)[j] != name@ by {
        assert(taken@[j]@ != name@);
    }
    false
}

/// Some username among the base and the base followed by 2 to 999 is free.
pub open spec fn has_free_candidate(base: Seq<char>, taken: Seq<Seq<char>>) -> bool {
    !taken.contains(base) || exists|n: nat| 2 <= n < 1000 && !taken.contains(#[trigger] candidate(base, n))
}

/// Law: the username chosen for a new user is not one of the taken ones,
/// as long as the base or one of its numbered forms up to 999 is free (past
/// that, a random number from 1000 up is appended without a check).
pub proof fn law_username_is_free(base: Seq<char>, taken: Seq<Seq<char>>, r: Seq<char>)
    requires
        unique_username_spec(base, taken, r),
        has_free_candidate(base, taken),
    ensures
        !taken.contains(r),
{
}

/// Law: two users created one after the other (the first username added to
/// the taken ones, as `new_user_for` does) never get the same username.
pub proof fn law_successive_usernames_differ(
    base1: Seq<char>,
    base2: Seq<char>,
    taken: Seq<Seq<char>>,
    r1: Seq<char>,
    r2: Seq<char>,
)
    requires
        unique_username_spec(base1, taken, r1),
        unique_username_spec(base2, taken.push(r1), r2),
        has_free_candidate(base2, taken.push(r1)),
    ensures
        r1 != r2,
{
    law_username_is_free(base2, taken.push(r1), r2);
    assert(taken.push(r1)[taken.len() as int] == r1);
}

/// `rand`: a number drawn uniformly from `low..high`
/// (`Uniform::from(low..high).sample(&mut thread_rng())`). All that is
/// claimed is the range of the result; `Uniform::new` panics when
/// `low >= high`, which is ruled out.
#[verifier::external_body]
fn random_in_range(low: u32, high: u32) -> (r: u32)
    requires
        low < high,
    ensures
        low <= r < high,
{
    Uniform::from(low..high).sample(&mut rand::thread_rng())
}

/// A username not among the taken ones: the base, or the base followed by a
/// number.
pub fn unique_username(base: &str, taken: &Vec<String>) -> (r: String)
    ensures
        unique_username_spec(base@, string_views(taken@), r@),
{
    let ghost tv = string_views(taken@);
    if !is_taken(taken, base) {
        return base.to_owned();
    }
    let mut suffix: u32 = 2;
    while suffix < 1000
        invariant
            2 <= suffix <= 1000,
            tv == string_views(taken@),
            tv.contains(base@),
            forall|m: nat| 2 <= m < suffix ==> tv.contains(#[trigger] candidate(base@, m)),
        decreases 1000 - suffix,
    {
        let mut candidate_name = base.to_owned();
        let digits = decimal_string(suffix as u64);
        push_str(&mut candidate_name, digits.as_str());
        assert(candidate_name@ == candidate(base@, suffix as nat));
        if !is_taken(taken, candidate_name.as_str()) {
            assert(exists|n: nat| 2 <= n < 1000 && !tv.contains(#[trigger] candidate(base@, n)));
            return candidate_name;
        }
        suffix = suffix + 1;
    }
    let n = random_in_range(1000, u32::MAX);
    let mut name = base.to_owned();
    let digits = decimal_string(n as u64);
    push_str(&mut name, digits.as_str());
    proof {
        assert(name@ == candidate(base@, n as nat));
        assert(!exists|n: nat| 2 <= n < 1000 && !tv.contains(#[trigger] candidate(base@, n)));
    }
    name
}

// ---------------------------------------------------------------------------
// Display names
// ---------------------------------------------------------------------------

/// The characters separating the words of a display name.
pub open spec fn name_sep(c: char) -> bool {
    c == '.' || c == '_' || c == '-'
}

/// Reading `s` from the left: the words completed so far and the current
/// one.
pub open spec fn word_scan(s: Seq<char>) -> (Seq<Seq<char>>, Seq<char>)
    decreases s.len(),
{
    if s.len() == 0 {
        (Seq::empty(), Seq::empty())
    } else {
        let (done, cur) = word_scan(s.drop_last());
        if name_sep(s.last()) {
            if cur.len() > 0 {
                (done.push(cur), Seq::empty())
            } else {
                (done, Seq::empty())
            }
        } else {
            (done, cur.push(s.last()))
        }
    }
}

/// The non-empty pieces of `s` between `.`, `_` and `-`, in order.
pub open spec fn words(s: Seq<char>) -> Seq<Seq<char>> {
    let (done, cur) = word_scan(s);
    if cur.len() > 0 {
        done.push(cur)
    } else {
        done
    }
}

/// A word with its first character uppercased.
pub open spec fn capitalize(w: Seq<char>) -> Seq<char> {
    if w.len() == 0 {
        w
    } else {
        uppercase_char(w[0]) + w.drop_first()
    }
}

/// Law: the words of a display name are the pieces of the local part
/// between `.`, `_` and `-`: two runs of other characters around one of
/// these separators are two words, in order.
pub proof fn law_two_words(w1: Seq<char>, sep: char, w2: Seq<char>)
    requires
        w1.len() > 0,
        w2.len() > 0,
        forall|i: int| 0 <= i < w1.len() ==> !name_sep(#[trigger] w1[i]),
        forall|i: int| 0 <= i < w2.len() ==> !name_sep(#[trigger] w2[i]),
        sep == '.' || sep == '_' || sep == '-',
    ensures
        words(w1 + seq![sep] + w2) == seq![w1, w2],
{
    lemma_word_scan_run(w1);
    let s1 = w1 + seq![sep];
    assert(s1.drop_last() =~= w1);
    assert(word_scan(s1) == (seq![w1], Seq::<char>::empty()));
    lemma_word_scan_run_after(s1, seq![w1], w2);
    assert(w1 + seq![sep] + w2 =~= s1 + w2);
}

proof fn lemma_word_scan_run(w: Seq<char>)
    requires
        forall|i: int| 0 <= i < w.len() ==> !name_sep(#[trigger] w[i]),
    ensures
        word_scan(w) == (Seq::<Seq<char>>::empty(), w),
    decreases w.len(),
{
    if w.len() > 0 {
        lemma_word_scan_run(w.drop_last());
        assert(w.drop_last().push(w.last()) =~= w);
    }
}

proof fn lemma_word_scan_run_after(s: Seq<char>, done: Seq<Seq<char>>, w: Seq<char>)
    requires
        word_scan(s) == (done, Seq::<char>::empty()),
        forall|i: int| 0 <= i < w.len() ==> !name_sep(#[trigger] w[i]),
    ensures
        word_scan(s + w) == (done, w),
    decreases w.len(),
{
    if w.len() > 0 {
        lemma_word_scan_run_after(s, done, w.drop_last());
        assert((s + w).drop_last() =~= s + w.drop_last());
        assert(w.drop_last().push(w.last()) =~= w);
    } else {
        assert(s + w =~= s);
    }
}

/// The display name derived from the local part of an address: its words,
/// capitalized, separated by spaces.
pub open spec fn display_name_spec(local: Seq<char>) -> Seq<char> {
    join(words(local).map_values(|w: Seq<char>| capitalize(w)), " "@)
}

/// The words of a local part, as the display name takes them: the
/// non-empty pieces between `.`, `_` and `-`, in order.
pub fn name_words(local_part: &str) -> (r: Vec<String>)
    ensures
        string_views(r@) == words(local_part@),
{
    let v = chars_of(local_part);
    let mut done: Vec<Vec<char>> = Vec::new();
    let mut cur: Vec<char> = Vec::new();
    let mut i: usize = 0;
    while i < v.len()
        invariant
            i <= v.len(),
            v@ == local_part@,
            (done@.map_values(|w: Vec<char>| w@), cur@) == word_scan(v@.subrange(0, i as int)),
        decreases v.len() - i,
    {
        let c = v[i];
        assert(v@.subrange(0, i + 1).drop_last() =~= v@.subrange(0, i as int));
        if c == '.' || c == '_' || c == '-' {
            if cur.len() > 0 {
                let w = cur;
                done.push(w);
            }
            cur = Vec::new();
            assert(done@.map_values(|w: Vec<char>| w@) =~= word_scan(v@.subrange(0, i + 1)).0);
        } else {
            cur.push(c);
            assert(done@.map_values(|w: Vec<char>| w@) =~= word_scan(v@.subrange(0, i + 1)).0);
        }
        i = i + 1;
    }
    assert(v@.subrange(0, v.len() as int) =~= v@);
    if cur.len() > 0 {
        done.push(cur);
    }
    let ghost ws = done@.map_values(|w: Vec<char>| w@);
    assert(ws =~= words(local_part@));
    let mut r: Vec<String> = Vec::new();
    let mut k: usize = 0;
    while k < done.len()
        invariant
            k <= done.len(),
            ws == done@.map_values(|w: Vec<char>| w@),
            r@.len() == k,
            forall|j: int| 0 <= j < k ==> (#[trigger] r@[j])@ == ws[j],
        decreases done.len() - k,
    {
        assert(done@[k as int]@ == ws[k as int]);
        r.push(string_of(done[k].as_slice()));
        k = k + 1;
    }
    assert(string_views(r@) =~= ws);
    r
}

/// The display name derived from the local part of an address.
pub fn display_name(local_part: &str) -> (r: String)
    ensures
        r@ == display_name_spec(local_part@),
{
    let names = name_words(local_part);
    let mut done: Vec<Vec<char>> = Vec::new();
    let mut q: usize = 0;
    while q < names.len()
        invariant
            q <= names.len(),
            done@.len() == q,
            forall|j: int| 0 <= j < q ==> (#[trigger] done@[j])@ == names@[j]@,
        decreases names.len() - q,
    {
        done.push(chars_of(names[q].as_str()));
        q = q + 1;
    }
    assert(done@.map_values(|w: Vec<char>| w@) =~= string_views(names@));
    let ghost ws = done@.map_values(|w: Vec<char>| w@);
    assert(ws =~= words(local_part@));
    let mut caps: Vec<String> = Vec::new();
    let mut k: usize = 0;
    while k < done.len()
        invariant
            k <= done.len(),
            ws == done@.map_values(|w: Vec<char>| w@),
            caps@.len() == k,
            forall|j: int| 0 <= j < k ==> (#[trigger] caps@[j])@ == capitalize(ws[j]),
        decreases done.len() - k,
    {
        let w = &done[k];
        assert(w@ == ws[k as int]);
        let mut s = String::new();
        if w.len() > 0 {
            s = to_uppercase_char(w[0]);
            let mut j: usize = 1;
            while j < w.len()
                invariant
                    1 <= j <= w.len(),
                    s@ == uppercase_char(w@[0]) + w@.subrange(1, j as int),
                decreases w.len() - j,
            {
                string_push(&mut s, w[j]);
                assert(s@ =~= uppercase_char(w@[0]) + w@.subrange(1, j + 1));
                j = j + 1;
            }
            assert(w@.subrange(1, w.len() as int) =~= w@.drop_first());
        } else {
            assert(s@ =~= w@);
        }
        caps.push(s);
        k = k + 1;
    }
    let mut parts: Vec<&str> = Vec::new();
    let mut m: usize = 0;
    while m < caps.len()
        invariant
            m <= caps.len(),
            parts@.len() == m,
            forall|j: int| 0 <= j < m ==> (#[trigger] parts@[j])@ == caps@[j]@,
        decreases caps.len() - m,
    {
        parts.push(caps[m].as_str());
        m = m + 1;
    }
    assert(parts@.map_values(|p: &str| p@) =~= ws.map_values(|w: Seq<char>| capitalize(w)));
    join_strs(&parts, " ")
}

// ---------------------------------------------------------------------------
// Passwords
// ---------------------------------------------------------------------------

/// ASCII letters and digits.
pub open spec fn ascii_alphanumeric(c: char) -> bool {
    ('a' <= c && c <= 'z') || ('A' <= c && c <= 'Z') || ('0' <= c && c <= '9')
}

/// The bytes of ASCII letters and digits.
pub open spec fn ascii_alphanumeric_byte(b: u8) -> bool {
    (97 <= b && b <= 122) || (65 <= b && b <= 90) || (48 <= b && b <= 57)
}

/// The symbols a password ends with.
pub open spec fn password_symbols() -> Seq<char> {
    "!@#$%^&*()-_=+[]{}"@
}

/// A generated password: 20 ASCII letters or digits, then 4 symbols.
pub open spec fn password_ok(p: Seq<char>) -> bool {
    &&& p.len() == PASSWORD_LEN
    &&& forall|i: int| 0 <= i < PASSWORD_LEN - 4 ==> ascii_alphanumeric(#[trigger] p[i])
    &&& forall|i: int| PASSWORD_LEN - 4 <= i < PASSWORD_LEN ==> password_symbols().contains(#[trigger] p[i])
}

/// `rand`: a byte drawn from `Alphanumeric` (`Alphanumeric.sample(&mut
/// thread_rng())`), which yields one of `A-Z`, `a-z`, `0-9`. That range is
/// all that is claimed.
#[verifier::external_body]
fn random_alphanumeric() -> (byte: u8)
    ensures
        ascii_alphanumeric_byte(byte),
{
    Alphanumeric.sample(&mut rand::thread_rng())
}

fn symbol_char(i: u32) -> (c: char)
    requires
        i < 18,
    ensures
        c == password_symbols()[i as int],
{
    proof {
        reveal_strlit("!@#$%^&*()-_=+[]{}");
    }
    match i {
        0 => '!',
        1 => '@',
        2 => '#',
        3 => '$',
        4 => '%',
        5 => '^',
        6 => '&',
        7 => '*',
        8 => '(',
        9 => ')',
        10 => '-',
        11 => '_',
        12 => '=',
        13 => '+',
        14 => '[',
        15 => ']',
        16 => '{',
        _ => '}',
    }
}

fn alnum_char(b: u8) -> (c: char)
    requires
        ascii_alphanumeric_byte(b),
    ensures
        c == b as char,
        ascii_alphanumeric(c),
{
    let c = b as char;
    assert(c as u32 == b as u32);
    c
}

/// Drawn values a password is made from: 20 bytes of ASCII letters or
/// digits, and 4 indices into the symbols.
pub open spec fn password_draws_ok(alnum: Seq<u8>, picks: Seq<u32>) -> bool {
    &&& alnum.len() == PASSWORD_LEN - 4
    &&& forall|i: int| 0 <= i < alnum.len() ==> ascii_alphanumeric_byte(#[trigger] alnum[i])
    &&& picks.len() == 4
    &&& forall|i: int| 0 <= i < picks.len() ==> #[trigger] picks[i] < 18
}

/// The password made from drawn values: the bytes as characters, followed
/// by the symbols picked.
pub open spec fn password_spec(alnum: Seq<u8>, picks: Seq<u32>) -> Seq<char> {
    alnum.map_values(|b: u8| b as char) + picks.map_values(|k: u32| password_symbols()[k as int])
}

/// A password made from valid drawn values has the expected shape.
pub proof fn lemma_password_spec_ok(alnum: Seq<u8>, picks: Seq<u32>)
    requires
        password_draws_ok(alnum, picks),
    ensures
        password_ok(password_spec(alnum, picks)),
{
    let p = password_spec(alnum, picks);
    assert forall|i: int| 0 <= i < PASSWORD_LEN - 4 implies ascii_alphanumeric(#[trigger] p[i]) by {
        let b = alnum[i];
        assert(p[i] == b as char);
        assert(ascii_alphanumeric_byte(b));
        assert((b as char) as u32 == b as u32);
    }
    assert forall|i: int| PASSWORD_LEN - 4 <= i < PASSWORD_LEN implies password_symbols().contains(#[trigger] p[i]) by {
        let k = picks[i - (PASSWORD_LEN - 4)];
        assert(p[i] == password_symbols()[k as int]);
        reveal_strlit("!@#$%^&*()-_=+[]{}");
    }
}

/// The password made from drawn values: the 20 bytes as characters, then
/// the 4 symbols picked.
pub fn password_from(alnum: &[u8], picks: &[u32]) -> (r: String)
    requires
        password_draws_ok(alnum@, picks@),
    ensures
        r@ == password_spec(alnum@, picks@),
        password_ok(r@),
{
    let mut p = String::new();
    let mut i: usize = 0;
    while i < alnum.len()
        invariant
            i <= alnum.len(),
            password_draws_ok(alnum@, picks@),
            p@ == alnum@.subrange(0, i as int).map_values(|b: u8| b as char),
        decreases alnum.len() - i,
    {
        let c = alnum_char(alnum[i]);
        string_push(&mut p, c);
        assert(alnum@.subrange(0, i + 1).map_values(|b: u8| b as char) =~= alnum@.subrange(0, i as int).map_values(|b: u8| b as char).push(c));
        i = i + 1;
    }
    assert(alnum@.subrange(0, alnum.len() as int) =~= alnum@);
    let ghost head = p@;
    let mut j: usize = 0;
    while j < picks.len()
        invariant
            j <= picks.len(),
            password_draws_ok(alnum@, picks@),
            head == alnum@.map_values(|b: u8| b as char),
            p@ == head + picks@.subrange(0, j as int).map_values(|k: u32| password_symbols()[k as int]),
        decreases picks.len() - j,
    {
        let c = symbol_char(picks[j]);
        string_push(&mut p, c);
        assert(picks@.subrange(0, j + 1).map_values(|k: u32| password_symbols()[k as int]) =~= picks@.subrange(0, j as int).map_values(|k: u32| password_symbols()[k as int]).push(c));
        j = j + 1;
    }
    assert(picks@.subrange(0, picks.len() as int) =~= picks@);
    assert(p@ =~= password_spec(alnum@, picks@));
    proof {
        lemma_password_spec_ok(alnum@, picks@);
    }
    p
}

/// A random password, strong enough that nobody is expected to reuse it:
/// new users are meant to go through the "lost password" flow. It is made
/// from 20 bytes drawn from `Alphanumeric` and 4 symbols picked uniformly.
pub fn generate_password() -> (r: String)
    ensures
        exists|alnum: Seq<u8>, picks: Seq<u32>|
            password_draws_ok(alnum, picks) && r@ == #[trigger] password_spec(alnum, picks),
        password_ok(r@),
{
    let mut alnum: Vec<u8> = Vec::new();
    while alnum.len() < PASSWORD_LEN - 4
        invariant
            alnum.len() <= PASSWORD_LEN - 4,
            forall|i: int| 0 <= i < alnum.len() ==> ascii_alphanumeric_byte(#[trigger] alnum@[i]),
        decreases PASSWORD_LEN - 4 - alnum.len(),
    {
        alnum.push(random_alphanumeric());
    }
    let mut picks: Vec<u32> = Vec::new();
    while picks.len() < 4
        invariant
            picks.len() <= 4,
            forall|i: int| 0 <= i < picks.len() ==> #[trigger] picks@[i] < 18,
        decreases 4 - picks.len(),
    {
        picks.push(random_in_range(0, 18));
    }
    let r = password_from(alnum.as_slice(), picks.as_slice());
    assert(password_draws_ok(alnum@, picks@) && r@ == password_spec(alnum@, picks@));
    r
}

// ---------------------------------------------------------------------------
// The new user
// ---------------------------------------------------------------------------

/// What a new user is.
pub struct NewUserView {
    pub username: Seq<char>,
    pub email: Seq<char>,
    pub name: Seq<char>,
    pub password: Seq<char>,
    pub roles: Seq<Seq<char>>,
}

impl View for NewUser {
    type V = NewUserView;

    open spec fn view(&self) -> NewUserView {
        NewUserView {
            username: self.username@,
            email: self.email@,
            name: self.name@,
            password: self.password@,
            roles: string_views(self.roles@),
        }
    }
}

/// What the payload built for an identity is, given the usernames already
/// taken: a username derived from the local part and kept unique, the
/// address as listed, the display name, the role, and a fresh password
/// (returned beside it as well).
pub open spec fn new_user_spec(
    id: IdentityView,
    role: Seq<char>,
    taken: Seq<Seq<char>>,
    u: NewUserView,
    password: Seq<char>,
) -> bool {
    let local = local_part_spec(id.email.raw);
    &&& unique_username_spec(sanitize_spec(local), taken, u.username)
    &&& u.email == id.email.raw
    &&& u.name == display_name_spec(local)
    &&& u.password == password
    &&& password_ok(password)
    &&& u.roles == seq![role]
}

/// Builds the payload for an identity, keeping usernames unique against the
/// ones already taken (`taken` is extended with the chosen username).
pub fn new_user_for(identity: &Identity, role: &str, taken: &mut Vec<String>) -> (r: (NewUser, String))
    ensures
        new_user_spec(identity@, role@, string_views(old(taken)@), r.0@, r.1@),
        string_views(final(taken)@) == string_views(old(taken)@).push(r.0@.username),
{
    let email = identity.email();
    let base = sanitize_username(email.local_part());
    let username = unique_username(base.as_str(), taken);
    let ghost before = string_views(taken@);
    taken.push(username.clone());
    assert(string_views(taken@) =~= before.push(username@));
    let password = generate_password();
    let mut roles: Vec<String> = Vec::new();
    roles.push(role.to_owned());
    assert(string_views(roles@) =~= seq![role@]);
    let new_user = NewUser {
        username,
        email: email.raw().to_owned(),
        name: display_name(email.local_part()),
        password: password.clone(),
        roles,
    };
    (new_user, password)
}

/// What a list of payloads is.
pub open spec fn payload_views(ps: Seq<(NewUser, String)>) -> Seq<(NewUserView, Seq<char>)> {
    ps.map_values(|p: (NewUser, String)| (p.0@, p.1@))
}

/// The usernames of a list of payloads.
pub open spec fn usernames(ps: Seq<(NewUserView, Seq<char>)>) -> Seq<Seq<char>> {
    ps.map_values(|p: (NewUserView, Seq<char>)| p.0.username)
}

/// The usernames taken when the payload `i` of a batch is built: the ones
/// taken at first, and those of the payloads before it.
pub open spec fn taken_before(taken: Seq<Seq<char>>, ps: Seq<(NewUserView, Seq<char>)>, i: int) -> Seq<Seq<char>> {
    taken + usernames(ps.take(i))
}

/// What the payloads built for a list of identities are: one per identity,
/// in order, each built against the usernames taken before it.
pub open spec fn batch_spec(
    ids: Seq<IdentityView>,
    role: Seq<char>,
    taken: Seq<Seq<char>>,
    ps: Seq<(NewUserView, Seq<char>)>,
) -> bool {
    &&& ps.len() == ids.len()
    &&& forall|i: int|
        0 <= i < ids.len() ==> new_user_spec(
            #[trigger] ids[i],
            role,
            taken_before(taken, ps, i),
            ps[i].0,
            ps[i].1,
        )
}

/// Builds the payloads for the identities to create, in order, each username
/// kept unique against the ones taken and those chosen before it (`taken`
/// is extended with the chosen usernames).
pub fn new_users_for(identities: &[Identity], role: &str, taken: &mut Vec<String>) -> (r: Vec<(NewUser, String)>)
    ensures
        batch_spec(identity_views(identities@), role@, string_views(old(taken)@), payload_views(r@)),
        string_views(final(taken)@) == string_views(old(taken)@) + usernames(payload_views(r@)),
{
    let ghost t0 = string_views(taken@);
    let ghost ids = identity_views(identities@);
    let mut r: Vec<(NewUser, String)> = Vec::new();
    let mut i: usize = 0;
    while i < identities.len()
        invariant
            i <= identities.len(),
            ids == identity_views(identities@),
            r@.len() == i,
            string_views(taken@) == t0 + usernames(payload_views(r@)),
            forall|k: int|
                0 <= k < i ==> new_user_spec(
                    #[trigger] ids[k],
                    role@,
                    taken_before(t0, payload_views(r@), k),
                    payload_views(r@)[k].0,
                    payload_views(r@)[k].1,
                ),
        decreases identities.len() - i,
    {
        let ghost before = payload_views(r@);
        let ghost tb = string_views(taken@);
        let p = new_user_for(&identities[i], role, taken);
        r.push(p);
        proof {
            let after = payload_views(r@);
            assert(after =~= before.push((p.0@, p.1@)));
            assert(after.take(i as int) =~= before);
            assert(tb == taken_before(t0, after, i as int));
            assert(ids[i as int] == identities@[i as int]@);
            assert forall|k: int| 0 <= k < i implies taken_before(t0, after, k) == taken_before(t0, before, k) by {
                assert(after.take(k) =~= before.take(k));
            }
            assert(usernames(after) =~= usernames(before).push(p.0@.username));
            assert(string_views(taken@) =~= t0 + usernames(after));
        }
        i = i + 1;
    }
    r
}

/// Law: the usernames of a batch of new users are pairwise distinct, and
/// none of them was taken already, as long as, when each payload is built,
/// its base username or one of its numbered forms up to 999 is still free.
pub proof fn law_batch_usernames_distinct(
    ids: Seq<IdentityView>,
    role: Seq<char>,
    taken: Seq<Seq<char>>,
    ps: Seq<(NewUserView, Seq<char>)>,
)
    requires
        batch_spec(ids, role, taken, ps),
        forall|i: int|
            0 <= i < ids.len() ==> has_free_candidate(
                sanitize_spec(local_part_spec((#[trigger] ids[i]).email.raw)),
                taken_before(taken, ps, i),
            ),
    ensures
        forall|i: int, j: int|
            0 <= i < j < ps.len() ==> (#[trigger] ps[i]).0.username != (#[trigger] ps[j]).0.username,
        forall|i: int| 0 <= i < ps.len() ==> !taken.contains((#[trigger] ps[i]).0.username),
{
    assert forall|j: int| 0 <= j < ps.len() implies !taken_before(taken, ps, j).contains(
        (#[trigger] ps[j]).0.username,
    ) by {
        assert(new_user_spec(ids[j], role, taken_before(taken, ps, j), ps[j].0, ps[j].1));
        law_username_is_free(
            sanitize_spec(local_part_spec(ids[j].email.raw)),
            taken_before(taken, ps, j),
            ps[j].0.username,
        );
    }
    assert forall|i: int, j: int|
        0 <= i < j < ps.len() implies (#[trigger] ps[i]).0.username != (#[trigger] ps[j]).0.username by {
        let tj = taken_before(taken, ps, j);
        assert(tj[taken.len() + i] == ps[i].0.username);
        assert(!tj.contains(ps[j].0.username));
    }
    assert forall|i: int| 0 <= i < ps.len() implies !taken.contains((#[trigger] ps[i]).0.username) by {
        let ti = taken_before(taken, ps, i);
        assert(!ti.contains(ps[i].0.username));
        if taken.contains(ps[i].0.username) {
            let k = choose|k: int| 0 <= k < taken.len() && taken[k] == ps[i].0.username;
            assert(ti[k] == ps[i].0.username);
        }
    }
}

} // verus!
