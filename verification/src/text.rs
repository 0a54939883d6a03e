//! Character-level text primitives shared by the transcript, filter and prompt
//! modules: the Unicode classifications that std provides, and verified
//! searching, slicing, trimming, splitting and replacing on `Seq<char>`.
use vstd::prelude::*;
use vstd::utf8::{encode_scalar, encode_utf8};

verus! {

// What `char::is_alphabetic` answers for a character (Unicode `Alphabetic`).
pub uninterp spec fn unicode_alphabetic(c: char) -> bool;

// What `char::is_alphanumeric` answers for a character (`Alphabetic` or `Numeric`).
pub uninterp spec fn unicode_alphanumeric(c: char) -> bool;

// What `char::is_whitespace` answers for a character (Unicode `White_Space`).
pub uninterp spec fn unicode_whitespace(c: char) -> bool;

// What `str::to_lowercase` returns for a string.
pub uninterp spec fn unicode_lowercase(s: Seq<char>) -> Seq<char>;

pub open spec fn is_ascii_char(c: char) -> bool {
    (c as u32) < 128
}

pub open spec fn all_ascii(s: Seq<char>) -> bool {
    forall|i: int| 0 <= i < s.len() ==> #[trigger] is_ascii_char(s[i])
}

pub open spec fn is_ascii_letter(c: char) -> bool {
    ('a' <= c && c <= 'z') || ('A' <= c && c <= 'Z')
}

pub open spec fn is_ascii_digit(c: char) -> bool {
    '0' <= c && c <= '9'
}

/// The ASCII characters with the Unicode `White_Space` property:
/// tab, line feed, vertical tab, form feed, carriage return and space.
pub open spec fn is_ascii_space(c: char) -> bool {
    ('\t' <= c && c <= '\r') || c == ' '
}

pub open spec fn ascii_lower(c: char) -> char {
    if 'A' <= c && c <= 'Z' {
        ((c as u32) + 32) as char
    } else {
        c
    }
}

pub open spec fn ascii_lower_seq(s: Seq<char>) -> Seq<char> {
    s.map_values(|c: char| ascii_lower(c))
}

pub open spec fn ascii_upper(c: char) -> char {
    if 'a' <= c && c <= 'z' {
        ((c as u32) - 32) as char
    } else {
        c
    }
}

/// `s` with `a-z` mapped to `A-Z` (what `str::to_ascii_uppercase` returns).
pub open spec fn ascii_upper_seq(s: Seq<char>) -> Seq<char> {
    s.map_values(|c: char| ascii_upper(c))
}

/// Wraps `char::is_alphabetic`.  Claims: the answer depends on the character
/// alone, and on ASCII characters it holds exactly of the letters `a-z`, `A-Z`.
#[verifier::external_body]
pub(crate) fn char_is_alphabetic(c: char) -> (r: bool)
    ensures
        r == unicode_alphabetic(c),
        is_ascii_char(c) ==> (r == is_ascii_letter(c)),
{
    c.is_alphabetic()
}

/// Wraps `char::is_alphanumeric`.  Claims: the answer depends on the character
/// alone, and on ASCII characters it holds exactly of letters and digits.
#[verifier::external_body]
pub(crate) fn char_is_alphanumeric(c: char) -> (r: bool)
    ensures
        r == unicode_alphanumeric(c),
        is_ascii_char(c) ==> (r == (is_ascii_letter(c) || is_ascii_digit(c))),
{
    c.is_alphanumeric()
}

/// Wraps `char::is_whitespace`.  Claims: the answer depends on the character
/// alone, and on ASCII characters it holds exactly of `\t`, `\n`, `\x0B`,
/// `\x0C`, `\r` and the space.
#[verifier::external_body]
pub(crate) fn char_is_whitespace(c: char) -> (r: bool)
    ensures
        r == unicode_whitespace(c),
        is_ascii_char(c) ==> (r == is_ascii_space(c)),
{
    c.is_whitespace()
}

/// Wraps `str::to_lowercase`.  Claims: the result depends on the text alone,
/// and on all-ASCII text it maps `A-Z` to `a-z` and keeps every other
/// character.  What it does to other characters (Unicode case tables, the
/// final sigma) is left to the name.
#[verifier::external_body]
pub(crate) fn lowercase(s: &str) -> (r: String)
    ensures
        r@ == unicode_lowercase(s@),
        all_ascii(s@) ==> r@ == ascii_lower_seq(s@),
{
    s.to_lowercase()
}

/// Wraps `String::push`: appends one character.
#[verifier::external_body]
pub(crate) fn push_char(s: &mut String, c: char)
    ensures
        final(s)@ == old(s)@.push(c),
{
    s.push(c)
}

/// Whether `c` is whitespace in the sense of `char::is_whitespace`: on ASCII
/// exactly tab, line feed, vertical tab, form feed, carriage return and space.
pub open spec fn is_space_char(c: char) -> bool {
    if is_ascii_char(c) {
        is_ascii_space(c)
    } else {
        unicode_whitespace(c)
    }
}

/// `s` lower-cased as `str::to_lowercase` does it: all-ASCII text has `A-Z`
/// mapped to `a-z` and nothing else changed.
pub open spec fn lowercased(s: Seq<char>) -> Seq<char> {
    if all_ascii(s) {
        ascii_lower_seq(s)
    } else {
        unicode_lowercase(s)
    }
}

/// Whether `c` is alphabetic in the sense of `char::is_alphabetic`: on ASCII
/// exactly the letters `a-z` and `A-Z`.
pub open spec fn is_alpha_char(c: char) -> bool {
    if is_ascii_char(c) {
        is_ascii_letter(c)
    } else {
        unicode_alphabetic(c)
    }
}

/// Whether `c` is alphanumeric in the sense of `char::is_alphanumeric`: on
/// ASCII exactly the letters and the digits `0-9`.
pub open spec fn is_alnum_char(c: char) -> bool {
    if is_ascii_char(c) {
        is_ascii_letter(c) || is_ascii_digit(c)
    } else {
        unicode_alphanumeric(c)
    }
}

/// Whether `c` is alphabetic.
pub fn is_alpha(c: char) -> (r: bool)
    ensures
        r == is_alpha_char(c),
{
    char_is_alphabetic(c)
}

/// Whether `c` is a letter or a digit.
pub fn is_alnum(c: char) -> (r: bool)
    ensures
        r == is_alnum_char(c),
{
    char_is_alphanumeric(c)
}

/// Whether `c` is whitespace.
pub fn is_space(c: char) -> (r: bool)
    ensures
        r == is_space_char(c),
{
    char_is_whitespace(c)
}

/// `s` lower-cased.
pub fn lowercase_text(s: &str) -> (r: String)
    ensures
        r@ == lowercased(s@),
{
    lowercase(s)
}

/// The characters of a string slice.
pub fn chars_of(s: &str) -> (v: Vec<char>)
    ensures
        v@ == s@,
{
    let mut v: Vec<char> = Vec::new();
    for c in it: s.chars()
        invariant
            v@ == it.seq().take(it.index() as int),
            it.seq() == s@,
    {
        v.push(c);
        assert(it.seq().take(it.index() + 1) =~= it.seq().take(it.index() as int).push(c));
    }
    assert(s@.take(s@.len() as int) =~= s@);
    v
}

/// A `String` holding exactly the given characters.
pub fn string_of(v: &[char]) -> (s: String)
    ensures
        s@ == v@,
{
    let mut s = String::new();
    let mut i: usize = 0;
    while i < v.len()
        invariant
            0 <= i <= v@.len(),
            s@ == v@.take(i as int),
        decreases v@.len() - i,
    {
        push_char(&mut s, v[i]);
        assert(v@.take(i + 1) =~= v@.take(i as int).push(v@[i as int]));
        i = i + 1;
    }
    assert(v@.take(v@.len() as int) =~= v@);
    s
}

/// The characters `v[start..end]`.
pub fn slice_chars(v: &[char], start: usize, end: usize) -> (r: Vec<char>)
    requires
        start <= end <= v@.len(),
    ensures
        r@ == v@.subrange(start as int, end as int),
{
    let mut r: Vec<char> = Vec::new();
    let mut i: usize = start;
    while i < end
        invariant
            start <= i <= end <= v@.len(),
            r@ == v@.subrange(start as int, i as int),
        decreases end - i,
    {
        r.push(v[i]);
        assert(v@.subrange(start as int, i + 1) =~= v@.subrange(start as int, i as int).push(
            v@[i as int],
        ));
        i = i + 1;
    }
    r
}


/// `pattern` occurs in `s` at index `i`.
pub open spec fn occurs_at(s: Seq<char>, pattern: Seq<char>, i: int) -> bool {
    0 <= i && i + pattern.len() <= s.len() && s.subrange(i, i + pattern.len()) == pattern
}

/// `pattern` occurs somewhere in `s` (what `str::contains` answers).
pub open spec fn contains_seq(s: Seq<char>, pattern: Seq<char>) -> bool {
    exists|i: int| occurs_at(s, pattern, i)
}

/// Index of the first occurrence of `pattern` in `s` (what `str::find` answers).
pub open spec fn find_first(s: Seq<char>, pattern: Seq<char>) -> Option<int>
    decreases s.len(),
{
    if s.len() < pattern.len() {
        None
    } else if s.take(pattern.len() as int) == pattern {
        Some(0)
    } else if s.len() == 0 {
        None
    } else {
        match find_first(s.drop_first(), pattern) {
            Some(i) => Some(i + 1),
            None => None,
        }
    }
}

/// `find_first` names the least index at which the pattern occurs.
pub proof fn lemma_find_first(s: Seq<char>, pattern: Seq<char>)
    ensures
        match find_first(s, pattern) {
            Some(i) => occurs_at(s, pattern, i) && forall|j: int|
                0 <= j < i ==> !#[trigger] occurs_at(s, pattern, j),
            None => forall|j: int| !#[trigger] occurs_at(s, pattern, j),
        },
    decreases s.len(),
{
    let n = pattern.len() as int;
    if s.len() < pattern.len() {
    } else if s.take(n) == pattern {
        assert(s.subrange(0, n) =~= s.take(n));
    } else if s.len() == 0 {
        assert(s.take(n) =~= pattern);
    } else {
        let t = s.drop_first();
        lemma_find_first(t, pattern);
        assert(!occurs_at(s, pattern, 0)) by {
            assert(s.subrange(0, n) =~= s.take(n));
        }
        assert forall|j: int| j >= 1 implies #[trigger] occurs_at(s, pattern, j) == occurs_at(
            t,
            pattern,
            j - 1,
        ) by {
            if j + n <= s.len() {
                assert(s.subrange(j, j + n) =~= t.subrange(j - 1, j - 1 + n));
            }
        }
        match find_first(t, pattern) {
            Some(i) => {
                assert(occurs_at(s, pattern, i + 1));
                assert forall|j: int| 0 <= j < i + 1 implies !#[trigger] occurs_at(s, pattern, j) by {
                    if j >= 1 {
                        assert(!occurs_at(t, pattern, j - 1));
                    }
                }
            },
            None => {
                assert forall|j: int| !#[trigger] occurs_at(s, pattern, j) by {
                    if j >= 1 {
                        assert(!occurs_at(t, pattern, j - 1));
                    }
                }
            },
        }
    }
}

/// The first occurrence is determined by where the pattern occurs.
pub proof fn lemma_find_first_is(s: Seq<char>, pattern: Seq<char>, i: int)
    requires
        occurs_at(s, pattern, i),
        forall|j: int| 0 <= j < i ==> !#[trigger] occurs_at(s, pattern, j),
    ensures
        find_first(s, pattern) == Some(i),
{
    lemma_find_first(s, pattern);
    match find_first(s, pattern) {
        Some(k) => {
            if k < i {
                assert(!occurs_at(s, pattern, k));
            } else if k > i {
                assert(!occurs_at(s, pattern, i));
            }
        },
        None => {
            assert(!occurs_at(s, pattern, i));
        },
    }
}

/// No occurrence means no first occurrence.
pub proof fn lemma_find_first_none(s: Seq<char>, pattern: Seq<char>)
    requires
        forall|j: int| !#[trigger] occurs_at(s, pattern, j),
    ensures
        find_first(s, pattern) is None,
{
    lemma_find_first(s, pattern);
    if let Some(k) = find_first(s, pattern) {
        assert(occurs_at(s, pattern, k));
    }
}

/// Where no occurrence starts inside the prefix `u`, searching `u + v` is
/// searching `v`, shifted by the length of `u`.
pub proof fn lemma_find_after_prefix(u: Seq<char>, v: Seq<char>, pattern: Seq<char>)
    requires
        forall|j: int| 0 <= j < u.len() ==> !#[trigger] occurs_at(u + v, pattern, j),
    ensures
        find_first(u + v, pattern) == match find_first(v, pattern) {
            Some(i) => Some(i + u.len()),
            None => None::<int>,
        },
{
    let s = u + v;
    let n = pattern.len() as int;
    lemma_find_first(v, pattern);
    assert forall|j: int| j >= 0 implies #[trigger] occurs_at(s, pattern, j + u.len()) == occurs_at(
        v,
        pattern,
        j,
    ) by {
        if j + n <= v.len() {
            assert(s.subrange(j + u.len(), j + u.len() + n) =~= v.subrange(j, j + n));
        }
    }
    match find_first(v, pattern) {
        Some(i) => {
            assert(occurs_at(s, pattern, i + u.len()));
            assert forall|j: int| 0 <= j < i + u.len() implies !#[trigger] occurs_at(s, pattern, j) by {
                if j >= u.len() {
                    assert(!occurs_at(v, pattern, j - u.len()));
                    assert(occurs_at(s, pattern, (j - u.len()) + u.len()) == occurs_at(
                        v,
                        pattern,
                        j - u.len(),
                    ));
                }
            }
            lemma_find_first_is(s, pattern, i + u.len());
        },
        None => {
            assert forall|j: int| !#[trigger] occurs_at(s, pattern, j) by {
                if j >= u.len() {
                    assert(!occurs_at(v, pattern, j - u.len()));
                    assert(occurs_at(s, pattern, (j - u.len()) + u.len()) == occurs_at(
                        v,
                        pattern,
                        j - u.len(),
                    ));
                }
            }
            lemma_find_first_none(s, pattern);
        },
    }
}

/// Whether `pattern` occurs in `s` at index `i`.
pub fn matches_at(s: &[char], pattern: &[char], i: usize) -> (r: bool)
    requires
        i <= s@.len(),
    ensures
        r == occurs_at(s@, pattern@, i as int),
{
    let slen = s.len();
    if pattern.len() > slen - i {
        return false;
    }
    let mut k: usize = 0;
    while k < pattern.len()
        invariant
            i + pattern@.len() <= s@.len(),
            slen == s@.len(),
            0 <= k <= pattern@.len(),
            forall|m: int| 0 <= m < k ==> s@[i + m] == pattern@[m],
        decreases pattern@.len() - k,
    {
        assert(i + k < s@.len());
        if s[i + k] != pattern[k] {
            assert(s@.subrange(i as int, i + pattern@.len())[k as int] != pattern@[k as int]);
            return false;
        }
        k = k + 1;
    }
    assert(s@.subrange(i as int, i + pattern@.len()) =~= pattern@);
    true
}

/// Index of the first occurrence of `pattern` in `s`.
pub fn find_chars(s: &[char], pattern: &[char]) -> (r: Option<usize>)
    ensures
        r matches Some(i) ==> find_first(s@, pattern@) == Some(i as int),
        r is None ==> find_first(s@, pattern@) is None,
{
    let mut i: usize = 0;
    loop
        invariant
            0 <= i <= s@.len(),
            forall|j: int| 0 <= j < i ==> !#[trigger] occurs_at(s@, pattern@, j),
        decreases s@.len() - i,
    {
        if matches_at(s, pattern, i) {
            proof {
                lemma_find_first_is(s@, pattern@, i as int);
            }
            return Some(i);
        }
        if i == s.len() {
            assert forall|j: int| !#[trigger] occurs_at(s@, pattern@, j) by {
                if 0 <= j < i {
                }
            }
            proof {
                lemma_find_first_none(s@, pattern@);
            }
            return None;
        }
        i = i + 1;
    }
}

/// Whether `pattern` occurs in `s`.
pub fn contains_chars(s: &[char], pattern: &[char]) -> (r: bool)
    ensures
        r == contains_seq(s@, pattern@),
{
    proof {
        lemma_find_first(s@, pattern@);
    }
    match find_chars(s, pattern) {
        Some(i) => {
            assert(occurs_at(s@, pattern@, i as int));
            true
        },
        None => false,
    }
}


/// `s` without its leading whitespace.
pub open spec fn trim_start(s: Seq<char>) -> Seq<char>
    decreases s.len(),
{
    if s.len() > 0 && is_space_char(s[0]) {
        trim_start(s.drop_first())
    } else {
        s
    }
}

/// `s` without its trailing whitespace.
pub open spec fn trim_end(s: Seq<char>) -> Seq<char>
    decreases s.len(),
{
    if s.len() > 0 && is_space_char(s.last()) {
        trim_end(s.drop_last())
    } else {
        s
    }
}

/// `s` without leading and trailing whitespace (what `str::trim` returns).
pub open spec fn trim(s: Seq<char>) -> Seq<char> {
    trim_end(trim_start(s))
}

proof fn lemma_trim_start_at(s: Seq<char>, a: int)
    requires
        0 <= a <= s.len(),
        forall|k: int| 0 <= k < a ==> is_space_char(#[trigger] s[k]),
        a == s.len() || !is_space_char(s[a]),
    ensures
        trim_start(s) == s.skip(a),
    decreases a,
{
    if a == 0 {
        assert(s.skip(0) =~= s);
    } else {
        assert(is_space_char(s[0]));
        let t = s.drop_first();
        assert forall|k: int| 0 <= k < a - 1 implies is_space_char(#[trigger] t[k]) by {
            assert(t[k] == s[k + 1]);
        }
        lemma_trim_start_at(t, a - 1);
        assert(t.skip(a - 1) =~= s.skip(a));
    }
}

proof fn lemma_trim_end_at(s: Seq<char>, b: int)
    requires
        0 <= b <= s.len(),
        forall|k: int| b <= k < s.len() ==> is_space_char(#[trigger] s[k]),
        b == 0 || !is_space_char(s[b - 1]),
    ensures
        trim_end(s) == s.take(b),
    decreases s.len() - b,
{
    if b == s.len() {
        assert(s.take(b) =~= s);
    } else {
        assert(is_space_char(s.last()));
        let t = s.drop_last();
        assert forall|k: int| b <= k < t.len() implies is_space_char(#[trigger] t[k]) by {
            assert(t[k] == s[k]);
        }
        lemma_trim_end_at(t, b);
        assert(t.take(b) =~= s.take(b));
    }
}

proof fn lemma_trim_start_front(s: Seq<char>)
    ensures
        trim_start(s).len() == 0 || !is_space_char(trim_start(s)[0]),
    decreases s.len(),
{
    if s.len() > 0 && is_space_char(s[0]) {
        lemma_trim_start_front(s.drop_first());
    }
}

proof fn lemma_trim_end_prefix(s: Seq<char>)
    ensures
        trim_end(s) == s.take(trim_end(s).len() as int),
        trim_end(s).len() <= s.len(),
        trim_end(s).len() == 0 || !is_space_char(trim_end(s).last()),
    decreases s.len(),
{
    if s.len() > 0 && is_space_char(s.last()) {
        lemma_trim_end_prefix(s.drop_last());
        assert(s.drop_last().take(trim_end(s).len() as int) =~= s.take(trim_end(s).len() as int));
    } else {
        assert(s.take(s.len() as int) =~= s);
    }
}

/// Trimming twice is trimming once.
pub proof fn lemma_trim_idempotent(s: Seq<char>)
    ensures
        trim(trim(s)) == trim(s),
{
    let u = trim_start(s);
    let v = trim_end(u);
    lemma_trim_start_front(s);
    lemma_trim_end_prefix(u);
    if v.len() > 0 {
        assert(v[0] == u[0]);
        assert(trim_start(v) == v);
        assert(trim_end(v) == v);
    } else {
        assert(trim_start(v) == v);
    }
}

/// ASCII upper-casing keeps every character's class: whitespace stays
/// whitespace, ASCII stays ASCII, and lower-casing undoes it.
proof fn lemma_ascii_upper_char(c: char)
    ensures
        is_space_char(ascii_upper(c)) == is_space_char(c),
        is_ascii_char(ascii_upper(c)) == is_ascii_char(c),
        is_ascii_char(c) ==> ascii_lower(ascii_upper(c)) == ascii_lower(c),
{
}

proof fn lemma_trim_start_upper(s: Seq<char>)
    ensures
        trim_start(ascii_upper_seq(s)) == ascii_upper_seq(trim_start(s)),
    decreases s.len(),
{
    if s.len() > 0 {
        lemma_ascii_upper_char(s[0]);
        assert(ascii_upper_seq(s)[0] == ascii_upper(s[0]));
        if is_space_char(s[0]) {
            assert(ascii_upper_seq(s).drop_first() =~= ascii_upper_seq(s.drop_first()));
            lemma_trim_start_upper(s.drop_first());
        }
    }
}

proof fn lemma_trim_end_upper(s: Seq<char>)
    ensures
        trim_end(ascii_upper_seq(s)) == ascii_upper_seq(trim_end(s)),
    decreases s.len(),
{
    if s.len() > 0 {
        lemma_ascii_upper_char(s.last());
        assert(ascii_upper_seq(s).last() == ascii_upper(s.last()));
        if is_space_char(s.last()) {
            assert(ascii_upper_seq(s).drop_last() =~= ascii_upper_seq(s.drop_last()));
            lemma_trim_end_upper(s.drop_last());
        }
    }
}

proof fn lemma_trim_start_ascii(s: Seq<char>)
    requires
        all_ascii(s),
    ensures
        all_ascii(trim_start(s)),
    decreases s.len(),
{
    if s.len() > 0 && is_space_char(s[0]) {
        assert(all_ascii(s.drop_first())) by {
            assert forall|i: int| 0 <= i < s.len() - 1 implies #[trigger] is_ascii_char(
                s.drop_first()[i],
            ) by {
                assert(is_ascii_char(s[i + 1]));
            }
        }
        lemma_trim_start_ascii(s.drop_first());
    }
}

proof fn lemma_trim_end_ascii(s: Seq<char>)
    requires
        all_ascii(s),
    ensures
        all_ascii(trim_end(s)),
    decreases s.len(),
{
    if s.len() > 0 && is_space_char(s.last()) {
        assert(all_ascii(s.drop_last())) by {
            assert forall|i: int| 0 <= i < s.len() - 1 implies #[trigger] is_ascii_char(
                s.drop_last()[i],
            ) by {
                assert(is_ascii_char(s[i]));
            }
        }
        lemma_trim_end_ascii(s.drop_last());
    }
}

/// Trimming all-ASCII text leaves all-ASCII text.
pub proof fn lemma_trim_ascii(s: Seq<char>)
    requires
        all_ascii(s),
    ensures
        all_ascii(trim(s)),
{
    lemma_trim_start_ascii(s);
    lemma_trim_end_ascii(trim_start(s));
}

/// Whitespace around a text whose first and last characters are not
/// whitespace is exactly what trimming removes.
pub proof fn lemma_trim_padded(lead: Seq<char>, m: Seq<char>, trail: Seq<char>)
    requires
        forall|i: int| 0 <= i < lead.len() ==> is_space_char(#[trigger] lead[i]),
        forall|i: int| 0 <= i < trail.len() ==> is_space_char(#[trigger] trail[i]),
        m.len() > 0,
        !is_space_char(m[0]),
        !is_space_char(m.last()),
    ensures
        trim(lead + m + trail) == m,
{
    let s = lead + m + trail;
    assert forall|k: int| 0 <= k < lead.len() implies is_space_char(#[trigger] s[k]) by {
        assert(s[k] == lead[k]);
    }
    assert(s[lead.len() as int] == m[0]);
    lemma_trim_start_at(s, lead.len() as int);
    let t = s.skip(lead.len() as int);
    assert(t =~= m + trail);
    assert forall|k: int| m.len() <= k < t.len() implies is_space_char(#[trigger] t[k]) by {
        assert(t[k] == trail[k - m.len()]);
    }
    assert(t[m.len() - 1] == m.last());
    lemma_trim_end_at(t, m.len() as int);
    assert(t.take(m.len() as int) =~= m);
}

/// Text that is all whitespace trims to nothing.
pub proof fn lemma_trim_blank(s: Seq<char>)
    requires
        forall|i: int| 0 <= i < s.len() ==> is_space_char(#[trigger] s[i]),
    ensures
        trim(s).len() == 0,
{
    lemma_trim_start_at(s, s.len() as int);
    assert(s.skip(s.len() as int) =~= Seq::<char>::empty());
}

/// Trimming commutes with ASCII upper-casing.
pub proof fn lemma_trim_ascii_upper(s: Seq<char>)
    ensures
        trim(ascii_upper_seq(s)) == ascii_upper_seq(trim(s)),
{
    lemma_trim_start_upper(s);
    lemma_trim_end_upper(trim_start(s));
}

/// On all-ASCII text, lower-casing forgets an ASCII upper-casing, and the
/// upper-cased text is all-ASCII too.
pub proof fn lemma_lowercased_ascii_upper(s: Seq<char>)
    requires
        all_ascii(s),
    ensures
        all_ascii(ascii_upper_seq(s)),
        lowercased(ascii_upper_seq(s)) == lowercased(s),
{
    let u = ascii_upper_seq(s);
    assert forall|i: int| 0 <= i < u.len() implies #[trigger] is_ascii_char(u[i]) by {
        lemma_ascii_upper_char(s[i]);
    }
    assert forall|i: int| 0 <= i < s.len() implies #[trigger] ascii_lower_seq(u)[i]
        == ascii_lower_seq(s)[i] by {
        assert(is_ascii_char(s[i]));
        lemma_ascii_upper_char(s[i]);
    }
    assert(ascii_lower_seq(u) =~= ascii_lower_seq(s));
}

/// `v` without leading and trailing whitespace.
pub fn trim_chars(v: &[char]) -> (r: Vec<char>)
    ensures
        r@ == trim(v@),
{
    let len = v.len();
    let mut a: usize = 0;
    while a < len && is_space(v[a])
        invariant
            len == v@.len(),
            0 <= a <= len,
            forall|k: int| 0 <= k < a ==> is_space_char(#[trigger] v@[k]),
        decreases len - a,
    {
        a = a + 1;
    }
    proof {
        lemma_trim_start_at(v@, a as int);
    }
    let mut b: usize = len;
    while b > a && is_space(v[b - 1])
        invariant
            len == v@.len(),
            0 <= a <= b <= len,
            forall|k: int| b <= k < len ==> is_space_char(#[trigger] v@[k]),
        decreases b,
    {
        b = b - 1;
    }
    let ghost t = v@.skip(a as int);
    assert forall|k: int| b - a <= k < t.len() implies is_space_char(#[trigger] t[k]) by {
        assert(t[k] == v@[k + a]);
    }
    proof {
        if b > a {
            assert(t[b - a - 1] == v@[b - 1]);
        }
        lemma_trim_end_at(t, b - a);
        assert(t.take(b - a) =~= v@.subrange(a as int, b as int));
    }
    slice_chars(v, a, b)
}

/// The whitespace-separated words of `s` (what `str::split_whitespace`
/// yields), defined by reading `s` from the left one character at a time.
pub open spec fn words(s: Seq<char>) -> Seq<Seq<char>>
    decreases s.len(),
{
    if s.len() == 0 {
        Seq::empty()
    } else {
        let before = words(s.drop_last());
        let c = s.last();
        if is_space_char(c) {
            before
        } else if s.len() == 1 || is_space_char(s[s.len() - 2]) {
            before.push(seq![c])
        } else {
            before.update(before.len() - 1, before.last().push(c))
        }
    }
}

/// How many whitespace characters `s` holds.
pub open spec fn space_count(s: Seq<char>) -> nat
    decreases s.len(),
{
    if s.len() == 0 {
        0
    } else {
        space_count(s.drop_last()) + if is_space_char(s.last()) {
            1nat
        } else {
            0nat
        }
    }
}

/// Whitespace is counted piece by piece.
pub proof fn lemma_space_count_append(a: Seq<char>, b: Seq<char>)
    ensures
        space_count(a + b) == space_count(a) + space_count(b),
    decreases b.len(),
{
    if b.len() == 0 {
        assert(a + b =~= a);
    } else {
        lemma_space_count_append(a, b.drop_last());
        assert((a + b).drop_last() =~= a + b.drop_last());
    }
}

/// A text with at most one whitespace character counts at most one.
pub proof fn lemma_space_count_at_most_one(s: Seq<char>)
    requires
        forall|i: int, j: int|
            0 <= i < j < s.len() ==> !(is_space_char(#[trigger] s[i]) && is_space_char(
                #[trigger] s[j],
            )),
    ensures
        space_count(s) <= 1,
    decreases s.len(),
{
    if s.len() > 0 {
        let d = s.drop_last();
        assert forall|i: int, j: int| 0 <= i < j < d.len() implies !(is_space_char(
            #[trigger] d[i],
        ) && is_space_char(#[trigger] d[j])) by {
            assert(d[i] == s[i] && d[j] == s[j]);
        }
        lemma_space_count_at_most_one(d);
        if is_space_char(s.last()) {
            assert forall|i: int| 0 <= i < d.len() implies !is_space_char(#[trigger] d[i]) by {
                assert(d[i] == s[i]);
                assert(s[s.len() - 1] == s.last());
            }
            lemma_space_count_none(d);
        }
    }
}

/// A text without whitespace counts none.
pub proof fn lemma_space_count_none(s: Seq<char>)
    requires
        forall|i: int| 0 <= i < s.len() ==> !is_space_char(#[trigger] s[i]),
    ensures
        space_count(s) == 0,
    decreases s.len(),
{
    if s.len() > 0 {
        let d = s.drop_last();
        assert forall|i: int| 0 <= i < d.len() implies !is_space_char(#[trigger] d[i]) by {
            assert(d[i] == s[i]);
        }
        lemma_space_count_none(d);
    }
}

/// Whitespace separates words: a text has at most one word more than it
/// has whitespace characters, and none more when it ends in whitespace.
pub proof fn lemma_words_len_bound(s: Seq<char>)
    ensures
        words(s).len() <= space_count(s) + if s.len() > 0 && !is_space_char(s.last()) {
            1int
        } else {
            0int
        },
        s.len() > 0 && !is_space_char(s.last()) ==> words(s).len() >= 1,
    decreases s.len(),
{
    if s.len() > 0 {
        let d = s.drop_last();
        lemma_words_len_bound(d);
        if s.len() > 1 {
            assert(d.last() == s[s.len() - 2]);
        }
    }
}

/// ASCII lower-casing keeps the number of words.
pub proof fn lemma_words_len_ascii_lower(s: Seq<char>)
    ensures
        words(ascii_lower_seq(s)).len() == words(s).len(),
    decreases s.len(),
{
    if s.len() > 0 {
        let l = ascii_lower_seq(s);
        let d = s.drop_last();
        assert(l.drop_last() =~= ascii_lower_seq(d));
        lemma_words_len_ascii_lower(d);
        lemma_words_len_bound(d);
        lemma_words_len_bound(ascii_lower_seq(d));
        lemma_ascii_lower_space(s.last());
        assert(l.last() == ascii_lower(s.last()));
        if s.len() > 1 {
            lemma_ascii_lower_space(s[s.len() - 2]);
            assert(l[l.len() - 2] == ascii_lower(s[s.len() - 2]));
            assert(d.last() == s[s.len() - 2]);
            assert(ascii_lower_seq(d).last() == l[l.len() - 2]);
        }
    }
}

proof fn lemma_ascii_lower_space(c: char)
    ensures
        is_space_char(ascii_lower(c)) == is_space_char(c),
{
}

pub open spec fn views_of(ws: Seq<Vec<char>>) -> Seq<Seq<char>> {
    ws.map_values(|w: Vec<char>| w@)
}

/// The whitespace-separated words of `v`.
pub fn split_words(v: &[char]) -> (ws: Vec<Vec<char>>)
    ensures
        views_of(ws@) == words(v@),
{
    let len = v.len();
    let mut done: Vec<Vec<char>> = Vec::new();
    let mut cur: Vec<char> = Vec::new();
    let mut i: usize = 0;
    while i < len
        invariant
            len == v@.len(),
            0 <= i <= len,
            words(v@.take(i as int)) == views_of(done@) + (if cur@.len() > 0 {
                seq![cur@]
            } else {
                Seq::empty()
            }),
            (cur@.len() > 0) == (i > 0 && !is_space_char(v@[i - 1])),
        decreases len - i,
    {
        let c = v[i];
        let ghost s = v@.take(i + 1);
        assert(s.drop_last() =~= v@.take(i as int));
        assert(s.last() == c);
        let ghost old_done = done@;
        let ghost old_cur = cur@;
        if is_space(c) {
            if cur.len() > 0 {
                let w = cur;
                done.push(w);
                cur = Vec::new();
                assert(views_of(done@) =~= views_of(old_done) + seq![old_cur]);
            }
            assert(views_of(done@) + Seq::<Seq<char>>::empty() =~= views_of(done@));
        } else if cur.len() == 0 {
            cur.push(c);
            assert(cur@ =~= seq![c]);
            assert(views_of(old_done) + Seq::<Seq<char>>::empty() =~= views_of(old_done));
            assert(views_of(done@) + seq![cur@] =~= views_of(old_done).push(seq![c]));
            if i > 0 {
                assert(s[s.len() - 2] == v@[i - 1]);
            }
        } else {
            cur.push(c);
            assert(s[s.len() - 2] == v@[i - 1]);
            let ghost before = views_of(old_done) + seq![old_cur];
            assert(views_of(done@) + seq![cur@] =~= before.update(
                before.len() - 1,
                before.last().push(c),
            ));
        }
        i = i + 1;
    }
    assert(v@.take(len as int) =~= v@);
    if cur.len() > 0 {
        let ghost old_done = done@;
        let ghost old_cur = cur@;
        done.push(cur);
        assert(views_of(done@) =~= views_of(old_done) + seq![old_cur]);
    } else {
        assert(views_of(done@) + Seq::<Seq<char>>::empty() =~= views_of(done@));
    }
    done
}

/// `s` with every occurrence of the non-empty `pattern`, taken from the left
/// without overlaps, replaced by `replacement` (what `str::replace` returns).
pub open spec fn replace_all(s: Seq<char>, pattern: Seq<char>, replacement: Seq<char>) -> Seq<char>
    decreases s.len(),
{
    if pattern.len() == 0 || s.len() < pattern.len() {
        s
    } else if s.take(pattern.len() as int) == pattern {
        replacement + replace_all(s.skip(pattern.len() as int), pattern, replacement)
    } else {
        seq![s[0]] + replace_all(s.drop_first(), pattern, replacement)
    }
}

/// Nothing in front of the first place where the pattern could start is
/// touched by replacement.
pub proof fn lemma_replace_all_skip_prefix(
    p: Seq<char>,
    x: Seq<char>,
    pattern: Seq<char>,
    replacement: Seq<char>,
)
    requires
        pattern.len() > 0,
        forall|i: int| 0 <= i < p.len() ==> #[trigger] p[i] != pattern[0],
    ensures
        replace_all(p + x, pattern, replacement) == p + replace_all(x, pattern, replacement),
    decreases p.len(),
{
    let s = p + x;
    if p.len() == 0 {
        assert(s =~= x);
        assert(p + replace_all(x, pattern, replacement) =~= replace_all(x, pattern, replacement));
    } else if s.len() < pattern.len() {
        assert(s =~= p + x);
    } else {
        assert(s.take(pattern.len() as int)[0] == p[0]);
        assert(s.take(pattern.len() as int) != pattern);
        let pd = p.drop_first();
        assert forall|i: int| 0 <= i < pd.len() implies #[trigger] pd[i] != pattern[0] by {
            assert(pd[i] == p[i + 1]);
        }
        lemma_replace_all_skip_prefix(pd, x, pattern, replacement);
        assert(s.drop_first() =~= pd + x);
        assert(seq![p[0]] + (pd + replace_all(x, pattern, replacement)) =~= p + replace_all(
            x,
            pattern,
            replacement,
        ));
    }
}

/// Text in which every character matching the pattern's first is followed
/// by one that does not match its second holds no occurrence, and
/// replacement leaves it unchanged.
pub proof fn lemma_replace_all_absent(s: Seq<char>, pattern: Seq<char>, replacement: Seq<char>)
    requires
        pattern.len() >= 2,
        forall|i: int|
            0 <= i < s.len() && #[trigger] s[i] == pattern[0] && i + 1 < s.len() ==> s[i + 1]
                != pattern[1],
    ensures
        replace_all(s, pattern, replacement) == s,
    decreases s.len(),
{
    if s.len() >= pattern.len() {
        if s[0] == pattern[0] {
            assert(s[1] != pattern[1]);
            assert(s.take(pattern.len() as int)[1] == s[1]);
        } else {
            assert(s.take(pattern.len() as int)[0] == s[0]);
        }
        assert(s.take(pattern.len() as int) != pattern);
        let d = s.drop_first();
        assert forall|i: int|
            0 <= i < d.len() && #[trigger] d[i] == pattern[0] && i + 1 < d.len() implies d[i + 1]
                != pattern[1] by {
            assert(d[i] == s[i + 1]);
            assert(d[i + 1] == s[i + 2]);
        }
        lemma_replace_all_absent(d, pattern, replacement);
        assert(seq![s[0]] + d =~= s);
    }
}

/// `v` with every occurrence of `pattern` replaced by `replacement`.
pub fn replace_chars(v: &[char], pattern: &[char], replacement: &[char]) -> (r: Vec<char>)
    requires
        pattern@.len() > 0,
    ensures
        r@ == replace_all(v@, pattern@, replacement@),
{
    let len = v.len();
    let mut out: Vec<char> = Vec::new();
    let mut i: usize = 0;
    assert(v@.skip(0) =~= v@);
    while i < len
        invariant
            len == v@.len(),
            pattern@.len() > 0,
            0 <= i <= len,
            out@ + replace_all(v@.skip(i as int), pattern@, replacement@) == replace_all(
                v@,
                pattern@,
                replacement@,
            ),
        decreases len - i,
    {
        let ghost rest = v@.skip(i as int);
        let ghost old_out = out@;
        if matches_at(v, pattern, i) {
            assert(rest.take(pattern@.len() as int) =~= v@.subrange(i as int, i + pattern@.len()));
            assert(rest.skip(pattern@.len() as int) =~= v@.skip(i + pattern@.len()));
            let mut k: usize = 0;
            while k < replacement.len()
                invariant
                    0 <= k <= replacement@.len(),
                    out@ == old_out + replacement@.take(k as int),
                decreases replacement@.len() - k,
            {
                out.push(replacement[k]);
                assert(replacement@.take(k + 1) =~= replacement@.take(k as int).push(
                    replacement@[k as int],
                ));
                k = k + 1;
            }
            assert(replacement@.take(replacement@.len() as int) =~= replacement@);
            assert(out@ + replace_all(v@.skip(i + pattern@.len()), pattern@, replacement@) =~= old_out
                + replace_all(rest, pattern@, replacement@));
            i = i + pattern.len();
        } else {
            out.push(v[i]);
            assert(rest.drop_first() =~= v@.skip(i + 1));
            proof {
                if rest.len() >= pattern@.len() {
                    assert(rest.take(pattern@.len() as int) != pattern@) by {
                        assert(rest.take(pattern@.len() as int) =~= v@.subrange(
                            i as int,
                            i + pattern@.len(),
                        ));
                    }
                    assert(out@ + replace_all(v@.skip(i + 1), pattern@, replacement@) =~= old_out
                        + replace_all(rest, pattern@, replacement@));
                } else {
                    assert(replace_all(rest, pattern@, replacement@) == rest);
                    assert(v@.skip(i + 1).len() < pattern@.len());
                    assert(replace_all(v@.skip(i + 1), pattern@, replacement@) == v@.skip(i + 1));
                    assert(out@ + v@.skip(i + 1) =~= old_out + rest);
                }
            }
            i = i + 1;
        }
    }
    assert(v@.skip(len as int).len() == 0);
    assert(out@ + v@.skip(len as int) =~= out@);
    out
}

/// The words joined by single spaces (what `join(" ")` returns).
pub open spec fn join_words(ws: Seq<Seq<char>>) -> Seq<char>
    decreases ws.len(),
{
    if ws.len() == 0 {
        Seq::empty()
    } else if ws.len() == 1 {
        ws[0]
    } else {
        join_words(ws.drop_last()) + seq![' '] + ws.last()
    }
}

/// The words of `ws` joined by single spaces.
pub fn join_with_spaces(ws: &Vec<Vec<char>>) -> (r: Vec<char>)
    ensures
        r@ == join_words(views_of(ws@)),
{
    let mut out: Vec<char> = Vec::new();
    let mut i: usize = 0;
    while i < ws.len()
        invariant
            0 <= i <= ws@.len(),
            out@ == join_words(views_of(ws@).take(i as int)),
        decreases ws@.len() - i,
    {
        let ghost old_out = out@;
        let ghost pre = views_of(ws@).take(i + 1);
        assert(pre.drop_last() =~= views_of(ws@).take(i as int));
        if i > 0 {
            out.push(' ');
        }
        let w = &ws[i];
        let mut k: usize = 0;
        while k < w.len()
            invariant
                0 <= k <= w@.len(),
                out@ == (if i > 0 {
                    old_out + seq![' ']
                } else {
                    old_out
                }) + w@.take(k as int),
            decreases w@.len() - k,
        {
            out.push(w[k]);
            assert(w@.take(k + 1) =~= w@.take(k as int).push(w@[k as int]));
            k = k + 1;
        }
        assert(w@.take(w@.len() as int) =~= w@);
        if i == 0 {
            assert(old_out =~= Seq::<char>::empty());
            assert(out@ =~= pre[0]);
        }
        i = i + 1;
    }
    assert(views_of(ws@).take(ws@.len() as int) =~= views_of(ws@));
    out
}

/// Whether two character sequences are equal.
pub fn chars_eq(a: &[char], b: &[char]) -> (r: bool)
    ensures
        r == (a@ == b@),
{
    if a.len() != b.len() {
        return false;
    }
    let mut i: usize = 0;
    while i < a.len()
        invariant
            a@.len() == b@.len(),
            0 <= i <= a@.len(),
            forall|k: int| 0 <= k < i ==> a@[k] == b@[k],
        decreases a@.len() - i,
    {
        if a[i] != b[i] {
            return false;
        }
        i = i + 1;
    }
    assert(a@ =~= b@);
    true
}


pub proof fn lemma_encode_utf8_append(a: Seq<char>, b: Seq<char>)
    ensures
        encode_utf8(a + b) == encode_utf8(a) + encode_utf8(b),
    decreases a.len(),
{
    if a.len() == 0 {
        assert(a + b =~= b);
        assert(encode_utf8(a) + encode_utf8(b) =~= encode_utf8(b));
    } else {
        assert((a + b).drop_first() =~= a.drop_first() + b);
        lemma_encode_utf8_append(a.drop_first(), b);
        assert(encode_utf8(a + b) =~= encode_utf8(a) + encode_utf8(b));
    }
}

pub proof fn lemma_encode_utf8_one(c: char)
    ensures
        encode_utf8(seq![c]) == encode_scalar(c as u32),
{
    let one = seq![c];
    assert(one.drop_first() =~= Seq::<char>::empty());
    assert(encode_utf8(one.drop_first()) =~= Seq::<u8>::empty());
    assert(encode_utf8(one) =~= encode_scalar(c as u32));
}

/// The number of bytes that UTF-8 takes for `c`.
pub fn utf8_width(c: char) -> (w: usize)
    ensures
        w == encode_scalar(c as u32).len(),
{
    let v = c as u32;
    if v <= 0x7F {
        1
    } else if v <= 0x7FF {
        2
    } else if v <= 0xFFFF {
        3
    } else {
        4
    }
}

/// Whether the UTF-8 encoding of `v` takes at most `limit` bytes.
pub fn utf8_len_at_most(v: &[char], limit: usize) -> (r: bool)
    ensures
        r == (encode_utf8(v@).len() <= limit),
{
    let mut total: usize = 0;
    let mut i: usize = 0;
    while i < v.len()
        invariant
            0 <= i <= v@.len(),
            total == encode_utf8(v@.take(i as int)).len(),
            total <= limit,
        decreases v@.len() - i,
    {
        let w = utf8_width(v[i]);
        proof {
            assert(v@.take(i + 1) =~= v@.take(i as int) + seq![v@[i as int]]);
            lemma_encode_utf8_append(v@.take(i as int), seq![v@[i as int]]);
            lemma_encode_utf8_one(v@[i as int]);
        }
        if w > limit - total {
            proof {
                assert(v@ =~= v@.take(i + 1) + v@.skip(i + 1));
                lemma_encode_utf8_append(v@.take(i + 1), v@.skip(i + 1));
            }
            return false;
        }
        total = total + w;
        i = i + 1;
    }
    assert(v@.take(v@.len() as int) =~= v@);
    true
}


pub proof fn lemma_encode_utf8_len(s: Seq<char>)
    ensures
        encode_utf8(s).len() >= s.len(),
    decreases s.len(),
{
    if s.len() > 0 {
        lemma_encode_utf8_len(s.drop_first());
    }
}

/// Wraps `str::len`.  Claims: the result is the length of the text's UTF-8
/// encoding, and (as for every value in memory, per std's documentation of
/// slices and allocations) it is at most `isize::MAX`.
#[verifier::external_body]
pub(crate) fn byte_len(s: &str) -> (n: usize)
    ensures
        n == encode_utf8(s@).len(),
        n <= isize::MAX,
{
    s.len()
}

/// The number of characters in a text is below `usize::MAX`.
pub fn char_count_bound(s: &str) -> (n: usize)
    ensures
        n == encode_utf8(s@).len(),
        s@.len() < usize::MAX,
{
    let n = byte_len(s);
    proof {
        lemma_encode_utf8_len(s@);
    }
    n
}


/// All-ASCII text takes one byte per character.
pub proof fn lemma_ascii_bytes(s: Seq<char>)
    requires
        all_ascii(s),
    ensures
        encode_utf8(s).len() == s.len(),
    decreases s.len(),
{
    if s.len() > 0 {
        assert(is_ascii_char(s[0]));
        let t = s.drop_first();
        assert forall|i: int| 0 <= i < t.len() implies #[trigger] is_ascii_char(t[i]) by {
            assert(t[i] == s[i + 1]);
        }
        lemma_ascii_bytes(t);
    }
}

/// Start of the longest suffix of `v` whose UTF-8 encoding takes at most
/// `limit` bytes.
pub fn byte_suffix_start(v: &[char], limit: usize) -> (k: usize)
    ensures
        k <= v@.len(),
        encode_utf8(v@.skip(k as int)).len() <= limit,
        k == 0 || encode_utf8(v@.skip(k - 1)).len() > limit,
{
    let mut k: usize = v.len();
    let mut acc: usize = 0;
    assert(v@.skip(k as int) =~= Seq::<char>::empty());
    while k > 0
        invariant
            k <= v@.len(),
            acc == encode_utf8(v@.skip(k as int)).len(),
            acc <= limit,
        decreases k,
    {
        let w = utf8_width(v[k - 1]);
        proof {
            assert(v@.skip(k - 1) =~= seq![v@[k - 1]] + v@.skip(k as int));
            lemma_encode_utf8_append(seq![v@[k - 1]], v@.skip(k as int));
            lemma_encode_utf8_one(v@[k - 1]);
        }
        if w > limit - acc {
            return k;
        }
        acc = acc + w;
        k = k - 1;
    }
    k
}

} // verus!
