//! How closely a transcript resembles a stored reference question, and which
//! reference question, if any, it is taken to be.
//!
//! A score is an exact fraction `numerator / denominator` between 0 and 1.
use vstd::prelude::*;
use vstd::utf8::encode_utf8;
use crate::edit_distance::{
    edit_distance, edit_distance_chars, lemma_edit_distance_bounds, lemma_edit_distance_symmetric,
    lemma_edit_distance_zero, max_int,
};
use crate::text::{
    byte_len, chars_eq, chars_of, is_alnum, is_alnum_char, is_space, contains_chars, contains_seq,
    lemma_encode_utf8_len, lowercase_text, string_of, trim, trim_chars,
    lowercased, is_space_char, all_ascii, ascii_lower_seq, is_ascii_char, lemma_trim_padded,
    ascii_upper, ascii_upper_seq, is_ascii_digit, is_ascii_letter, is_ascii_space,
    lemma_lowercased_ascii_upper,
};

verus! {

/// The letters, digits and whitespace of `s`, in order.
pub open spec fn keep_words_and_spaces(s: Seq<char>) -> Seq<char>
    decreases s.len(),
{
    if s.len() == 0 {
        Seq::empty()
    } else if is_alnum_char(s.last()) || is_space_char(s.last()) {
        keep_words_and_spaces(s.drop_last()).push(s.last())
    } else {
        keep_words_and_spaces(s.drop_last())
    }
}

/// The form in which texts are compared: punctuation dropped, lower-cased,
/// trimmed.
pub open spec fn match_form(s: Seq<char>) -> Seq<char> {
    trim(lowercased(keep_words_and_spaces(s)))
}

/// The similarity of two texts as a fraction `(numerator, denominator)`:
/// equal match forms score 1; where one contains the other and their UTF-8
/// lengths differ by less than 20 bytes, 9/10; otherwise one minus the edit
/// distance over the greater UTF-8 length.
pub open spec fn similarity_of(s1: Seq<char>, s2: Seq<char>) -> (int, int) {
    let c1 = match_form(s1);
    let c2 = match_form(s2);
    let b1 = encode_utf8(c1).len() as int;
    let b2 = encode_utf8(c2).len() as int;
    if c1 == c2 {
        (1, 1)
    } else if (contains_seq(c1, c2) || contains_seq(c2, c1)) && -20 < b1 - b2 < 20 {
        (9, 10)
    } else {
        let m = max_int(b1, b2);
        if m == 0 {
            (1, 1)
        } else {
            (m - edit_distance(c1, c2), m)
        }
    }
}

/// `a` is a greater fraction than `b` (both with positive denominators).
pub open spec fn exceeds(a: (int, int), b: (int, int)) -> bool {
    a.0 * b.1 > b.0 * a.1
}

/// A fraction of at least three quarters.
pub open spec fn reaches_match_threshold(a: (int, int)) -> bool {
    4 * a.0 >= 3 * a.1
}

/// A similarity score: the fraction `numerator / denominator`.
#[derive(Clone, Copy, Debug)]
pub struct Similarity {
    pub numerator: usize,
    pub denominator: usize,
}

impl Similarity {
    pub open spec fn value(self) -> (int, int) {
        (self.numerator as int, self.denominator as int)
    }

    /// Whether this score is greater than `other`.
    pub fn exceeds(&self, other: &Similarity) -> (r: bool)
        ensures
            r == exceeds(self.value(), other.value()),
    {
        let a = self.numerator as u128;
        let b = other.denominator as u128;
        let c = other.numerator as u128;
        let d = self.denominator as u128;
        proof {
            assert(a * b <= u128::MAX) by (nonlinear_arith)
                requires
                    a <= u64::MAX,
                    b <= u64::MAX,
            ;
            assert(c * d <= u128::MAX) by (nonlinear_arith)
                requires
                    c <= u64::MAX,
                    d <= u64::MAX,
            ;
        }
        a * b > c * d
    }

    /// Whether this score is at least three quarters.
    pub fn reaches_match_threshold(&self) -> (r: bool)
        ensures
            r == reaches_match_threshold(self.value()),
    {
        4 * (self.numerator as u128) >= 3 * (self.denominator as u128)
    }
}

/// The match form of a text, as characters.
fn match_form_chars(s: &str) -> (r: Vec<char>)
    ensures
        r@ == match_form(s@),
{
    let all = chars_of(s);
    let mut kept: Vec<char> = Vec::new();
    let mut i: usize = 0;
    while i < all.len()
        invariant
            0 <= i <= all@.len(),
            kept@ == keep_words_and_spaces(all@.take(i as int)),
        decreases all@.len() - i,
    {
        let c = all[i];
        assert(all@.take(i + 1).drop_last() =~= all@.take(i as int));
        if is_alnum(c) || is_space(c) {
            kept.push(c);
        }
        i = i + 1;
    }
    assert(all@.take(all@.len() as int) =~= all@);
    let kept_string = string_of(&kept);
    let lower = lowercase_text(kept_string.as_str());
    let lower_chars = chars_of(lower.as_str());
    trim_chars(&lower_chars)
}

/// How similar two texts are, ignoring punctuation, letter case and
/// surrounding whitespace.
pub fn calculate_similarity(s1: &str, s2: &str) -> (r: Similarity)
    ensures
        r.value() == similarity_of(s1@, s2@),
        0 <= r.numerator <= r.denominator,
        r.denominator > 0,
{
    let c1 = match_form_chars(s1);
    let c2 = match_form_chars(s2);
    let t1 = string_of(&c1);
    let t2 = string_of(&c2);
    let b1 = byte_len(t1.as_str());
    let b2 = byte_len(t2.as_str());
    proof {
        lemma_encode_utf8_len(c1@);
        lemma_encode_utf8_len(c2@);
    }
    if chars_eq(&c1, &c2) {
        return Similarity { numerator: 1, denominator: 1 };
    }
    if contains_chars(&c1, &c2) || contains_chars(&c2, &c1) {
        let close = if b1 >= b2 {
            b1 - b2 < 20
        } else {
            b2 - b1 < 20
        };
        if close {
            return Similarity { numerator: 9, denominator: 10 };
        }
    }
    let m = if b1 >= b2 {
        b1
    } else {
        b2
    };
    if m == 0 {
        return Similarity { numerator: 1, denominator: 1 };
    }
    let d = edit_distance_chars(&c1, &c2);
    proof {
        lemma_edit_distance_bounds(c1@, c2@);
    }
    Similarity { numerator: m - d, denominator: m }
}

/// Scores are fractions between 0 and 1 with a positive denominator.
pub proof fn lemma_similarity_range(s1: Seq<char>, s2: Seq<char>)
    ensures
        similarity_of(s1, s2).1 > 0,
        0 <= similarity_of(s1, s2).0 <= similarity_of(s1, s2).1,
{
    let c1 = match_form(s1);
    let c2 = match_form(s2);
    lemma_encode_utf8_len(c1);
    lemma_encode_utf8_len(c2);
    lemma_edit_distance_bounds(c1, c2);
}

/// A text is as similar to itself as possible.
pub proof fn lemma_similarity_reflexive(s: Seq<char>)
    ensures
        similarity_of(s, s) == (1int, 1int),
{
}

/// Similarity does not depend on the order of the two texts.
pub proof fn lemma_similarity_symmetric(s1: Seq<char>, s2: Seq<char>)
    ensures
        similarity_of(s1, s2) == similarity_of(s2, s1),
{
    lemma_edit_distance_symmetric(match_form(s1), match_form(s2));
}

/// Two texts score a full 1 exactly when their match forms are equal.
pub proof fn lemma_full_score_iff_same_form(s1: Seq<char>, s2: Seq<char>)
    ensures
        (similarity_of(s1, s2) == (1int, 1int)) <==> (match_form(s1) == match_form(s2)),
{
    let c1 = match_form(s1);
    let c2 = match_form(s2);
    lemma_encode_utf8_len(c1);
    lemma_encode_utf8_len(c2);
    lemma_edit_distance_zero(c1, c2);
    if c1 != c2 && c1.len() == 0 && c2.len() == 0 {
        assert(c1 =~= c2);
    }
}

/// Text made only of lower-case ASCII letters, digits and spaces, with no
/// space at either end.
pub open spec fn is_plain_lower_text(s: Seq<char>) -> bool {
    &&& forall|i: int|
        0 <= i < s.len() ==> ('a' <= #[trigger] s[i] <= 'z') || ('0' <= s[i] <= '9') || s[i]
            == ' '
    &&& s.len() > 0 ==> s[0] != ' ' && s.last() != ' '
}

proof fn lemma_keep_all(s: Seq<char>)
    requires
        forall|i: int| 0 <= i < s.len() ==> is_alnum_char(#[trigger] s[i]) || is_space_char(s[i]),
    ensures
        keep_words_and_spaces(s) == s,
    decreases s.len(),
{
    if s.len() > 0 {
        let d = s.drop_last();
        assert forall|i: int| 0 <= i < d.len() implies is_alnum_char(#[trigger] d[i])
            || is_space_char(d[i]) by {
            assert(d[i] == s[i]);
        }
        lemma_keep_all(d);
        assert(d.push(s.last()) =~= s);
    }
}

/// Letters, digits and inner spaces all survive into the match form: text
/// made of lower-case ASCII letters, digits and spaces, with no space at
/// either end, is its own match form.
pub proof fn lemma_plain_text_is_match_form(s: Seq<char>)
    requires
        is_plain_lower_text(s),
    ensures
        match_form(s) == s,
{
    assert forall|i: int| 0 <= i < s.len() implies is_alnum_char(#[trigger] s[i])
        || is_space_char(s[i]) by {
        assert(is_ascii_char(s[i]));
    }
    lemma_keep_all(s);
    assert(all_ascii(s)) by {
        assert forall|i: int| 0 <= i < s.len() implies #[trigger] is_ascii_char(s[i]) by {}
    }
    assert(ascii_lower_seq(s) =~= s);
    if s.len() > 0 {
        lemma_trim_padded(Seq::empty(), s, Seq::empty());
        assert(Seq::<char>::empty() + s + Seq::<char>::empty() =~= s);
    }
}

/// Different texts of which one contains the other, with UTF-8 lengths
/// less than 20 bytes apart, score nine tenths.
pub proof fn lemma_containment_scores_nine_tenths(s1: Seq<char>, s2: Seq<char>)
    requires
        match_form(s1) != match_form(s2),
        contains_seq(match_form(s1), match_form(s2)) || contains_seq(match_form(s2), match_form(s1)),
        -20 < encode_utf8(match_form(s1)).len() - encode_utf8(match_form(s2)).len() < 20,
    ensures
        similarity_of(s1, s2) == (9int, 10int),
{
}

proof fn lemma_keep_append(a: Seq<char>, b: Seq<char>)
    ensures
        keep_words_and_spaces(a + b) == keep_words_and_spaces(a) + keep_words_and_spaces(b),
    decreases b.len(),
{
    if b.len() == 0 {
        assert(a + b =~= a);
        assert(keep_words_and_spaces(a) + keep_words_and_spaces(b) =~= keep_words_and_spaces(a));
    } else {
        lemma_keep_append(a, b.drop_last());
        assert((a + b).drop_last() =~= a + b.drop_last());
        assert((a + b).last() == b.last());
    }
}

/// Punctuation never changes how a text is compared: dropping an ASCII
/// character that is neither a letter, a digit nor whitespace leaves the
/// match form as it was.
pub proof fn lemma_punctuation_ignored(a: Seq<char>, c: char, b: Seq<char>)
    requires
        is_ascii_char(c),
        !is_ascii_letter(c),
        !is_ascii_digit(c),
        !is_ascii_space(c),
    ensures
        match_form(a + seq![c] + b) == match_form(a + b),
{
    lemma_keep_append(a + seq![c], b);
    lemma_keep_append(a, seq![c]);
    lemma_keep_append(a, b);
    let one = seq![c];
    assert(one.drop_last() =~= Seq::<char>::empty());
    assert(one.last() == c);
    assert(!is_alnum_char(c) && !is_space_char(c));
    assert(keep_words_and_spaces(one.drop_last()) =~= Seq::<char>::empty());
    assert(keep_words_and_spaces(one) =~= Seq::<char>::empty());
    assert(keep_words_and_spaces(a) + Seq::<char>::empty() =~= keep_words_and_spaces(a));
}

proof fn lemma_keep_ascii_upper(s: Seq<char>)
    requires
        all_ascii(s),
    ensures
        keep_words_and_spaces(ascii_upper_seq(s)) == ascii_upper_seq(keep_words_and_spaces(s)),
        all_ascii(keep_words_and_spaces(s)),
    decreases s.len(),
{
    if s.len() > 0 {
        let d = s.drop_last();
        assert(all_ascii(d)) by {
            assert forall|i: int| 0 <= i < d.len() implies #[trigger] is_ascii_char(d[i]) by {
                assert(d[i] == s[i]);
            }
        }
        lemma_keep_ascii_upper(d);
        let u = ascii_upper_seq(s);
        assert(u.drop_last() =~= ascii_upper_seq(d));
        assert(u.last() == ascii_upper(s.last()));
        assert(is_ascii_char(s[s.len() - 1]));
        assert(ascii_upper_seq(keep_words_and_spaces(d).push(s.last())) =~= ascii_upper_seq(
            keep_words_and_spaces(d),
        ).push(ascii_upper(s.last())));
        let k = keep_words_and_spaces(s);
        assert forall|i: int| 0 <= i < k.len() implies #[trigger] is_ascii_char(k[i]) by {
            if i < keep_words_and_spaces(d).len() {
                assert(is_ascii_char(keep_words_and_spaces(d)[i]));
            }
        }
    }
}

/// Letter case never changes how an ASCII text is compared: upper-casing
/// its letters leaves the match form as it was.
pub proof fn lemma_match_form_ignores_ascii_case(s: Seq<char>)
    requires
        all_ascii(s),
    ensures
        match_form(ascii_upper_seq(s)) == match_form(s),
{
    lemma_keep_ascii_upper(s);
    lemma_lowercased_ascii_upper(keep_words_and_spaces(s));
}

} // verus!
