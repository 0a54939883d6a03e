//! Repair of computer-science terms that speech recognition commonly mishears
//! ("areas" for "arrays", "painter" for "pointer", "glass" for "class", and
//! "N-A" for "an array").
use vstd::prelude::*;
use crate::text::{
    all_ascii, ascii_lower_seq, is_ascii_char, is_ascii_letter, lemma_replace_all_absent,
    lemma_replace_all_skip_prefix,
    chars_eq, chars_of, is_alpha, is_alpha_char, join_with_spaces, join_words, lowercase_text, replace_all,
    replace_chars, slice_chars, split_words, string_of, lowercased, views_of, words,
};

verus! {

/// The alphabetic characters of `s`, in order.
pub open spec fn keep_alphabetic(s: Seq<char>) -> Seq<char>
    decreases s.len(),
{
    if s.len() == 0 {
        Seq::empty()
    } else if is_alpha_char(s.last()) {
        keep_alphabetic(s.drop_last()).push(s.last())
    } else {
        keep_alphabetic(s.drop_last())
    }
}

/// A word reduced to its letters, lower-cased: the form in which it is
/// recognised.
pub open spec fn cleaned_word(w: Seq<char>) -> Seq<char> {
    lowercased(keep_alphabetic(w))
}

/// Spelled-out "N-A" / "N.A." (upper or lower case) read as "an array".
pub open spec fn normalize_phrases(s: Seq<char>) -> Seq<char> {
    replace_all(
        replace_all(
            replace_all(replace_all(s, "N-A"@, "an array"@), "n-a"@, "an array"@),
            "N.A."@,
            "an array"@,
        ),
        "n.a."@,
        "an array"@,
    )
}

/// A word recognised as "n" followed by one recognised as "a" become the
/// single entry "an array"; everything else is kept.
pub open spec fn merge_spelled_article(ws: Seq<Seq<char>>) -> Seq<Seq<char>>
    decreases ws.len(),
{
    if ws.len() >= 2 && cleaned_word(ws[0]) == "n"@ && cleaned_word(ws[1]) == "a"@ {
        seq!["an array"@] + merge_spelled_article(ws.skip(2))
    } else if ws.len() == 0 {
        Seq::empty()
    } else {
        seq![ws[0]] + merge_spelled_article(ws.drop_first())
    }
}

/// `w` with the lower-case, capitalised and upper-case spellings of one term
/// replaced by those of another.
pub open spec fn replace_cased(
    w: Seq<char>,
    lower: Seq<char>,
    capital: Seq<char>,
    upper: Seq<char>,
    new_lower: Seq<char>,
    new_capital: Seq<char>,
    new_upper: Seq<char>,
) -> Seq<char> {
    replace_all(replace_all(replace_all(w, lower, new_lower), capital, new_capital), upper, new_upper)
}

/// One word with a misheard term corrected, punctuation kept.
pub open spec fn correct_word(w: Seq<char>) -> Seq<char> {
    let c = cleaned_word(w);
    if c == "area"@ {
        replace_cased(w, "area"@, "Area"@, "AREA"@, "array"@, "Array"@, "ARRAY"@)
    } else if c == "areas"@ {
        replace_cased(w, "areas"@, "Areas"@, "AREAS"@, "arrays"@, "Arrays"@, "ARRAYS"@)
    } else if c == "painter"@ {
        replace_cased(w, "painter"@, "Painter"@, "PAINTER"@, "pointer"@, "Pointer"@, "POINTER"@)
    } else if c == "painters"@ {
        replace_cased(w, "painters"@, "Painters"@, "PAINTERS"@, "pointers"@, "Pointers"@, "POINTERS"@)
    } else if c == "glass"@ {
        replace_cased(w, "glass"@, "Glass"@, "GLASS"@, "class"@, "Class"@, "CLASS"@)
    } else if c == "glasses"@ {
        replace_cased(w, "glasses"@, "Glasses"@, "GLASSES"@, "classes"@, "Classes"@, "CLASSES"@)
    } else {
        w
    }
}

/// The repaired transcript: phrases normalised, the words split on
/// whitespace, "n a" merged, each word corrected, and the words joined by
/// single spaces.
pub open spec fn sanitized(text: Seq<char>) -> Seq<char> {
    join_words(
        merge_spelled_article(words(normalize_phrases(text))).map_values(|w: Seq<char>| correct_word(w)),
    )
}

/// No character of `s` is a letter.
pub open spec fn letter_free(s: Seq<char>) -> bool {
    forall|i: int| 0 <= i < s.len() ==> !is_alpha_char(#[trigger] s[i])
}

/// `w` after one replacement, when `w` is the whole of what is replaced.
spec fn swap_whole(w: Seq<char>, pattern: Seq<char>, replacement: Seq<char>) -> Seq<char> {
    if w == pattern {
        replacement
    } else {
        w
    }
}

/// `w` is the pattern, or no character of `w` matching the pattern's first
/// is followed by one matching its second.
spec fn whole_or_absent(w: Seq<char>, pattern: Seq<char>) -> bool {
    ||| w == pattern
    ||| forall|i: int|
        0 <= i < w.len() && #[trigger] w[i] == pattern[0] && i + 1 < w.len() ==> w[i + 1]
            != pattern[1]
}

spec fn starts_with_two_letters(pattern: Seq<char>) -> bool {
    pattern.len() >= 2 && is_alpha_char(pattern[0]) && is_alpha_char(pattern[1])
}

proof fn lemma_keep_alphabetic_append(a: Seq<char>, b: Seq<char>)
    ensures
        keep_alphabetic(a + b) == keep_alphabetic(a) + keep_alphabetic(b),
    decreases b.len(),
{
    if b.len() == 0 {
        assert(a + b =~= a);
        assert(keep_alphabetic(a) + keep_alphabetic(b) =~= keep_alphabetic(a));
    } else {
        lemma_keep_alphabetic_append(a, b.drop_last());
        assert((a + b).drop_last() =~= a + b.drop_last());
        assert((a + b).last() == b.last());
    }
}

proof fn lemma_keep_alphabetic_none(s: Seq<char>)
    requires
        letter_free(s),
    ensures
        keep_alphabetic(s) == Seq::<char>::empty(),
    decreases s.len(),
{
    if s.len() > 0 {
        let d = s.drop_last();
        assert forall|i: int| 0 <= i < d.len() implies !is_alpha_char(#[trigger] d[i]) by {
            assert(d[i] == s[i]);
        }
        lemma_keep_alphabetic_none(d);
    }
}

proof fn lemma_keep_alphabetic_all(s: Seq<char>)
    requires
        forall|i: int| 0 <= i < s.len() ==> is_alpha_char(#[trigger] s[i]),
    ensures
        keep_alphabetic(s) == s,
    decreases s.len(),
{
    if s.len() > 0 {
        let d = s.drop_last();
        assert forall|i: int| 0 <= i < d.len() implies is_alpha_char(#[trigger] d[i]) by {
            assert(d[i] == s[i]);
        }
        lemma_keep_alphabetic_all(d);
        assert(d.push(s.last()) =~= s);
    }
}

/// One replacement inside a word framed by characters that are not letters.
proof fn lemma_replace_in_word(
    p: Seq<char>,
    w: Seq<char>,
    q: Seq<char>,
    pattern: Seq<char>,
    replacement: Seq<char>,
)
    requires
        letter_free(p),
        letter_free(q),
        starts_with_two_letters(pattern),
        whole_or_absent(w, pattern),
    ensures
        replace_all(p + w + q, pattern, replacement) == p + swap_whole(w, pattern, replacement)
            + q,
{
    assert forall|i: int| 0 <= i < p.len() implies #[trigger] p[i] != pattern[0] by {
        assert(!is_alpha_char(p[i]));
    }
    assert(p + w + q =~= p + (w + q));
    lemma_replace_all_skip_prefix(p, w + q, pattern, replacement);
    assert forall|i: int|
        0 <= i < q.len() && #[trigger] q[i] == pattern[0] && i + 1 < q.len() implies q[i + 1]
            != pattern[1] by {
        assert(!is_alpha_char(q[i]));
    }
    lemma_replace_all_absent(q, pattern, replacement);
    if w == pattern {
        assert((w + q).take(pattern.len() as int) =~= pattern);
        assert((w + q).skip(pattern.len() as int) =~= q);
        assert(p + (replacement + q) =~= p + replacement + q);
    } else {
        let s = w + q;
        assert forall|i: int|
            0 <= i < s.len() && #[trigger] s[i] == pattern[0] && i + 1 < s.len() implies s[i + 1]
                != pattern[1] by {
            if i + 1 < w.len() {
                assert(s[i] == w[i] && s[i + 1] == w[i + 1]);
            } else if i + 1 == w.len() {
                assert(s[i + 1] == q[0]);
                assert(!is_alpha_char(q[0]));
            } else {
                assert(s[i] == q[i - w.len()]);
                assert(!is_alpha_char(q[i - w.len()]));
            }
        }
        lemma_replace_all_absent(s, pattern, replacement);
        assert(p + (w + q) =~= p + w + q);
    }
}

/// A misheard term, in one of its three spellings and framed by characters
/// that are not letters, is recognised by its lower-case spelling and comes
/// out with the three replacements applied to the term alone.
proof fn lemma_term_in_word(
    p: Seq<char>,
    q: Seq<char>,
    w: Seq<char>,
    lower: Seq<char>,
    capital: Seq<char>,
    upper: Seq<char>,
    new_lower: Seq<char>,
    new_capital: Seq<char>,
    new_upper: Seq<char>,
)
    requires
        letter_free(p),
        letter_free(q),
        forall|i: int| 0 <= i < w.len() ==> is_ascii_letter(#[trigger] w[i]),
        ascii_lower_seq(w) == lower,
        starts_with_two_letters(lower),
        starts_with_two_letters(capital),
        starts_with_two_letters(upper),
        whole_or_absent(w, lower),
        whole_or_absent(swap_whole(w, lower, new_lower), capital),
        whole_or_absent(swap_whole(swap_whole(w, lower, new_lower), capital, new_capital), upper),
    ensures
        cleaned_word(p + w + q) == lower,
        replace_cased(p + w + q, lower, capital, upper, new_lower, new_capital, new_upper) == p
            + swap_whole(
            swap_whole(swap_whole(w, lower, new_lower), capital, new_capital),
            upper,
            new_upper,
        ) + q,
{
    assert forall|i: int| 0 <= i < w.len() implies is_alpha_char(#[trigger] w[i]) by {
        assert(is_ascii_letter(w[i]));
    }
    lemma_keep_alphabetic_append(p + w, q);
    lemma_keep_alphabetic_append(p, w);
    lemma_keep_alphabetic_none(p);
    lemma_keep_alphabetic_none(q);
    lemma_keep_alphabetic_all(w);
    assert(keep_alphabetic(p + w + q) =~= w);
    assert(all_ascii(w)) by {
        assert forall|i: int| 0 <= i < w.len() implies #[trigger] is_ascii_char(w[i]) by {
            assert(is_ascii_letter(w[i]));
        }
    }
    let w1 = swap_whole(w, lower, new_lower);
    let w2 = swap_whole(w1, capital, new_capital);
    lemma_replace_in_word(p, w, q, lower, new_lower);
    lemma_replace_in_word(p, w1, q, capital, new_capital);
    lemma_replace_in_word(p, w2, q, upper, new_upper);
}

proof fn lemma_area_corrected(p: Seq<char>, q: Seq<char>)
    requires
        letter_free(p),
        letter_free(q),
    ensures
        correct_word(p + "area"@ + q) == p + "array"@ + q,
        correct_word(p + "Area"@ + q) == p + "Array"@ + q,
        correct_word(p + "AREA"@ + q) == p + "ARRAY"@ + q,
{
    reveal_strlit("area");
    reveal_strlit("areas");
    reveal_strlit("painter");
    reveal_strlit("painters");
    reveal_strlit("glass");
    reveal_strlit("glasses");
    assert("areas"@[0] != "glass"@[0]);
    assert("painter"@[0] != "glasses"@[0]);
    reveal_strlit("Area");
    reveal_strlit("AREA");
    reveal_strlit("array");
    reveal_strlit("Array");
    reveal_strlit("ARRAY");
    assert(ascii_lower_seq("area"@) =~= "area"@);
    lemma_term_in_word(p, q, "area"@, "area"@, "Area"@, "AREA"@, "array"@, "Array"@, "ARRAY"@);
    assert(ascii_lower_seq("Area"@) =~= "area"@);
    lemma_term_in_word(p, q, "Area"@, "area"@, "Area"@, "AREA"@, "array"@, "Array"@, "ARRAY"@);
    assert(ascii_lower_seq("AREA"@) =~= "area"@);
    lemma_term_in_word(p, q, "AREA"@, "area"@, "Area"@, "AREA"@, "array"@, "Array"@, "ARRAY"@);
}

proof fn lemma_areas_corrected(p: Seq<char>, q: Seq<char>)
    requires
        letter_free(p),
        letter_free(q),
    ensures
        correct_word(p + "areas"@ + q) == p + "arrays"@ + q,
        correct_word(p + "Areas"@ + q) == p + "Arrays"@ + q,
        correct_word(p + "AREAS"@ + q) == p + "ARRAYS"@ + q,
{
    reveal_strlit("area");
    reveal_strlit("areas");
    reveal_strlit("painter");
    reveal_strlit("painters");
    reveal_strlit("glass");
    reveal_strlit("glasses");
    assert("areas"@[0] != "glass"@[0]);
    assert("painter"@[0] != "glasses"@[0]);
    reveal_strlit("Areas");
    reveal_strlit("AREAS");
    reveal_strlit("arrays");
    reveal_strlit("Arrays");
    reveal_strlit("ARRAYS");
    assert(ascii_lower_seq("areas"@) =~= "areas"@);
    lemma_term_in_word(p, q, "areas"@, "areas"@, "Areas"@, "AREAS"@, "arrays"@, "Arrays"@, "ARRAYS"@);
    assert(ascii_lower_seq("Areas"@) =~= "areas"@);
    lemma_term_in_word(p, q, "Areas"@, "areas"@, "Areas"@, "AREAS"@, "arrays"@, "Arrays"@, "ARRAYS"@);
    assert(ascii_lower_seq("AREAS"@) =~= "areas"@);
    lemma_term_in_word(p, q, "AREAS"@, "areas"@, "Areas"@, "AREAS"@, "arrays"@, "Arrays"@, "ARRAYS"@);
}

proof fn lemma_painter_corrected(p: Seq<char>, q: Seq<char>)
    requires
        letter_free(p),
        letter_free(q),
    ensures
        correct_word(p + "painter"@ + q) == p + "pointer"@ + q,
        correct_word(p + "Painter"@ + q) == p + "Pointer"@ + q,
        correct_word(p + "PAINTER"@ + q) == p + "POINTER"@ + q,
{
    reveal_strlit("area");
    reveal_strlit("areas");
    reveal_strlit("painter");
    reveal_strlit("painters");
    reveal_strlit("glass");
    reveal_strlit("glasses");
    assert("areas"@[0] != "glass"@[0]);
    assert("painter"@[0] != "glasses"@[0]);
    reveal_strlit("Painter");
    reveal_strlit("PAINTER");
    reveal_strlit("pointer");
    reveal_strlit("Pointer");
    reveal_strlit("POINTER");
    assert(ascii_lower_seq("painter"@) =~= "painter"@);
    lemma_term_in_word(p, q, "painter"@, "painter"@, "Painter"@, "PAINTER"@, "pointer"@, "Pointer"@, "POINTER"@);
    assert(ascii_lower_seq("Painter"@) =~= "painter"@);
    lemma_term_in_word(p, q, "Painter"@, "painter"@, "Painter"@, "PAINTER"@, "pointer"@, "Pointer"@, "POINTER"@);
    assert(ascii_lower_seq("PAINTER"@) =~= "painter"@);
    lemma_term_in_word(p, q, "PAINTER"@, "painter"@, "Painter"@, "PAINTER"@, "pointer"@, "Pointer"@, "POINTER"@);
}

proof fn lemma_painters_corrected(p: Seq<char>, q: Seq<char>)
    requires
        letter_free(p),
        letter_free(q),
    ensures
        correct_word(p + "painters"@ + q) == p + "pointers"@ + q,
        correct_word(p + "Painters"@ + q) == p + "Pointers"@ + q,
        correct_word(p + "PAINTERS"@ + q) == p + "POINTERS"@ + q,
{
    reveal_strlit("area");
    reveal_strlit("areas");
    reveal_strlit("painter");
    reveal_strlit("painters");
    reveal_strlit("glass");
    reveal_strlit("glasses");
    assert("areas"@[0] != "glass"@[0]);
    assert("painter"@[0] != "glasses"@[0]);
    reveal_strlit("Painters");
    reveal_strlit("PAINTERS");
    reveal_strlit("pointers");
    reveal_strlit("Pointers");
    reveal_strlit("POINTERS");
    assert(ascii_lower_seq("painters"@) =~= "painters"@);
    lemma_term_in_word(p, q, "painters"@, "painters"@, "Painters"@, "PAINTERS"@, "pointers"@, "Pointers"@, "POINTERS"@);
    assert(ascii_lower_seq("Painters"@) =~= "painters"@);
    lemma_term_in_word(p, q, "Painters"@, "painters"@, "Painters"@, "PAINTERS"@, "pointers"@, "Pointers"@, "POINTERS"@);
    assert(ascii_lower_seq("PAINTERS"@) =~= "painters"@);
    lemma_term_in_word(p, q, "PAINTERS"@, "painters"@, "Painters"@, "PAINTERS"@, "pointers"@, "Pointers"@, "POINTERS"@);
}

proof fn lemma_glass_corrected(p: Seq<char>, q: Seq<char>)
    requires
        letter_free(p),
        letter_free(q),
    ensures
        correct_word(p + "glass"@ + q) == p + "class"@ + q,
        correct_word(p + "Glass"@ + q) == p + "Class"@ + q,
        correct_word(p + "GLASS"@ + q) == p + "CLASS"@ + q,
{
    reveal_strlit("area");
    reveal_strlit("areas");
    reveal_strlit("painter");
    reveal_strlit("painters");
    reveal_strlit("glass");
    reveal_strlit("glasses");
    assert("areas"@[0] != "glass"@[0]);
    assert("painter"@[0] != "glasses"@[0]);
    reveal_strlit("Glass");
    reveal_strlit("GLASS");
    reveal_strlit("class");
    reveal_strlit("Class");
    reveal_strlit("CLASS");
    assert(ascii_lower_seq("glass"@) =~= "glass"@);
    lemma_term_in_word(p, q, "glass"@, "glass"@, "Glass"@, "GLASS"@, "class"@, "Class"@, "CLASS"@);
    assert(ascii_lower_seq("Glass"@) =~= "glass"@);
    lemma_term_in_word(p, q, "Glass"@, "glass"@, "Glass"@, "GLASS"@, "class"@, "Class"@, "CLASS"@);
    assert(ascii_lower_seq("GLASS"@) =~= "glass"@);
    lemma_term_in_word(p, q, "GLASS"@, "glass"@, "Glass"@, "GLASS"@, "class"@, "Class"@, "CLASS"@);
}

proof fn lemma_glasses_corrected(p: Seq<char>, q: Seq<char>)
    requires
        letter_free(p),
        letter_free(q),
    ensures
        correct_word(p + "glasses"@ + q) == p + "classes"@ + q,
        correct_word(p + "Glasses"@ + q) == p + "Classes"@ + q,
        correct_word(p + "GLASSES"@ + q) == p + "CLASSES"@ + q,
{
    reveal_strlit("area");
    reveal_strlit("areas");
    reveal_strlit("painter");
    reveal_strlit("painters");
    reveal_strlit("glass");
    reveal_strlit("glasses");
    assert("areas"@[0] != "glass"@[0]);
    assert("painter"@[0] != "glasses"@[0]);
    reveal_strlit("Glasses");
    reveal_strlit("GLASSES");
    reveal_strlit("classes");
    reveal_strlit("Classes");
    reveal_strlit("CLASSES");
    assert(ascii_lower_seq("glasses"@) =~= "glasses"@);
    lemma_term_in_word(p, q, "glasses"@, "glasses"@, "Glasses"@, "GLASSES"@, "classes"@, "Classes"@, "CLASSES"@);
    assert(ascii_lower_seq("Glasses"@) =~= "glasses"@);
    lemma_term_in_word(p, q, "Glasses"@, "glasses"@, "Glasses"@, "GLASSES"@, "classes"@, "Classes"@, "CLASSES"@);
    assert(ascii_lower_seq("GLASSES"@) =~= "glasses"@);
    lemma_term_in_word(p, q, "GLASSES"@, "glasses"@, "Glasses"@, "GLASSES"@, "classes"@, "Classes"@, "CLASSES"@);
}

/// Each misheard term, as a word of its own with any punctuation that is not
/// a letter around it, is corrected in its own letter case: area(s),
/// painter(s) and glass(es) become array(s), pointer(s) and class(es), lower
/// case to lower case, capitalised to capitalised, upper case to upper case.
pub proof fn lemma_misheard_terms_corrected(p: Seq<char>, q: Seq<char>)
    requires
        letter_free(p),
        letter_free(q),
    ensures
        correct_word(p + "area"@ + q) == p + "array"@ + q,
        correct_word(p + "Area"@ + q) == p + "Array"@ + q,
        correct_word(p + "AREA"@ + q) == p + "ARRAY"@ + q,
        correct_word(p + "areas"@ + q) == p + "arrays"@ + q,
        correct_word(p + "Areas"@ + q) == p + "Arrays"@ + q,
        correct_word(p + "AREAS"@ + q) == p + "ARRAYS"@ + q,
        correct_word(p + "painter"@ + q) == p + "pointer"@ + q,
        correct_word(p + "Painter"@ + q) == p + "Pointer"@ + q,
        correct_word(p + "PAINTER"@ + q) == p + "POINTER"@ + q,
        correct_word(p + "painters"@ + q) == p + "pointers"@ + q,
        correct_word(p + "Painters"@ + q) == p + "Pointers"@ + q,
        correct_word(p + "PAINTERS"@ + q) == p + "POINTERS"@ + q,
        correct_word(p + "glass"@ + q) == p + "class"@ + q,
        correct_word(p + "Glass"@ + q) == p + "Class"@ + q,
        correct_word(p + "GLASS"@ + q) == p + "CLASS"@ + q,
        correct_word(p + "glasses"@ + q) == p + "classes"@ + q,
        correct_word(p + "Glasses"@ + q) == p + "Classes"@ + q,
        correct_word(p + "GLASSES"@ + q) == p + "CLASSES"@ + q,
{
    lemma_area_corrected(p, q);
    lemma_areas_corrected(p, q);
    lemma_painter_corrected(p, q);
    lemma_painters_corrected(p, q);
    lemma_glass_corrected(p, q);
    lemma_glasses_corrected(p, q);
}

/// One replacement in text framed by characters that are not letters, for a
/// pattern that starts with a letter: `w` is the pattern, or each character
/// of `w` matching the pattern's first is followed, inside `w`, by one that
/// does not match its second.
proof fn lemma_replace_framed(
    p: Seq<char>,
    w: Seq<char>,
    q: Seq<char>,
    pattern: Seq<char>,
    replacement: Seq<char>,
)
    requires
        letter_free(p),
        letter_free(q),
        pattern.len() >= 2,
        is_alpha_char(pattern[0]),
        w == pattern || forall|i: int|
            0 <= i < w.len() && #[trigger] w[i] == pattern[0] ==> i + 1 < w.len() && w[i + 1]
                != pattern[1],
    ensures
        replace_all(p + w + q, pattern, replacement) == p + swap_whole(w, pattern, replacement)
            + q,
{
    assert forall|i: int| 0 <= i < p.len() implies #[trigger] p[i] != pattern[0] by {
        assert(!is_alpha_char(p[i]));
    }
    assert(p + w + q =~= p + (w + q));
    lemma_replace_all_skip_prefix(p, w + q, pattern, replacement);
    assert forall|i: int|
        0 <= i < q.len() && #[trigger] q[i] == pattern[0] && i + 1 < q.len() implies q[i + 1]
            != pattern[1] by {
        assert(!is_alpha_char(q[i]));
    }
    lemma_replace_all_absent(q, pattern, replacement);
    if w == pattern {
        assert((w + q).take(pattern.len() as int) =~= pattern);
        assert((w + q).skip(pattern.len() as int) =~= q);
        assert(p + (replacement + q) =~= p + replacement + q);
    } else {
        let s = w + q;
        assert forall|i: int|
            0 <= i < s.len() && #[trigger] s[i] == pattern[0] && i + 1 < s.len() implies s[i + 1]
                != pattern[1] by {
            if i < w.len() {
                assert(s[i] == w[i]);
                assert(s[i + 1] == w[i + 1]);
            } else {
                assert(s[i] == q[i - w.len()]);
                assert(!is_alpha_char(q[i - w.len()]));
            }
        }
        lemma_replace_all_absent(s, pattern, replacement);
        assert(p + (w + q) =~= p + w + q);
    }
}

/// "N-A", "n-a", "N.A." and "n.a.", with anything but letters around them,
/// read as "an array".
pub proof fn lemma_spelled_article_normalized(p: Seq<char>, q: Seq<char>)
    requires
        letter_free(p),
        letter_free(q),
    ensures
        normalize_phrases(p + "N-A"@ + q) == p + "an array"@ + q,
        normalize_phrases(p + "n-a"@ + q) == p + "an array"@ + q,
        normalize_phrases(p + "N.A."@ + q) == p + "an array"@ + q,
        normalize_phrases(p + "n.a."@ + q) == p + "an array"@ + q,
{
    reveal_strlit("N-A");
    reveal_strlit("n-a");
    reveal_strlit("N.A.");
    reveal_strlit("n.a.");
    reveal_strlit("an array");
    let aa = "an array"@;
    lemma_replace_framed(p, "N-A"@, q, "N-A"@, aa);
    lemma_replace_framed(p, aa, q, "n-a"@, aa);
    lemma_replace_framed(p, aa, q, "N.A."@, aa);
    lemma_replace_framed(p, aa, q, "n.a."@, aa);
    lemma_replace_framed(p, "n-a"@, q, "N-A"@, aa);
    lemma_replace_framed(p, "n-a"@, q, "n-a"@, aa);
    lemma_replace_framed(p, "N.A."@, q, "N-A"@, aa);
    lemma_replace_framed(p, "N.A."@, q, "n-a"@, aa);
    lemma_replace_framed(p, "N.A."@, q, "N.A."@, aa);
    lemma_replace_framed(p, "n.a."@, q, "N-A"@, aa);
    lemma_replace_framed(p, "n.a."@, q, "n-a"@, aa);
    lemma_replace_framed(p, "n.a."@, q, "N.A."@, aa);
    lemma_replace_framed(p, "n.a."@, q, "n.a."@, aa);
}

/// A word read as "n" followed by one read as "a" become the single entry
/// "an array", whatever follows.
pub proof fn lemma_spoken_article_merged(w1: Seq<char>, w2: Seq<char>, rest: Seq<Seq<char>>)
    requires
        cleaned_word(w1) == "n"@,
        cleaned_word(w2) == "a"@,
    ensures
        merge_spelled_article(seq![w1, w2] + rest) == seq!["an array"@] + merge_spelled_article(
            rest,
        ),
{
    let ws = seq![w1, w2] + rest;
    assert(ws[0] == w1 && ws[1] == w2);
    assert(ws.skip(2) =~= rest);
}

/// The alphabetic characters of `w`, lower-cased.
fn cleaned(w: &[char]) -> (r: Vec<char>)
    ensures
        r@ == cleaned_word(w@),
{
    let mut letters: Vec<char> = Vec::new();
    let mut i: usize = 0;
    while i < w.len()
        invariant
            0 <= i <= w@.len(),
            letters@ == keep_alphabetic(w@.take(i as int)),
        decreases w@.len() - i,
    {
        let ghost pre = w@.take(i + 1);
        assert(pre.drop_last() =~= w@.take(i as int));
        if is_alpha(w[i]) {
            letters.push(w[i]);
        }
        i = i + 1;
    }
    assert(w@.take(w@.len() as int) =~= w@);
    let s = string_of(&letters);
    let lower = lowercase_text(s.as_str());
    chars_of(lower.as_str())
}

fn replace_str(w: &[char], pattern: &str, replacement: &str) -> (r: Vec<char>)
    requires
        pattern@.len() > 0,
    ensures
        r@ == replace_all(w@, pattern@, replacement@),
{
    let p = chars_of(pattern);
    let q = chars_of(replacement);
    replace_chars(w, &p, &q)
}

fn replace_cased_chars(
    w: &[char],
    lower: &str,
    capital: &str,
    upper: &str,
    new_lower: &str,
    new_capital: &str,
    new_upper: &str,
) -> (r: Vec<char>)
    requires
        lower@.len() > 0,
        capital@.len() > 0,
        upper@.len() > 0,
    ensures
        r@ == replace_cased(w@, lower@, capital@, upper@, new_lower@, new_capital@, new_upper@),
{
    let a = replace_str(w, lower, new_lower);
    let b = replace_str(&a, capital, new_capital);
    replace_str(&b, upper, new_upper)
}

fn is_term(c: &[char], term: &str) -> (r: bool)
    ensures
        r == (c@ == term@),
{
    let t = chars_of(term);
    chars_eq(c, &t)
}

/// One word with a misheard term corrected.
fn correct(w: &[char]) -> (r: Vec<char>)
    ensures
        r@ == correct_word(w@),
{
    proof {
        reveal_strlit("area");
        reveal_strlit("Area");
        reveal_strlit("AREA");
        reveal_strlit("areas");
        reveal_strlit("Areas");
        reveal_strlit("AREAS");
        reveal_strlit("painter");
        reveal_strlit("Painter");
        reveal_strlit("PAINTER");
        reveal_strlit("painters");
        reveal_strlit("Painters");
        reveal_strlit("PAINTERS");
        reveal_strlit("glass");
        reveal_strlit("Glass");
        reveal_strlit("GLASS");
        reveal_strlit("glasses");
        reveal_strlit("Glasses");
        reveal_strlit("GLASSES");
    }
    let c = cleaned(w);
    if is_term(&c, "area") {
        replace_cased_chars(w, "area", "Area", "AREA", "array", "Array", "ARRAY")
    } else if is_term(&c, "areas") {
        replace_cased_chars(w, "areas", "Areas", "AREAS", "arrays", "Arrays", "ARRAYS")
    } else if is_term(&c, "painter") {
        replace_cased_chars(w, "painter", "Painter", "PAINTER", "pointer", "Pointer", "POINTER")
    } else if is_term(&c, "painters") {
        replace_cased_chars(w, "painters", "Painters", "PAINTERS", "pointers", "Pointers", "POINTERS")
    } else if is_term(&c, "glass") {
        replace_cased_chars(w, "glass", "Glass", "GLASS", "class", "Class", "CLASS")
    } else if is_term(&c, "glasses") {
        replace_cased_chars(w, "glasses", "Glasses", "GLASSES", "classes", "Classes", "CLASSES")
    } else {
        let copy = slice_chars(w, 0, w.len());
        copy
    }
}

/// Merges each "n" followed by "a" into the entry "an array".
fn merge_article(ws: &Vec<Vec<char>>) -> (r: Vec<Vec<char>>)
    ensures
        views_of(r@) == merge_spelled_article(views_of(ws@)),
{
    let ghost all = views_of(ws@);
    let mut out: Vec<Vec<char>> = Vec::new();
    let mut i: usize = 0;
    let len = ws.len();
    assert(all.skip(0) =~= all);
    while i < len
        invariant
            len == ws@.len(),
            all == views_of(ws@),
            0 <= i <= len,
            views_of(out@) + merge_spelled_article(all.skip(i as int)) == merge_spelled_article(all),
        decreases len - i,
    {
        let ghost rest = all.skip(i as int);
        let ghost old_out = views_of(out@);
        let mut merged = false;
        if i + 1 < len {
            let first = cleaned(&ws[i]);
            let second = cleaned(&ws[i + 1]);
            if is_term(&first, "n") && is_term(&second, "a") {
                let entry = chars_of("an array");
                out.push(entry);
                assert(rest[0] == ws@[i as int]@);
                assert(rest[1] == ws@[i + 1]@);
                assert(rest.skip(2) =~= all.skip(i + 2));
                assert(views_of(out@) =~= old_out + seq!["an array"@]);
                merged = true;
                i = i + 2;
            } else {
                assert(rest[0] == ws@[i as int]@);
                assert(rest[1] == ws@[i + 1]@);
            }
        }
        if !merged {
            let copy = slice_chars(&ws[i], 0, ws[i].len());
            assert(copy@ =~= ws@[i as int]@);
            out.push(copy);
            assert(rest[0] == ws@[i as int]@);
            assert(rest.drop_first() =~= all.skip(i + 1));
            assert(views_of(out@) =~= old_out + seq![rest[0]]);
            i = i + 1;
        }
    }
    assert(all.skip(len as int) =~= Seq::<Seq<char>>::empty());
    assert(views_of(out@) + Seq::<Seq<char>>::empty() =~= views_of(out@));
    out
}

/// Repairs misheard computer-science terms in a transcript: "N-A", "n-a",
/// "N.A.", "n.a." and a spoken "n" "a" become "an array"; the words area(s),
/// painter(s), glass(es) become array(s), pointer(s), class(es) in the same
/// letter case, punctuation kept; words end up separated by single spaces.
pub fn sanitize_computer_science_terms(text: &str) -> (r: String)
    ensures
        r@ == sanitized(text@),
{
    proof {
        reveal_strlit("N-A");
        reveal_strlit("n-a");
        reveal_strlit("N.A.");
        reveal_strlit("n.a.");
    }
    let t = chars_of(text);
    let t1 = replace_str(&t, "N-A", "an array");
    let t2 = replace_str(&t1, "n-a", "an array");
    let t3 = replace_str(&t2, "N.A.", "an array");
    let t4 = replace_str(&t3, "n.a.", "an array");
    let ws = split_words(&t4);
    let merged = merge_article(&ws);
    let ghost m = views_of(merged@);
    let mut fixed: Vec<Vec<char>> = Vec::new();
    let mut i: usize = 0;
    while i < merged.len()
        invariant
            0 <= i <= merged@.len(),
            m == views_of(merged@),
            views_of(fixed@) == m.take(i as int).map_values(|w: Seq<char>| correct_word(w)),
        decreases merged@.len() - i,
    {
        let ghost old_fixed = views_of(fixed@);
        let w = correct(&merged[i]);
        assert(m[i as int] == merged@[i as int]@);
        fixed.push(w);
        assert(views_of(fixed@) =~= old_fixed.push(correct_word(m[i as int])));
        assert(views_of(fixed@) =~= m.take(i + 1).map_values(|w: Seq<char>| correct_word(w)));
        i = i + 1;
    }
    assert(m.take(m.len() as int) =~= m);
    let joined = join_with_spaces(&fixed);
    string_of(&joined)
}

} // verus!
