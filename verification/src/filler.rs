//! Recognition of transcripts that carry no content: silence, sound-effect
//! tags that speech recognition invents ("*applause*", "[music]"), stray
//! punctuation and short filler phrases ("okay", "thank you").
use vstd::prelude::*;
use vstd::utf8::encode_utf8;
use crate::text::{
    is_ascii_digit, is_ascii_space, lemma_ascii_bytes, lemma_trim_blank, lemma_words_len_ascii_lower,
    all_ascii, ascii_lower, ascii_lower_seq, ascii_upper_seq, is_ascii_char, is_ascii_letter,
    is_space_char, lemma_space_count_append, lemma_space_count_at_most_one,
    lemma_space_count_none, lemma_trim_padded, lemma_words_len_bound, is_alnum, is_alnum_char, chars_eq, chars_of,
    lemma_lowercased_ascii_upper, lemma_trim_ascii, lemma_trim_ascii_upper, lemma_trim_idempotent,
    lowercase_text, lowercased, split_words, string_of, trim, trim_chars,
    utf8_len_at_most, words,
};

verus! {

/// The short phrases that on their own are filler.
pub open spec fn is_filler_phrase(s: Seq<char>) -> bool {
    ||| s == "okay"@
    ||| s == "ok"@
    ||| s == "yes"@
    ||| s == "yeah"@
    ||| s == "yep"@
    ||| s == "no"@
    ||| s == "nah"@
    ||| s == "thank you"@
    ||| s == "thanks"@
    ||| s == "right"@
    ||| s == "all right"@
    ||| s == "sigh"@
    ||| s == "peace"@
    ||| s == "hello"@
    ||| s == "hi"@
    ||| s == "bye"@
    ||| s == "ooh"@
    ||| s == "shh"@
    ||| s == "sure"@
}

pub open spec fn is_sentence_mark(c: char) -> bool {
    c == '.' || c == ',' || c == '?' || c == '!'
}

/// `s` without the marks `.`, `,`, `?` and `!`.
pub open spec fn remove_marks(s: Seq<char>) -> Seq<char>
    decreases s.len(),
{
    if s.len() == 0 {
        Seq::empty()
    } else if is_sentence_mark(s.last()) {
        remove_marks(s.drop_last())
    } else {
        remove_marks(s.drop_last()).push(s.last())
    }
}

/// Text wrapped in `*…*`, `[…]` or `(…)`, as recognisers tag non-speech.
pub open spec fn is_tagged(t: Seq<char>) -> bool {
    t.len() > 0 && ((t[0] == '*' && t.last() == '*') || (t[0] == '[' && t.last() == ']') || (t[0]
        == '(' && t.last() == ')'))
}

/// A transcript is noise or filler when, trimmed, it is empty; or it is
/// tagged; or lower-cased it is at most two bytes long with no letter or
/// digit; or it has at most two words that, without `.,?!` and trimmed, form
/// a filler phrase.
pub open spec fn noise_or_filler(text: Seq<char>) -> bool {
    let t = trim(text);
    if t.len() == 0 {
        true
    } else if is_tagged(t) {
        true
    } else {
        let lower = lowercased(t);
        if encode_utf8(lower).len() <= 2 && (forall|i: int|
            0 <= i < lower.len() ==> !is_alnum_char(#[trigger] lower[i])) {
            true
        } else {
            words(lower).len() <= 2 && is_filler_phrase(trim(remove_marks(lower)))
        }
    }
}

/// A blank transcript (nothing but whitespace) is noise.
pub proof fn lemma_blank_is_noise(text: Seq<char>)
    requires
        forall|i: int| 0 <= i < text.len() ==> is_space_char(#[trigger] text[i]),
    ensures
        noise_or_filler(text),
{
    lemma_trim_blank(text);
}

/// A tag in `*…*`, `[…]` or `(…)`, whatever it holds and with any
/// whitespace around it, is noise.
pub proof fn lemma_tags_are_noise(lead: Seq<char>, x: Seq<char>, trail: Seq<char>)
    requires
        forall|i: int| 0 <= i < lead.len() ==> is_space_char(#[trigger] lead[i]),
        forall|i: int| 0 <= i < trail.len() ==> is_space_char(#[trigger] trail[i]),
    ensures
        noise_or_filler(lead + (seq!['*'] + x + seq!['*']) + trail),
        noise_or_filler(lead + (seq!['['] + x + seq![']']) + trail),
        noise_or_filler(lead + (seq!['('] + x + seq![')']) + trail),
{
    let a = seq!['*'] + x + seq!['*'];
    let b = seq!['['] + x + seq![']'];
    let c = seq!['('] + x + seq![')'];
    assert(a[0] == '*' && a.last() == '*');
    assert(b[0] == '[' && b.last() == ']');
    assert(c[0] == '(' && c.last() == ')');
    lemma_trim_padded(lead, a, trail);
    lemma_trim_padded(lead, b, trail);
    lemma_trim_padded(lead, c, trail);
}

/// One or two stray ASCII characters that are neither letters, digits nor
/// whitespace ("-", "?!", "..") are noise, with any whitespace around them.
pub proof fn lemma_stray_marks_are_noise(lead: Seq<char>, m: Seq<char>, trail: Seq<char>)
    requires
        forall|i: int| 0 <= i < lead.len() ==> is_space_char(#[trigger] lead[i]),
        forall|i: int| 0 <= i < trail.len() ==> is_space_char(#[trigger] trail[i]),
        1 <= m.len() <= 2,
        forall|i: int|
            0 <= i < m.len() ==> is_ascii_char(#[trigger] m[i]) && !is_ascii_letter(m[i])
                && !is_ascii_digit(m[i]) && !is_ascii_space(m[i]),
    ensures
        noise_or_filler(lead + m + trail),
{
    assert(m[m.len() - 1] == m.last());
    lemma_trim_padded(lead, m, trail);
    assert(all_ascii(m));
    assert(ascii_lower_seq(m) =~= m);
    lemma_ascii_bytes(m);
}

/// A transcript that, trimmed, starts with an ASCII letter or digit and has
/// three words or more is never noise or filler.
pub proof fn lemma_three_words_not_noise(text: Seq<char>)
    requires
        all_ascii(text),
        trim(text).len() > 0,
        is_ascii_letter(trim(text)[0]) || is_ascii_digit(trim(text)[0]),
        words(trim(text)).len() >= 3,
    ensures
        !noise_or_filler(text),
{
    let t = trim(text);
    lemma_trim_ascii(text);
    lemma_words_len_ascii_lower(t);
    assert(lowercased(t)[0] == ascii_lower(t[0]));
    assert(is_alnum_char(lowercased(t)[0]));
}

/// Whitespace around a transcript never changes whether it is noise.
pub proof fn lemma_noise_ignores_surrounding_space(text: Seq<char>)
    ensures
        noise_or_filler(trim(text)) == noise_or_filler(text),
{
    lemma_trim_idempotent(text);
}

/// Letter case never changes whether an all-ASCII transcript is noise:
/// upper-casing its letters gives the same verdict.
pub proof fn lemma_noise_ignores_ascii_case(text: Seq<char>)
    requires
        all_ascii(text),
    ensures
        noise_or_filler(ascii_upper_seq(text)) == noise_or_filler(text),
{
    let t = trim(text);
    let u = trim(ascii_upper_seq(text));
    lemma_trim_ascii_upper(text);
    assert(u == ascii_upper_seq(t));
    lemma_trim_ascii(text);
    lemma_lowercased_ascii_upper(t);
}

proof fn lemma_remove_marks_append(a: Seq<char>, b: Seq<char>)
    ensures
        remove_marks(a + b) == remove_marks(a) + remove_marks(b),
    decreases b.len(),
{
    if b.len() == 0 {
        assert(a + b =~= a);
        assert(remove_marks(a) + remove_marks(b) =~= remove_marks(a));
    } else {
        lemma_remove_marks_append(a, b.drop_last());
        assert((a + b).drop_last() =~= a + b.drop_last());
        assert((a + b).last() == b.last());
    }
}

proof fn lemma_remove_marks_only_marks(s: Seq<char>)
    requires
        forall|i: int| 0 <= i < s.len() ==> is_sentence_mark(#[trigger] s[i]),
    ensures
        remove_marks(s) == Seq::<char>::empty(),
    decreases s.len(),
{
    if s.len() > 0 {
        let d = s.drop_last();
        assert forall|i: int| 0 <= i < d.len() implies is_sentence_mark(#[trigger] d[i]) by {
            assert(d[i] == s[i]);
        }
        lemma_remove_marks_only_marks(d);
    }
}

proof fn lemma_remove_marks_none(s: Seq<char>)
    requires
        forall|i: int| 0 <= i < s.len() ==> !is_sentence_mark(#[trigger] s[i]),
    ensures
        remove_marks(s) == s,
    decreases s.len(),
{
    if s.len() > 0 {
        let d = s.drop_last();
        assert forall|i: int| 0 <= i < d.len() implies !is_sentence_mark(#[trigger] d[i]) by {
            assert(d[i] == s[i]);
        }
        lemma_remove_marks_none(d);
        assert(d.push(s.last()) =~= s);
    }
}

/// A character that lower-cases to an ASCII letter is an ASCII letter.
proof fn lemma_lowers_to_letter(c: char)
    requires
        is_ascii_char(c),
        'a' <= ascii_lower(c) <= 'z',
    ensures
        is_ascii_letter(c),
{
}

/// A filler phrase in any letter case, followed by sentence marks and
/// surrounded by whitespace, is noise.
proof fn lemma_phrase_is_noise(
    lead: Seq<char>,
    body: Seq<char>,
    marks: Seq<char>,
    trail: Seq<char>,
    phrase: Seq<char>,
)
    requires
        all_ascii(body),
        ascii_lower_seq(body) == phrase,
        forall|i: int| 0 <= i < lead.len() ==> is_space_char(#[trigger] lead[i]),
        forall|i: int| 0 <= i < trail.len() ==> is_space_char(#[trigger] trail[i]),
        forall|i: int| 0 <= i < marks.len() ==> is_sentence_mark(#[trigger] marks[i]),
        phrase.len() > 0,
        forall|i: int| 0 <= i < phrase.len() ==> ('a' <= #[trigger] phrase[i] <= 'z') || phrase[i] == ' ',
        phrase[0] != ' ',
        phrase.last() != ' ',
        forall|i: int, j: int|
            0 <= i < j < phrase.len() ==> !(is_space_char(#[trigger] phrase[i]) && is_space_char(
                #[trigger] phrase[j],
            )),
        is_filler_phrase(phrase),
    ensures
        noise_or_filler(lead + body + marks + trail),
{
    let m = body + marks;
    assert(body.len() == phrase.len());
    assert(ascii_lower(body[0]) == phrase[0]);
    assert(is_ascii_char(body[0]));
    lemma_lowers_to_letter(body[0]);
    let last = body.len() - 1;
    assert(ascii_lower(body[last]) == phrase[last]);
    assert(is_ascii_char(body[last]));
    lemma_lowers_to_letter(body[last]);
    assert(m[0] == body[0]);
    if marks.len() > 0 {
        assert(m.last() == marks.last());
        assert(is_sentence_mark(marks[marks.len() - 1]));
    } else {
        assert(m.last() == body[last]);
    }
    lemma_trim_padded(lead, m, trail);
    assert(lead + body + marks + trail =~= lead + m + trail);
    let t = trim(lead + body + marks + trail);
    assert(t == m);
    assert(!is_tagged(t));
    assert(all_ascii(m)) by {
        assert forall|i: int| 0 <= i < m.len() implies #[trigger] is_ascii_char(m[i]) by {
            if i < body.len() {
                assert(m[i] == body[i]);
            } else {
                assert(m[i] == marks[i - body.len()]);
                assert(is_sentence_mark(marks[i - body.len()]));
            }
        }
    }
    let lower = lowercased(m);
    assert(lower =~= phrase + marks) by {
        assert forall|i: int| 0 <= i < m.len() implies #[trigger] lower[i] == (phrase + marks)[i] by {
            if i < body.len() {
                assert(m[i] == body[i]);
            } else {
                assert(m[i] == marks[i - body.len()]);
                assert(is_sentence_mark(marks[i - body.len()]));
            }
        }
    }
    lemma_words_len_bound(lower);
    lemma_space_count_append(phrase, marks);
    lemma_space_count_at_most_one(phrase);
    assert forall|i: int| 0 <= i < marks.len() implies !is_space_char(#[trigger] marks[i]) by {
        assert(is_sentence_mark(marks[i]));
    }
    lemma_space_count_none(marks);
    lemma_remove_marks_append(phrase, marks);
    lemma_remove_marks_only_marks(marks);
    assert forall|i: int| 0 <= i < phrase.len() implies !is_sentence_mark(#[trigger] phrase[i]) by {
        assert(('a' <= phrase[i] <= 'z') || phrase[i] == ' ');
    }
    lemma_remove_marks_none(phrase);
    assert(phrase + Seq::<char>::empty() =~= phrase);
    assert(phrase[phrase.len() - 1] == phrase.last());
    assert(!is_space_char(phrase[0]) && !is_space_char(phrase.last()));
    lemma_trim_padded(Seq::empty(), phrase, Seq::empty());
    assert(Seq::<char>::empty() + phrase + Seq::<char>::empty() =~= phrase);
}

/// Every filler phrase on its own is noise, up to letter case, surrounding
/// whitespace and trailing `.`, `,`, `?` and `!`: the phrases are okay, ok,
/// yes, yeah, yep, no, nah, thank you, thanks, right, all right, sigh,
/// peace, hello, hi, bye, ooh, shh and sure.
pub proof fn lemma_filler_phrases_are_noise(
    lead: Seq<char>,
    body: Seq<char>,
    marks: Seq<char>,
    trail: Seq<char>,
)
    requires
        all_ascii(body),
        forall|i: int| 0 <= i < lead.len() ==> is_space_char(#[trigger] lead[i]),
        forall|i: int| 0 <= i < trail.len() ==> is_space_char(#[trigger] trail[i]),
        forall|i: int|
            0 <= i < marks.len() ==> #[trigger] marks[i] == '.' || marks[i] == ',' || marks[i] == '?'
                || marks[i] == '!',
    ensures
        ascii_lower_seq(body) == "okay"@ ==> noise_or_filler(lead + body + marks + trail),
        ascii_lower_seq(body) == "ok"@ ==> noise_or_filler(lead + body + marks + trail),
        ascii_lower_seq(body) == "yes"@ ==> noise_or_filler(lead + body + marks + trail),
        ascii_lower_seq(body) == "yeah"@ ==> noise_or_filler(lead + body + marks + trail),
        ascii_lower_seq(body) == "yep"@ ==> noise_or_filler(lead + body + marks + trail),
        ascii_lower_seq(body) == "no"@ ==> noise_or_filler(lead + body + marks + trail),
        ascii_lower_seq(body) == "nah"@ ==> noise_or_filler(lead + body + marks + trail),
        ascii_lower_seq(body) == "thank you"@ ==> noise_or_filler(lead + body + marks + trail),
        ascii_lower_seq(body) == "thanks"@ ==> noise_or_filler(lead + body + marks + trail),
        ascii_lower_seq(body) == "right"@ ==> noise_or_filler(lead + body + marks + trail),
        ascii_lower_seq(body) == "all right"@ ==> noise_or_filler(lead + body + marks + trail),
        ascii_lower_seq(body) == "sigh"@ ==> noise_or_filler(lead + body + marks + trail),
        ascii_lower_seq(body) == "peace"@ ==> noise_or_filler(lead + body + marks + trail),
        ascii_lower_seq(body) == "hello"@ ==> noise_or_filler(lead + body + marks + trail),
        ascii_lower_seq(body) == "hi"@ ==> noise_or_filler(lead + body + marks + trail),
        ascii_lower_seq(body) == "bye"@ ==> noise_or_filler(lead + body + marks + trail),
        ascii_lower_seq(body) == "ooh"@ ==> noise_or_filler(lead + body + marks + trail),
        ascii_lower_seq(body) == "shh"@ ==> noise_or_filler(lead + body + marks + trail),
        ascii_lower_seq(body) == "sure"@ ==> noise_or_filler(lead + body + marks + trail),
{
    assert forall|i: int| 0 <= i < marks.len() implies is_sentence_mark(#[trigger] marks[i]) by {}
    if ascii_lower_seq(body) == "okay"@ {
        reveal_strlit("okay");
        lemma_phrase_is_noise(lead, body, marks, trail, "okay"@);
    }
    if ascii_lower_seq(body) == "ok"@ {
        reveal_strlit("ok");
        lemma_phrase_is_noise(lead, body, marks, trail, "ok"@);
    }
    if ascii_lower_seq(body) == "yes"@ {
        reveal_strlit("yes");
        lemma_phrase_is_noise(lead, body, marks, trail, "yes"@);
    }
    if ascii_lower_seq(body) == "yeah"@ {
        reveal_strlit("yeah");
        lemma_phrase_is_noise(lead, body, marks, trail, "yeah"@);
    }
    if ascii_lower_seq(body) == "yep"@ {
        reveal_strlit("yep");
        lemma_phrase_is_noise(lead, body, marks, trail, "yep"@);
    }
    if ascii_lower_seq(body) == "no"@ {
        reveal_strlit("no");
        lemma_phrase_is_noise(lead, body, marks, trail, "no"@);
    }
    if ascii_lower_seq(body) == "nah"@ {
        reveal_strlit("nah");
        lemma_phrase_is_noise(lead, body, marks, trail, "nah"@);
    }
    if ascii_lower_seq(body) == "thank you"@ {
        reveal_strlit("thank you");
        lemma_phrase_is_noise(lead, body, marks, trail, "thank you"@);
    }
    if ascii_lower_seq(body) == "thanks"@ {
        reveal_strlit("thanks");
        lemma_phrase_is_noise(lead, body, marks, trail, "thanks"@);
    }
    if ascii_lower_seq(body) == "right"@ {
        reveal_strlit("right");
        lemma_phrase_is_noise(lead, body, marks, trail, "right"@);
    }
    if ascii_lower_seq(body) == "all right"@ {
        reveal_strlit("all right");
        lemma_phrase_is_noise(lead, body, marks, trail, "all right"@);
    }
    if ascii_lower_seq(body) == "sigh"@ {
        reveal_strlit("sigh");
        lemma_phrase_is_noise(lead, body, marks, trail, "sigh"@);
    }
    if ascii_lower_seq(body) == "peace"@ {
        reveal_strlit("peace");
        lemma_phrase_is_noise(lead, body, marks, trail, "peace"@);
    }
    if ascii_lower_seq(body) == "hello"@ {
        reveal_strlit("hello");
        lemma_phrase_is_noise(lead, body, marks, trail, "hello"@);
    }
    if ascii_lower_seq(body) == "hi"@ {
        reveal_strlit("hi");
        lemma_phrase_is_noise(lead, body, marks, trail, "hi"@);
    }
    if ascii_lower_seq(body) == "bye"@ {
        reveal_strlit("bye");
        lemma_phrase_is_noise(lead, body, marks, trail, "bye"@);
    }
    if ascii_lower_seq(body) == "ooh"@ {
        reveal_strlit("ooh");
        lemma_phrase_is_noise(lead, body, marks, trail, "ooh"@);
    }
    if ascii_lower_seq(body) == "shh"@ {
        reveal_strlit("shh");
        lemma_phrase_is_noise(lead, body, marks, trail, "shh"@);
    }
    if ascii_lower_seq(body) == "sure"@ {
        reveal_strlit("sure");
        lemma_phrase_is_noise(lead, body, marks, trail, "sure"@);
    }
}

fn is_phrase(c: &[char], phrase: &str) -> (r: bool)
    ensures
        r == (c@ == phrase@),
{
    let p = chars_of(phrase);
    chars_eq(c, &p)
}

fn filler_phrase(c: &[char]) -> (r: bool)
    ensures
        r == is_filler_phrase(c@),
{
    is_phrase(c, "okay") || is_phrase(c, "ok") || is_phrase(c, "yes") || is_phrase(c, "yeah")
        || is_phrase(c, "yep") || is_phrase(c, "no") || is_phrase(c, "nah") || is_phrase(
        c,
        "thank you",
    ) || is_phrase(c, "thanks") || is_phrase(c, "right") || is_phrase(c, "all right") || is_phrase(
        c,
        "sigh",
    ) || is_phrase(c, "peace") || is_phrase(c, "hello") || is_phrase(c, "hi") || is_phrase(c, "bye")
        || is_phrase(c, "ooh") || is_phrase(c, "shh") || is_phrase(c, "sure")
}

/// Whether a transcript is noise or filler that should not be shown.
pub fn is_noise_or_filler(text: &str) -> (r: bool)
    ensures
        r == noise_or_filler(text@),
{
    let all = chars_of(text);
    let t = trim_chars(&all);
    let n = t.len();
    if n == 0 {
        return true;
    }
    let first = t[0];
    let last = t[n - 1];
    if (first == '*' && last == '*') || (first == '[' && last == ']') || (first == '(' && last
        == ')') {
        return true;
    }
    let trimmed = string_of(&t);
    let lower = lowercase_text(trimmed.as_str());
    let lower_chars = chars_of(lower.as_str());
    if utf8_len_at_most(&lower_chars, 2) {
        let mut none_alnum = true;
        let mut i: usize = 0;
        while i < lower_chars.len()
            invariant
                0 <= i <= lower_chars@.len(),
                none_alnum == (forall|k: int|
                    0 <= k < i ==> !is_alnum_char(#[trigger] lower_chars@[k])),
            decreases lower_chars@.len() - i,
        {
            if is_alnum(lower_chars[i]) {
                none_alnum = false;
            }
            i = i + 1;
        }
        if none_alnum {
            return true;
        }
    }
    let ws = split_words(&lower_chars);
    if ws.len() <= 2 {
        let mut kept: Vec<char> = Vec::new();
        let mut i: usize = 0;
        while i < lower_chars.len()
            invariant
                0 <= i <= lower_chars@.len(),
                kept@ == remove_marks(lower_chars@.take(i as int)),
            decreases lower_chars@.len() - i,
        {
            let c = lower_chars[i];
            assert(lower_chars@.take(i + 1).drop_last() =~= lower_chars@.take(i as int));
            if !(c == '.' || c == ',' || c == '?' || c == '!') {
                kept.push(c);
            }
            i = i + 1;
        }
        assert(lower_chars@.take(lower_chars@.len() as int) =~= lower_chars@);
        let clean = trim_chars(&kept);
        if filler_phrase(&clean) {
            return true;
        }
    }
    false
}

} // verus!
