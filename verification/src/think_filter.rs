//! Streaming removal of `<think>…</think>` spans from generated text.
//!
//! The language model streams its answer piece by piece; a span opened by
//! `<think>` and closed by `</think>` must never reach the listener, even
//! when the tags themselves arrive split across pieces.
use vstd::prelude::*;
use vstd::utf8::encode_utf8;
use crate::text::{
    byte_suffix_start, chars_eq, chars_of, find_chars, is_ascii_char, lemma_ascii_bytes,
    utf8_len_at_most, find_first, lemma_find_after_prefix, lemma_find_first, lemma_find_first_is,
    occurs_at, slice_chars, string_of,
};

verus! {

pub open spec fn open_tag() -> Seq<char> {
    seq!['<', 't', 'h', 'i', 'n', 'k', '>']
}

pub open spec fn close_tag() -> Seq<char> {
    seq!['<', '/', 't', 'h', 'i', 'n', 'k', '>']
}

/// The visible part of `s`: everything outside `<think>…</think>` spans.
/// `in_think` says whether `s` starts inside such a span.  An unclosed span
/// hides the rest of the text; a `</think>` outside a span is ordinary text.
pub open spec fn strip_think(s: Seq<char>, in_think: bool) -> Seq<char>
    decreases s.len(),
{
    if in_think {
        match find_first(s, close_tag()) {
            Some(i) => if 0 <= i && i + 8 <= s.len() {
                strip_think(s.skip(i + 8), false)
            } else {
                Seq::empty()
            },
            None => Seq::empty(),
        }
    } else {
        match find_first(s, open_tag()) {
            Some(i) => if 0 <= i && i + 7 <= s.len() {
                s.take(i) + strip_think(s.skip(i + 7), true)
            } else {
                s
            },
            None => s,
        }
    }
}

/// The abstract state of a [`ThinkingFilter`]: the text it holds back and
/// whether it is inside a thinking span.
pub struct FilterState {
    pub pending: Seq<char>,
    pub in_think: bool,
}

impl FilterState {
    /// Outside a span the filter holds back only a proper prefix of `<think>`;
    /// inside one it holds back at most 8 bytes of UTF-8, in which `</think>`
    /// does not occur.
    pub open spec fn wf(self) -> bool {
        if self.in_think {
            find_first(self.pending, close_tag()) is None && encode_utf8(self.pending).len() <= 8
        } else {
            self.pending.len() < 7 && self.pending == open_tag().take(self.pending.len() as int)
        }
    }

    /// What the filter eventually shows of `rest`, given what it holds back now.
    pub open spec fn shows(self, rest: Seq<char>) -> Seq<char> {
        strip_think(self.pending + rest, self.in_think)
    }
}

/// The concatenation of a sequence of texts.
pub open spec fn concat_all(parts: Seq<Seq<char>>) -> Seq<char>
    decreases parts.len(),
{
    if parts.len() == 0 {
        Seq::empty()
    } else {
        concat_all(parts.drop_last()) + parts.last()
    }
}

/// The characters of a sequence of strings, in order.
pub open spec fn concat_strings(parts: Seq<String>) -> Seq<char> {
    concat_all(parts.map_values(|p: String| p@))
}

/// One call of `process`: from `before`, fed `token`, the filter shows
/// `emitted` and reaches `after`, such that whatever text follows, what is
/// shown in total is exactly the visible part of everything fed.
pub open spec fn process_step(
    before: FilterState,
    token: Seq<char>,
    emitted: Seq<char>,
    after: FilterState,
) -> bool {
    &&& after.wf()
    &&& forall|rest: Seq<char>| #[trigger]
        before.shows(token + rest) == emitted + after.shows(rest)
}

/// The length of the longest ending of `s`, of at most `k` characters, that
/// could still grow into `<think>`.
pub open spec fn held_len_upto(s: Seq<char>, k: int) -> int
    decreases k,
{
    if k <= 0 {
        0
    } else if k <= s.len() && s.skip(s.len() - k) == open_tag().take(k) {
        k
    } else {
        held_len_upto(s, k - 1)
    }
}

/// How much of the end of `s` is held back outside a span: the longest
/// ending of at most six characters that is a beginning of `<think>`.
pub open spec fn held_len(s: Seq<char>) -> int {
    held_len_upto(s, 6)
}

/// The texts of a sequence of strings.
pub open spec fn piece_views(parts: Seq<String>) -> Seq<Seq<char>> {
    parts.map_values(|p: String| p@)
}

/// The pieces one call shows of the text `s` it has to decide (what was held
/// back followed by the new token), starting inside a span or not: one piece
/// for the visible text before each `<think>`, and one for the visible text
/// after the last decided tag up to what is held back; an empty stretch gives
/// no piece, and no stretch is split.
pub open spec fn decided_pieces(s: Seq<char>, in_think: bool) -> Seq<Seq<char>>
    decreases s.len(),
{
    if in_think {
        match find_first(s, close_tag()) {
            Some(i) => if 0 <= i && i + 8 <= s.len() {
                decided_pieces(s.skip(i + 8), false)
            } else {
                Seq::empty()
            },
            None => Seq::empty(),
        }
    } else {
        match find_first(s, open_tag()) {
            Some(i) => if 0 <= i && i + 7 <= s.len() {
                (if i > 0 {
                    seq![s.take(i)]
                } else {
                    Seq::empty()
                }) + decided_pieces(s.skip(i + 7), true)
            } else {
                Seq::empty()
            },
            None => {
                let shown = s.len() - held_len(s);
                if shown > 0 {
                    seq![s.take(shown)]
                } else {
                    Seq::empty()
                }
            },
        }
    }
}

proof fn lemma_held_len_upto(s: Seq<char>, m: int, k: int)
    requires
        0 <= m <= k,
        m <= s.len(),
        s.skip(s.len() - m) == open_tag().take(m),
        forall|j: int|
            m < j <= k && j <= s.len() ==> s.skip(s.len() - j) != #[trigger] open_tag().take(j),
    ensures
        held_len_upto(s, k) == m,
    decreases k,
{
    if k > m {
        if k <= s.len() {
            assert(s.skip(s.len() - k) != open_tag().take(k));
        }
        lemma_held_len_upto(s, m, k - 1);
    }
}

pub proof fn lemma_piece_views_push(parts: Seq<String>, p: String)
    ensures
        piece_views(parts.push(p)) == piece_views(parts).push(p@),
{
    assert(piece_views(parts.push(p)) =~= piece_views(parts).push(p@));
}

pub proof fn lemma_concat_all_append(a: Seq<Seq<char>>, b: Seq<Seq<char>>)
    ensures
        concat_all(a + b) == concat_all(a) + concat_all(b),
    decreases b.len(),
{
    if b.len() == 0 {
        assert(a + b =~= a);
        assert(concat_all(a) + concat_all(b) =~= concat_all(a));
    } else {
        lemma_concat_all_append(a, b.drop_last());
        assert((a + b).drop_last() =~= a + b.drop_last());
        assert(concat_all(a + b) =~= concat_all(a) + concat_all(b));
    }
}

pub proof fn lemma_concat_all_single(x: Seq<char>)
    ensures
        concat_all(seq![x]) == x,
{
    let s = seq![x];
    assert(s.drop_last() =~= Seq::<Seq<char>>::empty());
    assert(concat_all(s.drop_last()) == Seq::<char>::empty());
    assert(Seq::<char>::empty() + x =~= x);
}

/// Reading past a complete `<think>`.
proof fn lemma_strip_open(x: Seq<char>, i: int, rest: Seq<char>)
    requires
        find_first(x, open_tag()) == Some(i),
    ensures
        0 <= i && i + 7 <= x.len(),
        strip_think(x + rest, false) == x.take(i) + strip_think(x.skip(i + 7) + rest, true),
{
    let y = x + rest;
    lemma_find_first(x, open_tag());
    assert(occurs_at(y, open_tag(), i)) by {
        assert(y.subrange(i, i + 7) =~= x.subrange(i, i + 7));
    }
    assert forall|j: int| 0 <= j < i implies !#[trigger] occurs_at(y, open_tag(), j) by {
        if occurs_at(y, open_tag(), j) {
            assert(y.subrange(j, j + 7) =~= x.subrange(j, j + 7));
            assert(occurs_at(x, open_tag(), j));
        }
    }
    lemma_find_first_is(y, open_tag(), i);
    assert(y.take(i) =~= x.take(i));
    assert(y.skip(i + 7) =~= x.skip(i + 7) + rest);
}

/// Reading past a complete `</think>`.
proof fn lemma_strip_close(x: Seq<char>, i: int, rest: Seq<char>)
    requires
        find_first(x, close_tag()) == Some(i),
    ensures
        0 <= i && i + 8 <= x.len(),
        strip_think(x + rest, true) == strip_think(x.skip(i + 8) + rest, false),
{
    let y = x + rest;
    lemma_find_first(x, close_tag());
    assert(occurs_at(y, close_tag(), i)) by {
        assert(y.subrange(i, i + 8) =~= x.subrange(i, i + 8));
    }
    assert forall|j: int| 0 <= j < i implies !#[trigger] occurs_at(y, close_tag(), j) by {
        if occurs_at(y, close_tag(), j) {
            assert(y.subrange(j, j + 8) =~= x.subrange(j, j + 8));
            assert(occurs_at(x, close_tag(), j));
        }
    }
    lemma_find_first_is(y, close_tag(), i);
    assert(y.skip(i + 8) =~= x.skip(i + 8) + rest);
}

/// Where no `<think>` can start before index `k` of `x`, whatever follows,
/// the first `k` characters are shown as they are.
proof fn lemma_strip_release(x: Seq<char>, k: int, rest: Seq<char>)
    requires
        0 <= k <= x.len(),
        forall|j: int| 0 <= j < k ==> !#[trigger] occurs_at(x + rest, open_tag(), j),
    ensures
        strip_think(x + rest, false) == x.take(k) + strip_think(x.skip(k) + rest, false),
{
    let u = x.take(k);
    let v = x.skip(k) + rest;
    assert(x + rest =~= u + v);
    lemma_find_after_prefix(u, v, open_tag());
    match find_first(v, open_tag()) {
        Some(i) => {
            lemma_find_first(v, open_tag());
            assert((u + v).take(i + k) =~= u + v.take(i));
            assert((u + v).skip(i + k + 7) =~= v.skip(i + 7));
        },
        None => {
        },
    }
}

/// Inside a span, dropping held-back text in which no `</think>` can start
/// changes nothing of what is shown later.
proof fn lemma_strip_discard(x: Seq<char>, k: int, rest: Seq<char>)
    requires
        0 <= k <= x.len(),
        forall|j: int| 0 <= j < k ==> !#[trigger] occurs_at(x + rest, close_tag(), j),
    ensures
        strip_think(x + rest, true) == strip_think(x.skip(k) + rest, true),
{
    let u = x.take(k);
    let v = x.skip(k) + rest;
    assert(x + rest =~= u + v);
    lemma_find_after_prefix(u, v, close_tag());
    match find_first(v, close_tag()) {
        Some(i) => {
            lemma_find_first(v, close_tag());
            assert((u + v).skip(i + k + 8) =~= v.skip(i + 8));
        },
        None => {
        },
    }
}

/// A filter state shows, of the empty rest, exactly what `flush` emits.
proof fn lemma_wf_shows_nothing_more(st: FilterState)
    requires
        st.wf(),
    ensures
        st.shows(Seq::empty()) == (if st.in_think {
            Seq::<char>::empty()
        } else {
            st.pending
        }),
{
    assert(st.pending + Seq::<char>::empty() =~= st.pending);
    if !st.in_think {
        lemma_find_first(st.pending, open_tag());
    }
}

/// A run of the filter: `states[0]` is a fresh filter, and step `i` feeds
/// `tokens[i]`, shows `emitted[i]` and leads to `states[i + 1]`.
pub open spec fn filter_run(
    tokens: Seq<Seq<char>>,
    states: Seq<FilterState>,
    emitted: Seq<Seq<char>>,
) -> bool {
    &&& states.len() == tokens.len() + 1
    &&& emitted.len() == tokens.len()
    &&& states[0].pending.len() == 0
    &&& !states[0].in_think
    &&& forall|i: int|
        0 <= i < tokens.len() ==> #[trigger] process_step(
            states[i],
            tokens[i],
            emitted[i],
            states[i + 1],
        )
}

/// From state `k` on, the stream followed by any `rest` shows what the
/// remaining steps emit followed by what the last state shows of `rest`.
proof fn lemma_stream_suffix(
    tokens: Seq<Seq<char>>,
    states: Seq<FilterState>,
    emitted: Seq<Seq<char>>,
    k: int,
    rest: Seq<char>,
)
    requires
        states.len() == tokens.len() + 1,
        emitted.len() == tokens.len(),
        0 <= k <= tokens.len(),
        forall|i: int|
            0 <= i < tokens.len() ==> #[trigger] process_step(
                states[i],
                tokens[i],
                emitted[i],
                states[i + 1],
            ),
    ensures
        states[k].shows(concat_all(tokens.skip(k)) + rest) == concat_all(emitted.skip(k))
            + states.last().shows(rest),
    decreases tokens.len() - k,
{
    let n = tokens.len() as int;
    if k == n {
        assert(tokens.skip(k) =~= Seq::<Seq<char>>::empty());
        assert(emitted.skip(k) =~= Seq::<Seq<char>>::empty());
        assert(concat_all(tokens.skip(k)) + rest =~= rest);
        assert(concat_all(emitted.skip(k)) + states.last().shows(rest) =~= states.last().shows(
            rest,
        ));
    } else {
        lemma_stream_suffix(tokens, states, emitted, k + 1, rest);
        let later = concat_all(tokens.skip(k + 1)) + rest;
        assert(process_step(states[k], tokens[k], emitted[k], states[k + 1]));
        assert(states[k].shows(tokens[k] + later) == emitted[k] + states[k + 1].shows(later));
        assert(tokens.skip(k) =~= seq![tokens[k]] + tokens.skip(k + 1));
        lemma_concat_all_append(seq![tokens[k]], tokens.skip(k + 1));
        assert(emitted.skip(k) =~= seq![emitted[k]] + emitted.skip(k + 1));
        lemma_concat_all_append(seq![emitted[k]], emitted.skip(k + 1));
        lemma_concat_all_single(tokens[k]);
        lemma_concat_all_single(emitted[k]);
        assert(concat_all(tokens.skip(k)) + rest =~= tokens[k] + later);
        assert(concat_all(emitted.skip(k)) + states.last().shows(rest) =~= emitted[k] + (
        concat_all(emitted.skip(k + 1)) + states.last().shows(rest)));
    }
}

/// The first occurrence of a pattern that starts with `<`, in text whose
/// part before it holds no `<`.
proof fn lemma_first_tag_after(u: Seq<char>, pattern: Seq<char>, v: Seq<char>)
    requires
        pattern.len() > 0,
        pattern[0] == '<',
        forall|i: int| 0 <= i < u.len() ==> #[trigger] u[i] != '<',
    ensures
        find_first(u + pattern + v, pattern) == Some(u.len() as int),
{
    let s = u + pattern + v;
    assert(s.subrange(u.len() as int, u.len() + pattern.len() as int) =~= pattern);
    assert forall|j: int| 0 <= j < u.len() implies !#[trigger] occurs_at(s, pattern, j) by {
        if occurs_at(s, pattern, j) {
            assert(s.subrange(j, j + pattern.len() as int)[0] == s[j]);
            assert(s[j] == u[j]);
        }
    }
    lemma_find_first_is(s, pattern, u.len() as int);
}

/// Text without `<` shows whole.
pub proof fn lemma_plain_text_shown(s: Seq<char>)
    requires
        forall|i: int| 0 <= i < s.len() ==> #[trigger] s[i] != '<',
    ensures
        strip_think(s, false) == s,
{
    assert forall|j: int| !#[trigger] occurs_at(s, open_tag(), j) by {
        if occurs_at(s, open_tag(), j) {
            assert(s.subrange(j, j + 7)[0] == s[j]);
        }
    }
    crate::text::lemma_find_first_none(s, open_tag());
}

/// A `<think>…</think>` span is hidden and the text before it is shown:
/// when neither the text before the span nor the thinking holds a `<`,
/// what shows is the text before the span followed by what shows of the
/// text after it.
pub proof fn lemma_thinking_span_hidden(a: Seq<char>, b: Seq<char>, c: Seq<char>)
    requires
        forall|i: int| 0 <= i < a.len() ==> #[trigger] a[i] != '<',
        forall|i: int| 0 <= i < b.len() ==> #[trigger] b[i] != '<',
    ensures
        strip_think(a + "<think>"@ + b + "</think>"@ + c, false) == a + strip_think(c, false),
{
    reveal_strlit("<think>");
    reveal_strlit("</think>");
    assert("<think>"@ =~= open_tag());
    assert("</think>"@ =~= close_tag());
    let s = a + open_tag() + b + close_tag() + c;
    let rest = b + close_tag() + c;
    assert(s =~= a + open_tag() + rest);
    lemma_first_tag_after(a, open_tag(), rest);
    assert(s.take(a.len() as int) =~= a);
    assert(s.skip(a.len() as int + 7) =~= rest);
    lemma_first_tag_after(b, close_tag(), c);
    assert(rest.skip(b.len() as int + 8) =~= c);
    assert(strip_think(rest, true) == strip_think(c, false));
    assert(strip_think(s, false) == a + strip_think(rest, true));
    assert(a + "<think>"@ + b + "</think>"@ + c == s);
}

/// A `<think>` that is never closed hides everything after it: when
/// neither the text before it nor the text after it holds a `<`, only the
/// text before it shows.
pub proof fn lemma_unclosed_span_hides_rest(a: Seq<char>, b: Seq<char>)
    requires
        forall|i: int| 0 <= i < a.len() ==> #[trigger] a[i] != '<',
        forall|i: int| 0 <= i < b.len() ==> #[trigger] b[i] != '<',
    ensures
        strip_think(a + "<think>"@ + b, false) == a,
{
    reveal_strlit("<think>");
    assert("<think>"@ =~= open_tag());
    let s = a + open_tag() + b;
    lemma_first_tag_after(a, open_tag(), b);
    assert(s.take(a.len() as int) =~= a);
    assert(s.skip(a.len() as int + 7) =~= b);
    assert forall|j: int| !#[trigger] occurs_at(b, close_tag(), j) by {
        if occurs_at(b, close_tag(), j) {
            assert(b.subrange(j, j + 8)[0] == b[j]);
        }
    }
    crate::text::lemma_find_first_none(b, close_tag());
    assert(strip_think(b, true) == Seq::<char>::empty());
    assert(a + Seq::<char>::empty() =~= a);
    assert(a + "<think>"@ + b == s);
}

/// Whatever text follows a run, what the run emitted followed by what its
/// last state shows of that text is the visible part of all of it.
pub proof fn lemma_filter_run_shows(
    tokens: Seq<Seq<char>>,
    states: Seq<FilterState>,
    emitted: Seq<Seq<char>>,
    rest: Seq<char>,
)
    requires
        filter_run(tokens, states, emitted),
    ensures
        concat_all(emitted) + states.last().shows(rest) == strip_think(
            concat_all(tokens) + rest,
            false,
        ),
{
    lemma_stream_suffix(tokens, states, emitted, 0, rest);
    assert(tokens.skip(0) =~= tokens);
    assert(emitted.skip(0) =~= emitted);
    assert(states[0].pending + (concat_all(tokens) + rest) =~= concat_all(tokens) + rest);
}

/// Feeding the filter a stream of tokens and flushing it at the end shows
/// exactly the text of the stream with every `<think>…</think>` span
/// removed (an unclosed span removes the rest of the stream).
pub proof fn lemma_filter_stream(
    tokens: Seq<Seq<char>>,
    states: Seq<FilterState>,
    emitted: Seq<Seq<char>>,
    flushed: Seq<char>,
)
    requires
        filter_run(tokens, states, emitted),
        flushed == states.last().shows(Seq::empty()),
    ensures
        concat_all(emitted) + flushed == strip_think(concat_all(tokens), false),
{
    lemma_filter_run_shows(tokens, states, emitted, Seq::empty());
    assert(concat_all(tokens) + Seq::<char>::empty() =~= concat_all(tokens));
}

/// Appending a character that cannot end the pattern creates no occurrence.
proof fn lemma_find_none_push(s: Seq<char>, pattern: Seq<char>, z: char)
    requires
        pattern.len() > 0,
        pattern.last() != z,
        find_first(s, pattern) is None,
    ensures
        find_first(s.push(z), pattern) is None,
{
    lemma_find_first(s, pattern);
    let t = s.push(z);
    let n = pattern.len() as int;
    assert forall|j: int| !#[trigger] occurs_at(t, pattern, j) by {
        if occurs_at(t, pattern, j) {
            if j + n <= s.len() {
                assert(t.subrange(j, j + n) =~= s.subrange(j, j + n));
                assert(occurs_at(s, pattern, j));
            } else {
                assert(t.subrange(j, j + n)[n - 1] == t[j + n - 1]);
            }
        }
    }
    crate::text::lemma_find_first_none(t, pattern);
}

/// A well-formed state shows nothing of a following `z` inside a span, and
/// shows its held-back text and the `z` outside one.
proof fn lemma_shows_z(st: FilterState)
    requires
        st.wf(),
    ensures
        st.shows(seq!['z']) == (if st.in_think {
            Seq::<char>::empty()
        } else {
            st.pending.push('z')
        }),
{
    assert(st.pending + seq!['z'] =~= st.pending.push('z'));
    if st.in_think {
        lemma_find_none_push(st.pending, close_tag(), 'z');
    } else {
        if st.pending.len() == 6 {
            assert(!(st.pending.push('z').take(7) == open_tag())) by {
                assert(st.pending.push('z').take(7)[6] == 'z');
            }
        }
        assert(st.pending.push('z').len() < 7 || st.pending.push('z').take(7) != open_tag());
        lemma_find_first(st.pending.push('z'), open_tag());
        if let Some(i) = find_first(st.pending.push('z'), open_tag()) {
            assert(occurs_at(st.pending.push('z'), open_tag(), i));
            assert(i == 0);
            assert(st.pending.push('z').subrange(0, 7) =~= st.pending.push('z').take(7));
        }
    }
}

/// Whether a well-formed state outside a span shows nothing of the rest of
/// `<think>` after its held-back text.
proof fn lemma_shows_completion(st: FilterState, p: Seq<char>)
    requires
        st.wf(),
        !st.in_think,
        p == open_tag().skip(st.pending.len() as int),
    ensures
        st.shows(p).len() == 0,
{
    assert(st.pending + p =~= open_tag());
    assert(occurs_at(open_tag(), open_tag(), 0)) by {
        assert(open_tag().subrange(0, 7) =~= open_tag());
    }
    crate::text::lemma_find_first_is(open_tag(), open_tag(), 0);
    assert(open_tag().skip(7) =~= Seq::<char>::empty());
    assert(open_tag().take(0) =~= Seq::<char>::empty());
    assert(strip_think(Seq::<char>::empty(), true) == Seq::<char>::empty());
    assert(strip_think(open_tag(), false) =~= open_tag().take(0) + strip_think(
        open_tag().skip(7),
        true,
    ));
}

/// The last state of a run is well formed.
proof fn lemma_run_last_wf(tokens: Seq<Seq<char>>, states: Seq<FilterState>, emitted: Seq<Seq<char>>)
    requires
        filter_run(tokens, states, emitted),
    ensures
        states.last().wf(),
{
    let n = tokens.len() as int;
    if n > 0 {
        let i = n - 1;
        assert(process_step(states[i], tokens[i], emitted[i], states[i + 1]));
    } else {
        assert(states[0].pending =~= open_tag().take(0));
    }
}

/// Two states that, after what each has emitted, show the same of every
/// continuation have emitted the same text, agree on being inside a span,
/// and outside one hold back the same text.
pub proof fn lemma_observation_determines(
    e1: Seq<char>,
    s1: FilterState,
    e2: Seq<char>,
    s2: FilterState,
)
    requires
        s1.wf(),
        s2.wf(),
        forall|rest: Seq<char>| e1 + #[trigger] s1.shows(rest) == e2 + s2.shows(rest),
    ensures
        e1 == e2,
        s1.in_think == s2.in_think,
        !s1.in_think ==> s1.pending == s2.pending,
{
    let empty = Seq::<char>::empty();
    assert(e1 + s1.shows(empty) == e2 + s2.shows(empty));
    assert(e1 + s1.shows(seq!['z']) == e2 + s2.shows(seq!['z']));
    lemma_shows_z(s1);
    lemma_shows_z(s2);
    lemma_wf_shows_nothing_more(s1);
    lemma_wf_shows_nothing_more(s2);
    if s1.in_think && s2.in_think {
        assert(e1 + empty =~= e1);
        assert(e2 + empty =~= e2);
    } else if s1.in_think && !s2.in_think {
        assert((e1 + empty).len() == (e2 + s2.pending).len());
        assert((e1 + empty).len() == (e2 + s2.pending.push('z')).len());
    } else if !s1.in_think && s2.in_think {
        assert((e1 + s1.pending).len() == (e2 + empty).len());
        assert((e1 + s1.pending.push('z')).len() == (e2 + empty).len());
    } else {
        let c1 = open_tag().skip(s1.pending.len() as int);
        let c2 = open_tag().skip(s2.pending.len() as int);
        assert(e1 + s1.shows(c2) == e2 + s2.shows(c2));
        assert(e1 + s1.shows(c1) == e2 + s2.shows(c1));
        lemma_shows_completion(s1, c1);
        lemma_shows_completion(s2, c2);
        assert(e1.len() <= e2.len()) by {
            assert((e1 + s1.shows(c2)).len() == (e2 + s2.shows(c2)).len());
        }
        assert(e2.len() <= e1.len()) by {
            assert((e1 + s1.shows(c1)).len() == (e2 + s2.shows(c1)).len());
        }
        let whole = e1 + s1.pending;
        assert(whole == e2 + s2.pending);
        assert(e1 =~= whole.take(e1.len() as int));
        assert(e2 =~= whole.take(e2.len() as int));
        assert(s1.pending =~= whole.skip(e1.len() as int));
        assert(s2.pending =~= whole.skip(e2.len() as int));
    }
}

/// How a stream is cut into tokens changes nothing: two runs fed the same
/// text emit the same text, end in the same mode, and outside a span hold
/// back the same text.
pub proof fn lemma_filter_split_independent(
    tokens1: Seq<Seq<char>>,
    states1: Seq<FilterState>,
    emitted1: Seq<Seq<char>>,
    tokens2: Seq<Seq<char>>,
    states2: Seq<FilterState>,
    emitted2: Seq<Seq<char>>,
)
    requires
        filter_run(tokens1, states1, emitted1),
        filter_run(tokens2, states2, emitted2),
        concat_all(tokens1) == concat_all(tokens2),
    ensures
        concat_all(emitted1) == concat_all(emitted2),
        states1.last().in_think == states2.last().in_think,
        !states1.last().in_think ==> states1.last().pending == states2.last().pending,
{
    lemma_run_last_wf(tokens1, states1, emitted1);
    lemma_run_last_wf(tokens2, states2, emitted2);
    assert forall|rest: Seq<char>|
        concat_all(emitted1) + #[trigger] states1.last().shows(rest) == concat_all(emitted2)
            + states2.last().shows(rest) by {
        lemma_filter_run_shows(tokens1, states1, emitted1, rest);
        lemma_filter_run_shows(tokens2, states2, emitted2, rest);
    }
    lemma_observation_determines(
        concat_all(emitted1),
        states1.last(),
        concat_all(emitted2),
        states2.last(),
    );
}

/// Whether `s`, read from the given mode, ends inside a `<think>` span that
/// has not been closed.
pub open spec fn ends_in_span(s: Seq<char>, in_think: bool) -> bool
    decreases s.len(),
{
    if in_think {
        match find_first(s, close_tag()) {
            Some(i) => if 0 <= i && i + 8 <= s.len() {
                ends_in_span(s.skip(i + 8), false)
            } else {
                true
            },
            None => true,
        }
    } else {
        match find_first(s, open_tag()) {
            Some(i) => if 0 <= i && i + 7 <= s.len() {
                ends_in_span(s.skip(i + 7), true)
            } else {
                false
            },
            None => false,
        }
    }
}

/// A following `z` is shown exactly when the text does not end inside a span.
proof fn lemma_strip_push_z(s: Seq<char>, in_think: bool)
    ensures
        strip_think(s.push('z'), in_think) == (if ends_in_span(s, in_think) {
            strip_think(s, in_think)
        } else {
            strip_think(s, in_think).push('z')
        }),
    decreases s.len(),
{
    let z = seq!['z'];
    assert(s.push('z') =~= s + z);
    if in_think {
        match find_first(s, close_tag()) {
            Some(i) => {
                lemma_strip_close(s, i, z);
                lemma_strip_push_z(s.skip(i + 8), false);
                assert(s.skip(i + 8) + z =~= s.skip(i + 8).push('z'));
            },
            None => {
                lemma_find_none_push(s, close_tag(), 'z');
            },
        }
    } else {
        match find_first(s, open_tag()) {
            Some(i) => {
                lemma_strip_open(s, i, z);
                lemma_strip_push_z(s.skip(i + 7), true);
                assert(s.skip(i + 7) + z =~= s.skip(i + 7).push('z'));
                assert(s.take(i) + strip_think(s.skip(i + 7), true).push('z') =~= (s.take(i)
                    + strip_think(s.skip(i + 7), true)).push('z'));
            },
            None => {
                lemma_find_none_push(s, open_tag(), 'z');
            },
        }
    }
}

/// After a run the filter is inside a span exactly when the text fed so far
/// opens a `<think>` that it has not closed.
pub proof fn lemma_filter_ends_in_span(
    tokens: Seq<Seq<char>>,
    states: Seq<FilterState>,
    emitted: Seq<Seq<char>>,
)
    requires
        filter_run(tokens, states, emitted),
    ensures
        states.last().in_think == ends_in_span(concat_all(tokens), false),
{
    let last = states.last();
    lemma_run_last_wf(tokens, states, emitted);
    let all = concat_all(tokens);
    let e = concat_all(emitted);
    lemma_filter_run_shows(tokens, states, emitted, Seq::empty());
    lemma_filter_run_shows(tokens, states, emitted, seq!['z']);
    assert(all + Seq::<char>::empty() =~= all);
    assert(all + seq!['z'] =~= all.push('z'));
    lemma_strip_push_z(all, false);
    lemma_shows_z(last);
    lemma_wf_shows_nothing_more(last);
    if last.in_think {
        assert(e + Seq::<char>::empty() =~= e);
        assert(strip_think(all.push('z'), false) == strip_think(all, false));
        if !ends_in_span(all, false) {
            assert(strip_think(all, false).push('z').len() == strip_think(all, false).len() + 1);
        }
    } else {
        assert(e + last.pending.push('z') =~= (e + last.pending).push('z'));
        if ends_in_span(all, false) {
            assert((e + last.pending.push('z')).len() == (e + last.pending).len() + 1);
        }
    }
}

/// The filter that strips `<think>…</think>` spans from a stream of text.
pub struct ThinkingFilter {
    buffer: Vec<char>,
    in_think: bool,
}

impl View for ThinkingFilter {
    type V = FilterState;

    closed spec fn view(&self) -> FilterState {
        FilterState { pending: self.buffer@, in_think: self.in_think }
    }
}

pub proof fn lemma_concat_strings_push(parts: Seq<String>, p: String)
    ensures
        concat_strings(parts.push(p)) == concat_strings(parts) + p@,
{
    let f = |q: String| q@;
    assert(parts.push(p).map_values(f) =~= parts.map_values(f).push(p@));
    assert(parts.map_values(f).push(p@).drop_last() =~= parts.map_values(f));
}

fn open_tag_chars() -> (v: Vec<char>)
    ensures
        v@ == open_tag(),
{
    let mut v: Vec<char> = Vec::new();
    v.push('<');
    v.push('t');
    v.push('h');
    v.push('i');
    v.push('n');
    v.push('k');
    v.push('>');
    assert(v@ =~= open_tag());
    v
}

fn close_tag_chars() -> (v: Vec<char>)
    ensures
        v@ == close_tag(),
{
    let mut v: Vec<char> = Vec::new();
    v.push('<');
    v.push('/');
    v.push('t');
    v.push('h');
    v.push('i');
    v.push('n');
    v.push('k');
    v.push('>');
    assert(v@ =~= close_tag());
    v
}

/// Whether a piece of the model's vocabulary is the `<think>` or the
/// `</think>` tag.
pub fn is_think_tag(piece: &str) -> (r: bool)
    ensures
        r == (piece@ == open_tag() || piece@ == close_tag()),
{
    let v = chars_of(piece);
    let open = open_tag_chars();
    let close = close_tag_chars();
    chars_eq(&v, &open) || chars_eq(&v, &close)
}

/// The length of the longest suffix of `buf`, at most six characters, that
/// could still grow into `<think>`.
fn held_back_len(buf: &[char]) -> (m: usize)
    ensures
        m <= 6,
        m <= buf@.len(),
        buf@.skip(buf@.len() - m) == open_tag().take(m as int),
        forall|k: int|
            m < k <= 6 && k <= buf@.len() ==> buf@.skip(buf@.len() - k) != #[trigger] open_tag().take(
                k,
            ),
        m == held_len(buf@),
{
    let open = open_tag_chars();
    let len = buf.len();
    let mut k: usize = if len < 6 {
        len
    } else {
        6
    };
    while k > 0
        invariant
            k <= 6,
            k <= len,
            len == buf@.len(),
            open@ == open_tag(),
            forall|j: int|
                k < j <= 6 && j <= buf@.len() ==> buf@.skip(buf@.len() - j)
                    != #[trigger] open_tag().take(j),
        decreases k,
    {
        let mut same = true;
        let mut i: usize = 0;
        while i < k
            invariant
                k <= 6,
                k <= len,
                len == buf@.len(),
                open@ == open_tag(),
                0 <= i <= k,
                same == (forall|t: int| 0 <= t < i ==> buf@[len - k + t] == open_tag()[t]),
            decreases k - i,
        {
            if buf[len - k + i] != open[i] {
                same = false;
            }
            i = i + 1;
        }
        if same {
            assert(buf@.skip(buf@.len() - k) =~= open_tag().take(k as int));
            proof {
                lemma_held_len_upto(buf@, k as int, 6);
            }
            return k;
        }
        assert(buf@.skip(buf@.len() - k) != open_tag().take(k as int)) by {
            let t = choose|t: int| 0 <= t < k && buf@[len - k + t] != open_tag()[t];
            assert(buf@.skip(buf@.len() - k)[t] == buf@[len - k + t]);
        }
        k = k - 1;
    }
    assert(buf@.skip(buf@.len() as int) =~= open_tag().take(0));
    proof {
        lemma_held_len_upto(buf@, 0, 6);
    }
    0
}

impl ThinkingFilter {
    #[verifier::type_invariant]
    spec fn inv(self) -> bool {
        self@.wf()
    }

    /// A filter outside any span, holding nothing back.
    pub fn new() -> (f: Self)
        ensures
            f@.pending.len() == 0,
            !f@.in_think,
    {
        let buffer: Vec<char> = Vec::new();
        assert(buffer@ =~= open_tag().take(0));
        ThinkingFilter { buffer, in_think: false }
    }

    /// Feeds one generated piece of text and returns the pieces that can be
    /// shown now, in order: one for the visible text before each `<think>`
    /// it finds, and one for the visible text after the last tag it decides.
    /// Text that might still turn out to belong to a tag is held back until a
    /// later call decides it; inside a span at most 8 bytes are kept.
    pub fn process(&mut self, token: &str) -> (pieces: Vec<String>)
        ensures
            process_step(old(self)@, token@, concat_strings(pieces@), final(self)@),
            piece_views(pieces@) == decided_pieces(old(self)@.pending + token@, old(self)@.in_think),
            forall|i: int| 0 <= i < pieces@.len() ==> (#[trigger] pieces@[i])@.len() > 0,
    {
        proof {
            use_type_invariant(&*self);
        }
        let ghost before = self@;
        let mut buf = slice_chars(&self.buffer, 0, self.buffer.len());
        let mut tok = chars_of(token);
        buf.append(&mut tok);
        let mut in_think = self.in_think;
        let mut pieces: Vec<String> = Vec::new();
        let open = open_tag_chars();
        let close = close_tag_chars();
        assert(buf@ =~= before.pending + token@);
        let ghost start = buf@;
        assert(piece_views(pieces@) + decided_pieces(buf@, in_think) =~= decided_pieces(
            start,
            before.in_think,
        ));
        assert forall|rest: Seq<char>| #[trigger]
            before.shows(token@ + rest) == concat_strings(pieces@) + strip_think(
                buf@ + rest,
                in_think,
            ) by {
            assert(before.pending + (token@ + rest) =~= buf@ + rest);
            assert(pieces@.map_values(|q: String| q@) =~= Seq::<Seq<char>>::empty());
            assert(concat_strings(pieces@) + strip_think(buf@ + rest, in_think) =~= strip_think(
                buf@ + rest,
                in_think,
            ));
        }
        loop
            invariant_except_break
                open@ == open_tag(),
                close@ == close_tag(),
                forall|rest: Seq<char>| #[trigger]
                    before.shows(token@ + rest) == concat_strings(pieces@) + strip_think(
                        buf@ + rest,
                        in_think,
                    ),
                forall|i: int| 0 <= i < pieces@.len() ==> (#[trigger] pieces@[i])@.len() > 0,
                piece_views(pieces@) + decided_pieces(buf@, in_think) == decided_pieces(
                    start,
                    before.in_think,
                ),
            ensures
                (FilterState { pending: buf@, in_think }).wf(),
                piece_views(pieces@) == decided_pieces(start, before.in_think),
                forall|rest: Seq<char>| #[trigger]
                    before.shows(token@ + rest) == concat_strings(pieces@) + strip_think(
                        buf@ + rest,
                        in_think,
                    ),
                forall|i: int| 0 <= i < pieces@.len() ==> (#[trigger] pieces@[i])@.len() > 0,
            decreases buf@.len(),
        {
            let ghost old_buf = buf@;
            let ghost old_pieces = pieces@;
            let blen = buf.len();
            if in_think {
                match find_chars(&buf, &close) {
                    Some(pos) => {
                        proof {
                            lemma_find_first(old_buf, close_tag());
                            assert(occurs_at(old_buf, close_tag(), pos as int));
                        }
                        buf = slice_chars(&buf, pos + 8, blen);
                        in_think = false;
                        assert forall|rest: Seq<char>| #[trigger]
                            before.shows(token@ + rest) == concat_strings(pieces@) + strip_think(
                                buf@ + rest,
                                in_think,
                            ) by {
                            lemma_strip_close(old_buf, pos as int, rest);
                            assert(old_buf.skip(pos + 8) =~= buf@);
                        }
                    },
                    None => {
                        proof {
                            lemma_find_first(old_buf, close_tag());
                        }
                        assert(piece_views(pieces@) + Seq::<Seq<char>>::empty() =~= piece_views(
                            pieces@,
                        ));
                        if !utf8_len_at_most(&buf, 8) {
                            let k = byte_suffix_start(&buf, 7);
                            buf = slice_chars(&buf, k, blen);
                            assert(buf@ =~= old_buf.skip(k as int));
                            assert forall|rest: Seq<char>| #[trigger]
                                before.shows(token@ + rest) == concat_strings(pieces@)
                                    + strip_think(buf@ + rest, in_think) by {
                                assert forall|j: int| 0 <= j < k implies !#[trigger] occurs_at(
                                    old_buf + rest,
                                    close_tag(),
                                    j,
                                ) by {
                                    if occurs_at(old_buf + rest, close_tag(), j) {
                                        if j + 8 <= blen {
                                            assert((old_buf + rest).subrange(j, j + 8)
                                                =~= old_buf.subrange(j, j + 8));
                                            assert(occurs_at(old_buf, close_tag(), j));
                                        } else {
                                            let tail = old_buf.skip(k - 1);
                                            assert forall|t: int| 0 <= t < tail.len() implies #[trigger] is_ascii_char(tail[t]) by {
                                                assert(tail[t] == (old_buf + rest).subrange(j, j + 8)[k - 1 + t - j]);
                                            }
                                            lemma_ascii_bytes(tail);
                                        }
                                    }
                                }
                                lemma_strip_discard(old_buf, k as int, rest);
                                assert(old_buf.skip(k as int) =~= buf@);
                            }
                            assert forall|j: int| !#[trigger] occurs_at(buf@, close_tag(), j) by {
                                if occurs_at(buf@, close_tag(), j) {
                                    assert(old_buf.subrange(j + k, j + k + 8) =~= buf@.subrange(
                                        j,
                                        j + 8,
                                    ));
                                    assert(occurs_at(old_buf, close_tag(), j + k));
                                }
                            }
                            proof {
                                lemma_find_first(buf@, close_tag());
                                if let Some(i) = find_first(buf@, close_tag()) {
                                    assert(occurs_at(buf@, close_tag(), i));
                                }
                            }
                        }
                        break;
                    },
                }
            } else {
                match find_chars(&buf, &open) {
                    Some(pos) => {
                        proof {
                            lemma_find_first(old_buf, open_tag());
                            assert(occurs_at(old_buf, open_tag(), pos as int));
                        }
                        if pos > 0 {
                            let shown = slice_chars(&buf, 0, pos);
                            let piece = string_of(&shown);
                            pieces.push(piece);
                            proof {
                                lemma_concat_strings_push(old_pieces, piece);
                                lemma_piece_views_push(old_pieces, piece);
                                assert(old_buf.take(pos as int) =~= shown@);
                            }
                        }
                        buf = slice_chars(&buf, pos + 7, blen);
                        in_think = true;
                        proof {
                            assert(old_buf.skip(pos + 7) =~= buf@);
                            if pos > 0 {
                                assert(piece_views(pieces@) + decided_pieces(buf@, in_think)
                                    =~= piece_views(old_pieces) + (seq![old_buf.take(pos as int)]
                                    + decided_pieces(buf@, in_think)));
                            } else {
                                assert(Seq::<Seq<char>>::empty() + decided_pieces(buf@, in_think)
                                    =~= decided_pieces(buf@, in_think));
                            }
                        }
                        assert forall|rest: Seq<char>| #[trigger]
                            before.shows(token@ + rest) == concat_strings(pieces@) + strip_think(
                                buf@ + rest,
                                in_think,
                            ) by {
                            lemma_strip_open(old_buf, pos as int, rest);
                            assert(old_buf.skip(pos + 7) =~= buf@);
                            if pos == 0 {
                                assert(old_buf.take(0) =~= Seq::<char>::empty());
                            } else {
                                assert(old_buf.take(pos as int) =~= old_buf.subrange(0, pos as int));
                            }
                        }
                    },
                    None => {
                        proof {
                            lemma_find_first(old_buf, open_tag());
                        }
                        let len = buf.len();
                        let m = held_back_len(&buf);
                        let emit = len - m;
                        if emit > 0 {
                            let shown = slice_chars(&buf, 0, emit);
                            let piece = string_of(&shown);
                            pieces.push(piece);
                            proof {
                                lemma_concat_strings_push(old_pieces, piece);
                                lemma_piece_views_push(old_pieces, piece);
                                assert(old_buf.take(emit as int) =~= shown@);
                            }
                            buf = slice_chars(&buf, emit, len);
                        } else {
                            assert(piece_views(pieces@) + Seq::<Seq<char>>::empty() =~= piece_views(
                                pieces@,
                            ));
                        }
                        assert(buf@ =~= old_buf.skip(emit as int));
                        assert forall|rest: Seq<char>| #[trigger]
                            before.shows(token@ + rest) == concat_strings(pieces@) + strip_think(
                                buf@ + rest,
                                in_think,
                            ) by {
                            assert forall|j: int| 0 <= j < emit implies !#[trigger] occurs_at(
                                old_buf + rest,
                                open_tag(),
                                j,
                            ) by {
                                if occurs_at(old_buf + rest, open_tag(), j) {
                                    if j + 7 <= len {
                                        assert((old_buf + rest).subrange(j, j + 7)
                                            =~= old_buf.subrange(j, j + 7));
                                        assert(occurs_at(old_buf, open_tag(), j));
                                    } else {
                                        let kk = len - j;
                                        assert(old_buf.skip(len - kk) =~= open_tag().take(kk)) by {
                                            assert forall|t: int| 0 <= t < kk implies old_buf.skip(
                                                len - kk,
                                            )[t] == open_tag().take(kk)[t] by {
                                                assert((old_buf + rest).subrange(j, j + 7)[t]
                                                    == open_tag()[t]);
                                            }
                                        }
                                    }
                                }
                            }
                            lemma_strip_release(old_buf, emit as int, rest);
                            if emit == 0 {
                                assert(old_buf.take(0) =~= Seq::<char>::empty());
                                assert(concat_strings(pieces@) + strip_think(buf@ + rest, in_think)
                                    =~= concat_strings(old_pieces) + (old_buf.take(0)
                                    + strip_think(buf@ + rest, in_think)));
                            } else {
                                assert(old_buf.take(emit as int) =~= old_buf.subrange(
                                    0,
                                    emit as int,
                                ));
                            }
                        }
                        break;
                    },
                }
            }
        }
        *self = ThinkingFilter { buffer: buf, in_think };
        pieces
    }

    /// Ends the stream: returns the text still held back, if it is to be
    /// shown (never anything from inside an unclosed span).
    pub fn flush(self) -> (rest: Option<String>)
        ensures
            match rest {
                Some(p) => p@ == self@.shows(Seq::empty()) && p@.len() > 0,
                None => self@.shows(Seq::empty()).len() == 0,
            },
    {
        proof {
            use_type_invariant(&self);
            lemma_wf_shows_nothing_more(self@);
        }
        if !self.in_think && self.buffer.len() > 0 {
            Some(string_of(&self.buffer))
        } else {
            None
        }
    }
}

} // verus!
