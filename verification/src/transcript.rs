//! What becomes of one transcribed block of speech: it is cleaned up, dropped
//! when it is noise, answered at once from a matching reference question,
//! corrected to a reference question that has no stored answer, or shown and,
//! when it reads like a question, passed on to the language model.
use vstd::prelude::*;
use crate::filler::{is_noise_or_filler, noise_or_filler};
use crate::sanitize::{sanitize_computer_science_terms, sanitized};
use crate::similarity::{
    calculate_similarity, exceeds, lemma_similarity_range, match_form, reaches_match_threshold, similarity_of, Similarity,
};
use crate::text::{
    all_ascii, ascii_lower_seq, chars_of, contains_chars, contains_seq, lowercase_text, split_words, string_of, trim, trim_chars,
    lowercased, words,
};

verus! {

/// A stored question with the answer to give when it is asked.  An empty
/// answer marks a question used only to correct how a transcript reads.
pub struct ReferenceQA {
    pub question: String,
    pub answer: String,
}

pub open spec fn questions_of(refs: Seq<ReferenceQA>) -> Seq<Seq<char>> {
    refs.map_values(|r: ReferenceQA| r.question@)
}

/// The reference question most similar to `text`, scanning in order: a later
/// question replaces the current choice only with a strictly greater score,
/// and the first choice needs a score above zero.
pub open spec fn best_candidate(text: Seq<char>, questions: Seq<Seq<char>>) -> Option<int>
    decreases questions.len(),
{
    if questions.len() == 0 {
        None
    } else {
        let last = questions.len() - 1;
        let score = similarity_of(text, questions[last]);
        match best_candidate(text, questions.drop_last()) {
            None => if score.0 > 0 {
                Some(last)
            } else {
                None
            },
            Some(k) => if exceeds(score, similarity_of(text, questions[k])) {
                Some(last)
            } else {
                Some(k)
            },
        }
    }
}

/// The reference question that `text` is taken to be: the best candidate,
/// provided it scores at least three quarters.
pub open spec fn reference_match(text: Seq<char>, questions: Seq<Seq<char>>) -> Option<int> {
    match best_candidate(text, questions) {
        Some(k) => if reaches_match_threshold(similarity_of(text, questions[k])) {
            Some(k)
        } else {
            None
        },
        None => None,
    }
}

/// The most similar question is taken exactly when it scores at least three
/// quarters; with no candidate, nothing is taken.
pub proof fn lemma_match_needs_three_quarters(text: Seq<char>, questions: Seq<Seq<char>>)
    ensures
        match best_candidate(text, questions) {
            Some(k) => (reference_match(text, questions) == Some(k)) <==> 4 * similarity_of(
                text,
                questions[k],
            ).0 >= 3 * similarity_of(text, questions[k]).1,
            None => reference_match(text, questions) is None,
        },
        reference_match(text, questions) is Some ==> best_candidate(text, questions) is Some,
{
}

pub proof fn lemma_best_candidate_in_range(text: Seq<char>, questions: Seq<Seq<char>>)
    ensures
        best_candidate(text, questions) matches Some(k) ==> 0 <= k < questions.len(),
    decreases questions.len(),
{
    if questions.len() > 0 {
        lemma_best_candidate_in_range(text, questions.drop_last());
    }
}

/// Index of the reference question that `text` is taken to be, if any.
pub fn best_reference_match(text: &str, refs: &[ReferenceQA]) -> (r: Option<usize>)
    ensures
        r matches Some(k) ==> reference_match(text@, questions_of(refs@)) == Some(k as int),
        r is None ==> reference_match(text@, questions_of(refs@)) is None,
{
    let ghost qs = questions_of(refs@);
    let mut best: Option<usize> = None;
    let mut best_score = Similarity { numerator: 0, denominator: 1 };
    let mut i: usize = 0;
    while i < refs.len()
        invariant
            0 <= i <= refs@.len(),
            qs == questions_of(refs@),
            best_candidate(text@, qs.take(i as int)) == match best {
                Some(k) => Some(k as int),
                None => None::<int>,
            },
            best matches Some(k) ==> k < i && best_score.value() == similarity_of(text@, qs[k as int]),
            best is None ==> best_score.value() == (0int, 1int),
        decreases refs@.len() - i,
    {
        let ghost pre = qs.take(i + 1);
        assert(pre.drop_last() =~= qs.take(i as int));
        assert(pre[i as int] == refs@[i as int].question@);
        let score = calculate_similarity(text, refs[i].question.as_str());
        if let Some(k) = best {
            assert(pre[k as int] == qs[k as int]);
        }
        let better = score.exceeds(&best_score);
        proof {
            assert(score.value() == similarity_of(text@, pre[i as int]));
            if best is None {
                let v = score.value();
                assert(exceeds(v, (0int, 1int)) == (v.0 > 0)) by (nonlinear_arith);
                assert(better == (score.value().0 > 0));
            }
            assert(pre.len() - 1 == i);
        }
        if better {
            best = Some(i);
            best_score = score;
        }
        i = i + 1;
    }
    assert(qs.take(refs@.len() as int) =~= qs);
    match best {
        Some(k) => {
            if best_score.reaches_match_threshold() {
                Some(k)
            } else {
                None
            }
        },
        None => None,
    }
}

/// A transcript that reads like a question or a request: lower-cased, it
/// contains `?` or one of the cue words.
pub open spec fn is_potential_query_text(text: Seq<char>) -> bool {
    let l = lowercased(text);
    ||| contains_seq(l, "?"@)
    ||| contains_seq(l, "what"@)
    ||| contains_seq(l, "how"@)
    ||| contains_seq(l, "why"@)
    ||| contains_seq(l, "who"@)
    ||| contains_seq(l, "can"@)
    ||| contains_seq(l, "could"@)
    ||| contains_seq(l, "explain"@)
    ||| contains_seq(l, "tell"@)
    ||| contains_seq(l, "describe"@)
    ||| contains_seq(l, "difference"@)
    ||| contains_seq(l, "define"@)
    ||| contains_seq(l, "meaning"@)
    ||| contains_seq(l, "definition"@)
    ||| contains_seq(l, "discuss"@)
    ||| contains_seq(l, "which"@)
}

/// Each cue makes a query, whatever its letter case and wherever it stands:
/// an ASCII transcript that, lower-cased, contains `?` or one of the words
/// what, how, why, who, can, could, explain, tell, describe, difference,
/// define, meaning, definition, discuss or which reads like a question.
pub proof fn lemma_cues_make_queries(text: Seq<char>)
    requires
        all_ascii(text),
    ensures
        contains_seq(ascii_lower_seq(text), "?"@) ==> is_potential_query_text(text),
        contains_seq(ascii_lower_seq(text), "what"@) ==> is_potential_query_text(text),
        contains_seq(ascii_lower_seq(text), "how"@) ==> is_potential_query_text(text),
        contains_seq(ascii_lower_seq(text), "why"@) ==> is_potential_query_text(text),
        contains_seq(ascii_lower_seq(text), "who"@) ==> is_potential_query_text(text),
        contains_seq(ascii_lower_seq(text), "can"@) ==> is_potential_query_text(text),
        contains_seq(ascii_lower_seq(text), "could"@) ==> is_potential_query_text(text),
        contains_seq(ascii_lower_seq(text), "explain"@) ==> is_potential_query_text(text),
        contains_seq(ascii_lower_seq(text), "tell"@) ==> is_potential_query_text(text),
        contains_seq(ascii_lower_seq(text), "describe"@) ==> is_potential_query_text(text),
        contains_seq(ascii_lower_seq(text), "difference"@) ==> is_potential_query_text(text),
        contains_seq(ascii_lower_seq(text), "define"@) ==> is_potential_query_text(text),
        contains_seq(ascii_lower_seq(text), "meaning"@) ==> is_potential_query_text(text),
        contains_seq(ascii_lower_seq(text), "definition"@) ==> is_potential_query_text(text),
        contains_seq(ascii_lower_seq(text), "discuss"@) ==> is_potential_query_text(text),
        contains_seq(ascii_lower_seq(text), "which"@) ==> is_potential_query_text(text),
{
}

fn has(l: &[char], cue: &str) -> (r: bool)
    ensures
        r == contains_seq(l@, cue@),
{
    let c = chars_of(cue);
    contains_chars(l, &c)
}

/// Whether a transcript reads like a question or a request.
pub fn is_potential_query(text: &str) -> (r: bool)
    ensures
        r == is_potential_query_text(text@),
{
    let lower = lowercase_text(text);
    let l = chars_of(lower.as_str());
    has(&l, "?") || has(&l, "what") || has(&l, "how") || has(&l, "why") || has(&l, "who") || has(
        &l,
        "can",
    ) || has(&l, "could") || has(&l, "explain") || has(&l, "tell") || has(&l, "describe") || has(
        &l,
        "difference",
    ) || has(&l, "define") || has(&l, "meaning") || has(&l, "definition") || has(&l, "discuss")
        || has(&l, "which")
}

/// What to do with one transcribed block.
pub enum TranscriptPlan {
    /// Noise or filler: nothing is shown; the cleaned text is kept for logs.
    Ignore { text: String },
    /// A stored question was asked: show it with its stored answer and
    /// record the exchange in the conversation history.
    Answered { question: String, answer: String },
    /// Show `text` as transcript; when `ask_model`, have the language model
    /// answer it.
    Show { text: String, ask_model: bool },
}

/// The abstract form of a [`TranscriptPlan`].
pub enum PlanView {
    Ignore(Seq<char>),
    Answered(Seq<char>, Seq<char>),
    Show(Seq<char>, bool),
}

impl View for TranscriptPlan {
    type V = PlanView;

    open spec fn view(&self) -> PlanView {
        match self {
            TranscriptPlan::Ignore { text } => PlanView::Ignore(text@),
            TranscriptPlan::Answered { question, answer } => PlanView::Answered(question@, answer@),
            TranscriptPlan::Show { text, ask_model } => PlanView::Show(text@, *ask_model),
        }
    }
}

/// The plan for a raw transcript `raw` given the reference questions.
pub open spec fn plan_of(raw: Seq<char>, refs: Seq<ReferenceQA>) -> PlanView {
    let text = sanitized(trim(raw));
    if noise_or_filler(text) {
        PlanView::Ignore(text)
    } else {
        match reference_match(text, questions_of(refs)) {
            Some(k) => if trim(refs[k].answer@).len() > 0 {
                PlanView::Answered(refs[k].question@, refs[k].answer@)
            } else {
                PlanView::Show(refs[k].question@, true)
            },
            None => PlanView::Show(
                text,
                words(text).len() >= 3 && is_potential_query_text(text),
            ),
        }
    }
}

/// Decides what to do with a raw transcript: trims and repairs it, drops it
/// when it is noise or filler, otherwise matches it against the reference
/// questions (at least three quarters similar), and failing a match asks
/// the model only about question-like text of three words or more.
pub fn plan_transcript(raw: &str, refs: &[ReferenceQA]) -> (plan: TranscriptPlan)
    ensures
        plan@ == plan_of(raw@, refs@),
{
    let raw_chars = chars_of(raw);
    let trimmed_chars = trim_chars(&raw_chars);
    let trimmed = string_of(&trimmed_chars);
    let text = sanitize_computer_science_terms(trimmed.as_str());
    if is_noise_or_filler(text.as_str()) {
        return TranscriptPlan::Ignore { text };
    }
    match best_reference_match(text.as_str(), refs) {
        Some(k) => {
            proof {
                lemma_best_candidate_in_range(text@, questions_of(refs@));
            }
            let question = refs[k].question.clone();
            let answer = refs[k].answer.clone();
            let answer_chars = chars_of(answer.as_str());
            let answer_trimmed = trim_chars(&answer_chars);
            if answer_trimmed.len() > 0 {
                TranscriptPlan::Answered { question, answer }
            } else {
                TranscriptPlan::Show { text: question, ask_model: true }
            }
        },
        None => {
            let text_chars = chars_of(text.as_str());
            let ws = split_words(&text_chars);
            let ask_model = ws.len() >= 3 && is_potential_query(text.as_str());
            TranscriptPlan::Show { text, ask_model }
        },
    }
}

/// A transcript that, repaired, is not noise, matches no reference question,
/// has three words or more and reads like a question is shown as it is and
/// handed to the model.
pub proof fn lemma_unmatched_question_asks_model(raw: Seq<char>, refs: Seq<ReferenceQA>)
    requires
        !noise_or_filler(sanitized(trim(raw))),
        reference_match(sanitized(trim(raw)), questions_of(refs)) is None,
        words(sanitized(trim(raw))).len() >= 3,
        is_potential_query_text(sanitized(trim(raw))),
    ensures
        plan_of(raw, refs) == PlanView::Show(sanitized(trim(raw)), true),
{
}

/// A transcript of fewer than three words that matches no reference question
/// is shown but never handed to the model.
pub proof fn lemma_short_transcript_not_asked(raw: Seq<char>, refs: Seq<ReferenceQA>)
    requires
        !noise_or_filler(sanitized(trim(raw))),
        reference_match(sanitized(trim(raw)), questions_of(refs)) is None,
        words(sanitized(trim(raw))).len() < 3,
    ensures
        plan_of(raw, refs) == PlanView::Show(sanitized(trim(raw)), false),
{
}

/// What becomes of a repaired transcript: noise is ignored; a match with a
/// stored answer is answered with it; a match without one (a blank answer)
/// is shown as the stored question and handed to the model.
pub proof fn lemma_plan_outcomes(raw: Seq<char>, refs: Seq<ReferenceQA>)
    ensures
        noise_or_filler(sanitized(trim(raw))) ==> plan_of(raw, refs) == PlanView::Ignore(
            sanitized(trim(raw)),
        ),
        !noise_or_filler(sanitized(trim(raw))) ==> match reference_match(
            sanitized(trim(raw)),
            questions_of(refs),
        ) {
            Some(k) => if trim(refs[k].answer@).len() > 0 {
                plan_of(raw, refs) == PlanView::Answered(refs[k].question@, refs[k].answer@)
            } else {
                plan_of(raw, refs) == PlanView::Show(refs[k].question@, true)
            },
            None => plan_of(raw, refs) is Show,
        },
{
}

/// The answer to record in the conversation history after the model has
/// streamed `accumulated`: its trimmed text, provided the generation was not
/// superseded and the answer is not blank.
pub fn accepted_answer(accumulated: &str, still_current: bool) -> (r: Option<String>)
    ensures
        r matches Some(a) ==> still_current && a@ == trim(accumulated@) && a@.len() > 0,
        r is None ==> !still_current || trim(accumulated@).len() == 0,
{
    if !still_current {
        return None;
    }
    let all = chars_of(accumulated);
    let t = trim_chars(&all);
    if t.len() == 0 {
        None
    } else {
        Some(string_of(&t))
    }
}


proof fn lemma_not_exceeds_trans(x: (int, int), k: (int, int), l: (int, int))
    requires
        x.1 > 0,
        k.1 > 0,
        l.1 > 0,
        !exceeds(x, k),
        exceeds(l, k),
    ensures
        !exceeds(x, l),
{
    assert(x.0 * l.1 <= l.0 * x.1) by (nonlinear_arith)
        requires
            x.1 > 0,
            k.1 > 0,
            l.1 > 0,
            x.0 * k.1 <= k.0 * x.1,
            l.0 * k.1 > k.0 * l.1,
    ;
}

/// The best candidate scores above zero and no reference question scores
/// higher; without a candidate, every question scores zero.
pub proof fn lemma_best_candidate_is_best(text: Seq<char>, questions: Seq<Seq<char>>)
    ensures
        match best_candidate(text, questions) {
            Some(k) => 0 <= k < questions.len() && similarity_of(text, questions[k]).0 > 0 && forall|
                i: int,
            |
                0 <= i < questions.len() ==> !exceeds(
                    #[trigger] similarity_of(text, questions[i]),
                    similarity_of(text, questions[k]),
                ),
            None => forall|i: int|
                0 <= i < questions.len() ==> #[trigger] similarity_of(text, questions[i]).0 == 0,
        },
    decreases questions.len(),
{
    if questions.len() > 0 {
        let pre = questions.drop_last();
        let last = questions.len() - 1;
        lemma_best_candidate_is_best(text, pre);
        lemma_similarity_range(text, questions[last]);
        assert forall|i: int| 0 <= i < last implies #[trigger] questions[i] == pre[i] by {}
        match best_candidate(text, pre) {
            None => {
                assert forall|i: int| 0 <= i < questions.len() implies !exceeds(
                    #[trigger] similarity_of(text, questions[i]),
                    similarity_of(text, questions[last]),
                ) by {
                    let x = similarity_of(text, questions[i]);
                    let l = similarity_of(text, questions[last]);
                    lemma_similarity_range(text, questions[i]);
                    if i < last {
                        assert(similarity_of(text, pre[i]).0 == 0);
                        assert(x.0 == 0);
                        assert(l.0 * x.1 >= 0) by (nonlinear_arith)
                            requires
                                l.0 >= 0,
                                x.1 >= 0,
                        ;
                    }
                }
            },
            Some(k) => {
                lemma_similarity_range(text, questions[k]);
                assert(questions[k] == pre[k]);
                if exceeds(similarity_of(text, questions[last]), similarity_of(text, questions[k])) {
                    assert(similarity_of(text, questions[last]).0 > 0) by (nonlinear_arith)
                        requires
                            similarity_of(text, questions[last]).0 * similarity_of(
                                text,
                                questions[k],
                            ).1 > similarity_of(text, questions[k]).0 * similarity_of(
                                text,
                                questions[last],
                            ).1,
                            similarity_of(text, questions[k]).0 > 0,
                            similarity_of(text, questions[last]).1 > 0,
                            similarity_of(text, questions[k]).1 > 0,
                    ;
                    assert forall|i: int| 0 <= i < questions.len() implies !exceeds(
                        #[trigger] similarity_of(text, questions[i]),
                        similarity_of(text, questions[last]),
                    ) by {
                        lemma_similarity_range(text, questions[i]);
                        if i < last {
                            assert(similarity_of(text, questions[i]) == similarity_of(text, pre[i]));
                            lemma_not_exceeds_trans(
                                similarity_of(text, questions[i]),
                                similarity_of(text, questions[k]),
                                similarity_of(text, questions[last]),
                            );
                        }
                    }
                } else {
                    assert forall|i: int| 0 <= i < questions.len() implies !exceeds(
                        #[trigger] similarity_of(text, questions[i]),
                        similarity_of(text, questions[k]),
                    ) by {
                        if i < last {
                            assert(similarity_of(text, questions[i]) == similarity_of(text, pre[i]));
                        }
                    }
                }
            },
        }
    }
}

/// A transcript that repeats a stored question, up to letter case,
/// punctuation and surrounding whitespace, is always matched to a stored
/// question (the first one that does at least as well).
pub proof fn lemma_repeated_question_matches(text: Seq<char>, questions: Seq<Seq<char>>, j: int)
    requires
        0 <= j < questions.len(),
        match_form(text) == match_form(questions[j]),
    ensures
        reference_match(text, questions) is Some,
{
    lemma_best_candidate_is_best(text, questions);
    assert(similarity_of(text, questions[j]) == (1int, 1int));
    match best_candidate(text, questions) {
        Some(k) => {
            lemma_similarity_range(text, questions[k]);
            assert(!exceeds(similarity_of(text, questions[j]), similarity_of(text, questions[k])));
        },
        None => {
            assert(similarity_of(text, questions[j]).0 == 0);
        },
    }
}

} // verus!
