//! The decisions of the answer-generation loop: how long to keep sampling,
//! when the model has finished, and which text reaches the listener.
use vstd::prelude::*;
use crate::think_filter::{
    concat_strings, decided_pieces, piece_views, process_step, FilterState, ThinkingFilter,
};

verus! {

/// The most tokens one answer may take.
pub const MAX_ANSWER_TOKENS: usize = 1024;

/// The abstract state of an answer being generated.
pub struct AnswerView {
    pub generated: int,
    pub filter: FilterState,
}

/// One answer being streamed: how many tokens it has taken, and the filter
/// that keeps its thinking out of view.
pub struct AnswerStream {
    generated: usize,
    filter: ThinkingFilter,
}

impl View for AnswerStream {
    type V = AnswerView;

    closed spec fn view(&self) -> AnswerView {
        AnswerView { generated: self.generated as int, filter: self.filter@ }
    }
}

impl AnswerStream {
    /// An answer with no tokens yet.
    pub fn new() -> (a: Self)
        ensures
            a@.generated == 0,
            a@.filter.pending.len() == 0,
            !a@.filter.in_think,
    {
        AnswerStream { generated: 0, filter: ThinkingFilter::new() }
    }

    /// Whether to sample another token: the answer is under its token limit
    /// and its generation has not been superseded by a newer question.
    pub fn should_continue(&self, still_current: bool) -> (r: bool)
        ensures
            r == (self@.generated < MAX_ANSWER_TOKENS && still_current),
    {
        self.generated < MAX_ANSWER_TOKENS && still_current
    }

    /// Takes one sampled token.  At the end-of-sequence token the answer is
    /// complete and `None` is returned.  Otherwise the token counts against
    /// the limit, its text (when the model could render it) goes through the
    /// thinking filter, and the pieces to show are returned.
    pub fn accept(&mut self, is_end: bool, piece: Option<&str>) -> (shown: Option<Vec<String>>)
        requires
            old(self)@.generated < MAX_ANSWER_TOKENS,
        ensures
            is_end ==> shown is None && final(self)@ == old(self)@,
            !is_end ==> shown is Some && final(self)@.generated == old(self)@.generated + 1,
            !is_end ==> match piece {
                Some(p) => process_step(
                    old(self)@.filter,
                    p@,
                    concat_strings(shown->0@),
                    final(self)@.filter,
                ) && piece_views(shown->0@) == decided_pieces(
                    old(self)@.filter.pending + p@,
                    old(self)@.filter.in_think,
                ),
                None => shown->0@.len() == 0 && final(self)@.filter == old(self)@.filter,
            },
    {
        if is_end {
            return None;
        }
        let pieces = match piece {
            Some(p) => self.filter.process(p),
            None => Vec::new(),
        };
        self.generated = self.generated + 1;
        Some(pieces)
    }

    /// Ends the answer: the text the filter still holds back, if it is to be
    /// shown.
    pub fn finish(self) -> (rest: Option<String>)
        ensures
            match rest {
                Some(p) => p@ == self@.filter.shows(Seq::empty()) && p@.len() > 0,
                None => self@.filter.shows(Seq::empty()).len() == 0,
            },
    {
        let AnswerStream { generated: _, filter } = self;
        filter.flush()
    }
}

} // verus!
