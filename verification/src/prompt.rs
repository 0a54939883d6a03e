//! The chat prompt given to the language model: the system instructions, the
//! most recent exchanges of the conversation, and the new question, in the
//! model's instruct template with an empty thinking block.
use vstd::prelude::*;
use vstd::string::StringExecFns;

verus! {

/// How many of the latest exchanges the prompt carries.
pub const HISTORY_LIMIT: usize = 5;

/// One past exchange as a user turn followed by an assistant turn.
pub open spec fn exchange_turns(question: Seq<char>, answer: Seq<char>) -> Seq<char> {
    "<|im_start|>user\n"@ + question + "<|im_end|>\n"@ + "<|im_start|>assistant\n"@ + answer
        + "<|im_end|>\n"@
}

/// The turns of a sequence of exchanges, oldest first.
pub open spec fn history_turns(history: Seq<(String, String)>) -> Seq<char>
    decreases history.len(),
{
    if history.len() == 0 {
        Seq::empty()
    } else {
        history_turns(history.drop_last()) + exchange_turns(
            history.last().0@,
            history.last().1@,
        )
    }
}

/// The latest `HISTORY_LIMIT` exchanges (all of them when there are fewer).
pub open spec fn recent_history(history: Seq<(String, String)>) -> Seq<(String, String)> {
    if history.len() > HISTORY_LIMIT {
        history.skip(history.len() - HISTORY_LIMIT)
    } else {
        history
    }
}

/// The full prompt for `question`.
pub open spec fn chat_prompt(
    system_prompt: Seq<char>,
    history: Seq<(String, String)>,
    question: Seq<char>,
) -> Seq<char> {
    "<|im_start|>system\n"@ + system_prompt
        + "\n\nIMPORTANT: Write a direct, technically accurate, and clear answer of 2-3 sentences explaining the query. Start your answer directly with the explanation. Do not write any thinking process, internal monologue, greetings, or conversational filler."@
        + "<|im_end|>\n"@ + history_turns(recent_history(history)) + "<|im_start|>user\n"@ + question
        + "<|im_end|>\n"@ + "<|im_start|>assistant\n<think>\n</think>\n"@
}

/// Once the conversation holds five exchanges, anything older has no effect
/// on the prompt.
pub proof fn lemma_older_history_ignored(
    system_prompt: Seq<char>,
    older: (String, String),
    history: Seq<(String, String)>,
    question: Seq<char>,
)
    requires
        history.len() >= 5,
    ensures
        chat_prompt(system_prompt, seq![older] + history, question) == chat_prompt(
            system_prompt,
            history,
            question,
        ),
{
    let longer = seq![older] + history;
    assert(recent_history(longer) =~= recent_history(history));
}

proof fn lemma_history_turns_append(a: Seq<(String, String)>, b: Seq<(String, String)>)
    ensures
        history_turns(a + b) == history_turns(a) + history_turns(b),
    decreases b.len(),
{
    if b.len() == 0 {
        assert(a + b =~= a);
        assert(history_turns(a) + history_turns(b) =~= history_turns(a));
    } else {
        lemma_history_turns_append(a, b.drop_last());
        assert((a + b).drop_last() =~= a + b.drop_last());
        assert((a + b).last() == b.last());
    }
}

/// While the conversation holds fewer than five exchanges, every one of them
/// reaches the prompt: an older exchange added in front lengthens it by
/// exactly that exchange's turns.
pub proof fn lemma_short_history_kept(
    system_prompt: Seq<char>,
    older: (String, String),
    history: Seq<(String, String)>,
    question: Seq<char>,
)
    requires
        history.len() < 5,
    ensures
        chat_prompt(system_prompt, seq![older] + history, question).len() == chat_prompt(
            system_prompt,
            history,
            question,
        ).len() + exchange_turns(older.0@, older.1@).len(),
{
    let longer = seq![older] + history;
    lemma_history_turns_append(seq![older], history);
    let one = seq![older];
    assert(one.drop_last() =~= Seq::<(String, String)>::empty());
    assert(one.last() == older);
    assert(history_turns(one.drop_last()) =~= Seq::<char>::empty());
    assert(history_turns(one) =~= exchange_turns(older.0@, older.1@));
}

/// Builds the prompt for `question` from the system instructions and the
/// conversation so far (only its latest `HISTORY_LIMIT` exchanges are used).
pub fn build_chat_prompt(system_prompt: &str, history: &[(String, String)], question: &str) -> (p:
    String)
    ensures
        p@ == chat_prompt(system_prompt@, history@, question@),
{
    let mut prompt = String::new();
    prompt.append("<|im_start|>system\n");
    prompt.append(system_prompt);
    prompt.append(
        "\n\nIMPORTANT: Write a direct, technically accurate, and clear answer of 2-3 sentences explaining the query. Start your answer directly with the explanation. Do not write any thinking process, internal monologue, greetings, or conversational filler.",
    );
    prompt.append("<|im_end|>\n");
    let ghost head = prompt@;
    let len = history.len();
    let start = if len > HISTORY_LIMIT {
        len - HISTORY_LIMIT
    } else {
        0
    };
    let ghost recent = recent_history(history@);
    assert(recent =~= history@.skip(start as int));
    let mut i: usize = start;
    assert(recent.take(0) =~= Seq::<(String, String)>::empty());
    while i < len
        invariant
            len == history@.len(),
            start <= i <= len,
            recent == history@.skip(start as int),
            prompt@ == head + history_turns(recent.take(i - start)),
        decreases len - i,
    {
        let ghost before = prompt@;
        prompt.append("<|im_start|>user\n");
        prompt.append(history[i].0.as_str());
        prompt.append("<|im_end|>\n");
        prompt.append("<|im_start|>assistant\n");
        prompt.append(history[i].1.as_str());
        prompt.append("<|im_end|>\n");
        let ghost taken = recent.take(i + 1 - start);
        assert(taken.drop_last() =~= recent.take(i - start));
        assert(taken.last() == history@[i as int]);
        assert(prompt@ =~= head + history_turns(taken));
        i = i + 1;
    }
    assert(recent.take(len - start) =~= recent);
    prompt.append("<|im_start|>user\n");
    prompt.append(question);
    prompt.append("<|im_end|>\n");
    prompt.append("<|im_start|>assistant\n<think>\n</think>\n");
    prompt
}

} // verus!
