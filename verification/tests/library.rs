use sidekick::capture::{
    first_channel_samples, CaptureState, MAX_BUFFER_SAMPLES, PRE_ROLL_SAMPLES,
    SILENCE_TRIGGER_SAMPLES,
};
use sidekick::edit_distance::levenshtein_distance;
use sidekick::filler::is_noise_or_filler;
use sidekick::generation::{AnswerStream, MAX_ANSWER_TOKENS};
use sidekick::prompt::build_chat_prompt;
use sidekick::protocol::{
    decode_length_prefix, decode_sample_words, decode_text_reply, encode_audio_request,
    encode_text_reply, ReplyError,
};
use sidekick::sanitize::sanitize_computer_science_terms;
use sidekick::similarity::calculate_similarity;
use sidekick::think_filter::{is_think_tag, ThinkingFilter};
use sidekick::transcript::{
    accepted_answer, best_reference_match, is_potential_query, plan_transcript, ReferenceQA,
    TranscriptPlan,
};

fn feed(filter: &mut ThinkingFilter, token: &str) -> String {
    filter.process(token).concat()
}

fn qa(question: &str, answer: &str) -> ReferenceQA {
    ReferenceQA { question: question.to_string(), answer: answer.to_string() }
}

// ---- thinking filter ----

#[test]
fn think_span_split_across_tokens_is_removed() {
    let mut f = ThinkingFilter::new();
    assert_eq!(f.process("Hello <thi"), vec!["Hello ".to_string()]);
    assert_eq!(f.process("nk>secret</think> world"), vec![" world".to_string()]);
    assert_eq!(f.flush(), None);
}

#[test]
fn think_close_tag_split_across_tokens() {
    let mut f = ThinkingFilter::new();
    assert_eq!(feed(&mut f, "<think>xxxxxxxxxx</th"), "");
    assert_eq!(feed(&mut f, "ink>done"), "done");
    assert_eq!(f.flush(), None);
}

#[test]
fn unclosed_think_span_hides_the_rest() {
    let mut f = ThinkingFilter::new();
    assert_eq!(feed(&mut f, "a<think>b"), "a");
    assert_eq!(feed(&mut f, "more hidden text"), "");
    assert_eq!(f.flush(), None);
}

#[test]
fn held_back_tag_prefix_is_flushed() {
    let mut f = ThinkingFilter::new();
    assert_eq!(f.process("ok <th"), vec!["ok ".to_string()]);
    assert_eq!(f.flush(), Some("<th".to_string()));
}

#[test]
fn text_without_tags_passes_through() {
    let mut f = ThinkingFilter::new();
    assert_eq!(feed(&mut f, "café "), "café ");
    assert_eq!(feed(&mut f, "</think> stays"), "</think> stays");
    assert!(f.process("").is_empty());
    assert_eq!(f.flush(), None);
}

#[test]
fn stream_equals_stripped_concatenation() {
    let tokens = ["A <", "think", "> x </", "think> B <thin", "k>y</think>C", "<"];
    let mut f = ThinkingFilter::new();
    let mut shown = String::new();
    for t in tokens.iter() {
        shown.push_str(&feed(&mut f, t));
    }
    if let Some(rest) = f.flush() {
        shown.push_str(&rest);
    }
    assert_eq!(shown, "A  B C<");
}

// ---- answer stream ----

#[test]
fn answer_stream_stops_at_end_token_and_limit() {
    let mut a = AnswerStream::new();
    assert!(a.should_continue(true));
    assert!(!a.should_continue(false));
    let shown = a.accept(false, Some("<think>plan</think>Hi")).unwrap();
    assert_eq!(shown.concat(), "Hi");
    assert_eq!(a.accept(false, None), Some(vec![]));
    assert_eq!(a.accept(true, Some("ignored")), None);
    assert_eq!(a.finish(), None);

    let mut b = AnswerStream::new();
    for _ in 0..MAX_ANSWER_TOKENS {
        assert!(b.should_continue(true));
        b.accept(false, Some("x")).unwrap();
    }
    assert!(!b.should_continue(true));
}

// ---- edit distance ----

#[test]
fn levenshtein_known_values() {
    assert_eq!(levenshtein_distance("kitten", "sitting"), 3);
    assert_eq!(levenshtein_distance("", "abc"), 3);
    assert_eq!(levenshtein_distance("abc", ""), 3);
    assert_eq!(levenshtein_distance("abc", "abc"), 0);
    assert_eq!(levenshtein_distance("flaw", "lawn"), 2);
    assert_eq!(levenshtein_distance("café", "cafe"), 1);
}

#[test]
fn levenshtein_is_symmetric() {
    assert_eq!(levenshtein_distance("sunday", "saturday"), levenshtein_distance("saturday", "sunday"));
    assert_eq!(levenshtein_distance("sunday", "saturday"), 3);
}

// ---- similarity ----

fn ratio(a: &str, b: &str) -> (usize, usize) {
    let s = calculate_similarity(a, b);
    (s.numerator, s.denominator)
}

#[test]
fn similarity_values() {
    assert_eq!(ratio("What is a pointer?", "what is a pointer"), (1, 1));
    assert_eq!(ratio("what is an array", "what is an array in c"), (9, 10));
    assert_eq!(ratio("abcd", "abxd"), (3, 4));
    assert_eq!(ratio("", ""), (1, 1));
    assert_eq!(ratio("abc", ""), (9, 10));
    assert_eq!(ratio("kitten", "sitting"), (4, 7));
    assert_eq!(ratio("  HELLO, World!  ", "hello world"), (1, 1));
}

#[test]
fn similarity_is_symmetric_and_reflexive() {
    assert_eq!(ratio("kitten", "sitting"), ratio("sitting", "kitten"));
    assert_eq!(ratio("some question", "some question"), (1, 1));
}

#[test]
fn similarity_containment_needs_close_lengths() {
    let long = "what is a database and why does it matter so much";
    let s = calculate_similarity("database", long);
    assert_ne!((s.numerator, s.denominator), (9, 10));
    assert_eq!(s.denominator, long.len());
}

#[test]
fn similarity_exceeds_and_threshold() {
    let a = calculate_similarity("abcd", "abxd");
    let b = calculate_similarity("abcd", "axyd");
    assert!(a.exceeds(&b));
    assert!(!b.exceeds(&a));
    assert!(a.reaches_match_threshold());
    assert!(!b.reaches_match_threshold());
}

// ---- reference matching ----

#[test]
fn reference_match_picks_best_above_threshold() {
    let refs = vec![
        qa("What is a Primary Key?", "A unique identifier."),
        qa("Explain normalization", ""),
    ];
    assert_eq!(best_reference_match("what is a primary key", &refs), Some(0));
    assert_eq!(best_reference_match("hello there everyone", &refs), None);
    assert_eq!(best_reference_match("abcd", &[qa("abxd", "x")]), Some(0));
    assert_eq!(best_reference_match("abcd", &[qa("axyd", "x")]), None);
    assert_eq!(best_reference_match("anything", &[]), None);
}

#[test]
fn reference_match_keeps_first_of_equal_scores() {
    let refs = vec![qa("abxd", "first"), qa("abyd", "second")];
    assert_eq!(best_reference_match("abcd", &refs), Some(0));
}

// ---- query detection ----

#[test]
fn query_cues() {
    assert!(is_potential_query("WHAT is this"));
    assert!(is_potential_query("so?"));
    assert!(is_potential_query("Please describe the stack"));
    assert!(!is_potential_query("we begin the lecture"));
}

// ---- transcript planning ----

#[test]
fn plan_ignores_filler() {
    match plan_transcript("  okay.  ", &[]) {
        TranscriptPlan::Ignore { text } => assert_eq!(text, "okay."),
        _ => panic!("filler must be ignored"),
    }
}

#[test]
fn plan_answers_from_reference() {
    let refs = vec![qa("What is a Primary Key?", "A unique identifier.")];
    match plan_transcript("what is a primary key", &refs) {
        TranscriptPlan::Answered { question, answer } => {
            assert_eq!(question, "What is a Primary Key?");
            assert_eq!(answer, "A unique identifier.");
        }
        _ => panic!("expected a stored answer"),
    }
}

#[test]
fn plan_corrects_to_reference_without_answer() {
    let refs = vec![qa("explain normalization in databases", "   ")];
    match plan_transcript("explain normalisation in databases", &refs) {
        TranscriptPlan::Show { text, ask_model } => {
            assert_eq!(text, "explain normalization in databases");
            assert!(ask_model);
        }
        _ => panic!("expected a corrected question"),
    }
}

#[test]
fn plan_shows_and_asks_questions() {
    match plan_transcript("what is a painter in C", &[]) {
        TranscriptPlan::Show { text, ask_model } => {
            assert_eq!(text, "what is a pointer in C");
            assert!(ask_model);
        }
        _ => panic!("expected a question"),
    }
    match plan_transcript("we begin the lecture", &[]) {
        TranscriptPlan::Show { text, ask_model } => {
            assert_eq!(text, "we begin the lecture");
            assert!(!ask_model);
        }
        _ => panic!("expected plain text"),
    }
    match plan_transcript("what? really", &[]) {
        TranscriptPlan::Show { ask_model, .. } => assert!(!ask_model),
        _ => panic!("expected plain text"),
    }
}

#[test]
fn accepted_answer_rules() {
    assert_eq!(accepted_answer("  An answer.  ", true), Some("An answer.".to_string()));
    assert_eq!(accepted_answer("   ", true), None);
    assert_eq!(accepted_answer("An answer.", false), None);
}

// ---- sanitizing ----

#[test]
fn sanitize_terms() {
    assert_eq!(sanitize_computer_science_terms("N-A is an area of memory"), "an array is an array of memory");
    assert_eq!(sanitize_computer_science_terms("the painters were glasses"), "the pointers were classes");
    assert_eq!(sanitize_computer_science_terms("AREA, please"), "ARRAY, please");
    assert_eq!(sanitize_computer_science_terms("Areas."), "Arrays.");
    assert_eq!(sanitize_computer_science_terms("n a  list"), "an array list");
    assert_eq!(sanitize_computer_science_terms("N. A. list"), "an array list");
    assert_eq!(sanitize_computer_science_terms("n.a."), "an array");
    assert_eq!(sanitize_computer_science_terms("  hello   world  "), "hello world");
    assert_eq!(sanitize_computer_science_terms("Painter! Glass?"), "Pointer! Class?");
    assert_eq!(sanitize_computer_science_terms(""), "");
    assert_eq!(sanitize_computer_science_terms("areal"), "areal");
}

// ---- noise and filler ----

#[test]
fn noise_and_filler() {
    assert!(is_noise_or_filler(""));
    assert!(is_noise_or_filler("   \n"));
    assert!(is_noise_or_filler("*applause*"));
    assert!(is_noise_or_filler("[Music]"));
    assert!(is_noise_or_filler("(laughs)"));
    assert!(is_noise_or_filler("*"));
    assert!(is_noise_or_filler("-"));
    assert!(is_noise_or_filler(" ?! "));
    assert!(is_noise_or_filler("Thank you."));
    assert!(is_noise_or_filler("HELLO!"));
    assert!(is_noise_or_filler("all right"));
    assert!(!is_noise_or_filler("..."));
    assert!(!is_noise_or_filler("okay okay"));
    assert!(!is_noise_or_filler("What is a pointer?"));
    assert!(!is_noise_or_filler("é"));
    assert!(!is_noise_or_filler("7"));
}

// ---- worker protocol ----

#[test]
fn audio_request_bytes() {
    let bits = [1u32, 1.0f32.to_bits()];
    let req = encode_audio_request(&bits);
    assert_eq!(req, vec![2, 0, 0, 0, 1, 0, 0, 0, 0, 0, 0x80, 0x3f]);
    assert_eq!(decode_length_prefix(&req[0..4]), 2);
    assert_eq!(decode_sample_words(&req[4..]), bits.to_vec());
}

#[test]
fn audio_request_roundtrip_of_floats() {
    let samples = [0.5f32, -0.25, 0.0, 1.0e-3];
    let bits: Vec<u32> = samples.iter().map(|s| s.to_bits()).collect();
    let req = encode_audio_request(&bits);
    assert_eq!(decode_length_prefix(&req[0..4]), samples.len());
    let back: Vec<f32> = decode_sample_words(&req[4..]).into_iter().map(f32::from_bits).collect();
    assert_eq!(back, samples.to_vec());
    assert_eq!(encode_audio_request(&[]), vec![0, 0, 0, 0]);
    assert_eq!(decode_sample_words(&[1, 2, 3]), Vec::<u32>::new());
}

#[test]
fn text_reply_bytes_and_roundtrip() {
    let reply = encode_text_reply("hé");
    assert_eq!(reply, vec![3, 0, 0, 0, b'h', 0xc3, 0xa9]);
    assert_eq!(decode_length_prefix(&reply[0..4]), 3);
    match decode_text_reply(reply[4..].to_vec()) {
        Ok(s) => assert_eq!(s, "hé"),
        Err(_) => panic!("valid UTF-8 must decode"),
    }
}

#[test]
fn text_reply_rejects_invalid_utf8() {
    match decode_text_reply(vec![b'a', 0xff]) {
        Err(ReplyError::InvalidUtf8(e)) => assert_eq!(e.utf8_error().valid_up_to(), 1),
        Ok(_) => panic!("invalid UTF-8 must be refused"),
    }
}

// ---- prompt ----

#[test]
fn prompt_with_short_history() {
    let history = vec![("Q1".to_string(), "A1".to_string())];
    let p = build_chat_prompt("SYS", &history, "Q2");
    let expected = "<|im_start|>system\nSYS\n\nIMPORTANT: Write a direct, technically accurate, and clear answer of 2-3 sentences explaining the query. Start your answer directly with the explanation. Do not write any thinking process, internal monologue, greetings, or conversational filler.<|im_end|>\n<|im_start|>user\nQ1<|im_end|>\n<|im_start|>assistant\nA1<|im_end|>\n<|im_start|>user\nQ2<|im_end|>\n<|im_start|>assistant\n<think>\n</think>\n";
    assert_eq!(p, expected);
}

#[test]
fn prompt_keeps_only_latest_five_exchanges() {
    let history: Vec<(String, String)> =
        (1..=7).map(|i| (format!("question{}", i), format!("answer{}", i))).collect();
    let p = build_chat_prompt("S", &history, "now");
    assert!(!p.contains("question1<"));
    assert!(!p.contains("question2<"));
    for i in 3..=7 {
        assert!(p.contains(&format!("user\nquestion{}<|im_end|>", i)));
        assert!(p.contains(&format!("assistant\nanswer{}<|im_end|>", i)));
    }
    assert_eq!(p, build_chat_prompt("S", &history[2..], "now"));
}

// ---- capture segmentation ----

#[test]
fn silence_keeps_only_pre_roll() {
    let mut st: CaptureState<f32> = CaptureState::new();
    let block = vec![0.0f32; 10000];
    assert!(st.push_block(&block, true).is_none());
    assert!(st.push_block(&block, true).is_none());
    assert_eq!(st.buffered_audio.len(), PRE_ROLL_SAMPLES);
    assert!(!st.is_speaking);
    assert_eq!(st.silence_samples, 20000);
}

#[test]
fn speech_then_silence_yields_segment() {
    let mut st: CaptureState<i32> = CaptureState::new();
    assert!(st.push_block(&[1, 2, 3], false).is_none());
    assert!(st.is_speaking);
    let quiet = vec![0i32; SILENCE_TRIGGER_SAMPLES - 1];
    assert!(st.push_block(&quiet, true).is_none());
    let seg = st.push_block(&[9], true).expect("segment ends after the silence");
    assert_eq!(seg.len(), 3 + SILENCE_TRIGGER_SAMPLES);
    assert_eq!(&seg[0..3], &[1, 2, 3]);
    assert_eq!(*seg.last().unwrap(), 9);
    assert!(st.buffered_audio.is_empty());
    assert!(!st.is_speaking);
    assert_eq!(st.silence_samples, 0);
}

#[test]
fn long_speech_is_cut_at_max_buffer() {
    let mut st: CaptureState<u8> = CaptureState::new();
    let block = vec![1u8; 100000];
    assert!(st.push_block(&block, false).is_none());
    assert!(st.push_block(&block, false).is_none());
    let seg = st.push_block(&block, false).expect("buffer limit reached");
    assert_eq!(seg.len(), 300000);
    assert!(seg.len() >= MAX_BUFFER_SAMPLES);
    assert!(st.buffered_audio.is_empty());
}

#[test]
fn first_channel_extraction() {
    assert_eq!(first_channel_samples(&[1, 2, 3, 4, 5], 1, 2), vec![1, 3]);
    assert_eq!(first_channel_samples(&[1, 2, 3, 4, 5], 2, 2), vec![1, 2, 3, 4, 5]);
    assert_eq!(first_channel_samples(&[1, 2, 3], 1, 1), vec![1, 2, 3]);
    assert_eq!(first_channel_samples(&[1, 2, 3, 4, 5, 6], 1, 3), vec![1, 4]);
}

#[test]
fn think_span_with_multibyte_text_is_trimmed_safely() {
    let mut f = ThinkingFilter::new();
    assert_eq!(feed(&mut f, "<think>ééééé</th"), "");
    assert_eq!(feed(&mut f, "ink>ok"), "ok");
    assert_eq!(f.flush(), None);
}

#[test]
fn repeated_question_is_always_matched() {
    let refs = vec![qa("Define a foreign key.", "It refers to a key of another table."), qa("What is a Primary Key?", "A unique identifier.")];
    assert_eq!(best_reference_match("  WHAT is a primary key!! ", &refs), Some(1));
    assert_eq!(best_reference_match("define a FOREIGN key", &refs), Some(0));
}

#[test]
fn process_emits_one_piece_per_decided_stretch() {
    let mut f = ThinkingFilter::new();
    assert_eq!(f.process("Hello world"), vec!["Hello world".to_string()]);
    assert_eq!(f.flush(), None);

    let mut f = ThinkingFilter::new();
    assert_eq!(f.process("<think>\nreasoning\n</think>\nAnswer"), vec!["\nAnswer".to_string()]);
    assert_eq!(f.flush(), None);

    let mut f = ThinkingFilter::new();
    assert_eq!(f.process("Hi<th"), vec!["Hi".to_string()]);
    assert_eq!(f.process("ink>secret</think>ok"), vec!["ok".to_string()]);
    assert_eq!(f.flush(), None);

    let mut f = ThinkingFilter::new();
    assert!(f.process("<think>ab").is_empty());
    assert!(f.process("c</thi").is_empty());
    assert_eq!(f.process("nk>Done"), vec!["Done".to_string()]);
    assert_eq!(f.flush(), None);

    let mut f = ThinkingFilter::new();
    assert_eq!(
        f.process("a<think>b</think>c<think>d</think>e"),
        vec!["a".to_string(), "c".to_string(), "e".to_string()]
    );
}

fn run_filter(tokens: &[&str]) -> (String, Option<String>) {
    let mut f = ThinkingFilter::new();
    let mut shown = String::new();
    for t in tokens {
        shown.push_str(&feed(&mut f, t));
    }
    (shown, f.flush())
}

#[test]
fn filter_output_does_not_depend_on_token_boundaries() {
    let text = "Intro <think>plan the answer</think>Body <thi";
    let whole = run_filter(&[text]);
    let chars: Vec<char> = text.chars().collect();
    let singles: Vec<String> = chars.iter().map(|c| c.to_string()).collect();
    let single_refs: Vec<&str> = singles.iter().map(|s| s.as_str()).collect();
    assert_eq!(run_filter(&single_refs), whole);
    assert_eq!(run_filter(&["Intro <th", "ink>plan the", " answer</th", "ink>Body <t", "hi"]), whole);
    assert_eq!(whole, ("Intro Body ".to_string(), Some("<thi".to_string())));
}

#[test]
fn filter_ends_inside_span_exactly_when_unclosed() {
    let (shown, rest) = run_filter(&["a<think>b</think>c<think>d"]);
    assert_eq!((shown.as_str(), rest), ("ac", None));
    let (shown, rest) = run_filter(&["a<think>b</think>c"]);
    assert_eq!((shown.as_str(), rest), ("ac", None));
    let mut f = ThinkingFilter::new();
    f.process("x<think>y");
    f.process("z");
    assert_eq!(f.process(" w"), Vec::<String>::new());
}

#[test]
fn think_tags_of_the_vocabulary() {
    assert!(is_think_tag("<think>"));
    assert!(is_think_tag("</think>"));
    assert!(!is_think_tag("think"));
    assert!(!is_think_tag(" <think>"));
}

#[test]
fn noise_ignores_surrounding_space_and_ascii_case() {
    for text in ["  Thank you.  ", "okay", " [applause] ", "What is a pointer?", "-", "..."] {
        assert_eq!(is_noise_or_filler(text), is_noise_or_filler(text.trim()));
        assert_eq!(is_noise_or_filler(text), is_noise_or_filler(&text.to_ascii_uppercase()));
    }
}
