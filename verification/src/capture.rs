//! Turning captured audio into speech segments.
//!
//! Blocks of 16 kHz mono samples arrive one after another, each marked as
//! silence or not.  Samples are buffered while someone speaks; a segment is
//! handed on for transcription once the speaker has been silent for 1.5 s or
//! the buffer holds 15 s.  While nobody has spoken, only the latest second
//! is kept, so that a segment starts with a little lead-in.
use vstd::prelude::*;

verus! {

/// Samples kept ahead of speech (one second at 16 kHz).
pub const PRE_ROLL_SAMPLES: usize = 16000;

/// Silence after speech that ends a segment (1.5 s at 16 kHz).
pub const SILENCE_TRIGGER_SAMPLES: usize = 24000;

/// Buffer length that ends a segment regardless (15 s at 16 kHz).
pub const MAX_BUFFER_SAMPLES: usize = 240000;

/// The abstract state of speech segmentation.
pub struct SegmenterView<S> {
    pub buffered: Seq<S>,
    pub speaking: bool,
    pub silence: int,
}

impl<S> SegmenterView<S> {
    /// What segmentation keeps true between blocks: the buffer is below the
    /// segment limit, and before speech it holds at most the lead-in.
    pub open spec fn bounded(self) -> bool {
        &&& self.buffered.len() < MAX_BUFFER_SAMPLES
        &&& !self.speaking ==> self.buffered.len() <= PRE_ROLL_SAMPLES
    }
}

/// The samples kept after `joined` arrives: all of them once speech has
/// begun, otherwise only the latest `PRE_ROLL_SAMPLES`.
pub open spec fn kept_samples<S>(joined: Seq<S>, speaking: bool) -> Seq<S> {
    if !speaking && joined.len() > PRE_ROLL_SAMPLES {
        joined.skip(joined.len() - PRE_ROLL_SAMPLES)
    } else {
        joined
    }
}

/// One block through segmentation: the next state, and the segment handed
/// on, if any.
pub open spec fn segment_step<S>(state: SegmenterView<S>, block: Seq<S>, is_silence: bool) -> (
    SegmenterView<S>,
    Option<Seq<S>>,
) {
    let speaking = state.speaking || !is_silence;
    let silence = if is_silence {
        state.silence + block.len()
    } else {
        0
    };
    let kept = kept_samples(state.buffered + block, speaking);
    if (speaking && silence >= SILENCE_TRIGGER_SAMPLES) || kept.len() >= MAX_BUFFER_SAMPLES {
        (SegmenterView { buffered: Seq::empty(), speaking: false, silence: 0 }, Some(kept))
    } else {
        (SegmenterView { buffered: kept, speaking, silence }, None)
    }
}

/// Segmentation keeps its state bounded, whatever block arrives.
pub proof fn lemma_segment_step_bounded<S>(
    state: SegmenterView<S>,
    block: Seq<S>,
    is_silence: bool,
)
    requires
        state.bounded(),
    ensures
        segment_step(state, block, is_silence).0.bounded(),
{
}

/// Once someone is speaking, no sample is dropped: the block is appended,
/// and a segment handed on is exactly the buffer followed by the block.
pub proof fn lemma_speech_kept_whole<S>(state: SegmenterView<S>, block: Seq<S>, is_silence: bool)
    requires
        state.speaking || !is_silence,
    ensures
        ({
            let (next, segment) = segment_step(state, block, is_silence);
            match segment {
                Some(seg) => seg == state.buffered + block,
                None => next.buffered == state.buffered + block,
            }
        }),
{
}

/// A block that is not silence resets the silence count: after it, no
/// silent samples are counted, whatever came before.
pub proof fn lemma_speech_resets_silence<S>(state: SegmenterView<S>, block: Seq<S>)
    ensures
        segment_step(state, block, false).0.silence == 0,
{
}

/// A pause shorter than `SILENCE_TRIGGER_SAMPLES` right after speech never
/// ends a segment while the buffer stays under `MAX_BUFFER_SAMPLES`, however
/// much silence came before the speech: both blocks are appended.
pub proof fn lemma_short_pause_keeps_buffering<S>(
    state: SegmenterView<S>,
    speech: Seq<S>,
    pause: Seq<S>,
)
    requires
        state.buffered.len() + speech.len() + pause.len() < MAX_BUFFER_SAMPLES,
        pause.len() < SILENCE_TRIGGER_SAMPLES,
    ensures
        ({
            let (mid, first) = segment_step(state, speech, false);
            let (next, second) = segment_step(mid, pause, true);
            &&& first is None
            &&& second is None
            &&& next.speaking
            &&& next.buffered == state.buffered + speech + pause
        }),
{
    let (mid, first) = segment_step(state, speech, false);
    assert(mid.buffered == state.buffered + speech);
    assert(mid.buffered + pause == state.buffered + speech + pause);
}

/// Before anyone speaks, a silent block leaves only the latest second
/// (16000 samples) of everything heard, and hands nothing on.
pub proof fn lemma_lead_in_kept<S>(state: SegmenterView<S>, block: Seq<S>)
    requires
        !state.speaking,
    ensures
        ({
            let joined = state.buffered + block;
            let (next, segment) = segment_step(state, block, true);
            &&& segment is None
            &&& !next.speaking
            &&& next.buffered.len() == if joined.len() > 16000 {
                16000
            } else {
                joined.len()
            }
            &&& next.buffered == joined.skip(joined.len() - next.buffered.len())
        }),
{
    let joined = state.buffered + block;
    if joined.len() <= 16000 {
        assert(joined.skip(0) =~= joined);
    }
}

/// Once someone has spoken, silence that reaches 1.5 s (24000 samples)
/// hands on everything buffered, the silent block included, and starts
/// afresh.
pub proof fn lemma_pause_ends_segment<S>(state: SegmenterView<S>, block: Seq<S>)
    requires
        state.speaking,
        state.silence + block.len() >= 24000,
    ensures
        ({
            let (next, segment) = segment_step(state, block, true);
            &&& segment == Some(state.buffered + block)
            &&& next.buffered.len() == 0
            &&& !next.speaking
            &&& next.silence == 0
        }),
{
}

/// Speech that fills the buffer to 15 s (240000 samples) is handed on whole,
/// however recently it was heard.
pub proof fn lemma_full_buffer_ends_segment<S>(
    state: SegmenterView<S>,
    block: Seq<S>,
    is_silence: bool,
)
    requires
        state.speaking || !is_silence,
        state.buffered.len() + block.len() >= 240000,
    ensures
        segment_step(state, block, is_silence).1 == Some(state.buffered + block),
{
}

/// Speech segmentation state: the buffered samples, whether speech has been
/// heard since the last segment, and how many silent samples followed.
pub struct CaptureState<S> {
    pub buffered_audio: Vec<S>,
    pub is_speaking: bool,
    pub silence_samples: usize,
}

impl<S> View for CaptureState<S> {
    type V = SegmenterView<S>;

    open spec fn view(&self) -> SegmenterView<S> {
        SegmenterView {
            buffered: self.buffered_audio@,
            speaking: self.is_speaking,
            silence: self.silence_samples as int,
        }
    }
}

impl<S: Copy> CaptureState<S> {
    /// Nothing buffered, nobody speaking.
    pub fn new() -> (st: Self)
        ensures
            st@.buffered.len() == 0,
            !st@.speaking,
            st@.silence == 0,
            st@.bounded(),
    {
        CaptureState { buffered_audio: Vec::new(), is_speaking: false, silence_samples: 0 }
    }

    /// Takes in one block of samples and returns the finished segment, if
    /// this block completes one.
    pub fn push_block(&mut self, block: &[S], is_silence: bool) -> (segment: Option<Vec<S>>)
        requires
            is_silence ==> old(self).silence_samples + block@.len() <= usize::MAX,
        ensures
            ({
                let (next, seg) = segment_step(old(self)@, block@, is_silence);
                &&& final(self)@ == next
                &&& match segment {
                    Some(v) => seg == Some(v@),
                    None => seg is None,
                }
            }),
    {
        let ghost before = self@;
        let mut joined: Vec<S> = Vec::new();
        let mut i: usize = 0;
        while i < self.buffered_audio.len()
            invariant
                0 <= i <= self.buffered_audio@.len(),
                joined@ == self.buffered_audio@.take(i as int),
            decreases self.buffered_audio@.len() - i,
        {
            joined.push(self.buffered_audio[i]);
            assert(self.buffered_audio@.take(i + 1) =~= self.buffered_audio@.take(i as int).push(
                self.buffered_audio@[i as int],
            ));
            i = i + 1;
        }
        assert(self.buffered_audio@.take(i as int) =~= self.buffered_audio@);
        let mut k: usize = 0;
        while k < block.len()
            invariant
                0 <= k <= block@.len(),
                joined@ == before.buffered + block@.take(k as int),
            decreases block@.len() - k,
        {
            joined.push(block[k]);
            assert(block@.take(k + 1) =~= block@.take(k as int).push(block@[k as int]));
            k = k + 1;
        }
        assert(block@.take(k as int) =~= block@);
        let speaking = self.is_speaking || !is_silence;
        let silence = if is_silence {
            self.silence_samples + block.len()
        } else {
            0
        };
        let kept = if !speaking && joined.len() > PRE_ROLL_SAMPLES {
            let from = joined.len() - PRE_ROLL_SAMPLES;
            let mut tail: Vec<S> = Vec::new();
            let mut j: usize = from;
            while j < joined.len()
                invariant
                    from <= j <= joined@.len(),
                    tail@ == joined@.subrange(from as int, j as int),
                decreases joined@.len() - j,
            {
                tail.push(joined[j]);
                assert(joined@.subrange(from as int, j + 1) =~= joined@.subrange(
                    from as int,
                    j as int,
                ).push(joined@[j as int]));
                j = j + 1;
            }
            assert(tail@ =~= joined@.skip(from as int));
            tail
        } else {
            joined
        };
        if (speaking && silence >= SILENCE_TRIGGER_SAMPLES) || kept.len() >= MAX_BUFFER_SAMPLES {
            self.buffered_audio = Vec::new();
            self.is_speaking = false;
            self.silence_samples = 0;
            assert(self@.buffered =~= Seq::<S>::empty());
            Some(kept)
        } else {
            self.buffered_audio = kept;
            self.is_speaking = speaking;
            self.silence_samples = silence;
            None
        }
    }
}

/// The samples of each frame's first channel, when `samples` holds frames
/// of `channels` interleaved samples (a trailing partial frame is dropped).
pub open spec fn first_of_frames<S>(samples: Seq<S>, channels: int) -> Seq<S> {
    Seq::new((samples.len() as int / channels) as nat, |i: int| samples[i * channels])
}

/// The first channel's samples out of the first audio buffer of a captured
/// block: with one buffer per channel (non-interleaved) or a single channel
/// the buffer already is that channel; otherwise it holds interleaved frames.
pub open spec fn first_channel<S>(first_buffer: Seq<S>, num_buffers: int, channels: int) -> Seq<S> {
    if (num_buffers >= channels && channels > 1) || channels == 1 {
        first_buffer
    } else {
        first_of_frames(first_buffer, channels)
    }
}

/// Two channels sample by sample in one buffer: `left[0]`, `right[0]`,
/// `left[1]`, `right[1]`, and so on.
pub open spec fn interleave<S>(left: Seq<S>, right: Seq<S>) -> Seq<S> {
    Seq::new(
        (2 * left.len()) as nat,
        |i: int|
            if i % 2 == 0 {
                left[i / 2]
            } else {
                right[i / 2]
            },
    )
}

/// From one buffer of two interleaved channels the first channel comes back
/// whole and in order.
pub proof fn lemma_first_channel_of_interleaved<S>(left: Seq<S>, right: Seq<S>)
    requires
        left.len() == right.len(),
    ensures
        first_channel(interleave(left, right), 1, 2) == left,
{
    let s = interleave(left, right);
    let r = first_of_frames(s, 2);
    assert(r.len() == left.len());
    assert forall|i: int| 0 <= i < left.len() implies #[trigger] r[i] == left[i] by {
        assert((i * 2) % 2 == 0 && (i * 2) / 2 == i);
    }
    assert(r =~= left);
}

/// Extracts the first channel's samples from the first buffer of a block.
pub fn first_channel_samples<S: Copy>(first_buffer: &[S], num_buffers: usize, channels: usize) -> (r:
    Vec<S>)
    requires
        channels > 0,
    ensures
        r@ == first_channel(first_buffer@, num_buffers as int, channels as int),
{
    let len = first_buffer.len();
    let whole = (num_buffers >= channels && channels > 1) || channels == 1;
    let mut out: Vec<S> = Vec::new();
    if whole {
        let mut i: usize = 0;
        while i < len
            invariant
                len == first_buffer@.len(),
                0 <= i <= len,
                out@ == first_buffer@.take(i as int),
            decreases len - i,
        {
            out.push(first_buffer[i]);
            assert(first_buffer@.take(i + 1) =~= first_buffer@.take(i as int).push(
                first_buffer@[i as int],
            ));
            i = i + 1;
        }
        assert(first_buffer@.take(len as int) =~= first_buffer@);
        return out;
    }
    let mut j: usize = 0;
    assert(out@.len() == 0);
    assert(0 * (channels as int) == 0) by (nonlinear_arith);
    while len - j >= channels
        invariant
            len == first_buffer@.len(),
            channels > 0,
            j <= len,
            j == out@.len() * channels,
            forall|k: int| 0 <= k < out@.len() ==> out@[k] == first_buffer@[k * channels],
        decreases len - j,
    {
        let ghost n = out@.len();
        out.push(first_buffer[j]);
        assert((n + 1) * channels == n * channels + channels) by (nonlinear_arith);
        j = j + channels;
    }
    let ghost n = out@.len() as int;
    assert(n == len as int / channels as int) by (nonlinear_arith)
        requires
            n * channels <= len,
            len < n * channels + channels,
            channels > 0,
            n >= 0,
    ;
    assert(out@ =~= first_of_frames(first_buffer@, channels as int));
    out
}

} // verus!
