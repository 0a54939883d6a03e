# sidekick

A live lecture assistant: it listens to the computer's speaker output,
transcribes speech with a local Whisper model, answers questions with a local
language model, and shows both in a desktop window.

The decision-making core is a Verus-verified library (`src/`):

- `capture` – speech segmentation of 16 kHz audio (lead-in, silence and
  length limits) and first-channel extraction.
- `protocol` – the byte framing between the application and its
  speech-recognition worker, with round-trip proofs.
- `text` – character-level search, trimming, splitting, replacing and joining,
  and the Unicode classifications taken from std.
- `sanitize`, `filler` – repair of misheard terms and detection of noise.
- `edit_distance`, `similarity`, `transcript` – matching transcripts against
  stored reference questions and deciding what to do with each transcript.
- `prompt`, `think_filter`, `generation` – the model prompt, and the streamed
  answer with `<think>…</think>` spans removed.

`app/` holds the desktop program (Tauri commands, ScreenCaptureKit capture,
llama.cpp and whisper.cpp calls, file and process I/O, floating-point signal
processing).  `tests/` exercises the library.
