# speeko

An offline isolated-word speech recognizer whose integer and text logic is
verified with Verus.

- `src/` — the verified library:
  - `text` — characters of strings, Unicode trimming, line splitting,
    lexicographic order, decimal formatting;
  - `vocabulary` — the vocabulary file's words, membership, and the
    word/class-index map of the classifier;
  - `framing` — splitting a buffer into overlapping frames;
  - `vad` — the speech region of the voice activity detector from its
    per-frame decisions, and capping of over-long utterances;
  - `capture` — choice of the microphone stream configuration;
  - `store` — template file names, extensions, counts, ordering and the
    next sample index;
  - `averaging` — grouping templates by word and the median length;
  - `model` — classifier input layout, one-hot targets and mini-batches;
  - `augment` — the random augmentation plan, circular time shifts and
    frequency masking;
  - `commands` — confirmation answers, vocabulary coverage, per-word
    counts, recording names and the evaluation tally;
  - `error`, `config` — error messages and configuration defaults.
- `app/` — the command-line program: audio devices and WAV files, the
  floating-point signal processing (filters, FFT, MFCC, DTW, energies), the
  CNN classifier, file system access and configuration files.
- `tests/` — tests of the library.
