# vtt

Turns videos into structured text: speech is transcribed, frames are sampled
and described by a vision model, and both are merged into one timeline of
timestamped segments. A server runs the jobs; a client submits videos and
URLs, caches results and formats them.

## Layout

- `src/` is the library, written in Verus. Its functions carry contracts
  that Verus proves, apart from the trusted wrappers named below and the
  few whose results rest wholly on the disk or the environment: timestamp formatting and parsing, chunk planning,
  frame-metadata pairing and the frame cap, prompt and context assembly, the
  repetition cut, the per-chunk loop of a job (checkpoints restored or
  cleared, chunks processed and saved), the windows over which transcribed speech is checked
  for loops, configuration rules, the deep merge of a profile over
  the settings, the job table, cache keys, checkpoint
  names, the fidelity facts (numbers, labels, timeframes and their keys), the
  prominence of on-screen facts and the review sample and sheet.
  Properties that span several calls are stated as `pub proof fn lemma_*`.
- `tests/` exercises the library on concrete values.
- `app/` is the program around it: the command line, the HTTP server and
  client, ffmpeg, whisper, Ollama and yt-dlp processes, files, and the
  statistics over real numbers.

Calls into outside crates made by the library (SHA-256, base64, UUID text,
zlib, home directory, lowercase) go through small trusted wrappers whose contracts
are stated next to them.
