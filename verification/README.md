# token_processor

A streaming token processor for text that arrives chunk by chunk, such as the
output of a language model. It finds literal tag pairs such as
`<think>`/`</think>` in the stream, across chunk boundaries, and reports the
text around and inside them as soon as it is certain. Only text that could
still turn out to be the start of a tag is held back; where the stream is
split into chunks does not change the tags found, the text reported or the
state left behind.

The library is written in Verus and its behaviour is proved against contracts:

- `src/scanner.rs`: `Tag`, `Event`, `ScannerError` and `Scanner`, which turns
  chunks into raw text and tag events (`feed`, `finish`, `reset_buffer`).
- `src/lib.rs`: `TokenProcessor`, a scanner for a fixed set of tags.
- `src/token_processor.rs`: a processor that routes the text inside each
  registered tag to a `TagHandler` and hands the rest back to the caller.
- `src/matching.rs`: the leftmost-first search of the `aho_corasick` crate,
  what it is relied on to return, and which of its matches are settled while
  more text may still arrive.
- `src/text.rs`: string helpers and UTF-8 facts about byte offsets.

`app/` holds a command-line client that streams a completion from a local
Ollama server through the processor.
