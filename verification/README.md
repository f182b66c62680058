# bebelm

Local CPU inference for Liquid AI's LFM2.5-8B-A1B (a mixture-of-experts decoder) from GGUF
weights. Everything that decides or computes on integers, bytes and text is a verified
library; the floating-point forward pass, the read-only file mapping and the command-line
program sit around it. For the ColBERT and EmbeddingGemma encoders the library holds only
their tensor contracts, metadata checks, tokenizers and input packing: their float forward
passes are not part of this project, and nothing here runs them.

## Layout

- `src/` — the library, verified with Verus. Each public function states what it returns in
  its `ensures`; public `lemma_*` proof functions state the laws that relate several calls.
  - Containers and formats: `gguf` (the GGUF container parser), `tensor` (GGML block
    sizes), `dequant` and `quant_dot` (K-quant unpacking, f16 bit conversion, exact int8
    block dots).
  - Models: `config`, `model`, `architecture`, `colbert`, `gemma`, `gemma_inputs` (tensor
    contracts, metadata checks, context fitting and batch packing), `cache` (the KV window
    and its eviction).
  - Text: `tokenizer` and `bpe` (byte-level BPE with the LFM2 pre-tokenizer), `sentencepiece`
    and `byte_token` (the EmbeddingGemma tokenizer), `index` (string-keyed hash indexes),
    `text`, `chatml`.
  - Generation: `agent` (the decoding loop's decisions and the transcript), `sampling`
    (xorshift64*, top-k candidates, presence penalty), `events` (the stream state machine),
    `tool` (tool declarations and the call parser).
  - Clients: `cli` (option parsing), `chat_view` and `tui` (what the terminal client shows).
- `tests/` — tests run against the compiled library.
- `app/` — the `bebelm` program: memory-mapped weights, the float kernels and forward pass,
  the sampler's float arithmetic, and the `generate` / `chat` commands.
