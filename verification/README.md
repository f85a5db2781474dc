# Prana

A small CPU inference engine whose logic is verified with Verus: tensors, quantized
matrix products, attention, model files, tokenizers, sampling and the generation
loop.

## Arithmetic

The library carries single-precision numbers as bit patterns and rounds nothing
itself. Every function that computes with them takes one function, `calc`, that
computes each operation of `arith::Op`. Contracts speak of what `calc` computes, so
they hold of any arithmetic that always gives the same result, and what is proved
equal is equal to the last bit. `app/single.rs` is that function for the machine's
own floating point. Where a single is written as text, a second function, `show`,
writes it as a numeral.

A forward pass hands its work out piece by piece (`model::work`), so that `app/` can
share the outputs of a product among threads and time each part; the contracts say
that nothing of this shows in the logits.

## Layout

- `src/arith.rs`, `src/float_bits.rs`, `src/double_bits.rs`: singles, halves and
  doubles as bits.
- `src/tensor/`: element types, owned tensors, the buffer pool.
- `src/kernels/`: products, quantization, norms, rotary embedding, attention, and
  how work is shared among threads.
- `src/graph.rs`, `src/demo.rs`: the define-then-run graph, and a transformer block
  built with it.
- `src/model/`: checkpoint and GGUF files, tokenizers, the forward pass alone and as
  a team runs it, sampling and generation.
- `src/engine/`: sessions over a completion engine, with an in-process one.
- `src/cli.rs`, `src/bench.rs`: the command line, and what the benchmark measures.
- `app/`: the program around the library: files, threads, timing, and the engine's
  C calling convention. Built with `--cfg cactus_native` it calls the native engine's
  library instead of the in-process one.

Functions named `law_...` are the theorems that relate several functions, such as
that decoding with a cache gives the rows of full attention
(`kernels::attention::law_decode_is_attention_row`), that a forward pass reads
nothing behind its position (`model::infer::law_forward_is_causal`), that a team of
threads computes what one thread does, in whatever order its members take their steps
(`kernels::team_walk::law_a_team_computes_in_order`) and so gets the logits of a
forward pass (`model::team_pass::law_a_team_gives_the_logits_of_forward`), or that tokens are written as the
text they were made of (`model::bpe::law_decode_undoes_encode`).

## What is trusted

`char::from_u32`, `char::is_alphabetic`, `String::push`, `String::push_str`,
`String::from_utf8_lossy`, `u32::to_ne_bytes`, `u32::from_ne_bytes` and
`Vec::capacity` are used through contracts that are not proved; each says what it
claims where it stands.
