# lzc

A lossless compressor, tuned for PCM audio, with a proof that it loses nothing.

- `src/` is the library, verified with Verus.
- `tests/` runs it on concrete values.
- `app/` is the command line tool: `lzc <compress|decompress> <input> <output>`.

## Layers

| Module | What it holds |
| --- | --- |
| `container` | the file format, `compress` and `decompress` |
| `block` | block types, the choice among them, the history that blocks share |
| `predictor` | the choice of a predictor by entropy |
| `filter`, `delta`, `sample`, `stereo`, `planar`, `predict` | reversible filters |
| `lzss`, `matcher` | LZSS and its match finder |
| `streams` | LZSS commands taken apart into three or four streams |
| `huffman`, `tree`, `canonical`, `bits` | Huffman coding |
| `optimal` | why no prefix code is shorter |
| `bytes`, `error` | little-endian numbers, reasons for refusing data |

## What is proved

`container::lemma_round_trip` states that decompressing a compressed input gives back the input.
`container::lemma_archive_len` bounds the size of the result. Each layer has a round-trip law of
its own, which these rest on. `optimal::lemma_shortest_code` states that no prefix code takes fewer
bits than the Huffman code, unless its tree is too deep for the longest code. Data that was not written by `compress` never makes `decompress`
panic: its contract says for every byte string what is appended to the output, and which error is
returned.

Entropies are floating-point numbers, which the library does not handle. It takes them as
integers of the same order, and `block::lemma_encoded_scaled` states that nothing but their order
counts. The round trip holds whatever they are.
