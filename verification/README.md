# kompressor

Entropy coding for learned image codecs, verified with Verus.

The coder is a 64-bit rANS coder with sixteen-bit cumulative frequency tables. Each symbol
is coded by the table that its index names, and symbols without a slot of their own are
escaped and written as raw bits. No symbol depends on another, so a list of symbols can be
split into chunks that are coded apart, or thinned out by a mask that goes along.

## The library

| module | contents |
|---|---|
| `bytes` | little-endian words and numbers in byte strings |
| `rans` | the state machine: absorbing steps into the state and taking them out |
| `coder` | `encode_with_indexes` and `decode_with_indexes` |
| `varint` | unsigned LEB128 numbers |
| `mask` | `encode_mask` and `decode_mask` |
| `tables` | the tables of one model, kept for many calls |
| `chunks` | the bounds of chunks |
| `records`, `compare` | recordings of a reference coder, and the comparison with them |
| `coder_laws`, `size_laws`, `mask_laws`, `sparse_laws` | what holds across functions |

A function that is only defined on some inputs, such as `decode_with_indexes`, says so in
its precondition. Beside it stands a `checked_` function that takes any input and returns
an option or an error. Arithmetic overflow is outside the domain of every function.

What is proved, among other things:

- Decoding undoes encoding (`coder_laws::decoding_undoes_encoding`), also chunk by chunk
  (`chunks::chunk_is_coded_apart`) and for the symbols that a mask keeps
  (`sparse_laws::kept_symbols_are_transported`).
- Splitting a list costs four bytes or eight
  (`size_laws::splitting_costs_at_most_eight_bytes`).
- A coded mask is read back, whatever follows it (`mask_laws::mask_is_read_back`), and is
  never longer than a bitmap behind a nine-byte header (`mask_laws::mask_code_is_bounded`).

The one thing taken on trust is that `String::from_utf8` accepts exactly valid UTF-8 and
returns the characters that it encodes (`records::text_of`).

## The program

`app/` holds the command line and the Python bindings. Without an argument the program
times the coder on `data.bin` and `data_z.bin`, one thread and many, after checking that
the recorded bytes are reproduced exactly. With the argument `test_vectors` it runs the
test cases in `test_vectors.bin`.
