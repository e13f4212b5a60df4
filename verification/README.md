# pipetool

Composable pull streams of bytes, characters, numbers and groups of items,
verified with Verus.

A pipeline is a chain of stages. Each stage owns its input stream and pulls
from it when it is itself pulled. Every stage implements `stream::Stream`,
whose model states the kind of item a stream announces, the items it can
ever yield, a record of what it has returned, and (for streams that end) a
budget that bounds how many more items they return, whether it never ends,
and how many of its next pulls are sure to give an item.

Above all, each stage states in `Stream::step` exactly what one call of
`next` does, in terms of the `step` relation of the stage it pulls from, and
`next` ensures it. So what a whole pipeline returns follows from the
contracts: for example, a sequential merge of `Group::new(ToHex::new(..), 2)`
over two bytes `0x12` returns `1`, `1`, `2`, `2`, then `None`.

Over runs of calls (`stream::run`), the stages' whole-stream laws are proved:
`law_to_hex_stream`, `law_to_base64_stream`, `law_chars_to_bytes_stream`,
`law_decode_encoded_stream` (decoding what was encoded gives it back),
`law_merge_fold`, `law_merge_sequential`, `law_take_stream`,
`law_skip_stream`, and `law_in_stream` (`In` hands out every byte read, in
order, then `None`).

Layout of `src/`:

- `item.rs`: the items (`PipeType`) and the kinds they are announced by (`PipeTypeHint`).
- `stream.rs`: the `Stream` trait and the spec functions its contracts use.
- `codec.rs`: hexadecimal and Base64 digits, ASCII case folding, UTF-8 encoding of
  one character, with the UTF-8 laws.
- `source.rs`: `Discard`, `Pass`, `FromBytes` (the bytes of a list), and the generators.
- `convert.rs`: UTF-8 encoding and decoding stages and `coerce`.
- `text.rs`: `ToHex`, `ToLower`, `ToUpper`, `ToBase64`.
- `window.rs`: `Skip` and `Take`.
- `group.rs`: `Group`, `AlternatingMerge`, `SequentialMerge`.
- `ends.rs`: `In` (bytes read in blocks; the caller does the reading) and
  `Out` with `output` (what each item is written as; the caller does the writing).

`app/main.rs` copies standard input to standard output through `In` and `output`.
