# solana_anchor_events

Decodes Anchor 0.30+ program events out of Solana transaction log lines. The
decoder reads an Anchor IDL (layout `0.1.0`, or the older one) at run time with
the `anchor-lang-idl` crate, walks its types, and decodes the Borsh bytes of
events into plain values. The library is verified with Verus; a thin Python
extension module around it is not.

```python
from solana_anchor_events import EventDecoder

dec = EventDecoder(open("idl.json").read())   # raw IDL JSON
events = dec.parse_logs(tx_log_lines)          # list[tuple[str, dict | list]]
print(dec.event_names)                         # in the order of the IDL
```

`parse_logs` takes lines like `Program data: <base64>` or
`Program log: <base64>`, skips everything that is not a recognizable event, and
never raises over a batch. Each event is a tuple of its name and its fields: a
dict, empty where there are none, or a list for a struct with unnamed fields.

## Layout

| Path | What it holds |
| --- | --- |
| `src/decoder.rs` | `EventDecoder`: the executable decoder |
| `src/anchor.rs` | the IDL as `anchor-lang-idl` parses it, taken over into `src/idl.rs` |
| `src/cursor.rs` | the cursor over a byte buffer |
| `src/value.rs`, `src/error.rs` | decoded values, and why there is none |
| `src/numbers.rs`, `src/text.rs`, `src/base58.rs` | integers, UTF-8, base64, base58 |
| `src/borsh.rs`, `src/events.rs` | what bytes, IDLs and log lines mean |
| `src/encoding.rs` | the Borsh bytes of typed values; decoding gives the values back |
| `src/writable.rs` | everything that decodes is such a value |
| `src/guard.rs` | exactly the values without an end are refused as such |
| `src/progress.rs`, `src/locality.rs`, `src/proper.rs` | which bytes a value depends on; keys of dictionaries |
| `src/laws.rs` | what holds of decoders and of whole logs |
| `app/lib.rs` | the Python extension module |

A definition that contains itself with no byte in between has no finite value.
Decoding one is an error like any other, so that an event of such a type is
skipped.

Floating-point values are carried as their bits, and 256-bit integers as their
bytes; the extension module makes Python numbers of them.

## What is taken on trust

The contracts of the functions marked `external_body` in `src/anchor.rs`,
`src/text.rs` and `src/base58.rs`: `anchor_lang_idl::convert::convert_idl`, base64's
`STANDARD.decode`, `bs58::encode`, `str::trim`, `str::strip_prefix` and
`std::str::from_utf8`.
