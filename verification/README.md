# cheat_parser

Slice searching, trimming and line splitting, and a reader for the text
format of N64 cheat-code lists, verified with Verus.

- `src/subseq.rs`: the `SliceSubsequence` trait (trim, search, split) for
  `&[T]` (any `T: PartialEq`), the `LineIterator`, and the spec functions they are stated over.
- `src/hex.rs`: `hex_to_u32`, base-16 number reading as C's `strtoul` does it
  with a 32-bit `unsigned long` (as on the N64): values past `u32::MAX` give
  `u32::MAX`, and only the bytes of the given slice are read.
- `src/cheats.rs`: `parse_cheats`, which fills the boot-time and in-game code
  tables, and `cheat_table_lens`, which says how much room they need.
- `src/laws.rs`: properties of trimming, splitting and parsing, proved.
- `app/lib.rs`: the C entry points used on the console.
