# simple_bitset

A no-std 128-bit set of indices (`BitSet128`), stored as two `u64` words, with its
operations verified by Verus against a model of the set as a mathematical `Set<int>`.

- `src/word.rs`: bits of a single 64-bit word, and the population count of a word.
- `src/bitset128.rs`: `BitSet128`, its set operations, operators, conversions and iterator.
- `src/text.rs`: binary and hexadecimal renderings as ASCII digits.
- `src/laws.rs`: properties that relate several operations.
- `app/`: the serde form of the set and the std formatting and iterator traits, which
  delegate to the library.
