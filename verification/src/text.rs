//! Text renderings of a `BitSet128`: binary and upper-case hexadecimal digits, most
//! significant index first, as ASCII bytes.
use vstd::prelude::*;
use crate::bitset128::{BitSet128, words_set};
use crate::word::word_has;

verus! {

/// The ASCII digit `'1'` for a member and `'0'` for a non-member.
pub open spec fn bit_digit(b: bool) -> u8 {
    if b {
        0x31u8
    } else {
        0x30u8
    }
}

/// The 128 binary digits of `s`, index 127 first and index 0 last.
pub open spec fn binary_digits(s: Set<int>) -> Seq<u8> {
    Seq::new(128, |j: int| bit_digit(s.contains(127 - j)))
}

/// The prefix `"0b"` when `alternate` holds, and nothing otherwise.
pub open spec fn binary_prefix(alternate: bool) -> Seq<u8> {
    if alternate {
        seq![0x30u8, 0x62u8]
    } else {
        Seq::empty()
    }
}

/// The value of the four indices `4n..4n+4` of `s`, read as the bits of a number with
/// index `4n` as its least significant bit.
pub open spec fn nibble(s: Set<int>, n: int) -> int {
    (if s.contains(4 * n) { 1int } else { 0int }) + (if s.contains(4 * n + 1) { 2int } else { 0int })
        + (if s.contains(4 * n + 2) { 4int } else { 0int }) + (if s.contains(4 * n + 3) { 8int } else { 0int })
}

/// The upper-case ASCII hexadecimal digit of `v` in `0..16`.
pub open spec fn hex_digit(v: int) -> u8 {
    if v < 10 {
        (0x30 + v) as u8
    } else {
        (0x41 + v - 10) as u8
    }
}

/// The 32 upper-case hexadecimal digits of `s`, the nibble of indices `124..128` first.
pub open spec fn upper_hex_digits(s: Set<int>) -> Seq<u8> {
    Seq::new(32, |j: int| hex_digit(nibble(s, 31 - j)))
}

/// The prefix `"0x"` when `alternate` holds, and nothing otherwise.
pub open spec fn hex_prefix(alternate: bool) -> Seq<u8> {
    if alternate {
        seq![0x30u8, 0x78u8]
    } else {
        Seq::empty()
    }
}

/// Digit `j` of the binary digits of `s` is `'1'` exactly when index `127 - j` is a member.
pub proof fn lemma_binary_digits(s: Set<int>)
    ensures
        binary_digits(s) == Seq::new(
            128,
            |j: int|
                if s.contains(127 - j) {
                    0x31u8
                } else {
                    0x30u8
                },
        ),
{
    assert(binary_digits(s) =~= Seq::new(
        128,
        |j: int|
            if s.contains(127 - j) {
                0x31u8
            } else {
                0x30u8
            },
    ));
}

/// Digit `k` of the hexadecimal digits of `s` is the upper-case hexadecimal digit of the
/// sum of `2^b` over the `b` in `0..4` for which index `4 * (31 - k) + b` is a member.
pub proof fn lemma_upper_hex_digits(s: Set<int>)
    ensures
        upper_hex_digits(s) == Seq::new(
            32,
            |k: int|
                {
                    let n = 31 - k;
                    let v = (if s.contains(4 * n) { 1int } else { 0int }) + (if s.contains(
                        4 * n + 1,
                    ) {
                        2int
                    } else {
                        0int
                    }) + (if s.contains(4 * n + 2) { 4int } else { 0int }) + (if s.contains(
                        4 * n + 3,
                    ) {
                        8int
                    } else {
                        0int
                    });
                    if v < 10 {
                        (48 + v) as u8
                    } else {
                        (55 + v) as u8
                    }
                },
        ),
{
    assert(upper_hex_digits(s) =~= Seq::new(
        32,
        |k: int|
            {
                let n = 31 - k;
                let v = (if s.contains(4 * n) { 1int } else { 0int }) + (if s.contains(4 * n + 1) {
                    2int
                } else {
                    0int
                }) + (if s.contains(4 * n + 2) { 4int } else { 0int }) + (if s.contains(4 * n + 3) {
                    8int
                } else {
                    0int
                });
                if v < 10 {
                    (48 + v) as u8
                } else {
                    (55 + v) as u8
                }
            },
    ));
}

proof fn lemma_nibble_bits(w: u64, s: u64)
    requires
        s <= 60,
    ensures
        (w >> s) & 15u64 == ((w >> s) & 1u64) + 2 * ((w >> (s + 1) as u64) & 1u64) + 4 * ((w
            >> (s + 2) as u64) & 1u64) + 8 * ((w >> (s + 3) as u64) & 1u64),
        (w >> s) & 1u64 <= 1,
        (w >> (s + 1) as u64) & 1u64 <= 1,
        (w >> (s + 2) as u64) & 1u64 <= 1,
        (w >> (s + 3) as u64) & 1u64 <= 1,
{
    assert((w >> s) & 15u64 == ((w >> s) & 1u64) + 2 * ((w >> (s + 1) as u64) & 1u64) + 4 * ((w
        >> (s + 2) as u64) & 1u64) + 8 * ((w >> (s + 3) as u64) & 1u64)) by (bit_vector)
        requires
            s <= 60,
    ;
    assert((w >> s) & 1u64 <= 1) by (bit_vector);
    assert((w >> (s + 1) as u64) & 1u64 <= 1) by (bit_vector);
    assert((w >> (s + 2) as u64) & 1u64 <= 1) by (bit_vector);
    assert((w >> (s + 3) as u64) & 1u64 <= 1) by (bit_vector);
}

/// Appends the 64 binary digits of `w`, bit 63 first.
fn push_binary_word(out: &mut Vec<u8>, w: u64)
    ensures
        final(out)@ == old(out)@ + Seq::new(64, |j: int| bit_digit(word_has(w, 63 - j))),
{
    let ghost start = out@;
    let mut step: u64 = 0;
    while step < 64
        invariant
            step <= 64,
            out@ == start + Seq::new(step as nat, |j: int| bit_digit(word_has(w, 63 - j))),
        decreases 64 - step,
    {
        let i: u64 = 63 - step;
        let val = (w >> i) & 1;
        if val == 1 {
            out.push(0x31u8);
        } else {
            out.push(0x30u8);
        }
        assert(out@ =~= start + Seq::new((step + 1) as nat, |j: int| bit_digit(word_has(w, 63 - j))));
        step = step + 1;
    }
}

/// Appends the 16 upper-case hexadecimal digits of `w`, its top nibble first.
fn push_hex_word(out: &mut Vec<u8>, w: u64)
    ensures
        final(out)@ == old(out)@ + Seq::new(
            16,
            |j: int| hex_digit(nibble(words_set(w, 0), 15 - j)),
        ),
{
    let ghost start = out@;
    let ghost ws = words_set(w, 0);
    let mut step: u64 = 0;
    while step < 16
        invariant
            step <= 16,
            ws == words_set(w, 0),
            out@ == start + Seq::new(step as nat, |j: int| hex_digit(nibble(ws, 15 - j))),
        decreases 16 - step,
    {
        let shift: u64 = 4 * (15 - step);
        let v = (w >> shift) & 15;
        proof {
            lemma_nibble_bits(w, shift);
            let n = 15 - step;
            assert(ws.contains(4 * n) == word_has(w, 4 * n));
            assert(ws.contains(4 * n + 1) == word_has(w, 4 * n + 1));
            assert(ws.contains(4 * n + 2) == word_has(w, 4 * n + 2));
            assert(ws.contains(4 * n + 3) == word_has(w, 4 * n + 3));
            assert(v == nibble(ws, n));
        }
        let digit: u8 = if v < 10 {
            0x30u8 + (v as u8)
        } else {
            0x41u8 + ((v - 10) as u8)
        };
        out.push(digit);
        assert(out@ =~= start + Seq::new((step + 1) as nat, |j: int| hex_digit(nibble(ws, 15 - j))));
        step = step + 1;
    }
}

impl BitSet128 {
    /// The binary rendering of the set: index 127 first and index 0 last, `'1'` for a member
    /// and `'0'` otherwise, after the prefix `"0b"` when `alternate` holds.
    pub fn binary_text(&self, alternate: bool) -> (r: Vec<u8>)
        ensures
            r@ == binary_prefix(alternate) + binary_digits(self@),
            r@.len() == if alternate { 130int } else { 128int },
            alternate ==> r@[0] == 0x30u8 && r@[1] == 0x62u8,
            r@.subrange(r@.len() - 128, r@.len() as int) == Seq::new(
                128,
                |j: int|
                    if self@.contains(127 - j) {
                        0x31u8
                    } else {
                        0x30u8
                    },
            ),
    {
        let mut out: Vec<u8> = Vec::new();
        if alternate {
            out.push(0x30u8);
            out.push(0x62u8);
        }
        let (low, high) = self.to_words();
        push_binary_word(&mut out, high);
        push_binary_word(&mut out, low);
        assert(out@ =~= binary_prefix(alternate) + binary_digits(self@));
        proof {
            lemma_binary_digits(self@);
            assert(out@.subrange(out@.len() - 128, out@.len() as int) =~= binary_digits(self@));
        }
        out
    }

    /// The upper-case hexadecimal rendering of the set: 32 digits, the nibble of indices
    /// `124..128` first, after the prefix `"0x"` when `alternate` holds.
    pub fn upper_hex_text(&self, alternate: bool) -> (r: Vec<u8>)
        ensures
            r@ == hex_prefix(alternate) + upper_hex_digits(self@),
            r@.len() == if alternate { 34int } else { 32int },
            alternate ==> r@[0] == 0x30u8 && r@[1] == 0x78u8,
            r@.subrange(r@.len() - 32, r@.len() as int) == Seq::new(
                32,
                |k: int|
                    {
                        let n = 31 - k;
                        let v = (if self@.contains(4 * n) { 1int } else { 0int }) + (if self@.contains(
                            4 * n + 1,
                        ) {
                            2int
                        } else {
                            0int
                        }) + (if self@.contains(4 * n + 2) { 4int } else { 0int }) + (
                        if self@.contains(4 * n + 3) {
                            8int
                        } else {
                            0int
                        });
                        if v < 10 {
                            (48 + v) as u8
                        } else {
                            (55 + v) as u8
                        }
                    },
            ),
    {
        let mut out: Vec<u8> = Vec::new();
        if alternate {
            out.push(0x30u8);
            out.push(0x78u8);
        }
        let (low, high) = self.to_words();
        push_hex_word(&mut out, high);
        push_hex_word(&mut out, low);
        proof {
            let s = self@;
            assert forall|n: int| 0 <= n < 16 implies nibble(words_set(high, 0), n) == nibble(
                s,
                n + 16,
            ) by {}
            assert forall|n: int| 0 <= n < 16 implies nibble(words_set(low, 0), n) == nibble(
                s,
                n,
            ) by {}
        }
        assert(out@ =~= hex_prefix(alternate) + upper_hex_digits(self@));
        proof {
            lemma_upper_hex_digits(self@);
            assert(out@.subrange(out@.len() - 32, out@.len() as int) =~= upper_hex_digits(self@));
        }
        out
    }
}

} // verus!
