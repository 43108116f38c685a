//! The escape decoder for character literals: table-free dispatch on the
//! byte after `\`, octal and hex digit runs, and fixed-width universal
//! escapes.  Every decoder states exactly which bytes it consumes and which
//! code it computes; insufficient input for a fixed-width escape yields
//! zero, and a truncated run simply stops, never failing.

use crate::ascii::{APOS, BSLASH, D0, D7, D9, LO_A, LO_B, LO_F, LO_N, LO_R, LO_T, LO_U, LO_V, LO_X,
    QMARK, QUOTE, UP_A, UP_F, UP_U};
use crate::lexer::{Lexer, Token};
use vstd::prelude::*;

verus! {

/// An octal digit.
pub open spec fn spec_oct_digit(c: u8) -> bool {
    D0 <= c && c <= D7
}

/// The value of a hex digit, or 16 for any other byte.
pub open spec fn hex_num(c: u8) -> int {
    if D0 <= c && c <= D9 {
        (c - D0) as int
    } else if LO_A <= c && c <= LO_F {
        (c - LO_A + 10) as int
    } else if UP_A <= c && c <= UP_F {
        (c - UP_A + 10) as int
    } else {
        16
    }
}

/// How many octal digits stand at `pos`, counting at most `max`.
pub open spec fn oct_len(s: Seq<u8>, pos: int, max: int) -> int
    decreases max,
{
    if max <= 0 || pos < 0 || pos >= s.len() || !spec_oct_digit(s[pos]) {
        0
    } else {
        1 + oct_len(s, pos + 1, max - 1)
    }
}

/// The base-8 value of `n` digits at `pos`, folded onto `acc`.
pub open spec fn oct_val(s: Seq<u8>, pos: int, n: int, acc: int) -> int
    decreases n,
{
    if n <= 0 {
        acc
    } else {
        oct_val(
            s,
            pos + 1,
            n - 1,
            8 * acc + (if 0 <= pos && pos < s.len() {
                (s[pos] - D0) as int
            } else {
                0
            }),
        )
    }
}

/// How many hex digits stand at `pos`, counting at most `max`.
pub open spec fn hex_len(s: Seq<u8>, pos: int, max: int) -> int
    decreases max,
{
    if max <= 0 || pos < 0 || pos >= s.len() || hex_num(s[pos]) >= 16 {
        0
    } else {
        1 + hex_len(s, pos + 1, max - 1)
    }
}

/// The base-16 value of `n` digits at `pos`, folded onto `acc`.
pub open spec fn hex_val(s: Seq<u8>, pos: int, n: int, acc: int) -> int
    decreases n,
{
    if n <= 0 {
        acc
    } else {
        hex_val(
            s,
            pos + 1,
            n - 1,
            16 * acc + (if 0 <= pos && pos < s.len() {
                hex_num(s[pos])
            } else {
                0
            }),
        )
    }
}

/// The byte at `pos`, or 0 past the end.
pub open spec fn byte_at(s: Seq<u8>, pos: int) -> u8 {
    if 0 <= pos && pos < s.len() {
        s[pos]
    } else {
        0
    }
}

/// The value of a `\uXXXX` escape whose four digit bytes stand at `pos`
/// (digits are not validated: a non-digit contributes 16, as the decoder
/// computes).
pub open spec fn uni_short_val(s: Seq<u8>, pos: int) -> int {
    0x1000 * hex_num(byte_at(s, pos)) + 0x100 * hex_num(byte_at(s, pos + 1)) + 0x10 * hex_num(
        byte_at(s, pos + 2),
    ) + hex_num(byte_at(s, pos + 3))
}

/// The value of a `\UXXXXXXXX` escape whose eight digit bytes stand at
/// `pos`, truncated to 32 bits.
pub open spec fn uni_long_val(s: Seq<u8>, pos: int) -> int {
    (0x10000000 * hex_num(byte_at(s, pos)) + 0x1000000 * hex_num(byte_at(s, pos + 1)) + 0x100000
        * hex_num(byte_at(s, pos + 2)) + 0x10000 * hex_num(byte_at(s, pos + 3)) + 0x1000 * hex_num(
        byte_at(s, pos + 4),
    ) + 0x100 * hex_num(byte_at(s, pos + 5)) + 0x10 * hex_num(byte_at(s, pos + 6)) + hex_num(
        byte_at(s, pos + 7),
    )) % 0x100000000
}

/// The code an escape sequence starting at `pos` (the byte after `\`)
/// decodes to.
pub open spec fn escape_code(s: Seq<u8>, pos: int) -> int {
    if pos < 0 || pos >= s.len() {
        0
    } else {
        let c = s[pos];
        if c == QUOTE || c == APOS || c == QMARK || c == BSLASH {
            c as int
        } else if c == LO_A {
            0x07
        } else if c == LO_B {
            0x08
        } else if c == LO_F {
            0x0C
        } else if c == LO_N {
            0x0A
        } else if c == LO_R {
            0x0D
        } else if c == LO_T {
            0x09
        } else if c == LO_V {
            0x0B
        } else if spec_oct_digit(c) {
            oct_val(s, pos + 1, oct_len(s, pos + 1, 2), (c - D0) as int)
        } else if c == LO_X {
            hex_val(s, pos + 1, hex_len(s, pos + 1, 3), 0)
        } else if c == LO_U {
            if s.len() - (pos + 1) >= 4 {
                uni_short_val(s, pos + 1)
            } else {
                0
            }
        } else if c == UP_U {
            if s.len() - (pos + 1) >= 8 {
                uni_long_val(s, pos + 1)
            } else {
                0
            }
        } else {
            0
        }
    }
}

/// Where the cursor stands after decoding an escape that starts at `pos`.
pub open spec fn escape_end(s: Seq<u8>, pos: int) -> int {
    if pos < 0 || pos >= s.len() {
        pos
    } else {
        let c = s[pos];
        if spec_oct_digit(c) {
            pos + 1 + oct_len(s, pos + 1, 2)
        } else if c == LO_X {
            pos + 1 + hex_len(s, pos + 1, 3)
        } else if c == LO_U {
            if s.len() - (pos + 1) >= 4 {
                pos + 5
            } else {
                pos + 1
            }
        } else if c == UP_U {
            if s.len() - (pos + 1) >= 8 {
                pos + 9
            } else {
                pos + 1
            }
        } else {
            pos + 1
        }
    }
}

proof fn lemma_oct_len_bounds(s: Seq<u8>, pos: int, max: int)
    requires
        max >= 0,
    ensures
        0 <= oct_len(s, pos, max) && oct_len(s, pos, max) <= max,
        pos + oct_len(s, pos, max) <= s.len() || oct_len(s, pos, max) == 0,
    decreases max,
{
    if !(max <= 0 || pos < 0 || pos >= s.len() || !spec_oct_digit(s[pos])) {
        lemma_oct_len_bounds(s, pos + 1, max - 1);
    }
}

proof fn lemma_hex_len_bounds(s: Seq<u8>, pos: int, max: int)
    requires
        max >= 0,
    ensures
        0 <= hex_len(s, pos, max) && hex_len(s, pos, max) <= max,
        pos + hex_len(s, pos, max) <= s.len() || hex_len(s, pos, max) == 0,
    decreases max,
{
    if !(max <= 0 || pos < 0 || pos >= s.len() || hex_num(s[pos]) >= 16) {
        lemma_hex_len_bounds(s, pos + 1, max - 1);
    }
}

/// The cursor never moves backwards over an escape, never leaves the
/// buffer, and always advances past the introducing byte.
pub proof fn lemma_escape_end_bounds(s: Seq<u8>, pos: int)
    requires
        0 <= pos && pos <= s.len(),
    ensures
        pos <= escape_end(s, pos) && escape_end(s, pos) <= s.len(),
        pos < s.len() ==> pos + 1 <= escape_end(s, pos),
{
    if pos < s.len() {
        lemma_oct_len_bounds(s, pos + 1, 2);
        lemma_hex_len_bounds(s, pos + 1, 3);
    }
}

/// The value of a character literal's remaining bytes, folded left to
/// right: an escape shifts the accumulator by the escape's magnitude, a
/// plain byte shifts by one byte, and the closing quote (or the end of the
/// buffer) stops the fold.  All arithmetic is modulo 2^32, as the decoder
/// computes it.
pub open spec fn cchar_val(s: Seq<u8>, pos: int, acc: int) -> int
    decreases s.len() - pos,
    when 0 <= pos
{
    if pos < 0 || pos >= s.len() {
        acc
    } else if s[pos] == BSLASH {
        let e = escape_code(s, pos + 1);
        let p2 = escape_end(s, pos + 1);
        proof {
            lemma_escape_end_bounds(s, pos + 1);
        }
        cchar_val(s, p2, (acc * spec_shift(e) + e) % 0x100000000)
    } else if s[pos] == APOS {
        acc
    } else {
        cchar_val(s, pos + 1, (acc * 0x100 + s[pos]) % 0x100000000)
    }
}

/// Where the cursor stands after the fold of `cchar_val`.
pub open spec fn cchar_end(s: Seq<u8>, pos: int) -> int
    decreases s.len() - pos,
    when 0 <= pos
{
    if pos < 0 || pos >= s.len() {
        pos
    } else if s[pos] == BSLASH {
        let p2 = escape_end(s, pos + 1);
        proof {
            lemma_escape_end_bounds(s, pos + 1);
        }
        cchar_end(s, p2)
    } else if s[pos] == APOS {
        pos + 1
    } else {
        cchar_end(s, pos + 1)
    }
}

/// The multiplier a freshly decoded escape applies to what was accumulated
/// before it: one byte's worth for a byte-sized escape, two for a
/// two-byte escape, and zero (discarding the accumulator) beyond that.
pub open spec fn spec_shift(c: int) -> int {
    if 0 <= c && c <= 0xFF {
        0x100
    } else if c <= 0xFFFF {
        0x10000
    } else {
        0
    }
}

impl Lexer {
    /// The value of a hex digit byte, or 16 for any other byte.
    pub fn get_hex_num(c: u8) -> (r: usize)
        ensures
            r as int == hex_num(c),
    {
        if D0 <= c && c <= D9 {
            (c - D0) as usize
        } else if LO_A <= c && c <= LO_F {
            (c - LO_A + 10) as usize
        } else if UP_A <= c && c <= UP_F {
            (c - UP_A + 10) as usize
        } else {
            16
        }
    }

    /// Fold up to two further octal digits onto the first digit's value
    /// `start`, consuming them; three digits at most stand in an octal
    /// escape.
    pub fn get_oct_char(&mut self, start: u32) -> (r: u32)
        requires
            start <= 7,
            old(self).pos <= old(self).buf@.len(),
        ensures
            final(self).buf@ == old(self).buf@,
            final(self).context == old(self).context,
            final(self).pos == old(self).pos + oct_len(old(self).buf@, old(self).pos as int, 2),
            r as int == oct_val(
                old(self).buf@,
                old(self).pos as int,
                oct_len(old(self).buf@, old(self).pos as int, 2),
                start as int,
            ),
    {
        let ghost s = self.buf@;
        let ghost p0 = self.pos as int;
        proof {
            reveal_with_fuel(oct_len, 4);
            reveal_with_fuel(oct_val, 4);
        }
        let mut num: u32 = start;
        if self.pos < self.buf.len() {
            let c = self.buf[self.pos];
            if D0 <= c && c <= D7 {
                self.pos = self.pos + 1;
                num = 8 * num + ((c - D0) as u32);
                if self.pos < self.buf.len() {
                    let c2 = self.buf[self.pos];
                    if D0 <= c2 && c2 <= D7 {
                        self.pos = self.pos + 1;
                        num = 8 * num + ((c2 - D0) as u32);
                        proof {
                            assert(oct_len(s, p0, 2) == 2);
                        }
                        return num;
                    }
                }
                proof {
                    assert(oct_len(s, p0, 2) == 1);
                }
                return num;
            }
        }
        proof {
            assert(oct_len(s, p0, 2) == 0);
        }
        num
    }

    /// Decode up to three hex digits after `\x`, consuming them.
    pub fn get_hex_char(&mut self) -> (r: u32)
        requires
            old(self).pos <= old(self).buf@.len(),
        ensures
            final(self).buf@ == old(self).buf@,
            final(self).context == old(self).context,
            final(self).pos == old(self).pos + hex_len(old(self).buf@, old(self).pos as int, 3),
            r as int == hex_val(
                old(self).buf@,
                old(self).pos as int,
                hex_len(old(self).buf@, old(self).pos as int, 3),
                0,
            ),
    {
        let ghost s = self.buf@;
        let ghost p0 = self.pos as int;
        let mut num: usize = 0;
        let mut taken: usize = 0;
        while taken < 3
            invariant
                s == self.buf@,
                self.buf@ == old(self).buf@,
                self.context == old(self).context,
                taken <= 3,
                p0 == old(self).pos as int,
                self.pos as int == p0 + taken,
                self.pos <= self.buf@.len(),
                taken == 0 ==> num == 0,
                taken == 1 ==> num < 16,
                taken == 2 ==> num < 256,
                taken == 3 ==> num < 4096,
                hex_len(s, p0, 3) == taken + hex_len(s, self.pos as int, 3 - taken as int),
                hex_val(s, p0, hex_len(s, p0, 3), 0) == hex_val(
                    s,
                    self.pos as int,
                    hex_len(s, self.pos as int, 3 - taken as int),
                    num as int,
                ),
            decreases 3 - taken,
        {
            if self.pos < self.buf.len() {
                let ghost tp = self.pos as int;
                let ghost tk = taken as int;
                let ghost num0 = num as int;
                let c = self.buf[self.pos];
                let n = Self::get_hex_num(c);
                if n < 16 {
                    self.pos = self.pos + 1;
                    num = 16 * num + n;
                    taken = taken + 1;
                    proof {
                        reveal_with_fuel(hex_len, 2);
                        reveal_with_fuel(hex_val, 2);
                        assert(tk < 3 && 0 <= tp && tp < s.len() && hex_num(s[tp]) < 16);
                        lemma_hex_len_bounds(s, tp + 1, 3 - tk - 1);
                        assert(hex_len(s, tp, 3 - tk) == 1 + hex_len(s, tp + 1, 3 - tk - 1));
                        assert(hex_val(s, tp, hex_len(s, tp, 3 - tk), num0) == hex_val(
                            s,
                            tp + 1,
                            hex_len(s, tp, 3 - tk) - 1,
                            16 * num0 + hex_num(s[tp]),
                        ));
                    }
                } else {
                    proof {
                        assert(hex_len(s, (self.pos) as int, 3 - (taken as int)) == 0);
                    }
                    return num as u32;
                }
            } else {
                proof {
                    assert(hex_len(s, (self.pos) as int, 3 - (taken as int)) == 0);
                }
                return num as u32;
            }
        }
        proof {
            assert(hex_len(s, (self.pos) as int, 0) == 0);
        }
        num as u32
    }

    /// Decode the four digit bytes of `\uXXXX`; with fewer than four bytes
    /// left, consume nothing and yield zero.
    pub fn get_universal_short(&mut self) -> (r: u32)
        requires
            old(self).pos <= old(self).buf@.len(),
        ensures
            final(self).buf@ == old(self).buf@,
            final(self).context == old(self).context,
            final(self).pos == if old(self).buf@.len() - old(self).pos >= 4 {
                old(self).pos + 4
            } else {
                old(self).pos as int
            },
            r as int == if old(self).buf@.len() - old(self).pos >= 4 {
                uni_short_val(old(self).buf@, old(self).pos as int)
            } else {
                0
            },
    {
        let rem = self.buf.len() - self.pos;
        if rem >= 4 {
            let c1 = self.buf[self.pos];
            let c2 = self.buf[self.pos + 1];
            let c3 = self.buf[self.pos + 2];
            let c4 = self.buf[self.pos + 3];
            self.pos = self.pos + 4;
            let v: usize = 0x1000 * Self::get_hex_num(c1) + 0x100 * Self::get_hex_num(c2) + 0x10
                * Self::get_hex_num(c3) + Self::get_hex_num(c4);
            v as u32
        } else {
            0
        }
    }

    /// Decode the eight digit bytes of `\UXXXXXXXX`, truncating to 32 bits;
    /// with fewer than eight bytes left, consume nothing and yield zero.
    pub fn get_universal_long(&mut self) -> (r: u32)
        requires
            old(self).pos <= old(self).buf@.len(),
        ensures
            final(self).buf@ == old(self).buf@,
            final(self).context == old(self).context,
            final(self).pos == if old(self).buf@.len() - old(self).pos >= 8 {
                old(self).pos + 8
            } else {
                old(self).pos as int
            },
            r as int == if old(self).buf@.len() - old(self).pos >= 8 {
                uni_long_val(old(self).buf@, old(self).pos as int)
            } else {
                0
            },
    {
        let rem = self.buf.len() - self.pos;
        if rem >= 8 {
            let c1 = self.buf[self.pos];
            let c2 = self.buf[self.pos + 1];
            let c3 = self.buf[self.pos + 2];
            let c4 = self.buf[self.pos + 3];
            let c5 = self.buf[self.pos + 4];
            let c6 = self.buf[self.pos + 5];
            let c7 = self.buf[self.pos + 6];
            let c8 = self.buf[self.pos + 7];
            self.pos = self.pos + 8;
            let v: u64 = 0x10000000 * (Self::get_hex_num(c1) as u64) + 0x1000000 * (
            Self::get_hex_num(c2) as u64) + 0x100000 * (Self::get_hex_num(c3) as u64) + 0x10000 * (
            Self::get_hex_num(c4) as u64) + 0x1000 * (Self::get_hex_num(c5) as u64) + 0x100 * (
            Self::get_hex_num(c6) as u64) + 0x10 * (Self::get_hex_num(c7) as u64) + (
            Self::get_hex_num(c8) as u64);
            (v % 0x100000000) as u32
        } else {
            0
        }
    }

    /// Decode one escape sequence, the cursor standing on the byte after
    /// `\`: a known single-byte escape yields its fixed code, a digit
    /// starts an octal run, `x`/`u`/`U` start hex and universal escapes,
    /// and any other byte (or the end of the buffer) yields zero.
    pub fn get_escape(&mut self) -> (r: u32)
        requires
            old(self).pos <= old(self).buf@.len(),
        ensures
            final(self).buf@ == old(self).buf@,
            final(self).context == old(self).context,
            final(self).pos == escape_end(old(self).buf@, old(self).pos as int),
            r as int == escape_code(old(self).buf@, old(self).pos as int),
            old(self).pos <= final(self).pos,
            final(self).pos <= final(self).buf@.len(),
    {
        proof {
            lemma_escape_end_bounds(old(self).buf@, old(self).pos as int);
        }
        if self.pos < self.buf.len() {
            let c = self.buf[self.pos];
            self.pos = self.pos + 1;
            if c == QUOTE || c == APOS || c == QMARK || c == BSLASH {
                c as u32
            } else if c == LO_A {
                0x07
            } else if c == LO_B {
                0x08
            } else if c == LO_F {
                0x0C
            } else if c == LO_N {
                0x0A
            } else if c == LO_R {
                0x0D
            } else if c == LO_T {
                0x09
            } else if c == LO_V {
                0x0B
            } else if D0 <= c && c <= D7 {
                let first = (c - D0) as u32;
                self.get_oct_char(first)
            } else if c == LO_X {
                self.get_hex_char()
            } else if c == LO_U {
                self.get_universal_short()
            } else if c == UP_U {
                self.get_universal_long()
            } else {
                0
            }
        } else {
            0
        }
    }

    /// The multiplier an escape's magnitude applies to the accumulated
    /// value of a character literal.
    pub fn get_shift(c: u32) -> (r: u32)
        ensures
            r as int == spec_shift(c as int),
    {
        if c <= 0xFF {
            0x100
        } else if c <= 0xFFFF {
            0x10000
        } else {
            0
        }
    }

    /// Decode the remaining bytes of a character literal (the opening quote
    /// already consumed) up to its closing quote, folding bytes and escapes
    /// into one 32-bit value.
    pub fn get_c_char_u32(&mut self) -> (r: u32)
        requires
            old(self).pos <= old(self).buf@.len(),
        ensures
            final(self).buf@ == old(self).buf@,
            final(self).context == old(self).context,
            final(self).pos == cchar_end(old(self).buf@, old(self).pos as int),
            r as int == cchar_val(old(self).buf@, old(self).pos as int, 0),
            old(self).pos <= final(self).pos,
            final(self).pos <= final(self).buf@.len(),
    {
        let ghost s = self.buf@;
        let ghost p0 = self.pos as int;
        let mut val: u32 = 0;
        let mut done: bool = false;
        while !done && self.pos < self.buf.len()
            invariant
                s == self.buf@,
                self.buf@ == old(self).buf@,
                self.context == old(self).context,
                old(self).pos <= self.pos && self.pos <= self.buf@.len(),
                p0 == old(self).pos as int,
                cchar_val(s, p0, 0) == if done {
                    val as int
                } else {
                    cchar_val(s, self.pos as int, val as int)
                },
                cchar_end(s, p0) == if done {
                    self.pos as int
                } else {
                    cchar_end(s, self.pos as int)
                },
            decreases (if done {
                0int
            } else {
                1int
            }), s.len() - self.pos,
        {
            let ghost pp = self.pos as int;
            let c = self.buf[self.pos];
            if c == BSLASH {
                self.pos = self.pos + 1;
                proof {
                    lemma_escape_end_bounds(s, pp + 1);
                }
                let e = self.get_escape();
                let sh = Self::get_shift(e);
                proof {
                    assert((val as int) * (sh as int) <= 0xFFFFFFFFint * 0x10000int)
                        by (nonlinear_arith)
                        requires
                            val as int <= 0xFFFFFFFFint,
                            sh as int <= 0x10000int,
                            0 <= val as int,
                            0 <= sh as int,
                    ;
                }
                let prod: u64 = (val as u64) * (sh as u64) + (e as u64);
                val = (prod % 0x100000000) as u32;
                proof {
                    assert(s[pp] == BSLASH);
                }
            } else if c == APOS {
                self.pos = self.pos + 1;
                done = true;
            } else {
                self.pos = self.pos + 1;
                let prod: u64 = (val as u64) * 0x100 + (c as u64);
                val = (prod % 0x100000000) as u32;
            }
        }
        val
    }

    /// Scan one character literal body into its token.
    pub fn get_char(&mut self) -> (r: Token)
        requires
            old(self).pos <= old(self).buf@.len(),
        ensures
            final(self).buf@ == old(self).buf@,
            final(self).context == old(self).context,
            r == Token::LiteralChar(
                // the decoded value of the literal's remaining bytes
                cchar_val(old(self).buf@, old(self).pos as int, 0) as u32,
            ),
            final(self).pos == cchar_end(old(self).buf@, old(self).pos as int),
            old(self).pos <= final(self).pos,
            final(self).pos <= final(self).buf@.len(),
    {
        Token::LiteralChar(self.get_c_char_u32())
    }
}

} // verus!
