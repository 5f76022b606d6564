//! Bit-level reader over an RBSP: H.264 syntax elements are variable-length
//! fields read most-significant bit first.
//!
//! The spec readers (`rd_bits`, `rd_ue`, `rd_se`) work on a cursor: `Some(p)`
//! is bit position `p`, `None` a read that has already failed. A failed read
//! leaves `None`, and every read from `None` fails, so a chain of reads
//! describes a syntax structure and whether it fits the data.

use vstd::prelude::*;
use vstd::arithmetic::power2::pow2;

verus! {

/// Bit `i` of `d`; bit 0 is the most significant bit of the first byte.
pub open spec fn bit_at(d: Seq<u8>, i: int) -> u32 {
    ((d[i / 8] >> ((7 - i % 8) as u8)) & 1u8) as u32
}

/// Number of bits in `d`.
pub open spec fn nbits(d: Seq<u8>) -> int {
    (d.len() * 8) as int
}

/// The unsigned value of the `n` bits of `d` from bit `p`, most significant first.
pub open spec fn bits_val(d: Seq<u8>, p: int, n: nat) -> nat
    decreases n,
{
    if n == 0 {
        0
    } else {
        (bits_val(d, p, (n - 1) as nat) * 2 + bit_at(d, p + n - 1)) as nat
    }
}

/// Reads `n` bits (at most 32) at cursor `c`.
#[verifier::opaque]
pub open spec fn rd_bits(d: Seq<u8>, c: Option<int>, n: nat) -> (u32, Option<int>) {
    match c {
        Some(p) => if 0 <= p && n <= 32 && p + n <= nbits(d) {
            (bits_val(d, p, n) as u32, Some(p + n))
        } else {
            (0, None)
        },
        None => (0, None),
    }
}

/// Reads one bit at cursor `c`.
pub open spec fn rd_bit(d: Seq<u8>, c: Option<int>) -> (u32, Option<int>) {
    rd_bits(d, c, 1)
}

/// Reads one bit as a flag.
pub open spec fn rd_flag(d: Seq<u8>, c: Option<int>) -> (bool, Option<int>) {
    (rd_bits(d, c, 1).0 == 1, rd_bits(d, c, 1).1)
}

/// The number of zero bits before the first one bit from `p + z`, given that
/// the `z` bits from `p` are zero: `None` when the data ends first or when
/// 32 zeros are read.
pub open spec fn ue_zeros(d: Seq<u8>, p: int, z: nat) -> Option<nat>
    decreases 32 - z,
{
    if z >= 32 || p + z >= nbits(d) {
        None
    } else if bit_at(d, p + z) == 1 {
        Some(z)
    } else if z + 1 >= 32 {
        None
    } else {
        ue_zeros(d, p, z + 1)
    }
}

/// Reads an unsigned Exp-Golomb code `ue(v)` at cursor `c`: `z` zero bits,
/// a one bit, then `z` bits of suffix; the value is `2^z - 1 + suffix`.
#[verifier::opaque]
pub open spec fn rd_ue(d: Seq<u8>, c: Option<int>) -> (u32, Option<int>) {
    match c {
        Some(p) => if 0 <= p {
            match ue_zeros(d, p, 0) {
                Some(z) => if p + z + 1 + z <= nbits(d) {
                    ((pow2(z) - 1 + bits_val(d, p + z + 1, z)) as u32, Some(p + z + 1 + z))
                } else {
                    (0, None)
                },
                None => (0, None),
            }
        } else {
            (0, None)
        },
        None => (0, None),
    }
}

/// The signed value of the code number `k` of an `se(v)`:
/// `(-1)^(k+1) * ceil(k / 2)`, so 0, 1, -1, 2, -2, ...
pub open spec fn se_of(k: u32) -> int {
    if k % 2 == 1 {
        (k as int + 1) / 2
    } else {
        -((k / 2) as int)
    }
}

/// Reads a signed Exp-Golomb code `se(v)` at cursor `c`. A `ue(v)` is at
/// most `2^32 - 2`, whose signed value fits an `i32`.
pub open spec fn rd_se(d: Seq<u8>, c: Option<int>) -> (i32, Option<int>) {
    (se_of(rd_ue(d, c).0) as i32, rd_ue(d, c).1)
}

/// Whether a `ue(v)` from bit `p + z`, after `z` zero bits from `p`, meets
/// a 32nd zero bit before any one bit or the end of the data.
pub open spec fn ue_long(d: Seq<u8>, p: int, z: nat) -> bool
    decreases 32 - z,
{
    if z >= 32 || p + z >= nbits(d) {
        false
    } else if bit_at(d, p + z) == 1 {
        false
    } else if z + 1 >= 32 {
        true
    } else {
        ue_long(d, p, z + 1)
    }
}

/// The message of a read at bit `pos` of data of `total` bits.
pub open spec fn past_end_text(pos: int, total: int) -> Seq<char> {
    "比特流越界: 位置 "@ + crate::text::dec_chars(pos as nat) + " 超出总长 "@ + crate::text::dec_chars(
        total as nat,
    )
}

/// The message of a read that meets the end of `d`.
pub open spec fn end_text(d: Seq<u8>) -> Seq<char> {
    past_end_text(nbits(d), nbits(d))
}

/// The message of a request for more than 32 bits at once.
pub open spec fn too_many_text(n: nat) -> Seq<char> {
    "单次最多读 32 位，收到 "@ + crate::text::dec_chars(n)
}

/// The message of a `ue(v)` with 32 leading zeros.
pub open spec fn ue_long_text() -> Seq<char> {
    "ue(v) 前导零超过 31，疑似损坏码流"@
}

/// Where a failed `ue(v)` read at bit `p` of `d` leaves the reader: after
/// the 32nd zero, or at the end of the data.
pub open spec fn ue_error_pos(d: Seq<u8>, p: int) -> int {
    if ue_long(d, p, 0) {
        p + 32
    } else {
        nbits(d)
    }
}

/// The message of a failed `ue(v)` read at bit `p` of `d`.
pub open spec fn ue_error_text(d: Seq<u8>, p: int) -> Seq<char> {
    if ue_long(d, p, 0) {
        ue_long_text()
    } else {
        end_text(d)
    }
}

/// Whether `e` is a message that a read from `d` fails with.
#[verifier::opaque]
pub open spec fn reader_error(d: Seq<u8>, e: Seq<char>) -> bool {
    ||| e == end_text(d)
    ||| e == ue_long_text()
    ||| exists|n: nat| n > 32 && e == too_many_text(n)
}

/// The messages of the readers are reader errors.
proof fn lemma_reader_errors(d: Seq<u8>)
    ensures
        reader_error(d, end_text(d)),
        reader_error(d, ue_long_text()),
        forall|n: nat| n > 32 ==> reader_error(d, #[trigger] too_many_text(n)),
{
    reveal(reader_error);
    assert forall|n: nat| n > 32 implies reader_error(d, #[trigger] too_many_text(n)) by {
        reveal(reader_error);
    }
}

/// A read from a failed cursor fails.
pub broadcast proof fn lemma_rd_bits_none(d: Seq<u8>, n: nat)
    ensures
        #[trigger] rd_bits(d, None, n) == (0u32, None::<int>),
{
    reveal(rd_bits);
}

/// A failed read gives 0.
pub broadcast proof fn lemma_rd_bits_fail(d: Seq<u8>, c: Option<int>, n: nat)
    ensures
        #[trigger] rd_bits(d, c, n).1 is None ==> rd_bits(d, c, n).0 == 0,
{
    reveal(rd_bits);
}

/// A failed read gives 0.
pub broadcast proof fn lemma_rd_ue_fail(d: Seq<u8>, c: Option<int>)
    ensures
        #[trigger] rd_ue(d, c).1 is None ==> rd_ue(d, c).0 == 0,
{
    reveal(rd_ue);
}

/// A read from a failed cursor fails.
pub broadcast proof fn lemma_rd_ue_none(d: Seq<u8>)
    ensures
        #[trigger] rd_ue(d, None) == (0u32, None::<int>),
{
    reveal(rd_ue);
}

/// A successful read moves the cursor forward.
pub broadcast proof fn lemma_rd_bits_forward(d: Seq<u8>, c: Option<int>, n: nat)
    ensures
        #[trigger] rd_bits(d, c, n).1 matches Some(q) ==> c matches Some(p) && 0 <= p <= q <= nbits(d),
{
    reveal(rd_bits);
}

/// A successful read moves the cursor forward.
pub broadcast proof fn lemma_rd_ue_forward(d: Seq<u8>, c: Option<int>)
    ensures
        #[trigger] rd_ue(d, c).1 matches Some(q) ==> c matches Some(p) && 0 <= p <= q <= nbits(d),
{
    reveal(rd_ue);
}

pub broadcast group group_readers {
    lemma_rd_bits_none,
    lemma_rd_bits_fail,
    lemma_rd_ue_fail,
    lemma_rd_ue_none,
    lemma_rd_bits_forward,
    lemma_rd_ue_forward,
}

/// Whether a one bit stands after bit `p`: data other than the
/// `rbsp_trailing_bits` remains.
pub open spec fn more_data_after(d: Seq<u8>, p: int) -> bool {
    exists|i: int| p < i < nbits(d) && bit_at(d, i) == 1
}

/// Data short enough that its bit positions, and a margin above them, fit
/// a `usize`.
pub open spec fn readable(d: Seq<u8>) -> bool {
    d.len() * 8 + 64 <= usize::MAX
}

/// A reader over `data` at bit position `pos`.
#[derive(Debug)]
pub struct BitReader<'a> {
    data: &'a [u8],
    pos: usize,
}

impl<'a> BitReader<'a> {
    /// The bytes read.
    pub closed spec fn data(&self) -> Seq<u8> {
        self.data@
    }

    /// The current bit position.
    pub closed spec fn pos(&self) -> int {
        self.pos as int
    }

    /// The cursor of the spec readers at the current position.
    pub open spec fn cur(&self) -> Option<int> {
        Some(self.pos())
    }

    /// A position within the data, whose bit count the machine holds.
    pub open spec fn wf(&self) -> bool {
        &&& 0 <= self.pos() <= nbits(self.data())
        &&& readable(self.data())
    }

    pub fn new(data: &'a [u8]) -> (r: Self)
        requires
            readable(data@),
        ensures
            r.wf(),
            r.data() == data@,
            r.pos() == 0,
    {
        BitReader { data, pos: 0 }
    }

    pub fn bit_pos(&self) -> (r: usize)
        ensures
            r == self.pos(),
    {
        self.pos
    }

    pub fn total_bits(&self) -> (r: usize)
        requires
            self.wf(),
        ensures
            r == nbits(self.data()),
    {
        self.data.len() * 8
    }

    pub fn remaining_bits(&self) -> (r: usize)
        requires
            self.wf(),
        ensures
            r == nbits(self.data()) - self.pos(),
    {
        self.total_bits() - self.pos
    }

    pub fn has_at_least(&self, bits: usize) -> (r: bool)
        requires
            self.wf(),
        ensures
            r == (nbits(self.data()) - self.pos() >= bits),
    {
        self.remaining_bits() >= bits
    }

    pub fn read_bit(&mut self) -> (r: Result<u32, String>)
        requires
            old(self).wf(),
        ensures
            final(self).wf(),
            final(self).data() == old(self).data(),
            r is Ok <==> rd_bit(old(self).data(), old(self).cur()).1 is Some,
            r is Ok ==> r->Ok_0 == rd_bit(old(self).data(), old(self).cur()).0 && final(self).cur()
                == rd_bit(old(self).data(), old(self).cur()).1,
            r is Err ==> final(self).pos() == old(self).pos() && r->Err_0@ == end_text(old(self).data()),
            r is Err ==> reader_error(old(self).data(), r->Err_0@),
            r is Ok ==> r->Ok_0 == bit_at(old(self).data(), old(self).pos()) && final(self).pos()
                == old(self).pos() + 1 && old(self).pos() < nbits(old(self).data()),
            r is Ok ==> r->Ok_0 <= 1,
            old(self).pos() <= final(self).pos(),
    {
        proof {
            lemma_reader_errors(old(self).data());
        }
        reveal(rd_bits);
        if self.pos >= self.total_bits() {
            return Err(read_past_end(self.pos, self.total_bits()));
        }
        let byte = self.data[self.pos / 8];
        let bit = (byte >> ((7 - (self.pos % 8)) as u8)) & 1;
        self.pos += 1;
        proof {
            let p = old(self).pos();
            assert(bits_val(self.data(), p, 0) == 0);
            assert(bits_val(self.data(), p, 1) == bit_at(self.data(), p));
            lemma_bit_le1(self.data(), p);
        }
        Ok(bit as u32)
    }

    /// Reads `n` bits, most significant first; at most 32.
    pub fn read_bits(&mut self, n: u32) -> (r: Result<u32, String>)
        requires
            old(self).wf(),
        ensures
            final(self).wf(),
            final(self).data() == old(self).data(),
            r is Ok <==> rd_bits(old(self).data(), old(self).cur(), n as nat).1 is Some,
            r is Ok ==> r->Ok_0 == rd_bits(old(self).data(), old(self).cur(), n as nat).0
                && final(self).cur() == rd_bits(old(self).data(), old(self).cur(), n as nat).1,
            r is Err ==> r->Err_0@ == if n > 32 {
                too_many_text(n as nat)
            } else {
                end_text(old(self).data())
            },
            r is Err ==> final(self).pos() == if n > 32 {
                old(self).pos()
            } else {
                nbits(old(self).data())
            },
            r is Err ==> reader_error(old(self).data(), r->Err_0@),
            old(self).pos() <= final(self).pos(),
    {
        proof {
            lemma_reader_errors(old(self).data());
        }
        reveal(rd_bits);
        if n > 32 {
            return Err(too_many_bits(n));
        }
        let ghost p0 = self.pos();
        let ghost d = self.data();
        let mut v: u32 = 0;
        let mut i: u32 = 0;
        assert(pow2(0) == 1) by {
            vstd::arithmetic::power2::lemma2_to64();
        }
        while i < n
            invariant
                old(self).data() == d,
                old(self).pos() == p0,
                self.wf(),
                self.data() == d,
                i <= n <= 32,
                self.pos() == p0 + i,
                p0 + i <= nbits(d),
                v == bits_val(d, p0, i as nat),
                v < pow2(i as nat),
                reader_error(d, end_text(d)),
            decreases n - i,
        {
            reveal(rd_bits);
            if self.pos >= self.total_bits() {
                proof {
                    assert(p0 + n > nbits(d));
                }
                return Err(read_past_end(self.pos, self.total_bits()));
            }
            let b = self.read_bit();
            let b = match b {
                Ok(b) => b,
                Err(e) => {
                    return Err(e);
                },
            };
            proof {
                vstd::arithmetic::power2::lemma_pow2_unfold((i + 1) as nat);
                vstd::arithmetic::power2::lemma_pow2_pos(i as nat);
                assert(pow2(32) == 0x1_0000_0000) by {
                    vstd::arithmetic::power2::lemma2_to64();
                }
                if i < 31 {
                    vstd::arithmetic::power2::lemma_pow2_strictly_increases(i as nat, 31);
                }
                assert(pow2(31) == 0x8000_0000) by {
                    vstd::arithmetic::power2::lemma2_to64();
                }
                assert(b <= 1);
                assert(v < 0x8000_0000);
                assert((v << 1u32) | b == v * 2 + b) by (bit_vector)
                    requires
                        v < 0x8000_0000u32,
                        b <= 1u32,
                ;
            }
            v = (v << 1) | b;
            i += 1;
        }
        Ok(v)
    }

    /// Moves forward `n` bits, stopping at the end of the data.
    pub fn skip_bits(&mut self, n: usize)
        requires
            old(self).wf(),
        ensures
            final(self).wf(),
            final(self).data() == old(self).data(),
            final(self).pos() == if old(self).pos() + n <= nbits(old(self).data()) {
                old(self).pos() + n
            } else {
                nbits(old(self).data())
            },
    {
        let total = self.total_bits();
        if n <= total - self.pos {
            self.pos = self.pos + n;
        } else {
            self.pos = total;
        }
    }

    /// Reads an unsigned Exp-Golomb code `ue(v)`.
    pub fn read_ue(&mut self) -> (r: Result<u32, String>)
        requires
            old(self).wf(),
        ensures
            final(self).wf(),
            final(self).data() == old(self).data(),
            r is Ok <==> rd_ue(old(self).data(), old(self).cur()).1 is Some,
            r is Ok ==> r->Ok_0 == rd_ue(old(self).data(), old(self).cur()).0 && final(self).cur()
                == rd_ue(old(self).data(), old(self).cur()).1,
            r is Err ==> r->Err_0@ == ue_error_text(old(self).data(), old(self).pos()),
            r is Err ==> final(self).pos() == ue_error_pos(old(self).data(), old(self).pos()),
            r is Err ==> reader_error(old(self).data(), r->Err_0@),
            old(self).pos() <= final(self).pos(),
    {
        proof {
            lemma_reader_errors(old(self).data());
        }
        reveal(rd_ue);
        reveal(rd_bits);
        let ghost p0 = self.pos();
        let ghost d = self.data();
        let mut zeros: u32 = 0;
        loop
            invariant_except_break
                old(self).data() == d,
                old(self).pos() == p0,
                self.wf(),
                self.data() == d,
                zeros < 32,
                self.pos() == p0 + zeros,
                0 <= p0,
                ue_zeros(d, p0, 0) == ue_zeros(d, p0, zeros as nat),
                ue_long(d, p0, 0) == ue_long(d, p0, zeros as nat),
                reader_error(d, end_text(d)),
                reader_error(d, ue_long_text()),
            ensures
                old(self).data() == d,
                old(self).pos() == p0,
                self.wf(),
                self.data() == d,
                zeros < 32,
                self.pos() == p0 + zeros + 1,
                0 <= p0,
                ue_zeros(d, p0, 0) == Some(zeros as nat),
                !ue_long(d, p0, 0),
            decreases 32 - zeros,
        {
            reveal(rd_ue);
            reveal(rd_bits);
            let b = match self.read_bit() {
                Ok(b) => b,
                Err(e) => {
                    return Err(e);
                },
            };
            if b == 1 {
                break;
            }
            zeros += 1;
            if zeros >= 32 {
                return Err(ue_too_long());
            }
        }
        if zeros == 0 {
            assert(bits_val(d, p0 + 1, 0) == 0);
            assert(pow2(0) == 1) by {
                vstd::arithmetic::power2::lemma2_to64();
            }
            return Ok(0);
        }
        let suffix = match self.read_bits(zeros) {
            Ok(v) => v,
            Err(e) => {
                return Err(e);
            },
        };
        proof {
            vstd::bits::lemma_u32_pow2_no_overflow(zeros as nat);
            vstd::bits::lemma_u32_shl_is_mul(1, zeros);
            lemma_bits_val_bound(d, p0 + zeros + 1, zeros as nat);
            assert(pow2(32) == 0x1_0000_0000) by {
                vstd::arithmetic::power2::lemma2_to64();
            }
            if zeros < 31 {
                vstd::arithmetic::power2::lemma_pow2_strictly_increases(zeros as nat, 31);
            }
            assert(pow2(31) == 0x8000_0000) by {
                vstd::arithmetic::power2::lemma2_to64();
            }
            assert(suffix == bits_val(d, p0 + zeros + 1, zeros as nat));
            assert((1u32 << zeros) == pow2(zeros as nat));
            assert(p0 + zeros + 1 + zeros <= nbits(d));
        }
        Ok((1u32 << zeros) - 1 + suffix)
    }

    /// Reads a signed Exp-Golomb code `se(v)`.
    pub fn read_se(&mut self) -> (r: Result<i32, String>)
        requires
            old(self).wf(),
        ensures
            final(self).wf(),
            final(self).data() == old(self).data(),
            r is Ok <==> rd_se(old(self).data(), old(self).cur()).1 is Some,
            r is Ok ==> r->Ok_0 == rd_se(old(self).data(), old(self).cur()).0 && final(self).cur()
                == rd_se(old(self).data(), old(self).cur()).1,
            r is Err ==> r->Err_0@ == ue_error_text(old(self).data(), old(self).pos()),
            r is Err ==> final(self).pos() == ue_error_pos(old(self).data(), old(self).pos()),
            r is Err ==> reader_error(old(self).data(), r->Err_0@),
            old(self).pos() <= final(self).pos(),
    {
        proof {
            lemma_reader_errors(old(self).data());
        }
        let ghost d = self.data();
        let ghost c = self.cur();
        let ue = self.read_ue()?;
        proof {
            lemma_rd_ue_bound(d, c);
        }
        Ok(se_from_code(ue))
    }

    /// `more_rbsp_data()`: whether a one bit stands after the current
    /// position, i.e. data remains besides the `rbsp_trailing_bits` (the last
    /// one bit, the stop bit, and the zeros after it).
    pub fn more_rbsp_data(&self) -> (r: bool)
        requires
            self.wf(),
        ensures
            r == more_data_after(self.data(), self.pos()),
    {
        let total = self.total_bits();
        let mut i = total;
        while i > self.pos + 1
            invariant
                self.wf(),
                total == nbits(self.data()),
                self.pos() + 1 <= i <= total || i == total,
                forall|j: int| i <= j < total ==> bit_at(self.data(), j) == 0,
            decreases i,
        {
            let k = i - 1;
            let byte = self.data[k / 8];
            let bit = (byte >> ((7 - (k % 8)) as u8)) & 1;
            proof {
                lemma_bit_le1(self.data(), k as int);
            }
            if bit == 1 {
                assert(bit_at(self.data(), k as int) == 1);
                return true;
            }
            i = k;
        }
        proof {
            assert forall|j: int| self.pos() < j < nbits(self.data()) implies bit_at(self.data(), j)
                != 1 by {
                assert(i <= j);
            }
        }
        false
    }
}

/// The signed value of an `se(v)` code number.
pub fn se_from_code(ue: u32) -> (r: i32)
    requires
        ue <= 0xFFFF_FFFE,
    ensures
        r == se_of(ue),
{
    let u: i64 = ue as i64;
    if u % 2 == 1 {
        ((u + 1) / 2) as i32
    } else {
        (-(u / 2)) as i32
    }
}

/// The value of `n` bits is below `2^n`.
pub proof fn lemma_bits_val_bound(d: Seq<u8>, p: int, n: nat)
    requires
        0 <= p,
        p + n <= nbits(d),
    ensures
        bits_val(d, p, n) < pow2(n),
    decreases n,
{
    if n > 0 {
        let m = (n - 1) as nat;
        lemma_bits_val_bound(d, p, m);
        vstd::arithmetic::power2::lemma_pow2_unfold(n);
        lemma_bit_le1(d, p + n - 1);
        assert(bits_val(d, p, n) == bits_val(d, p, m) * 2 + bit_at(d, p + n - 1));
        assert(pow2(n) == 2 * pow2(m));
    } else {
        vstd::arithmetic::power2::lemma_pow2_pos(0);
        assert(pow2(0) == 1) by {
            vstd::arithmetic::power2::lemma2_to64();
        }
    }
}

/// A bit is 0 or 1.
pub proof fn lemma_bit_le1(d: Seq<u8>, i: int)
    ensures
        bit_at(d, i) <= 1,
{
    let b = d[i / 8];
    let k = (7 - i % 8) as u8;
    assert((b >> k) & 1u8 <= 1u8) by (bit_vector);
}

fn read_past_end(pos: usize, total: usize) -> (r: String)
    ensures
        r@ == past_end_text(pos as int, total as int),
{
    let mut s = String::from_str("比特流越界: 位置 ");
    crate::text::push_dec(&mut s, pos as u64);
    s.append(" 超出总长 ");
    crate::text::push_dec(&mut s, total as u64);
    s
}

fn too_many_bits(n: u32) -> (r: String)
    ensures
        r@ == too_many_text(n as nat),
{
    let mut s = String::from_str("单次最多读 32 位，收到 ");
    crate::text::push_dec(&mut s, n as u64);
    s
}

fn ue_too_long() -> (r: String)
    ensures
        r@ == ue_long_text(),
{
    String::from_str("ue(v) 前导零超过 31，疑似损坏码流")
}

/// The largest `z` with `2^z <= x` (for `x >= 1`).
pub open spec fn log2_floor(x: nat) -> nat
    decreases x,
{
    if x < 2 {
        0
    } else {
        1 + log2_floor(x / 2)
    }
}

/// Bit `i` of the Exp-Golomb code of `v`: `z` zero bits, then the `z + 1`
/// bits of `v + 1`, where `z` is the length of the zero prefix.
pub open spec fn ue_code_bit(v: nat, i: int) -> u32 {
    let z = log2_floor(v + 1);
    if i < z {
        0
    } else {
        (((v + 1) / pow2((2 * z - i) as nat)) % 2) as u32
    }
}

/// The length in bits of the Exp-Golomb code of `v`.
pub open spec fn ue_code_len(v: nat) -> nat {
    2 * log2_floor(v + 1) + 1
}

/// `d` holds the Exp-Golomb code of `v` from bit `p`.
pub open spec fn holds_ue_code(d: Seq<u8>, p: int, v: nat) -> bool {
    &&& 0 <= p
    &&& p + ue_code_len(v) <= nbits(d)
    &&& forall|i: int| 0 <= i < ue_code_len(v) ==> #[trigger] bit_at(d, p + i) == ue_code_bit(v, i)
}

proof fn lemma_log2_floor(x: nat)
    requires
        x >= 1,
    ensures
        pow2(log2_floor(x)) <= x < pow2(log2_floor(x) + 1),
    decreases x,
{
    vstd::arithmetic::power2::lemma_pow2_unfold(log2_floor(x) + 1);
    if x >= 2 {
        lemma_log2_floor(x / 2);
        vstd::arithmetic::power2::lemma_pow2_unfold(log2_floor(x));
    } else {
        vstd::arithmetic::power2::lemma2_to64();
    }
}

/// Bits that spell the binary digits of `x` give the value of its low bits.
proof fn lemma_bits_val_of(d: Seq<u8>, q: int, n: nat, x: nat)
    requires
        forall|j: int| 0 <= j < n ==> #[trigger] bit_at(d, q + j) == (x / pow2((n - 1 - j) as nat)) % 2,
    ensures
        bits_val(d, q, n) == x % pow2(n),
    decreases n,
{
    vstd::arithmetic::power2::lemma2_to64();
    if n > 0 {
        assert forall|j: int| 0 <= j < n - 1 implies #[trigger] bit_at(d, q + j) == ((x / 2) / pow2(
            (n - 2 - j) as nat,
        )) % 2 by {
            assert(bit_at(d, q + j) == (x / pow2((n - 1 - j) as nat)) % 2);
            vstd::arithmetic::power2::lemma_pow2_unfold((n - 1 - j) as nat);
            vstd::arithmetic::power2::lemma_pow2_pos((n - 2 - j) as nat);
            vstd::arithmetic::div_mod::lemma_div_denominator(x as int, 2, pow2((n - 2 - j) as nat) as int);
        }
        lemma_bits_val_of(d, q, (n - 1) as nat, x / 2);
        assert(bit_at(d, q + (n - 1)) == (x / pow2(0)) % 2);
        vstd::arithmetic::power2::lemma_pow2_unfold(n);
        vstd::arithmetic::power2::lemma_pow2_pos((n - 1) as nat);
        vstd::arithmetic::div_mod::lemma_mod_breakdown(x as int, 2, pow2((n - 1) as nat) as int);
    }
}

proof fn lemma_ue_zeros_at(d: Seq<u8>, p: int, z: nat, k: nat)
    requires
        0 <= p,
        k <= z < 32,
        p + z < nbits(d),
        forall|i: int| 0 <= i < z ==> #[trigger] bit_at(d, p + i) == 0,
        bit_at(d, p + z) == 1,
    ensures
        ue_zeros(d, p, k) == Some(z),
    decreases z - k,
{
    if k < z {
        assert(bit_at(d, p + k) == 0);
        lemma_ue_zeros_at(d, p, z, k + 1);
    }
}

/// Exp-Golomb round trip: reading `ue(v)` where the code of `v` is written
/// gives `v` back and moves past the code.
pub proof fn lemma_ue_roundtrip(d: Seq<u8>, p: int, v: nat)
    requires
        v < 0xFFFF_FFFF,
        holds_ue_code(d, p, v),
    ensures
        rd_ue(d, Some(p)) == (v as u32, Some(p + ue_code_len(v))),
{
    reveal(rd_ue);
    let z = log2_floor(v + 1);
    lemma_log2_floor(v + 1);
    vstd::arithmetic::power2::lemma2_to64();
    vstd::arithmetic::power2::lemma_pow2_unfold(z + 1);
    if z >= 32 {
        vstd::arithmetic::power2::lemma_pow2_strictly_increases(32, z);
    }
    assert(z < 32);
    assert forall|i: int| 0 <= i < z implies #[trigger] bit_at(d, p + i) == 0 by {
        assert(bit_at(d, p + i) == ue_code_bit(v, i));
    }
    assert(bit_at(d, p + z) == ue_code_bit(v, z as int));
    vstd::arithmetic::div_mod::lemma_fundamental_div_mod((v + 1) as int, pow2(z) as int);
    assert((v + 1) / pow2(z) == 1) by (nonlinear_arith)
        requires
            pow2(z) <= v + 1 < 2 * pow2(z),
            pow2(z) > 0,
    ;
    lemma_ue_zeros_at(d, p, z, 0);
    assert forall|j: int| 0 <= j < z implies #[trigger] bit_at(d, (p + z + 1) + j) == ((v + 1) / pow2(
        (z - 1 - j) as nat,
    )) % 2 by {
        assert(bit_at(d, p + (z + 1 + j)) == ue_code_bit(v, z + 1 + j));
        assert(p + (z + 1 + j) == (p + z + 1) + j);
    }
    lemma_bits_val_of(d, p + z + 1, z, (v + 1) as nat);
    assert((v + 1) % pow2(z) == v + 1 - pow2(z)) by (nonlinear_arith)
        requires
            pow2(z) <= v + 1 < 2 * pow2(z),
            pow2(z) > 0,
    {
        vstd::arithmetic::div_mod::lemma_fundamental_div_mod((v + 1) as int, pow2(z) as int);
    }
}

/// The code number of the signed value `s` in `se(v)`: positive values to
/// odd numbers, the others to even numbers.
pub open spec fn se_code(s: int) -> nat {
    if s > 0 {
        (2 * s - 1) as nat
    } else {
        (-2 * s) as nat
    }
}

/// Signed Exp-Golomb round trip: reading `se(v)` where the code of
/// `se_code(s)` is written gives `s` back, for every `s` an `se(v)` can
/// carry (`-2^31 < s < 2^31`).
pub proof fn lemma_se_roundtrip(d: Seq<u8>, p: int, s: int)
    requires
        -0x8000_0000 < s < 0x8000_0000,
        holds_ue_code(d, p, se_code(s)),
    ensures
        rd_se(d, Some(p)) == (s as i32, Some(p + ue_code_len(se_code(s)))),
{
    let k = se_code(s);
    assert(k < 0xFFFF_FFFF);
    lemma_ue_roundtrip(d, p, k);
    if s > 0 {
        assert(k % 2 == 1);
        assert((k + 1) / 2 == s);
    } else {
        assert(k % 2 == 0);
        assert(k / 2 == -s);
    }
    assert(se_of(k as u32) == s);
}

/// A `ue(v)` within 32 leading zeros.
proof fn lemma_ue_zeros_lt(d: Seq<u8>, p: int, z: nat)
    ensures
        ue_zeros(d, p, z) matches Some(k) ==> z <= k < 32,
    decreases 32 - z,
{
    if !(z >= 32 || p + z >= nbits(d)) && bit_at(d, p + z) != 1 && z + 1 < 32 {
        lemma_ue_zeros_lt(d, p, z + 1);
    }
}

/// A `ue(v)` is at most `2^32 - 2`.
pub proof fn lemma_rd_ue_bound(d: Seq<u8>, c: Option<int>)
    ensures
        rd_ue(d, c).0 <= 0xFFFF_FFFE,
{
    reveal(rd_ue);
    if let Some(p) = c {
        if 0 <= p {
            lemma_ue_zeros_lt(d, p, 0);
            if let Some(z) = ue_zeros(d, p, 0) {
                if p + z + 1 + z <= nbits(d) {
                    lemma_bits_val_bound(d, p + z + 1, z);
                    vstd::arithmetic::power2::lemma2_to64();
                    if z < 31 {
                        vstd::arithmetic::power2::lemma_pow2_strictly_increases(z, 31);
                    }
                    assert(pow2(z) - 1 + bits_val(d, p + z + 1, z) <= 0xFFFF_FFFE);
                }
            }
        }
    }
}

/// The 8 bits from bit `8 * o` are byte `o`.
pub proof fn lemma_byte_at(d: Seq<u8>, o: int)
    requires
        0 <= o < d.len(),
    ensures
        bits_val(d, 8 * o, 8) == d[o] as nat,
{
    let b = d[o];
    assert forall|j: int| 0 <= j < 8 implies #[trigger] bit_at(d, 8 * o + j) == ((b >> ((7 - j) as u8)) & 1u8) as u32 by {
        assert((8 * o + j) / 8 == o && (8 * o + j) % 8 == j) by (nonlinear_arith)
            requires
                0 <= j < 8,
                0 <= o,
        ;
    }
    reveal_with_fuel(bits_val, 9);
    let b7 = ((b >> 7u8) & 1u8) as u32;
    let b6 = ((b >> 6u8) & 1u8) as u32;
    let b5 = ((b >> 5u8) & 1u8) as u32;
    let b4 = ((b >> 4u8) & 1u8) as u32;
    let b3 = ((b >> 3u8) & 1u8) as u32;
    let b2 = ((b >> 2u8) & 1u8) as u32;
    let b1 = ((b >> 1u8) & 1u8) as u32;
    let b0 = ((b >> 0u8) & 1u8) as u32;
    assert(bit_at(d, 8 * o + 0) == b7);
    assert(bit_at(d, 8 * o + 1) == b6);
    assert(bit_at(d, 8 * o + 2) == b5);
    assert(bit_at(d, 8 * o + 3) == b4);
    assert(bit_at(d, 8 * o + 4) == b3);
    assert(bit_at(d, 8 * o + 5) == b2);
    assert(bit_at(d, 8 * o + 6) == b1);
    assert(bit_at(d, 8 * o + 7) == b0);
    assert(((b >> 7u8) & 1u8) as u32 * 128 + ((b >> 6u8) & 1u8) as u32 * 64 + ((b >> 5u8) & 1u8) as u32 * 32
        + ((b >> 4u8) & 1u8) as u32 * 16 + ((b >> 3u8) & 1u8) as u32 * 8 + ((b >> 2u8) & 1u8) as u32 * 4 + ((b
        >> 1u8) & 1u8) as u32 * 2 + ((b >> 0u8) & 1u8) as u32 == b as u32) by (bit_vector);
}

} // verus!
