//! A cursor over a byte buffer that reads whole bytes or runs of bits.
use vstd::prelude::*;
use vstd::arithmetic::power2::{pow2, lemma2_to64, lemma_pow2_adds, lemma_pow2_pos};

use crate::error::DecodeError;

verus! {

/// The value of `n` bits of `data` read from bit position `pos`.
///
/// Bits are taken from each byte starting at its least significant bit. A read
/// is cut into chunks at byte boundaries; in big-endian order the first chunk
/// lands in the high end of the result, in little-endian order in the low end.
pub open spec fn bits_value(data: Seq<u8>, pos: nat, n: nat, big: bool) -> nat
    decreases n,
{
    if n == 0 {
        0
    } else {
        let off = pos % 8;
        let c: nat = if n < 8 - off {
            n
        } else {
            (8 - off) as nat
        };
        let chunk = (data[(pos / 8) as int] as nat / pow2(off)) % pow2(c);
        if big {
            chunk * pow2((n - c) as nat) + bits_value(data, pos + c, (n - c) as nat, big)
        } else {
            chunk + pow2(c) * bits_value(data, pos + c, (n - c) as nat, big)
        }
    }
}

/// `2^k` for `k <= 8`.
fn pow2_small(k: usize) -> (r: u16)
    requires
        k <= 8,
    ensures
        r as nat == pow2(k as nat),
{
    proof {
        lemma2_to64();
    }
    let mut r: u16 = 1;
    let mut i: usize = 0;
    while i < k
        invariant
            i <= k <= 8,
            r as nat == pow2(i as nat),
        decreases k - i,
    {
        proof {
            lemma2_to64();
        }
        r = r * 2;
        i = i + 1;
    }
    r
}

/// A stateful reader over a byte buffer.
///
/// `used` counts the bytes taken from the buffer; `nextbits` is how many bits
/// of the last byte taken have not been read yet.
pub struct BitPackedBuffer {
    data: Vec<u8>,
    used: usize,
    nextbits: usize,
    bigendian: bool,
}

impl BitPackedBuffer {
    /// The bytes the cursor reads.
    pub closed spec fn bytes(&self) -> Seq<u8> {
        self.data@
    }

    /// The number of bits consumed so far.
    pub closed spec fn bit_pos(&self) -> nat {
        (self.used * 8 - self.nextbits) as nat
    }

    /// Bytes taken from the buffer, including a partly read one.
    pub closed spec fn position(&self) -> nat {
        self.used as nat
    }

    /// Bits of the last byte taken that are not read yet.
    pub closed spec fn pending_bits(&self) -> nat {
        self.nextbits as nat
    }

    pub closed spec fn is_big_endian(&self) -> bool {
        self.bigendian
    }

    pub closed spec fn wf(&self) -> bool {
        &&& self.used <= self.data.len()
        &&& self.nextbits < 8
        &&& (self.nextbits > 0 ==> self.used > 0)
        &&& self.data.len() * 8 <= usize::MAX
    }

    /// The state after `byte_align`.
    pub closed spec fn spec_byte_align(self) -> BitPackedBuffer {
        BitPackedBuffer { nextbits: 0, ..self }
    }

    /// Bits left to read.
    pub open spec fn remaining_bits(&self) -> int {
        self.bytes().len() * 8 - self.bit_pos()
    }

    pub proof fn lemma_wf_facts(&self)
        requires
            self.wf(),
        ensures
            self.bit_pos() <= self.bytes().len() * 8,
            self.position() <= self.bytes().len(),
            self.pending_bits() < 8,
            self.pending_bits() == self.position() * 8 - self.bit_pos(),
            self.bytes().len() * 8 <= usize::MAX,
    {
    }

    /// A big-endian cursor at the start of `contents`.
    pub fn new(contents: Vec<u8>) -> (r: BitPackedBuffer)
        requires
            contents.len() * 8 <= usize::MAX,
        ensures
            r.wf(),
            r.bytes() == contents@,
            r.bit_pos() == 0,
            r.position() == 0,
            r.pending_bits() == 0,
            r.is_big_endian(),
    {
        BitPackedBuffer { data: contents, used: 0, nextbits: 0, bigendian: true }
    }

    /// A little-endian cursor at the start of `contents`.
    pub fn new_little_endian(contents: Vec<u8>) -> (r: BitPackedBuffer)
        requires
            contents.len() * 8 <= usize::MAX,
        ensures
            r.wf(),
            r.bytes() == contents@,
            r.bit_pos() == 0,
            r.position() == 0,
            r.pending_bits() == 0,
            !r.is_big_endian(),
    {
        BitPackedBuffer { data: contents, used: 0, nextbits: 0, bigendian: false }
    }

    /// The number of bits consumed so far.
    pub fn used_bits(&self) -> (r: usize)
        requires
            self.wf(),
        ensures
            r == self.bit_pos(),
    {
        self.used * 8 - self.nextbits
    }

    /// True once every byte has been taken.
    pub fn done(&self) -> (r: bool)
        requires
            self.wf(),
        ensures
            r == (self.position() >= self.bytes().len()),
    {
        self.used >= self.data.len()
    }

    /// Drops the unread bits of the current byte.
    pub fn byte_align(&mut self)
        requires
            old(self).wf(),
        ensures
            final(self).wf(),
            *final(self) == old(self).spec_byte_align(),
            final(self).bytes() == old(self).bytes(),
            final(self).is_big_endian() == old(self).is_big_endian(),
            final(self).position() == old(self).position(),
            final(self).pending_bits() == 0,
            final(self).bit_pos() == old(self).position() * 8,
    {
        self.nextbits = 0;
    }

    /// Reads `bits` bits; fails with `Truncated` when fewer remain.
    pub fn read_bits(&mut self, bits: u8) -> (r: Result<u128, DecodeError>)
        requires
            old(self).wf(),
            bits <= 128,
        ensures
            final(self).wf(),
            final(self).bytes() == old(self).bytes(),
            final(self).is_big_endian() == old(self).is_big_endian(),
            r is Ok <==> bits <= old(self).remaining_bits(),
            r is Err ==> r == Err::<u128, DecodeError>(DecodeError::Truncated),
            r matches Ok(v) ==> {
                &&& v as nat == bits_value(
                    old(self).bytes(),
                    old(self).bit_pos(),
                    bits as nat,
                    old(self).is_big_endian(),
                )
                &&& final(self).bit_pos() == old(self).bit_pos() + bits
                &&& (bits == 0 ==> *final(self) == *old(self))
            },
    {
        let ghost start = self.bit_pos();
        let ghost d = self.data@;
        let ghost big = self.bigendian;
        let mut result: u128 = 0;
        let mut resultbits: u8 = 0;
        let mut scale: u128 = 1;
        proof {
            lemma2_to64();
            lemma_pow2_adds(64, 64);
        }
        while resultbits < bits
            invariant
                self.wf(),
                self.data@ == d,
                self.bigendian == big,
                d == old(self).data@,
                big == old(self).bigendian,
                start == old(self).bit_pos(),
                resultbits <= bits <= 128,
                self.bit_pos() == start + resultbits,
                result < pow2(resultbits as nat),
                pow2(128) == u128::MAX + 1,
                !big && resultbits < bits ==> scale == pow2(resultbits as nat),
                big ==> bits_value(d, start, bits as nat, true) == result * pow2(
                    (bits - resultbits) as nat,
                ) + bits_value(d, self.bit_pos(), (bits - resultbits) as nat, true),
                !big ==> bits_value(d, start, bits as nat, false) == result + pow2(
                    resultbits as nat,
                ) * bits_value(d, self.bit_pos(), (bits - resultbits) as nat, false),
                bits == 0 ==> *self == *old(self),
            decreases bits - resultbits,
        {
            if self.nextbits == 0 {
                if self.used >= self.data.len() {
                    return Err(DecodeError::Truncated);
                }
                self.used = self.used + 1;
                self.nextbits = 8;
            }
            let byte = self.data[self.used - 1];
            let off: usize = 8 - self.nextbits;
            let want: u8 = bits - resultbits;
            let copybits: u8 = if (want as usize) < self.nextbits {
                want
            } else {
                self.nextbits as u8
            };
            let p_off = pow2_small(off);
            let p_c = pow2_small(copybits as usize);
            proof {
                lemma_pow2_pos(off as nat);
                lemma_pow2_pos(copybits as nat);
            }
            let chunk: u16 = (byte as u16 / p_off) % p_c;
            let ghost pos = self.bit_pos();
            let ghost m: nat = (bits - resultbits) as nat;
            let ghost rest: nat = (m - copybits) as nat;
            proof {
                assert(pos / 8 == self.used - 1);
                assert(pos % 8 == off);
                lemma_pow2_pos(rest);
                lemma_pow2_pos(resultbits as nat);
                lemma_pow2_adds(copybits as nat, rest);
                lemma_pow2_adds(resultbits as nat, copybits as nat);
                lemma_pow2_adds((resultbits + copybits) as nat, (128 - resultbits - copybits) as nat);
                lemma_pow2_pos((128 - resultbits - copybits) as nat);
                assert(chunk < p_c);
                assert(d[(pos / 8) as int] == byte);
                assert(chunk as nat == (d[(pos / 8) as int] as nat / pow2(pos % 8)) % pow2(copybits as nat));
                assert(copybits as nat == if m < 8 - pos % 8 { m } else { (8 - pos % 8) as nat });
                assert(bits_value(d, pos, m, big) == if big {
                    chunk * pow2(rest) + bits_value(d, (pos + copybits) as nat, rest, big)
                } else {
                    chunk + pow2(copybits as nat) * bits_value(d, (pos + copybits) as nat, rest, big)
                });
            }
            if self.bigendian {
                proof {
                    let pr = pow2(resultbits as nat);
                    let pc = p_c as nat;
                    let pn = pow2((resultbits + copybits) as nat);
                    let ps = pow2(rest);
                    let v = bits_value(d, (pos + copybits) as nat, rest, true);
                    assert(pn == pr * pc);
                    assert(pow2(m) == pc * ps);
                    assert(result * pc + chunk < pn) by (nonlinear_arith)
                        requires
                            result < pr,
                            chunk < pc,
                            pn == pr * pc,
                    ;
                    assert(result * pow2(m) + (chunk * ps + v) == (result * pc + chunk) * ps + v)
                        by (nonlinear_arith)
                        requires
                            pow2(m) == pc * ps,
                    ;
                    assert(pn <= pow2(128)) by (nonlinear_arith)
                        requires
                            pow2(128) == pn * pow2((128 - resultbits - copybits) as nat),
                            pow2((128 - resultbits - copybits) as nat) > 0,
                            pn > 0,
                    ;
                }
                result = result * (p_c as u128) + chunk as u128;
            } else {
                proof {
                    let pr = pow2(resultbits as nat);
                    let pc = p_c as nat;
                    let pn = pow2((resultbits + copybits) as nat);
                    let v = bits_value(d, (pos + copybits) as nat, rest, false);
                    assert(pn == pr * pc);
                    assert(result + chunk * pr < pn) by (nonlinear_arith)
                        requires
                            result < pr,
                            chunk < pc,
                            pn == pr * pc,
                    ;
                    assert(result + pr * (chunk + pc * v) == (result + chunk * pr) + pn * v)
                        by (nonlinear_arith)
                        requires
                            pn == pr * pc,
                    ;
                    assert(pn <= pow2(128)) by (nonlinear_arith)
                        requires
                            pow2(128) == pn * pow2((128 - resultbits - copybits) as nat),
                            pow2((128 - resultbits - copybits) as nat) > 0,
                            pn > 0,
                    ;
                }
                result = result + (chunk as u128) * scale;
                if resultbits + copybits < bits {
                    proof {
                        vstd::arithmetic::power2::lemma_pow2_strictly_increases(
                            (resultbits + copybits) as nat,
                            128,
                        );
                    }
                    scale = scale * (p_c as u128);
                }
            }
            self.nextbits = self.nextbits - copybits as usize;
            resultbits = resultbits + copybits;
        }
        proof {
            lemma2_to64();
            assert(bits_value(d, self.bit_pos(), 0, big) == 0);
            assert(resultbits == bits);
            assert(pow2(0) == 1);
            assert(((bits - resultbits) as nat) == 0);
            if big {
                assert(bits_value(d, start, bits as nat, true) == result * pow2(0) + 0);
            } else {
                assert(bits_value(d, start, bits as nat, false) == result + pow2(bits as nat) * 0);
            }
            assert(result as nat == bits_value(d, start, bits as nat, big));
        }
        Ok(result)
    }

    /// Aligns to a byte boundary, then takes the next `bytes` bytes.
    pub fn read_aligned_bytes(&mut self, bytes: usize) -> (r: Result<Vec<u8>, DecodeError>)
        requires
            old(self).wf(),
        ensures
            final(self).wf(),
            final(self).bytes() == old(self).bytes(),
            final(self).is_big_endian() == old(self).is_big_endian(),
            r is Ok <==> old(self).position() + bytes <= old(self).bytes().len(),
            r is Err ==> r == Err::<Vec<u8>, DecodeError>(DecodeError::Truncated),
            r matches Ok(v) ==> {
                &&& v@ == old(self).bytes().subrange(
                    old(self).position() as int,
                    old(self).position() + bytes,
                )
                &&& final(self).bit_pos() == (old(self).position() + bytes) * 8
                &&& final(self).position() == old(self).position() + bytes
                &&& final(self).pending_bits() == 0
            },
    {
        self.byte_align();
        if bytes > self.data.len() - self.used {
            return Err(DecodeError::Truncated);
        }
        let mut out: Vec<u8> = Vec::new();
        let start = self.used;
        let end = self.used + bytes;
        let mut i: usize = start;
        while i < end
            invariant
                start <= i <= end <= self.data.len(),
                out@ == self.data@.subrange(start as int, i as int),
            decreases end - i,
        {
            out.push(self.data[i]);
            i = i + 1;
        }
        self.used = end;
        Ok(out)
    }

    /// Reads `bytes` bytes of 8 bits each, without aligning first.
    pub fn read_unaligned_bytes(&mut self, bytes: u8) -> (r: Result<Vec<u8>, DecodeError>)
        requires
            old(self).wf(),
        ensures
            final(self).wf(),
            final(self).bytes() == old(self).bytes(),
            final(self).is_big_endian() == old(self).is_big_endian(),
            r is Ok <==> 8 * bytes <= old(self).remaining_bits(),
            r is Err ==> r == Err::<Vec<u8>, DecodeError>(DecodeError::Truncated),
            r matches Ok(v) ==> {
                &&& v@.len() == bytes
                &&& forall|k: int|
                    0 <= k < bytes ==> #[trigger] v@[k] as nat == bits_value(
                        old(self).bytes(),
                        (old(self).bit_pos() + 8 * k) as nat,
                        8,
                        old(self).is_big_endian(),
                    )
                &&& final(self).bit_pos() == old(self).bit_pos() + 8 * bytes
            },
    {
        let mut out: Vec<u8> = Vec::new();
        let mut i: u8 = 0;
        while i < bytes
            invariant
                self.wf(),
                self.data@ == old(self).data@,
                self.bigendian == old(self).bigendian,
                i <= bytes,
                self.bit_pos() == old(self).bit_pos() + 8 * i,
                out@.len() == i,
                forall|k: int|
                    0 <= k < i ==> #[trigger] out@[k] as nat == bits_value(
                        old(self).bytes(),
                        (old(self).bit_pos() + 8 * k) as nat,
                        8,
                        old(self).is_big_endian(),
                    ),
            decreases bytes - i,
        {
            let b = self.read_bits(8);
            match b {
                Ok(v) => {
                    proof {
                        lemma_bits_value_bound(self.data@, (old(self).bit_pos() + 8 * i) as nat, 8, self.bigendian);
                        lemma2_to64();
                    }
                    out.push(v as u8);
                },
                Err(e) => {
                    return Err(e);
                },
            }
            i = i + 1;
        }
        Ok(out)
    }
}

/// A value of `n` bits is below `2^n`.
pub proof fn lemma_bits_value_bound(data: Seq<u8>, pos: nat, n: nat, big: bool)
    ensures
        bits_value(data, pos, n, big) < pow2(n),
    decreases n,
{
    lemma_pow2_pos(n);
    if n > 0 {
        let off = pos % 8;
        let c: nat = if n < 8 - off {
            n
        } else {
            (8 - off) as nat
        };
        let rest = (n - c) as nat;
        let chunk = (data[(pos / 8) as int] as nat / pow2(off)) % pow2(c);
        let v = bits_value(data, pos + c, rest, big);
        lemma_bits_value_bound(data, pos + c, rest, big);
        lemma_pow2_pos(c);
        lemma_pow2_pos(rest);
        lemma_pow2_adds(c, rest);
        let pc = pow2(c);
        let ps = pow2(rest);
        assert(chunk < pc);
        if big {
            assert(chunk * ps + v < pc * ps) by (nonlinear_arith)
                requires
                    chunk < pc,
                    v < ps,
            ;
        } else {
            assert(chunk + pc * v < pc * ps) by (nonlinear_arith)
                requires
                    chunk < pc,
                    v < ps,
            ;
        }
    }
}

/// Within one byte, reading `w` bits and then `8 - w` bits gives the two
/// parts of what one read of 8 bits gives: the first read holds the low `w`
/// bits of the byte, the second the high `8 - w` bits, in either bit order.
pub proof fn lemma_split_byte_read(data: Seq<u8>, pos: nat, w: nat, big: bool)
    requires
        pos % 8 == 0,
        pos + 8 <= data.len() * 8,
        w < 8,
    ensures
        bits_value(data, pos, 8, big) == data[(pos / 8) as int],
        bits_value(data, pos, 8, big) == bits_value(data, pos, w, big) + pow2(w) * bits_value(
            data,
            pos + w,
            (8 - w) as nat,
            big,
        ),
{
    let byte = data[(pos / 8) as int] as nat;
    lemma2_to64();
    lemma_pow2_pos(w);
    lemma_pow2_adds(w, (8 - w) as nat);
    assert((pos + w) / 8 == pos / 8);
    assert((pos + w) % 8 == w);
    assert(bits_value(data, pos, 8, big) == byte % 256 * pow2(0) + bits_value(data, pos + 8, 0, big)
        || bits_value(data, pos, 8, big) == byte % 256 + pow2(8) * bits_value(data, pos + 8, 0, big));
    assert(byte % 256 == byte);
    assert(bits_value(data, pos, 8, big) == byte);
    assert(byte / 1 == byte);
    assert(byte / pow2(0) == byte);
    assert(pos % 8 == 0 && (pos / 8) as int == (pos / 8) as int);
    let lo = byte % pow2(w);
    let hi = (byte / pow2(w)) % pow2((8 - w) as nat);
    if w > 0 {
        assert((data[(pos / 8) as int] as nat / pow2(pos % 8)) % pow2(w) == lo);
        assert(bits_value(data, pos + w, 0, big) == 0);
        assert(pow2(w) * 0 == 0);
        if big {
            assert(bits_value(data, pos, w, big) == lo * pow2(0) + bits_value(data, pos + w, 0, big));
        } else {
            assert(bits_value(data, pos, w, big) == lo + pow2(w) * bits_value(data, pos + w, 0, big));
        }
    } else {
        assert(lo == 0);
    }
    assert(lo * pow2(0) == lo);
    assert(bits_value(data, pos, w, big) == lo);
    assert(bits_value(data, pos + w, (8 - w) as nat, big) == hi * pow2(0) + bits_value(data, pos + 8, 0, big)
        || bits_value(data, pos + w, (8 - w) as nat, big) == hi + pow2((8 - w) as nat) * bits_value(data, pos + 8, 0, big));
    assert(bits_value(data, pos + w, (8 - w) as nat, big) == hi);
    vstd::arithmetic::div_mod::lemma_fundamental_div_mod(byte as int, pow2(w) as int);
    assert(byte / pow2(w) < pow2((8 - w) as nat)) by {
        vstd::arithmetic::div_mod::lemma_multiply_divide_lt(byte as int, pow2(w) as int, pow2((8 - w) as nat) as int);
    }
    vstd::arithmetic::div_mod::lemma_small_mod(byte / pow2(w), pow2((8 - w) as nat));
}

/// Aligning twice leaves the cursor where aligning once does.
pub proof fn lemma_byte_align_idempotent(b: BitPackedBuffer)
    ensures
        b.spec_byte_align().spec_byte_align() == b.spec_byte_align(),
{
}

} // verus!
