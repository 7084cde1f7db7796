//! The versioned wire format: every value carries a kind byte, integers are
//! variable-length, and struct fields are found by tag.
use vstd::prelude::*;
use vstd::arithmetic::power2::{pow2, lemma2_to64, lemma_pow2_adds, lemma_pow2_pos};

use crate::bitbuffer::{BitPackedBuffer, lemma_split_byte_read};
use crate::bitpacked::{choice_result, choice_value, decoded, prepend};
use crate::error::DecodeError;
use crate::schema::{Int, ProtocolTypeInfo, Struct, choice_index, field_index, find_choice, find_field};
use crate::text::{text_of, text_or_empty};
use crate::value::{DecoderResult, EventEntry, Val, models, entry_models, lemma_array_model, lemma_struct_model};

verus! {

/// The number of bytes of the varint at `q`, counted up to the end of `data`.
pub open spec fn vint_len(data: Seq<u8>, q: nat) -> nat
    decreases data.len() - q,
{
    if q >= data.len() {
        0
    } else if data[q as int] >= 128 {
        1 + vint_len(data, q + 1)
    } else {
        1
    }
}

/// The varint at `q` ends with a byte whose high bit is clear.
pub open spec fn vint_complete(data: Seq<u8>, q: nat) -> bool
    decreases data.len() - q,
{
    if q >= data.len() {
        false
    } else if data[q as int] >= 128 {
        vint_complete(data, q + 1)
    } else {
        true
    }
}

/// The magnitude that the continuation bytes from `q` on contribute, the
/// first of them at bit `shift`.
pub open spec fn vint_tail(data: Seq<u8>, q: nat, shift: nat) -> int
    decreases data.len() - q,
{
    if q >= data.len() {
        0
    } else {
        (data[q as int] % 128) as int * pow2(shift) as int + if data[q as int] >= 128 {
            vint_tail(data, q + 1, shift + 7)
        } else {
            0
        }
    }
}

/// The magnitude of the varint at `q`: six bits from its first byte, then
/// seven from each continuation byte.
pub open spec fn vint_magnitude(data: Seq<u8>, q: nat) -> int {
    (data[q as int] / 2 % 64) as int + if data[q as int] >= 128 {
        vint_tail(data, q + 1, 6)
    } else {
        0
    }
}

/// Decoding the varint at byte `q`: bit 0 of the first byte is the sign.
pub open spec fn vint_spec(data: Seq<u8>, q: nat) -> Result<(i64, nat), DecodeError> {
    if !vint_complete(data, q) {
        Err(DecodeError::Truncated)
    } else if vint_magnitude(data, q) >= pow2(63) {
        Err(DecodeError::Corrupted)
    } else {
        let m = vint_magnitude(data, q);
        Ok(
            (
                if data[q as int] % 2 == 1 {
                    (-m) as i64
                } else {
                    m as i64
                },
                q + vint_len(data, q),
            ),
        )
    }
}

/// The position after the varint at `q`.
pub open spec fn vint_end(data: Seq<u8>, q: nat) -> nat {
    q + vint_len(data, q)
}

/// Taking `n` bytes at `q`.
pub open spec fn bytes_spec(data: Seq<u8>, q: nat, n: int) -> Result<(Seq<u8>, nat), DecodeError> {
    if n < 0 {
        Err(DecodeError::Corrupted)
    } else if q + n <= data.len() {
        Ok((data.subrange(q as int, q + n), (q + n) as nat))
    } else {
        Err(DecodeError::Truncated)
    }
}

/// The running wrapping sum of bytes.
pub open spec fn byte_sum(acc: i16, b: Seq<u8>) -> i16
    decreases b.len(),
{
    if b.len() == 0 {
        acc
    } else {
        byte_sum(acc.wrapping_add(b[0] as i16), b.drop_first())
    }
}

/// Skipping one value of any kind at `q`: the position after it.
pub open spec fn skip_spec(data: Seq<u8>, q: nat) -> Result<nat, DecodeError>
    decreases data.len() - q, 0nat,
{
    if q >= data.len() {
        Err(DecodeError::Truncated)
    } else {
        let kind = data[q as int];
        let p = q + 1;
        if kind == 4 {
            if p >= data.len() {
                Err(DecodeError::Truncated)
            } else if data[p as int] != 0 {
                skip_spec(data, p + 1)
            } else {
                Ok(p + 1)
            }
        } else if kind == 6 || kind == 7 || kind == 8 {
            let n: int = if kind == 6 {
                1
            } else if kind == 7 {
                4
            } else {
                8
            };
            match bytes_spec(data, p, n) {
                Ok((_, e)) => Ok(e),
                Err(x) => Err(x),
            }
        } else if kind > 9 {
            Err(DecodeError::Corrupted)
        } else {
            match vint_spec(data, p) {
                Err(x) => Err(x),
                Ok((n, e)) => {
                    proof {
                        lemma_vint_len_bound(data, p);
                    }
                    let e = vint_end(data, p);
                    if kind == 0 {
                        skip_n(data, e, if n < 0 { 0 } else { n as nat }, false)
                    } else if kind == 5 {
                        skip_n(data, e, if n < 0 { 0 } else { n as nat }, true)
                    } else if kind == 3 {
                        skip_spec(data, e)
                    } else if kind == 9 {
                        Ok(e)
                    } else if n < 0 {
                        Err(DecodeError::Corrupted)
                    } else {
                        let len = if kind == 1 {
                            (n + 7) / 8
                        } else {
                            n as int
                        };
                        match bytes_spec(data, e, len) {
                            Ok((_, f)) => Ok(f),
                            Err(x) => Err(x),
                        }
                    }
                },
            }
        }
    }
}

/// Skipping `n` values in a row, each after a tag varint when `tagged`.
pub open spec fn skip_n(data: Seq<u8>, q: nat, n: nat, tagged: bool) -> Result<nat, DecodeError>
    decreases data.len() - q, n,
{
    if n == 0 {
        Ok(q)
    } else if q > data.len() {
        Err(DecodeError::Truncated)
    } else {
        let tag = if tagged {
            vint_spec(data, q)
        } else {
            Ok((0, q))
        };
        match tag {
            Err(x) => Err(x),
            Ok(_) => {
                proof {
                    lemma_vint_len_bound(data, q);
                }
                let q1 = if tagged {
                    vint_end(data, q)
                } else {
                    q
                };
                match skip_spec(data, q1) {
                    Err(x) => Err(x),
                    // skipping always moves forward within the data, so the first
                    // branch is never taken
                    Ok(q2) => if q2 < q || q2 > data.len() {
                        Err(DecodeError::Corrupted)
                    } else {
                        skip_n(data, q2, (n - 1) as nat, tagged)
                    },
                }
            },
        }
    }
}

/// Reading the kind byte at `q`: it must be `kind`.
pub open spec fn expect_spec(data: Seq<u8>, q: nat, kind: u8) -> Result<nat, DecodeError> {
    if q >= data.len() {
        Err(DecodeError::Truncated)
    } else if data[q as int] != kind {
        Err(DecodeError::Corrupted)
    } else {
        Ok(q + 1)
    }
}

/// Decoding a node whose type holds no other type, at byte `q`.
pub open spec fn v_leaf(t: ProtocolTypeInfo, data: Seq<u8>, q: nat) -> Result<(Val, nat), DecodeError> {
    match t {
        ProtocolTypeInfo::Int(_) => match expect_spec(data, q, 9) {
            Ok(p) => match vint_spec(data, p) {
                Ok((v, e)) => Ok((Val::Value(v), e)),
                Err(x) => Err(x),
            },
            Err(x) => Err(x),
        },
        ProtocolTypeInfo::Blob(_) => match expect_spec(data, q, 2) {
            Ok(p) => match vint_spec(data, p) {
                Ok((n, e)) => match bytes_spec(data, e, n as int) {
                    Ok((b, f)) => Ok((Val::Blob(text_of(b)), f)),
                    Err(x) => Err(x),
                },
                Err(x) => Err(x),
            },
            Err(x) => Err(x),
        },
        ProtocolTypeInfo::Bool => match expect_spec(data, q, 6) {
            Ok(p) => if p < data.len() {
                Ok((Val::Bool(data[p as int] != 0), p + 1))
            } else {
                Err(DecodeError::Truncated)
            },
            Err(x) => Err(x),
        },
        ProtocolTypeInfo::Null => Ok((Val::Null, q)),
        ProtocolTypeInfo::BitArray(_) => match expect_spec(data, q, 1) {
            Ok(p) => match vint_spec(data, p) {
                Ok((n, e)) => if n < 0 {
                    Err(DecodeError::Corrupted)
                } else {
                    match bytes_spec(data, e, (n + 7) / 8) {
                        Ok((b, f)) => Ok((Val::Pair(n, byte_sum(0, b)), f)),
                        Err(x) => Err(x),
                    }
                },
                Err(x) => Err(x),
            },
            Err(x) => Err(x),
        },
        ProtocolTypeInfo::FourCC => match expect_spec(data, q, 7) {
            Ok(p) => match bytes_spec(data, p, 4) {
                Ok((b, f)) => Ok((Val::Blob(text_of(b)), f)),
                Err(x) => Err(x),
            },
            Err(x) => Err(x),
        },
        _ => Err(DecodeError::Corrupted),
    }
}

/// Decoding the node of type `id` at byte `q`: the value and the position
/// after. `fuel` bounds how deep types may nest; a table without cycles never
/// nests deeper than its length, which is the fuel a decode starts with.
pub open spec fn v_decode(
    s: Seq<ProtocolTypeInfo>,
    id: int,
    data: Seq<u8>,
    q: nat,
    allowed: bool,
    fuel: nat,
) -> Result<(Val, nat), DecodeError>
    decreases fuel, 1int, 0int,
{
    if id < 0 || id >= s.len() || fuel == 0 {
        Err(DecodeError::Corrupted)
    } else {
        let f = (fuel - 1) as nat;
        match s[id] {
            ProtocolTypeInfo::Array(_, elem) => match expect_spec(data, q, 0) {
                Ok(p) => match vint_spec(data, p) {
                    Ok((n, e)) => match v_array(
                        s,
                        f,
                        elem as int,
                        if n < 0 {
                            0
                        } else {
                            n as nat
                        },
                        data,
                        e,
                        allowed,
                    ) {
                        Ok((vs, g)) => Ok((Val::Array(vs), g)),
                        Err(x) => Err(x),
                    },
                    Err(x) => Err(x),
                },
                Err(x) => Err(x),
            },
            ProtocolTypeInfo::Optional(t) => match expect_spec(data, q, 4) {
                Ok(p) => if p >= data.len() {
                    Err(DecodeError::Truncated)
                } else if data[p as int] == 0 {
                    Ok((Val::Null, p + 1))
                } else {
                    v_decode(s, t as int, data, p + 1, allowed, f)
                },
                Err(x) => Err(x),
            },
            ProtocolTypeInfo::Choice(_, arms) => match expect_spec(data, q, 3) {
                Ok(p) => match vint_spec(data, p) {
                    Ok((tag, e)) => match choice_index(arms@, tag) {
                        None => match skip_spec(data, e) {
                            Ok(g) => Ok((Val::Pair(0, 0), g)),
                            Err(x) => Err(x),
                        },
                        Some(k) => match v_decode(s, arms@[k].1.1 as int, data, e, allowed, f) {
                            Ok((v, g)) => Ok((choice_value(arms@[k].1.0@, v, allowed), g)),
                            Err(x) => Err(x),
                        },
                    },
                    Err(x) => Err(x),
                },
                Err(x) => Err(x),
            },
            ProtocolTypeInfo::Struct(fields) => match expect_spec(data, q, 5) {
                Ok(p) => match vint_spec(data, p) {
                    Ok((n, e)) => match v_items(
                        s,
                        f,
                        fields@,
                        if n < 0 {
                            0
                        } else {
                            n as nat
                        },
                        data,
                        e,
                        allowed,
                    ) {
                        Ok((es, g)) => Ok((Val::Struct(es), g)),
                        Err(x) => Err(x),
                    },
                    Err(x) => Err(x),
                },
                Err(x) => Err(x),
            },
            _ => v_leaf(s[id], data, q),
        }
    }
}

/// Decoding `k` array elements of type `elem`, each with `fuel`.
pub open spec fn v_array(
    s: Seq<ProtocolTypeInfo>,
    fuel: nat,
    elem: int,
    k: nat,
    data: Seq<u8>,
    q: nat,
    allowed: bool,
) -> Result<(Seq<Val>, nat), DecodeError>
    decreases fuel + 1, 0int, k,
{
    if k == 0 {
        Ok((Seq::empty(), q))
    } else {
        match v_decode(s, elem, data, q, allowed, fuel) {
            Ok((v, p)) => prepend(seq![v], v_array(s, fuel, elem, (k - 1) as nat, data, p, allowed)),
            Err(x) => Err(x),
        }
    }
}

/// Decoding one tagged struct item at `q`: a known tag decodes its field with
/// `fuel`, kept when `allowed`; an unknown tag is skipped.
pub open spec fn v_item(
    s: Seq<ProtocolTypeInfo>,
    fuel: nat,
    fields: Seq<Struct>,
    data: Seq<u8>,
    q: nat,
    allowed: bool,
) -> Result<(Seq<(Seq<char>, Val)>, nat), DecodeError>
    decreases fuel + 1, 0int, 0int,
{
    match vint_spec(data, q) {
        Err(x) => Err(x),
        Ok((tag, e)) => match field_index(fields, tag) {
            None => match skip_spec(data, e) {
                Ok(g) => Ok((Seq::empty(), g)),
                Err(x) => Err(x),
            },
            Some(j) => if j < 0 || j >= fields.len() {
                Err(DecodeError::Corrupted)
            } else {
                match v_decode(s, fields[j].1 as int, data, e, allowed, fuel) {
                    Ok((v, p)) => Ok(
                        (
                            if allowed {
                                seq![(fields[j].0@, v)]
                            } else {
                                Seq::empty()
                            },
                            p,
                        ),
                    ),
                    Err(x) => Err(x),
                }
            },
        },
    }
}

/// Decoding `k` tagged struct items in a row.
pub open spec fn v_items(
    s: Seq<ProtocolTypeInfo>,
    fuel: nat,
    fields: Seq<Struct>,
    k: nat,
    data: Seq<u8>,
    q: nat,
    allowed: bool,
) -> Result<(Seq<(Seq<char>, Val)>, nat), DecodeError>
    decreases fuel + 1, 0int, k,
{
    if k == 0 {
        Ok((Seq::empty(), q))
    } else {
        match v_item(s, fuel, fields, data, q, allowed) {
            Ok((es1, p)) => prepend(es1, v_items(s, fuel, fields, (k - 1) as nat, data, p, allowed)),
            Err(x) => Err(x),
        }
    }
}

pub proof fn lemma_vint_len_bound(data: Seq<u8>, q: nat)
    ensures
        q < data.len() ==> 1 <= vint_len(data, q) && q + vint_len(data, q) <= data.len(),
        vint_complete(data, q) ==> q < data.len(),
    decreases data.len() - q,
{
    if q < data.len() {
        lemma_vint_len_bound(data, q + 1);
        if q + 1 >= data.len() {
            assert(vint_len(data, q + 1) == 0);
        }
    }
}

pub proof fn lemma_vint_tail_nonneg(data: Seq<u8>, q: nat, shift: nat)
    ensures
        vint_tail(data, q, shift) >= 0,
    decreases data.len() - q,
{
    lemma_pow2_pos(shift);
    if q < data.len() {
        lemma_vint_tail_nonneg(data, q + 1, shift + 7);
        assert((data[q as int] % 128) as int * pow2(shift) as int >= 0) by (nonlinear_arith)
            requires
                pow2(shift) > 0,
        ;
    }
}

/// The continuation bytes that encode `x`, seven bits each, lowest first.
pub open spec fn vint_encode_tail(x: nat) -> Seq<u8>
    decreases x,
{
    if x < 128 {
        seq![x as u8]
    } else {
        seq![(x % 128 + 128) as u8] + vint_encode_tail(x / 128)
    }
}

/// The varint encoding of `v`: the sign in bit 0 of the first byte, six bits
/// of magnitude above it, then continuation bytes.
pub open spec fn vint_encode(v: int) -> Seq<u8> {
    let m: nat = if v < 0 {
        (-v) as nat
    } else {
        v as nat
    };
    let sign: nat = if v < 0 {
        1
    } else {
        0
    };
    if m < 64 {
        seq![(m * 2 + sign) as u8]
    } else {
        seq![((m % 64) * 2 + sign + 128) as u8] + vint_encode_tail(m / 64)
    }
}

proof fn lemma_vint_tail_round_trip(data: Seq<u8>, q: nat, x: nat, shift: nat)
    requires
        q + vint_encode_tail(x).len() <= data.len(),
        data.subrange(q as int, (q + vint_encode_tail(x).len()) as int) == vint_encode_tail(x),
    ensures
        vint_complete(data, q),
        vint_len(data, q) == vint_encode_tail(x).len(),
        vint_tail(data, q, shift) == x * pow2(shift),
    decreases x,
{
    let e = vint_encode_tail(x);
    assert(data[q as int] == e[0]);
    lemma_pow2_pos(shift);
    if x < 128 {
        assert(data[q as int] == x);
        assert((x % 128) == x);
    } else {
        let rest = vint_encode_tail(x / 128);
        assert(e == seq![(x % 128 + 128) as u8] + rest);
        assert(data.subrange((q + 1) as int, (q + 1 + rest.len()) as int) =~= rest) by {
            assert forall|k: int| 0 <= k < rest.len() implies data.subrange((q + 1) as int, (q + 1 + rest.len()) as int)[k] == rest[k] by {
                assert(data.subrange(q as int, (q + e.len()) as int)[k + 1] == e[k + 1]);
            }
        }
        lemma_vint_tail_round_trip(data, q + 1, x / 128, shift + 7);
        lemma_pow2_adds(shift, 7);
        lemma2_to64();
        assert(data[q as int] % 128 == x % 128);
        assert((x % 128) * pow2(shift) + (x / 128) * pow2(shift + 7) == x * pow2(shift)) by (nonlinear_arith)
            requires
                pow2(shift + 7) == pow2(shift) * 128,
        ;
    }
}

/// Decoding the encoding of any 64-bit integer but the least, wherever it
/// stands in the bytes, gives it back, and the varint ends where the encoding
/// does.
pub proof fn lemma_vint_round_trip(v: i64, before: Seq<u8>, rest: Seq<u8>)
    requires
        v > i64::MIN,
    ensures
        vint_spec(before + vint_encode(v as int) + rest, before.len()) == Ok::<(i64, nat), DecodeError>(
            (v, before.len() + vint_encode(v as int).len()),
        ),
{
    let e = vint_encode(v as int);
    let data = before + e + rest;
    let q = before.len();
    let m: nat = if v < 0 {
        (-v) as nat
    } else {
        v as nat
    };
    lemma2_to64();
    vstd::arithmetic::power2::lemma2_to64_rest();
    assert(m < pow2(63));
    assert(data[q as int] == e[0]);
    if m < 64 {
        assert(vint_len(data, q) == 1);
        assert(data[q as int] / 2 % 64 == m);
        assert(vint_magnitude(data, q) == m);
    } else {
        let t = vint_encode_tail(m / 64);
        assert(e == seq![((m % 64) * 2 + (if v < 0 { 1nat } else { 0nat }) + 128) as u8] + t);
        assert(data.subrange((q + 1) as int, (q + 1 + t.len()) as int) =~= t) by {
            assert forall|k: int| 0 <= k < t.len() implies data.subrange((q + 1) as int, (q + 1 + t.len()) as int)[k] == t[k] by {
                assert(data[q + k + 1] == e[k + 1]);
            }
        }
        lemma_vint_tail_round_trip(data, q + 1, m / 64, 6);
        assert(data[q as int] >= 128);
        assert(data[q as int] / 2 % 64 == m % 64);
        assert(vint_magnitude(data, q) == m % 64 + (m / 64) * 64);
        assert(vint_magnitude(data, q) == m);
    }
}

/// Decodes the versioned format against a type table.
pub struct VersionedDecoder<'a> {
    pub buffer: BitPackedBuffer,
    pub typeinfos: &'a [ProtocolTypeInfo],
}

impl<'a> VersionedDecoder<'a> {
    pub open spec fn schema(&self) -> Seq<ProtocolTypeInfo> {
        self.typeinfos@
    }

    /// The cursor is at a byte boundary.
    pub open spec fn wf(&self) -> bool {
        &&& self.buffer.wf()
        &&& self.buffer.bit_pos() % 8 == 0
    }

    /// The byte position of the cursor.
    pub open spec fn at(&self) -> nat {
        self.buffer.bit_pos() / 8
    }

    /// `self` reads the same bytes against the same table as `prev`.
    pub open spec fn continues(&self, prev: &Self) -> bool {
        &&& self.buffer.wf()
        &&& self.buffer.bytes() == prev.buffer.bytes()
        &&& self.schema() == prev.schema()
    }

    /// What decoding type `id` from the current position gives, with a depth
    /// budget of `fuel`.
    pub open spec fn spec_within(&self, id: int, allowed: bool, fuel: nat) -> Result<
        (Val, nat),
        DecodeError,
    > {
        v_decode(self.schema(), id, self.buffer.bytes(), self.at(), allowed, fuel)
    }

    /// What decoding type `id` from the current position gives.
    pub open spec fn spec_instance(&self, id: int, allowed: bool) -> Result<(Val, nat), DecodeError> {
        self.spec_within(id, allowed, self.schema().len())
    }

    pub fn new(contents: Vec<u8>, typeinfos: &'a [ProtocolTypeInfo]) -> (r: VersionedDecoder<'a>)
        requires
            contents.len() * 8 <= usize::MAX,
        ensures
            r.wf(),
            r.buffer.bytes() == contents@,
            r.at() == 0,
            r.schema() == typeinfos@,
    {
        let buffer = BitPackedBuffer::new(contents);
        VersionedDecoder { buffer, typeinfos }
    }

    fn read_byte(&mut self) -> (r: Result<u8, DecodeError>)
        requires
            old(self).wf(),
        ensures
            final(self).continues(old(self)),
            r is Ok ==> final(self).wf(),
            old(self).at() < old(self).buffer.bytes().len() ==> r == Ok::<u8, DecodeError>(
                old(self).buffer.bytes()[old(self).at() as int],
            ) && final(self).at() == old(self).at() + 1,
            old(self).at() >= old(self).buffer.bytes().len() ==> r == Err::<u8, DecodeError>(
                DecodeError::Truncated,
            ),
    {
        proof {
            self.buffer.lemma_wf_facts();
            if self.at() < self.buffer.bytes().len() {
                lemma_split_byte_read(self.buffer.bytes(), self.buffer.bit_pos(), 0, self.buffer.is_big_endian());
            }
        }
        match self.buffer.read_bits(8) {
            Ok(v) => Ok(v as u8),
            Err(e) => Err(e),
        }
    }

    fn read_bytes(&mut self, n: usize) -> (r: Result<Vec<u8>, DecodeError>)
        requires
            old(self).wf(),
        ensures
            final(self).continues(old(self)),
            r is Ok ==> final(self).wf(),
            match bytes_spec(old(self).buffer.bytes(), old(self).at(), n as int) {
                Ok((b, e)) => r matches Ok(x) && x@ == b && final(self).at() == e,
                Err(x) => r == Err::<Vec<u8>, DecodeError>(x),
            },
    {
        proof {
            self.buffer.lemma_wf_facts();
        }
        self.buffer.read_aligned_bytes(n)
    }

    /// Reads the kind byte and checks it.
    fn expect_skip(&mut self, expected: u8) -> (r: Result<(), DecodeError>)
        requires
            old(self).wf(),
        ensures
            final(self).continues(old(self)),
            r is Ok ==> final(self).wf(),
            old(self).at() < old(self).buffer.bytes().len() ==> final(self).wf() && final(self).at()
                == old(self).at() + 1,
            match expect_spec(old(self).buffer.bytes(), old(self).at(), expected) {
                Ok(p) => r is Ok && final(self).at() == p,
                Err(x) => r == Err::<(), DecodeError>(x),
            },
    {
        match self.read_byte() {
            Ok(b) => if b != expected {
                Err(DecodeError::Corrupted)
            } else {
                Ok(())
            },
            Err(e) => Err(e),
        }
    }

    /// Reads a variable-length integer.
    pub fn _vint(&mut self) -> (r: Result<i64, DecodeError>)
        requires
            old(self).wf(),
        ensures
            final(self).continues(old(self)),
            r is Ok ==> final(self).wf(),
            match vint_spec(old(self).buffer.bytes(), old(self).at()) {
                Ok((v, e)) => r == Ok::<i64, DecodeError>(v) && final(self).at() == e,
                Err(x) => r == Err::<i64, DecodeError>(x),
            },
    {
        let ghost data = self.buffer.bytes();
        let ghost q0 = self.at();
        let b0 = match self.read_byte() {
            Ok(b) => b,
            Err(e) => return Err(e),
        };
        proof {
            lemma2_to64();
            vstd::arithmetic::power2::lemma2_to64_rest();
            lemma_pow2_pos(6);
        }
        let negative = b0 % 2 == 1;
        let mut mag: u64 = (b0 / 2 % 64) as u64;
        let mut more = b0 >= 128;
        let mut scale: u128 = 64;
        let mut big_shift = false;
        let mut overflow = false;
        let ghost mut shift: nat = 6;
        let ghost mut acc: int = 0;
        let ghost first: int = (b0 / 2 % 64) as int;
        let ghost total: int = if b0 >= 128 {
            vint_tail(data, q0 + 1, 6)
        } else {
            0
        };
        while more
            invariant
                self.continues(old(self)),
                self.wf(),
                data == self.buffer.bytes(),
                data == old(self).buffer.bytes(),
                q0 == old(self).at(),
                q0 < data.len(),
                b0 == data[q0 as int],
                first == (b0 / 2 % 64) as int,
                total == (if b0 >= 128 { vint_tail(data, q0 + 1, 6) } else { 0 }),
                self.at() > q0,
                total == acc + if more {
                    vint_tail(data, self.at(), shift)
                } else {
                    0
                },
                vint_complete(data, q0) == if more {
                    vint_complete(data, self.at())
                } else {
                    true
                },
                vint_len(data, q0) == (self.at() - q0) + if more {
                    vint_len(data, self.at())
                } else {
                    0
                },
                acc >= 0,
                !overflow ==> mag == first + acc && mag < pow2(63),
                overflow ==> first + acc >= pow2(63),
                !big_shift ==> scale == pow2(shift) && scale <= pow2(63),
                big_shift ==> pow2(shift) > pow2(63),
                pow2(63) == 0x8000_0000_0000_0000,
            decreases data.len() - self.at(),
        {
            proof {
                self.buffer.lemma_wf_facts();
            }
            let ghost q = self.at();
            let b = match self.read_byte() {
                Ok(b) => b,
                Err(e) => return Err(e),
            };
            let part: u128 = (b % 128) as u128;
            proof {
                lemma2_to64();
                lemma_pow2_pos(shift);
                lemma_vint_tail_nonneg(data, q + 1, shift + 7);
                lemma_pow2_adds(shift, 7);
                assert(part * pow2(shift) >= 0) by (nonlinear_arith)
                    requires
                        pow2(shift) > 0,
                ;
                if part == 0 {
                    assert(part * pow2(shift) == 0) by (nonlinear_arith)
                        requires
                            part == 0,
                    ;
                } else {
                    assert(part * pow2(shift) >= pow2(shift)) by (nonlinear_arith)
                        requires
                            part >= 1,
                    ;
                }
                assert(pow2(shift + 7) >= pow2(shift));
            }
            if part != 0 && !overflow {
                if big_shift {
                    overflow = true;
                } else {
                    assert(part * scale <= 127 * 0x8000_0000_0000_0000) by (nonlinear_arith)
                        requires
                            part < 128,
                            scale <= 0x8000_0000_0000_0000u128,
                    ;
                    let total_now: u128 = mag as u128 + part * scale;
                    if total_now >= 0x8000_0000_0000_0000 {
                        overflow = true;
                    } else {
                        mag = total_now as u64;
                    }
                }
            }
            proof {
                acc = acc + part * pow2(shift);
            }
            if !big_shift {
                if scale > 0x8000_0000_0000_0000 / 128 {
                    big_shift = true;
                } else {
                    scale = scale * 128;
                }
            }
            proof {
                shift = shift + 7;
            }
            more = b >= 128;
        }
        proof {
            if b0 < 128 {
                assert(vint_len(data, q0) == 1);
            }
        }
        if overflow {
            return Err(DecodeError::Corrupted);
        }
        if negative {
            Ok(-(mag as i64))
        } else {
            Ok(mag as i64)
        }
    }

    fn bytes_len(n: i64) -> (r: Result<usize, DecodeError>)
        requires
            n >= 0,
        ensures
            r matches Ok(k) ==> k == n,
            r is Err ==> n > usize::MAX && r == Err::<usize, DecodeError>(DecodeError::Truncated),
    {
        if n as u64 > usize::MAX as u64 {
            Err(DecodeError::Truncated)
        } else {
            Ok(n as usize)
        }
    }

    /// Consumes one value of any kind without interpreting it.
    pub fn _skip_instance(&mut self) -> (r: Result<(), DecodeError>)
        requires
            old(self).wf(),
        ensures
            final(self).continues(old(self)),
            r is Ok ==> final(self).wf(),
            match skip_spec(old(self).buffer.bytes(), old(self).at()) {
                Ok(e) => r is Ok && final(self).at() == e && e > old(self).at() && e
                    <= old(self).buffer.bytes().len(),
                Err(x) => r == Err::<(), DecodeError>(x),
            },
        decreases old(self).buffer.bytes().len() - old(self).at(), 0nat,
    {
        let ghost data = self.buffer.bytes();
        let ghost q = self.at();
        proof {
            self.buffer.lemma_wf_facts();
        }
        let kind = match self.read_byte() {
            Ok(k) => k,
            Err(e) => return Err(e),
        };
        proof {
            self.buffer.lemma_wf_facts();
        }
        if kind == 4 {
            let present = match self.read_byte() {
                Ok(b) => b,
                Err(e) => return Err(e),
            };
            if present != 0 {
                self._skip_instance()
            } else {
                Ok(())
            }
        } else if kind == 6 || kind == 7 || kind == 8 {
            let n: usize = if kind == 6 {
                1
            } else if kind == 7 {
                4
            } else {
                8
            };
            match self.read_bytes(n) {
                Ok(_) => Ok(()),
                Err(e) => Err(e),
            }
        } else if kind > 9 {
            Err(DecodeError::Corrupted)
        } else {
            let n = match self._vint() {
                Ok(n) => n,
                Err(e) => return Err(e),
            };
            proof {
                lemma_vint_len_bound(data, q + 1);
                self.buffer.lemma_wf_facts();
            }
            if kind == 0 {
                self.skip_items(if n < 0 { 0 } else { n as u64 }, false)
            } else if kind == 5 {
                self.skip_items(if n < 0 { 0 } else { n as u64 }, true)
            } else if kind == 3 {
                self._skip_instance()
            } else if kind == 9 {
                Ok(())
            } else {
                if n < 0 {
                    return Err(DecodeError::Corrupted);
                }
                let len: i64 = if kind == 1 {
                    ((n as u64 + 7) / 8) as i64
                } else {
                    n
                };
                let k = match Self::bytes_len(len) {
                    Ok(k) => k,
                    Err(e) => return Err(e),
                };
                match self.read_bytes(k) {
                    Ok(_) => Ok(()),
                    Err(e) => Err(e),
                }
            }
        }
    }

    fn skip_items(&mut self, n: u64, tagged: bool) -> (r: Result<(), DecodeError>)
        requires
            old(self).wf(),
        ensures
            final(self).continues(old(self)),
            r is Ok ==> final(self).wf(),
            match skip_n(old(self).buffer.bytes(), old(self).at(), n as nat, tagged) {
                Ok(e) => r is Ok && final(self).at() == e && e >= old(self).at() && e
                    <= old(self).buffer.bytes().len(),
                Err(x) => r == Err::<(), DecodeError>(x),
            },
        decreases old(self).buffer.bytes().len() - old(self).at(), n,
    {
        let ghost data = self.buffer.bytes();
        let ghost q0 = self.at();
        proof {
            self.buffer.lemma_wf_facts();
        }
        let mut i: u64 = 0;
        while i < n
            invariant
                self.continues(old(self)),
                self.wf(),
                data == self.buffer.bytes(),
                data == old(self).buffer.bytes(),
                q0 == old(self).at(),
                i <= n,
                q0 <= self.at() <= data.len(),
                i > 0 ==> self.at() > q0,
                skip_n(data, q0, n as nat, tagged) == skip_n(data, self.at(), (n - i) as nat, tagged),
            decreases n - i,
        {
            let ghost q = self.at();
            if tagged {
                match self._vint() {
                    Ok(_) => {},
                    Err(e) => return Err(e),
                }
                proof {
                    lemma_vint_len_bound(data, q);
                }
            }
            proof {
                self.buffer.lemma_wf_facts();
            }
            match self._skip_instance() {
                Ok(()) => {},
                Err(e) => return Err(e),
            }
            i = i + 1;
        }
        Ok(())
    }

    /// Decodes one node of type `typeid`. An unknown type id is `Corrupted`
    /// and leaves the cursor where it was.
    pub fn instance(&mut self, typeid: u8, allowed: bool) -> (r: Result<DecoderResult, DecodeError>)
        requires
            old(self).wf(),
        ensures
            final(self).continues(old(self)),
            r is Ok ==> final(self).wf(),
            decoded(r, old(self).spec_instance(typeid as int, allowed), final(self).at()),
            typeid >= old(self).schema().len() ==> *final(self) == *old(self),
    {
        let depth = self.typeinfos.len();
        self.instance_within(typeid, allowed, depth)
    }

    fn instance_within(&mut self, typeid: u8, allowed: bool, depth: usize) -> (r: Result<
        DecoderResult,
        DecodeError,
    >)
        requires
            old(self).wf(),
        ensures
            final(self).continues(old(self)),
            r is Ok ==> final(self).wf(),
            decoded(r, old(self).spec_within(typeid as int, allowed, depth as nat), final(self).at()),
            typeid >= old(self).schema().len() ==> *final(self) == *old(self),
        decreases depth, 1int, 0int,
    {
        let t: &'a [ProtocolTypeInfo] = self.typeinfos;
        if typeid as usize >= t.len() || depth == 0 {
            return Err(DecodeError::Corrupted);
        }
        match &t[typeid as usize] {
            ProtocolTypeInfo::Int(b) => self._int(typeid, *b),
            ProtocolTypeInfo::Blob(b) => self._blob(typeid, *b),
            ProtocolTypeInfo::Bool => self._bool(typeid),
            ProtocolTypeInfo::Array(b, elem) => self._array(typeid, *b, *elem, allowed, depth),
            ProtocolTypeInfo::Null => Ok(DecoderResult::Null),
            ProtocolTypeInfo::BitArray(b) => self._bitarray(typeid, *b),
            ProtocolTypeInfo::Optional(o) => self._optional(typeid, *o, allowed, depth),
            ProtocolTypeInfo::FourCC => self._fourcc(typeid),
            ProtocolTypeInfo::Choice(b, arms) => self._choice(typeid, *b, arms, allowed, depth),
            ProtocolTypeInfo::Struct(fields) => self._struct(typeid, fields, allowed, depth),
        }
    }

    fn _int(&mut self, id: u8, b: Int) -> (r: Result<DecoderResult, DecodeError>)
        requires
            old(self).wf(),
            0 <= id < old(self).schema().len(),
            old(self).schema()[id as int] == ProtocolTypeInfo::Int(b),
        ensures
            final(self).continues(old(self)),
            r is Ok ==> final(self).wf(),
            decoded(r, v_leaf(old(self).schema()[id as int], old(self).buffer.bytes(), old(self).at()), final(self).at()),
    {
        match self.expect_skip(9) {
            Ok(()) => {},
            Err(e) => return Err(e),
        }
        match self._vint() {
            Ok(v) => Ok(DecoderResult::Value(v)),
            Err(e) => Err(e),
        }
    }

    fn _blob(&mut self, id: u8, b: Int) -> (r: Result<DecoderResult, DecodeError>)
        requires
            old(self).wf(),
            0 <= id < old(self).schema().len(),
            old(self).schema()[id as int] == ProtocolTypeInfo::Blob(b),
        ensures
            final(self).continues(old(self)),
            r is Ok ==> final(self).wf(),
            decoded(r, v_leaf(old(self).schema()[id as int], old(self).buffer.bytes(), old(self).at()), final(self).at()),
    {
        match self.expect_skip(2) {
            Ok(()) => {},
            Err(e) => return Err(e),
        }
        let n = match self._vint() {
            Ok(v) => v,
            Err(e) => return Err(e),
        };
        if n < 0 {
            return Err(DecodeError::Corrupted);
        }
        proof {
            self.buffer.lemma_wf_facts();
        }
        let k = match Self::bytes_len(n) {
            Ok(k) => k,
            Err(e) => return Err(e),
        };
        match self.read_bytes(k) {
            Ok(bytes) => Ok(DecoderResult::Blob(text_or_empty(bytes.as_slice()))),
            Err(e) => Err(e),
        }
    }

    fn _bool(&mut self, id: u8) -> (r: Result<DecoderResult, DecodeError>)
        requires
            old(self).wf(),
            0 <= id < old(self).schema().len(),
            old(self).schema()[id as int] == ProtocolTypeInfo::Bool,
        ensures
            final(self).continues(old(self)),
            r is Ok ==> final(self).wf(),
            decoded(r, v_leaf(old(self).schema()[id as int], old(self).buffer.bytes(), old(self).at()), final(self).at()),
    {
        match self.expect_skip(6) {
            Ok(()) => {},
            Err(e) => return Err(e),
        }
        match self.read_byte() {
            Ok(v) => Ok(DecoderResult::Bool(v != 0)),
            Err(e) => Err(e),
        }
    }

    fn _bitarray(&mut self, id: u8, b: Int) -> (r: Result<DecoderResult, DecodeError>)
        requires
            old(self).wf(),
            0 <= id < old(self).schema().len(),
            old(self).schema()[id as int] == ProtocolTypeInfo::BitArray(b),
        ensures
            final(self).continues(old(self)),
            r is Ok ==> final(self).wf(),
            decoded(r, v_leaf(old(self).schema()[id as int], old(self).buffer.bytes(), old(self).at()), final(self).at()),
    {
        match self.expect_skip(1) {
            Ok(()) => {},
            Err(e) => return Err(e),
        }
        let n = match self._vint() {
            Ok(v) => v,
            Err(e) => return Err(e),
        };
        if n < 0 {
            return Err(DecodeError::Corrupted);
        }
        proof {
            self.buffer.lemma_wf_facts();
        }
        let len: i64 = ((n as u64 + 7) / 8) as i64;
        let k = match Self::bytes_len(len) {
            Ok(k) => k,
            Err(e) => return Err(e),
        };
        let bytes = match self.read_bytes(k) {
            Ok(b) => b,
            Err(e) => return Err(e),
        };
        let mut sum: i16 = 0;
        let mut i: usize = 0;
        assert(bytes@.skip(0) =~= bytes@);
        while i < bytes.len()
            invariant
                i <= bytes.len(),
                byte_sum(0, bytes@) == byte_sum(sum, bytes@.skip(i as int)),
            decreases bytes.len() - i,
        {
            assert(bytes@.skip(i as int).drop_first() =~= bytes@.skip(i + 1));
            sum = sum.wrapping_add(bytes[i] as i16);
            i = i + 1;
        }
        assert(bytes@.skip(i as int) =~= Seq::<u8>::empty());
        Ok(DecoderResult::Pair((n, sum)))
    }

    fn _fourcc(&mut self, id: u8) -> (r: Result<DecoderResult, DecodeError>)
        requires
            old(self).wf(),
            0 <= id < old(self).schema().len(),
            old(self).schema()[id as int] == ProtocolTypeInfo::FourCC,
        ensures
            final(self).continues(old(self)),
            r is Ok ==> final(self).wf(),
            decoded(r, v_leaf(old(self).schema()[id as int], old(self).buffer.bytes(), old(self).at()), final(self).at()),
    {
        match self.expect_skip(7) {
            Ok(()) => {},
            Err(e) => return Err(e),
        }
        match self.read_bytes(4) {
            Ok(bytes) => Ok(DecoderResult::Blob(text_or_empty(bytes.as_slice()))),
            Err(e) => Err(e),
        }
    }

    fn _optional(&mut self, id: u8, o: u8, allowed: bool, depth: usize) -> (r: Result<DecoderResult, DecodeError>)
        requires
            old(self).wf(),
            0 <= id < old(self).schema().len(),
            old(self).schema()[id as int] == ProtocolTypeInfo::Optional(o),
            depth > 0,
        ensures
            final(self).continues(old(self)),
            r is Ok ==> final(self).wf(),
            decoded(r, old(self).spec_within(id as int, allowed, depth as nat), final(self).at()),
        decreases depth, 0int, 2int,
    {
        match self.expect_skip(4) {
            Ok(()) => {},
            Err(e) => return Err(e),
        }
        let present = match self.read_byte() {
            Ok(v) => v,
            Err(e) => return Err(e),
        };
        if present == 0 {
            Ok(DecoderResult::Null)
        } else {
            self.instance_within(o, allowed, depth - 1)
        }
    }

    fn _choice(&mut self, id: u8, b: Int, arms: &Vec<(i64, (String, u8))>, allowed: bool, depth: usize) -> (r:
        Result<DecoderResult, DecodeError>)
        requires
            old(self).wf(),
            0 <= id < old(self).schema().len(),
            old(self).schema()[id as int] == ProtocolTypeInfo::Choice(b, *arms),
            depth > 0,
        ensures
            final(self).continues(old(self)),
            r is Ok ==> final(self).wf(),
            decoded(r, old(self).spec_within(id as int, allowed, depth as nat), final(self).at()),
        decreases depth, 0int, 2int,
    {
        match self.expect_skip(3) {
            Ok(()) => {},
            Err(e) => return Err(e),
        }
        let tag = match self._vint() {
            Ok(v) => v,
            Err(e) => return Err(e),
        };
        let k = match find_choice(arms, tag) {
            Some(k) => k,
            None => {
                return match self._skip_instance() {
                    Ok(()) => Ok(DecoderResult::Pair((0, 0))),
                    Err(e) => Err(e),
                };
            },
        };
        let fid = arms[k].1.1;
        match self.instance_within(fid, allowed, depth - 1) {
            Ok(v) => Ok(choice_result(&arms[k].1.0, v, allowed)),
            Err(e) => Err(e),
        }
    }

    fn _array(&mut self, id: u8, b: Int, elem: u8, allowed: bool, depth: usize) -> (r: Result<
        DecoderResult,
        DecodeError,
    >)
        requires
            old(self).wf(),
            0 <= id < old(self).schema().len(),
            old(self).schema()[id as int] == ProtocolTypeInfo::Array(b, elem),
            depth > 0,
        ensures
            final(self).continues(old(self)),
            r is Ok ==> final(self).wf(),
            decoded(r, old(self).spec_within(id as int, allowed, depth as nat), final(self).at()),
        decreases depth, 0int, 2int,
    {
        match self.expect_skip(0) {
            Ok(()) => {},
            Err(e) => return Err(e),
        }
        let n = match self._vint() {
            Ok(v) => v,
            Err(e) => return Err(e),
        };
        let count: u64 = if n < 0 {
            0
        } else {
            n as u64
        };
        match self.array_items(elem, count, allowed, depth - 1) {
            Ok(v) => {
                proof {
                    lemma_array_model(v);
                }
                Ok(DecoderResult::Array(v))
            },
            Err(e) => Err(e),
        }
    }

    fn array_items(&mut self, elem: u8, count: u64, allowed: bool, fuel: usize) -> (r: Result<
        Vec<DecoderResult>,
        DecodeError,
    >)
        requires
            old(self).wf(),
        ensures
            final(self).continues(old(self)),
            r is Ok ==> final(self).wf(),
            match v_array(old(self).schema(), fuel as nat, elem as int, count as nat, old(self).buffer.bytes(), old(self).at(), allowed) {
                Ok((vs, p)) => r matches Ok(x) && models(x@) == vs && final(self).at() == p,
                Err(e) => r matches Err(x) && x == e,
            },
        decreases fuel + 1, 0int, 0int,
    {
        let ghost s = self.schema();
        let ghost data = self.buffer.bytes();
        let ghost q0 = self.at();
        let mut out: Vec<DecoderResult> = Vec::new();
        let mut i: u64 = 0;
        while i < count
            invariant
                self.continues(old(self)),
                self.wf(),
                s == self.schema(),
                s == old(self).schema(),
                data == self.buffer.bytes(),
                data == old(self).buffer.bytes(),
                q0 == old(self).at(),
                i <= count,
                v_array(s, fuel as nat, elem as int, count as nat, data, q0, allowed) == prepend(
                    models(out@),
                    v_array(s, fuel as nat, elem as int, (count - i) as nat, data, self.at(), allowed),
                ),
            decreases count - i,
        {
            let item = match self.instance_within(elem, allowed, fuel) {
                Ok(v) => v,
                Err(e) => return Err(e),
            };
            let ghost before = models(out@);
            out.push(item);
            assert(models(out@) =~= before + seq![item.model()]);
            i = i + 1;
            proof {
                let r = v_array(s, fuel as nat, elem as int, (count - i) as nat, data, self.at(), allowed);
                if let Ok((vs, q)) = r {
                    assert(before + (seq![item.model()] + vs) =~= (before + seq![item.model()]) + vs);
                }
            }
        }
        assert(models(out@) + Seq::<Val>::empty() =~= models(out@));
        Ok(out)
    }

    fn _struct(&mut self, id: u8, fields: &Vec<Struct>, allowed: bool, depth: usize) -> (r: Result<
        DecoderResult,
        DecodeError,
    >)
        requires
            old(self).wf(),
            0 <= id < old(self).schema().len(),
            old(self).schema()[id as int] == ProtocolTypeInfo::Struct(*fields),
            depth > 0,
        ensures
            final(self).continues(old(self)),
            r is Ok ==> final(self).wf(),
            decoded(r, old(self).spec_within(id as int, allowed, depth as nat), final(self).at()),
        decreases depth, 0int, 2int,
    {
        match self.expect_skip(5) {
            Ok(()) => {},
            Err(e) => return Err(e),
        }
        let n = match self._vint() {
            Ok(v) => v,
            Err(e) => return Err(e),
        };
        let count: u64 = if n < 0 {
            0
        } else {
            n as u64
        };
        match self.struct_items(fields, count, allowed, depth - 1) {
            Ok(v) => {
                proof {
                    lemma_struct_model(v);
                }
                Ok(DecoderResult::Struct(v))
            },
            Err(e) => Err(e),
        }
    }

    fn struct_items(&mut self, fields: &Vec<Struct>, count: u64, allowed: bool, fuel: usize) -> (r:
        Result<Vec<EventEntry>, DecodeError>)
        requires
            old(self).wf(),
        ensures
            final(self).continues(old(self)),
            r is Ok ==> final(self).wf(),
            match v_items(old(self).schema(), fuel as nat, fields@, count as nat, old(self).buffer.bytes(), old(self).at(), allowed) {
                Ok((es, p)) => r matches Ok(x) && entry_models(x@) == es && final(self).at() == p,
                Err(e) => r matches Err(x) && x == e,
            },
        decreases fuel + 1, 0int, 1int,
    {
        let ghost s = self.schema();
        let ghost data = self.buffer.bytes();
        let ghost q0 = self.at();
        let mut out: Vec<EventEntry> = Vec::new();
        let mut i: u64 = 0;
        while i < count
            invariant
                self.continues(old(self)),
                self.wf(),
                s == self.schema(),
                s == old(self).schema(),
                data == self.buffer.bytes(),
                data == old(self).buffer.bytes(),
                q0 == old(self).at(),
                i <= count,
                v_items(s, fuel as nat, fields@, count as nat, data, q0, allowed) == prepend(
                    entry_models(out@),
                    v_items(s, fuel as nat, fields@, (count - i) as nat, data, self.at(), allowed),
                ),
            decreases count - i,
        {
            let ghost before = entry_models(out@);
            let item = match self.struct_item(fields, allowed, fuel) {
                Ok(item) => item,
                Err(e) => return Err(e),
            };
            let ghost added: Seq<(Seq<char>, Val)> = match &item {
                Some(entry) => seq![(entry.0@, entry.1.model())],
                None => Seq::empty(),
            };
            match item {
                Some(entry) => {
                    out.push(entry);
                },
                None => {},
            }
            assert(entry_models(out@) =~= before + added);
            i = i + 1;
            proof {
                let r = v_items(s, fuel as nat, fields@, (count - i) as nat, data, self.at(), allowed);
                if let Ok((es, q)) = r {
                    assert(before + (added + es) =~= (before + added) + es);
                }
            }
        }
        assert(entry_models(out@) + Seq::<(Seq<char>, Val)>::empty() =~= entry_models(out@));
        Ok(out)
    }

    fn struct_item(&mut self, fields: &Vec<Struct>, allowed: bool, fuel: usize) -> (r: Result<
        Option<EventEntry>,
        DecodeError,
    >)
        requires
            old(self).wf(),
        ensures
            final(self).continues(old(self)),
            r is Ok ==> final(self).wf(),
            match v_item(old(self).schema(), fuel as nat, fields@, old(self).buffer.bytes(), old(self).at(), allowed) {
                Ok((es, p)) => r matches Ok(x) && final(self).at() == p && match x {
                    Some(entry) => es == seq![(entry.0@, entry.1.model())],
                    None => es == Seq::<(Seq<char>, Val)>::empty(),
                },
                Err(e) => r matches Err(x) && x == e,
            },
        decreases fuel + 1, 0int, 0int,
    {
        let tag = match self._vint() {
            Ok(v) => v,
            Err(e) => return Err(e),
        };
        match find_field(fields, tag) {
            None => match self._skip_instance() {
                Ok(()) => Ok(None),
                Err(e) => Err(e),
            },
            Some(j) => {
                let v = match self.instance_within(fields[j].1, allowed, fuel) {
                    Ok(v) => v,
                    Err(e) => return Err(e),
                };
                if allowed {
                    Ok(Some((fields[j].0.clone(), v)))
                } else {
                    Ok(None)
                }
            },
        }
    }
}

} // verus!
