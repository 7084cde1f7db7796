//! The bit-packed wire format: the schema alone fixes the shape of the bits.
use vstd::prelude::*;

use crate::bitbuffer::{BitPackedBuffer, bits_value};
use crate::error::DecodeError;
use crate::schema::{Int, ProtocolTypeInfo, Struct, choice_index, find_choice};
use crate::text::{text_of, text_or_empty};
use crate::value::{DecoderResult, EventEntry, Val, models, entry_models};

verus! {

/// Reading `n` bits at bit position `pos`: the value and the position after.
pub open spec fn read_spec(data: Seq<u8>, pos: nat, n: nat, big: bool) -> Result<
    (nat, nat),
    DecodeError,
> {
    if n > 128 {
        Err(DecodeError::Corrupted)
    } else if pos + n <= data.len() * 8 {
        Ok((bits_value(data, pos, n, big), pos + n))
    } else {
        Err(DecodeError::Truncated)
    }
}

/// An integer field: the offset plus the bits read, wrapping at 64 bits.
pub open spec fn int_of(b: Int, raw: nat) -> i64 {
    b.0.wrapping_add(raw as i64)
}

/// Reading `n` whole bytes after aligning `pos` to a byte boundary.
pub open spec fn aligned_spec(data: Seq<u8>, pos: nat, n: int) -> Result<
    (Seq<u8>, nat),
    DecodeError,
> {
    let q = (pos + 7) / 8;
    if n < 0 {
        Err(DecodeError::Corrupted)
    } else if q + n <= data.len() {
        Ok((data.subrange(q as int, q + n), ((q + n) * 8) as nat))
    } else {
        Err(DecodeError::Truncated)
    }
}

/// Four bytes of 8 bits each, read from `pos` without aligning.
pub open spec fn fourcc_bytes(data: Seq<u8>, pos: nat, big: bool) -> Seq<u8> {
    seq![
        bits_value(data, pos, 8, big) as u8,
        bits_value(data, pos + 8, 8, big) as u8,
        bits_value(data, pos + 16, 8, big) as u8,
        bits_value(data, pos + 24, 8, big) as u8,
    ]
}

/// The running wrapping sum of `n` bits taken in chunks of at most 8.
pub open spec fn chunk_sum(acc: i16, data: Seq<u8>, pos: nat, n: nat, big: bool) -> i16
    decreases n,
{
    if n == 0 {
        acc
    } else {
        let c: nat = if n < 8 {
            n
        } else {
            8
        };
        chunk_sum(
            acc.wrapping_add(bits_value(data, pos, c, big) as i16),
            data,
            pos + c,
            (n - c) as nat,
            big,
        )
    }
}

/// What a choice gives once its arm `name` decoded to `v`: an integer arm is
/// a named integer, any other arm a struct of that one field; nothing is kept
/// unless `allowed`.
pub open spec fn choice_value(name: Seq<char>, v: Val, allowed: bool) -> Val {
    if !allowed {
        Val::Empty
    } else {
        match v {
            Val::Value(x) => Val::Gameloop(name, x),
            _ => Val::Struct(seq![(name, v)]),
        }
    }
}

/// Decoding a node whose type holds no other type.
pub open spec fn bp_leaf(t: ProtocolTypeInfo, data: Seq<u8>, pos: nat, big: bool) -> Result<
    (Val, nat),
    DecodeError,
> {
    match t {
        ProtocolTypeInfo::Int(b) => match read_spec(data, pos, b.1 as nat, big) {
            Ok((raw, p)) => Ok((Val::Value(int_of(b, raw)), p)),
            Err(e) => Err(e),
        },
        ProtocolTypeInfo::Blob(b) => match read_spec(data, pos, b.1 as nat, big) {
            Ok((raw, p)) => match aligned_spec(data, p, int_of(b, raw) as int) {
                Ok((bytes, q)) => Ok((Val::Blob(text_of(bytes)), q)),
                Err(e) => Err(e),
            },
            Err(e) => Err(e),
        },
        ProtocolTypeInfo::Bool => match read_spec(data, pos, 1, big) {
            Ok((raw, p)) => Ok((Val::Bool(raw != 0), p)),
            Err(e) => Err(e),
        },
        ProtocolTypeInfo::Null => Ok((Val::Null, pos)),
        ProtocolTypeInfo::BitArray(b) => match read_spec(data, pos, b.1 as nat, big) {
            Ok((raw, p)) => {
                let n = int_of(b, raw);
                if n < 0 {
                    Err(DecodeError::Corrupted)
                } else if p + n > data.len() * 8 {
                    Err(DecodeError::Truncated)
                } else {
                    Ok((Val::Pair(n, chunk_sum(0, data, p, n as nat, big)), (p + n) as nat))
                }
            },
            Err(e) => Err(e),
        },
        ProtocolTypeInfo::FourCC => if pos + 32 <= data.len() * 8 {
            Ok((Val::Blob(text_of(fourcc_bytes(data, pos, big))), pos + 32))
        } else {
            Err(DecodeError::Truncated)
        },
        _ => Err(DecodeError::Corrupted),
    }
}

/// Decoding the node of type `id` at bit position `pos`: the value and the
/// position after it. `fuel` bounds how deep types may nest; a table without
/// cycles never nests deeper than its length, which is the fuel a decode
/// starts with.
pub open spec fn bp_decode(
    s: Seq<ProtocolTypeInfo>,
    id: int,
    data: Seq<u8>,
    pos: nat,
    big: bool,
    allowed: bool,
    fuel: nat,
) -> Result<(Val, nat), DecodeError>
    decreases fuel, 1int, 0int,
{
    if id < 0 || id >= s.len() || fuel == 0 {
        Err(DecodeError::Corrupted)
    } else {
        let f = (fuel - 1) as nat;
        match s[id] {
            ProtocolTypeInfo::Array(b, elem) => match read_spec(data, pos, b.1 as nat, big) {
                Ok((raw, p)) => {
                    let n = int_of(b, raw);
                    let count: nat = if n < 0 {
                        0
                    } else {
                        n as nat
                    };
                    match bp_array(s, f, elem as int, count, data, p, big, allowed) {
                        Ok((vs, q)) => Ok((Val::Array(vs), q)),
                        Err(e) => Err(e),
                    }
                },
                Err(e) => Err(e),
            },
            ProtocolTypeInfo::Optional(t) => match read_spec(data, pos, 1, big) {
                Ok((raw, p)) => if raw == 0 {
                    Ok((Val::Null, p))
                } else {
                    bp_decode(s, t as int, data, p, big, allowed, f)
                },
                Err(e) => Err(e),
            },
            ProtocolTypeInfo::Choice(b, arms) => match read_spec(data, pos, b.1 as nat, big) {
                Ok((raw, p)) => match choice_index(arms@, int_of(b, raw)) {
                    None => Err(DecodeError::Corrupted),
                    Some(k) => match bp_decode(s, arms@[k].1.1 as int, data, p, big, allowed, f) {
                        Ok((v, q)) => Ok((choice_value(arms@[k].1.0@, v, allowed), q)),
                        Err(e) => Err(e),
                    },
                },
                Err(e) => Err(e),
            },
            ProtocolTypeInfo::Struct(fields) => match bp_fields(
                s,
                f,
                fields@,
                0,
                data,
                pos,
                big,
                allowed,
            ) {
                Ok((es, q)) => Ok((Val::Struct(es), q)),
                Err(e) => Err(e),
            },
            _ => bp_leaf(s[id], data, pos, big),
        }
    }
}

/// Decoding `k` array elements of type `elem` in a row, each with `fuel`.
pub open spec fn bp_array(
    s: Seq<ProtocolTypeInfo>,
    fuel: nat,
    elem: int,
    k: nat,
    data: Seq<u8>,
    pos: nat,
    big: bool,
    allowed: bool,
) -> Result<(Seq<Val>, nat), DecodeError>
    decreases fuel + 1, 0int, k,
{
    if k == 0 {
        Ok((Seq::empty(), pos))
    } else {
        match bp_decode(s, elem, data, pos, big, allowed, fuel) {
            Ok((v, p)) => prepend(seq![v], bp_array(s, fuel, elem, (k - 1) as nat, data, p, big, allowed)),
            Err(e) => Err(e),
        }
    }
}

/// Decoding the struct fields from index `j` on, in declared order, each with
/// `fuel`; names and values are kept only when `allowed`.
pub open spec fn bp_fields(
    s: Seq<ProtocolTypeInfo>,
    fuel: nat,
    fields: Seq<Struct>,
    j: int,
    data: Seq<u8>,
    pos: nat,
    big: bool,
    allowed: bool,
) -> Result<(Seq<(Seq<char>, Val)>, nat), DecodeError>
    decreases fuel + 1, 0int, fields.len() - j,
{
    if j < 0 || j >= fields.len() {
        Ok((Seq::empty(), pos))
    } else {
        match bp_decode(s, fields[j].1 as int, data, pos, big, allowed, fuel) {
            Ok((v, p)) => prepend(
                if allowed {
                    seq![(fields[j].0@, v)]
                } else {
                    Seq::empty()
                },
                bp_fields(s, fuel, fields, j + 1, data, p, big, allowed),
            ),
            Err(e) => Err(e),
        }
    }
}

/// `r` is what `expected` describes, and the cursor ended at `end`.
pub open spec fn decoded(
    r: Result<DecoderResult, DecodeError>,
    expected: Result<(Val, nat), DecodeError>,
    end: nat,
) -> bool {
    match expected {
        Ok((v, p)) => r matches Ok(x) && x.model() == v && end == p,
        Err(e) => r matches Err(x) && x == e,
    }
}

/// Puts decoded values in front of what the rest of a list decodes to.
pub open spec fn prepend<T>(pre: Seq<T>, r: Result<(Seq<T>, nat), DecodeError>) -> Result<
    (Seq<T>, nat),
    DecodeError,
> {
    match r {
        Ok((vs, q)) => Ok((pre + vs, q)),
        Err(e) => Err(e),
    }
}

/// Decodes the bit-packed format against a type table.
pub struct BitPackedDecoder<'a> {
    pub buffer: BitPackedBuffer,
    pub typeinfos: &'a [ProtocolTypeInfo],
}

impl<'a> BitPackedDecoder<'a> {
    /// The type table.
    pub open spec fn schema(&self) -> Seq<ProtocolTypeInfo> {
        self.typeinfos@
    }

    /// `self` reads the same bytes against the same table as `prev`.
    pub open spec fn continues(&self, prev: &Self) -> bool {
        &&& self.buffer.wf()
        &&& self.buffer.bytes() == prev.buffer.bytes()
        &&& self.buffer.is_big_endian() == prev.buffer.is_big_endian()
        &&& self.schema() == prev.schema()
    }

    /// What decoding type `id` from the current position gives, with a depth
    /// budget of `fuel`.
    pub open spec fn spec_within(&self, id: int, allowed: bool, fuel: nat) -> Result<
        (Val, nat),
        DecodeError,
    > {
        bp_decode(
            self.schema(),
            id,
            self.buffer.bytes(),
            self.buffer.bit_pos(),
            self.buffer.is_big_endian(),
            allowed,
            fuel,
        )
    }

    /// What decoding type `id` from the current position gives.
    pub open spec fn spec_instance(&self, id: int, allowed: bool) -> Result<(Val, nat), DecodeError> {
        self.spec_within(id, allowed, self.schema().len())
    }

    pub fn new(contents: Vec<u8>, typeinfos: &'a [ProtocolTypeInfo]) -> (r: BitPackedDecoder<'a>)
        requires
            contents.len() * 8 <= usize::MAX,
        ensures
            r.buffer.wf(),
            r.buffer.bytes() == contents@,
            r.buffer.bit_pos() == 0,
            r.buffer.is_big_endian(),
            r.schema() == typeinfos@,
    {
        let buffer = BitPackedBuffer::new(contents);
        BitPackedDecoder { buffer, typeinfos }
    }

    fn read(&mut self, n: u8) -> (r: Result<u128, DecodeError>)
        requires
            old(self).buffer.wf(),
        ensures
            final(self).continues(old(self)),
            match read_spec(
                old(self).buffer.bytes(),
                old(self).buffer.bit_pos(),
                n as nat,
                old(self).buffer.is_big_endian(),
            ) {
                Ok((raw, p)) => r == Ok::<u128, DecodeError>(raw as u128) && raw < u128::MAX + 1
                    && final(self).buffer.bit_pos() == p,
                Err(e) => r == Err::<u128, DecodeError>(e),
            },
    {
        if n > 128 {
            return Err(DecodeError::Corrupted);
        }
        let r = self.buffer.read_bits(n);
        proof {
            crate::bitbuffer::lemma_bits_value_bound(
                old(self).buffer.bytes(),
                old(self).buffer.bit_pos(),
                n as nat,
                old(self).buffer.is_big_endian(),
            );
            if n < 128 {
                vstd::arithmetic::power2::lemma_pow2_strictly_increases(n as nat, 128);
            }
            vstd::arithmetic::power2::lemma2_to64();
            vstd::arithmetic::power2::lemma_pow2_adds(64, 64);
        }
        r
    }

    fn _int(&mut self, b: Int) -> (r: Result<i64, DecodeError>)
        requires
            old(self).buffer.wf(),
        ensures
            final(self).continues(old(self)),
            match read_spec(
                old(self).buffer.bytes(),
                old(self).buffer.bit_pos(),
                b.1 as nat,
                old(self).buffer.is_big_endian(),
            ) {
                Ok((raw, p)) => r == Ok::<i64, DecodeError>(int_of(b, raw))
                    && final(self).buffer.bit_pos() == p,
                Err(e) => r == Err::<i64, DecodeError>(e),
            },
    {
        match self.read(b.1) {
            Ok(v) => {
                let raw: i64 = #[verifier::truncate] (v as i64);
                Ok(b.0.wrapping_add(raw))
            },
            Err(e) => Err(e),
        }
    }

    /// Decodes one node of type `typeid`. An unknown type id is `Corrupted`
    /// and leaves the cursor where it was.
    pub fn instance(&mut self, typeid: u8, allowed: bool) -> (r: Result<DecoderResult, DecodeError>)
        requires
            old(self).buffer.wf(),
        ensures
            final(self).continues(old(self)),
            decoded(r, old(self).spec_instance(typeid as int, allowed), final(self).buffer.bit_pos()),
            typeid >= old(self).schema().len() ==> *final(self) == *old(self),
    {
        let depth = self.typeinfos.len();
        self.instance_within(typeid, allowed, depth)
    }

    fn instance_within(&mut self, typeid: u8, allowed: bool, depth: usize) -> (r: Result<
        DecoderResult,
        DecodeError,
    >)
        requires
            old(self).buffer.wf(),
        ensures
            final(self).continues(old(self)),
            decoded(r, old(self).spec_within(typeid as int, allowed, depth as nat), final(self).buffer.bit_pos()),
            typeid >= old(self).schema().len() ==> *final(self) == *old(self),
        decreases depth, 1int, 0int,
    {
        let t: &'a [ProtocolTypeInfo] = self.typeinfos;
        if typeid as usize >= t.len() || depth == 0 {
            return Err(DecodeError::Corrupted);
        }
        match &t[typeid as usize] {
            ProtocolTypeInfo::Int(b) => match self._int(*b) {
                Ok(v) => Ok(DecoderResult::Value(v)),
                Err(e) => Err(e),
            },
            ProtocolTypeInfo::Blob(b) => self._blob(typeid, *b),
            ProtocolTypeInfo::Bool => self._bool(typeid),
            ProtocolTypeInfo::Array(b, elem) => self._array_node(typeid, *b, *elem, allowed, depth),
            ProtocolTypeInfo::Null => Ok(DecoderResult::Null),
            ProtocolTypeInfo::BitArray(b) => self._bitarray_node(typeid, *b),
            ProtocolTypeInfo::Optional(o) => self._optional(typeid, *o, allowed, depth),
            ProtocolTypeInfo::FourCC => self._fourcc(typeid),
            ProtocolTypeInfo::Choice(b, arms) => self._choice(typeid, *b, arms, allowed, depth),
            ProtocolTypeInfo::Struct(fields) => match self._struct(fields, allowed, depth - 1) {
                Ok(v) => {
                    proof {
                        crate::value::lemma_struct_model(v);
                    }
                    Ok(DecoderResult::Struct(v))
                },
                Err(e) => Err(e),
            },
        }
    }

    fn _blob(&mut self, id: u8, b: Int) -> (r: Result<DecoderResult, DecodeError>)
        requires
            old(self).buffer.wf(),
            0 <= id < old(self).schema().len(),
            old(self).schema()[id as int] == ProtocolTypeInfo::Blob(b),
        ensures
            final(self).continues(old(self)),
            decoded(
                r,
                bp_leaf(old(self).schema()[id as int], old(self).buffer.bytes(), old(self).buffer.bit_pos(), old(self).buffer.is_big_endian()),
                final(self).buffer.bit_pos(),
            ),
    {
        let n = match self._int(b) {
            Ok(v) => v,
            Err(e) => return Err(e),
        };
        if n < 0 {
            return Err(DecodeError::Corrupted);
        }
        proof {
            self.buffer.lemma_wf_facts();
        }
        if n as u64 > usize::MAX as u64 {
            return Err(DecodeError::Truncated);
        }
        match self.buffer.read_aligned_bytes(n as usize) {
            Ok(bytes) => Ok(DecoderResult::Blob(text_or_empty(bytes.as_slice()))),
            Err(e) => Err(e),
        }
    }

    fn _bool(&mut self, id: u8) -> (r: Result<DecoderResult, DecodeError>)
        requires
            old(self).buffer.wf(),
            0 <= id < old(self).schema().len(),
            old(self).schema()[id as int] == ProtocolTypeInfo::Bool,
        ensures
            final(self).continues(old(self)),
            decoded(
                r,
                bp_leaf(old(self).schema()[id as int], old(self).buffer.bytes(), old(self).buffer.bit_pos(), old(self).buffer.is_big_endian()),
                final(self).buffer.bit_pos(),
            ),
    {
        match self.read(1) {
            Ok(v) => Ok(DecoderResult::Bool(v != 0)),
            Err(e) => Err(e),
        }
    }

    fn _array_node(&mut self, id: u8, b: Int, elem: u8, allowed: bool, depth: usize) -> (r: Result<
        DecoderResult,
        DecodeError,
    >)
        requires
            old(self).buffer.wf(),
            0 <= id < old(self).schema().len(),
            old(self).schema()[id as int] == ProtocolTypeInfo::Array(b, elem),
            depth > 0,
        ensures
            final(self).continues(old(self)),
            decoded(r, old(self).spec_within(id as int, allowed, depth as nat), final(self).buffer.bit_pos()),
        decreases depth, 0int, 2int,
    {
        let n = match self._int(b) {
            Ok(v) => v,
            Err(e) => return Err(e),
        };
        let count: u64 = if n < 0 {
            0
        } else {
            n as u64
        };
        match self._array(elem, count, allowed, depth - 1) {
            Ok(v) => {
                proof {
                    crate::value::lemma_array_model(v);
                }
                Ok(DecoderResult::Array(v))
            },
            Err(e) => Err(e),
        }
    }

    fn _bitarray_node(&mut self, id: u8, b: Int) -> (r: Result<DecoderResult, DecodeError>)
        requires
            old(self).buffer.wf(),
            0 <= id < old(self).schema().len(),
            old(self).schema()[id as int] == ProtocolTypeInfo::BitArray(b),
        ensures
            final(self).continues(old(self)),
            decoded(
                r,
                bp_leaf(old(self).schema()[id as int], old(self).buffer.bytes(), old(self).buffer.bit_pos(), old(self).buffer.is_big_endian()),
                final(self).buffer.bit_pos(),
            ),
    {
        let n = match self._int(b) {
            Ok(v) => v,
            Err(e) => return Err(e),
        };
        if n < 0 {
            return Err(DecodeError::Corrupted);
        }
        match self._bitarray(n as u64) {
            Ok(sum) => Ok(DecoderResult::Pair((n, sum))),
            Err(e) => Err(e),
        }
    }

    fn _optional(&mut self, id: u8, o: u8, allowed: bool, depth: usize) -> (r: Result<DecoderResult, DecodeError>)
        requires
            old(self).buffer.wf(),
            0 <= id < old(self).schema().len(),
            old(self).schema()[id as int] == ProtocolTypeInfo::Optional(o),
            depth > 0,
        ensures
            final(self).continues(old(self)),
            decoded(r, old(self).spec_within(id as int, allowed, depth as nat), final(self).buffer.bit_pos()),
        decreases depth, 0int, 2int,
    {
        let present = match self.read(1) {
            Ok(v) => v,
            Err(e) => return Err(e),
        };
        if present == 0 {
            Ok(DecoderResult::Null)
        } else {
            self.instance_within(o, allowed, depth - 1)
        }
    }

    fn _fourcc(&mut self, id: u8) -> (r: Result<DecoderResult, DecodeError>)
        requires
            old(self).buffer.wf(),
            0 <= id < old(self).schema().len(),
            old(self).schema()[id as int] == ProtocolTypeInfo::FourCC,
        ensures
            final(self).continues(old(self)),
            decoded(
                r,
                bp_leaf(old(self).schema()[id as int], old(self).buffer.bytes(), old(self).buffer.bit_pos(), old(self).buffer.is_big_endian()),
                final(self).buffer.bit_pos(),
            ),
    {
        let ghost data = self.buffer.bytes();
        let ghost big = self.buffer.is_big_endian();
        let ghost pos = self.buffer.bit_pos();
        match self.buffer.read_unaligned_bytes(4) {
            Ok(bytes) => {
                assert(bytes@[0] == bits_value(data, pos, 8, big) as u8);
                assert(bytes@[1] == bits_value(data, pos + 8, 8, big) as u8);
                assert(bytes@[2] == bits_value(data, pos + 16, 8, big) as u8);
                assert(bytes@[3] == bits_value(data, pos + 24, 8, big) as u8);
                assert(bytes@ =~= fourcc_bytes(data, pos, big));
                Ok(DecoderResult::Blob(text_or_empty(bytes.as_slice())))
            },
            Err(e) => Err(e),
        }
    }

    fn _choice(&mut self, id: u8, b: Int, arms: &Vec<(i64, (String, u8))>, allowed: bool, depth: usize) -> (r:
        Result<DecoderResult, DecodeError>)
        requires
            old(self).buffer.wf(),
            0 <= id < old(self).schema().len(),
            old(self).schema()[id as int] == ProtocolTypeInfo::Choice(b, *arms),
            depth > 0,
        ensures
            final(self).continues(old(self)),
            decoded(r, old(self).spec_within(id as int, allowed, depth as nat), final(self).buffer.bit_pos()),
        decreases depth, 0int, 2int,
    {
        let tag = match self._int(b) {
            Ok(v) => v,
            Err(e) => return Err(e),
        };
        let k = match find_choice(arms, tag) {
            Some(k) => k,
            None => return Err(DecodeError::Corrupted),
        };
        let fid = arms[k].1.1;
        match self.instance_within(fid, allowed, depth - 1) {
            Ok(v) => Ok(choice_result(&arms[k].1.0, v, allowed)),
            Err(e) => Err(e),
        }
    }

    fn _array(&mut self, elem: u8, count: u64, allowed: bool, fuel: usize) -> (r: Result<
        Vec<DecoderResult>,
        DecodeError,
    >)
        requires
            old(self).buffer.wf(),
        ensures
            final(self).continues(old(self)),
            match bp_array(
                old(self).schema(),
                fuel as nat,
                elem as int,
                count as nat,
                old(self).buffer.bytes(),
                old(self).buffer.bit_pos(),
                old(self).buffer.is_big_endian(),
                allowed,
            ) {
                Ok((vs, p)) => r matches Ok(x) && models(x@) == vs && final(self).buffer.bit_pos()
                    == p,
                Err(e) => r matches Err(x) && x == e,
            },
        decreases fuel + 1, 0int, 0int,
    {
        let ghost s = self.schema();
        let ghost data = self.buffer.bytes();
        let ghost big = self.buffer.is_big_endian();
        let ghost pos0 = self.buffer.bit_pos();
        let mut out: Vec<DecoderResult> = Vec::new();
        let mut i: u64 = 0;
        while i < count
            invariant
                self.continues(old(self)),
                s == old(self).schema(),
                pos0 == old(self).buffer.bit_pos(),
                s == self.schema(),
                data == self.buffer.bytes(),
                big == self.buffer.is_big_endian(),
                i <= count,
                bp_array(s, fuel as nat, elem as int, count as nat, data, pos0, big, allowed)
                    == prepend(
                    models(out@),
                    bp_array(
                        s,
                        fuel as nat,
                        elem as int,
                        (count - i) as nat,
                        data,
                        self.buffer.bit_pos(),
                        big,
                        allowed,
                    ),
                ),
            decreases count - i,
        {
            let v = match self.instance_within(elem, allowed, fuel) {
                Ok(v) => v,
                Err(e) => return Err(e),
            };
            let ghost before = models(out@);
            let ghost vm = v.model();
            out.push(v);
            assert(models(out@) =~= before + seq![vm]);
            i = i + 1;
            proof {
                let r = bp_array(s, fuel as nat, elem as int, (count - i) as nat, data, self.buffer.bit_pos(), big, allowed);
                if let Ok((vs, q)) = r {
                    assert(before + (seq![vm] + vs) =~= (before + seq![vm]) + vs);
                }
            }
        }
        assert(models(out@) + Seq::<Val>::empty() =~= models(out@));
        Ok(out)
    }

    fn _bitarray(&mut self, n: u64) -> (r: Result<i16, DecodeError>)
        requires
            old(self).buffer.wf(),
        ensures
            final(self).continues(old(self)),
            old(self).buffer.bit_pos() + n > old(self).buffer.bytes().len() * 8 ==> r
                == Err::<i16, DecodeError>(DecodeError::Truncated),
            old(self).buffer.bit_pos() + n <= old(self).buffer.bytes().len() * 8 ==> r == Ok::<
                i16,
                DecodeError,
            >(
                chunk_sum(
                    0,
                    old(self).buffer.bytes(),
                    old(self).buffer.bit_pos(),
                    n as nat,
                    old(self).buffer.is_big_endian(),
                ),
            ) && final(self).buffer.bit_pos() == old(self).buffer.bit_pos() + n,
    {
        let ghost data = self.buffer.bytes();
        let ghost big = self.buffer.is_big_endian();
        let ghost pos0 = self.buffer.bit_pos();
        proof {
            self.buffer.lemma_wf_facts();
        }
        let mut acc: i16 = 0;
        let mut left: u64 = n;
        while left > 0
            invariant
                self.continues(old(self)),
                pos0 == old(self).buffer.bit_pos(),
                data == self.buffer.bytes(),
                big == self.buffer.is_big_endian(),
                left <= n,
                self.buffer.bit_pos() == pos0 + (n - left),
                chunk_sum(0, data, pos0, n as nat, big) == chunk_sum(
                    acc,
                    data,
                    self.buffer.bit_pos(),
                    left as nat,
                    big,
                ),
            decreases left,
        {
            let c: u8 = if left < 8 {
                left as u8
            } else {
                8
            };
            let v = match self.buffer.read_bits(c) {
                Ok(v) => v,
                Err(e) => {
                    proof {
                        self.buffer.lemma_wf_facts();
                    }
                    return Err(e);
                },
            };
            let chunk: i16 = #[verifier::truncate] (v as i16);
            acc = acc.wrapping_add(chunk);
            left = left - c as u64;
        }
        proof {
            self.buffer.lemma_wf_facts();
        }
        Ok(acc)
    }

    fn _struct(&mut self, fields: &Vec<Struct>, allowed: bool, fuel: usize) -> (r: Result<
        Vec<EventEntry>,
        DecodeError,
    >)
        requires
            old(self).buffer.wf(),
        ensures
            final(self).continues(old(self)),
            match bp_fields(
                old(self).schema(),
                fuel as nat,
                fields@,
                0,
                old(self).buffer.bytes(),
                old(self).buffer.bit_pos(),
                old(self).buffer.is_big_endian(),
                allowed,
            ) {
                Ok((es, p)) => r matches Ok(x) && entry_models(x@) == es
                    && final(self).buffer.bit_pos() == p,
                Err(e) => r matches Err(x) && x == e,
            },
        decreases fuel + 1, 0int, 0int,
    {
        let ghost s = self.schema();
        let ghost data = self.buffer.bytes();
        let ghost big = self.buffer.is_big_endian();
        let ghost pos0 = self.buffer.bit_pos();
        let mut out: Vec<EventEntry> = Vec::new();
        let mut j: usize = 0;
        while j < fields.len()
            invariant
                self.continues(old(self)),
                s == old(self).schema(),
                pos0 == old(self).buffer.bit_pos(),
                s == self.schema(),
                data == self.buffer.bytes(),
                big == self.buffer.is_big_endian(),
                j <= fields.len(),
                bp_fields(s, fuel as nat, fields@, 0, data, pos0, big, allowed) == prepend(
                    entry_models(out@),
                    bp_fields(s, fuel as nat, fields@, j as int, data, self.buffer.bit_pos(), big, allowed),
                ),
            decreases fields.len() - j,
        {
            let v = match self.instance_within(fields[j].1, allowed, fuel) {
                Ok(v) => v,
                Err(e) => return Err(e),
            };
            let ghost before = entry_models(out@);
            let ghost added: Seq<(Seq<char>, Val)> = if allowed {
                seq![(fields@[j as int].0@, v.model())]
            } else {
                Seq::empty()
            };
            if allowed {
                let name = fields[j].0.clone();
                out.push((name, v));
            }
            assert(entry_models(out@) =~= before + added);
            j = j + 1;
            proof {
                let r = bp_fields(s, fuel as nat, fields@, j as int, data, self.buffer.bit_pos(), big, allowed);
                if let Ok((es, q)) = r {
                    assert(before + (added + es) =~= (before + added) + es);
                }
            }
        }
        assert(entry_models(out@) + Seq::<(Seq<char>, Val)>::empty() =~= entry_models(out@));
        Ok(out)
    }
}

/// The value of a choice whose arm `name` decoded to `v`.
pub fn choice_result(name: &String, v: DecoderResult, allowed: bool) -> (r: DecoderResult)
    ensures
        r.model() == choice_value(name@, v.model(), allowed),
{
    if !allowed {
        return DecoderResult::Empty;
    }
    match v {
        DecoderResult::Value(x) => DecoderResult::Gameloop((name.clone(), x)),
        other => {
            let ghost om = other.model();
            let entries: Vec<EventEntry> = vec![(name.clone(), other)];
            proof {
                crate::value::lemma_struct_model(entries);
                assert(crate::value::entry_models(entries@) =~= seq![(name@, om)]);
            }
            DecoderResult::Struct(entries)
        },
    }
}

} // verus!
