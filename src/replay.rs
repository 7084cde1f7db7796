//! Events: the top-level records of a decoded stream.
use vstd::prelude::*;

use crate::error::DecodeError;
use crate::schema::ProtocolTypeInfo;
use crate::value::{DecoderResult, EventEntry, Val, entry_models, lemma_struct_model};
use crate::versioned::{VersionedDecoder, v_decode};
use crate::bitpacked::prepend;
use crate::mpq::MPQArchive;
use crate::bitpacked::{BitPackedDecoder, bp_decode};
use crate::text::{text_of, text_or_empty};
use vstd::string::StringSliceAdditionalSpecFns;

verus! {

/// One decoded record: its fields in wire order.
#[derive(Debug)]
pub struct Event {
    pub entries: Vec<(String, DecoderResult)>,
}

impl Event {
    pub fn new(entries: Vec<(String, DecoderResult)>) -> (r: Event)
        ensures
            r.entries == entries,
    {
        Event { entries }
    }
}

/// What a replay yields once decoded.
#[derive(Debug)]
pub struct Parsed {
    pub player_info: Vec<EventEntry>,
    pub tracker_events: Vec<Event>,
    pub metadata: String,
    pub tags: String,
}

/// A replay file and what was decoded from it.
pub struct Replay {
    pub file_path: String,
    pub content_hash: String,
    pub parsed: Parsed,
}

/// The events of a stream of structs of type `id` from byte `q` to the end.
#[verifier::opaque]
pub open spec fn events_spec(s: Seq<ProtocolTypeInfo>, id: int, data: Seq<u8>, q: nat) -> Result<
    (Seq<Seq<(Seq<char>, Val)>>, nat),
    DecodeError,
>
    decreases data.len() - q,
{
    if q >= data.len() {
        Ok((Seq::empty(), q))
    } else {
        match event_step(s, id, data, q) {
            Ok((es, p)) => if p <= q || p > data.len() {
                // a record that takes no bytes would repeat forever
                Err(DecodeError::Corrupted)
            } else {
                prepend(seq![es], events_spec(s, id, data, p))
            },
            Err(x) => Err(x),
        }
    }
}

/// One record at `q`: it must decode to a struct.
#[verifier::opaque]
pub open spec fn event_step(s: Seq<ProtocolTypeInfo>, id: int, data: Seq<u8>, q: nat) -> Result<
    (Seq<(Seq<char>, Val)>, nat),
    DecodeError,
> {
    match v_decode(s, id, data, q, true, s.len()) {
        Ok((Val::Struct(es), p)) => Ok((es, p)),
        Ok(_) => Err(DecodeError::Corrupted),
        Err(x) => Err(x),
    }
}

fn decode_event(decoder: &mut VersionedDecoder, typeid: u8) -> (r: Result<Event, DecodeError>)
    requires
        old(decoder).wf(),
    ensures
        final(decoder).continues(old(decoder)),
        r is Ok ==> final(decoder).wf(),
        match event_step(old(decoder).schema(), typeid as int, old(decoder).buffer.bytes(), old(decoder).at()) {
            Ok((es, p)) => r matches Ok(x) && entry_models(x.entries@) == es && final(decoder).at() == p,
            Err(e) => r matches Err(x) && x == e,
        },
{
    reveal(event_step);
    match decoder.instance(typeid, true) {
        Ok(DecoderResult::Struct(entries)) => {
            proof {
                lemma_struct_model(entries);
            }
            Ok(Event::new(entries))
        },
        Ok(_) => Err(DecodeError::Corrupted),
        Err(e) => Err(e),
    }
}

/// The models of the events' fields.
pub open spec fn event_models(v: Seq<Event>) -> Seq<Seq<(Seq<char>, Val)>> {
    Seq::new(v.len(), |i: int| entry_models(v[i].entries@))
}

/// Decodes records of type `typeid` in the versioned format until the bytes
/// run out.
pub fn decode_events(contents: Vec<u8>, typeinfos: &[ProtocolTypeInfo], typeid: u8) -> (r: Result<
    Vec<Event>,
    DecodeError,
>)
    requires
        contents.len() * 8 <= usize::MAX,
    ensures
        match events_spec(typeinfos@, typeid as int, contents@, 0) {
            Ok((evs, _)) => r matches Ok(x) && event_models(x@) == evs,
            Err(e) => r matches Err(x) && x == e,
        },
{
    let ghost data = contents@;
    let mut decoder = VersionedDecoder::new(contents, typeinfos);
    let mut out: Vec<Event> = Vec::new();
    proof {
        decoder.buffer.lemma_wf_facts();
    }
    while !decoder.buffer.done()
        invariant
            decoder.wf(),
            decoder.buffer.bytes() == data,
            data == contents@,
            decoder.schema() == typeinfos@,
            decoder.at() <= data.len(),
            events_spec(typeinfos@, typeid as int, data, 0) == prepend(
                event_models(out@),
                events_spec(typeinfos@, typeid as int, data, decoder.at()),
            ),
        decreases data.len() - decoder.at(),
    {
        let ghost q = decoder.at();
        proof {
            decoder.buffer.lemma_wf_facts();
            assert(decoder.buffer.pending_bits() == 0);
            assert(q < data.len());
            assert(events_spec(typeinfos@, typeid as int, data, q) == match event_step(typeinfos@, typeid as int, data, q) {
                Ok((es, p)) => if p <= q || p > data.len() {
                    Err(DecodeError::Corrupted)
                } else {
                    prepend(seq![es], events_spec(typeinfos@, typeid as int, data, p))
                },
                Err(x) => Err(x),
            }) by {
                reveal(events_spec);
            }
        }
        let start = decoder.buffer.used_bits();
        let ev = match decode_event(&mut decoder, typeid) {
            Ok(ev) => ev,
            Err(e) => return Err(e),
        };
        proof {
            decoder.buffer.lemma_wf_facts();
            assert(decoder.at() <= data.len());
            assert(decoder.buffer.bit_pos() <= start ==> decoder.at() <= q);
            assert(decoder.buffer.bit_pos() > start ==> decoder.at() > q);
        }
        if decoder.buffer.used_bits() <= start {
            return Err(DecodeError::Corrupted);
        }
        let ghost before = event_models(out@);
        out.push(ev);
        assert(event_models(out@) =~= before + seq![entry_models(ev.entries@)]);
        proof {
            let r = events_spec(typeinfos@, typeid as int, data, decoder.at());
            if let Ok((vs, f)) = r {
                assert(before + (seq![entry_models(ev.entries@)] + vs) =~= (before + seq![entry_models(ev.entries@)]) + vs);
            }
        }
    }
    proof {
        decoder.buffer.lemma_wf_facts();
        assert(decoder.buffer.pending_bits() == 0);
        assert(events_spec(typeinfos@, typeid as int, data, decoder.at()) == Ok::<(Seq<Seq<(Seq<char>, Val)>>, nat), DecodeError>((Seq::empty(), decoder.at()))) by {
            reveal(events_spec);
        }
    }
    assert(event_models(out@) + Seq::<Seq<(Seq<char>, Val)>>::empty() =~= event_models(out@));
    Ok(out)
}

/// The events of a bit-packed stream of structs of type `id` from bit `pos`
/// until every byte has been taken.
#[verifier::opaque]
pub open spec fn bp_events_spec(s: Seq<ProtocolTypeInfo>, id: int, data: Seq<u8>, pos: nat) -> Result<
    (Seq<Seq<(Seq<char>, Val)>>, nat),
    DecodeError,
>
    decreases data.len() * 8 - pos,
{
    if (pos + 7) / 8 >= data.len() {
        Ok((Seq::empty(), pos))
    } else {
        match bp_event_step(s, id, data, pos) {
            Ok((es, p)) => if p <= pos || p > data.len() * 8 {
                // a record that takes no bits would repeat forever
                Err(DecodeError::Corrupted)
            } else {
                prepend(seq![es], bp_events_spec(s, id, data, p))
            },
            Err(x) => Err(x),
        }
    }
}

/// One bit-packed record at bit `pos`: it must decode to a struct.
#[verifier::opaque]
pub open spec fn bp_event_step(s: Seq<ProtocolTypeInfo>, id: int, data: Seq<u8>, pos: nat) -> Result<
    (Seq<(Seq<char>, Val)>, nat),
    DecodeError,
> {
    match bp_decode(s, id, data, pos, true, true, s.len()) {
        Ok((Val::Struct(es), p)) => Ok((es, p)),
        Ok(_) => Err(DecodeError::Corrupted),
        Err(x) => Err(x),
    }
}

fn decode_bp_event(decoder: &mut BitPackedDecoder, typeid: u8) -> (r: Result<Event, DecodeError>)
    requires
        old(decoder).buffer.wf(),
        old(decoder).buffer.is_big_endian(),
    ensures
        final(decoder).continues(old(decoder)),
        match bp_event_step(old(decoder).schema(), typeid as int, old(decoder).buffer.bytes(), old(decoder).buffer.bit_pos()) {
            Ok((es, p)) => r matches Ok(x) && entry_models(x.entries@) == es && final(decoder).buffer.bit_pos() == p,
            Err(e) => r matches Err(x) && x == e,
        },
{
    reveal(bp_event_step);
    match decoder.instance(typeid, true) {
        Ok(DecoderResult::Struct(entries)) => {
            proof {
                lemma_struct_model(entries);
            }
            Ok(Event::new(entries))
        },
        Ok(_) => Err(DecodeError::Corrupted),
        Err(e) => Err(e),
    }
}

/// Decodes records of type `typeid` in the bit-packed format until every
/// byte has been taken.
pub fn decode_bitpacked_events(contents: Vec<u8>, typeinfos: &[ProtocolTypeInfo], typeid: u8) -> (r:
    Result<Vec<Event>, DecodeError>)
    requires
        contents.len() * 8 <= usize::MAX,
    ensures
        match bp_events_spec(typeinfos@, typeid as int, contents@, 0) {
            Ok((evs, _)) => r matches Ok(x) && event_models(x@) == evs,
            Err(e) => r matches Err(x) && x == e,
        },
{
    let ghost data = contents@;
    let mut decoder = BitPackedDecoder::new(contents, typeinfos);
    let mut out: Vec<Event> = Vec::new();
    while !decoder.buffer.done()
        invariant
            decoder.buffer.wf(),
            decoder.buffer.is_big_endian(),
            decoder.buffer.bytes() == data,
            data == contents@,
            decoder.schema() == typeinfos@,
            bp_events_spec(typeinfos@, typeid as int, data, 0) == prepend(
                event_models(out@),
                bp_events_spec(typeinfos@, typeid as int, data, decoder.buffer.bit_pos()),
            ),
        decreases data.len() * 8 - decoder.buffer.bit_pos(),
    {
        let ghost q = decoder.buffer.bit_pos();
        proof {
            decoder.buffer.lemma_wf_facts();
            assert((q + 7) / 8 == decoder.buffer.position());
            assert(bp_events_spec(typeinfos@, typeid as int, data, q) == match bp_event_step(typeinfos@, typeid as int, data, q) {
                Ok((es, p)) => if p <= q || p > data.len() * 8 {
                    Err(DecodeError::Corrupted)
                } else {
                    prepend(seq![es], bp_events_spec(typeinfos@, typeid as int, data, p))
                },
                Err(x) => Err(x),
            }) by {
                reveal(bp_events_spec);
            }
        }
        let start = decoder.buffer.used_bits();
        let ev = match decode_bp_event(&mut decoder, typeid) {
            Ok(ev) => ev,
            Err(e) => return Err(e),
        };
        proof {
            decoder.buffer.lemma_wf_facts();
        }
        if decoder.buffer.used_bits() <= start {
            return Err(DecodeError::Corrupted);
        }
        let ghost before = event_models(out@);
        out.push(ev);
        assert(event_models(out@) =~= before + seq![entry_models(ev.entries@)]);
        proof {
            let r = bp_events_spec(typeinfos@, typeid as int, data, decoder.buffer.bit_pos());
            if let Ok((vs, f)) = r {
                assert(before + (seq![entry_models(ev.entries@)] + vs) =~= (before + seq![entry_models(ev.entries@)]) + vs);
            }
        }
    }
    proof {
        decoder.buffer.lemma_wf_facts();
        let q = decoder.buffer.bit_pos();
        assert((q + 7) / 8 == decoder.buffer.position());
        assert(bp_events_spec(typeinfos@, typeid as int, data, q) == Ok::<(Seq<Seq<(Seq<char>, Val)>>, nat), DecodeError>((Seq::empty(), q))) by {
            reveal(bp_events_spec);
        }
    }
    assert(event_models(out@) + Seq::<Seq<(Seq<char>, Val)>>::empty() =~= event_models(out@));
    Ok(out)
}

/// A sub-file that must be there and fit a bit cursor.
pub open spec fn needed_file(a: MPQArchive, name: Seq<u8>) -> Result<Seq<u8>, DecodeError> {
    match a.file_spec(name, false) {
        Ok(Some(v)) => if v.len() * 8 <= usize::MAX {
            Ok(v)
        } else {
            Err(DecodeError::Corrupted)
        },
        Ok(None) => Err(DecodeError::Corrupted),
        Err(e) => Err(e),
    }
}

/// Reads a sub-file that the replay needs; a missing one is `Corrupted`.
fn needed(archive: &MPQArchive, name: &str) -> (r: Result<Vec<u8>, DecodeError>)
    requires
        archive.wf(),
    ensures
        match needed_file(*archive, name.spec_bytes()) {
            Ok(v) => r matches Ok(x) && x@ == v,
            Err(e) => r matches Err(x) && x == e,
        },
{
    match archive.read_file(name, false) {
        Ok(Some(v)) => if v.len() <= usize::MAX / 8 {
            Ok(v)
        } else {
            Err(DecodeError::Corrupted)
        },
        Ok(None) => Err(DecodeError::Corrupted),
        Err(e) => Err(e),
    }
}

/// The fields of a stream that holds one struct of type `id`.
pub open spec fn details_spec(s: Seq<ProtocolTypeInfo>, id: int, data: Seq<u8>) -> Result<
    Seq<(Seq<char>, Val)>,
    DecodeError,
> {
    match v_decode(s, id, data, 0, true, s.len()) {
        Ok((Val::Struct(es), _)) => Ok(es),
        Ok(_) => Err(DecodeError::Corrupted),
        Err(e) => Err(e),
    }
}

/// Decodes a stream holding one struct of type `typeid` in the versioned
/// format, and returns its fields.
pub fn decode_details(contents: Vec<u8>, typeinfos: &[ProtocolTypeInfo], typeid: u8) -> (r: Result<
    Vec<EventEntry>,
    DecodeError,
>)
    requires
        contents.len() * 8 <= usize::MAX,
    ensures
        match details_spec(typeinfos@, typeid as int, contents@) {
            Ok(es) => r matches Ok(x) && entry_models(x@) == es,
            Err(e) => r matches Err(x) && x == e,
        },
{
    let mut decoder = VersionedDecoder::new(contents, typeinfos);
    match decoder.instance(typeid, true) {
        Ok(DecoderResult::Struct(entries)) => {
            proof {
                lemma_struct_model(entries);
            }
            Ok(entries)
        },
        Ok(_) => Err(DecodeError::Corrupted),
        Err(e) => Err(e),
    }
}

/// The tags joined with commas.
pub open spec fn join_spec(tags: Seq<Seq<char>>) -> Seq<char>
    decreases tags.len(),
{
    if tags.len() == 0 {
        Seq::empty()
    } else if tags.len() == 1 {
        tags[0]
    } else {
        join_spec(tags.drop_last()) + seq![','] + tags.last()
    }
}

/// Joins the tags with commas.
pub fn join_tags(tags: &Vec<String>) -> (r: String)
    ensures
        r@ == join_spec(Seq::new(tags@.len(), |i: int| tags@[i]@)),
{
    let ghost views = Seq::new(tags@.len(), |i: int| tags@[i]@);
    let mut out = String::new();
    let mut i: usize = 0;
    while i < tags.len()
        invariant
            i <= tags@.len(),
            views == Seq::new(tags@.len(), |i: int| tags@[i]@),
            out@ == join_spec(views.subrange(0, i as int)),
        decreases tags.len() - i,
    {
        if i > 0 {
            out.append(",");
            proof {
                reveal_strlit(",");
            }
        }
        out.append(tags[i].as_str());
        proof {
            let pre = views.subrange(0, i as int);
            let next = views.subrange(0, i + 1);
            assert(next.drop_last() =~= pre);
            assert(next.last() == tags@[i as int]@);
            if i == 0 {
                assert(pre =~= Seq::<Seq<char>>::empty());
            }
        }
        i = i + 1;
    }
    assert(views.subrange(0, i as int) =~= views);
    out
}

/// The sub-file names a replay is read from.
pub open spec fn tracker_name() -> Seq<u8> {
    "replay.tracker.events".spec_bytes()
}

pub open spec fn metadata_name() -> Seq<u8> {
    "replay.gamemetadata.json".spec_bytes()
}

pub open spec fn details_name() -> Seq<u8> {
    "replay.details".spec_bytes()
}

impl Replay {
    /// Reads the tracker events, the game metadata and the details of a
    /// replay: the details decode to one struct of type `details_id`, the
    /// tracker events to a stream of structs of type `events_id`, both in the
    /// versioned format; the metadata is text and the tags are joined with
    /// commas.
    pub fn parse(
        archive: &MPQArchive,
        typeinfos: &[ProtocolTypeInfo],
        details_id: u8,
        events_id: u8,
        tags: Vec<String>,
    ) -> (r: Result<Parsed, DecodeError>)
        requires
            archive.wf(),
        ensures
            match needed_file(*archive, tracker_name()) {
                Err(e) => r matches Err(x) && x == e,
                Ok(ev) => match needed_file(*archive, metadata_name()) {
                    Err(e) => r matches Err(x) && x == e,
                    Ok(md) => match needed_file(*archive, details_name()) {
                        Err(e) => r matches Err(x) && x == e,
                        Ok(dt) => match details_spec(typeinfos@, details_id as int, dt) {
                            Err(e) => r matches Err(x) && x == e,
                            Ok(info) => match events_spec(typeinfos@, events_id as int, ev, 0) {
                                Err(e) => r matches Err(x) && x == e,
                                Ok((evs, _)) => r matches Ok(p) && entry_models(p.player_info@) == info
                                    && event_models(p.tracker_events@) == evs
                                    && p.metadata@ == text_of(md)
                                    && p.tags@ == join_spec(Seq::new(tags@.len(), |i: int| tags@[i]@)),
                            },
                        },
                    },
                },
            },
    {
        let contents = match needed(archive, "replay.tracker.events") {
            Ok(v) => v,
            Err(e) => return Err(e),
        };
        let raw_metadata = match needed(archive, "replay.gamemetadata.json") {
            Ok(v) => v,
            Err(e) => return Err(e),
        };
        let details = match needed(archive, "replay.details") {
            Ok(v) => v,
            Err(e) => return Err(e),
        };
        let player_info = match decode_details(details, typeinfos, details_id) {
            Ok(v) => v,
            Err(e) => return Err(e),
        };
        let tracker_events = match decode_events(contents, typeinfos, events_id) {
            Ok(v) => v,
            Err(e) => return Err(e),
        };
        let metadata = text_or_empty(raw_metadata.as_slice());
        Ok(Parsed { player_info, tracker_events, metadata, tags: join_tags(&tags) })
    }
}

} // verus!
