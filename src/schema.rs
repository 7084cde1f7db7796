//! The type table that drives decoding: entries refer to each other by index.
use vstd::prelude::*;

verus! {

/// Bounds of an integer on the wire: an offset added to the value read, and
/// the number of bits read.
#[derive(Clone, Copy, Debug, PartialEq, Eq, Structural)]
pub struct Int(pub i64, pub u8);

/// One declared struct field: its name, its type id and its wire tag.
#[derive(Debug)]
pub struct Struct(pub String, pub u8, pub i64);

/// One entry of the type table.
#[derive(Debug)]
pub enum ProtocolTypeInfo {
    Int(Int),
    Blob(Int),
    Bool,
    Array(Int, u8),
    Null,
    BitArray(Int),
    Optional(u8),
    FourCC,
    Choice(Int, Vec<(i64, (String, u8))>),
    Struct(Vec<Struct>),
}

/// The index of the first choice arm at or after `i` whose tag is `tag`.
pub open spec fn choice_index_from(fields: Seq<(i64, (String, u8))>, tag: i64, i: int) -> Option<int>
    decreases fields.len() - i,
{
    if i < 0 || i >= fields.len() {
        None
    } else if fields[i].0 == tag {
        Some(i)
    } else {
        choice_index_from(fields, tag, i + 1)
    }
}

/// The index of the first choice arm whose tag is `tag`, if any.
pub open spec fn choice_index(fields: Seq<(i64, (String, u8))>, tag: i64) -> Option<int> {
    choice_index_from(fields, tag, 0)
}

/// The index of the first struct field at or after `i` whose wire tag is `tag`.
pub open spec fn field_index_from(fields: Seq<Struct>, tag: i64, i: int) -> Option<int>
    decreases fields.len() - i,
{
    if i < 0 || i >= fields.len() {
        None
    } else if fields[i].2 == tag {
        Some(i)
    } else {
        field_index_from(fields, tag, i + 1)
    }
}

/// The index of the first struct field whose wire tag is `tag`, if any.
pub open spec fn field_index(fields: Seq<Struct>, tag: i64) -> Option<int> {
    field_index_from(fields, tag, 0)
}

/// Finds the first choice arm with the given tag.
pub fn find_choice(fields: &Vec<(i64, (String, u8))>, tag: i64) -> (r: Option<usize>)
    ensures
        r matches Some(k) ==> choice_index(fields@, tag) == Some(k as int) && k < fields@.len()
            && fields@[k as int].0 == tag,
        r is None ==> choice_index(fields@, tag) is None,
{
    let mut i: usize = 0;
    while i < fields.len()
        invariant
            i <= fields.len(),
            choice_index(fields@, tag) == choice_index_from(fields@, tag, i as int),
        decreases fields.len() - i,
    {
        if fields[i].0 == tag {
            return Some(i);
        }
        i = i + 1;
    }
    None
}

/// Finds the first struct field with the given wire tag.
pub fn find_field(fields: &Vec<Struct>, tag: i64) -> (r: Option<usize>)
    ensures
        r matches Some(k) ==> field_index(fields@, tag) == Some(k as int) && k < fields@.len()
            && fields@[k as int].2 == tag,
        r is None ==> field_index(fields@, tag) is None,
{
    let mut i: usize = 0;
    while i < fields.len()
        invariant
            i <= fields.len(),
            field_index(fields@, tag) == field_index_from(fields@, tag, i as int),
        decreases fields.len() - i,
    {
        if fields[i].2 == tag {
            return Some(i);
        }
        i = i + 1;
    }
    None
}

} // verus!
