//! Ids and metadata of the records that the operation store keeps.

use vstd::prelude::*;
use vstd::std_specs::cmp::PartialEqSpecImpl;

use crate::hex_name::{decode, encode};

verus! {

/// Whether two byte strings hold the same bytes.
fn same_bytes(a: &Vec<u8>, b: &Vec<u8>) -> (same: bool)
    ensures
        same == (a@ == b@),
{
    if a.len() != b.len() {
        return false;
    }
    let mut i: usize = 0;
    while i < a.len()
        invariant
            a.len() == b.len(),
            i <= a.len(),
            forall|k: int| 0 <= k < i ==> a@[k] == b@[k],
        decreases a.len() - i,
    {
        if a[i] != b[i] {
            return false;
        }
        i += 1;
    }
    assert(a@ =~= b@);
    true
}

/// The id of an operation: bytes that the operation store derives from the
/// operation's content.
#[derive(Debug, Hash)]
pub struct OperationId {
    id: Vec<u8>,
}

impl View for OperationId {
    type V = Seq<u8>;

    closed spec fn view(&self) -> Seq<u8> {
        self.id@
    }
}

impl Clone for OperationId {
    fn clone(&self) -> (copy: Self)
        ensures
            copy@ == self@,
    {
        OperationId { id: self.id.clone() }
    }
}

impl PartialEq for OperationId {
    fn eq(&self, other: &Self) -> (same: bool) {
        same_bytes(&self.id, &other.id)
    }
}

impl PartialEqSpecImpl for OperationId {
    open spec fn obeys_eq_spec() -> bool {
        true
    }

    open spec fn eq_spec(&self, other: &Self) -> bool {
        self@ == other@
    }
}

impl Eq for OperationId {

}

impl OperationId {
    /// The id made of `value`.
    pub fn new(value: Vec<u8>) -> (id: Self)
        ensures
            id@ == value@,
    {
        OperationId { id: value }
    }

    /// The id that the hexadecimal form `hex` stands for.
    pub fn from_hex(hex: &str) -> (id: Self)
        requires
            crate::hex_name::is_hex(hex@),
        ensures
            id@ == crate::hex_name::bytes_of(hex@),
    {
        OperationId { id: decode(hex).unwrap() }
    }

    /// The id that `name` stands for, if `name` is a hexadecimal form.
    pub fn try_from_hex(name: &str) -> (id: Option<Self>)
        ensures
            id is Some <==> crate::hex_name::is_hex(name@),
            id matches Some(i) ==> i@ == crate::hex_name::bytes_of(name@),
    {
        match decode(name) {
            Ok(value) => Some(OperationId { id: value }),
            Err(_) => None,
        }
    }

    /// The bytes of the id.
    pub fn to_bytes(&self) -> (bytes: Vec<u8>)
        ensures
            bytes@ == self@,
    {
        self.id.clone()
    }

    /// The id in lowercase hexadecimal: the name of its marker.
    pub fn hex(&self) -> (name: String)
        ensures
            name@ == crate::hex_name::hex_of(self@),
    {
        encode(&self.id)
    }
}

/// The ids in `ids`, each as its bytes.
pub open spec fn id_seq(ids: Seq<OperationId>) -> Seq<Seq<u8>> {
    ids.map_values(|id: OperationId| id@)
}

/// The id of a view, the state of the store that an operation leads to.
#[derive(Debug, Hash)]
pub struct ViewId {
    id: Vec<u8>,
}

impl View for ViewId {
    type V = Seq<u8>;

    closed spec fn view(&self) -> Seq<u8> {
        self.id@
    }
}

impl Clone for ViewId {
    fn clone(&self) -> (copy: Self)
        ensures
            copy@ == self@,
    {
        ViewId { id: self.id.clone() }
    }
}

impl PartialEq for ViewId {
    fn eq(&self, other: &Self) -> (same: bool) {
        same_bytes(&self.id, &other.id)
    }
}

impl PartialEqSpecImpl for ViewId {
    open spec fn obeys_eq_spec() -> bool {
        true
    }

    open spec fn eq_spec(&self, other: &Self) -> bool {
        self@ == other@
    }
}

impl Eq for ViewId {

}

impl ViewId {
    /// The id made of `value`.
    pub fn new(value: Vec<u8>) -> (id: Self)
        ensures
            id@ == value@,
    {
        ViewId { id: value }
    }

    /// The bytes of the id.
    pub fn to_bytes(&self) -> (bytes: Vec<u8>)
        ensures
            bytes@ == self@,
    {
        self.id.clone()
    }
}

/// A point in time, in milliseconds since the epoch.
#[derive(Clone, Copy, Debug, PartialEq, Eq, Structural)]
pub struct MillisSinceEpoch(pub i64);

/// A point in time with the offset, in minutes, of the time zone it was
/// taken in.
#[derive(Clone, Copy, Debug, PartialEq, Eq, Structural)]
pub struct Timestamp {
    pub timestamp: MillisSinceEpoch,
    pub tz_offset: i32,
}

/// When an operation was begun and when it was done.
#[derive(Clone, Copy, Debug, PartialEq, Eq, Structural)]
pub struct OperationMetadata {
    pub start_time: Timestamp,
    pub end_time: Timestamp,
}

} // verus!
