use vstd::prelude::*;

verus! {

/// What a write records for a key: a payload, or a deletion marker.
#[derive(Debug, Clone, PartialEq, Eq)]
pub enum HummockValue {
    Put(Vec<u8>),
    Delete,
}

impl HummockValue {
    /// The payload seen by a reader: `None` for a deletion marker.
    pub open spec fn payload(&self) -> Option<Seq<u8>> {
        match self {
            HummockValue::Put(v) => Some(v@),
            HummockValue::Delete => None,
        }
    }
}

} // verus!
