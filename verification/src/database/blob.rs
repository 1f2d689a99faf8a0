//! A blob: raw file bytes stored under the kind tag "blob".

use vstd::prelude::*;

use crate::database::Object;

verus! {

/// The "blob" kind tag.
pub open spec fn blob_kind() -> Seq<u8> {
    seq![0x62u8, 0x6cu8, 0x6fu8, 0x62u8]
}

pub struct Blob {
    data: Vec<u8>,
}

impl Blob {
    pub fn new(data: Vec<u8>) -> (r: Blob)
        ensures
            r.data_spec() == data@,
    {
        Blob { data }
    }

    /// The raw bytes this blob carries.
    pub fn to_bytestr(&self) -> (r: &[u8])
        ensures
            r@ == self.data_spec(),
    {
        self.data.as_slice()
    }
}

impl Object for Blob {
    open spec fn kind_spec(&self) -> Seq<u8> {
        blob_kind()
    }

    closed spec fn data_spec(&self) -> Seq<u8> {
        self.data@
    }

    open spec fn data_ready(&self) -> bool {
        true
    }

    fn kind(&self) -> (r: Vec<u8>)
        ensures
            r@ == self.kind_spec(),
    {
        let k: [u8; 4] = [0x62, 0x6c, 0x6f, 0x62];
        let mut out: Vec<u8> = Vec::new();
        out.extend_from_slice(k.as_slice());
        proof {
            assert(out@ =~= blob_kind());
        }
        out
    }

    fn data(&self) -> (r: Vec<u8>)
        ensures
            r@ == self.data_spec(),
    {
        let mut out: Vec<u8> = Vec::new();
        out.extend_from_slice(self.data.as_slice());
        proof {
            assert(out@ =~= self.data@);
        }
        out
    }
}

} // verus!
