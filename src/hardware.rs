use vstd::prelude::*;

verus! {

/// Bytes in one block of the store.
pub const BLOCK_SIZE: usize = 4096;

/// Blocks in the store.
pub const TOTAL_BLOCKS: usize = 64;

/// Bytes in the whole store.
pub const STORE_SIZE: usize = 262144;

/// The flat byte buffer that backs the file system.
#[derive(Debug)]
pub struct Hardware {
    pub data: Vec<u8>,
}

impl Hardware {
    /// A store of `TOTAL_BLOCKS` zeroed blocks.
    pub fn new() -> (r: Self)
        ensures
            r.data@ == Seq::new(STORE_SIZE as nat, |i: int| 0u8),
    {
        let data = vec![0u8; STORE_SIZE];
        assert(data@ =~= Seq::new(STORE_SIZE as nat, |i: int| 0u8));
        Hardware { data }
    }

    /// Wraps a buffer read from storage; only a buffer of exactly the store's size is taken.
    pub fn from_bytes(data: Vec<u8>) -> (r: Option<Self>)
        ensures
            r is Some <==> data@.len() == STORE_SIZE,
            r matches Some(h) ==> h.data@ == data@,
    {
        if data.len() == STORE_SIZE {
            Some(Hardware { data })
        } else {
            None
        }
    }
}

} // verus!
