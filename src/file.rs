use crate::bytes::copy_bytes;
use vstd::prelude::*;

verus! {

/// A file as held in memory: its name, its inode, its size and its content.
#[derive(Debug)]
pub struct File {
    pub name: Vec<u8>,
    pub inode_index: usize,
    pub size: u32,
    pub content: Vec<u8>,
}

/// The bytes of `s` that are not zero, in order.
pub open spec fn nonzero_bytes(s: Seq<u8>) -> Seq<u8> {
    s.filter(|b: u8| b != 0)
}

impl File {
    /// An empty file called `name` stored at inode `inode_index`.
    pub fn new(name: &[u8], inode_index: usize) -> (r: Self)
        ensures
            r.name@ == name@,
            r.inode_index == inode_index,
            r.size == 0,
            r.content@.len() == 0,
    {
        File { name: copy_bytes(name), inode_index, size: 0, content: Vec::new() }
    }

    /// The file `name` at `inode_index` whose blocks hold `data`: its content is the bytes of
    /// `data` that are not zero, since the blocks are padded with zeros.
    pub fn from_block_bytes(name: &[u8], inode_index: usize, data: &[u8]) -> (r: Self)
        requires
            data@.len() <= u32::MAX,
        ensures
            r.name@ == name@,
            r.inode_index == inode_index,
            r.content@ == nonzero_bytes(data@),
            r.size as int == nonzero_bytes(data@).len(),
    {
        let mut content: Vec<u8> = Vec::new();
        let mut i: usize = 0;
        while i < data.len()
            invariant
                i <= data@.len() <= u32::MAX,
                content@ == nonzero_bytes(data@.take(i as int)),
                content@.len() <= i,
            decreases data@.len() - i,
        {
            assert(data@.take(i + 1) =~= data@.take(i as int).push(data@[i as int]));
            proof {
                data@.take(i as int).lemma_filter_push(data@[i as int], |b: u8| b != 0);
            }
            if data[i] != 0 {
                content.push(data[i]);
            }
            i = i + 1;
        }
        assert(data@.take(i as int) =~= data@);
        let size = content.len() as u32;
        File { name: copy_bytes(name), inode_index, size, content }
    }
}

} // verus!
