use crate::bytes::lemma_flatten_take_next;
use crate::error::FsError;
use crate::file::nonzero_bytes;
use crate::hardware::{Hardware, BLOCK_SIZE, STORE_SIZE, TOTAL_BLOCKS};
use crate::inode::{zeros, Inode, InodeView, MAX_BLOCKS, MAX_NAME_LEN};
use vstd::prelude::*;
use vstd::utf8::valid_utf8;

verus! {

/// The word in the superblock that marks an initialized store.
pub const INIT_MAGIC: u32 = 0xDEADBEEF;

/// Inode slots in the inode table.
pub const NUM_INODES: usize = 64;

/// The first block that may hold object data; blocks before it hold metadata.
pub const FIRST_DATA_BLOCK: usize = 4;

/// Bytes that an object can hold: one block per direct pointer.
pub const MAX_OBJECT_SIZE: usize = 28672;

/// The file system: bitmaps and inode table in memory, over the block store.
/// In both bitmaps `true` marks a slot in use.
#[derive(Debug)]
pub struct System {
    pub initialized: bool,
    pub root_inode_index: usize,
    pub free_inodes: Vec<bool>,
    pub free_blocks: Vec<bool>,
    pub inodes: Vec<Inode>,
    pub hardware: Hardware,
}

/// The data blocks of a block list: its entries up to the first zero.
pub open spec fn data_blocks(bp: Seq<u32>) -> Seq<u32>
    decreases bp.len(),
{
    if bp.len() == 0 || bp[0] == 0 {
        Seq::empty()
    } else {
        seq![bp[0]] + data_blocks(bp.drop_first())
    }
}

/// Block `b` of the store `d`.
pub open spec fn block_of(d: Seq<u8>, b: int) -> Seq<u8> {
    d.subrange(b * BLOCK_SIZE, b * BLOCK_SIZE + BLOCK_SIZE)
}

/// Blocks of `fb` in `lo..hi` that are free.
pub open spec fn free_count(fb: Seq<bool>, lo: int, hi: int) -> nat
    decreases hi - lo,
{
    if hi <= lo {
        0
    } else {
        free_count(fb, lo, hi - 1) + if fb[hi - 1] {
            0nat
        } else {
            1nat
        }
    }
}

/// Blocks needed for `n` bytes.
pub open spec fn blocks_for(n: int) -> int {
    (n + BLOCK_SIZE - 1) / BLOCK_SIZE as int
}

/// Piece `k` of `data` when it is cut into blocks, padded with zeros to a whole block.
pub open spec fn chunk(data: Seq<u8>, k: int) -> Seq<u8> {
    let end = if (k + 1) * BLOCK_SIZE < data.len() {
        (k + 1) * BLOCK_SIZE
    } else {
        data.len() as int
    };
    data.subrange(k * BLOCK_SIZE, end) + zeros(BLOCK_SIZE - (end - k * BLOCK_SIZE))
}

impl System {
    /// The data blocks of inode `i`.
    pub open spec fn owned(&self, i: int) -> Seq<u32> {
        data_blocks(self.inodes@[i].block_pos@)
    }

    /// The bytes of inode `i`: its data blocks, one after another.
    pub open spec fn object_data(&self, i: int) -> Seq<u8> {
        self.owned(i).map_values(|b: u32| block_of(self.hardware.data@, b as int)).flatten()
    }

    /// Free data blocks.
    pub open spec fn free_data_blocks(&self) -> nat {
        free_count(self.free_blocks@, FIRST_DATA_BLOCK as int, TOTAL_BLOCKS as int)
    }

    /// The layout invariant: table sizes, inode records that fit, and each data block
    /// owned by at most one inode, in use, and never a metadata block.
    pub open spec fn wf(&self) -> bool {
        &&& self.hardware.data@.len() == STORE_SIZE
        &&& self.free_blocks@.len() == TOTAL_BLOCKS
        &&& self.free_inodes@.len() == NUM_INODES
        &&& self.inodes@.len() == NUM_INODES
        &&& self.root_inode_index < NUM_INODES
        &&& forall|i: int|
            0 <= i < NUM_INODES ==> (#[trigger] self.inodes@[i]).name@.len() <= MAX_NAME_LEN
                && self.inodes@[i].block_pos@.len() <= MAX_BLOCKS && valid_utf8(self.inodes@[i].name@)
        &&& forall|i: int, m: int|
            0 <= i < NUM_INODES && 0 <= m < self.owned(i).len() ==> FIRST_DATA_BLOCK
                <= #[trigger] self.owned(i)[m] < TOTAL_BLOCKS && self.free_blocks@[self.owned(
                i,
            )[m] as int]
        &&& forall|i: int, m: int, j: int, n: int|
            0 <= i < NUM_INODES && 0 <= m < self.owned(i).len() && 0 <= j < NUM_INODES && 0
                <= n < self.owned(j).len() && #[trigger] self.owned(i)[m] == #[trigger] self.owned(
                j,
            )[n] ==> i == j && m == n
        &&& forall|i: int|
            0 <= i < NUM_INODES && !#[trigger] self.free_inodes@[i] ==> self.owned(i).len() == 0
    }
}

/// The data blocks of a list hold at most as many entries as the list.
pub proof fn lemma_data_blocks_len(bp: Seq<u32>)
    ensures
        data_blocks(bp).len() <= bp.len(),
        forall|m: int| 0 <= m < data_blocks(bp).len() ==> #[trigger] data_blocks(bp)[m] == bp[m]
            && bp[m] != 0,
    decreases bp.len(),
{
    if bp.len() > 0 && bp[0] != 0 {
        lemma_data_blocks_len(bp.drop_first());
        assert forall|m: int| 0 <= m < data_blocks(bp).len() implies #[trigger] data_blocks(
            bp,
        )[m] == bp[m] && bp[m] != 0 by {
            if m > 0 {
                assert(data_blocks(bp)[m] == data_blocks(bp.drop_first())[m - 1]);
            }
        }
    }
}

/// A walk over a block list starts with all of its data blocks still ahead.
pub proof fn lemma_walk_start(bp: Seq<u32>)
    ensures
        data_blocks(bp) == bp.take(0) + data_blocks(bp.skip(0)),
{
    assert(bp.skip(0) =~= bp);
    assert(bp.take(0) + data_blocks(bp) =~= data_blocks(bp));
}

/// Passing a nonzero entry moves it from the data blocks ahead to those behind.
pub proof fn lemma_walk_step(bp: Seq<u32>, k: int)
    requires
        0 <= k < bp.len(),
        bp[k] != 0,
        data_blocks(bp) == bp.take(k) + data_blocks(bp.skip(k)),
    ensures
        data_blocks(bp) == bp.take(k + 1) + data_blocks(bp.skip(k + 1)),
        data_blocks(bp)[k] == bp[k],
{
    assert(bp.skip(k).drop_first() =~= bp.skip(k + 1));
    assert(bp.take(k) + (seq![bp[k]] + data_blocks(bp.skip(k + 1))) =~= bp.take(k + 1) + data_blocks(
        bp.skip(k + 1),
    ));
}

/// A walk ends at the end of the list or at its first zero entry.
pub proof fn lemma_walk_end(bp: Seq<u32>, k: int)
    requires
        0 <= k <= bp.len(),
        k == bp.len() || bp[k] == 0,
        data_blocks(bp) == bp.take(k) + data_blocks(bp.skip(k)),
    ensures
        data_blocks(bp) == bp.take(k),
{
    assert(data_blocks(bp.skip(k)) =~= Seq::<u32>::empty());
    assert(bp.take(k) + Seq::<u32>::empty() =~= bp.take(k));
}

/// Nonzero entries followed by zeros: the data blocks are the nonzero entries.
pub proof fn lemma_data_blocks_padded(p: Seq<u32>, n: nat)
    requires
        forall|m: int| 0 <= m < p.len() ==> #[trigger] p[m] != 0,
    ensures
        data_blocks(p + Seq::new(n, |i: int| 0u32)) == p,
    decreases p.len(),
{
    let s = p + Seq::new(n, |i: int| 0u32);
    if p.len() == 0 {
        assert(s =~= Seq::new(n, |i: int| 0u32));
    } else {
        let q = p.drop_first();
        lemma_data_blocks_padded(q, n);
        assert(s.drop_first() =~= q + Seq::new(n, |i: int| 0u32));
        assert(seq![p[0]] + q =~= p);
    }
}

/// Setting one bitmap entry changes the free count by what that entry changed.
pub proof fn lemma_free_count_update(fb: Seq<bool>, lo: int, hi: int, b: int, v: bool)
    requires
        0 <= lo <= b < hi <= fb.len(),
    ensures
        free_count(fb.update(b, v), lo, hi) + (if fb[b] {
            0int
        } else {
            1int
        }) == free_count(fb, lo, hi) + (if v {
            0int
        } else {
            1int
        }),
    decreases hi - lo,
{
    if b < hi - 1 {
        lemma_free_count_update(fb, lo, hi - 1, b, v);
    } else {
        lemma_free_count_frame(fb, fb.update(b, v), lo, hi - 1);
    }
}

/// The free count of a range depends only on the entries in it.
pub proof fn lemma_free_count_frame(a: Seq<bool>, c: Seq<bool>, lo: int, hi: int)
    requires
        0 <= lo,
        hi <= a.len(),
        hi <= c.len(),
        forall|x: int| lo <= x < hi ==> a[x] == c[x],
    ensures
        free_count(a, lo, hi) == free_count(c, lo, hi),
    decreases hi - lo,
{
    if lo < hi {
        lemma_free_count_frame(a, c, lo, hi - 1);
    }
}

/// A range whose entries are all in use has no free entry.
pub proof fn lemma_free_count_none(fb: Seq<bool>, lo: int, hi: int)
    requires
        0 <= lo,
        hi <= fb.len(),
        forall|x: int| lo <= x < hi ==> fb[x],
    ensures
        free_count(fb, lo, hi) == 0,
    decreases hi - lo,
{
    if lo < hi {
        lemma_free_count_none(fb, lo, hi - 1);
    }
}

impl System {
    /// The first free data block, scanning up from the first data block.
    pub(crate) fn get_next_free_block(&self) -> (r: Option<u32>)
        requires
            self.wf(),
        ensures
            r matches Some(b) ==> FIRST_DATA_BLOCK <= b < TOTAL_BLOCKS && !self.free_blocks@[b as int]
                && forall|c: int| FIRST_DATA_BLOCK <= c < b ==> self.free_blocks@[c],
            r is None ==> self.free_data_blocks() == 0,
    {
        let mut i: usize = FIRST_DATA_BLOCK;
        while i < TOTAL_BLOCKS
            invariant
                self.wf(),
                FIRST_DATA_BLOCK <= i <= TOTAL_BLOCKS,
                forall|c: int| FIRST_DATA_BLOCK <= c < i ==> self.free_blocks@[c],
            decreases TOTAL_BLOCKS - i,
        {
            if !self.free_blocks[i] {
                return Some(i as u32);
            }
            i = i + 1;
        }
        proof {
            lemma_free_count_none(self.free_blocks@, FIRST_DATA_BLOCK as int, TOTAL_BLOCKS as int);
        }
        None
    }

    /// The first free inode slot.
    pub(crate) fn get_next_free_inode(&self) -> (r: Option<u32>)
        requires
            self.wf(),
        ensures
            r matches Some(i) ==> i < NUM_INODES && !self.free_inodes@[i as int] && forall|c: int|
                0 <= c < i ==> self.free_inodes@[c],
            r is None ==> forall|c: int| 0 <= c < NUM_INODES ==> self.free_inodes@[c],
    {
        let mut i: usize = 0;
        while i < NUM_INODES
            invariant
                self.wf(),
                i <= NUM_INODES,
                forall|c: int| 0 <= c < i ==> self.free_inodes@[c],
            decreases NUM_INODES - i,
        {
            if !self.free_inodes[i] {
                return Some(i as u32);
            }
            i = i + 1;
        }
        None
    }

    /// Marks inode slot `inode_pos` used or free.
    pub(crate) fn set_free_inode_used(&mut self, inode_pos: usize, used: bool)
        requires
            inode_pos < old(self).free_inodes@.len(),
        ensures
            final(self).free_inodes@ == old(self).free_inodes@.update(inode_pos as int, used),
            final(self).free_blocks == old(self).free_blocks,
            final(self).inodes == old(self).inodes,
            final(self).hardware == old(self).hardware,
            final(self).root_inode_index == old(self).root_inode_index,
            final(self).initialized == old(self).initialized,
    {
        self.free_inodes[inode_pos] = used;
    }

    /// Marks block `block_pos` used or free.
    pub(crate) fn set_free_block_used(&mut self, block_pos: usize, used: bool)
        requires
            block_pos < old(self).free_blocks@.len(),
        ensures
            final(self).free_blocks@ == old(self).free_blocks@.update(block_pos as int, used),
            final(self).free_inodes == old(self).free_inodes,
            final(self).inodes == old(self).inodes,
            final(self).hardware == old(self).hardware,
            final(self).root_inode_index == old(self).root_inode_index,
            final(self).initialized == old(self).initialized,
    {
        self.free_blocks[block_pos] = used;
    }

    /// Copies `data` to the start of block `block_pos`; the rest of the store is unchanged.
    pub(crate) fn write_into_block(&mut self, block_pos: usize, data: &[u8])
        requires
            old(self).hardware.data@.len() == STORE_SIZE,
            block_pos < TOTAL_BLOCKS,
            data@.len() <= BLOCK_SIZE,
        ensures
            final(self).hardware.data@ == old(self).hardware.data@.subrange(
                0,
                block_pos * BLOCK_SIZE,
            ) + data@ + old(self).hardware.data@.subrange(
                block_pos * BLOCK_SIZE + data@.len(),
                STORE_SIZE as int,
            ),
            final(self).free_blocks == old(self).free_blocks,
            final(self).free_inodes == old(self).free_inodes,
            final(self).inodes == old(self).inodes,
            final(self).root_inode_index == old(self).root_inode_index,
            final(self).initialized == old(self).initialized,
    {
        let start = block_pos * BLOCK_SIZE;
        let mut j: usize = 0;
        while j < data.len()
            invariant
                self.hardware.data@.len() == STORE_SIZE,
                old(self).hardware.data@.len() == STORE_SIZE,
                start == block_pos * BLOCK_SIZE,
                block_pos < TOTAL_BLOCKS,
                data@.len() <= BLOCK_SIZE,
                j <= data@.len(),
                self.free_blocks == old(self).free_blocks,
                self.free_inodes == old(self).free_inodes,
                self.inodes == old(self).inodes,
                self.root_inode_index == old(self).root_inode_index,
                self.initialized == old(self).initialized,
                self.hardware.data@ == old(self).hardware.data@.subrange(0, start as int)
                    + data@.take(j as int) + old(self).hardware.data@.subrange(
                    start + j,
                    STORE_SIZE as int,
                ),
            decreases data@.len() - j,
        {
            self.hardware.data[start + j] = data[j];
            j = j + 1;
            assert(self.hardware.data@ =~= old(self).hardware.data@.subrange(0, start as int)
                + data@.take(j as int) + old(self).hardware.data@.subrange(
                start + j,
                STORE_SIZE as int,
            ));
        }
        assert(data@.take(j as int) =~= data@);
    }
}

/// Marking more blocks used keeps the invariant.
pub proof fn lemma_wf_more_used(a: System, b: System)
    requires
        a.wf(),
        b.inodes == a.inodes,
        b.free_inodes == a.free_inodes,
        b.root_inode_index == a.root_inode_index,
        b.hardware.data@.len() == STORE_SIZE,
        b.free_blocks@.len() == TOTAL_BLOCKS,
        forall|c: int| 0 <= c < TOTAL_BLOCKS && a.free_blocks@[c] ==> #[trigger] b.free_blocks@[c],
    ensures
        b.wf(),
{
    assert forall|i: int, m: int|
        0 <= i < NUM_INODES && 0 <= m < b.owned(i).len() implies FIRST_DATA_BLOCK
        <= #[trigger] b.owned(i)[m] < TOTAL_BLOCKS && b.free_blocks@[b.owned(i)[m] as int] by {
        assert(a.owned(i)[m] == b.owned(i)[m]);
    }
    assert forall|i: int, m: int, j: int, n: int|
        0 <= i < NUM_INODES && 0 <= m < b.owned(i).len() && 0 <= j < NUM_INODES && 0 <= n
            < b.owned(j).len() && #[trigger] b.owned(i)[m] == #[trigger] b.owned(j)[n] implies i
        == j && m == n by {
        assert(a.owned(i)[m] == b.owned(i)[m]);
        assert(a.owned(j)[n] == b.owned(j)[n]);
    }
    assert forall|i: int| 0 <= i < NUM_INODES && !#[trigger] b.free_inodes@[i] implies b.owned(
        i,
    ).len() == 0 by {
        assert(a.owned(i) == b.owned(i));
    }
    assert forall|i: int| 0 <= i < NUM_INODES implies (#[trigger] b.inodes@[i]).name@.len()
        <= MAX_NAME_LEN && b.inodes@[i].block_pos@.len() <= MAX_BLOCKS && valid_utf8(b.inodes@[i].name@) by {
        assert(a.inodes@[i] == b.inodes@[i]);
    }
}

/// Writing `x` at the start of block `b` leaves every other block as it was.
pub proof fn lemma_block_frame(d: Seq<u8>, x: Seq<u8>, b: int)
    requires
        d.len() == STORE_SIZE,
        0 <= b < TOTAL_BLOCKS,
        x.len() <= BLOCK_SIZE,
    ensures
        ({
            let e = d.subrange(0, b * BLOCK_SIZE) + x + d.subrange(
                b * BLOCK_SIZE + x.len(),
                STORE_SIZE as int,
            );
            &&& e.len() == STORE_SIZE
            &&& forall|c: int|
                0 <= c < TOTAL_BLOCKS && c != b ==> #[trigger] block_of(e, c) == block_of(d, c)
            &&& block_of(e, b) == x + block_of(d, b).subrange(x.len() as int, BLOCK_SIZE as int)
        }),
{
    let e = d.subrange(0, b * BLOCK_SIZE) + x + d.subrange(
        b * BLOCK_SIZE + x.len(),
        STORE_SIZE as int,
    );
    assert forall|c: int| 0 <= c < TOTAL_BLOCKS && c != b implies #[trigger] block_of(e, c)
        == block_of(d, c) by {
        assert(block_of(e, c) =~= block_of(d, c));
    }
    assert(block_of(e, b) =~= x + block_of(d, b).subrange(x.len() as int, BLOCK_SIZE as int));
}

/// The first `k` padded blocks of `data`, joined, are the first `k` blocks of `data`
/// followed by zeros.
proof fn lemma_chunks_prefix(data: Seq<u8>, k: int)
    requires
        data.len() <= MAX_OBJECT_SIZE,
        0 <= k <= blocks_for(data.len() as int),
    ensures
        Seq::new(blocks_for(data.len() as int) as nat, |q: int| chunk(data, q)).take(k).flatten()
            == (data + zeros(blocks_for(data.len() as int) * BLOCK_SIZE - data.len())).take(
            k * BLOCK_SIZE,
        ),
    decreases k,
{
    let n = blocks_for(data.len() as int);
    let len = data.len() as int;
    assert(n * 4096 >= len && (len == 0 || (n - 1) * 4096 < len)) by (nonlinear_arith)
        requires
            n == (len + 4095) / 4096,
            len >= 0,
    ;
    let cs = Seq::new(n as nat, |q: int| chunk(data, q));
    let whole = data + zeros(n * BLOCK_SIZE - len);
    if k == 0 {
        assert(cs.take(0) =~= Seq::<Seq<u8>>::empty());
        assert(whole.take(0) =~= Seq::<u8>::empty());
    } else {
        lemma_chunks_prefix(data, k - 1);
        lemma_flatten_take_next(cs, k - 1);
        assert(cs[k - 1] == chunk(data, k - 1));
        assert(whole.take((k - 1) * BLOCK_SIZE) + chunk(data, k - 1) =~= whole.take(
            k * BLOCK_SIZE,
        ));
    }
}

/// Cutting `data` into padded blocks and joining them gives `data` followed by zeros.
pub proof fn lemma_chunks_join(data: Seq<u8>)
    requires
        data.len() <= MAX_OBJECT_SIZE,
    ensures
        Seq::new(blocks_for(data.len() as int) as nat, |k: int| chunk(data, k)).flatten() == data
            + zeros(blocks_for(data.len() as int) * BLOCK_SIZE - data.len()),
{
    let n = blocks_for(data.len() as int);
    let len = data.len() as int;
    assert(n * 4096 >= len && n >= 0) by (nonlinear_arith)
        requires
            n == (len + 4095) / 4096,
            len >= 0,
    ;
    lemma_chunks_prefix(data, n);
    let cs = Seq::new(n as nat, |k: int| chunk(data, k));
    let whole = data + zeros(n * BLOCK_SIZE - len);
    assert(cs.take(n) =~= cs);
    assert(whole.take(n * BLOCK_SIZE) =~= whole);
}

impl System {
    /// Zero-fills block `block_pos`.
    pub(crate) fn clean_block_data(&mut self, block_pos: usize)
        requires
            old(self).hardware.data@.len() == STORE_SIZE,
            block_pos < TOTAL_BLOCKS,
        ensures
            final(self).hardware.data@.len() == STORE_SIZE,
            forall|c: int|
                0 <= c < TOTAL_BLOCKS && c != block_pos ==> #[trigger] block_of(
                    final(self).hardware.data@,
                    c,
                ) == block_of(old(self).hardware.data@, c),
            block_of(final(self).hardware.data@, block_pos as int) == zeros(BLOCK_SIZE as int),
            final(self).free_blocks == old(self).free_blocks,
            final(self).free_inodes == old(self).free_inodes,
            final(self).inodes == old(self).inodes,
            final(self).root_inode_index == old(self).root_inode_index,
            final(self).initialized == old(self).initialized,
    {
        let empty = vec![0u8; BLOCK_SIZE];
        proof {
            lemma_block_frame(self.hardware.data@, empty@, block_pos as int);
        }
        self.write_into_block(block_pos, empty.as_slice());
        assert(block_of(self.hardware.data@, block_pos as int) =~= zeros(BLOCK_SIZE as int));
    }

    /// Counts the data blocks of inode `inode_pos`.
    pub(crate) fn count_data_blocks(&self, inode_pos: usize) -> (r: usize)
        requires
            self.wf(),
            inode_pos < NUM_INODES,
        ensures
            r == self.owned(inode_pos as int).len(),
            r <= MAX_BLOCKS,
    {
        let bp = &self.inodes[inode_pos].block_pos;
        proof {
            lemma_data_blocks_len(bp@);
        }
        let mut k: usize = 0;
        proof {
            lemma_walk_start(bp@);
        }
        loop
            invariant
                k <= bp@.len() <= MAX_BLOCKS,
                data_blocks(bp@) == bp@.take(k as int) + data_blocks(bp@.skip(k as int)),
            ensures
                data_blocks(bp@) == bp@.take(k as int),
            decreases bp@.len() - k,
        {
            if k == bp.len() || bp[k] == 0 {
                proof {
                    lemma_walk_end(bp@, k as int);
                }
                break;
            }
            proof {
                lemma_walk_step(bp@, k as int);
            }
            k = k + 1;
        }
        k
    }

    /// Counts the free data blocks.
    pub(crate) fn count_free_blocks(&self) -> (r: usize)
        requires
            self.wf(),
        ensures
            r == self.free_data_blocks(),
            r <= TOTAL_BLOCKS,
    {
        let mut n: usize = 0;
        let mut b: usize = FIRST_DATA_BLOCK;
        while b < TOTAL_BLOCKS
            invariant
                self.wf(),
                FIRST_DATA_BLOCK <= b <= TOTAL_BLOCKS,
                n == free_count(self.free_blocks@, FIRST_DATA_BLOCK as int, b as int),
                n <= b,
            decreases TOTAL_BLOCKS - b,
        {
            if !self.free_blocks[b] {
                n = n + 1;
            }
            b = b + 1;
        }
        n
    }

    /// The bytes of inode `inode_pos`: its data blocks in order, up to its first zero pointer.
    pub(crate) fn read_inode_data(&self, inode_pos: usize) -> (r: Vec<u8>)
        requires
            self.wf(),
            inode_pos < NUM_INODES,
        ensures
            r@ == self.object_data(inode_pos as int),
    {
        let bp = &self.inodes[inode_pos].block_pos;
        let ghost d = self.hardware.data@;
        let ghost f = |b: u32| block_of(d, b as int);
        let ghost owned = self.owned(inode_pos as int);
        proof {
            lemma_data_blocks_len(bp@);
        }
        let mut data: Vec<u8> = Vec::new();
        let mut k: usize = 0;
        proof {
            lemma_walk_start(bp@);
        }
        assert(owned.take(0).map_values(f) =~= Seq::<Seq<u8>>::empty());
        loop
            invariant
                self.wf(),
                inode_pos < NUM_INODES,
                bp == &self.inodes@[inode_pos as int].block_pos,
                d == self.hardware.data@,
                f == (|b: u32| block_of(d, b as int)),
                owned == data_blocks(bp@),
                k <= bp@.len() <= MAX_BLOCKS,
                data_blocks(bp@) == bp@.take(k as int) + data_blocks(bp@.skip(k as int)),
                data@ == owned.take(k as int).map_values(f).flatten(),
            ensures
                owned == bp@.take(k as int),
                data@ == owned.take(k as int).map_values(f).flatten(),
            decreases bp@.len() - k,
        {
            if k == bp.len() || bp[k] == 0 {
                proof {
                    lemma_walk_end(bp@, k as int);
                }
                break;
            }
            proof {
                lemma_walk_step(bp@, k as int);
            }
            let b = bp[k];
            assert(owned[k as int] == b);
            assert(self.owned(inode_pos as int)[k as int] == b);
            assert(FIRST_DATA_BLOCK <= b < TOTAL_BLOCKS);
            let start = b as usize * BLOCK_SIZE;
            let mut j: usize = start;
            let ghost before = data@;
            while j < start + BLOCK_SIZE
                invariant
                    d == self.hardware.data@,
                    d.len() == STORE_SIZE,
                    start == b * BLOCK_SIZE,
                    b < TOTAL_BLOCKS,
                    start <= j <= start + BLOCK_SIZE,
                    data@ == before + d.subrange(start as int, j as int),
                decreases start + BLOCK_SIZE - j,
            {
                data.push(self.hardware.data[j]);
                j = j + 1;
                assert(data@ =~= before + d.subrange(start as int, j as int));
            }
            proof {
                let ms = owned.map_values(f);
                assert(owned.take(k + 1).map_values(f) =~= ms.take(k + 1));
                assert(owned.take(k as int).map_values(f) =~= ms.take(k as int));
                lemma_flatten_take_next(ms, k as int);
            }
            k = k + 1;
        }
        assert(owned.take(k as int) =~= owned);
        data
    }
}

impl System {
    /// Zero-fills and frees every data block of inode `inode_pos`, and empties its block list.
    pub(crate) fn release_blocks(&mut self, inode_pos: usize)
        requires
            old(self).wf(),
            inode_pos < NUM_INODES,
        ensures
            final(self).wf(),
            final(self).owned(inode_pos as int).len() == 0,
            final(self).inodes@[inode_pos as int].name == old(self).inodes@[inode_pos as int].name,
            final(self).inodes@[inode_pos as int].size == old(self).inodes@[inode_pos as int].size,
            forall|j: int|
                0 <= j < NUM_INODES && j != inode_pos ==> #[trigger] final(self).inodes@[j]
                    == old(self).inodes@[j],
            final(self).free_inodes == old(self).free_inodes,
            final(self).root_inode_index == old(self).root_inode_index,
            final(self).initialized == old(self).initialized,
            forall|c: int|
                0 <= c < TOTAL_BLOCKS ==> #[trigger] final(self).free_blocks@[c] == (old(self).free_blocks@[c] && !old(self).owned(inode_pos as int).contains(c as u32)),
            final(self).free_data_blocks() == old(self).free_data_blocks() + old(self).owned(
                inode_pos as int,
            ).len(),
            forall|m: int|
                0 <= m < old(self).owned(inode_pos as int).len() ==> block_of(
                    final(self).hardware.data@,
                    #[trigger] old(self).owned(inode_pos as int)[m] as int,
                ) == zeros(BLOCK_SIZE as int),
            forall|c: int|
                0 <= c < TOTAL_BLOCKS && !old(self).owned(inode_pos as int).contains(c as u32)
                    ==> #[trigger] block_of(final(self).hardware.data@, c) == block_of(
                    old(self).hardware.data@,
                    c,
                ),
    {
        let n = self.count_data_blocks(inode_pos);
        let ghost owned = old(self).owned(inode_pos as int);
        proof {
            lemma_data_blocks_len(self.inodes@[inode_pos as int].block_pos@);
        }
        let mut k: usize = 0;
        while k < n
            invariant
                old(self).wf(),
                inode_pos < NUM_INODES,
                n == owned.len(),
                owned == old(self).owned(inode_pos as int),
                owned.len() <= old(self).inodes@[inode_pos as int].block_pos@.len(),
                forall|m: int|
                    0 <= m < owned.len() ==> #[trigger] owned[m] == old(self).inodes@[
                        inode_pos as int
                    ].block_pos@[m],
                k <= n,
                self.inodes == old(self).inodes,
                self.free_inodes == old(self).free_inodes,
                self.root_inode_index == old(self).root_inode_index,
                self.initialized == old(self).initialized,
                self.hardware.data@.len() == STORE_SIZE,
                self.free_blocks@.len() == TOTAL_BLOCKS,
                forall|c: int|
                    0 <= c < TOTAL_BLOCKS ==> #[trigger] self.free_blocks@[c] == (old(self).free_blocks@[c] && !owned.take(k as int).contains(c as u32)),
                self.free_data_blocks() == old(self).free_data_blocks() + k,
                forall|q: int|
                    0 <= q < k ==> block_of(self.hardware.data@, #[trigger] owned[q] as int) == zeros(
                        BLOCK_SIZE as int,
                    ),
                forall|c: int|
                    0 <= c < TOTAL_BLOCKS && !owned.take(k as int).contains(c as u32)
                        ==> #[trigger] block_of(self.hardware.data@, c) == block_of(
                        old(self).hardware.data@,
                        c,
                    ),
            decreases n - k,
        {
            let b = self.inodes[inode_pos].block_pos[k];
            assert(b == owned[k as int]);
            assert(FIRST_DATA_BLOCK <= b < TOTAL_BLOCKS && old(self).free_blocks@[b as int]);
            assert(!owned.take(k as int).contains(b)) by {
                assert forall|q: int| 0 <= q < k implies owned.take(k as int)[q] != b by {
                    assert(old(self).owned(inode_pos as int)[q] != old(self).owned(
                        inode_pos as int,
                    )[k as int]);
                }
            }
            assert(owned.take(k + 1) =~= owned.take(k as int).push(b));
            let ghost fb = self.free_blocks@;
            let ghost d0 = self.hardware.data@;
            self.clean_block_data(b as usize);
            assert forall|q: int| 0 <= q < k + 1 implies block_of(
                self.hardware.data@,
                #[trigger] owned[q] as int,
            ) == zeros(BLOCK_SIZE as int) by {
                if q < k {
                    assert(old(self).owned(inode_pos as int)[q] != old(self).owned(
                        inode_pos as int,
                    )[k as int]);
                    assert(block_of(d0, owned[q] as int) == zeros(BLOCK_SIZE as int));
                }
            }
            self.set_free_block_used(b as usize, false);
            proof {
                lemma_free_count_update(
                    fb,
                    FIRST_DATA_BLOCK as int,
                    TOTAL_BLOCKS as int,
                    b as int,
                    false,
                );
                assert forall|c: int| 0 <= c < TOTAL_BLOCKS implies #[trigger] self.free_blocks@[c]
                    == (old(self).free_blocks@[c] && !owned.take(k + 1).contains(c as u32)) by {
                    if c == b {
                        assert(owned.take(k + 1)[k as int] == b);
                    } else {
                        if owned.take(k + 1).contains(c as u32) {
                            let q = choose|q: int|
                                0 <= q < k + 1 && #[trigger] owned.take(k + 1)[q] == c as u32;
                            assert(owned.take(k as int)[q] == c as u32);
                        }
                    }
                }
                assert forall|c: int|
                    0 <= c < TOTAL_BLOCKS && !owned.take(k + 1).contains(c as u32) implies
                    #[trigger] block_of(self.hardware.data@, c) == block_of(
                    old(self).hardware.data@,
                    c,
                ) by {
                    assert(owned.take(k + 1)[k as int] == b);
                    if owned.take(k as int).contains(c as u32) {
                        let q = choose|q: int| 0 <= q < k && #[trigger] owned.take(k as int)[q] == c as u32;
                        assert(owned.take(k + 1)[q] == c as u32);
                    }
                }
            }
            k = k + 1;
        }
        assert(owned.take(k as int) =~= owned);
        self.inodes[inode_pos].block_pos = Vec::new();
        proof {
            assert(self.owned(inode_pos as int) =~= Seq::<u32>::empty());
            assert forall|j: int, m: int|
                0 <= j < NUM_INODES && 0 <= m < self.owned(j).len() implies FIRST_DATA_BLOCK
                <= #[trigger] self.owned(j)[m] < TOTAL_BLOCKS && self.free_blocks@[self.owned(
                j,
            )[m] as int] by {
                assert(j != inode_pos);
                assert(self.owned(j) == old(self).owned(j));
                let c = self.owned(j)[m];
                if owned.contains(c) {
                    let q = choose|q: int| 0 <= q < owned.len() && #[trigger] owned[q] == c;
                    assert(old(self).owned(inode_pos as int)[q] == old(self).owned(j)[m]);
                }
            }
            assert forall|i: int, m: int, j: int, q: int|
                0 <= i < NUM_INODES && 0 <= m < self.owned(i).len() && 0 <= j < NUM_INODES && 0
                    <= q < self.owned(j).len() && #[trigger] self.owned(i)[m]
                    == #[trigger] self.owned(j)[q] implies i == j && m == q by {
                assert(self.owned(i) == old(self).owned(i));
                assert(self.owned(j) == old(self).owned(j));
            }
            assert forall|i: int|
                0 <= i < NUM_INODES && !#[trigger] self.free_inodes@[i] implies self.owned(i).len()
                == 0 by {
                if i != inode_pos {
                    assert(self.owned(i) == old(self).owned(i));
                }
            }
        }
    }
}

impl System {
    /// Stores `data` as the content of inode `inode_pos`: its old blocks are zero-filled and
    /// freed, then `data` is cut into blocks, each written to the first free data block.
    /// Nothing changes where `data` needs more than seven blocks or more than are free.
    #[verifier::rlimit(60)]
    pub(crate) fn write_with_inode(&mut self, inode_pos: usize, data: &[u8]) -> (r: Result<(), FsError>)
        requires
            old(self).wf(),
            inode_pos < NUM_INODES,
            old(self).free_inodes@[inode_pos as int],
        ensures
            final(self).wf(),
            final(self).free_inodes == old(self).free_inodes,
            final(self).root_inode_index == old(self).root_inode_index,
            final(self).initialized == old(self).initialized,
            final(self).inodes@[inode_pos as int].name == old(self).inodes@[inode_pos as int].name,
            forall|j: int|
                0 <= j < NUM_INODES && j != inode_pos ==> #[trigger] final(self).inodes@[j]
                    == old(self).inodes@[j] && final(self).object_data(j) == old(self).object_data(j),
            r is Ok <==> data@.len() <= MAX_OBJECT_SIZE && blocks_for(data@.len() as int) <= old(self).free_data_blocks() + old(self).owned(inode_pos as int).len(),
            r == Err::<(), FsError>(FsError::CapacityExceeded) <==> data@.len() > MAX_OBJECT_SIZE,
            r is Err ==> r == Err::<(), FsError>(FsError::CapacityExceeded) || r == Err::<
                (),
                FsError,
            >(FsError::NoFreeBlock),
            r is Err ==> *final(self) == *old(self),
            r is Ok ==> final(self).free_data_blocks() == old(self).free_data_blocks() + old(self).owned(
                inode_pos as int,
            ).len() - blocks_for(data@.len() as int),
            r is Ok ==> final(self).owned(inode_pos as int).len() == blocks_for(data@.len() as int),
            r is Ok ==> final(self).inodes@[inode_pos as int].block_pos@ == final(self).owned(inode_pos as int)
                + Seq::new((MAX_BLOCKS - final(self).owned(inode_pos as int).len()) as nat, |i: int| 0u32),
            r is Ok ==> forall|c: int|
                0 <= c < TOTAL_BLOCKS && !final(self).owned(inode_pos as int).contains(c as u32)
                    ==> #[trigger] final(self).free_blocks@[c] == (old(self).free_blocks@[c]
                    && !old(self).owned(inode_pos as int).contains(c as u32)),
            r is Ok ==> forall|c: int|
                0 <= c < TOTAL_BLOCKS && !old(self).owned(inode_pos as int).contains(c as u32)
                    && !final(self).owned(inode_pos as int).contains(c as u32) ==> #[trigger] block_of(
                    final(self).hardware.data@,
                    c,
                ) == block_of(old(self).hardware.data@, c),
            r is Ok ==> forall|q: int, c: int|
                #![trigger final(self).owned(inode_pos as int)[q], old(self).free_blocks@[c]]
                0 <= q < final(self).owned(inode_pos as int).len() && FIRST_DATA_BLOCK <= c
                    < final(self).owned(inode_pos as int)[q] && !final(self).owned(
                    inode_pos as int,
                ).take(q).contains(c as u32) ==> old(self).free_blocks@[c] && !old(self).owned(
                    inode_pos as int,
                ).contains(c as u32),
            r is Ok ==> forall|m: int|
                0 <= m < old(self).owned(inode_pos as int).len() && !final(self).owned(
                    inode_pos as int,
                ).contains(old(self).owned(inode_pos as int)[m]) ==> block_of(
                    final(self).hardware.data@,
                    #[trigger] old(self).owned(inode_pos as int)[m] as int,
                ) == zeros(BLOCK_SIZE as int),
            r is Ok ==> final(self).inodes@[inode_pos as int].size == data@.len() && final(self).object_data(inode_pos as int) == data@ + zeros(
                blocks_for(data@.len() as int) * BLOCK_SIZE - data@.len(),
            ),
    {
        let len = data.len();
        if len > MAX_OBJECT_SIZE {
            return Err(FsError::CapacityExceeded);
        }
        let needed = (len + BLOCK_SIZE - 1) / BLOCK_SIZE;
        assert(needed <= MAX_BLOCKS);
        let have = self.count_free_blocks() + self.count_data_blocks(inode_pos);
        if needed > have {
            return Err(FsError::NoFreeBlock);
        }
        self.release_blocks(inode_pos);
        let ghost mid = *self;
        let mut positions: Vec<u32> = Vec::new();
        let mut k: usize = 0;
        while k < needed
            invariant
                old(self).wf(),
                mid.wf(),
                self.wf(),
                inode_pos < NUM_INODES,
                mid.owned(inode_pos as int).len() == 0,
                forall|j: int|
                    0 <= j < NUM_INODES && j != inode_pos ==> #[trigger] mid.inodes@[j] == old(self).inodes@[j],
                forall|c: int|
                    0 <= c < TOTAL_BLOCKS && !old(self).owned(inode_pos as int).contains(c as u32)
                        ==> #[trigger] block_of(mid.hardware.data@, c) == block_of(
                        old(self).hardware.data@,
                        c,
                    ),
                self.inodes == mid.inodes,
                self.free_inodes == mid.free_inodes,
                self.root_inode_index == mid.root_inode_index,
                self.initialized == mid.initialized,
                len == data@.len(),
                len <= MAX_OBJECT_SIZE,
                needed == blocks_for(len as int),
                needed <= MAX_BLOCKS,
                k <= needed,
                positions@.len() == k,
                self.free_data_blocks() + k == mid.free_data_blocks(),
                mid.free_data_blocks() >= needed,
                forall|q: int|
                    0 <= q < k ==> FIRST_DATA_BLOCK <= #[trigger] positions@[q] < TOTAL_BLOCKS
                        && self.free_blocks@[positions@[q] as int] && !mid.free_blocks@[positions@[q] as int],
                forall|q1: int, q2: int|
                    0 <= q1 < q2 < k ==> #[trigger] positions@[q1] != #[trigger] positions@[q2],
                forall|c: int|
                    0 <= c < TOTAL_BLOCKS && mid.free_blocks@[c] ==> #[trigger] self.free_blocks@[c],
                forall|c: int|
                    0 <= c < TOTAL_BLOCKS && !positions@.contains(c as u32) ==> #[trigger] self.free_blocks@[c]
                        == mid.free_blocks@[c],
                self.free_blocks@.len() == TOTAL_BLOCKS,
                forall|c: int|
                    0 <= c < TOTAL_BLOCKS ==> #[trigger] mid.free_blocks@[c] == (old(self).free_blocks@[c]
                        && !old(self).owned(inode_pos as int).contains(c as u32)),
                forall|q: int, c: int|
                    #![trigger positions@[q], mid.free_blocks@[c]]
                    0 <= q < k && FIRST_DATA_BLOCK <= c < positions@[q] && !positions@.take(q).contains(
                        c as u32,
                    ) ==> mid.free_blocks@[c],
                forall|q: int|
                    0 <= q < k ==> block_of(self.hardware.data@, #[trigger] positions@[q] as int)
                        == chunk(data@, q),
                forall|c: int|
                    0 <= c < TOTAL_BLOCKS && !positions@.contains(c as u32) ==> #[trigger] block_of(
                        self.hardware.data@,
                        c,
                    ) == block_of(mid.hardware.data@, c),
            decreases needed - k,
        {
            let b = match self.get_next_free_block() {
                Some(b) => b,
                None => {
                    assert(false);
                    return Err(FsError::NoFreeBlock);
                },
            };
            assert(!positions@.contains(b)) by {
                assert forall|q: int| 0 <= q < k implies positions@[q] != b by {
                    assert(self.free_blocks@[positions@[q] as int]);
                }
            }
            let ghost fb = self.free_blocks@;
            let ghost before = self.hardware.data@;
            let ghost pos0 = positions@;
            let ghost at_start = *self;
            self.set_free_block_used(b as usize, true);
            proof {
                lemma_free_count_update(fb, FIRST_DATA_BLOCK as int, TOTAL_BLOCKS as int, b as int, true);
                lemma_wf_more_used(at_start, *self);
            }
            self.clean_block_data(b as usize);
            assert(k * BLOCK_SIZE < len) by (nonlinear_arith)
                requires
                    k < needed,
                    needed == (len + 4095) / 4096,
            ;
            let end = if (k + 1) * BLOCK_SIZE < len {
                (k + 1) * BLOCK_SIZE
            } else {
                len
            };
            let piece = crate::bytes::copy_range(data, k * BLOCK_SIZE, end);
            let ghost cleaned = self.hardware.data@;
            proof {
                lemma_block_frame(cleaned, piece@, b as int);
            }
            self.write_into_block(b as usize, piece.as_slice());
            assert(block_of(self.hardware.data@, b as int) =~= chunk(data@, k as int));
            proof {
                lemma_wf_more_used(at_start, *self);
            }
            positions.push(b);
            proof {
                assert forall|c: int|
                    0 <= c < TOTAL_BLOCKS && !positions@.contains(c as u32) implies #[trigger] block_of(
                    self.hardware.data@,
                    c,
                ) == block_of(mid.hardware.data@, c) by {
                    assert(positions@[k as int] == b);
                    assert(c != b);
                    assert(block_of(cleaned, c) == block_of(before, c));
                    assert(block_of(self.hardware.data@, c) == block_of(cleaned, c));
                    if pos0.contains(c as u32) {
                        let q = choose|q: int| 0 <= q < k && #[trigger] pos0[q] == c as u32;
                        assert(positions@[q] == c as u32);
                    }
                }
                assert forall|c: int|
                    0 <= c < TOTAL_BLOCKS && !positions@.contains(c as u32) implies #[trigger] self.free_blocks@[c]
                    == mid.free_blocks@[c] by {
                    assert(positions@[k as int] == b);
                    if pos0.contains(c as u32) {
                        let q = choose|q: int| 0 <= q < k && #[trigger] pos0[q] == c as u32;
                        assert(positions@[q] == c as u32);
                    }
                }
                assert forall|q: int, c: int|
                    #![trigger positions@[q], mid.free_blocks@[c]]
                    0 <= q < k + 1 && FIRST_DATA_BLOCK <= c < positions@[q] && !positions@.take(q).contains(
                        c as u32,
                    ) implies mid.free_blocks@[c] by {
                    assert(positions@.take(q) =~= pos0.take(q) || q == k);
                    if q == k {
                        assert(positions@.take(q) =~= pos0);
                        assert(fb[c]);
                        assert(!pos0.contains(c as u32));
                    } else {
                        assert(positions@[q] == pos0[q]);
                        assert(positions@.take(q) =~= pos0.take(q));
                    }
                }
                assert forall|q: int|
                    0 <= q < k + 1 implies block_of(self.hardware.data@, #[trigger] positions@[q] as int)
                    == chunk(data@, q) by {
                    if q < k {
                        assert(positions@[q] != b);
                        assert(block_of(self.hardware.data@, positions@[q] as int) == block_of(
                            before,
                            positions@[q] as int,
                        ));
                    }
                }
            }
            k = k + 1;
        }
        let ghost placed = positions@;
        while positions.len() < MAX_BLOCKS
            invariant
                k <= positions@.len() <= MAX_BLOCKS,
                positions@ == placed + Seq::new((positions@.len() - k) as nat, |i: int| 0u32),
                placed.len() == k,
            decreases MAX_BLOCKS - positions@.len(),
        {
            positions.push(0);
            assert(positions@ =~= placed + Seq::new((positions@.len() - k) as nat, |i: int| 0u32));
        }
        let ghost pre_set = *self;
        self.inodes[inode_pos].block_pos = positions;
        self.inodes[inode_pos].size = len as u32;
        proof {
            lemma_data_blocks_padded(placed, (MAX_BLOCKS - k) as nat);
            assert(self.owned(inode_pos as int) == placed);
            assert forall|j: int| 0 <= j < NUM_INODES && j != inode_pos implies self.owned(j)
                == mid.owned(j) by {
                assert(self.inodes@[j] == mid.inodes@[j]);
            }
            assert forall|j: int, m: int|
                0 <= j < NUM_INODES && 0 <= m < self.owned(j).len() implies FIRST_DATA_BLOCK
                <= #[trigger] self.owned(j)[m] < TOTAL_BLOCKS && self.free_blocks@[self.owned(
                j,
            )[m] as int] by {
                if j != inode_pos {
                    assert(mid.owned(j)[m] == self.owned(j)[m]);
                }
            }
            assert forall|i: int, m: int, j: int, q: int|
                0 <= i < NUM_INODES && 0 <= m < self.owned(i).len() && 0 <= j < NUM_INODES && 0
                    <= q < self.owned(j).len() && #[trigger] self.owned(i)[m]
                    == #[trigger] self.owned(j)[q] implies i == j && m == q by {
                if i == inode_pos && j != inode_pos {
                    assert(mid.owned(j)[q] == self.owned(j)[q]);
                    assert(mid.free_blocks@[mid.owned(j)[q] as int]);
                } else if i != inode_pos && j == inode_pos {
                    assert(mid.owned(i)[m] == self.owned(i)[m]);
                    assert(mid.free_blocks@[mid.owned(i)[m] as int]);
                } else if i == inode_pos && j == inode_pos {
                    if m < q {
                        assert(placed[m] != placed[q]);
                    } else if q < m {
                        assert(placed[q] != placed[m]);
                    }
                } else {
                    assert(mid.owned(j)[q] == self.owned(j)[q]);
                    assert(mid.owned(i)[m] == self.owned(i)[m]);
                }
            }
            assert forall|i: int|
                0 <= i < NUM_INODES && !#[trigger] self.free_inodes@[i] implies self.owned(i).len()
                == 0 by {
                if i != inode_pos {
                    assert(self.owned(i) == mid.owned(i));
                }
            }
            assert(self.wf());
            let f = |b: u32| block_of(self.hardware.data@, b as int);
            assert(placed.map_values(f) =~= Seq::new(
                blocks_for(len as int) as nat,
                |q: int| chunk(data@, q),
            ));
            lemma_chunks_join(data@);
            assert forall|j: int| 0 <= j < NUM_INODES && j != inode_pos implies #[trigger] self.inodes@[j]
                == old(self).inodes@[j] && self.object_data(j) == old(self).object_data(j) by {
                assert(self.inodes@[j] == mid.inodes@[j]);
                let oj = old(self).owned(j);
                assert(self.owned(j) == oj);
                let fo = |b: u32| block_of(old(self).hardware.data@, b as int);
                assert forall|n: int| 0 <= n < oj.len() implies #[trigger] f(oj[n]) == fo(oj[n]) by {
                    let c = oj[n];
                    assert(mid.owned(j)[n] == c);
                    assert(mid.free_blocks@[c as int]);
                    if placed.contains(c) {
                        let q = choose|q: int| 0 <= q < k && #[trigger] placed[q] == c;
                        assert(!mid.free_blocks@[placed[q] as int]);
                    }
                    assert(block_of(pre_set.hardware.data@, c as int) == block_of(
                        mid.hardware.data@,
                        c as int,
                    ));
                    if old(self).owned(inode_pos as int).contains(c) {
                        let q = choose|q: int|
                            0 <= q < old(self).owned(inode_pos as int).len()
                                && #[trigger] old(self).owned(inode_pos as int)[q] == c;
                        assert(old(self).owned(j)[n] == old(self).owned(inode_pos as int)[q]);
                    }
                }
                assert(oj.map_values(f) =~= oj.map_values(fo));
            }
            assert(self.inodes@[inode_pos as int].block_pos@ == placed + Seq::new((MAX_BLOCKS - k) as nat, |i: int| 0u32));
            assert forall|q: int, c: int|
                #![trigger self.owned(inode_pos as int)[q], old(self).free_blocks@[c]]
                0 <= q < self.owned(inode_pos as int).len() && FIRST_DATA_BLOCK <= c
                    < self.owned(inode_pos as int)[q] && !self.owned(inode_pos as int).take(q).contains(
                    c as u32,
                ) implies old(self).free_blocks@[c] && !old(self).owned(inode_pos as int).contains(c as u32) by {
                assert(self.owned(inode_pos as int) == placed);
                assert(placed[q] == self.owned(inode_pos as int)[q]);
                assert(mid.free_blocks@[c]);
            }
            assert forall|c: int|
                0 <= c < TOTAL_BLOCKS && !old(self).owned(inode_pos as int).contains(c as u32)
                    && !self.owned(inode_pos as int).contains(c as u32) implies #[trigger] block_of(
                    self.hardware.data@,
                    c,
                ) == block_of(old(self).hardware.data@, c) by {
                assert(!positions@.take(k as int).contains(c as u32) || placed.contains(c as u32));
                if placed.contains(c as u32) {
                    assert(self.owned(inode_pos as int) == placed);
                }
                assert(block_of(pre_set.hardware.data@, c) == block_of(mid.hardware.data@, c));
            }
            assert forall|m: int|
                0 <= m < old(self).owned(inode_pos as int).len() && !self.owned(inode_pos as int).contains(
                    old(self).owned(inode_pos as int)[m],
                ) implies block_of(
                self.hardware.data@,
                #[trigger] old(self).owned(inode_pos as int)[m] as int,
            ) == zeros(BLOCK_SIZE as int) by {
                let c = old(self).owned(inode_pos as int)[m];
                assert(old(self).owned(inode_pos as int).contains(c));
            }
        }
        Ok(())
    }
}

/// An object's bytes depend only on its data blocks.
pub proof fn lemma_object_frame(a: System, b: System, j: int)
    requires
        a.owned(j) == b.owned(j),
        forall|n: int|
            0 <= n < a.owned(j).len() ==> block_of(b.hardware.data@, #[trigger] a.owned(j)[n] as int)
                == block_of(a.hardware.data@, a.owned(j)[n] as int),
    ensures
        a.object_data(j) == b.object_data(j),
{
    let fa = |c: u32| block_of(a.hardware.data@, c as int);
    let fb = |c: u32| block_of(b.hardware.data@, c as int);
    assert(a.owned(j).map_values(fa) =~= b.owned(j).map_values(fb));
}

/// Each data block adds one block of bytes to an object.
proof fn lemma_object_len(s: Seq<u32>, d: Seq<u8>)
    requires
        d.len() == STORE_SIZE,
        forall|n: int| 0 <= n < s.len() ==> FIRST_DATA_BLOCK <= #[trigger] s[n] < TOTAL_BLOCKS,
    ensures
        s.map_values(|c: u32| block_of(d, c as int)).flatten().len() == s.len() * BLOCK_SIZE,
    decreases s.len(),
{
    let f = |c: u32| block_of(d, c as int);
    if s.len() > 0 {
        lemma_object_len(s.drop_first(), d);
        assert(s.map_values(f).drop_first() =~= s.drop_first().map_values(f));
    }
}

impl System {
    /// The bytes of an object fit in its seven blocks.
    pub proof fn lemma_object_data_len(&self, i: int)
        requires
            self.wf(),
            0 <= i < NUM_INODES,
        ensures
            self.object_data(i).len() == self.owned(i).len() * BLOCK_SIZE,
            self.object_data(i).len() <= MAX_OBJECT_SIZE,
    {
        lemma_data_blocks_len(self.inodes@[i].block_pos@);
        assert forall|n: int| 0 <= n < self.owned(i).len() implies FIRST_DATA_BLOCK
            <= #[trigger] self.owned(i)[n] < TOTAL_BLOCKS by {}
        lemma_object_len(self.owned(i), self.hardware.data@);
    }

    /// Frees inode `inode_pos`: zero-fills and frees its data blocks, clears its record and
    /// marks its slot free.
    pub(crate) fn remove_inode_data(&mut self, inode_pos: usize)
        requires
            old(self).wf(),
            inode_pos < NUM_INODES,
        ensures
            final(self).wf(),
            final(self).free_inodes@ == old(self).free_inodes@.update(inode_pos as int, false),
            final(self).inodes@[inode_pos as int]@ == (InodeView {
                name: Seq::empty(),
                size: 0,
                block_pos: Seq::empty(),
            }),
            final(self).root_inode_index == old(self).root_inode_index,
            final(self).initialized == old(self).initialized,
            forall|c: int|
                0 <= c < TOTAL_BLOCKS ==> #[trigger] final(self).free_blocks@[c] == (old(self).free_blocks@[c] && !old(self).owned(inode_pos as int).contains(c as u32)),
            final(self).free_data_blocks() == old(self).free_data_blocks() + old(self).owned(
                inode_pos as int,
            ).len(),
            final(self).owned(inode_pos as int).len() == 0,
            forall|m: int|
                0 <= m < old(self).owned(inode_pos as int).len() ==> block_of(
                    final(self).hardware.data@,
                    #[trigger] old(self).owned(inode_pos as int)[m] as int,
                ) == zeros(BLOCK_SIZE as int),
            forall|j: int|
                0 <= j < NUM_INODES && j != inode_pos ==> #[trigger] final(self).inodes@[j]
                    == old(self).inodes@[j] && final(self).object_data(j) == old(self).object_data(j),
            forall|c: int|
                0 <= c < TOTAL_BLOCKS && !old(self).owned(inode_pos as int).contains(c as u32)
                    ==> #[trigger] block_of(final(self).hardware.data@, c) == block_of(old(self).hardware.data@, c),
    {
        self.release_blocks(inode_pos);
        let ghost released = *self;
        self.set_free_inode_used(inode_pos, false);
        self.inodes[inode_pos].clean();
        proof {
            assert(self.owned(inode_pos as int) =~= Seq::<u32>::empty());
            assert forall|j: int| 0 <= j < NUM_INODES && j != inode_pos implies #[trigger] self.inodes@[j]
                == old(self).inodes@[j] && self.object_data(j) == old(self).object_data(j) by {
                assert(self.inodes@[j] == old(self).inodes@[j]);
                assert(self.owned(j) == old(self).owned(j));
                assert forall|n: int| 0 <= n < old(self).owned(j).len() implies block_of(
                    self.hardware.data@,
                    #[trigger] old(self).owned(j)[n] as int,
                ) == block_of(old(self).hardware.data@, old(self).owned(j)[n] as int) by {
                    let c = old(self).owned(j)[n];
                    if old(self).owned(inode_pos as int).contains(c) {
                        let q = choose|q: int|
                            0 <= q < old(self).owned(inode_pos as int).len()
                                && #[trigger] old(self).owned(inode_pos as int)[q] == c;
                        assert(old(self).owned(j)[n] == old(self).owned(inode_pos as int)[q]);
                    }
                }
                lemma_object_frame(*old(self), *self, j);
            }
            assert forall|i: int, m: int|
                0 <= i < NUM_INODES && 0 <= m < self.owned(i).len() implies FIRST_DATA_BLOCK
                <= #[trigger] self.owned(i)[m] < TOTAL_BLOCKS && self.free_blocks@[self.owned(i)[m] as int] by {
                assert(released.owned(i)[m] == self.owned(i)[m]);
            }
            assert forall|i: int, m: int, j: int, n: int|
                0 <= i < NUM_INODES && 0 <= m < self.owned(i).len() && 0 <= j < NUM_INODES && 0
                    <= n < self.owned(j).len() && #[trigger] self.owned(i)[m]
                    == #[trigger] self.owned(j)[n] implies i == j && m == n by {
                assert(released.owned(i)[m] == self.owned(i)[m]);
                assert(released.owned(j)[n] == self.owned(j)[n]);
            }
            assert forall|i: int| 0 <= i < NUM_INODES && !#[trigger] self.free_inodes@[i] implies self.owned(
                i,
            ).len() == 0 by {
                if i != inode_pos {
                    assert(released.owned(i) == self.owned(i));
                }
            }
        }
    }
}

/// No data block belongs to two objects, or twice to one: in a well-formed system each
/// data block of an inode is a data block (never a metadata block), is marked in use, and
/// appears at one position of one inode only. Every operation keeps the system well formed.
pub proof fn lemma_blocks_exclusive(s: System)
    requires
        s.wf(),
    ensures
        forall|i: int, m: int, j: int, n: int|
            0 <= i < NUM_INODES && 0 <= m < s.owned(i).len() && 0 <= j < NUM_INODES && 0 <= n
                < s.owned(j).len() && (i != j || m != n) ==> #[trigger] s.owned(i)[m]
                != #[trigger] s.owned(j)[n],
        forall|i: int, m: int|
            0 <= i < NUM_INODES && 0 <= m < s.owned(i).len() ==> FIRST_DATA_BLOCK
                <= #[trigger] s.owned(i)[m] < TOTAL_BLOCKS && s.free_blocks@[s.owned(i)[m] as int],
        forall|i: int| 0 <= i < NUM_INODES && !#[trigger] s.free_inodes@[i] ==> s.owned(i).len() == 0,
{
}

/// An object fits its seven direct blocks exactly when its content is at most seven blocks
/// long; content stored in those blocks, padded with zeros, reads back whole when read up
/// to its stored size, and as its bytes that are not zero when the padding is stripped.
pub proof fn lemma_content_read_back(data: Seq<u8>)
    ensures
        blocks_for(data.len() as int) <= MAX_BLOCKS <==> data.len() <= MAX_OBJECT_SIZE,
        (data + zeros(blocks_for(data.len() as int) * BLOCK_SIZE - data.len())).take(
            data.len() as int,
        ) == data,
        data.len() <= MAX_OBJECT_SIZE ==> nonzero_bytes(
            data + zeros(blocks_for(data.len() as int) * BLOCK_SIZE - data.len()),
        ) == nonzero_bytes(data),
{
    let len = data.len() as int;
    assert(blocks_for(len) <= 7 <==> len <= 28672) by (nonlinear_arith)
        requires
            blocks_for(len) == (len + 4095) / 4096,
            len >= 0,
    ;
    if len <= MAX_OBJECT_SIZE {
        let n = blocks_for(len) * BLOCK_SIZE - len;
        assert(n >= 0) by (nonlinear_arith)
            requires
                n == blocks_for(len) * 4096 - len,
                blocks_for(len) == (len + 4095) / 4096,
                len >= 0,
        ;
        lemma_nonzero_append_zeros(data, n as nat);
    }
    assert((data + zeros(blocks_for(data.len() as int) * BLOCK_SIZE - data.len())).take(
        data.len() as int,
    ) =~= data);
}

/// Zeros appended to bytes leave the bytes that are not zero as they were.
proof fn lemma_nonzero_append_zeros(data: Seq<u8>, n: nat)
    ensures
        nonzero_bytes(data + zeros(n as int)) == nonzero_bytes(data),
    decreases n,
{
    if n == 0 {
        assert(data + zeros(0) =~= data);
    } else {
        lemma_nonzero_append_zeros(data, (n - 1) as nat);
        let s = data + zeros(n - 1);
        assert(data + zeros(n as int) =~= s.push(0u8));
        s.lemma_filter_push(0u8, |b: u8| b != 0);
    }
}

} // verus!
