use crate::bytes::{le_bytes, push_u32, read_u32};
use crate::dir::{dir_bytes, item_bytes, parent_item, ItemView, self_item, view_items, Dir};
use crate::error::FsError;
use crate::ops::fits_blocks;
use crate::fs::{block_of, blocks_for, data_blocks, free_count, lemma_walk_end, lemma_walk_start, lemma_walk_step, lemma_data_blocks_len, System, FIRST_DATA_BLOCK, INIT_MAGIC, NUM_INODES};
use crate::hardware::{Hardware, BLOCK_SIZE, STORE_SIZE, TOTAL_BLOCKS};
use crate::inode::{decode_record, inode_record, record_at, Inode, InodeView, INODE_SIZE, MAX_BLOCKS, MAX_NAME_LEN};
use vstd::prelude::*;

verus! {

/// One byte per bitmap entry: 1 in use, 0 free.
pub open spec fn bitmap_bytes(b: Seq<bool>) -> Seq<u8> {
    b.map_values(|x: bool| if x { 1u8 } else { 0u8 })
}

/// The bitmap that bytes hold: an entry is in use where its byte is 1.
pub open spec fn bitmap_of(s: Seq<u8>) -> Seq<bool> {
    s.map_values(|x: u8| x == 1)
}

/// The bytes of a bitmap.
fn bitmap_to_bytes(b: &Vec<bool>) -> (r: Vec<u8>)
    ensures
        r@ == bitmap_bytes(b@),
{
    let mut r: Vec<u8> = Vec::new();
    let mut i: usize = 0;
    while i < b.len()
        invariant
            i <= b@.len(),
            r@ == bitmap_bytes(b@.take(i as int)),
        decreases b@.len() - i,
    {
        r.push(if b[i] { 1u8 } else { 0u8 });
        i = i + 1;
        assert(r@ =~= bitmap_bytes(b@.take(i as int)));
    }
    assert(b@.take(i as int) =~= b@);
    r
}

/// The bitmap held by `n` bytes of `data` from `at`.
fn bitmap_from_bytes(data: &[u8], at: usize, n: usize) -> (r: Vec<bool>)
    requires
        at + n <= data@.len(),
    ensures
        r@ == bitmap_of(data@.subrange(at as int, at + n)),
{
    let mut r: Vec<bool> = Vec::new();
    let mut i: usize = 0;
    assert(data@.len() == data.len());
    while i < n
        invariant
            at + n <= data@.len() <= usize::MAX,
            i <= n,
            r@ == bitmap_of(data@.subrange(at as int, at + i)),
        decreases n - i,
    {
        r.push(data[at + i] == 1);
        i = i + 1;
        assert(r@ =~= bitmap_of(data@.subrange(at as int, at + i)));
    }
    r
}

impl System {
    /// Whether the loaded tables meet the layout invariant.
    fn check_tables(&self) -> (r: bool)
        ensures
            r == self.wf(),
    {
        if self.hardware.data.len() != STORE_SIZE || self.free_blocks.len() != TOTAL_BLOCKS
            || self.free_inodes.len() != NUM_INODES || self.inodes.len() != NUM_INODES
            || self.root_inode_index >= NUM_INODES {
            return false;
        }
        assert(self.wf() ==> self.free_blocks@.len() == TOTAL_BLOCKS);
        let mut seen: Vec<bool> = vec![false; TOTAL_BLOCKS];
        let mut i: usize = 0;
        while i < NUM_INODES
            invariant
                self.hardware.data@.len() == STORE_SIZE,
                self.free_blocks@.len() == TOTAL_BLOCKS,
                self.free_inodes@.len() == NUM_INODES,
                self.inodes@.len() == NUM_INODES,
                self.root_inode_index < NUM_INODES,
                seen@.len() == TOTAL_BLOCKS,
                i <= NUM_INODES,
                forall|j: int|
                    0 <= j < i ==> (#[trigger] self.inodes@[j]).name@.len() <= MAX_NAME_LEN
                        && self.inodes@[j].block_pos@.len() <= MAX_BLOCKS && vstd::utf8::valid_utf8(
                        self.inodes@[j].name@,
                    ),
                forall|j: int, m: int|
                    0 <= j < i && 0 <= m < self.owned(j).len() ==> FIRST_DATA_BLOCK
                        <= #[trigger] self.owned(j)[m] < TOTAL_BLOCKS && self.free_blocks@[self.owned(j)[m] as int]
                        && seen@[self.owned(j)[m] as int],
                forall|j: int, m: int, l: int, n: int|
                    0 <= j < i && 0 <= m < self.owned(j).len() && 0 <= l < i && 0 <= n
                        < self.owned(l).len() && #[trigger] self.owned(j)[m]
                        == #[trigger] self.owned(l)[n] ==> j == l && m == n,
                forall|j: int| 0 <= j < i && !#[trigger] self.free_inodes@[j] ==> self.owned(j).len() == 0,
                forall|c: int| 0 <= c < TOTAL_BLOCKS && #[trigger] seen@[c] ==> exists|j: int, m: int|
                    0 <= j < i && 0 <= m < self.owned(j).len() && self.owned(j)[m] == c,
            decreases NUM_INODES - i,
        {
            let ino = &self.inodes[i];
            if ino.name.len() > MAX_NAME_LEN || ino.block_pos.len() > MAX_BLOCKS
                || !crate::bytes::utf8_valid(ino.name.as_slice(), 0, ino.name.len()) {
                assert(ino.name@.subrange(0, ino.name@.len() as int) =~= ino.name@);
                assert(!self.wf()) by {
                    if self.wf() {
                        assert(self.inodes@[i as int].name@.len() <= MAX_NAME_LEN);
                    }
                }
                return false;
            }
            assert(ino.name@.subrange(0, ino.name@.len() as int) =~= ino.name@);
            assert(vstd::utf8::valid_utf8(self.inodes@[i as int].name@));
            let bp = &ino.block_pos;
            let ghost owned = self.owned(i as int);
            proof {
                lemma_data_blocks_len(bp@);
            }
            let ghost seen0 = seen@;
            let mut m: usize = 0;
            proof {
                lemma_walk_start(bp@);
            }
            loop
                invariant
                    self.hardware.data@.len() == STORE_SIZE,
                    self.free_blocks@.len() == TOTAL_BLOCKS,
                    self.inodes@.len() == NUM_INODES,
                    i < NUM_INODES,
                    bp == &self.inodes@[i as int].block_pos,
                    owned == self.owned(i as int),
                    owned == data_blocks(bp@),
                    seen@.len() == TOTAL_BLOCKS,
                    seen0.len() == TOTAL_BLOCKS,
                    forall|c: int| 0 <= c < TOTAL_BLOCKS && #[trigger] seen0[c] ==> exists|j: int, q: int|
                        0 <= j < i && 0 <= q < self.owned(j).len() && self.owned(j)[q] == c,
                    m <= bp@.len() <= MAX_BLOCKS,
                    data_blocks(bp@) == bp@.take(m as int) + data_blocks(bp@.skip(m as int)),
                    forall|q: int| 0 <= q < m ==> FIRST_DATA_BLOCK <= #[trigger] owned[q] < TOTAL_BLOCKS
                        && self.free_blocks@[owned[q] as int] && seen@[owned[q] as int] && !seen0[owned[q] as int],
                    forall|q1: int, q2: int| 0 <= q1 < m && 0 <= q2 < m && #[trigger] owned[q1] == #[trigger] owned[q2] ==> q1 == q2,
                    forall|c: int| 0 <= c < TOTAL_BLOCKS && seen0[c] ==> #[trigger] seen@[c],
                    forall|c: int| 0 <= c < TOTAL_BLOCKS && #[trigger] seen@[c] && !seen0[c] ==> exists|q: int|
                        0 <= q < m && owned[q] == c,
                ensures
                    owned == bp@.take(m as int),
                    forall|q: int| 0 <= q < m ==> FIRST_DATA_BLOCK <= #[trigger] owned[q] < TOTAL_BLOCKS
                        && self.free_blocks@[owned[q] as int] && seen@[owned[q] as int] && !seen0[owned[q] as int],
                    forall|q1: int, q2: int| 0 <= q1 < m && 0 <= q2 < m && #[trigger] owned[q1] == #[trigger] owned[q2] ==> q1 == q2,
                    forall|c: int| 0 <= c < TOTAL_BLOCKS && seen0[c] ==> #[trigger] seen@[c],
                    forall|c: int| 0 <= c < TOTAL_BLOCKS && #[trigger] seen@[c] && !seen0[c] ==> exists|q: int|
                        0 <= q < m && owned[q] == c,
                decreases bp@.len() - m,
            {
                if m == bp.len() || bp[m] == 0 {
                    proof {
                        lemma_walk_end(bp@, m as int);
                    }
                    break;
                }
                proof {
                    lemma_walk_step(bp@, m as int);
                }
                let b = bp[m];
                assert(owned[m as int] == b);
                if (b as usize) < FIRST_DATA_BLOCK || b as usize >= TOTAL_BLOCKS || !self.free_blocks[b as usize]
                    || seen[b as usize] {
                    assert(!self.wf()) by {
                        if self.wf() {
                            assert(self.owned(i as int)[m as int] == b);
                            if seen0[b as int] {
                                let (j, q) = choose|j: int, q: int|
                                    0 <= j < i && 0 <= q < self.owned(j).len() && self.owned(j)[q] == b;
                                assert(self.owned(j)[q] == self.owned(i as int)[m as int]);
                            } else {
                                let q = choose|q: int| 0 <= q < m && owned[q] == b;
                                assert(self.owned(i as int)[q] == self.owned(i as int)[m as int]);
                            }
                        }
                    }
                    return false;
                }
                let ghost seen1 = seen@;
                seen[b as usize] = true;
                proof {
                    assert forall|c: int| 0 <= c < TOTAL_BLOCKS && #[trigger] seen@[c] && !seen0[c] implies exists|q: int|
                        0 <= q < m + 1 && owned[q] == c by {
                        if c == b {
                            assert(owned[m as int] == c);
                        } else {
                            assert(seen1[c]);
                        }
                    }
                    assert forall|q1: int, q2: int| 0 <= q1 < m + 1 && 0 <= q2 < m + 1 && #[trigger] owned[q1] == #[trigger] owned[q2] implies q1 == q2 by {
                        if q1 < m && q2 == m {
                            assert(seen1[owned[q1] as int]);
                        } else if q2 < m && q1 == m {
                            assert(seen1[owned[q2] as int]);
                        }
                    }
                }
                m = m + 1;
            }
            if !self.free_inodes[i] && m > 0 {
                assert(!self.wf()) by {
                    assert(owned.len() == m);
                }
                return false;
            }
            proof {
                assert(owned.len() == m) by {
                    assert(bp@.take(m as int).len() == m);
                }
                assert forall|j: int, q: int|
                    0 <= j < i + 1 && 0 <= q < self.owned(j).len() implies FIRST_DATA_BLOCK
                    <= #[trigger] self.owned(j)[q] < TOTAL_BLOCKS && self.free_blocks@[self.owned(j)[q] as int]
                    && seen@[self.owned(j)[q] as int] by {
                    if j < i {
                        assert(seen0[self.owned(j)[q] as int]);
                    }
                }
                assert forall|j: int, q: int, l: int, n: int|
                    0 <= j < i + 1 && 0 <= q < self.owned(j).len() && 0 <= l < i + 1 && 0 <= n
                        < self.owned(l).len() && #[trigger] self.owned(j)[q]
                        == #[trigger] self.owned(l)[n] implies j == l && q == n by {
                    if j == i && l < i {
                        assert(seen0[self.owned(l)[n] as int]);
                    } else if l == i && j < i {
                        assert(seen0[self.owned(j)[q] as int]);
                    }
                }
                assert forall|c: int| 0 <= c < TOTAL_BLOCKS && #[trigger] seen@[c] implies exists|j: int, q: int|
                    0 <= j < i + 1 && 0 <= q < self.owned(j).len() && self.owned(j)[q] == c by {
                    if !seen0[c] {
                        let q = choose|q: int| 0 <= q < m && owned[q] == c;
                        assert(self.owned(i as int)[q] == c);
                    } else {
                        let (j, q) = choose|j: int, q: int| 0 <= j < i && 0 <= q < self.owned(j).len() && self.owned(j)[q] == c;
                        assert(self.owned(j)[q] == c);
                    }
                }
            }
            i = i + 1;
        }
        true
    }
}

/// The inode table as stored: the record of each inode, one after another.
pub open spec fn table_bytes(inodes: Seq<Inode>) -> Seq<u8> {
    inodes.map_values(|i: Inode| inode_record(i@)).flatten()
}

/// The name of the root directory: `/`.
pub open spec fn root_name() -> Seq<u8> {
    seq![47u8]
}

/// The layout invariant of `System::wf`, stated over the values of the tables.
pub open spec fn tables_wf(fb: Seq<bool>, fi: Seq<bool>, ins: Seq<InodeView>, root: int) -> bool {
    &&& fb.len() == TOTAL_BLOCKS
    &&& fi.len() == NUM_INODES
    &&& ins.len() == NUM_INODES
    &&& 0 <= root < NUM_INODES
    &&& forall|i: int|
        0 <= i < NUM_INODES ==> (#[trigger] ins[i]).name.len() <= MAX_NAME_LEN
            && ins[i].block_pos.len() <= MAX_BLOCKS && vstd::utf8::valid_utf8(ins[i].name)
    &&& forall|i: int, m: int|
        0 <= i < NUM_INODES && 0 <= m < data_blocks(ins[i].block_pos).len() ==> FIRST_DATA_BLOCK
            <= #[trigger] data_blocks(ins[i].block_pos)[m] < TOTAL_BLOCKS
            && fb[data_blocks(ins[i].block_pos)[m] as int]
    &&& forall|i: int, m: int, j: int, n: int|
        0 <= i < NUM_INODES && 0 <= m < data_blocks(ins[i].block_pos).len() && 0 <= j < NUM_INODES
            && 0 <= n < data_blocks(ins[j].block_pos).len() && #[trigger] data_blocks(
            ins[i].block_pos,
        )[m] == #[trigger] data_blocks(ins[j].block_pos)[n] ==> i == j && m == n
    &&& forall|i: int|
        0 <= i < NUM_INODES && !#[trigger] fi[i] ==> data_blocks(ins[i].block_pos).len() == 0
}

/// The inode table block of a store.
pub open spec fn table_of(d: Seq<u8>) -> Seq<u8> {
    d.subrange(3 * BLOCK_SIZE, 4 * BLOCK_SIZE)
}

/// Whether a store's tables all decode and meet the layout invariant.
pub open spec fn image_consistent(d: Seq<u8>) -> bool {
    &&& forall|i: int| 0 <= i < NUM_INODES ==> (#[trigger] decode_record(record_at(table_of(d), i))) is Some
    &&& tables_wf(
        bitmap_of(d.subrange(BLOCK_SIZE as int, BLOCK_SIZE + TOTAL_BLOCKS)),
        bitmap_of(d.subrange(2 * BLOCK_SIZE, 2 * BLOCK_SIZE + NUM_INODES)),
        Seq::new(NUM_INODES as nat, |i: int| decode_record(record_at(table_of(d), i)).unwrap()),
        crate::bytes::le_value(d.subrange(4, 8)) as int,
    )
}

/// In a bitmap with every entry free, each block of the range is free.
proof fn lemma_all_free(lo: int, hi: int)
    requires
        0 <= lo <= hi <= TOTAL_BLOCKS,
    ensures
        free_count(Seq::new(TOTAL_BLOCKS as nat, |i: int| false), lo, hi) == hi - lo,
    decreases hi - lo,
{
    if lo < hi {
        lemma_all_free(lo, hi - 1);
    }
}

/// The encoding of a directory holding only `.` and `..` takes 45 bytes.
proof fn lemma_fresh_dir_len(me: u32, parent: u32)
    ensures
        dir_bytes(seq![self_item(me), parent_item(parent)]).len() == 45,
{
    let items = seq![self_item(me), parent_item(parent)];
    let words = items.map_values(|x: ItemView| item_bytes(x));
    assert(words.drop_first().drop_first() =~= Seq::<Seq<u8>>::empty());
    assert(words[0] == item_bytes(self_item(me)));
    assert(words[1] == item_bytes(parent_item(parent)));
    assert(words.drop_first()[0] == words[1]);
    assert(words.drop_first().flatten() == words[1] + words.drop_first().drop_first().flatten());
    assert(words.flatten() == words[0] + words.drop_first().flatten());
}

impl System {
    /// Sets up the root directory at `root_inode_index`: its slot is taken, named `/`, and
    /// given a directory holding `.` and `..`, both pointing at the root itself.
    fn init_root_dir(&mut self) -> (r: Result<(), FsError>)
        requires
            old(self).wf(),
            !old(self).free_inodes@[old(self).root_inode_index as int],
        ensures
            final(self).wf(),
            final(self).root_inode_index == old(self).root_inode_index,
            final(self).initialized == old(self).initialized,
            r is Ok <==> fits_blocks(
                seq![
                    self_item(old(self).root_inode_index as u32),
                    parent_item(old(self).root_inode_index as u32),
                ],
                old(self).free_data_blocks() as int,
            ),
            forall|j: int|
                0 <= j < NUM_INODES && j != old(self).root_inode_index ==> #[trigger] final(self).inodes@[j]
                    == old(self).inodes@[j] && final(self).free_inodes@[j] == old(self).free_inodes@[j],
            r is Ok ==> {
                let root = old(self).root_inode_index as int;
                &&& final(self).inodes@[root].size == 45
                &&& final(self).inodes@[root].block_pos@ == final(self).owned(root) + Seq::new(
                    (MAX_BLOCKS - 1) as nat,
                    |i: int| 0u32,
                )
                &&& forall|c: int|
                    FIRST_DATA_BLOCK <= c < final(self).owned(root)[0] ==> #[trigger] old(self).free_blocks@[c]
                &&& final(self).owned(root).len() == 1
                &&& final(self).free_data_blocks() + 1 == old(self).free_data_blocks()
                &&& final(self).free_inodes@[root]
                &&& final(self).inodes@[root].name@ == root_name()
                &&& final(self).stored_items(root) == Some(
                    seq![self_item(root as u32), parent_item(root as u32)],
                )
            },
    {
        let root = self.root_inode_index;
        let ghost o = *self;
        let name = [47u8];
        assert(name@ =~= root_name());
        proof {
            crate::dir::lemma_fixed_text();
        }
        self.take_inode(root, name.as_slice());
        let mut dir = Dir::new(name.as_slice(), root);
        dir.init_dir(root);
        proof {
            crate::dir::lemma_fixed_text();
        }
        assert(dir.items@[0]@ == self_item(root as u32));
        assert(dir.items@[1]@ == parent_item(root as u32));
        assert(view_items(dir.items@) =~= seq![self_item(root as u32), parent_item(root as u32)]);
        assert(o.owned(root as int).len() == 0);
        proof {
            lemma_fresh_dir_len(root as u32, root as u32);
            assert(blocks_for(45) == 1);
        }
        let ghost taken = *self;
        let r = self.persist_dir(&dir);
        proof {
            if r is Ok {
                assert forall|c: int|
                    FIRST_DATA_BLOCK <= c < self.owned(root as int)[0] implies #[trigger] old(self).free_blocks@[c] by {
                    assert(self.owned(root as int).take(0) =~= Seq::<u32>::empty());
                    assert(taken.free_blocks@[c]);
                }
            }
            assert forall|j: int| 0 <= j < NUM_INODES && j != root implies #[trigger] self.inodes@[j]
                == old(self).inodes@[j] && self.free_inodes@[j] == old(self).free_inodes@[j] by {
                assert(taken.inodes@[j] == old(self).inodes@[j]);
            }
        }
        r
    }

    /// Opens the file system held by `hardware`. A store whose superblock carries the
    /// initialization mark is loaded, and its tables are checked; any other store is taken
    /// as empty, and its root directory is set up at inode 0.
    pub fn init(hardware: Hardware) -> (r: Result<System, FsError>)
        ensures
            hardware.data@.len() != STORE_SIZE ==> r == Err::<System, FsError>(FsError::CorruptRecord),
            hardware.data@.len() == STORE_SIZE && crate::bytes::le_value(hardware.data@.subrange(0, 4))
                != INIT_MAGIC ==> r is Ok,
            crate::bytes::le_value(hardware.data@.subrange(0, 4)) == INIT_MAGIC ==> (r is Err ==> r
                == Err::<System, FsError>(FsError::CorruptRecord)),
            hardware.data@.len() == STORE_SIZE && crate::bytes::le_value(hardware.data@.subrange(0, 4))
                == INIT_MAGIC && image_consistent(hardware.data@) ==> r is Ok,
            r matches Ok(s) ==> {
                &&& s.wf()
                &&& s.initialized <==> crate::bytes::le_value(hardware.data@.subrange(0, 4)) == INIT_MAGIC
                &&& s.initialized ==> {
                    &&& s.hardware == hardware
                    &&& s.root_inode_index == crate::bytes::le_value(hardware.data@.subrange(4, 8))
                    &&& s.free_blocks@ == bitmap_of(
                        hardware.data@.subrange(BLOCK_SIZE as int, BLOCK_SIZE + TOTAL_BLOCKS),
                    )
                    &&& s.free_inodes@ == bitmap_of(
                        hardware.data@.subrange(2 * BLOCK_SIZE, 2 * BLOCK_SIZE + NUM_INODES),
                    )
                    &&& forall|i: int|
                        0 <= i < NUM_INODES ==> decode_record(
                            record_at(hardware.data@.subrange(3 * BLOCK_SIZE, 4 * BLOCK_SIZE), i),
                        ) == Some(#[trigger] s.inodes@[i]@)
                }
                &&& !s.initialized ==> {
                    &&& s.inodes@[0].size == 45
                    &&& s.inodes@[0].block_pos@ == seq![4u32, 0u32, 0u32, 0u32, 0u32, 0u32, 0u32]
                    &&& s.owned(0).len() == 1
                    &&& s.free_data_blocks() == 59
                    &&& forall|j: int| 1 <= j < NUM_INODES ==> !#[trigger] s.free_inodes@[j]
                    &&& forall|j: int| 1 <= j < NUM_INODES ==> (#[trigger] s.inodes@[j])@
                        == (InodeView { name: Seq::empty(), size: 0, block_pos: Seq::empty() })
                    &&& s.root_inode_index == 0
                    &&& s.free_inodes@[0]
                    &&& s.inodes@[0].name@ == root_name()
                    &&& s.stored_items(0) == Some(seq![self_item(0), parent_item(0)])
                }
            },
    {
        if hardware.data.len() != STORE_SIZE {
            return Err(FsError::CorruptRecord);
        }
        let magic = read_u32(hardware.data.as_slice(), 0);
        if magic == INIT_MAGIC {
            let root = read_u32(hardware.data.as_slice(), 4) as usize;
            let table = crate::bytes::copy_range(hardware.data.as_slice(), 3 * BLOCK_SIZE, 4 * BLOCK_SIZE);
            let inodes = Inode::from_block_bytes(table.as_slice())?;
            let free_blocks = bitmap_from_bytes(hardware.data.as_slice(), BLOCK_SIZE, TOTAL_BLOCKS);
            let free_inodes = bitmap_from_bytes(hardware.data.as_slice(), 2 * BLOCK_SIZE, NUM_INODES);
            let ghost d = hardware.data@;
            assert(table@ =~= table_of(d));
            let s = System { initialized: true, root_inode_index: root, free_inodes, free_blocks, inodes, hardware };
            proof {
                if image_consistent(d) {
                    let ins = Seq::new(NUM_INODES as nat, |i: int| decode_record(record_at(table_of(d), i)).unwrap());
                    assert forall|i: int| 0 <= i < NUM_INODES implies #[trigger] s.inodes@[i]@ == ins[i]
                        && s.owned(i) == data_blocks(ins[i].block_pos) by {
                        assert(decode_record(record_at(table@, i)) == Some(s.inodes@[i]@));
                    }
                    assert forall|i: int|
                        0 <= i < NUM_INODES implies (#[trigger] s.inodes@[i]).name@.len() <= MAX_NAME_LEN
                        && s.inodes@[i].block_pos@.len() <= MAX_BLOCKS && vstd::utf8::valid_utf8(s.inodes@[i].name@) by {
                        assert(s.inodes@[i]@ == ins[i]);
                    }
                    assert forall|i: int, m: int|
                        0 <= i < NUM_INODES && 0 <= m < s.owned(i).len() implies FIRST_DATA_BLOCK
                        <= #[trigger] s.owned(i)[m] < TOTAL_BLOCKS && s.free_blocks@[s.owned(i)[m] as int] by {
                        assert(s.inodes@[i]@ == ins[i]);
                        assert(s.owned(i) == data_blocks(ins[i].block_pos));
                    }
                    assert forall|i: int, m: int, j: int, n: int|
                        0 <= i < NUM_INODES && 0 <= m < s.owned(i).len() && 0 <= j < NUM_INODES && 0
                            <= n < s.owned(j).len() && #[trigger] s.owned(i)[m] == #[trigger] s.owned(j)[n]
                        implies i == j && m == n by {
                        assert(s.inodes@[i]@ == ins[i]);
                        assert(s.owned(i) == data_blocks(ins[i].block_pos));
                        assert(s.inodes@[j]@ == ins[j]);
                        assert(s.owned(j) == data_blocks(ins[j].block_pos));
                    }
                    assert forall|i: int| 0 <= i < NUM_INODES && !#[trigger] s.free_inodes@[i] implies s.owned(i).len()
                        == 0 by {
                        assert(s.inodes@[i]@ == ins[i]);
                        assert(s.owned(i) == data_blocks(ins[i].block_pos));
                    }
                    assert(s.wf());
                }
            }
            if !s.check_tables() {
                return Err(FsError::CorruptRecord);
            }
            Ok(s)
        } else {
            let mut inodes: Vec<Inode> = Vec::new();
            let mut i: usize = 0;
            while i < NUM_INODES
                invariant
                    i <= NUM_INODES,
                    inodes@.len() == i,
                    forall|j: int| 0 <= j < i ==> (#[trigger] inodes@[j])@ == (InodeView {
                        name: Seq::empty(),
                        size: 0,
                        block_pos: Seq::empty(),
                    }),
                decreases NUM_INODES - i,
            {
                inodes.push(Inode { name: Vec::new(), size: 0, block_pos: Vec::new() });
                i = i + 1;
            }
            let mut s = System {
                initialized: false,
                root_inode_index: 0,
                free_inodes: vec![false; NUM_INODES],
                free_blocks: vec![false; TOTAL_BLOCKS],
                inodes,
                hardware,
            };
            proof {
                assert forall|j: int| 0 <= j < NUM_INODES implies s.owned(j).len() == 0 by {
                    assert(s.inodes@[j].block_pos@.len() == 0);
                }
                assert forall|j: int| 0 <= j < NUM_INODES implies (#[trigger] s.inodes@[j]).name@.len() <= MAX_NAME_LEN
                    && s.inodes@[j].block_pos@.len() <= MAX_BLOCKS by {
                    assert(s.inodes@[j]@.name.len() == 0);
                }
                assert(s.wf());
                assert(s.free_blocks@ =~= Seq::new(TOTAL_BLOCKS as nat, |i: int| false));
                lemma_all_free(FIRST_DATA_BLOCK as int, TOTAL_BLOCKS as int);
                lemma_fresh_dir_len(0, 0);
                assert(blocks_for(45) == 1);
                assert(s.free_data_blocks() == 60);
                assert forall|j: int| 0 <= j < NUM_INODES implies !s.free_inodes@[j] && (#[trigger] s.inodes@[j])@
                    == (InodeView { name: Seq::empty(), size: 0, block_pos: Seq::empty() }) by {}
            }
            let ghost s0 = s;
            s.init_root_dir()?;
            assert forall|j: int| 1 <= j < NUM_INODES implies !s.free_inodes@[j] && (#[trigger] s.inodes@[j])@
                == (InodeView { name: Seq::empty(), size: 0, block_pos: Seq::empty() }) by {
                assert(s.inodes@[j] == s0.inodes@[j]);
                assert(s0.inodes@[j]@ == (InodeView { name: Seq::empty(), size: 0, block_pos: Seq::empty() }));
            }
            assert forall|j: int| 1 <= j < NUM_INODES implies !#[trigger] s.free_inodes@[j] by {
                assert(s.inodes@[j] == s0.inodes@[j]);
            }
            proof {
                let b = s.owned(0)[0];
                assert(FIRST_DATA_BLOCK <= b < TOTAL_BLOCKS);
                if b > 4 {
                    assert(s0.free_blocks@[4]);
                    assert(!s0.free_blocks@[4]);
                }
                assert(s.inodes@[0].block_pos@ =~= seq![4u32, 0u32, 0u32, 0u32, 0u32, 0u32, 0u32]);
            }
            assert(s.inodes@[0].size == 45);
            assert(s.owned(0).len() == 1);
            assert(s.free_data_blocks() == 59);
            assert(s.stored_items(0) == Some(seq![self_item(0), parent_item(0)]));
            assert(s.wf());
            Ok(s)
        }
    }

    /// Writes the bitmaps, the inode table and the superblock to their blocks, and marks
    /// the store initialized. Object data is left as it is.
    pub fn save(&mut self)
        requires
            old(self).wf(),
        ensures
            final(self).wf(),
            final(self).initialized,
            final(self).inodes == old(self).inodes,
            final(self).free_inodes == old(self).free_inodes,
            final(self).free_blocks == old(self).free_blocks,
            final(self).root_inode_index == old(self).root_inode_index,
            forall|j: int| 0 <= j < NUM_INODES ==> #[trigger] final(self).object_data(j) == old(self).object_data(j),
            forall|c: int|
                FIRST_DATA_BLOCK <= c < TOTAL_BLOCKS ==> #[trigger] block_of(final(self).hardware.data@, c)
                    == block_of(old(self).hardware.data@, c),
            block_of(final(self).hardware.data@, 1).take(TOTAL_BLOCKS as int) == bitmap_bytes(old(self).free_blocks@),
            block_of(final(self).hardware.data@, 2).take(NUM_INODES as int) == bitmap_bytes(old(self).free_inodes@),
            block_of(final(self).hardware.data@, 3) == table_bytes(old(self).inodes@),
            block_of(final(self).hardware.data@, 0).take(8) == le_bytes(INIT_MAGIC) + le_bytes(
                old(self).root_inode_index as u32,
            ),
    {
        let fb = bitmap_to_bytes(&self.free_blocks);
        proof { crate::fs::lemma_block_frame(self.hardware.data@, fb@, 1); }
        self.write_into_block(1, fb.as_slice());
        let fi = bitmap_to_bytes(&self.free_inodes);
        let ghost d1 = self.hardware.data@;
        proof { crate::fs::lemma_block_frame(self.hardware.data@, fi@, 2); }
        self.write_into_block(2, fi.as_slice());
        proof {
            crate::fs::lemma_wf_more_used(*old(self), *self);
        }
        let ghost words = self.inodes@.map_values(|i: Inode| inode_record(i@));
        let mut table: Vec<u8> = Vec::new();
        let mut i: usize = 0;
        while i < NUM_INODES
            invariant
                self.wf(),
                i <= NUM_INODES,
                words == self.inodes@.map_values(|i: Inode| inode_record(i@)),
                table@ == words.take(i as int).flatten(),
                table@.len() == i * INODE_SIZE,
            decreases NUM_INODES - i,
        {
            let rec = self.inodes[i].to_le_bytes();
            match rec {
                Ok(b) => {
                    proof {
                        crate::inode::lemma_inode_round_trip(self.inodes@[i as int]@);
                        crate::bytes::lemma_flatten_take_next(words, i as int);
                    }
                    let mut j: usize = 0;
                    let ghost t0 = table@;
                    while j < b.len()
                        invariant
                            j <= b@.len(),
                            table@ == t0 + b@.take(j as int),
                        decreases b@.len() - j,
                    {
                        table.push(b[j]);
                        j = j + 1;
                        assert(table@ =~= t0 + b@.take(j as int));
                    }
                    assert(b@.take(j as int) =~= b@);
                },
                Err(_) => {
                    assert(false);
                },
            }
            i = i + 1;
        }
        assert(words.take(NUM_INODES as int) =~= words);
        let ghost d2 = self.hardware.data@;
        proof { crate::fs::lemma_block_frame(self.hardware.data@, table@, 3); }
        self.write_into_block(3, table.as_slice());
        let mut head: Vec<u8> = Vec::new();
        push_u32(&mut head, INIT_MAGIC);
        push_u32(&mut head, self.root_inode_index as u32);
        let ghost d3 = self.hardware.data@;
        proof { crate::fs::lemma_block_frame(self.hardware.data@, head@, 0); }
        self.write_into_block(0, head.as_slice());
        self.initialized = true;
        proof {
            crate::fs::lemma_wf_more_used(*old(self), *self);
            assert forall|c: int| FIRST_DATA_BLOCK <= c < TOTAL_BLOCKS implies #[trigger] block_of(
                self.hardware.data@,
                c,
            ) == block_of(old(self).hardware.data@, c) by {
                assert(block_of(d1, c) == block_of(old(self).hardware.data@, c));
                assert(block_of(d2, c) == block_of(d1, c));
                assert(block_of(d3, c) == block_of(d2, c));
            }
            assert(block_of(self.hardware.data@, 0).take(8) =~= head@);
            assert(block_of(self.hardware.data@, 3) =~= table@);
            assert(block_of(d2, 2).take(NUM_INODES as int) =~= fi@);
            assert(block_of(d1, 1).take(TOTAL_BLOCKS as int) =~= fb@);
            assert forall|j: int| 0 <= j < NUM_INODES implies #[trigger] self.object_data(j) == old(self).object_data(j) by {
                assert forall|n: int| 0 <= n < old(self).owned(j).len() implies block_of(
                    self.hardware.data@,
                    #[trigger] old(self).owned(j)[n] as int,
                ) == block_of(old(self).hardware.data@, old(self).owned(j)[n] as int) by {
                    assert(old(self).owned(j)[n] >= FIRST_DATA_BLOCK);
                }
                crate::fs::lemma_object_frame(*old(self), *self, j);
            }
        }
    }
}

} // verus!
