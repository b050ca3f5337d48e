use crate::bytes::{copy_bytes, le_bytes, le_value, lemma_flatten_take_next, lemma_flatten_words, push_u32, read_u32};
use crate::bytes::utf8_valid;
use crate::error::FsError;
use vstd::utf8::valid_utf8;
use vstd::prelude::*;

verus! {

/// Bytes in one inode record.
pub const INODE_SIZE: usize = 64;

/// Longest name that fits the record's name field, after its length byte.
pub const MAX_NAME_LEN: usize = 31;

/// Direct block pointers held by one inode.
pub const MAX_BLOCKS: usize = 7;

/// Metadata of one file-system object: its name, its size in bytes and its data blocks.
#[derive(Debug)]
pub struct Inode {
    pub name: Vec<u8>,
    pub size: u32,
    pub block_pos: Vec<u32>,
}

/// The mathematical value of an inode.
pub struct InodeView {
    pub name: Seq<u8>,
    pub size: u32,
    pub block_pos: Seq<u32>,
}

impl View for Inode {
    type V = InodeView;

    open spec fn view(&self) -> InodeView {
        InodeView { name: self.name@, size: self.size, block_pos: self.block_pos@ }
    }
}

/// `n` zero bytes.
pub open spec fn zeros(n: int) -> Seq<u8> {
    Seq::new(n as nat, |i: int| 0u8)
}

/// The block list widened with zero entries to `MAX_BLOCKS` pointers.
pub open spec fn padded(bp: Seq<u32>) -> Seq<u32> {
    bp + Seq::new((MAX_BLOCKS - bp.len()) as nat, |i: int| 0u32)
}

/// The little-endian bytes of each pointer, one after another.
pub open spec fn pointer_bytes(bp: Seq<u32>) -> Seq<u8> {
    bp.map_values(|p: u32| le_bytes(p)).flatten()
}

/// Whether an inode can be written as one record.
pub open spec fn fits_record(m: InodeView) -> bool {
    m.name.len() <= MAX_NAME_LEN && m.block_pos.len() <= MAX_BLOCKS
}

/// The record of an inode: name length, name padded to 31 bytes, size, seven pointers.
pub open spec fn inode_record(m: InodeView) -> Seq<u8> {
    seq![m.name.len() as u8] + m.name + zeros(MAX_NAME_LEN - m.name.len()) + le_bytes(m.size)
        + pointer_bytes(padded(m.block_pos))
}

/// The inode that a record describes, if its name fits the name field and is valid UTF-8.
pub open spec fn decode_record(c: Seq<u8>) -> Option<InodeView>
    recommends
        c.len() == INODE_SIZE,
{
    if c[0] as int > MAX_NAME_LEN || !valid_utf8(c.subrange(1, 1 + c[0] as int)) {
        None
    } else {
        Some(
            InodeView {
                name: c.subrange(1, 1 + c[0] as int),
                size: le_value(c.subrange(32, 36)),
                block_pos: Seq::new(
                    MAX_BLOCKS as nat,
                    |k: int| le_value(c.subrange(36 + 4 * k, 40 + 4 * k)),
                ),
            },
        )
    }
}

/// Record `i` of an inode table held in `data`.
pub open spec fn record_at(data: Seq<u8>, i: int) -> Seq<u8> {
    data.subrange(INODE_SIZE * i, INODE_SIZE * i + INODE_SIZE)
}

/// Decoding the record of an inode gives it back, its block list widened to seven pointers.
pub proof fn lemma_inode_round_trip(m: InodeView)
    requires
        fits_record(m),
        valid_utf8(m.name),
    ensures
        inode_record(m).len() == INODE_SIZE,
        decode_record(inode_record(m)) == Some(
            InodeView { name: m.name, size: m.size, block_pos: padded(m.block_pos) },
        ),
        m.block_pos.len() == MAX_BLOCKS ==> decode_record(inode_record(m)) == Some(m),
{
    let r = inode_record(m);
    let p = padded(m.block_pos);
    let words = p.map_values(|x: u32| le_bytes(x));
    assert forall|i: int| 0 <= i < words.len() implies (#[trigger] words[i]).len() == 4 by {
        crate::bytes::lemma_le_round_trip(p[i]);
    }
    lemma_flatten_words(words);
    crate::bytes::lemma_le_round_trip(m.size);
    let head = seq![m.name.len() as u8] + m.name + zeros(MAX_NAME_LEN - m.name.len());
    assert(head.len() == 32);
    assert(r =~= head + le_bytes(m.size) + pointer_bytes(p));
    assert(r[0] == m.name.len() as u8);
    assert(r.subrange(1, 1 + m.name.len() as int) =~= m.name);
    assert(r.subrange(32, 36) =~= le_bytes(m.size));
    let d = decode_record(r).unwrap();
    assert forall|k: int| 0 <= k < MAX_BLOCKS implies #[trigger] d.block_pos[k] == p[k] by {
        assert(r.subrange(36 + 4 * k, 40 + 4 * k) =~= pointer_bytes(p).subrange(4 * k, 4 * k + 4));
        assert(pointer_bytes(p) == words.flatten());
        assert(words[k] == le_bytes(p[k]));
        assert(pointer_bytes(p).subrange(4 * k, 4 * k + 4) == words[k]);
        crate::bytes::lemma_le_round_trip(p[k]);
        assert(d.block_pos[k] == le_value(r.subrange(36 + 4 * k, 40 + 4 * k)));
    }
    assert(d.block_pos =~= p);
    if m.block_pos.len() == MAX_BLOCKS {
        assert(p =~= m.block_pos);
    }
}

impl Inode {
    /// Takes the slot for a new object called `name`: no size and no blocks.
    pub fn init(&mut self, name: &[u8])
        ensures
            final(self)@ == (InodeView { name: name@, size: 0, block_pos: Seq::empty() }),
    {
        self.name = copy_bytes(name);
        self.size = 0;
        self.block_pos = Vec::new();
    }

    /// Empties the slot: no name, no size, no blocks.
    pub fn clean(&mut self)
        ensures
            final(self)@ == (InodeView { name: Seq::empty(), size: 0, block_pos: Seq::empty() }),
    {
        self.name = Vec::new();
        self.size = 0;
        self.block_pos = Vec::new();
    }

    /// Decodes one record.
    fn from_record(data: &[u8], at: usize) -> (r: Option<Inode>)
        requires
            at + INODE_SIZE <= data@.len(),
        ensures
            r matches Some(i) ==> decode_record(data@.subrange(at as int, at + INODE_SIZE))
                == Some(i@),
            r is None ==> decode_record(data@.subrange(at as int, at + INODE_SIZE)) is None,
    {
        let ghost c = data@.subrange(at as int, at + INODE_SIZE);
        let name_len = data[at] as usize;
        if name_len > MAX_NAME_LEN {
            return None;
        }
        let mut name: Vec<u8> = Vec::new();
        let mut j: usize = 0;
        while j < name_len
            invariant
                name_len <= MAX_NAME_LEN,
                at + INODE_SIZE <= data@.len() <= usize::MAX,
                j <= name_len,
                name@ == data@.subrange(at + 1, at + 1 + j),
            decreases name_len - j,
        {
            name.push(data[at + 1 + j]);
            j = j + 1;
            assert(name@ =~= data@.subrange(at + 1, at + 1 + j));
        }
        if !utf8_valid(data, at + 1, at + 1 + name_len) {
            assert(data@.subrange(at + 1, at + 1 + name_len) =~= c.subrange(1, 1 + c[0] as int));
            return None;
        }
        assert(data@.subrange(at + 1, at + 1 + name_len) =~= c.subrange(1, 1 + c[0] as int));
        let size = read_u32(data, at + 32);
        assert(data@.subrange(at + 32, at + 36) =~= c.subrange(32, 36));
        let mut block_pos: Vec<u32> = Vec::new();
        let mut k: usize = 0;
        while k < MAX_BLOCKS
            invariant
                at + INODE_SIZE <= data@.len() <= usize::MAX,
                c == data@.subrange(at as int, at + INODE_SIZE),
                k <= MAX_BLOCKS,
                block_pos@.len() == k,
                forall|q: int|
                    0 <= q < k ==> #[trigger] block_pos@[q] == le_value(
                        c.subrange(36 + 4 * q, 40 + 4 * q),
                    ),
            decreases MAX_BLOCKS - k,
        {
            let p = read_u32(data, at + 36 + 4 * k);
            assert(data@.subrange(at + 36 + 4 * k, at + 40 + 4 * k) =~= c.subrange(
                36 + 4 * k,
                40 + 4 * k,
            ));
            block_pos.push(p);
            k = k + 1;
        }
        let r = Inode { name, size, block_pos };
        assert(r@.name =~= c.subrange(1, 1 + c[0] as int));
        assert(r@.block_pos =~= decode_record(c).unwrap().block_pos);
        Some(r)
    }

    /// Decodes an inode table: one inode per whole record of `data`.
    pub fn from_block_bytes(data: &[u8]) -> (r: Result<Vec<Inode>, FsError>)
        ensures
            r is Ok <==> forall|i: int|
                0 <= i < data@.len() as int / INODE_SIZE as int ==> (#[trigger] decode_record(
                    record_at(data@, i),
                )) is Some,
            r matches Ok(v) ==> v@.len() == data@.len() as int / INODE_SIZE as int && forall|i: int|
                0 <= i < v@.len() ==> decode_record(record_at(data@, i)) == Some(
                    #[trigger] v@[i]@,
                ),
            r matches Err(e) ==> e == FsError::CorruptRecord,
    {
        let n = data.len() / INODE_SIZE;
        let mut v: Vec<Inode> = Vec::new();
        let mut i: usize = 0;
        while i < n
            invariant
                n == data@.len() as int / INODE_SIZE as int,
                data@.len() <= usize::MAX,
                i <= n,
                v@.len() == i,
                forall|q: int|
                    0 <= q < i ==> decode_record(record_at(data@, q)) == Some(#[trigger] v@[q]@),
            decreases n - i,
        {
            assert(INODE_SIZE * i + INODE_SIZE <= data@.len()) by (nonlinear_arith)
                requires
                    i < n,
                    n == data@.len() / 64,
            ;
            match Inode::from_record(data, INODE_SIZE * i) {
                Some(ino) => {
                    v.push(ino);
                },
                None => {
                    assert(decode_record(record_at(data@, i as int)) is None);
                    return Err(FsError::CorruptRecord);
                },
            }
            i = i + 1;
        }
        assert forall|q: int| 0 <= q < data@.len() as int / INODE_SIZE as int implies (
        #[trigger] decode_record(record_at(data@, q))) is Some by {
            assert(decode_record(record_at(data@, q)) == Some(v@[q]@));
        }
        Ok(v)
    }

    /// The record of this inode; a name over 31 bytes or more than seven pointers do not fit.
    pub fn to_le_bytes(&self) -> (r: Result<Vec<u8>, FsError>)
        ensures
            r matches Ok(b) ==> fits_record(self@) && b@ == inode_record(self@),
            r == Err::<Vec<u8>, FsError>(FsError::NameTooLong) <==> self@.name.len()
                > MAX_NAME_LEN,
            r == Err::<Vec<u8>, FsError>(FsError::CapacityExceeded) <==> self@.name.len()
                <= MAX_NAME_LEN && self@.block_pos.len() > MAX_BLOCKS,
            r is Ok || r == Err::<Vec<u8>, FsError>(FsError::NameTooLong) || r == Err::<
                Vec<u8>,
                FsError,
            >(FsError::CapacityExceeded),
    {
        let name_len = self.name.len();
        if name_len > MAX_NAME_LEN {
            return Err(FsError::NameTooLong);
        }
        if self.block_pos.len() > MAX_BLOCKS {
            return Err(FsError::CapacityExceeded);
        }
        let mut raw: Vec<u8> = Vec::new();
        raw.push(name_len as u8);
        let mut j: usize = 0;
        while j < name_len
            invariant
                name_len == self.name@.len(),
                j <= name_len,
                raw@ == seq![name_len as u8] + self.name@.take(j as int),
            decreases name_len - j,
        {
            raw.push(self.name[j]);
            assert(self.name@.take(j + 1) =~= self.name@.take(j as int).push(self.name@[j as int]));
            j = j + 1;
        }
        assert(self.name@.take(j as int) =~= self.name@);
        let ghost head = raw@;
        let mut z: usize = name_len;
        while z < MAX_NAME_LEN
            invariant
                name_len <= z <= MAX_NAME_LEN,
                raw@ == head + zeros(z - name_len),
            decreases MAX_NAME_LEN - z,
        {
            raw.push(0u8);
            z = z + 1;
            assert(raw@ =~= head + zeros(z - name_len));
        }
        push_u32(&mut raw, self.size);
        let ghost pre = raw@;
        let ghost words = padded(self@.block_pos).map_values(|p: u32| le_bytes(p));
        let mut k: usize = 0;
        while k < MAX_BLOCKS
            invariant
                self.block_pos@.len() <= MAX_BLOCKS,
                k <= MAX_BLOCKS,
                words == padded(self@.block_pos).map_values(|p: u32| le_bytes(p)),
                raw@ == pre + words.take(k as int).flatten(),
            decreases MAX_BLOCKS - k,
        {
            let p: u32 = if k < self.block_pos.len() {
                self.block_pos[k]
            } else {
                0
            };
            assert(p == padded(self@.block_pos)[k as int]);
            push_u32(&mut raw, p);
            proof {
                lemma_flatten_take_next(words, k as int);
            }
            assert(raw@ =~= pre + words.take(k + 1).flatten());
            k = k + 1;
        }
        assert(words.take(MAX_BLOCKS as int) =~= words);
        assert(raw@ =~= inode_record(self@));
        Ok(raw)
    }
}

} // verus!
