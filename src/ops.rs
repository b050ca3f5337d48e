use crate::bytes::{bytes_eq, copy_bytes};
use crate::dir::{
    item_bytes, lemma_fixed_text, lemma_same_record_lengths,
    dir_bytes, dir_kind, file_kind, item_readable, kind_dir, kind_file, lemma_dir_round_trip,
    parent_item, parse_items, self_item, view_items, Dir, DirItem,
    ItemView,
};
use crate::error::FsError;
use crate::tree::{in_subtree, subtree_marks, subtree_sound};
use crate::file::File;
use crate::fs::{block_of, blocks_for, System, FIRST_DATA_BLOCK, MAX_OBJECT_SIZE, NUM_INODES};
use crate::hardware::{BLOCK_SIZE, TOTAL_BLOCKS};
use crate::inode::{zeros, InodeView, MAX_BLOCKS, MAX_NAME_LEN};
use vstd::prelude::*;
use vstd::utf8::valid_utf8;

verus! {

/// Whether `k` is the first item of `items` called `name`.
pub open spec fn first_named(items: Seq<ItemView>, name: Seq<u8>, k: int) -> bool {
    &&& 0 <= k < items.len()
    &&& items[k].name == name
    &&& forall|q: int| 0 <= q < k ==> (#[trigger] items[q]).name != name
}

/// Whether `k` is the first item of `items` called `name` and of kind `kind`.
pub open spec fn first_named_kind(items: Seq<ItemView>, name: Seq<u8>, kind: Seq<u8>, k: int) -> bool {
    &&& 0 <= k < items.len()
    &&& items[k].name == name
    &&& items[k].typ == kind
    &&& forall|q: int| 0 <= q < k ==> !((#[trigger] items[q]).name == name && items[q].typ == kind)
}

/// Whether some item of `items` is called `name`.
pub open spec fn has_name(items: Seq<ItemView>, name: Seq<u8>) -> bool {
    exists|k: int| 0 <= k < items.len() && (#[trigger] items[k]).name == name
}

/// Whether some item of `items` is called `name` and is of kind `kind`.
pub open spec fn has_name_kind(items: Seq<ItemView>, name: Seq<u8>, kind: Seq<u8>) -> bool {
    exists|k: int| 0 <= k < items.len() && (#[trigger] items[k]).name == name && items[k].typ == kind
}

/// The items with the size of each one called `name` set to `size`.
pub open spec fn with_size(items: Seq<ItemView>, name: Seq<u8>, size: u32) -> Seq<ItemView> {
    items.map_values(
        |it: ItemView|
            if it.name == name {
                ItemView { size, ..it }
            } else {
                it
            },
    )
}

/// Whether the encoding of `items` fits an inode, in at most `avail` blocks.
pub open spec fn fits_blocks(items: Seq<ItemView>, avail: int) -> bool {
    &&& dir_bytes(items).len() <= MAX_OBJECT_SIZE
    &&& blocks_for(dir_bytes(items).len() as int) <= avail
}

/// Whether `n` is the first free slot of the inode bitmap `fi`.
pub open spec fn first_free(fi: Seq<bool>, n: int) -> bool {
    &&& 0 <= n < NUM_INODES
    &&& !fi[n]
    &&& forall|q: int| 0 <= q < n ==> fi[q]
}

/// Setting sizes leaves the length of a directory's encoding as it was.
pub proof fn lemma_with_size_len(items: Seq<ItemView>, name: Seq<u8>, size: u32)
    ensures
        dir_bytes(with_size(items, name, size)).len() == dir_bytes(items).len(),
{
    let a = with_size(items, name, size);
    assert forall|q: int| 0 <= q < a.len() implies #[trigger] item_bytes(a[q]).len()
        == item_bytes(items[q]).len() by {
        assert(a[q].name == items[q].name && a[q].typ == items[q].typ);
    }
    lemma_same_record_lengths(a, items);
}

/// The first item called `name`.
pub fn find_item(items: &Vec<DirItem>, name: &[u8]) -> (r: Option<usize>)
    ensures
        r matches Some(k) ==> first_named(view_items(items@), name@, k as int),
        r is None <==> !has_name(view_items(items@), name@),
{
    let mut k: usize = 0;
    while k < items.len()
        invariant
            k <= items@.len(),
            forall|q: int| 0 <= q < k ==> (#[trigger] view_items(items@)[q]).name != name@,
        decreases items@.len() - k,
    {
        if bytes_eq(items[k].name.as_slice(), name) {
            assert(view_items(items@)[k as int].name == name@);
            return Some(k);
        }
        k = k + 1;
    }
    None
}

/// The first item called `name` of kind `kind`.
pub fn find_item_kind(items: &Vec<DirItem>, name: &[u8], kind: &[u8]) -> (r: Option<usize>)
    ensures
        r matches Some(k) ==> first_named_kind(view_items(items@), name@, kind@, k as int),
        r is None <==> !has_name_kind(view_items(items@), name@, kind@),
{
    let mut k: usize = 0;
    while k < items.len()
        invariant
            k <= items@.len(),
            forall|q: int|
                0 <= q < k ==> !((#[trigger] view_items(items@)[q]).name == name@ && view_items(
                    items@,
                )[q].typ == kind@),
        decreases items@.len() - k,
    {
        if bytes_eq(items[k].name.as_slice(), name) && bytes_eq(items[k].typ.as_slice(), kind) {
            assert(view_items(items@)[k as int].name == name@);
            return Some(k);
        }
        k = k + 1;
    }
    None
}

impl System {
    /// The items that inode `i` holds, read as a directory.
    pub open spec fn stored_items(&self, i: int) -> Option<Seq<ItemView>> {
        parse_items(self.object_data(i))
    }

    /// Writes the items of `dir` to its inode.
    pub(crate) fn persist_dir(&mut self, dir: &Dir) -> (r: Result<(), FsError>)
        requires
            old(self).wf(),
            dir.inode_index < NUM_INODES,
            old(self).free_inodes@[dir.inode_index as int],
            forall|i: int| 0 <= i < dir.items@.len() ==> item_readable(#[trigger] dir.items@[i]@),
        ensures
            final(self).wf(),
            final(self).free_inodes == old(self).free_inodes,
            final(self).root_inode_index == old(self).root_inode_index,
            final(self).initialized == old(self).initialized,
            forall|j: int|
                0 <= j < NUM_INODES && j != dir.inode_index ==> #[trigger] final(self).inodes@[j]
                    == old(self).inodes@[j] && final(self).object_data(j) == old(self).object_data(j),
            final(self).inodes@[dir.inode_index as int].name == old(self).inodes@[dir.inode_index as int].name,
            r is Ok <==> dir_bytes(view_items(dir.items@)).len() <= MAX_OBJECT_SIZE && blocks_for(
                dir_bytes(view_items(dir.items@)).len() as int,
            ) <= old(self).free_data_blocks() + old(self).owned(dir.inode_index as int).len(),
            r is Ok ==> final(self).stored_items(dir.inode_index as int) == Some(view_items(dir.items@)),
            r is Ok ==> final(self).inodes@[dir.inode_index as int].block_pos@ == final(self).owned(dir.inode_index as int)
                + Seq::new((MAX_BLOCKS - final(self).owned(dir.inode_index as int).len()) as nat, |i: int| 0u32),
            r is Ok ==> forall|q: int, c: int|
                #![trigger final(self).owned(dir.inode_index as int)[q], old(self).free_blocks@[c]]
                0 <= q < final(self).owned(dir.inode_index as int).len() && FIRST_DATA_BLOCK <= c
                    < final(self).owned(dir.inode_index as int)[q] && !final(self).owned(
                    dir.inode_index as int,
                ).take(q).contains(c as u32) ==> old(self).free_blocks@[c] && !old(self).owned(
                    dir.inode_index as int,
                ).contains(c as u32),
            r is Ok ==> final(self).inodes@[dir.inode_index as int].size == dir_bytes(view_items(dir.items@)).len()
                && final(self).owned(dir.inode_index as int).len() == blocks_for(
                dir_bytes(view_items(dir.items@)).len() as int,
            ),
            r is Ok ==> final(self).free_data_blocks() == old(self).free_data_blocks() + old(self).owned(
                dir.inode_index as int,
            ).len() - blocks_for(dir_bytes(view_items(dir.items@)).len() as int),
            r is Err ==> r == Err::<(), FsError>(FsError::CapacityExceeded) || r == Err::<(), FsError>(FsError::NoFreeBlock),
            r is Err ==> *final(self) == *old(self),
    {
        let bytes = dir.to_block_bytes();
        let r = self.write_with_inode(dir.inode_index, bytes.as_slice());
        proof {
            if r is Ok {
                let items = view_items(dir.items@);
                assert forall|i: int| 0 <= i < items.len() implies item_readable(#[trigger] items[i]) by {
                    assert(items[i] == dir.items@[i]@);
                }
                lemma_dir_round_trip(
                    items,
                    zeros(blocks_for(bytes@.len() as int) * BLOCK_SIZE - bytes@.len()),
                );
            }
        }
        r
    }

    /// The root directory, read from its inode.
    pub fn get_root_dir(&self) -> (r: Result<Dir, FsError>)
        requires
            self.wf(),
        ensures
            r is Ok <==> self.stored_items(self.root_inode_index as int) is Some,
            r matches Ok(d) ==> d.inode_index == self.root_inode_index && d.name@
                == self.inodes@[self.root_inode_index as int].name@ && Some(view_items(d.items@))
                == self.stored_items(self.root_inode_index as int),
            r is Err ==> r == Err::<Dir, FsError>(FsError::CorruptRecord),
    {
        let root = self.root_inode_index;
        let data = self.read_inode_data(root);
        Dir::from_block_bytes(self.inodes[root].name.as_slice(), root, data.as_slice())
    }

    /// The directory called `name` among the items stored for `dir`.
    pub fn open_dir(&self, dir: &Dir, name: &[u8]) -> (r: Result<Dir, FsError>)
        requires
            self.wf(),
            dir.inode_index < NUM_INODES,
        ensures
            self.stored_items(dir.inode_index as int) is None ==> r == Err::<Dir, FsError>(
                FsError::CorruptRecord,
            ),
            self.stored_items(dir.inode_index as int) matches Some(items) ==> {
                &&& !has_name(items, name@) ==> r == Err::<Dir, FsError>(FsError::NotFound)
                &&& forall|k: int|
                    first_named(items, name@, k) ==> {
                        let t = items[k].inode_pos as int;
                        &&& (t < NUM_INODES && self.stored_items(t) is Some) ==> r is Ok
                        &&& r matches Ok(d) ==> t < NUM_INODES && d.inode_index == t && d.name@
                            == self.inodes@[t].name@ && Some(view_items(d.items@))
                            == self.stored_items(t)
                    }
            },
            r is Err ==> r == Err::<Dir, FsError>(FsError::CorruptRecord) || r == Err::<Dir, FsError>(FsError::NotFound),
    {
        let data = self.read_inode_data(dir.inode_index);
        let parent = Dir::from_block_bytes(dir.name.as_slice(), dir.inode_index, data.as_slice())?;
        let k = match find_item(&parent.items, name) {
            Some(k) => k,
            None => {
                return Err(FsError::NotFound);
            },
        };
        let t = parent.items[k].inode_pos as usize;
        proof {
            let items = self.stored_items(dir.inode_index as int).unwrap();
            assert forall|k2: int| first_named(items, name@, k2) implies k2 == k by {
                if k2 < k {
                    assert(items[k2].name != name@);
                } else if k < k2 {
                    assert(items[k as int] == parent.items@[k as int]@);
                }
            }
            assert(items[k as int] == parent.items@[k as int]@);
        }
        if t >= NUM_INODES {
            return Err(FsError::CorruptRecord);
        }
        let target = self.read_inode_data(t);
        Dir::from_block_bytes(self.inodes[t].name.as_slice(), t, target.as_slice())
    }
}

impl System {
    /// Takes the free inode slot `n` for a new object called `name`.
    pub(crate) fn take_inode(&mut self, n: usize, name: &[u8])
        requires
            valid_utf8(name@),
            old(self).wf(),
            n < NUM_INODES,
            !old(self).free_inodes@[n as int],
            name@.len() <= MAX_NAME_LEN,
        ensures
            final(self).wf(),
            final(self).free_inodes@ == old(self).free_inodes@.update(n as int, true),
            final(self).inodes@[n as int]@ == (InodeView { name: name@, size: 0, block_pos: Seq::empty() }),
            final(self).owned(n as int).len() == 0,
            final(self).free_blocks == old(self).free_blocks,
            final(self).hardware == old(self).hardware,
            final(self).root_inode_index == old(self).root_inode_index,
            final(self).initialized == old(self).initialized,
            forall|j: int|
                0 <= j < NUM_INODES && j != n ==> #[trigger] final(self).inodes@[j]
                    == old(self).inodes@[j] && final(self).object_data(j) == old(self).object_data(j),
    {
        self.inodes[n].init(name);
        self.free_inodes[n] = true;
        proof {
            assert(self.owned(n as int) =~= Seq::<u32>::empty());
            assert(old(self).owned(n as int).len() == 0);
            assert forall|j: int| 0 <= j < NUM_INODES && j != n implies #[trigger] self.inodes@[j]
                == old(self).inodes@[j] && self.object_data(j) == old(self).object_data(j) by {
                assert(self.inodes@[j] == old(self).inodes@[j]);
            }
            assert forall|i: int, m: int|
                0 <= i < NUM_INODES && 0 <= m < self.owned(i).len() implies FIRST_DATA_BLOCK
                <= #[trigger] self.owned(i)[m] < TOTAL_BLOCKS && self.free_blocks@[self.owned(i)[m] as int] by {
                assert(old(self).owned(i)[m] == self.owned(i)[m]);
            }
            assert forall|i: int, m: int, j: int, q: int|
                0 <= i < NUM_INODES && 0 <= m < self.owned(i).len() && 0 <= j < NUM_INODES && 0
                    <= q < self.owned(j).len() && #[trigger] self.owned(i)[m]
                    == #[trigger] self.owned(j)[q] implies i == j && m == q by {
                assert(old(self).owned(i)[m] == self.owned(i)[m]);
                assert(old(self).owned(j)[q] == self.owned(j)[q]);
            }
            assert forall|i: int| 0 <= i < NUM_INODES && !#[trigger] self.free_inodes@[i] implies self.owned(
                i,
            ).len() == 0 by {
                assert(old(self).owned(i) == self.owned(i));
            }
        }
    }

    /// Creates the directory `name` in `dir`: a new inode holding `.` and `..`, and an item
    /// of kind `dir` appended to `dir` and stored. Nothing is kept where a step fails.
    pub fn create_dir(&mut self, dir: &mut Dir, name: &[u8]) -> (r: Result<Dir, FsError>)
        requires
            valid_utf8(name@),
            old(self).wf(),
            old(dir).inode_index < NUM_INODES,
            old(self).free_inodes@[old(dir).inode_index as int],
            forall|i: int| 0 <= i < old(dir).items@.len() ==> item_readable(#[trigger] old(dir).items@[i]@),
        ensures
            final(self).wf(),
            final(dir).inode_index == old(dir).inode_index,
            final(dir).name == old(dir).name,
            forall|i: int| 0 <= i < final(dir).items@.len() ==> item_readable(#[trigger] final(dir).items@[i]@),
            r == Err::<Dir, FsError>(FsError::AlreadyExists) <==> has_name(view_items(old(dir).items@), name@),
            r == Err::<Dir, FsError>(FsError::NameTooLong) <==> !has_name(view_items(old(dir).items@), name@)
                && name@.len() > MAX_NAME_LEN,
            r == Err::<Dir, FsError>(FsError::NoFreeInode) <==> !has_name(view_items(old(dir).items@), name@)
                && name@.len() <= MAX_NAME_LEN && forall|q: int| 0 <= q < NUM_INODES ==> old(self).free_inodes@[q],
            forall|n: int|
                first_free(old(self).free_inodes@, n) && !has_name(view_items(old(dir).items@), name@)
                    && name@.len() <= MAX_NAME_LEN ==> (r is Ok <==> {
                    let own = seq![self_item(n as u32), parent_item(old(dir).inode_index as u32)];
                    let avail = old(self).free_data_blocks() - blocks_for(dir_bytes(own).len() as int)
                        + old(self).owned(old(dir).inode_index as int).len();
                    &&& fits_blocks(own, old(self).free_data_blocks() as int)
                    &&& fits_blocks(
                        view_items(old(dir).items@).push(
                            ItemView { inode_pos: n as u32, name: name@, typ: kind_dir(), size: 0 },
                        ),
                        avail,
                    )
                }),
            r is Err ==> *final(self) == *old(self),
            forall|j: int|
                0 <= j < NUM_INODES && (r matches Ok(x) ==> j != x.inode_index) && j != old(dir).inode_index
                    ==> #[trigger] final(self).inodes@[j] == old(self).inodes@[j]
                    && final(self).free_inodes@[j] == old(self).free_inodes@[j]
                    && final(self).object_data(j) == old(self).object_data(j),
            r is Err ==> view_items(final(dir).items@) == view_items(old(dir).items@),
            r is Err ==> r == Err::<Dir, FsError>(FsError::AlreadyExists) || r == Err::<Dir, FsError>(FsError::NameTooLong)
                || r == Err::<Dir, FsError>(FsError::NoFreeInode) || r == Err::<Dir, FsError>(FsError::NoFreeBlock)
                || r == Err::<Dir, FsError>(FsError::CapacityExceeded),
            r matches Ok(d) ==> {
                let n = d.inode_index as int;
                &&& n < NUM_INODES
                &&& !old(self).free_inodes@[n]
                &&& forall|q: int| 0 <= q < n ==> old(self).free_inodes@[q]
                &&& final(self).free_inodes@[n]
                &&& d.name@ == name@
                &&& final(self).inodes@[n].name@ == name@
                &&& view_items(d.items@) == seq![self_item(n as u32), parent_item(old(dir).inode_index as u32)]
                &&& view_items(final(dir).items@) == view_items(old(dir).items@).push(
                    ItemView { inode_pos: n as u32, name: name@, typ: kind_dir(), size: 0 },
                )
                &&& final(self).stored_items(n) == Some(view_items(d.items@))
                &&& final(self).stored_items(old(dir).inode_index as int) == Some(view_items(final(dir).items@))
            },
    {
        if find_item(&dir.items, name).is_some() {
            return Err(FsError::AlreadyExists);
        }
        if name.len() > MAX_NAME_LEN {
            return Err(FsError::NameTooLong);
        }
        let n = match self.get_next_free_inode() {
            Some(n) => n as usize,
            None => {
                return Err(FsError::NoFreeInode);
            },
        };
        assert forall|n2: int| first_free(old(self).free_inodes@, n2) implies n2 == n by {
            if n2 < n {
                assert(old(self).free_inodes@[n2]);
            } else if n < n2 {
                assert(old(self).free_inodes@[n as int]);
            }
        }
        let mut target = Dir::new(name, n);
        target.init_dir(dir.inode_index);
        proof {
            lemma_fixed_text();
        }
        assert(target.items@[0]@ == self_item(n as u32));
        assert(target.items@[1]@ == parent_item(dir.inode_index as u32));
        assert(view_items(target.items@) =~= seq![self_item(n as u32), parent_item(dir.inode_index as u32)]);
        let own_len = target.to_block_bytes().len();
        let ghost before = view_items(dir.items@);
        dir.items.push(DirItem { inode_pos: n as u32, name: copy_bytes(name), typ: dir_kind(), size: 0 });
        assert(view_items(dir.items@) =~= before.push(
            ItemView { inode_pos: n as u32, name: name@, typ: kind_dir(), size: 0 },
        ));
        let parent_len = dir.to_block_bytes().len();
        let free = self.count_free_blocks();
        let held = self.count_data_blocks(dir.inode_index);
        if own_len > MAX_OBJECT_SIZE || parent_len > MAX_OBJECT_SIZE {
            dir.items.pop();
            assert(view_items(dir.items@) =~= before);
            return Err(FsError::CapacityExceeded);
        }
        let own_blocks = (own_len + BLOCK_SIZE - 1) / BLOCK_SIZE;
        if own_blocks > free || (parent_len + BLOCK_SIZE - 1) / BLOCK_SIZE > free - own_blocks + held {
            dir.items.pop();
            assert(view_items(dir.items@) =~= before);
            return Err(FsError::NoFreeBlock);
        }
        let ghost o = *self;
        self.take_inode(n, name);
        assert(self.owned(dir.inode_index as int) == o.owned(dir.inode_index as int));
        let ghost taken = *self;
        if let Err(e) = self.persist_dir(&target) {
            assert(false);
            return Err(e);
        }
        assert(self.owned(dir.inode_index as int) == o.owned(dir.inode_index as int));
        let ghost placed = *self;
        if let Err(e) = self.persist_dir(dir) {
            assert(false);
            return Err(e);
        }
        proof {
            assert forall|j: int| 0 <= j < NUM_INODES && j != n && j != dir.inode_index implies
                #[trigger] self.inodes@[j] == old(self).inodes@[j] && self.free_inodes@[j]
                == old(self).free_inodes@[j] && self.object_data(j) == old(self).object_data(j) by {
                assert(placed.inodes@[j] == old(self).inodes@[j]);
                assert(taken.inodes@[j] == old(self).inodes@[j]);
            }
            assert(placed.inodes@[n as int] == self.inodes@[n as int]);
        }
        Ok(target)
    }

    /// Creates the file `name` in `dir`: a new inode, and an item of kind `file` and size 0
    /// appended to `dir` and stored. A file does not check for an item of the same name.
    pub fn create_file(&mut self, dir: &mut Dir, name: &[u8]) -> (r: Result<File, FsError>)
        requires
            valid_utf8(name@),
            old(self).wf(),
            old(dir).inode_index < NUM_INODES,
            old(self).free_inodes@[old(dir).inode_index as int],
            forall|i: int| 0 <= i < old(dir).items@.len() ==> item_readable(#[trigger] old(dir).items@[i]@),
        ensures
            final(self).wf(),
            final(dir).inode_index == old(dir).inode_index,
            final(dir).name == old(dir).name,
            forall|i: int| 0 <= i < final(dir).items@.len() ==> item_readable(#[trigger] final(dir).items@[i]@),
            r == Err::<File, FsError>(FsError::NameTooLong) <==> name@.len() > MAX_NAME_LEN,
            r == Err::<File, FsError>(FsError::NoFreeInode) <==> name@.len() <= MAX_NAME_LEN
                && forall|q: int| 0 <= q < NUM_INODES ==> old(self).free_inodes@[q],
            forall|n: int|
                first_free(old(self).free_inodes@, n) && name@.len() <= MAX_NAME_LEN ==> (r is Ok <==> fits_blocks(
                    view_items(old(dir).items@).push(
                        ItemView { inode_pos: n as u32, name: name@, typ: kind_file(), size: 0 },
                    ),
                    (old(self).free_data_blocks() + old(self).owned(old(dir).inode_index as int).len()) as int,
                )),
            r is Err ==> *final(self) == *old(self),
            forall|j: int|
                0 <= j < NUM_INODES && (r matches Ok(x) ==> j != x.inode_index) && j != old(dir).inode_index
                    ==> #[trigger] final(self).inodes@[j] == old(self).inodes@[j]
                    && final(self).free_inodes@[j] == old(self).free_inodes@[j]
                    && final(self).object_data(j) == old(self).object_data(j),
            r is Err ==> view_items(final(dir).items@) == view_items(old(dir).items@),
            r is Err ==> r == Err::<File, FsError>(FsError::NameTooLong) || r == Err::<File, FsError>(FsError::NoFreeInode)
                || r == Err::<File, FsError>(FsError::NoFreeBlock) || r == Err::<File, FsError>(FsError::CapacityExceeded),
            r matches Ok(f) ==> {
                let n = f.inode_index as int;
                &&& n < NUM_INODES
                &&& !old(self).free_inodes@[n]
                &&& forall|q: int| 0 <= q < n ==> old(self).free_inodes@[q]
                &&& final(self).free_inodes@[n]
                &&& f.name@ == name@
                &&& final(self).inodes@[n]@ == (InodeView { name: name@, size: 0, block_pos: Seq::empty() })
                &&& f.size == 0
                &&& f.content@.len() == 0
                &&& final(self).object_data(n).len() == 0
                &&& view_items(final(dir).items@) == view_items(old(dir).items@).push(
                    ItemView { inode_pos: n as u32, name: name@, typ: kind_file(), size: 0 },
                )
                &&& final(self).stored_items(old(dir).inode_index as int) == Some(view_items(final(dir).items@))
            },
    {
        if name.len() > MAX_NAME_LEN {
            return Err(FsError::NameTooLong);
        }
        let n = match self.get_next_free_inode() {
            Some(n) => n as usize,
            None => {
                return Err(FsError::NoFreeInode);
            },
        };
        assert forall|n2: int| first_free(old(self).free_inodes@, n2) implies n2 == n by {
            if n2 < n {
                assert(old(self).free_inodes@[n2]);
            } else if n < n2 {
                assert(old(self).free_inodes@[n as int]);
            }
        }
        let ghost before = view_items(dir.items@);
        proof {
            lemma_fixed_text();
        }
        dir.items.push(DirItem { inode_pos: n as u32, name: copy_bytes(name), typ: file_kind(), size: 0 });
        assert(view_items(dir.items@) =~= before.push(
            ItemView { inode_pos: n as u32, name: name@, typ: kind_file(), size: 0 },
        ));
        let parent_len = dir.to_block_bytes().len();
        let free = self.count_free_blocks();
        let held = self.count_data_blocks(dir.inode_index);
        if parent_len > MAX_OBJECT_SIZE {
            dir.items.pop();
            assert(view_items(dir.items@) =~= before);
            return Err(FsError::CapacityExceeded);
        }
        if (parent_len + BLOCK_SIZE - 1) / BLOCK_SIZE > free + held {
            dir.items.pop();
            assert(view_items(dir.items@) =~= before);
            return Err(FsError::NoFreeBlock);
        }
        let ghost o = *self;
        self.take_inode(n, name);
        assert(self.owned(dir.inode_index as int) == o.owned(dir.inode_index as int));
        let ghost taken = *self;
        if let Err(e) = self.persist_dir(dir) {
            assert(false);
            return Err(e);
        }
        proof {
            assert forall|j: int| 0 <= j < NUM_INODES && j != n && j != dir.inode_index implies
                #[trigger] self.inodes@[j] == old(self).inodes@[j] && self.free_inodes@[j]
                == old(self).free_inodes@[j] && self.object_data(j) == old(self).object_data(j) by {
                assert(taken.inodes@[j] == old(self).inodes@[j]);
            }
        }
        proof {
            assert(self.owned(n as int).len() == 0);
            assert(self.owned(n as int).map_values(|b: u32| block_of(self.hardware.data@, b as int))
                =~= Seq::<Seq<u8>>::empty());
        }
        Ok(File::new(name, n))
    }
}

impl System {
    /// Stores `data` as the content of `file`, updates the handle, sets the size of each item
    /// of `dir` called like the file, and stores `dir`.
    #[verifier::rlimit(80)]
    pub fn write_file(&mut self, dir: &mut Dir, file: &mut File, data: &[u8]) -> (r: Result<(), FsError>)
        requires
            valid_utf8(data@),
            old(self).wf(),
            old(dir).inode_index < NUM_INODES,
            old(file).inode_index < NUM_INODES,
            forall|i: int| 0 <= i < old(dir).items@.len() ==> item_readable(#[trigger] old(dir).items@[i]@),
        ensures
            final(self).wf(),
            final(dir).inode_index == old(dir).inode_index,
            final(dir).name == old(dir).name,
            final(file).inode_index == old(file).inode_index,
            final(file).name == old(file).name,
            forall|i: int| 0 <= i < final(dir).items@.len() ==> item_readable(#[trigger] final(dir).items@[i]@),
            !old(self).free_inodes@[old(file).inode_index as int] ==> r == Err::<(), FsError>(FsError::NotFound),
            (!old(self).free_inodes@[old(dir).inode_index as int] || old(dir).inode_index == old(file).inode_index)
                && old(self).free_inodes@[old(file).inode_index as int] ==> r == Err::<(), FsError>(FsError::CorruptRecord),
            r == Err::<(), FsError>(FsError::CapacityExceeded) <== old(self).free_inodes@[old(file).inode_index as int]
                && old(self).free_inodes@[old(dir).inode_index as int] && old(dir).inode_index != old(file).inode_index
                && data@.len() > MAX_OBJECT_SIZE,
            r is Ok <==> {
                let after = old(self).free_data_blocks() + old(self).owned(old(file).inode_index as int).len()
                    - blocks_for(data@.len() as int);
                let dir_len = dir_bytes(with_size(view_items(old(dir).items@), old(file).name@, data@.len() as u32)).len();
                &&& old(self).free_inodes@[old(file).inode_index as int]
                &&& old(self).free_inodes@[old(dir).inode_index as int]
                &&& old(dir).inode_index != old(file).inode_index
                &&& data@.len() <= MAX_OBJECT_SIZE
                &&& blocks_for(data@.len() as int) <= old(self).free_data_blocks() + old(self).owned(
                    old(file).inode_index as int,
                ).len()
                &&& dir_len <= MAX_OBJECT_SIZE
                &&& blocks_for(dir_len as int) <= after + old(self).owned(old(dir).inode_index as int).len()
            },
            r is Err ==> *final(self) == *old(self) && *final(file) == *old(file) && *final(dir) == *old(dir),
            r is Ok ==> final(self).inodes@[old(file).inode_index as int].size == data@.len(),
            r is Ok ==> final(self).content_of(old(file).inode_index as int) == data@,
            r is Ok ==> final(self).owned(old(file).inode_index as int).len() == blocks_for(data@.len() as int)
                && final(self).inodes@[old(file).inode_index as int].block_pos@ == final(self).owned(
                old(file).inode_index as int,
            ) + Seq::new(
                (MAX_BLOCKS - final(self).owned(old(file).inode_index as int).len()) as nat,
                |i: int| 0u32,
            ),
            r is Ok ==> forall|j: int|
                0 <= j < NUM_INODES && j != old(file).inode_index && j != old(dir).inode_index
                    ==> #[trigger] final(self).inodes@[j] == old(self).inodes@[j]
                    && final(self).object_data(j) == old(self).object_data(j),
            final(self).free_inodes == old(self).free_inodes,
            r is Ok ==> {
                &&& final(file).content@ == data@
                &&& final(file).size == data@.len()
                &&& final(self).object_data(old(file).inode_index as int) == data@ + zeros(
                    blocks_for(data@.len() as int) * BLOCK_SIZE - data@.len(),
                )
                &&& view_items(final(dir).items@) == with_size(view_items(old(dir).items@), old(file).name@, data@.len() as u32)
                &&& final(self).stored_items(old(dir).inode_index as int) == Some(view_items(final(dir).items@))
            },
    {
        if !self.free_inodes[file.inode_index] {
            return Err(FsError::NotFound);
        }
        if !self.free_inodes[dir.inode_index] || dir.inode_index == file.inode_index {
            return Err(FsError::CorruptRecord);
        }
        if data.len() > MAX_OBJECT_SIZE {
            return Err(FsError::CapacityExceeded);
        }
        let dir_len = dir.to_block_bytes().len();
        proof {
            lemma_with_size_len(view_items(dir.items@), file.name@, data@.len() as u32);
        }
        if dir_len > MAX_OBJECT_SIZE {
            return Err(FsError::CapacityExceeded);
        }
        let free = self.count_free_blocks();
        let held_file = self.count_data_blocks(file.inode_index);
        let held_dir = self.count_data_blocks(dir.inode_index);
        let need = (data.len() + BLOCK_SIZE - 1) / BLOCK_SIZE;
        if need > free + held_file || (dir_len + BLOCK_SIZE - 1) / BLOCK_SIZE > free + held_file - need + held_dir {
            return Err(FsError::NoFreeBlock);
        }
        let ghost o = *self;
        if let Err(e) = self.write_with_inode(file.inode_index, data) {
            assert(false);
            return Err(e);
        }
        assert(self.owned(dir.inode_index as int) == o.owned(dir.inode_index as int));
        let len = data.len() as u32;
        file.content = copy_bytes(data);
        file.size = len;
        let ghost items0 = view_items(dir.items@);
        let mut i: usize = 0;
        while i < dir.items.len()
            invariant
                i <= dir.items@.len() == items0.len(),
                forall|q: int| 0 <= q < dir.items@.len() ==> item_readable(#[trigger] dir.items@[q]@),
                forall|q: int| 0 <= q < items0.len() ==> item_readable(#[trigger] items0[q]),
                forall|q: int| 0 <= q < i ==> #[trigger] view_items(dir.items@)[q] == with_size(items0, file.name@, len)[q],
                forall|q: int| i <= q < items0.len() ==> #[trigger] view_items(dir.items@)[q] == items0[q],
                dir.inode_index == old(dir).inode_index,
                dir.name == old(dir).name,
            decreases items0.len() - i,
        {
            let ghost prev = dir.items@;
            assert(view_items(prev)[i as int] == items0[i as int]);
            if bytes_eq(dir.items[i].name.as_slice(), file.name.as_slice()) {
                dir.items[i].size = len;
            }
            proof {
                assert(dir.items@[i as int]@ == with_size(items0, file.name@, len)[i as int]);
                assert forall|q: int| 0 <= q < dir.items@.len() implies item_readable(
                    #[trigger] dir.items@[q]@,
                ) by {
                    if q != i {
                        assert(dir.items@[q] == prev[q]);
                    }
                }
                assert forall|q: int| 0 <= q < i + 1 implies #[trigger] view_items(dir.items@)[q]
                    == with_size(items0, file.name@, len)[q] by {
                    assert(view_items(dir.items@)[q] == dir.items@[q]@);
                    assert(view_items(prev)[q] == prev[q]@);
                    if q != i {
                        assert(dir.items@[q] == prev[q]);
                    }
                }
                assert forall|q: int| i + 1 <= q < items0.len() implies #[trigger] view_items(
                    dir.items@,
                )[q] == items0[q] by {
                    assert(view_items(dir.items@)[q] == dir.items@[q]@);
                    assert(view_items(prev)[q] == prev[q]@);
                    assert(dir.items@[q] == prev[q]);
                }
            }
            i = i + 1;
        }
        assert(view_items(dir.items@) =~= with_size(items0, file.name@, len));
        let ghost written = *self;
        assert(written.owned(dir.inode_index as int) == old(self).owned(dir.inode_index as int));
        if let Err(e) = self.persist_dir(dir) {
            assert(false);
            return Err(e);
        }
        assert(self.object_data(file.inode_index as int) == written.object_data(file.inode_index as int));
        proof {
            crate::fs::lemma_content_read_back(data@);
            assert(self.inodes@[file.inode_index as int] == written.inodes@[file.inode_index as int]);
        }
        Ok(())
    }

    /// The content of `file`: as many bytes of its inode as its stored size.
    pub fn read_file(&self, file: &File) -> (r: Vec<u8>)
        requires
            self.wf(),
            file.inode_index < NUM_INODES,
        ensures
            r@ == self.content_of(file.inode_index as int),
    {
        self.read_content(file.inode_index)
    }

    /// The first `size` bytes of inode `i`, or all of them where it holds fewer.
    pub open spec fn content_of(&self, i: int) -> Seq<u8> {
        let d = self.object_data(i);
        let n = self.inodes@[i].size as int;
        if n <= d.len() {
            d.take(n)
        } else {
            d
        }
    }

    /// The stored content of inode `i`.
    fn read_content(&self, i: usize) -> (r: Vec<u8>)
        requires
            self.wf(),
            i < NUM_INODES,
        ensures
            r@ == self.content_of(i as int),
            r@.len() <= u32::MAX,
    {
        let mut data = self.read_inode_data(i);
        proof {
            self.lemma_object_data_len(i as int);
        }
        data.truncate(self.inodes[i].size as usize);
        assert(data@ =~= self.content_of(i as int));
        data
    }

    /// The file called `name` in `dir`, read from its inode; where `dir` holds no item of
    /// that name, a new file is created as `create_file` does.
    pub fn open_file(&mut self, dir: &mut Dir, name: &[u8]) -> (r: Result<File, FsError>)
        requires
            valid_utf8(name@),
            old(self).wf(),
            old(dir).inode_index < NUM_INODES,
            old(self).free_inodes@[old(dir).inode_index as int],
            forall|i: int| 0 <= i < old(dir).items@.len() ==> item_readable(#[trigger] old(dir).items@[i]@),
        ensures
            final(self).wf(),
            final(dir).inode_index == old(dir).inode_index,
            forall|i: int| 0 <= i < final(dir).items@.len() ==> item_readable(#[trigger] final(dir).items@[i]@),
            forall|k: int|
                first_named(view_items(old(dir).items@), name@, k) ==> {
                    let t = old(dir).items@[k].inode_pos as int;
                    &&& *final(self) == *old(self)
                    &&& *final(dir) == *old(dir)
                    &&& t >= NUM_INODES ==> r == Err::<File, FsError>(FsError::CorruptRecord)
                    &&& t < NUM_INODES ==> (r matches Ok(f) && f.inode_index == t && f.name@ == name@
                        && f.content@ == old(self).content_of(t) && f.size == f.content@.len())
                },
            !has_name(view_items(old(dir).items@), name@) ==> {
                &&& r == Err::<File, FsError>(FsError::NoFreeInode) <==> name@.len() <= MAX_NAME_LEN
                    && forall|q: int| 0 <= q < NUM_INODES ==> old(self).free_inodes@[q]
                &&& forall|n: int|
                    first_free(old(self).free_inodes@, n) && name@.len() <= MAX_NAME_LEN ==> (r is Ok <==> fits_blocks(
                        view_items(old(dir).items@).push(
                            ItemView { inode_pos: n as u32, name: name@, typ: kind_file(), size: 0 },
                        ),
                        (old(self).free_data_blocks() + old(self).owned(old(dir).inode_index as int).len()) as int,
                    ))
                &&& r is Err ==> *final(self) == *old(self) && view_items(final(dir).items@) == view_items(old(dir).items@)
                &&& r is Ok ==> final(self).stored_items(old(dir).inode_index as int) == Some(view_items(final(dir).items@))
                &&& r == Err::<File, FsError>(FsError::NameTooLong) <==> name@.len() > MAX_NAME_LEN
                &&& r matches Ok(f) ==> f.name@ == name@ && f.size == 0 && final(self).free_inodes@[f.inode_index as int]
                    && !old(self).free_inodes@[f.inode_index as int]
                    && view_items(final(dir).items@) == view_items(old(dir).items@).push(
                        ItemView { inode_pos: f.inode_index as u32, name: name@, typ: kind_file(), size: 0 },
                    )
            },
    {
        match find_item(&dir.items, name) {
            Some(k) => {
                proof {
                    let items = view_items(dir.items@);
                    assert forall|k2: int| first_named(items, name@, k2) implies k2 == k by {
                        if k2 < k {
                            assert(items[k2].name != name@);
                        } else if k < k2 {
                            assert(items[k as int] == dir.items@[k as int]@);
                        }
                    }
                    assert(items[k as int] == dir.items@[k as int]@);
                }
                let t = dir.items[k].inode_pos as usize;
                if t >= NUM_INODES {
                    return Err(FsError::CorruptRecord);
                }
                let content = self.read_content(t);
                let size = content.len() as u32;
                Ok(File { name: copy_bytes(dir.items[k].name.as_slice()), inode_index: t, size, content })
            },
            None => self.create_file(dir, name),
        }
    }
}

/// Whether a name is `.` or `..`.
pub open spec fn is_dot_name(name: Seq<u8>) -> bool {
    name == seq![46u8] || name == seq![46u8, 46u8]
}

/// Whether `name` is `.` or `..`.
pub(crate) fn dot_name(name: &[u8]) -> (r: bool)
    ensures
        r == is_dot_name(name@),
{
    let dot = [46u8];
    let dot_dot = [46u8, 46u8];
    assert(dot@ =~= seq![46u8]);
    assert(dot_dot@ =~= seq![46u8, 46u8]);
    bytes_eq(name, dot.as_slice()) || bytes_eq(name, dot_dot.as_slice())
}

impl System {
    /// Removes the file called `name` from `dir`: its item is removed and `dir` stored, then
    /// its inode and blocks are freed. Nothing changes where a step fails.
    pub fn remove_file(&mut self, dir: &mut Dir, name: &[u8]) -> (r: Result<(), FsError>)
        requires
            old(self).wf(),
            old(dir).inode_index < NUM_INODES,
            forall|i: int| 0 <= i < old(dir).items@.len() ==> item_readable(#[trigger] old(dir).items@[i]@),
        ensures
            final(self).wf(),
            final(dir).inode_index == old(dir).inode_index,
            forall|i: int| 0 <= i < final(dir).items@.len() ==> item_readable(#[trigger] final(dir).items@[i]@),
            r is Err ==> r == Err::<(), FsError>(FsError::NotFound) || r == Err::<(), FsError>(
                FsError::CorruptRecord,
            ) || r == Err::<(), FsError>(FsError::NoFreeBlock) || r == Err::<(), FsError>(
                FsError::CapacityExceeded,
            ),
            r is Err ==> *final(self) == *old(self) && view_items(final(dir).items@) == view_items(old(dir).items@),
            r == Err::<(), FsError>(FsError::NotFound) <==> !has_name_kind(view_items(old(dir).items@), name@, kind_file()),
            forall|k: int|
                first_named_kind(view_items(old(dir).items@), name@, kind_file(), k) ==> {
                    let t = old(dir).items@[k].inode_pos as int;
                    let d = old(dir).inode_index as int;
                    let rest = view_items(old(dir).items@).remove(k);
                    &&& t < NUM_INODES && t != d && old(self).free_inodes@[d] && fits_blocks(
                        rest,
                        (old(self).free_data_blocks() + old(self).owned(d).len()) as int,
                    ) ==> r is Ok
                    &&& r is Ok ==> {
                        &&& t < NUM_INODES
                        &&& view_items(final(dir).items@) == rest
                        &&& final(self).stored_items(d) == Some(rest)
                        &&& freed(*old(self), *final(self), t)
                        &&& forall|j: int|
                            0 <= j < NUM_INODES && j != t && j != d ==> #[trigger] kept(*old(self), *final(self), j)
                    }
                },
    {
        let k = match find_item_kind(&dir.items, name, file_kind().as_slice()) {
            Some(k) => k,
            None => {
                return Err(FsError::NotFound);
            },
        };
        assert(view_items(dir.items@)[k as int] == dir.items@[k as int]@);
        assert forall|k2: int| first_named_kind(view_items(dir.items@), name@, kind_file(), k2) implies k2 == k by {
            if k2 < k {
                assert(view_items(dir.items@)[k2] == dir.items@[k2]@);
            } else if k < k2 {
                assert(view_items(dir.items@)[k as int] == dir.items@[k as int]@);
            }
        }
        let t = dir.items[k].inode_pos as usize;
        let d = dir.inode_index;
        if t >= NUM_INODES || t == d || !self.free_inodes[d] {
            return Err(FsError::CorruptRecord);
        }
        let ghost items0 = view_items(dir.items@);
        let it = dir.items.remove(k);
        assert(view_items(dir.items@) =~= items0.remove(k as int));
        assert forall|i: int| 0 <= i < dir.items@.len() implies item_readable(#[trigger] dir.items@[i]@) by {
            if i >= k {
                assert(dir.items@[i] == old(dir).items@[i + 1]);
            } else {
                assert(dir.items@[i] == old(dir).items@[i]);
            }
        }
        if let Err(e) = self.persist_dir(dir) {
            dir.items.insert(k, it);
            assert(view_items(dir.items@) =~= items0);
            return Err(e);
        }
        let ghost s1 = *self;
        self.remove_inode_data(t);
        proof {
            assert(kept(*old(self), s1, t as int));
            assert(old(self).owned(t as int) == s1.owned(t as int));
            assert forall|m: int| 0 <= m < old(self).owned(t as int).len() implies !self.free_blocks@[old(self).owned(
                t as int,
            )[m] as int] && block_of(self.hardware.data@, #[trigger] old(self).owned(t as int)[m] as int) == zeros(
                BLOCK_SIZE as int,
            ) by {
                assert(s1.owned(t as int).contains(s1.owned(t as int)[m]));
            }
            assert forall|j: int| 0 <= j < NUM_INODES && j != t && j != d implies #[trigger] kept(
                *old(self),
                *self,
                j,
            ) by {
                assert(s1.inodes@[j] == old(self).inodes@[j]);
            }
        }
        Ok(())
    }

    /// Removes the directory called `name` from `root`: its item is removed and `root` stored,
    /// then every inode under it (its directories and their files, found before anything
    /// changes) is freed with its blocks. Nothing changes where a step fails.
    pub fn remove_dir(&mut self, root: &mut Dir, name: &[u8]) -> (r: Result<(), FsError>)
        requires
            old(self).wf(),
            old(root).inode_index < NUM_INODES,
            forall|i: int| 0 <= i < old(root).items@.len() ==> item_readable(#[trigger] old(root).items@[i]@),
        ensures
            final(self).wf(),
            final(root).inode_index == old(root).inode_index,
            forall|i: int| 0 <= i < final(root).items@.len() ==> item_readable(#[trigger] final(root).items@[i]@),
            r is Err ==> r == Err::<(), FsError>(FsError::NotFound) || r == Err::<(), FsError>(
                FsError::CorruptRecord,
            ) || r == Err::<(), FsError>(FsError::NoFreeBlock) || r == Err::<(), FsError>(
                FsError::CapacityExceeded,
            ),
            r is Err ==> *final(self) == *old(self) && view_items(final(root).items@) == view_items(old(root).items@),
            r == Err::<(), FsError>(FsError::NotFound) <==> !has_name_kind(view_items(old(root).items@), name@, kind_dir()),
            forall|k: int|
                first_named_kind(view_items(old(root).items@), name@, kind_dir(), k) ==> {
                    let t = old(root).items@[k].inode_pos as int;
                    let d = old(root).inode_index as int;
                    let rest = view_items(old(root).items@).remove(k);
                    &&& t < NUM_INODES && t != d && old(self).free_inodes@[d] && subtree_sound(*old(self), t)
                        && !in_subtree(*old(self), t, d) && fits_blocks(
                        rest,
                        (old(self).free_data_blocks() + old(self).owned(d).len()) as int,
                    ) ==> r is Ok
                    &&& r is Ok ==> {
                        &&& t < NUM_INODES
                        &&& view_items(final(root).items@) == rest
                        &&& final(self).stored_items(d) == Some(rest)
                        &&& forall|j: int|
                            0 <= j < NUM_INODES && #[trigger] in_subtree(*old(self), t, j) ==> freed(
                                *old(self),
                                *final(self),
                                j,
                            )
                        &&& forall|j: int|
                            0 <= j < NUM_INODES && !#[trigger] in_subtree(*old(self), t, j) && j != d
                                ==> kept(*old(self), *final(self), j)
                    }
                },
    {
        let k = match find_item_kind(&root.items, name, dir_kind().as_slice()) {
            Some(k) => k,
            None => {
                return Err(FsError::NotFound);
            },
        };
        assert(view_items(root.items@)[k as int] == root.items@[k as int]@);
        assert forall|k2: int| first_named_kind(view_items(root.items@), name@, kind_dir(), k2) implies k2 == k by {
            if k2 < k {
                assert(view_items(root.items@)[k2] == root.items@[k2]@);
            } else if k < k2 {
                assert(view_items(root.items@)[k as int] == root.items@[k as int]@);
            }
        }
        let t = root.items[k].inode_pos as usize;
        let d = root.inode_index;
        if t >= NUM_INODES || t == d || !self.free_inodes[d] {
            return Err(FsError::CorruptRecord);
        }
        let sub = match subtree_marks(self, t) {
            Ok(v) => v,
            Err(e) => {
                return Err(e);
            },
        };
        if sub[d] {
            return Err(FsError::CorruptRecord);
        }
        let ghost items0 = view_items(root.items@);
        let it = root.items.remove(k);
        assert(view_items(root.items@) =~= items0.remove(k as int));
        assert forall|i: int| 0 <= i < root.items@.len() implies item_readable(#[trigger] root.items@[i]@) by {
            if i >= k {
                assert(root.items@[i] == old(root).items@[i + 1]);
            } else {
                assert(root.items@[i] == old(root).items@[i]);
            }
        }
        if let Err(e) = self.persist_dir(root) {
            root.items.insert(k, it);
            assert(view_items(root.items@) =~= items0);
            return Err(e);
        }
        let ghost s1 = *self;
        let mut j: usize = 0;
        while j < NUM_INODES
            invariant
                self.wf(),
                s1.wf(),
                j <= NUM_INODES,
                d < NUM_INODES,
                t < NUM_INODES,
                sub@.len() == NUM_INODES,
                !sub@[d as int],
                forall|x: int| 0 <= x < NUM_INODES ==> #[trigger] sub@[x] == in_subtree(*old(self), t as int, x),
                forall|x: int| 0 <= x < NUM_INODES && x != d ==> #[trigger] kept(*old(self), s1, x),
                forall|x: int| 0 <= x < j && #[trigger] sub@[x] ==> freed(s1, *self, x),
                forall|x: int| 0 <= x < NUM_INODES && (x >= j || !sub@[x]) ==> #[trigger] kept(s1, *self, x),
                self.stored_items(d as int) == s1.stored_items(d as int),
            decreases NUM_INODES - j,
        {
            if sub[j] {
                let ghost before = *self;
                assert(kept(s1, before, j as int));
                self.remove_inode_data(j);
                proof {
                    assert(before.owned(j as int) == s1.owned(j as int));
                    assert forall|x: int| 0 <= x < j + 1 && #[trigger] sub@[x] implies freed(s1, *self, x) by {
                        if x < j {
                            assert(freed(s1, before, x));
                            assert(self.inodes@[x] == before.inodes@[x]);
                            assert forall|m: int| 0 <= m < s1.owned(x).len() implies !self.free_blocks@[s1.owned(x)[m] as int]
                                && block_of(self.hardware.data@, #[trigger] s1.owned(x)[m] as int) == zeros(BLOCK_SIZE as int) by {
                                let c = s1.owned(x)[m];
                                if before.owned(j as int).contains(c) {
                                    let q = choose|q: int| 0 <= q < before.owned(j as int).len() && #[trigger] before.owned(j as int)[q] == c;
                                    assert(s1.owned(j as int)[q] == s1.owned(x)[m]);
                                }
                                assert(block_of(before.hardware.data@, c as int) == zeros(BLOCK_SIZE as int));
                            }
                        } else {
                            assert forall|m: int| 0 <= m < s1.owned(x).len() implies !self.free_blocks@[s1.owned(x)[m] as int]
                                && block_of(self.hardware.data@, #[trigger] s1.owned(x)[m] as int) == zeros(BLOCK_SIZE as int) by {
                                assert(before.owned(j as int)[m] == s1.owned(x)[m]);
                                assert(before.owned(j as int).contains(s1.owned(x)[m]));
                            }
                        }
                    }
                    assert forall|x: int| 0 <= x < NUM_INODES && (x >= j + 1 || !sub@[x]) implies #[trigger] kept(
                        s1,
                        *self,
                        x,
                    ) by {
                        assert(kept(s1, before, x));
                        assert(x != j);
                    }
                    assert(kept(s1, *self, d as int));
                }
            }
            j = j + 1;
        }
        proof {
            assert forall|x: int| 0 <= x < NUM_INODES && #[trigger] in_subtree(*old(self), t as int, x) implies freed(
                *old(self),
                *self,
                x,
            ) by {
                assert(sub@[x]);
                assert(freed(s1, *self, x));
                assert(x != d);
                assert(kept(*old(self), s1, x));
                assert(old(self).owned(x) == s1.owned(x));
            }
            assert forall|x: int| 0 <= x < NUM_INODES && !#[trigger] in_subtree(*old(self), t as int, x) && x != d
                implies kept(*old(self), *self, x) by {
                assert(!sub@[x]);
                assert(kept(*old(self), s1, x));
                assert(kept(s1, *self, x));
            }
        }
        Ok(())
    }
}

/// What freeing inode `x` leaves, against the state `base` it started from: its record
/// cleared, its slot free, no blocks, and each of its former blocks free and zero-filled.
pub open spec fn freed(base: System, s: System, x: int) -> bool {
    &&& s.inodes@[x]@ == (InodeView { name: Seq::empty(), size: 0, block_pos: Seq::empty() })
    &&& !s.free_inodes@[x]
    &&& s.owned(x).len() == 0
    &&& forall|m: int|
        0 <= m < base.owned(x).len() ==> !s.free_blocks@[base.owned(x)[m] as int] && block_of(
            s.hardware.data@,
            #[trigger] base.owned(x)[m] as int,
        ) == zeros(BLOCK_SIZE as int)
}

/// Whether inode `x` keeps its record, its slot and its bytes from `base` to `s`.
pub open spec fn kept(base: System, s: System, x: int) -> bool {
    &&& s.inodes@[x] == base.inodes@[x]
    &&& s.free_inodes@[x] == base.free_inodes@[x]
    &&& s.object_data(x) == base.object_data(x)
}

/// Removing item `k` (whose inode slot is then free) and creating an object afterwards
/// (which takes the first free slot `n` and appends its item) reuses a slot no higher than the
/// one freed, and keeps every other item, in order, ahead of the new one.
pub proof fn lemma_remove_then_create(
    items: Seq<ItemView>,
    k: int,
    fi: Seq<bool>,
    n: int,
    created: ItemView,
)
    requires
        0 <= k < items.len(),
        items[k].inode_pos < NUM_INODES,
        fi.len() == NUM_INODES,
        !fi[items[k].inode_pos as int],
        first_free(fi, n),
    ensures
        n <= items[k].inode_pos,
        items.remove(k).push(created).len() == items.len(),
        forall|q: int| 0 <= q < k ==> #[trigger] items.remove(k).push(created)[q] == items[q],
        forall|q: int| k < q < items.len() ==> items.remove(k).push(created)[q - 1] == #[trigger] items[q],
        items.remove(k).push(created)[items.len() - 1] == created,
{
}

} // verus!
