use crate::bytes::{copy_bytes, copy_range, le_bytes, le_value, lemma_flatten_take_next, lemma_le_round_trip, push_u32, read_u32};
use crate::bytes::{lemma_ascii_utf8, utf8_valid};
use crate::error::FsError;
use vstd::utf8::valid_utf8;
use vstd::prelude::*;

verus! {

/// The word that ends the record stream of a directory.
pub const DIR_END: u32 = 0xDEADBEAF;

/// One child of a directory: its inode, name, kind (`dir` or `file`) and size.
#[derive(Debug)]
pub struct DirItem {
    pub inode_pos: u32,
    pub name: Vec<u8>,
    pub typ: Vec<u8>,
    pub size: u32,
}

/// The mathematical value of a directory item.
pub struct ItemView {
    pub inode_pos: u32,
    pub name: Seq<u8>,
    pub typ: Seq<u8>,
    pub size: u32,
}

impl View for DirItem {
    type V = ItemView;

    open spec fn view(&self) -> ItemView {
        ItemView { inode_pos: self.inode_pos, name: self.name@, typ: self.typ@, size: self.size }
    }
}

/// A directory as held in memory: its name, its inode and its children.
#[derive(Debug)]
pub struct Dir {
    pub name: Vec<u8>,
    pub inode_index: usize,
    pub items: Vec<DirItem>,
}

/// The values of a list of items.
pub open spec fn view_items(v: Seq<DirItem>) -> Seq<ItemView> {
    v.map_values(|it: DirItem| it@)
}

/// The record of one item: inode, name length, name, kind length, kind, size.
pub open spec fn item_bytes(it: ItemView) -> Seq<u8> {
    le_bytes(it.inode_pos) + le_bytes(it.name.len() as u32) + it.name + le_bytes(
        it.typ.len() as u32,
    ) + it.typ + le_bytes(it.size)
}

/// The records of the items, one after another.
pub open spec fn items_bytes(items: Seq<ItemView>) -> Seq<u8> {
    items.map_values(|it: ItemView| item_bytes(it)).flatten()
}

/// The encoding of a directory: its records, then the end word.
pub open spec fn dir_bytes(items: Seq<ItemView>) -> Seq<u8> {
    items_bytes(items) + le_bytes(DIR_END)
}

/// Whether the lengths of an item's name and kind fit their 32-bit fields.
pub open spec fn item_fits(it: ItemView) -> bool {
    it.name.len() <= u32::MAX && it.typ.len() <= u32::MAX
}

/// Whether an item is written and read back whole: it fits, its inode is not the end word,
/// and its name and kind are text.
pub open spec fn item_readable(it: ItemView) -> bool {
    item_fits(it) && it.inode_pos != DIR_END && valid_utf8(it.name) && valid_utf8(it.typ)
}

/// `Some(acc + r)` where `o` is `Some(r)`.
pub open spec fn prepend(acc: Seq<ItemView>, o: Option<Seq<ItemView>>) -> Option<Seq<ItemView>> {
    match o {
        Some(r) => Some(acc + r),
        None => None,
    }
}

/// The name length held in the record at the start of `s`.
pub open spec fn name_len_at(s: Seq<u8>) -> int {
    le_value(s.subrange(4, 8)) as int
}

/// The kind length held in the record at the start of `s`.
pub open spec fn typ_len_at(s: Seq<u8>) -> int {
    let nl = name_len_at(s);
    le_value(s.subrange(8 + nl, 12 + nl)) as int
}

/// Where the record at the start of `s` ends.
pub open spec fn record_end(s: Seq<u8>) -> int {
    16 + name_len_at(s) + typ_len_at(s)
}

/// Whether `s` starts with a whole record.
pub open spec fn record_whole(s: Seq<u8>) -> bool {
    &&& s.len() >= 8
    &&& s.len() >= 12 + name_len_at(s)
    &&& s.len() >= record_end(s)
}

/// The item of the record at the start of `s`.
pub open spec fn item_at(s: Seq<u8>) -> ItemView {
    let nl = name_len_at(s);
    let tl = typ_len_at(s);
    ItemView {
        inode_pos: le_value(s.subrange(0, 4)),
        name: s.subrange(8, 8 + nl),
        typ: s.subrange(12 + nl, 12 + nl + tl),
        size: le_value(s.subrange(12 + nl + tl, 16 + nl + tl)),
    }
}

/// Whether `s` starts with the end word.
pub open spec fn at_end_word(s: Seq<u8>) -> bool {
    s.len() >= 4 && le_value(s.subrange(0, 4)) == DIR_END
}

/// The items that a record stream holds, up to the end word or the end of the bytes;
/// `None` where a record is cut short.
#[verifier::opaque]
pub open spec fn parse_items(s: Seq<u8>) -> Option<Seq<ItemView>>
    decreases s.len(),
{
    if s.len() == 0 || at_end_word(s) {
        Some(Seq::empty())
    } else if !record_whole(s) || !valid_utf8(item_at(s).name) || !valid_utf8(item_at(s).typ) {
        None
    } else {
        prepend(seq![item_at(s)], parse_items(s.subrange(record_end(s), s.len() as int)))
    }
}

/// One step of the parse: what `parse_items` gives on `s`, in terms of the rest.
pub proof fn lemma_parse_step(s: Seq<u8>)
    ensures
        s.len() == 0 || at_end_word(s) ==> parse_items(s) == Some(Seq::<ItemView>::empty()),
        !(s.len() == 0 || at_end_word(s)) && !(record_whole(s) && valid_utf8(item_at(s).name)
            && valid_utf8(item_at(s).typ)) ==> parse_items(s) is None,
        !(s.len() == 0 || at_end_word(s)) && record_whole(s) && valid_utf8(item_at(s).name)
            && valid_utf8(item_at(s).typ) ==> parse_items(s) == prepend(
            seq![item_at(s)],
            parse_items(s.subrange(record_end(s), s.len() as int)),
        ),
{
    reveal(parse_items);
}

/// Every item that a record stream holds is written and read back whole.
pub proof fn lemma_parsed_readable(s: Seq<u8>)
    ensures
        parse_items(s) matches Some(v) ==> forall|i: int|
            0 <= i < v.len() ==> item_readable(#[trigger] v[i]),
    decreases s.len(),
{
    lemma_parse_step(s);
    if !(s.len() == 0 || at_end_word(s)) && record_whole(s) && valid_utf8(item_at(s).name)
        && valid_utf8(item_at(s).typ) {
        let rest = s.subrange(record_end(s), s.len() as int);
        lemma_parsed_readable(rest);
        if let Some(v) = parse_items(s) {
            let r = parse_items(rest).unwrap();
            assert(v == seq![item_at(s)] + r);
            assert forall|i: int| 0 <= i < v.len() implies item_readable(#[trigger] v[i]) by {
                if i > 0 {
                    assert(v[i] == r[i - 1]);
                }
            }
        }
    }
}

/// The records of a non-empty list: the first item's record, then the rest.
pub proof fn lemma_items_bytes_first(items: Seq<ItemView>)
    requires
        items.len() > 0,
    ensures
        items_bytes(items) == item_bytes(items[0]) + items_bytes(items.drop_first()),
{
    let words = items.map_values(|x: ItemView| item_bytes(x));
    assert(words.drop_first() =~= items.drop_first().map_values(|x: ItemView| item_bytes(x)));
}

/// Lists whose items have records of the same lengths have encodings of the same length.
pub proof fn lemma_same_record_lengths(a: Seq<ItemView>, b: Seq<ItemView>)
    requires
        a.len() == b.len(),
        forall|i: int| 0 <= i < a.len() ==> #[trigger] item_bytes(a[i]).len() == item_bytes(b[i]).len(),
    ensures
        dir_bytes(a).len() == dir_bytes(b).len(),
    decreases a.len(),
{
    if a.len() > 0 {
        assert forall|i: int| 0 <= i < a.len() - 1 implies #[trigger] item_bytes(a.drop_first()[i]).len()
            == item_bytes(b.drop_first()[i]).len() by {
            assert(a.drop_first()[i] == a[i + 1]);
            assert(b.drop_first()[i] == b[i + 1]);
        }
        lemma_same_record_lengths(a.drop_first(), b.drop_first());
        lemma_items_bytes_first(a);
        lemma_items_bytes_first(b);
        assert(item_bytes(a[0]).len() == item_bytes(b[0]).len());
    } else {
        assert(a =~= b);
    }
}

/// Decoding the encoding of a directory, followed by any bytes, gives its items back.
pub proof fn lemma_dir_round_trip(items: Seq<ItemView>, tail: Seq<u8>)
    requires
        forall|i: int| 0 <= i < items.len() ==> item_readable(#[trigger] items[i]),
    ensures
        parse_items(dir_bytes(items) + tail) == Some(items),
    decreases items.len(),
{
    lemma_le_round_trip(DIR_END);
    let s = dir_bytes(items) + tail;
    lemma_parse_step(s);
    if items.len() == 0 {
        assert(items.map_values(|it: ItemView| item_bytes(it)) =~= Seq::<Seq<u8>>::empty());
        assert(s.subrange(0, 4) =~= le_bytes(DIR_END));
        assert(items =~= Seq::<ItemView>::empty());
    } else {
        let it = items[0];
        let rest = items.drop_first();
        assert forall|i: int| 0 <= i < rest.len() implies item_readable(#[trigger] rest[i]) by {
            assert(rest[i] == items[i + 1]);
        }
        lemma_dir_round_trip(rest, tail);
        lemma_items_bytes_first(items);
        let r = dir_bytes(rest) + tail;
        assert(s =~= item_bytes(it) + r);
        lemma_record_of(it, r);
        assert(seq![it] + rest =~= items);
    }
}

/// The record of a readable item, followed by any bytes, reads back as that item.
proof fn lemma_record_of(it: ItemView, r: Seq<u8>)
    requires
        item_readable(it),
    ensures
        ({
            let s = item_bytes(it) + r;
            &&& !at_end_word(s)
            &&& s.len() > 0
            &&& record_whole(s)
            &&& item_at(s) == it
            &&& s.subrange(record_end(s), s.len() as int) == r
        }),
{
    let s = item_bytes(it) + r;
    lemma_le_round_trip(it.inode_pos);
    lemma_le_round_trip(it.name.len() as u32);
    lemma_le_round_trip(it.typ.len() as u32);
    lemma_le_round_trip(it.size);
    let nl = it.name.len() as int;
    let tl = it.typ.len() as int;
    assert(s.subrange(0, 4) =~= le_bytes(it.inode_pos));
    assert(s.subrange(4, 8) =~= le_bytes(nl as u32));
    assert(name_len_at(s) == nl);
    assert(s.subrange(8, 8 + nl) =~= it.name);
    assert(s.subrange(8 + nl, 12 + nl) =~= le_bytes(tl as u32));
    assert(typ_len_at(s) == tl);
    assert(s.subrange(12 + nl, 12 + nl + tl) =~= it.typ);
    assert(s.subrange(12 + nl + tl, 16 + nl + tl) =~= le_bytes(it.size));
    assert(s.subrange(16 + nl + tl, s.len() as int) =~= r);
}

/// The kind of a directory item that is a directory: `dir`.
pub open spec fn kind_dir() -> Seq<u8> {
    seq![100u8, 105u8, 114u8]
}

/// The kind of a directory item that is a file: `file`.
pub open spec fn kind_file() -> Seq<u8> {
    seq![102u8, 105u8, 108u8, 101u8]
}

/// The item `.` that a directory at inode `me` holds for itself.
pub open spec fn self_item(me: u32) -> ItemView {
    ItemView { inode_pos: me, name: seq![46u8], typ: kind_dir(), size: 0 }
}

/// The item `..` that a directory holds for its parent at inode `parent`.
pub open spec fn parent_item(parent: u32) -> ItemView {
    ItemView { inode_pos: parent, name: seq![46u8, 46u8], typ: kind_dir(), size: 0 }
}

/// The fixed names and kinds are text.
pub proof fn lemma_fixed_text()
    ensures
        valid_utf8(seq![46u8]),
        valid_utf8(seq![46u8, 46u8]),
        valid_utf8(seq![47u8]),
        valid_utf8(kind_dir()),
        valid_utf8(kind_file()),
{
    lemma_ascii_utf8(seq![46u8]);
    lemma_ascii_utf8(seq![46u8, 46u8]);
    lemma_ascii_utf8(seq![47u8]);
    lemma_ascii_utf8(kind_dir());
    lemma_ascii_utf8(kind_file());
}

/// The bytes `dir`.
pub fn dir_kind() -> (r: Vec<u8>)
    ensures
        r@ == kind_dir(),
        valid_utf8(r@),
{
    let r = vec![100u8, 105u8, 114u8];
    assert(r@ =~= kind_dir());
    proof {
        lemma_ascii_utf8(r@);
    }
    r
}

/// The bytes `file`.
pub fn file_kind() -> (r: Vec<u8>)
    ensures
        r@ == kind_file(),
        valid_utf8(r@),
{
    let r = vec![102u8, 105u8, 108u8, 101u8];
    assert(r@ =~= kind_file());
    proof {
        lemma_ascii_utf8(r@);
    }
    r
}

impl Dir {
    /// An empty directory called `name` stored at inode `inode_index`.
    pub fn new(name: &[u8], inode_index: usize) -> (r: Self)
        ensures
            r.name@ == name@,
            r.inode_index == inode_index,
            r.items@.len() == 0,
    {
        Dir { name: copy_bytes(name), inode_index, items: Vec::new() }
    }

    /// Decodes the record stream `data` of the directory `name` stored at `inode_index`.
    pub fn from_block_bytes(name: &[u8], inode_index: usize, data: &[u8]) -> (r: Result<
        Self,
        FsError,
    >)
        ensures
            r is Ok <==> parse_items(data@) is Some,
            r matches Ok(d) ==> d.name@ == name@ && d.inode_index == inode_index && view_items(
                d.items@,
            ) == parse_items(data@).unwrap(),
            r matches Err(e) ==> e == FsError::CorruptRecord,
    {
        let mut dir = Dir::new(name, inode_index);
        let len = data.len();
        let mut i: usize = 0;
        assert(data@.subrange(0, len as int) =~= data@);
        loop
            invariant
                len == data@.len(),
                i <= len,
                dir.name@ == name@,
                dir.inode_index == inode_index,
                parse_items(data@) == prepend(
                    view_items(dir.items@),
                    parse_items(data@.subrange(i as int, len as int)),
                ),
            ensures
                dir.name@ == name@,
                dir.inode_index == inode_index,
                parse_items(data@) == Some(view_items(dir.items@)),
            decreases len - i,
        {
            let ghost s = data@.subrange(i as int, len as int);
            proof {
                lemma_parse_step(s);
                assert(view_items(dir.items@) + Seq::<ItemView>::empty() =~= view_items(dir.items@));
            }
            if i == len {
                break;
            }
            if len - i < 8 {
                if len - i >= 4 && read_u32(data, i) == DIR_END {
                    assert(s.subrange(0, 4) =~= data@.subrange(i as int, i + 4));
                    break;
                }
                proof {
                    if len - i >= 4 {
                        assert(s.subrange(0, 4) =~= data@.subrange(i as int, i + 4));
                    }
                }
                return Err(FsError::CorruptRecord);
            }
            let inode_pos = read_u32(data, i);
            assert(s.subrange(0, 4) =~= data@.subrange(i as int, i + 4));
            if inode_pos == DIR_END {
                break;
            }
            let nl = read_u32(data, i + 4) as usize;
            assert(s.subrange(4, 8) =~= data@.subrange(i + 4, i + 8));
            assert(name_len_at(s) == nl);
            if len - i - 8 < nl || len - i - 8 - nl < 4 {
                return Err(FsError::CorruptRecord);
            }
            let name = copy_range(data, i + 8, i + 8 + nl);
            let tl = read_u32(data, i + 8 + nl) as usize;
            assert(s.subrange(8 + nl, 12 + nl) =~= data@.subrange(i + 8 + nl, i + 12 + nl));
            assert(typ_len_at(s) == tl);
            if len - i - 12 - nl < tl || len - i - 12 - nl - tl < 4 {
                return Err(FsError::CorruptRecord);
            }
            if !utf8_valid(data, i + 8, i + 8 + nl) || !utf8_valid(data, i + 12 + nl, i + 12 + nl + tl) {
                assert(data@.subrange(i + 8, i + 8 + nl) =~= item_at(s).name);
                assert(data@.subrange(i + 12 + nl, i + 12 + nl + tl) =~= item_at(s).typ);
                return Err(FsError::CorruptRecord);
            }
            let typ = copy_range(data, i + 12 + nl, i + 12 + nl + tl);
            let size = read_u32(data, i + 12 + nl + tl);
            let next = i + 16 + nl + tl;
            let ghost it = item_at(s);
            assert(s.subrange(12 + nl + tl, 16 + nl + tl) =~= data@.subrange(
                i + 12 + nl + tl,
                i + 16 + nl + tl,
            ));
            assert(name@ =~= it.name);
            assert(typ@ =~= it.typ);
            assert(s.subrange(record_end(s), s.len() as int) =~= data@.subrange(
                next as int,
                len as int,
            ));
            let ghost before = view_items(dir.items@);
            dir.items.push(DirItem { inode_pos, name, typ, size });
            assert(view_items(dir.items@) =~= before.push(it));
            proof {
                let o = parse_items(data@.subrange(next as int, len as int));
                if o is Some {
                    assert(before + (seq![it] + o.unwrap()) =~= before.push(it) + o.unwrap());
                }
            }
            i = next;
        }
        Ok(dir)
    }

    /// The record stream of this directory: one record per item, then the end word.
    pub fn to_block_bytes(&self) -> (r: Vec<u8>)
        requires
            forall|i: int| 0 <= i < self.items@.len() ==> item_fits(#[trigger] self.items@[i]@),
        ensures
            r@ == dir_bytes(view_items(self.items@)),
    {
        let ghost words = view_items(self.items@).map_values(|it: ItemView| item_bytes(it));
        let mut data: Vec<u8> = Vec::new();
        let mut k: usize = 0;
        while k < self.items.len()
            invariant
                k <= self.items@.len(),
                forall|i: int| 0 <= i < self.items@.len() ==> item_fits(#[trigger] self.items@[i]@),
                words == view_items(self.items@).map_values(|it: ItemView| item_bytes(it)),
                data@ == words.take(k as int).flatten(),
            decreases self.items@.len() - k,
        {
            let item = &self.items[k];
            assert(item_fits(self.items@[k as int]@));
            push_u32(&mut data, item.inode_pos);
            push_u32(&mut data, item.name.len() as u32);
            data.extend_from_slice(item.name.as_slice());
            push_u32(&mut data, item.typ.len() as u32);
            data.extend_from_slice(item.typ.as_slice());
            push_u32(&mut data, item.size);
            proof {
                lemma_flatten_take_next(words, k as int);
            }
            assert(data@ =~= words.take(k + 1).flatten());
            k = k + 1;
        }
        assert(words.take(k as int) =~= words);
        push_u32(&mut data, DIR_END);
        data
    }

    /// Appends the items `.` (this directory) and `..` (its parent).
    pub fn init_dir(&mut self, parent_inode_index: usize)
        requires
            old(self).inode_index <= u32::MAX,
            parent_inode_index <= u32::MAX,
        ensures
            final(self).name == old(self).name,
            final(self).inode_index == old(self).inode_index,
            view_items(final(self).items@) == view_items(old(self).items@) + seq![
                self_item(old(self).inode_index as u32),
                parent_item(parent_inode_index as u32),
            ],
    {
        let ghost before = view_items(self.items@);
        let dot = vec![46u8];
        let dot_dot = vec![46u8, 46u8];
        assert(dot@ =~= seq![46u8]);
        assert(dot_dot@ =~= seq![46u8, 46u8]);
        proof {
            lemma_ascii_utf8(dot@);
            lemma_ascii_utf8(dot_dot@);
        }
        self.items.push(
            DirItem { inode_pos: self.inode_index as u32, name: dot, typ: dir_kind(), size: 0 },
        );
        self.items.push(
            DirItem {
                inode_pos: parent_inode_index as u32,
                name: dot_dot,
                typ: dir_kind(),
                size: 0,
            },
        );
        assert(view_items(self.items@) =~= before + seq![
            self_item(self.inode_index as u32),
            parent_item(parent_inode_index as u32),
        ]);
    }
}

} // verus!
