use file_sys::dir::{Dir, DirItem};
use file_sys::error::FsError;
use file_sys::file::File;
use file_sys::fs::{System, NUM_INODES};
use file_sys::hardware::{Hardware, BLOCK_SIZE, STORE_SIZE, TOTAL_BLOCKS};
use file_sys::inode::Inode;

fn fresh() -> System {
    System::init(Hardware::new()).unwrap()
}

fn names(d: &Dir) -> Vec<Vec<u8>> {
    d.items.iter().map(|i| i.name.clone()).collect()
}

#[test]
fn bootstrap_root_holds_dot_and_dot_dot() {
    let fs = fresh();
    let root = fs.get_root_dir().unwrap();
    assert_eq!(root.inode_index, 0);
    assert_eq!(root.name, b"/".to_vec());
    assert_eq!(names(&root), vec![b".".to_vec(), b"..".to_vec()]);
    assert_eq!(root.items[0].inode_pos, 0);
    assert_eq!(root.items[1].inode_pos, 0);
    assert_eq!(root.items[0].typ, b"dir".to_vec());
    assert!(fs.free_inodes[0]);
    assert!(fs.free_blocks[4]);
    assert!(!fs.initialized);
}

#[test]
fn create_then_open_dir() {
    let mut fs = fresh();
    let mut root = fs.get_root_dir().unwrap();
    let a = fs.create_dir(&mut root, b"a").unwrap();
    assert_eq!(a.inode_index, 1);
    let opened = fs.open_dir(&root, b"a").unwrap();
    assert_eq!(opened.inode_index, 1);
    assert_eq!(names(&opened), vec![b".".to_vec(), b"..".to_vec()]);
    assert_eq!(opened.items[0].inode_pos, 1);
    assert_eq!(opened.items[1].inode_pos, 0);
    let reread = fs.get_root_dir().unwrap();
    assert_eq!(names(&reread), vec![b".".to_vec(), b"..".to_vec(), b"a".to_vec()]);
}

#[test]
fn write_then_open_file() {
    let mut fs = fresh();
    let mut root = fs.get_root_dir().unwrap();
    let mut f = fs.create_file(&mut root, b"f").unwrap();
    fs.write_file(&mut root, &mut f, b"hello").unwrap();
    assert_eq!(f.content, b"hello".to_vec());
    assert_eq!(f.size, 5);
    let g = fs.open_file(&mut root, b"f").unwrap();
    assert_eq!(g.content, b"hello".to_vec());
    assert_eq!(g.size, 5);
    let item = root.items.iter().find(|i| i.name == b"f".to_vec()).unwrap();
    assert_eq!(item.size, 5);
    let stored = fs.get_root_dir().unwrap();
    let item = stored.items.iter().find(|i| i.name == b"f".to_vec()).unwrap();
    assert_eq!(item.size, 5);
    assert_eq!(fs.read_file(&g), b"hello".to_vec());
}

#[test]
fn remove_dir_frees_everything_below() {
    let mut fs = fresh();
    let mut root = fs.get_root_dir().unwrap();
    let mut a = fs.create_dir(&mut root, b"a").unwrap();
    let mut f = fs.create_file(&mut a, b"f").unwrap();
    fs.write_file(&mut a, &mut f, b"data").unwrap();
    let a_inode = a.inode_index;
    let f_inode = f.inode_index;
    let used_before: Vec<usize> = (4..TOTAL_BLOCKS).filter(|b| fs.free_blocks[*b]).collect();
    assert_eq!(used_before.len(), 3);
    fs.remove_dir(&mut root, b"a").unwrap();
    assert_eq!(names(&root), vec![b".".to_vec(), b"..".to_vec()]);
    assert_eq!(names(&fs.get_root_dir().unwrap()), vec![b".".to_vec(), b"..".to_vec()]);
    assert!(!fs.free_inodes[a_inode]);
    assert!(!fs.free_inodes[f_inode]);
    let used_after: Vec<usize> = (4..TOTAL_BLOCKS).filter(|b| fs.free_blocks[*b]).collect();
    assert_eq!(used_after.len(), 1);
    assert!(fs.inodes[a_inode].block_pos.is_empty());
    assert!(fs.inodes[f_inode].name.is_empty());
}

#[test]
fn recreate_reuses_free_slot_and_keeps_siblings() {
    let mut fs = fresh();
    let mut root = fs.get_root_dir().unwrap();
    let a = fs.create_dir(&mut root, b"a").unwrap();
    let mut b = fs.create_file(&mut root, b"b").unwrap();
    fs.write_file(&mut root, &mut b, b"sibling").unwrap();
    fs.remove_dir(&mut root, b"a").unwrap();
    let a2 = fs.create_dir(&mut root, b"a").unwrap();
    assert_eq!(a2.inode_index, a.inode_index);
    assert_eq!(names(&root), vec![b".".to_vec(), b"..".to_vec(), b"b".to_vec(), b"a".to_vec()]);
    let b2 = fs.open_file(&mut root, b"b").unwrap();
    assert_eq!(b2.content, b"sibling".to_vec());
    assert_eq!(b2.inode_index, b.inode_index);
    fs.remove_file(&mut root, b"b").unwrap();
    let c = fs.create_file(&mut root, b"c").unwrap();
    assert_eq!(c.inode_index, b.inode_index);
}

#[test]
fn seven_blocks_fit_and_eight_do_not() {
    let mut fs = fresh();
    let mut root = fs.get_root_dir().unwrap();
    let mut f = fs.create_file(&mut root, b"big").unwrap();
    let full: Vec<u8> = (0..7 * BLOCK_SIZE).map(|i| (i % 94 + 33) as u8).collect();
    fs.write_file(&mut root, &mut f, &full).unwrap();
    assert_eq!(fs.read_file(&f), full);
    assert_eq!(fs.inodes[f.inode_index].size as usize, 7 * BLOCK_SIZE);
    let too_big = vec![1u8; 7 * BLOCK_SIZE + 1];
    assert_eq!(fs.write_file(&mut root, &mut f, &too_big), Err(FsError::CapacityExceeded));
    assert_eq!(fs.read_file(&f), full);
}

#[test]
fn blocks_are_never_shared() {
    let mut fs = fresh();
    let mut root = fs.get_root_dir().unwrap();
    let mut f = fs.create_file(&mut root, b"x").unwrap();
    fs.write_file(&mut root, &mut f, &vec![7u8; 3 * BLOCK_SIZE]).unwrap();
    let mut g = fs.create_file(&mut root, b"y").unwrap();
    fs.write_file(&mut root, &mut g, &vec![9u8; 2 * BLOCK_SIZE]).unwrap();
    let mut seen = vec![false; TOTAL_BLOCKS];
    for ino in fs.inodes.iter() {
        for b in ino.block_pos.iter().take_while(|b| **b != 0) {
            assert!(*b as usize >= 4);
            assert!(!seen[*b as usize]);
            seen[*b as usize] = true;
        }
    }
    assert_eq!(seen.iter().filter(|s| **s).count(), 6);
}

#[test]
fn duplicate_dir_is_refused() {
    let mut fs = fresh();
    let mut root = fs.get_root_dir().unwrap();
    fs.create_dir(&mut root, b"a").unwrap();
    assert_eq!(fs.create_dir(&mut root, b"a").err(), Some(FsError::AlreadyExists));
}

#[test]
fn long_name_is_refused() {
    let mut fs = fresh();
    let mut root = fs.get_root_dir().unwrap();
    let long = vec![b'n'; 32];
    assert_eq!(fs.create_dir(&mut root, &long).err(), Some(FsError::NameTooLong));
    assert_eq!(fs.create_file(&mut root, &long).err(), Some(FsError::NameTooLong));
    assert!(fs.create_dir(&mut root, &vec![b'n'; 31]).is_ok());
}

#[test]
fn missing_names_are_not_found() {
    let mut fs = fresh();
    let mut root = fs.get_root_dir().unwrap();
    assert_eq!(fs.open_dir(&root, b"nope").err(), Some(FsError::NotFound));
    assert_eq!(fs.remove_dir(&mut root, b"nope"), Err(FsError::NotFound));
    assert_eq!(fs.remove_file(&mut root, b"nope"), Err(FsError::NotFound));
}

#[test]
fn inodes_run_out() {
    let mut fs = fresh();
    let mut root = fs.get_root_dir().unwrap();
    for i in 1..NUM_INODES {
        let name = format!("f{}", i).into_bytes();
        fs.create_file(&mut root, &name).unwrap();
    }
    assert_eq!(fs.create_file(&mut root, b"last").err(), Some(FsError::NoFreeInode));
}

#[test]
fn blocks_run_out() {
    let mut fs = fresh();
    let mut root = fs.get_root_dir().unwrap();
    let mut k = 0;
    loop {
        let name = format!("b{}", k).into_bytes();
        let mut f = fs.create_file(&mut root, &name).unwrap();
        match fs.write_file(&mut root, &mut f, &vec![5u8; 7 * BLOCK_SIZE]) {
            Ok(()) => k += 1,
            Err(e) => {
                assert_eq!(e, FsError::NoFreeBlock);
                break;
            }
        }
    }
    assert_eq!(k, 8);
}

#[test]
fn open_file_creates_when_absent() {
    let mut fs = fresh();
    let mut root = fs.get_root_dir().unwrap();
    let f = fs.open_file(&mut root, b"new").unwrap();
    assert_eq!(f.size, 0);
    assert!(f.content.is_empty());
    assert_eq!(names(&root), vec![b".".to_vec(), b"..".to_vec(), b"new".to_vec()]);
    assert_eq!(root.items[2].typ, b"file".to_vec());
}

#[test]
fn save_then_load_keeps_the_tree() {
    let mut fs = fresh();
    let mut root = fs.get_root_dir().unwrap();
    let mut a = fs.create_dir(&mut root, b"a").unwrap();
    let mut f = fs.create_file(&mut a, b"f").unwrap();
    fs.write_file(&mut a, &mut f, b"kept").unwrap();
    fs.save();
    assert!(fs.initialized);
    let data = fs.hardware.data.clone();
    assert_eq!(&data[0..4], &[0xEF, 0xBE, 0xAD, 0xDE]);
    let mut again = System::init(Hardware { data }).unwrap();
    assert!(again.initialized);
    let root2 = again.get_root_dir().unwrap();
    let mut a2 = again.open_dir(&root2, b"a").unwrap();
    let f2 = again.open_file(&mut a2, b"f").unwrap();
    assert_eq!(f2.content, b"kept".to_vec());
}

#[test]
fn wrong_store_size_is_refused() {
    assert_eq!(System::init(Hardware { data: vec![0; 10] }).err(), Some(FsError::CorruptRecord));
    assert!(Hardware::from_bytes(vec![0; STORE_SIZE]).is_some());
    assert!(Hardware::from_bytes(vec![0; 3]).is_none());
}

#[test]
fn inode_record_round_trip() {
    let ino = Inode { name: b"hello".to_vec(), size: 70000, block_pos: vec![4, 9, 63, 0, 0, 0, 0] };
    let bytes = ino.to_le_bytes().unwrap();
    assert_eq!(bytes.len(), 64);
    assert_eq!(bytes[0], 5);
    assert_eq!(&bytes[1..6], b"hello");
    assert_eq!(&bytes[32..36], &70000u32.to_le_bytes());
    assert_eq!(&bytes[36..40], &4u32.to_le_bytes());
    let back = Inode::from_block_bytes(&bytes).unwrap();
    assert_eq!(back.len(), 1);
    assert_eq!(back[0].name, ino.name);
    assert_eq!(back[0].size, 70000);
    assert_eq!(back[0].block_pos, ino.block_pos);
}

#[test]
fn inode_record_pads_block_list() {
    let ino = Inode { name: Vec::new(), size: 0, block_pos: Vec::new() };
    let back = Inode::from_block_bytes(&ino.to_le_bytes().unwrap()).unwrap();
    assert_eq!(back[0].block_pos, vec![0; 7]);
}

#[test]
fn inode_record_limits() {
    let long = Inode { name: vec![b'x'; 32], size: 0, block_pos: Vec::new() };
    assert_eq!(long.to_le_bytes(), Err(FsError::NameTooLong));
    let many = Inode { name: Vec::new(), size: 0, block_pos: vec![4; 8] };
    assert_eq!(many.to_le_bytes(), Err(FsError::CapacityExceeded));
    let mut bad = vec![0u8; 64];
    bad[0] = 40;
    assert_eq!(Inode::from_block_bytes(&bad).err(), Some(FsError::CorruptRecord));
}

#[test]
fn inode_init_and_clean() {
    let mut ino = Inode { name: b"old".to_vec(), size: 9, block_pos: vec![5] };
    ino.init(b"new");
    assert_eq!(ino.name, b"new".to_vec());
    assert_eq!(ino.size, 0);
    assert!(ino.block_pos.is_empty());
    ino.clean();
    assert!(ino.name.is_empty());
}

#[test]
fn dir_round_trip() {
    let mut d = Dir::new(b"d", 3);
    d.init_dir(1);
    d.items.push(DirItem { inode_pos: 7, name: b"child".to_vec(), typ: b"file".to_vec(), size: 12 });
    let bytes = d.to_block_bytes();
    assert_eq!(bytes.len(), 20 + 21 + 25 + 4);
    assert_eq!(&bytes[bytes.len() - 4..], &0xDEADBEAFu32.to_le_bytes());
    let mut padded = bytes.clone();
    padded.extend_from_slice(&[0u8; 100]);
    let back = Dir::from_block_bytes(b"d", 3, &padded).unwrap();
    assert_eq!(back.items.len(), 3);
    assert_eq!(back.items[0].inode_pos, 3);
    assert_eq!(back.items[1].inode_pos, 1);
    assert_eq!(back.items[1].name, b"..".to_vec());
    assert_eq!(back.items[2].name, b"child".to_vec());
    assert_eq!(back.items[2].typ, b"file".to_vec());
    assert_eq!(back.items[2].size, 12);
}

#[test]
fn dir_decode_edges() {
    assert!(Dir::from_block_bytes(b"e", 0, &[]).unwrap().items.is_empty());
    assert!(Dir::from_block_bytes(b"e", 0, &[1, 0, 0, 0, 9, 0]).is_err());
    let cut = [1u8, 0, 0, 0, 200, 0, 0, 0, b'a'];
    assert_eq!(Dir::from_block_bytes(b"e", 0, &cut).err(), Some(FsError::CorruptRecord));
}

#[test]
fn file_decode_drops_zero_padding() {
    let f = File::from_block_bytes(b"f", 2, &[b'h', b'i', 0, 0, 0]);
    assert_eq!(f.content, b"hi".to_vec());
    assert_eq!(f.size, 2);
    let e = File::new(b"g", 4);
    assert_eq!(e.size, 0);
    assert_eq!(e.inode_index, 4);
}

fn saved_image() -> Vec<u8> {
    let mut fs = fresh();
    fs.save();
    fs.hardware.data.clone()
}

#[test]
fn shared_block_in_image_is_refused() {
    let mut data = saved_image();
    let table = 3 * BLOCK_SIZE;
    let root_first = data[table + 36..table + 40].to_vec();
    let second = table + 64;
    data[second + 36..second + 40].copy_from_slice(&root_first);
    data[2 * BLOCK_SIZE + 1] = 1;
    assert_eq!(System::init(Hardware { data }).err(), Some(FsError::CorruptRecord));
}

#[test]
fn bad_record_in_image_is_refused() {
    let mut data = saved_image();
    data[3 * BLOCK_SIZE + 64] = 200;
    assert_eq!(System::init(Hardware { data }).err(), Some(FsError::CorruptRecord));
}

#[test]
fn block_owned_by_free_inode_is_refused() {
    let mut data = saved_image();
    let second = 3 * BLOCK_SIZE + 64;
    data[second + 36..second + 40].copy_from_slice(&9u32.to_le_bytes());
    data[BLOCK_SIZE + 9] = 1;
    assert_eq!(System::init(Hardware { data }).err(), Some(FsError::CorruptRecord));
}

#[test]
fn saved_image_loads_its_tables() {
    let data = saved_image();
    let fs = System::init(Hardware { data }).unwrap();
    assert!(fs.initialized);
    assert_eq!(fs.root_inode_index, 0);
    assert!(fs.free_inodes[0]);
    assert!(!fs.free_inodes[1]);
    assert!(fs.free_blocks[4]);
    assert_eq!(fs.inodes[0].name, b"/".to_vec());
}

#[test]
fn content_is_read_by_stored_size() {
    let mut fs = fresh();
    let mut root = fs.get_root_dir().unwrap();
    let mut f = fs.create_file(&mut root, b"z").unwrap();
    fs.write_file(&mut root, &mut f, b"a\0b").unwrap();
    assert_eq!(fs.read_file(&f), b"a\0b".to_vec());
    let g = fs.open_file(&mut root, b"z").unwrap();
    assert_eq!(g.content, b"a\0b".to_vec());
    assert_eq!(g.size, 3);
}

#[test]
fn non_utf8_names_in_records_are_refused() {
    let ino = Inode { name: vec![0xff, 0xfe], size: 0, block_pos: Vec::new() };
    let bytes = ino.to_le_bytes().unwrap();
    assert_eq!(Inode::from_block_bytes(&bytes).err(), Some(FsError::CorruptRecord));
    let mut d = Dir::new(b"d", 3);
    d.items.push(DirItem { inode_pos: 7, name: vec![0xc3], typ: b"file".to_vec(), size: 0 });
    assert_eq!(Dir::from_block_bytes(b"d", 3, &d.to_block_bytes()).err(), Some(FsError::CorruptRecord));
}

#[test]
fn remove_file_frees_its_slot_and_blocks() {
    let mut fs = fresh();
    let mut root = fs.get_root_dir().unwrap();
    let mut f = fs.create_file(&mut root, b"f").unwrap();
    fs.write_file(&mut root, &mut f, &vec![b'q'; 2 * BLOCK_SIZE]).unwrap();
    let blocks: Vec<u32> = fs.inodes[f.inode_index].block_pos.iter().cloned().filter(|b| *b != 0).collect();
    assert_eq!(blocks.len(), 2);
    fs.remove_file(&mut root, b"f").unwrap();
    assert!(!fs.free_inodes[f.inode_index]);
    for b in blocks {
        assert!(!fs.free_blocks[b as usize]);
        let start = b as usize * BLOCK_SIZE;
        assert!(fs.hardware.data[start..start + BLOCK_SIZE].iter().all(|x| *x == 0));
    }
    assert_eq!(names(&fs.get_root_dir().unwrap()), vec![b".".to_vec(), b"..".to_vec()]);
}

#[test]
fn remove_dir_frees_nested_directories() {
    let mut fs = fresh();
    let mut root = fs.get_root_dir().unwrap();
    let mut a = fs.create_dir(&mut root, b"a").unwrap();
    let mut b = fs.create_dir(&mut a, b"b").unwrap();
    let mut g = fs.create_file(&mut b, b"g").unwrap();
    fs.write_file(&mut b, &mut g, b"deep").unwrap();
    let keep = fs.create_file(&mut root, b"keep").unwrap();
    let inodes = [a.inode_index, b.inode_index, g.inode_index];
    fs.remove_dir(&mut root, b"a").unwrap();
    for i in inodes {
        assert!(!fs.free_inodes[i]);
        assert!(fs.inodes[i].name.is_empty());
    }
    assert!(fs.free_inodes[keep.inode_index]);
    let used: Vec<usize> = (4..TOTAL_BLOCKS).filter(|x| fs.free_blocks[*x]).collect();
    assert_eq!(used, vec![4]);
    assert_eq!(names(&fs.get_root_dir().unwrap()), vec![b".".to_vec(), b"..".to_vec(), b"keep".to_vec()]);
}

#[test]
fn fresh_root_sits_in_block_four() {
    let fs = fresh();
    assert_eq!(fs.inodes[0].block_pos, vec![4, 0, 0, 0, 0, 0, 0]);
    assert_eq!(fs.inodes[0].size, 45);
}
