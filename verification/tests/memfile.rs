//! The in-memory file collaborators: seek, read, write, publication
//! through the store, and the page index built from a file.

use jammdb::{
    DbFile, FakeMap, File, FileStore, IndexByPageID, MemoryFile, MemoryMap, MetaData, Mmap,
    PathLike, SeekFrom,
};

#[test]
fn write_then_read_round_trip() {
    let mut store = FileStore::new();
    let mut f = MemoryFile::open(&mut store, &"a.bin").unwrap();
    assert_eq!(f.write(&mut store, b"hello".as_slice()).unwrap(), 5);
    assert_eq!(f.seek(SeekFrom::Start(0)).unwrap(), 0);
    let mut buf = vec![0u8; 5];
    assert_eq!(f.read(&mut buf).unwrap(), 5);
    assert_eq!(buf, b"hello".to_vec());
    // at the end nothing more can be read
    assert_eq!(f.read(&mut buf).unwrap(), 0);
    assert_eq!(buf, b"hello".to_vec());
}

#[test]
fn read_stops_at_end_of_file() {
    let mut store = FileStore::new();
    let mut f = MemoryFile::open(&mut store, &"b.bin").unwrap();
    f.write(&mut store, b"abc".as_slice()).unwrap();
    f.seek(SeekFrom::Start(1)).unwrap();
    let mut buf = vec![9u8; 8];
    assert_eq!(f.read(&mut buf).unwrap(), 2);
    assert_eq!(buf, vec![b'b', b'c', 9, 9, 9, 9, 9, 9]);
}

#[test]
fn seek_variants() {
    let mut store = FileStore::new();
    let mut f = MemoryFile::open(&mut store, &"c.bin").unwrap();
    f.write(&mut store, b"0123456789".as_slice()).unwrap();
    assert_eq!(f.seek(SeekFrom::End(-1)).unwrap(), 9);
    assert_eq!(f.seek(SeekFrom::Current(-4)).unwrap(), 5);
    assert_eq!(f.seek(SeekFrom::Current(2)).unwrap(), 7);
    assert!(f.seek(SeekFrom::Current(-8)).is_err());
    assert_eq!(f.pos, 7);
    assert!(f.seek(SeekFrom::End(-11)).is_err());
    assert_eq!(f.seek(SeekFrom::End(-10)).unwrap(), 0);
}

#[test]
fn write_past_end_zero_fills_gap() {
    let mut store = FileStore::new();
    let mut f = MemoryFile::open(&mut store, &"d.bin").unwrap();
    f.seek(SeekFrom::Start(4)).unwrap();
    f.write(&mut store, b"x".as_slice()).unwrap();
    assert_eq!(f.data, vec![0, 0, 0, 0, b'x']);
    assert_eq!(f.pos, 5);
}

#[test]
fn writes_reach_the_store_at_once() {
    let mut store = FileStore::new();
    {
        let mut f = MemoryFile::open(&mut store, &"e.bin").unwrap();
        f.write(&mut store, b"payload".as_slice()).unwrap();
    }
    let f = MemoryFile::open(&mut store, &"e.bin").unwrap();
    assert_eq!(f.pos, 0);
    assert_eq!(f.data, b"payload".to_vec());
}

#[test]
fn write_at_position_survives_reopen() {
    let mut store = FileStore::new();
    {
        let mut f = MemoryFile::open(&mut store, &"p.bin").unwrap();
        f.write(&mut store, b"0123".as_slice()).unwrap();
        f.seek(SeekFrom::Start(2)).unwrap();
        f.write(&mut store, b"XY".as_slice()).unwrap();
    }
    let f = MemoryFile::open(&mut store, &"p.bin").unwrap();
    assert_eq!(f.data, b"01XY".to_vec());
}

#[test]
fn exists_in_reflects_the_store() {
    let mut store = FileStore::new();
    assert!(!"g.bin".exists_in(&store));
    MemoryFile::open(&mut store, &"g.bin").unwrap();
    assert!("g.bin".exists_in(&store));
    assert!(!"other.bin".exists_in(&store));
}

#[test]
fn allocate_grows_and_keeps_prefix() {
    let mut store = FileStore::new();
    let mut f = MemoryFile::open(&mut store, &"h.bin").unwrap();
    f.write(&mut store, b"ab".as_slice()).unwrap();
    f.allocate(&mut store, 6).unwrap();
    assert_eq!(f.data, vec![b'a', b'b', 0, 0, 0, 0]);
    // a smaller target never shrinks
    f.allocate(&mut store, 3).unwrap();
    assert_eq!(f.data.len(), 6);
    assert_eq!(f.size(), 6);
    let md: MetaData = f.metadata().unwrap();
    assert_eq!(md.len(), 6);
}

#[test]
fn page_index_resolves_pages_and_bounds() {
    let mut store = FileStore::new();
    let mut f = MemoryFile::open(&mut store, &"i.bin").unwrap();
    f.allocate(&mut store, 2048).unwrap();
    f.seek(SeekFrom::Start(1024)).unwrap();
    f.write(&mut store, &[7u8; 4]).unwrap();
    let mut file = File::new(f);
    let ix = FakeMap.do_map(&mut file).unwrap();
    assert_eq!(ix.len(), 2048);
    let p1 = ix.index(1, 1024).unwrap();
    assert_eq!(p1.len(), 1024);
    assert_eq!(&p1[0..4], &[7, 7, 7, 7]);
    assert_eq!(p1[4], 0);
    assert!(ix.index(2, 1024).is_err());
}

#[test]
fn page_index_is_a_snapshot() {
    let mut store = FileStore::new();
    let f = MemoryFile::open(&mut store, &"j.bin").unwrap();
    let mut file = File::new(f);
    file.file.allocate(&mut store, 1024).unwrap();
    let ix = FakeMap.do_map(&mut file).unwrap();
    file.file.write(&mut store, &[5u8; 8]).unwrap();
    // the index keeps the bytes as they were when it was built
    assert_eq!(ix.index(0, 1024).unwrap()[0], 0);
    let ix2 = FakeMap.do_map(&mut file).unwrap();
    assert_eq!(ix2.index(0, 1024).unwrap()[0], 5);
}

#[test]
fn raw_map_reports_size() {
    let mut store = FileStore::new();
    let mut f = MemoryFile::open(&mut store, &"k.bin").unwrap();
    f.allocate(&mut store, 4096).unwrap();
    let file = File::new(f);
    let m: Mmap = FakeMap.map(&file);
    assert_eq!(m.size, 4096);
    assert_eq!(m.addr, 0);
}
