use engula::error::{Error, ErrorKind};
use engula::file_system::SequentialWriter;
use engula::iterator::{collect, TableIterator};
use engula::sstable::{SstBlockIterGenerator, SstBuilder, SstFooter, SstOptions, SstReader};
use engula::block::BlockHandle;
use engula::table::FOOTER_SIZE;
use engula::two_level_iterator::BlockIterGenerator;

type Version = (u64, Vec<u8>, Vec<u8>);

fn build(block_size: usize, versions: &[Version]) -> (Vec<u8>, usize) {
    let mut builder = SstBuilder::new(SstOptions { block_size }, Vec::new());
    for (ts, key, value) in versions {
        builder.add(*ts, key, value);
    }
    let size = builder.finish().unwrap();
    (builder.into_inner(), size)
}

fn scan(reader: &SstReader<Vec<u8>>) -> Vec<Version> {
    let mut out = Vec::new();
    let mut iter = reader.new_iterator().unwrap();
    while let Some((ts, key, value)) = iter.current() {
        out.push((ts, key.to_vec(), value.to_vec()));
        iter.next();
    }
    assert!(iter.error().is_none());
    out
}

fn sample() -> Vec<Version> {
    let mut versions = Vec::new();
    for k in 1u8..40 {
        for ts in [9u64, 7, 3] {
            versions.push((ts, vec![b'k', k], vec![k; (k as usize) % 7 + 1]));
        }
    }
    versions
}

#[test]
fn sst_scan_returns_every_version_in_order() {
    let versions = sample();
    for block_size in [1usize, 100, usize::MAX] {
        let (file, size) = build(block_size, &versions);
        let reader = SstReader::open(file, size).unwrap();
        assert_eq!(reader.scan().unwrap(), versions);
        let mut iter = reader.new_iterator().unwrap();
        iter.seek(7, &[b'k', 20]);
        let rest = collect(&mut iter);
        assert_eq!(rest.len(), 2 + 19 * 3);
        assert_eq!(rest[0], (7, vec![b'k', 20], vec![20; 7]));
        assert!(iter.current().is_none());
        assert!(collect(&mut iter).is_empty());
    }
}

#[test]
fn sst_scan_fails_on_a_damaged_block() {
    let versions = sample();
    let (mut file, size) = build(100, &versions);
    // The first block holds three records of 28 bytes and one of 29. The second block
    // starts after them, and the length of its first key is in its bytes 8 to 15.
    let second = 3 * 28 + 29;
    file[second + 15] = 200;
    let reader = SstReader::open(file, size).unwrap();
    assert!(matches!(reader.scan(), Err(Error::Corrupted(_))));
    // What lies before the damage is still found.
    assert_eq!(reader.get(9, &[b'k', 1]).unwrap(), Some(vec![1; 2]));
}

#[test]
fn sst_empty_finish_writes_nothing() {
    let mut builder = SstBuilder::new(SstOptions::default(), Vec::new());
    assert_eq!(builder.finish().unwrap(), 0);
    let file = builder.into_inner();
    assert!(file.is_empty());
}

#[test]
fn sst_open_zero_byte_file_fails() {
    let opened = SstReader::open(Vec::<u8>::new(), 0);
    assert!(matches!(opened, Err(Error::Corrupted(_))));
}

#[test]
fn sst_open_rejects_size_below_footer() {
    let opened = SstReader::open(vec![0u8; 64], FOOTER_SIZE - 1);
    match opened {
        Err(e) => assert_eq!(e.kind(), ErrorKind::Corrupted),
        Ok(_) => panic!("a file shorter than a footer was opened"),
    }
}

#[test]
fn sst_open_rejects_size_beyond_file() {
    let (file, size) = build(64, &[(5, b"k".to_vec(), b"v".to_vec())]);
    assert!(SstReader::open(file, size + 1).is_err());
}

#[test]
fn sst_single_entry() {
    let (file, size) = build(8192, &[(5, b"k".to_vec(), b"v".to_vec())]);
    assert_eq!(size, file.len());
    let reader = SstReader::open(file, size).unwrap();
    assert_eq!(reader.get(5, b"k").unwrap(), Some(b"v".to_vec()));
    assert_eq!(reader.get(6, b"k").unwrap(), None);
    assert_eq!(reader.get(5, b"other").unwrap(), None);
}

#[test]
fn sst_single_entry_layout() {
    // One record of 24 + 1 + 1 bytes, an index record of 24 + 1 + 16 bytes, a footer.
    let (file, size) = build(8192, &[(5, b"k".to_vec(), b"v".to_vec())]);
    assert_eq!(size, 26 + 41 + 16);
    let mut record = vec![0, 0, 0, 0, 0, 0, 0, 5, 0, 0, 0, 0, 0, 0, 0, 1, b'k'];
    record.extend_from_slice(&[0, 0, 0, 0, 0, 0, 0, 1, b'v']);
    assert_eq!(&file[..26], &record[..]);
    let footer = SstFooter::decode_from(&file[size - FOOTER_SIZE..]);
    assert_eq!(footer.index_handle, BlockHandle { offset: 26, size: 41 });
    assert_eq!(footer.encode(), file[size - FOOTER_SIZE..].to_vec());
}

#[test]
fn sst_mvcc_ordering() {
    let versions = vec![
        (10, b"a".to_vec(), b"A10".to_vec()),
        (5, b"a".to_vec(), b"A5".to_vec()),
        (1, b"b".to_vec(), b"B1".to_vec()),
    ];
    let (file, size) = build(8192, &versions);
    let reader = SstReader::open(file, size).unwrap();
    assert_eq!(scan(&reader), versions);
    assert_eq!(reader.get(7, b"a").unwrap(), None);
    assert_eq!(reader.get(10, b"a").unwrap(), Some(b"A10".to_vec()));
    assert_eq!(reader.get(5, b"a").unwrap(), Some(b"A5".to_vec()));
    assert_eq!(reader.get(1, b"b").unwrap(), Some(b"B1".to_vec()));
}

#[test]
fn sst_seek_lands_on_next_older_version() {
    let versions = vec![
        (10, b"a".to_vec(), b"A10".to_vec()),
        (5, b"a".to_vec(), b"A5".to_vec()),
        (1, b"b".to_vec(), b"B1".to_vec()),
    ];
    let (file, size) = build(1, &versions);
    let reader = SstReader::open(file, size).unwrap();
    let mut iter = reader.new_iterator().unwrap();
    iter.seek(7, b"a");
    let (ts, key, value) = iter.current().unwrap();
    assert_eq!((ts, key, value), (5, &b"a"[..], &b"A5"[..]));
    iter.seek(0, b"a");
    assert_eq!(iter.current().unwrap().1, b"b");
    iter.seek(0, b"b");
    assert!(iter.current().is_none());
    assert!(iter.error().is_none());
    iter.seek(u64::MAX, b"");
    assert_eq!(iter.current().unwrap().0, 10);
}

#[test]
fn sst_round_trip_for_each_block_size() {
    let versions = sample();
    for block_size in [1usize, 64, 1024, usize::MAX] {
        let (file, size) = build(block_size, &versions);
        assert_eq!(size, file.len());
        let reader = SstReader::open(file, size).unwrap();
        assert_eq!(scan(&reader), versions);
    }
}

#[test]
fn sst_block_size_changes_the_file_not_the_entries() {
    let versions = sample();
    let (small, _) = build(1, &versions);
    let (large, _) = build(usize::MAX, &versions);
    assert!(small.len() > large.len());
    let a = SstReader::open(small.clone(), small.len()).unwrap();
    let b = SstReader::open(large.clone(), large.len()).unwrap();
    assert_eq!(scan(&a), scan(&b));
}

#[test]
fn sst_point_lookup_finds_what_was_written_and_nothing_else() {
    let versions = sample();
    for block_size in [1usize, 64, 1024, usize::MAX] {
        let (file, size) = build(block_size, &versions);
        let reader = SstReader::open(file, size).unwrap();
        for (ts, key, value) in &versions {
            assert_eq!(reader.get(*ts, key).unwrap().as_ref(), Some(value));
            assert_eq!(reader.get(*ts + 1, key).unwrap(), None);
        }
        assert_eq!(reader.get(9, b"a").unwrap(), None);
        assert_eq!(reader.get(9, b"zz").unwrap(), None);
        assert_eq!(reader.get(9, b"k").unwrap(), None);
    }
}

#[test]
fn sst_blocks_close_once_they_reach_the_block_size() {
    // Each record takes 24 + 1 + 1 = 26 bytes: two fill a block of 52.
    let versions: Vec<Version> =
        (1u8..=5).map(|k| (1, vec![k], vec![k])).collect();
    let (file, size) = build(52, &versions);
    let footer = SstFooter::decode_from(&file[size - FOOTER_SIZE..]);
    assert_eq!(footer.index_handle.offset, 5 * 26);
    // Three blocks: two full ones and the last entry alone.
    assert_eq!(footer.index_handle.size, 3 * (24 + 1 + 16));
    let generator = SstBlockIterGenerator::new(&file);
    let handle = BlockHandle { offset: 52, size: 52 };
    let mut iter = generator.spawn(&handle.encode()).unwrap();
    assert_eq!(iter.current().unwrap().1, &[3u8][..]);
    iter.next();
    assert_eq!(iter.current().unwrap().1, &[4u8][..]);
    iter.next();
    assert!(iter.current().is_none());
}

#[test]
fn sst_generator_rejects_bad_handles() {
    let (file, _) = build(52, &[(1, vec![1], vec![1])]);
    let generator = SstBlockIterGenerator::new(&file);
    assert!(matches!(generator.spawn(&[0u8; 15]), Err(Error::Corrupted(_))));
    let beyond = BlockHandle { offset: 0, size: file.len() as u64 + 1 };
    assert!(matches!(generator.spawn(&beyond.encode()), Err(Error::Corrupted(_))));
    let inside_a_record = BlockHandle { offset: 3, size: 20 };
    assert!(matches!(generator.spawn(&inside_a_record.encode()), Err(Error::Corrupted(_))));
}

#[test]
fn sst_corrupted_index_fails_lookup() {
    let (mut file, size) = build(8192, &[(5, b"k".to_vec(), b"v".to_vec())]);
    // The index block starts at 26; its key length field is at 26 + 8.
    file[26 + 15] = 200;
    let reader = SstReader::open(file, size).unwrap();
    assert!(matches!(reader.get(5, b"k"), Err(Error::Corrupted(_))));
    assert!(reader.new_iterator().is_err());
}

struct Counting {
    bytes: Vec<u8>,
    calls: usize,
    fail_from: usize,
}

impl SequentialWriter for Counting {
    fn write_all(&mut self, bytes: &[u8]) -> Result<(), Error> {
        self.calls += 1;
        if self.calls >= self.fail_from {
            return Err(Error::Io("disk is full".to_string()));
        }
        self.bytes.extend_from_slice(bytes);
        Ok(())
    }
}

fn counting(fail_from: usize) -> Counting {
    Counting { bytes: Vec::new(), calls: 0, fail_from }
}

#[test]
fn sst_builder_writes_only_when_a_block_closes() {
    // Nothing is due: the sink is not touched, though every write to it would fail.
    let mut builder = SstBuilder::new(SstOptions { block_size: 100 }, counting(1));
    builder.add(9, b"a", b"1");
    builder.add(8, b"a", b"2");
    builder.add(7, b"a", b"3");
    let sink = builder.into_inner();
    assert_eq!((sink.calls, sink.bytes.len()), (0, 0));

    // An empty table sends nothing, and ends well on any sink.
    let mut builder = SstBuilder::new(SstOptions { block_size: 1 }, counting(1));
    assert_eq!(builder.finish().unwrap(), 0);
    assert_eq!(builder.into_inner().calls, 0);

    // Each closing block is one write; the end of the table is three more at most.
    let mut builder = SstBuilder::new(SstOptions { block_size: 52 }, counting(usize::MAX));
    for k in 1u8..=5 {
        builder.add(1, &[k], &[k]);
    }
    let sink = builder.into_inner();
    assert_eq!((sink.calls, sink.bytes.len()), (2, 4 * 26));
    let mut builder = SstBuilder::new(SstOptions { block_size: 52 }, sink);
    builder.add(1, &[6], &[6]);
    assert_eq!(builder.finish().unwrap(), 26 + 41 + 16);
    assert_eq!(builder.into_inner().calls, 2 + 3);
}

#[test]
fn sst_builder_leaves_the_sink_alone_after_an_error() {
    let mut builder = SstBuilder::new(SstOptions { block_size: 1 }, counting(2));
    builder.add(9, b"a", b"1");
    builder.add(8, b"a", b"2");
    builder.add(7, b"a", b"3");
    builder.add(6, b"a", b"4");
    assert!(matches!(builder.finish(), Err(Error::Io(_))));
    assert!(matches!(builder.finish(), Err(Error::Io(_))));
    let sink = builder.into_inner();
    // One block went out, the second write failed, and no other was tried.
    assert_eq!((sink.calls, sink.bytes.len()), (2, 26));
}

struct Flaky {
    bytes: Vec<u8>,
    writes_left: usize,
}

impl SequentialWriter for Flaky {
    fn write_all(&mut self, bytes: &[u8]) -> Result<(), Error> {
        if self.writes_left == 0 {
            return Err(Error::Io("disk is full".to_string()));
        }
        self.writes_left -= 1;
        self.bytes.extend_from_slice(bytes);
        Ok(())
    }
}

#[test]
fn sst_builder_error_is_sticky() {
    let sink = Flaky { bytes: Vec::new(), writes_left: 1 };
    let mut builder = SstBuilder::new(SstOptions { block_size: 1 }, sink);
    builder.add(3, b"a", b"1");
    builder.add(2, b"a", b"2");
    builder.add(1, b"a", b"3");
    match builder.finish() {
        Err(e) => {
            assert_eq!(e.kind(), ErrorKind::Io);
            assert_eq!(e.message(), "disk is full");
        }
        Ok(_) => panic!("a failed write went unnoticed"),
    }
    assert!(builder.finish().is_err());
    let sink = builder.into_inner();
    assert_eq!(sink.bytes.len(), 26);
}

#[test]
fn sst_builder_accepts_only_what_sorts_after_the_last() {
    let mut builder = SstBuilder::new(SstOptions::default(), Vec::new());
    assert!(!builder.accepts(9, b""));
    assert!(builder.accepts(0, b"a"));
    builder.add(5, b"b", b"1");
    assert!(builder.accepts(4, b"b"));
    assert!(!builder.accepts(5, b"b"));
    assert!(!builder.accepts(6, b"b"));
    assert!(!builder.accepts(9, b"a"));
    assert!(builder.accepts(9, b"ba"));
    let mut failed = SstBuilder::new(SstOptions { block_size: 1 }, Flaky { bytes: Vec::new(), writes_left: 0 });
    failed.add(5, b"b", b"1");
    assert!(failed.accepts(9, b"a"));
}

#[test]
fn sst_finish_reports_a_failed_index_write() {
    let sink = Flaky { bytes: Vec::new(), writes_left: 1 };
    let mut builder = SstBuilder::new(SstOptions { block_size: 8192 }, sink);
    builder.add(3, b"a", b"1");
    assert!(matches!(builder.finish(), Err(Error::Io(_))));
    assert!(matches!(builder.finish(), Err(Error::Io(_))));
}
