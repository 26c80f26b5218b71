use clove_core::bencode::{encode, Dict, Value};
use clove_core::bitfield::Bitfield;
use clove_core::metainfo::{FileEntry, InfoHash, MetaInfo};
use clove_core::storage::{verified_field, Layout, OutOfRange, Segment};
use sha1::{Digest, Sha1};

/// How much the tests take for a chunk of a piece.
const CHUNK: u32 = 16 * 1024;

fn piece_hash(data: &[u8]) -> [u8; 20] {
    Sha1::digest(data).into()
}

fn file(path: &[&str], length: u64) -> FileEntry {
    FileEntry { path: path.iter().map(|p| p.to_string()).collect(), length }
}

/// Build a `MetaInfo` whose piece hashes match `content` laid out over `files`,
/// split into `piece_length`-sized pieces.
fn meta_for(files: Vec<FileEntry>, piece_length: u32, content: &[u8]) -> MetaInfo {
    let total: u64 = files.iter().map(|f| f.length).sum();
    assert_eq!(total, content.len() as u64);
    let pieces: Vec<[u8; 20]> = content.chunks(piece_length as usize).map(piece_hash).collect();
    MetaInfo {
        info_hash: InfoHash([0; 20]),
        name: "t".into(),
        piece_length,
        pieces,
        files,
        total_length: total,
        private: true,
        trackers: vec![],
        skipped_trackers: 0,
        raw_info: vec![],
    }
}

/// Files kept in memory, written and read along a layout's segments. A file is
/// as long as it has been written.
struct Disk {
    layout: Layout,
    files: Vec<Vec<u8>>,
}

impl Disk {
    fn new(meta: &MetaInfo) -> Disk {
        Disk { layout: Layout::new(meta), files: vec![Vec::new(); meta.files.len()] }
    }

    fn write_block(&mut self, index: u32, begin: u32, data: &[u8]) -> Result<(), OutOfRange> {
        for s in self.layout.segments(index, begin, data.len() as u64)? {
            let f = &mut self.files[s.file];
            let part = &data[s.from as usize..s.to as usize];
            let end = s.offset as usize + part.len();
            if f.len() < end {
                f.resize(end, 0);
            }
            f[s.offset as usize..end].copy_from_slice(part);
        }
        Ok(())
    }

    /// `None` if the range has not been written.
    fn read_block(&self, index: u32, begin: u32, len: u32) -> Result<Option<Vec<u8>>, OutOfRange> {
        let mut out = Vec::new();
        for s in self.layout.segments(index, begin, u64::from(len))? {
            let end = (s.offset + (s.to - s.from)) as usize;
            match self.files[s.file].get(s.offset as usize..end) {
                Some(part) => out.extend_from_slice(part),
                None => return Ok(None),
            }
        }
        Ok(Some(out))
    }

    fn verify_piece(&self, index: u32) -> bool {
        let len = self.layout.piece_len(index);
        match self.read_block(index, 0, len) {
            Ok(Some(data)) => self.layout.verify_piece(index, &data),
            _ => false,
        }
    }

    fn verify_all(&self) -> Bitfield {
        let verdicts: Vec<bool> =
            (0..self.layout.num_pieces()).map(|p| self.verify_piece(p)).collect();
        verified_field(&verdicts)
    }
}

#[test]
fn single_file_write_read_verify() {
    let content: Vec<u8> = (0..50u8).collect();
    let meta = meta_for(vec![file(&["a.bin"], 50)], 16, &content);
    let mut st = Disk::new(&meta);

    assert_eq!(st.layout.num_pieces(), 4); // 16,16,16,2
    assert_eq!(st.layout.piece_len(0), 16);
    assert_eq!(st.layout.piece_len(3), 2);

    // Nothing written yet.
    assert!(!st.verify_piece(0));

    for p in 0..st.layout.num_pieces() {
        let len = st.layout.piece_len(p);
        let start = (p as usize) * 16;
        st.write_block(p, 0, &content[start..start + len as usize]).unwrap();
    }
    for p in 0..st.layout.num_pieces() {
        assert!(st.verify_piece(p), "piece {p}");
    }
    assert!(st.verify_all().is_full());

    // Read back a block that we wrote.
    assert_eq!(st.read_block(0, 4, 4).unwrap(), Some(vec![4, 5, 6, 7]));
}

#[test]
fn piece_spanning_multiple_files() {
    // Three files of 10 bytes; piece length 15 -> pieces cross files.
    let content: Vec<u8> = (0..30u8).collect();
    let files = vec![file(&["d", "a"], 10), file(&["d", "b"], 10), file(&["c"], 10)];
    let meta = meta_for(files, 15, &content);
    let mut st = Disk::new(&meta);
    assert_eq!(st.layout.num_pieces(), 2);

    // Piece 0 spans file a (all) + file b (first 5).
    st.write_block(0, 0, &content[0..15]).unwrap();
    st.write_block(1, 0, &content[15..30]).unwrap();
    assert!(st.verify_piece(0));
    assert!(st.verify_piece(1));

    // A read straddling the a/b boundary returns contiguous bytes.
    assert_eq!(st.read_block(0, 8, 4).unwrap(), Some(vec![8, 9, 10, 11]));
    assert_eq!(st.files[2].len(), 10);
}

#[test]
fn corrupt_block_fails_verification() {
    let content: Vec<u8> = vec![7; 20];
    let meta = meta_for(vec![file(&["a"], 20)], 16, &content);
    let mut st = Disk::new(&meta);
    st.write_block(0, 0, &[7; 16]).unwrap();
    assert!(st.verify_piece(0));
    // Flip a byte: verification must now fail.
    st.write_block(0, 5, &[0]).unwrap();
    assert!(!st.verify_piece(0));
}

/// A piece several chunks long, and a short last one.
#[test]
fn a_piece_longer_than_one_chunk_verifies_chunk_by_chunk() {
    let piece_length = CHUNK * 3 + 1024;
    // Two full pieces and a short one, with content that would hash the same
    // under a dropped or duplicated chunk only by collision.
    let total = piece_length as usize * 2 + 777;
    let content: Vec<u8> = (0..total).map(|i| u8::try_from(i % 251).unwrap()).collect();
    let meta = meta_for(vec![file(&["big.bin"], total as u64)], piece_length, &content);
    let mut st = Disk::new(&meta);
    assert_eq!(st.layout.num_pieces(), 3);

    // A piece that is only partly written reads short: not held, and not an
    // error.
    st.write_block(0, 0, &content[..CHUNK as usize]).unwrap();
    assert!(!st.verify_piece(0), "a partial piece is not held");

    for p in 0..st.layout.num_pieces() {
        let start = p as usize * piece_length as usize;
        let len = st.layout.piece_len(p) as usize;
        st.write_block(p, 0, &content[start..start + len]).unwrap();
    }
    assert!(st.verify_all().is_full());

    // A flipped byte in the *last* chunk of a piece must still be caught.
    let last_chunk_start = piece_length - 1;
    st.write_block(0, last_chunk_start, &[0xFF]).unwrap();
    assert!(!st.verify_piece(0), "corruption in a piece's final chunk went unnoticed");
}

#[test]
fn an_absurd_read_length_is_refused_before_it_is_allocated() {
    let content: Vec<u8> = vec![0; 10];
    let meta = meta_for(vec![file(&["a"], 10)], 16, &content);
    let mut st = Disk::new(&meta);
    // A peer-supplied length is a u32; the range check has to come first.
    assert_eq!(st.read_block(0, 0, u32::MAX), Err(OutOfRange));
    // And a length that fits the torrent still works.
    st.write_block(0, 0, &content).unwrap();
    assert_eq!(st.read_block(0, 0, 10).unwrap().unwrap().len(), 10);
}

#[test]
fn out_of_range_access_is_rejected() {
    let content: Vec<u8> = vec![0; 10];
    let meta = meta_for(vec![file(&["a"], 10)], 16, &content);
    let mut st = Disk::new(&meta);
    let err = st.write_block(0, 8, &[1, 2, 3, 4]).unwrap_err();
    assert_eq!(err, OutOfRange);
    assert_eq!(err.message(), "storage: range outside torrent");
}

#[test]
fn segments_partition_the_range() {
    let content = vec![0u8; 30];
    let files = vec![file(&["a"], 10), file(&["empty"], 0), file(&["b"], 4), file(&["c"], 16)];
    let layout = Layout::new(&meta_for(files, 16, &content));
    assert_eq!(
        layout.segments(0, 8, 8).unwrap(),
        vec![
            Segment { file: 0, offset: 8, from: 0, to: 2 },
            Segment { file: 2, offset: 0, from: 2, to: 6 },
            Segment { file: 3, offset: 0, from: 6, to: 8 },
        ]
    );
    assert_eq!(layout.segments(1, 14, 0).unwrap(), vec![]);
    assert_eq!(layout.check_range(29, 1), Ok(30));
    assert_eq!(layout.check_range(u64::MAX, 2), Err(OutOfRange));
}

#[test]
fn a_piece_that_does_not_exist_never_verifies() {
    let content = vec![1u8; 20];
    let layout = Layout::new(&meta_for(vec![file(&["a"], 20)], 16, &content));
    assert!(layout.verify_piece(1, &content[16..]));
    assert!(!layout.verify_piece(1, &content[15..]));
    assert!(!layout.verify_piece(2, &[]));
    assert!(!layout.verify_piece(0, &[2; 16]));
    assert!(layout.accepts_digest(1, &piece_hash(&content[16..])));
    assert!(!layout.accepts_digest(0, &piece_hash(&content[16..])));
    assert!(!layout.accepts_digest(2, &piece_hash(&content[16..])));
}

#[test]
fn a_torrent_that_was_read_can_be_laid_out() {
    let dict = |entries: Vec<(&str, Value)>| {
        let mut d = Dict::new();
        for (k, v) in entries {
            d.insert(k.as_bytes().to_vec(), v);
        }
        Value::Dict(d)
    };
    let bytes = |s: &str| Value::Bytes(s.as_bytes().to_vec());
    let entry = |name: &str, len: i64| {
        dict(vec![("length", Value::Int(len)), ("path", Value::List(vec![bytes(name)]))])
    };
    let info = dict(vec![
        ("name", bytes("album")),
        ("piece length", Value::Int(16384)),
        ("pieces", Value::Bytes(vec![0u8; 40])),
        ("files", Value::List(vec![entry("a", 10_000), entry("b", 10_000)])),
    ]);
    let meta = MetaInfo::parse(&encode(&dict(vec![("info", info)]))).unwrap();
    let layout = Layout::new(&meta);
    assert_eq!(layout.num_pieces(), 2);
    assert_eq!(layout.piece_len(1), 20_000 - 16_384);
    let all = layout.segments(0, 0, 20_000).unwrap();
    assert_eq!(all.len(), 2);
    assert_eq!(all[1], Segment { file: 1, offset: 0, from: 10_000, to: 20_000 });
}

#[test]
fn the_reads_of_a_piece_cover_it() {
    let len = 2 * u64::from(CHUNK) + 100;
    let content: Vec<u8> = (0..2 * len).map(|i| (i % 251) as u8).collect();
    let layout =
        Layout::new(&meta_for(vec![file(&["a"], 2 * len)], 2 * CHUNK + 100, &content));
    for index in 0..2u32 {
        let piece = &content[index as usize * len as usize..][..len as usize];
        let mut check = layout.check_piece(index);
        let mut hasher = Sha1::new();
        let mut reads = Vec::new();
        while let Some((begin, n)) = check.next_read() {
            hasher.update(&piece[begin as usize..][..n as usize]);
            reads.push((begin, n));
        }
        assert_eq!(reads, vec![(0, CHUNK), (CHUNK, CHUNK), (2 * CHUNK, 100)]);
        assert_eq!(check.next_read(), None);
        let digest: [u8; 20] = hasher.finalize().into();
        assert!(layout.accepts_digest(index, &digest));
        assert!(layout.verify_piece(index, piece));
    }
    assert_eq!(layout.check_piece(2).next_read(), None);
}
