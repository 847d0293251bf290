use llama_node::session::Session;
use llama_node::snapshot::frame;
use llama_node::snapshot::read_or_create_session;
use llama_node::snapshot::read_session;
use llama_node::snapshot::snapshot;
use llama_node::snapshot::write_session;
use llama_node::snapshot::Layout;
use llama_node::snapshot::SnapshotError;
use llama_node::snapshot::SnapshotRecord;
use llama_node::snapshot::Stored;
use llama_node::snapshot::COMPRESSION_LEVEL;
use llama_node::snapshot::SNAPSHOT_MAGIC;
use llama_node::snapshot::SNAPSHOT_VERSION;

fn record() -> SnapshotRecord {
    SnapshotRecord {
        n_ctx: 16,
        half_precision: true,
        first_evaluation: false,
        memory: vec![0xde, 0xad, 0xbe, 0xef, 0x01],
        history: vec![1, -1, 258, i32::MAX, i32::MIN],
    }
}

fn layout() -> Layout {
    Layout { n_ctx: 16, half_precision: true, memory_len: 5 }
}

fn same(a: &SnapshotRecord, b: &SnapshotRecord) -> bool {
    a.n_ctx == b.n_ctx
        && a.half_precision == b.half_precision
        && a.first_evaluation == b.first_evaluation
        && a.memory == b.memory
        && a.history == b.history
}

#[test]
fn the_body_is_laid_out_byte_for_byte() {
    let r = SnapshotRecord {
        n_ctx: 0x0102,
        half_precision: false,
        first_evaluation: true,
        memory: vec![9, 8, 7],
        history: vec![1, -2],
    };
    let expected: Vec<u8> = vec![
        0x02, 0x01, 0, 0, 0, 0, 0, 0, // context size
        0, // half precision
        1, // first evaluation
        3, 0, 0, 0, 0, 0, 0, 0, // memory length
        9, 8, 7, // memory
        2, 0, 0, 0, 0, 0, 0, 0, // number of tokens
        1, 0, 0, 0, // token 1
        0xfe, 0xff, 0xff, 0xff, // token -2
    ];
    assert_eq!(r.encode(), expected);
}

#[test]
fn the_body_of_an_empty_record() {
    let r = SnapshotRecord {
        n_ctx: 0,
        half_precision: false,
        first_evaluation: false,
        memory: vec![],
        history: vec![],
    };
    assert_eq!(r.encode(), vec![0u8; 26]);
    assert!(same(&SnapshotRecord::decode(&vec![0u8; 26]).unwrap(), &r));
}

#[test]
fn decoding_undoes_encoding() {
    let r = record();
    let decoded = SnapshotRecord::decode(&r.encode()).unwrap();
    assert!(same(&decoded, &r));
    assert_eq!(decoded.encode(), r.encode());
}

#[test]
fn malformed_bodies_are_corrupt() {
    let good = record().encode();
    assert!(SnapshotRecord::decode(&good).is_ok());
    assert_eq!(SnapshotRecord::decode(&vec![]).err(), Some(SnapshotError::Corrupt));
    assert_eq!(SnapshotRecord::decode(&vec![0u8; 25]).err(), Some(SnapshotError::Corrupt));
    // One byte short, one byte long.
    assert_eq!(
        SnapshotRecord::decode(&good[..good.len() - 1].to_vec()).err(),
        Some(SnapshotError::Corrupt)
    );
    let mut long = good.clone();
    long.push(0);
    assert_eq!(SnapshotRecord::decode(&long).err(), Some(SnapshotError::Corrupt));
    // A flag that is neither 0 nor 1.
    let mut bad = good.clone();
    bad[8] = 2;
    assert_eq!(SnapshotRecord::decode(&bad).err(), Some(SnapshotError::Corrupt));
    let mut bad = good.clone();
    bad[9] = 0xff;
    assert_eq!(SnapshotRecord::decode(&bad).err(), Some(SnapshotError::Corrupt));
    // A memory length beyond the bytes.
    let mut bad = good.clone();
    bad[17] = 0x7f;
    assert_eq!(SnapshotRecord::decode(&bad).err(), Some(SnapshotError::Corrupt));
    // A number of tokens other than what follows.
    let mut bad = good.clone();
    bad[10 + 8 + 5] = 4;
    assert_eq!(SnapshotRecord::decode(&bad).err(), Some(SnapshotError::Corrupt));
    // More tokens than the context window holds.
    let mut bad = good.clone();
    bad[0] = 4;
    assert_eq!(SnapshotRecord::decode(&bad).err(), Some(SnapshotError::Corrupt));
}

#[test]
fn validity_and_layout() {
    let r = record();
    assert!(r.is_valid());
    assert!(r.is_for(&layout()));
    assert!(!r.is_for(&Layout { n_ctx: 32, half_precision: true, memory_len: 5 }));
    assert!(!r.is_for(&Layout { n_ctx: 16, half_precision: false, memory_len: 5 }));
    assert!(!r.is_for(&Layout { n_ctx: 16, half_precision: true, memory_len: 6 }));
    let mut r = record();
    r.n_ctx = 4;
    assert!(!r.is_valid());
    r.n_ctx = 5;
    assert!(r.is_valid());
}

#[test]
fn the_file_starts_with_magic_and_version() {
    assert_eq!(SNAPSHOT_VERSION, 1);
    assert_eq!(COMPRESSION_LEVEL, 1);
    let file = frame(&vec![7, 7, 7]);
    assert_eq!(&file[0..4], &SNAPSHOT_MAGIC.to_le_bytes());
    assert_eq!(&file[4..8], &[1, 0, 0, 0]);
    assert_eq!(&file[8..], &[7, 7, 7]);
    assert_eq!(&file[0..4], b"LLSN");
}

#[test]
fn what_is_written_reads_back() {
    let r = record();
    let file = write_session(&r).unwrap();
    let back = read_session(&file, &layout()).unwrap();
    assert!(same(&back, &r));
}

#[test]
fn a_large_session_reads_back_and_is_compressed() {
    let mut memory: Vec<u8> = Vec::new();
    for i in 0..100_000u32 {
        memory.push((i % 7) as u8);
    }
    let mut history: Vec<i32> = Vec::new();
    for i in 0..2000 {
        history.push(i % 50);
    }
    let r = SnapshotRecord {
        n_ctx: 2048,
        half_precision: false,
        first_evaluation: false,
        memory,
        history,
    };
    let body = r.encode();
    let file = write_session(&r).unwrap();
    assert!(file.len() < body.len() / 4);
    let back =
        read_session(&file, &Layout { n_ctx: 2048, half_precision: false, memory_len: 100_000 })
            .unwrap();
    assert!(same(&back, &r));
    assert_eq!(back.memory, r.memory);
}

#[test]
fn the_body_is_a_zstd_frame_and_not_the_plain_bytes() {
    let r = record();
    let body = r.encode();
    let file = write_session(&r).unwrap();
    assert_eq!(&file[8..12], &[0x28, 0xb5, 0x2f, 0xfd]);
    assert_ne!(&file[8..], &body[..]);
    // The plain body behind a header does not read as a snapshot.
    assert_eq!(read_session(&frame(&body), &layout()).err(), Some(SnapshotError::Corrupt));
}

#[test]
fn a_record_with_too_many_tokens_is_not_written() {
    let mut r = record();
    r.n_ctx = 2;
    assert_eq!(write_session(&r).err(), Some(SnapshotError::Invalid));
}

#[test]
fn what_is_no_snapshot_is_refused() {
    let file = write_session(&record()).unwrap();
    assert_eq!(read_session(&vec![], &layout()).err(), Some(SnapshotError::NotASnapshot));
    assert_eq!(
        read_session(&file[..7].to_vec(), &layout()).err(),
        Some(SnapshotError::NotASnapshot)
    );
    let mut bad = file.clone();
    bad[0] ^= 0xff;
    assert_eq!(read_session(&bad, &layout()).err(), Some(SnapshotError::NotASnapshot));
}

#[test]
fn another_version_is_refused() {
    let file = write_session(&record()).unwrap();
    let mut other = file.clone();
    other[4] = 2;
    assert_eq!(read_session(&other, &layout()).err(), Some(SnapshotError::UnsupportedVersion));
    let mut other = file.clone();
    other[7] = 1;
    assert_eq!(read_session(&other, &layout()).err(), Some(SnapshotError::UnsupportedVersion));
}

#[test]
fn a_damaged_body_is_corrupt() {
    let file = write_session(&record()).unwrap();
    // Only the header.
    assert_eq!(read_session(&file[..8].to_vec(), &layout()).err(), Some(SnapshotError::Corrupt));
    // Cut short.
    assert_eq!(
        read_session(&file[..file.len() - 3].to_vec(), &layout()).err(),
        Some(SnapshotError::Corrupt)
    );
    // Not a zstd frame at all.
    assert_eq!(
        read_session(&frame(&vec![1, 2, 3, 4, 5, 6]), &layout()).err(),
        Some(SnapshotError::Corrupt)
    );
}

#[test]
fn a_snapshot_for_another_model_is_incompatible() {
    let file = write_session(&record()).unwrap();
    for other in [
        Layout { n_ctx: 32, half_precision: true, memory_len: 5 },
        Layout { n_ctx: 16, half_precision: false, memory_len: 5 },
        Layout { n_ctx: 16, half_precision: true, memory_len: 4 },
    ] {
        assert_eq!(read_session(&file, &other).err(), Some(SnapshotError::Incompatible));
    }
}

#[test]
fn a_session_is_snapshot_and_restored() {
    let session = Session::restore(16, vec![5, 6, 7], false).unwrap();
    let r = snapshot(&session, true, vec![1, 2, 3, 4, 5]);
    assert_eq!(r.n_ctx, 16);
    assert!(r.half_precision);
    assert!(!r.first_evaluation);
    assert_eq!(r.memory, vec![1, 2, 3, 4, 5]);
    assert_eq!(r.history, vec![5, 6, 7]);
    let file = write_session(&r).unwrap();
    let opened = read_or_create_session(Stored::Found(file), &layout(), false).unwrap();
    assert_eq!(opened.session.n_ctx(), 16);
    assert_eq!(opened.session.history(), &vec![5, 6, 7]);
    assert!(!opened.session.is_first_evaluation());
    assert_eq!(opened.memory, Some(vec![1, 2, 3, 4, 5]));
}

#[test]
fn without_a_place_the_session_starts_afresh() {
    let opened = read_or_create_session(Stored::NotRequested, &layout(), false).unwrap();
    assert_eq!(opened.session.n_ctx(), 16);
    assert_eq!(opened.session.len(), 0);
    assert!(opened.session.is_first_evaluation());
    assert!(opened.memory.is_none());
}

#[test]
fn a_missing_snapshot_starts_afresh_only_where_permitted() {
    let opened = read_or_create_session(Stored::Missing, &layout(), true).unwrap();
    assert_eq!(opened.session.len(), 0);
    assert!(opened.memory.is_none());
    assert_eq!(
        read_or_create_session(Stored::Missing, &layout(), false).err(),
        Some(SnapshotError::Missing)
    );
}

#[test]
fn a_snapshot_that_does_not_read_never_starts_afresh() {
    let file = write_session(&record()).unwrap();
    let other = Layout { n_ctx: 32, half_precision: true, memory_len: 5 };
    for permit in [false, true] {
        assert_eq!(
            read_or_create_session(Stored::Found(file.clone()), &other, permit).err(),
            Some(SnapshotError::Incompatible)
        );
        assert_eq!(
            read_or_create_session(Stored::Found(vec![1, 2, 3]), &layout(), permit).err(),
            Some(SnapshotError::NotASnapshot)
        );
        assert_eq!(
            read_or_create_session(Stored::Found(file[..10].to_vec()), &layout(), permit).err(),
            Some(SnapshotError::Corrupt)
        );
    }
}

#[test]
fn writing_twice_gives_the_same_file() {
    let r = record();
    assert_eq!(write_session(&r).unwrap(), write_session(&r).unwrap());
    let mut other = record();
    other.history.push(77);
    assert_ne!(write_session(&r).unwrap(), write_session(&other).unwrap());
}

#[test]
fn a_valid_record_is_written() {
    let r = record();
    let file = write_session(&r).unwrap();
    assert!(file.len() > 8);
    assert_eq!(&file[..8], &frame(&vec![])[..]);
    let empty = SnapshotRecord {
        n_ctx: 0,
        half_precision: false,
        first_evaluation: true,
        memory: vec![],
        history: vec![],
    };
    assert!(write_session(&empty).is_ok());
}
