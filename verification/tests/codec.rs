use flate2::Crc;
use std::io::{Read, Write};
use slf_archive::entry::InnerFile;
use slf_archive::error::ArchiveError;
use slf_archive::format::{BUFFER_SIZE, HEADER_LEN, SIGNATURE, VERSION};
use slf_archive::pack::{pack, SourceFile};
use slf_archive::path::PathKind;
use slf_archive::stream::ArchiveReader;
use slf_archive::unpack::unpack;

fn source(path: &str, content: &[u8]) -> SourceFile {
    SourceFile { path: path.as_bytes().to_vec(), content: content.to_vec() }
}

fn crc_of(data: &[u8]) -> u32 {
    let mut crc = Crc::new();
    crc.update(data);
    crc.sum()
}

fn docs() -> Vec<SourceFile> {
    vec![source("docs/a.txt", b"hi\n"), source("docs/sub/b.bin", b"")]
}

fn names(path: &[Vec<u8>]) -> Vec<String> {
    path.iter().map(|n| String::from_utf8(n.clone()).unwrap()).collect()
}

/// Reads the records of an archive, skipping the gzip streams.
fn records(archive: &[u8]) -> Vec<InnerFile> {
    let count = u32::from_le_bytes(archive[6..10].try_into().unwrap());
    let mut reader = ArchiveReader::new(archive);
    reader.read_exact(HEADER_LEN).unwrap();
    let mut found = Vec::new();
    for _ in 0..count {
        let file = InnerFile::from_archive(&mut reader).unwrap();
        reader.read_exact(file.compressed_size() as usize).unwrap();
        found.push(file);
    }
    found
}

#[test]
fn example_scenario_docs() {
    let archive = pack(b"docs", PathKind::Directory, &docs()).unwrap();
    assert_eq!(u32::from_le_bytes(archive[6..10].try_into().unwrap()), 2);
    let entries = records(&archive);
    assert_eq!(entries.len(), 2);
    assert_eq!(entries[0].name().as_slice(), b"a.txt");
    assert_eq!(entries[1].name().as_slice(), b"sub/b.bin");
    assert_eq!(entries[0].original_size(), 3);
    assert_eq!(entries[1].original_size(), 0);
    assert_eq!(entries[0].original_checksum(), crc_of(b"hi\n"));
    assert_eq!(entries[0].original_checksum(), 0xed6f7a7a);
    assert_eq!(entries[1].original_checksum(), crc_of(b""));
    assert_eq!(entries[1].original_checksum(), 0);

    let out = unpack(b"out/docs.slf", b"target", &archive).unwrap();
    assert_eq!(out.root, b"target/docs".to_vec());
    assert_eq!(out.files.len(), 2);
    assert_eq!(names(&out.files[0].path), vec!["a.txt"]);
    assert_eq!(out.files[0].content, b"hi\n".to_vec());
    assert_eq!(names(&out.files[1].path), vec!["sub", "b.bin"]);
    assert_eq!(out.files[1].content, Vec::<u8>::new());
    assert_eq!(crc_of(&out.files[0].content), entries[0].original_checksum());
    assert_eq!(crc_of(&out.files[1].content), entries[1].original_checksum());
}

#[test]
fn header_layout_is_exact() {
    let archive = pack(b"docs", PathKind::Directory, &docs()).unwrap();
    assert_eq!(&archive[0..4], b".slf");
    assert_eq!(&archive[0..4], &SIGNATURE[..]);
    assert_eq!(&archive[4..6], &VERSION[..]);
    assert_eq!(&archive[4..6], &[1u8, 0u8][..]);
    let index_offset = u64::from_le_bytes(archive[10..18].try_into().unwrap()) as usize;
    assert_eq!(index_offset, archive.len() - 16);
}

#[test]
fn record_layout_is_exact() {
    let archive = pack(b"docs", PathKind::Directory, &docs()).unwrap();
    let entries = records(&archive);
    let first = &entries[0];
    assert_eq!(first.position(), 18);
    assert_eq!(&archive[18..22], &5u32.to_le_bytes()[..]);
    assert_eq!(&archive[22..27], b"a.txt");
    assert_eq!(&archive[27..35], &3u64.to_le_bytes()[..]);
    assert_eq!(&archive[35..43], &first.compressed_size().to_le_bytes()[..]);
    assert_eq!(&archive[43..47], &first.original_checksum().to_le_bytes()[..]);
    assert_eq!(&archive[47..51], &first.compressed_checksum().to_le_bytes()[..]);
    let payload = &archive[51..51 + first.compressed_size() as usize];
    assert_eq!(first.compressed_checksum(), crc_of(payload));
    assert_eq!(&payload[0..2], &[0x1fu8, 0x8b][..]);
    assert_ne!(payload, b"hi\n");
    assert_eq!(entries[1].position(), 51 + first.compressed_size());
}

#[test]
fn index_lists_the_positions_in_order() {
    let archive = pack(b"docs", PathKind::Directory, &docs()).unwrap();
    let entries = records(&archive);
    let index_offset = u64::from_le_bytes(archive[10..18].try_into().unwrap()) as usize;
    let last = &entries[1];
    assert_eq!(
        index_offset as u64,
        last.position() + 4 + 9 + 24 + last.compressed_size()
    );
    let first = u64::from_le_bytes(archive[index_offset..index_offset + 8].try_into().unwrap());
    let second =
        u64::from_le_bytes(archive[index_offset + 8..index_offset + 16].try_into().unwrap());
    assert_eq!(first, entries[0].position());
    assert_eq!(second, entries[1].position());
    assert_eq!(archive.len(), index_offset + 16);
}

#[test]
fn empty_directory_gives_header_only() {
    let archive = pack(b"docs", PathKind::Directory, &Vec::new()).unwrap();
    let mut expected = b".slf".to_vec();
    expected.extend_from_slice(&[1, 0]);
    expected.extend_from_slice(&0u32.to_le_bytes());
    expected.extend_from_slice(&18u64.to_le_bytes());
    assert_eq!(archive, expected);
    let out = unpack(b"docs.slf", b"target", &archive).unwrap();
    assert_eq!(out.root, b"target".to_vec());
    assert!(out.files.is_empty());
}

#[test]
fn single_file_source_is_stored_under_its_file_name() {
    let files = vec![source("some/where/note.txt", b"text")];
    let archive = pack(b"some/where/note.txt", PathKind::File, &files).unwrap();
    let entries = records(&archive);
    assert_eq!(entries[0].name().as_slice(), b"note.txt");
    let out = unpack(b"note.slf", b"target", &archive).unwrap();
    assert_eq!(out.root, b"target".to_vec());
    assert_eq!(names(&out.files[0].path), vec!["note.txt"]);
    assert_eq!(out.files[0].content, b"text".to_vec());
}

#[test]
fn round_trip_keeps_names_contents_and_order() {
    let mut binary = Vec::new();
    for i in 0..70000u32 {
        binary.push((i.wrapping_mul(2654435761) >> 13) as u8);
    }
    let big = vec![7u8; 3 * BUFFER_SIZE + 17];
    let exact = vec![0xffu8; BUFFER_SIZE];
    let files = vec![
        SourceFile { path: b"root/z/last.bin".to_vec(), content: binary.clone() },
        SourceFile { path: b"root/empty".to_vec(), content: Vec::new() },
        SourceFile { path: b"root/a/b/c/big".to_vec(), content: big.clone() },
        SourceFile { path: b"root/exact".to_vec(), content: exact.clone() },
        SourceFile { path: b"root/\xff\xfe".to_vec(), content: vec![0, 1, 2, 255] },
    ];
    let archive = pack(b"root", PathKind::Directory, &files).unwrap();
    let out = unpack(b"root.slf", b"", &archive).unwrap();
    assert_eq!(out.root, b"root".to_vec());
    assert_eq!(out.files.len(), 5);
    assert_eq!(out.files[0].path, vec![b"z".to_vec(), b"last.bin".to_vec()]);
    assert_eq!(out.files[0].content, binary);
    assert_eq!(out.files[1].path, vec![b"empty".to_vec()]);
    assert_eq!(out.files[1].content, Vec::<u8>::new());
    assert_eq!(
        out.files[2].path,
        vec![b"a".to_vec(), b"b".to_vec(), b"c".to_vec(), b"big".to_vec()]
    );
    assert_eq!(out.files[2].content, big);
    assert_eq!(out.files[3].content, exact);
    assert_eq!(out.files[4].path, vec![b"\xff\xfe".to_vec()]);
    assert_eq!(out.files[4].content, vec![0, 1, 2, 255]);
}

#[test]
fn packing_is_repeatable() {
    let first = pack(b"docs", PathKind::Directory, &docs()).unwrap();
    let second = pack(b"docs", PathKind::Directory, &docs()).unwrap();
    assert_eq!(first, second);
}

#[test]
fn bad_signature_is_rejected() {
    let mut archive = pack(b"docs", PathKind::Directory, &docs()).unwrap();
    archive[0] = b'x';
    let err = unpack(b"docs.slf", b"target", &archive).unwrap_err();
    assert_eq!(
        err,
        ArchiveError::Path(
            "File is corrupted or has incorrect type. File at path: docs.slf".to_string()
        )
    );
    let short = b"xslfgarbage".to_vec();
    assert!(matches!(unpack(b"docs.slf", b"target", &short), Err(ArchiveError::Path(_))));
    for i in 0..4 {
        let mut broken = pack(b"docs", PathKind::Directory, &docs()).unwrap();
        broken[i] ^= 0x20;
        assert!(matches!(unpack(b"docs.slf", b"t", &broken), Err(ArchiveError::Path(_))));
    }
}

#[test]
fn other_major_version_is_rejected() {
    let mut archive = pack(b"docs", PathKind::Directory, &docs()).unwrap();
    archive[4] = 2;
    assert_eq!(
        unpack(b"docs.slf", b"target", &archive).unwrap_err(),
        ArchiveError::UnsupportedVersion(2)
    );
    let only_header = [b'.', b's', b'l', b'f', 9, 0];
    assert_eq!(
        unpack(b"docs.slf", b"target", &only_header).unwrap_err(),
        ArchiveError::UnsupportedVersion(9)
    );
}

#[test]
fn other_minor_version_is_accepted() {
    let mut archive = pack(b"docs", PathKind::Directory, &docs()).unwrap();
    archive[5] = 7;
    assert_eq!(unpack(b"docs.slf", b"target", &archive).unwrap().files.len(), 2);
}

#[test]
fn every_flipped_payload_byte_is_found() {
    let files = vec![source("docs/a.txt", b"some content that is compressed, compressed")];
    let archive = pack(b"docs", PathKind::Directory, &files).unwrap();
    let entry = &records(&archive)[0];
    let start = 18 + 4 + 5 + 24;
    let end = start + entry.compressed_size() as usize;
    assert!(end - start > 18);
    for at in start..end {
        for mask in [0x01u8, 0x80u8, 0xffu8] {
            let mut broken = archive.clone();
            broken[at] ^= mask;
            match unpack(b"docs.slf", b"target", &broken) {
                Err(ArchiveError::CorruptedArchive(_)) => {}
                other => panic!("byte {} mask {}: {:?}", at, mask, other),
            }
        }
    }
}

#[test]
fn corruption_in_a_later_entry_refuses_the_whole_archive() {
    let archive = pack(b"docs", PathKind::Directory, &docs()).unwrap();
    let entries = records(&archive);
    let second_payload = entries[1].position() as usize + 4 + 9 + 24;
    let mut broken = archive.clone();
    broken[second_payload + 12] ^= 0x10;
    assert!(matches!(
        unpack(b"docs.slf", b"target", &broken),
        Err(ArchiveError::CorruptedArchive(_))
    ));
}

#[test]
fn wrong_checksums_and_sizes_have_their_texts() {
    let files = vec![source("docs/a.txt", b"hi\n")];
    let archive = pack(b"docs", PathKind::Directory, &files).unwrap();
    let entry = &records(&archive)[0];
    let original = entry.original_checksum();
    let compressed = entry.compressed_checksum();

    let mut wrong_original = archive.clone();
    wrong_original[43..47].copy_from_slice(&7u32.to_le_bytes());
    assert_eq!(
        unpack(b"a.slf", b"t", &wrong_original).unwrap_err(),
        ArchiveError::CorruptedArchive(format!(
            "Archive corrupted! Unpacked checksums isn't equal to! {} isn't equal to 7",
            original
        ))
    );

    let mut wrong_compressed = archive.clone();
    wrong_compressed[47..51].copy_from_slice(&9u32.to_le_bytes());
    assert_eq!(
        unpack(b"a.slf", b"t", &wrong_compressed).unwrap_err(),
        ArchiveError::CorruptedArchive(format!(
            "Archive corrupted! Unpacked checksums isn't equal to! {} isn't equal to 9",
            compressed
        ))
    );

    let mut wrong_size = archive.clone();
    wrong_size[27..35].copy_from_slice(&4u64.to_le_bytes());
    assert_eq!(
        unpack(b"a.slf", b"t", &wrong_size).unwrap_err(),
        ArchiveError::CorruptedArchive(
            "Archive corrupted! Unpacked file has another size! 4 isn't equal to 3".to_string()
        )
    );
}

#[test]
fn undecodable_stream_with_matching_checksum_is_an_io_error() {
    let files = vec![source("docs/a.txt", b"hi\n")];
    let mut archive = pack(b"docs", PathKind::Directory, &files).unwrap();
    let size = records(&archive)[0].compressed_size() as usize;
    archive[51] = 0;
    let sum = crc_of(&archive[51..51 + size]);
    archive[47..51].copy_from_slice(&sum.to_le_bytes());
    assert_eq!(
        unpack(b"a.slf", b"t", &archive).unwrap_err(),
        ArchiveError::Io("failed to decode the compressed stream".to_string())
    );
}

#[test]
fn truncated_archives_are_short_reads() {
    let archive = pack(b"docs", PathKind::Directory, &docs()).unwrap();
    let short = ArchiveError::Io("failed to fill whole buffer".to_string());
    for len in [0usize, 3, 5, 9, 17, 20, 30, 50, 52] {
        assert_eq!(unpack(b"docs.slf", b"t", &archive[..len]).unwrap_err(), short, "{}", len);
    }
}

#[test]
fn missing_index_does_not_stop_sequential_unpacking() {
    let archive = pack(b"docs", PathKind::Directory, &docs()).unwrap();
    let without_index = &archive[..archive.len() - 16];
    assert_eq!(unpack(b"docs.slf", b"t", without_index).unwrap().files.len(), 2);
}

#[test]
fn long_name_fails_pack() {
    let long = vec![b'n'; BUFFER_SIZE + 1];
    let mut path = b"root/".to_vec();
    path.extend_from_slice(&long);
    let files = vec![SourceFile { path, content: b"x".to_vec() }];
    assert_eq!(
        pack(b"root", PathKind::Directory, &files).unwrap_err(),
        ArchiveError::BufferOverflow(BUFFER_SIZE + 1)
    );
}

#[test]
fn longest_name_round_trips() {
    let long = vec![b'n'; BUFFER_SIZE];
    let mut path = b"root/".to_vec();
    path.extend_from_slice(&long);
    let files = vec![SourceFile { path, content: b"x".to_vec() }];
    let archive = pack(b"root", PathKind::Directory, &files).unwrap();
    let out = unpack(b"root.slf", b"t", &archive).unwrap();
    assert_eq!(out.files[0].path, vec![long]);
}

#[test]
fn long_name_fails_unpack() {
    let mut archive = b".slf".to_vec();
    archive.extend_from_slice(&[1, 0]);
    archive.extend_from_slice(&1u32.to_le_bytes());
    archive.extend_from_slice(&0u64.to_le_bytes());
    archive.extend_from_slice(&(BUFFER_SIZE as u32 + 1).to_le_bytes());
    archive.extend_from_slice(&vec![b'a'; BUFFER_SIZE + 100]);
    assert_eq!(
        unpack(b"a.slf", b"t", &archive).unwrap_err(),
        ArchiveError::BufferOverflow(BUFFER_SIZE + 1)
    );
}

#[test]
fn empty_name_fails_unpack() {
    let mut archive = b".slf".to_vec();
    archive.extend_from_slice(&[1, 0]);
    archive.extend_from_slice(&1u32.to_le_bytes());
    archive.extend_from_slice(&0u64.to_le_bytes());
    archive.extend_from_slice(&0u32.to_le_bytes());
    archive.extend_from_slice(&[0u8; 64]);
    assert_eq!(unpack(b"a.slf", b"t", &archive).unwrap_err(), ArchiveError::EmptyFilename);
}

#[test]
fn names_that_leave_the_root_are_rejected() {
    for (root, path, stored) in [
        ("r", "r/../evil", "../evil"),
        ("r", "r/a/../../evil", "a/../../evil"),
        ("r", "r/a/../b", "a/../b"),
        ("r", "r/..", ".."),
    ] {
        let files = vec![source(path, b"x")];
        let archive = pack(root.as_bytes(), PathKind::Directory, &files).unwrap();
        assert_eq!(records(&archive)[0].name().as_slice(), stored.as_bytes());
        assert_eq!(
            unpack(b"r.slf", b"target", &archive).unwrap_err(),
            ArchiveError::Path(format!(
                "Entry name is not a path below the extraction directory: {}",
                stored
            ))
        );
    }
}

#[test]
fn absolute_names_are_rejected() {
    let mut archive = pack(b"r", PathKind::Directory, &vec![source("r/etc", b"x")]).unwrap();
    assert_eq!(&archive[22..25], b"etc");
    archive[22] = b'/';
    assert_eq!(
        unpack(b"r.slf", b"target", &archive).unwrap_err(),
        ArchiveError::Path(
            "Entry name is not a path below the extraction directory: /tc".to_string()
        )
    );
}

#[test]
fn every_unpacked_path_is_made_of_plain_names() {
    let files = vec![
        source("r/./a//b", b"1"),
        source("r/x/./y/", b"2"),
    ];
    let archive = pack(b"r", PathKind::Directory, &files).unwrap();
    let out = unpack(b"r.slf", b"target", &archive).unwrap();
    for file in &out.files {
        assert!(!file.path.is_empty());
        for name in &file.path {
            assert!(!name.is_empty());
            assert!(!name.contains(&b'/'));
            assert_ne!(name.as_slice(), b".");
            assert_ne!(name.as_slice(), b"..");
        }
    }
    assert_eq!(names(&out.files[0].path), vec!["a", "b"]);
    assert_eq!(names(&out.files[1].path), vec!["x", "y"]);
}

#[test]
fn file_outside_the_source_cannot_be_named() {
    let files = vec![source("elsewhere/a", b"x")];
    assert_eq!(
        pack(b"root", PathKind::Directory, &files).unwrap_err(),
        ArchiveError::Path("prefix not found".to_string())
    );
}

#[test]
fn extraction_root_depends_on_the_count() {
    let one = pack(b"r", PathKind::Directory, &vec![source("r/a", b"x")]).unwrap();
    assert_eq!(unpack(b"dir/r.slf", b"target", &one).unwrap().root, b"target".to_vec());
    let two = pack(b"r", PathKind::Directory, &vec![source("r/a", b"x"), source("r/b", b"y")])
        .unwrap();
    assert_eq!(unpack(b"dir/r.slf", b"target", &two).unwrap().root, b"target/r".to_vec());
    assert_eq!(
        unpack(b"..", b"target", &two).unwrap_err(),
        ArchiveError::Path("Failed to get file stem from path: ..".to_string())
    );
}

fn noise(len: usize) -> Vec<u8> {
    let mut state = 0x2545f491u32;
    let mut out = Vec::with_capacity(len);
    for _ in 0..len {
        state ^= state << 13;
        state ^= state >> 17;
        state ^= state << 5;
        out.push((state >> 11) as u8);
    }
    out
}

#[test]
fn gzip_stream_longer_than_one_chunk_round_trips() {
    let content = noise(3 * BUFFER_SIZE + 1);
    let files = vec![
        SourceFile { path: b"r/noise".to_vec(), content: content.clone() },
        SourceFile { path: b"r/after".to_vec(), content: b"after".to_vec() },
    ];
    let archive = pack(b"r", PathKind::Directory, &files).unwrap();
    let entries = records(&archive);
    assert!(entries[0].compressed_size() as usize > 2 * BUFFER_SIZE);
    assert_eq!(entries[0].original_size() as usize, content.len());
    assert_eq!(entries[0].original_checksum(), crc_of(&content));
    let out = unpack(b"r.slf", b"", &archive).unwrap();
    assert_eq!(out.files[0].content, content);
    assert_eq!(out.files[1].content, b"after".to_vec());

    let mut broken = archive.clone();
    let middle = 18 + 4 + 5 + 24 + BUFFER_SIZE + 1000;
    broken[middle] ^= 1;
    assert!(matches!(
        unpack(b"r.slf", b"", &broken),
        Err(ArchiveError::CorruptedArchive(_))
    ));
}

#[test]
fn stored_stream_is_a_gzip_member_of_the_content() {
    let content = noise(1000);
    let files = vec![SourceFile { path: b"r/noise".to_vec(), content: content.clone() }];
    let archive = pack(b"r", PathKind::Directory, &files).unwrap();
    let size = records(&archive)[0].compressed_size() as usize;
    let payload = &archive[51..51 + size];
    let mut decoded = Vec::new();
    flate2::read::GzDecoder::new(payload).read_to_end(&mut decoded).unwrap();
    assert_eq!(decoded, content);
}

#[test]
fn decoding_does_not_depend_on_how_the_stream_is_cut() {
    let content = noise(5000);
    let files = vec![SourceFile { path: b"r/noise".to_vec(), content: content.clone() }];
    let archive = pack(b"r", PathKind::Directory, &files).unwrap();
    let size = records(&archive)[0].compressed_size() as usize;
    let payload = &archive[51..51 + size];
    for cut in [1usize, 2, 3, 7, 8, 9, 10, 11, 64, 4999, size - 8, size - 1, size] {
        let mut decoder = flate2::write::GzDecoder::new(Vec::new());
        let mut out = Vec::new();
        for chunk in payload.chunks(cut) {
            decoder.write_all(chunk).unwrap();
            out.extend(std::mem::take(decoder.get_mut()));
        }
        out.extend(decoder.finish().unwrap());
        assert_eq!(out, content, "cut {}", cut);
    }
    for cut in [1usize, 5, size] {
        let mut longer = payload.to_vec();
        longer.push(0);
        let mut decoder = flate2::write::GzDecoder::new(Vec::new());
        let mut failed = false;
        for chunk in longer.chunks(cut) {
            if decoder.write_all(chunk).is_err() {
                failed = true;
                break;
            }
        }
        assert!(failed || decoder.finish().is_err(), "cut {}", cut);
        let shorter = &payload[..size - 1];
        let mut decoder = flate2::write::GzDecoder::new(Vec::new());
        let mut failed = false;
        for chunk in shorter.chunks(cut) {
            if decoder.write_all(chunk).is_err() {
                failed = true;
                break;
            }
        }
        assert!(failed || decoder.finish().is_err(), "cut {}", cut);
    }
}

#[test]
fn encoding_in_chunks_gives_one_stream() {
    let content = noise(2 * BUFFER_SIZE + 5);
    let mut encoder = flate2::write::GzEncoder::new(Vec::new(), flate2::Compression::default());
    let mut stream = Vec::new();
    for chunk in content.chunks(BUFFER_SIZE) {
        encoder.write_all(chunk).unwrap();
        stream.extend(std::mem::take(encoder.get_mut()));
    }
    stream.extend(encoder.finish().unwrap());
    let files = vec![SourceFile { path: b"r/noise".to_vec(), content }];
    let archive = pack(b"r", PathKind::Directory, &files).unwrap();
    let size = records(&archive)[0].compressed_size() as usize;
    assert_eq!(&archive[51..51 + size], &stream[..]);
}

#[test]
fn source_that_is_neither_file_nor_directory_fails_pack() {
    for kind in [PathKind::Missing, PathKind::Other] {
        assert_eq!(
            pack(b"a/../gone/.", kind, &Vec::new()).unwrap_err(),
            ArchiveError::Path("Invalid source destination at path: gone".to_string())
        );
        assert_eq!(
            pack(b"docs", kind, &docs()).unwrap_err(),
            ArchiveError::Path("Invalid source destination at path: docs".to_string())
        );
    }
}

#[test]
fn empty_name_fails_pack() {
    let files = vec![source("docs/a.txt", b"x"), source("docs", b"y")];
    assert_eq!(
        pack(b"docs", PathKind::Directory, &files).unwrap_err(),
        ArchiveError::EmptyFilename
    );
    let files = vec![source("./docs/.", b"y")];
    assert_eq!(
        pack(b"docs/../docs", PathKind::Directory, &files).unwrap_err(),
        ArchiveError::Path("prefix not found".to_string())
    );
}

#[test]
fn first_failing_file_decides_the_error_of_pack() {
    let long = vec![b'n'; BUFFER_SIZE + 7];
    let mut path = b"root/".to_vec();
    path.extend_from_slice(&long);
    let files = vec![
        source("root/ok", b"1"),
        SourceFile { path: path.clone(), content: b"2".to_vec() },
        source("elsewhere", b"3"),
    ];
    for _ in 0..2 {
        assert_eq!(
            pack(b"root", PathKind::Directory, &files).unwrap_err(),
            ArchiveError::BufferOverflow(BUFFER_SIZE + 7)
        );
    }
    let files = vec![source("elsewhere", b"3"), SourceFile { path, content: b"2".to_vec() }];
    assert_eq!(
        pack(b"root", PathKind::Directory, &files).unwrap_err(),
        ArchiveError::Path("prefix not found".to_string())
    );
}
