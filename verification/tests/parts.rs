use flate2::Crc;
use slf_archive::checksum::checksum_of;
use slf_archive::entry::InnerFile;
use slf_archive::error::{path_error, ArchiveError};
use slf_archive::pack::{
    get_archive_name, get_archive_path, inner_files, process_files, process_single_file,
    rewrite_temp_fields, write_index_array, SourceFile,
};
use slf_archive::path::{
    confine, default_target, join_components, name_extension, name_stem, normalize_components,
    normalize_path, parse_components, path_extension, path_file_name, path_file_stem,
    path_parent, path_strip_prefix, path_with_extension, push, split_segments, Component,
    PathKind,
};
use slf_archive::stream::{ArchiveReader, ArchiveSink, HasherWriter};
use slf_archive::text::decimal_string;
use slf_archive::unpack::{
    check_entry, get_extraction_path, open_archive, undecodable_error, unpack_files,
    unpack_next, unpack_single_file, validate_archive,
};

fn normalized(path: &str) -> String {
    String::from_utf8(normalize_path(path.as_bytes())).unwrap()
}

fn text(bytes: Vec<u8>) -> String {
    String::from_utf8(bytes).unwrap()
}

fn kinds(path: &str) -> Vec<String> {
    parse_components(path.as_bytes())
        .iter()
        .map(|c| match c {
            Component::RootDir => "/".to_string(),
            Component::CurDir => ".".to_string(),
            Component::ParentDir => "..".to_string(),
            Component::Normal(name) => format!("n:{}", String::from_utf8_lossy(name)),
        })
        .collect()
}

#[test]
fn checksum_of_known_vectors() {
    assert_eq!(checksum_of(b""), 0);
    assert_eq!(checksum_of(b"hello"), 0x3610_a686);
    assert_eq!(checksum_of(b"hi\n"), 3983506042);
    assert_eq!(checksum_of(b"The quick brown fox jumps over the lazy dog"), 0x414f_a339);
}

#[test]
fn decimal_string_values() {
    assert_eq!(decimal_string(0), "0");
    assert_eq!(decimal_string(7), "7");
    assert_eq!(decimal_string(10), "10");
    assert_eq!(decimal_string(131072), "131072");
    assert_eq!(decimal_string(9007199254740993), "9007199254740993");
    assert_eq!(decimal_string(u64::MAX), "18446744073709551615");
}

#[test]
fn error_messages() {
    assert_eq!(ArchiveError::Io("boom".to_string()).message(), "boom");
    assert_eq!(ArchiveError::Path("no way".to_string()).message(), "no way");
    assert_eq!(
        ArchiveError::IncorrectType("zip".to_string()).message(),
        "Incorrect type of the provided archive: expected '.slf', found '.zip'"
    );
    assert_eq!(
        ArchiveError::UnsupportedVersion(3).message(),
        "Archive file has unsupported version: Current version suppots only 1.x archives, \
         when 3 was supplied"
    );
    assert_eq!(
        ArchiveError::BufferOverflow(200000).message(),
        "Buffer overflow: 131072 bytes less, then 200000 bytes"
    );
    assert_eq!(ArchiveError::CorruptedArchive("bad".to_string()).message(), "bad");
    assert_eq!(ArchiveError::EmptyFilename.message(), "Filename is empty");
    assert_eq!(ArchiveError::TryFromSlice("slice".to_string()).message(), "slice");
    assert_eq!(ArchiveError::TryFromInt("int".to_string()).message(), "int");
}

#[test]
fn path_error_shows_the_path_as_text() {
    assert_eq!(
        path_error("At: ", b"a/b"),
        ArchiveError::Path("At: a/b".to_string())
    );
    assert_eq!(
        path_error("At: ", b"a\xffb"),
        ArchiveError::Path("At: a\u{fffd}b".to_string())
    );
}

#[test]
fn segments_are_cut_at_every_separator() {
    let cut = |p: &str| -> Vec<String> {
        split_segments(p.as_bytes()).into_iter().map(text).collect()
    };
    assert_eq!(cut(""), vec![""]);
    assert_eq!(cut("a"), vec!["a"]);
    assert_eq!(cut("a/b"), vec!["a", "b"]);
    assert_eq!(cut("/a//b/"), vec!["", "a", "", "b", ""]);
}

#[test]
fn components_follow_the_unix_rules() {
    assert_eq!(kinds(""), Vec::<String>::new());
    assert_eq!(kinds("/"), vec!["/"]);
    assert_eq!(kinds("."), vec!["."]);
    assert_eq!(kinds("./a"), vec![".", "n:a"]);
    assert_eq!(kinds("a/./b"), vec!["n:a", "n:b"]);
    assert_eq!(kinds("/./a"), vec!["/", "n:a"]);
    assert_eq!(kinds("a//b/"), vec!["n:a", "n:b"]);
    assert_eq!(kinds("../a/.."), vec!["..", "n:a", ".."]);
    assert_eq!(kinds("..."), vec!["n:..."]);
    assert_eq!(kinds(".a"), vec!["n:.a"]);
}

#[test]
fn normalize_path_cases() {
    assert_eq!(normalized(""), "");
    assert_eq!(normalized("."), "");
    assert_eq!(normalized("a"), "a");
    assert_eq!(normalized("a/./b/../c"), "a/c");
    assert_eq!(normalized("./a//b/"), "a/b");
    assert_eq!(normalized("/a/b/../../.."), "/");
    assert_eq!(normalized("/.."), "/");
    assert_eq!(normalized(".."), "..");
    assert_eq!(normalized("../.."), "../..");
    assert_eq!(normalized("a/../.."), "..");
    assert_eq!(normalized("a/../../b"), "../b");
    assert_eq!(normalized("a/b/../../c/./d"), "c/d");
    assert_eq!(normalized("/a/./b"), "/a/b");
}

#[test]
fn normalize_path_is_idempotent_on_examples() {
    for path in ["a/./b/../c", "../../x/..", "/a/../..", "./.", "a//b", "x/../../y/z/.."] {
        let once = normalize_path(path.as_bytes());
        assert_eq!(normalize_path(&once), once, "{}", path);
    }
}

#[test]
fn normalize_components_works_on_rows() {
    let row = vec![
        Component::Normal(b"a".to_vec()),
        Component::RootDir,
        Component::Normal(b"b".to_vec()),
        Component::CurDir,
        Component::ParentDir,
        Component::ParentDir,
        Component::Normal(b"c".to_vec()),
    ];
    let out = normalize_components(&row);
    assert_eq!(text(join_components(&out)), "/c");
}

#[test]
fn push_follows_the_rules_of_paths() {
    let pushed = |base: &str, tail: &str| -> String {
        let mut b = base.as_bytes().to_vec();
        push(&mut b, tail.as_bytes());
        text(b)
    };
    assert_eq!(pushed("", "a"), "a");
    assert_eq!(pushed("a", "b"), "a/b");
    assert_eq!(pushed("a/", "b"), "a/b");
    assert_eq!(pushed("a", "/b"), "/b");
    assert_eq!(pushed("/", "b"), "/b");
    assert_eq!(pushed("a", ""), "a/");
}

#[test]
fn names_stems_and_extensions() {
    assert_eq!(text(name_stem(b"a.tar.gz")), "a.tar");
    assert_eq!(text(name_stem(b"plain")), "plain");
    assert_eq!(text(name_stem(b".hidden")), ".hidden");
    assert_eq!(text(name_stem(b"dot.")), "dot");
    assert_eq!(name_extension(b"a.tar.gz"), Some(b"gz".to_vec()));
    assert_eq!(name_extension(b"plain"), None);
    assert_eq!(name_extension(b".hidden"), None);
    assert_eq!(name_extension(b"dot."), Some(Vec::new()));
    assert_eq!(path_file_name(b"a/b.txt"), Some(b"b.txt".to_vec()));
    assert_eq!(path_file_name(b"a/b.txt/"), Some(b"b.txt".to_vec()));
    assert_eq!(path_file_name(b"a/.."), None);
    assert_eq!(path_file_name(b"/"), None);
    assert_eq!(path_file_name(b""), None);
    assert_eq!(path_file_stem(b"a/b.txt"), Some(b"b".to_vec()));
    assert_eq!(path_extension(b"a/b.slf"), Some(b"slf".to_vec()));
    assert_eq!(path_extension(b"a.slf/b"), None);
}

#[test]
fn with_extension_parent_and_strip_prefix() {
    assert_eq!(text(path_with_extension(b"a/b.txt", b"slf")), "a/b.slf");
    assert_eq!(text(path_with_extension(b"a/b", b"slf")), "a/b.slf");
    assert_eq!(text(path_with_extension(b"a/b.tar.gz", b"slf")), "a/b.tar.slf");
    assert_eq!(text(path_with_extension(b"a/b.txt", b"")), "a/b");
    assert_eq!(text(path_with_extension(b"/", b"slf")), "/");
    assert_eq!(text(path_with_extension(b"a/..", b"slf")), "a/..");
    assert_eq!(path_parent(b"a/b").map(text), Some("a".to_string()));
    assert_eq!(path_parent(b"a").map(text), Some("".to_string()));
    assert_eq!(path_parent(b"/a").map(text), Some("/".to_string()));
    assert_eq!(path_parent(b"/"), None);
    assert_eq!(path_parent(b""), None);
    assert_eq!(text(default_target(b"dir/file")), "dir");
    assert_eq!(text(default_target(b"/")), ".");
    assert_eq!(text(default_target(b"")), ".");
    assert_eq!(path_strip_prefix(b"a/b/c", b"a").map(text), Some("b/c".to_string()));
    assert_eq!(path_strip_prefix(b"./a/b", b"./a").map(text), Some("b".to_string()));
    assert_eq!(path_strip_prefix(b"a/b", b"a/b").map(text), Some("".to_string()));
    assert_eq!(path_strip_prefix(b"a/b", b"b"), None);
    assert_eq!(path_strip_prefix(b"a", b"a/b"), None);
    assert_eq!(path_strip_prefix(b"ab/c", b"a"), None);
}

#[test]
fn confine_accepts_paths_below_and_refuses_others() {
    assert_eq!(confine(b"a/b"), Some(vec![b"a".to_vec(), b"b".to_vec()]));
    assert_eq!(confine(b"./a//b/."), Some(vec![b"a".to_vec(), b"b".to_vec()]));
    assert_eq!(confine(b"..."), Some(vec![b"...".to_vec()]));
    assert_eq!(confine(b""), None);
    assert_eq!(confine(b"."), None);
    assert_eq!(confine(b".."), None);
    assert_eq!(confine(b"../a"), None);
    assert_eq!(confine(b"a/../b"), None);
    assert_eq!(confine(b"a/b/.."), None);
    assert_eq!(confine(b"/a"), None);
    assert_eq!(confine(b"/"), None);
}

#[test]
fn archive_names_and_paths() {
    assert_eq!(get_archive_name(b"dir/file.tar.gz", PathKind::File).map(text), Ok("file.tar".into()));
    assert_eq!(get_archive_name(b"dir/my.dir", PathKind::Directory).map(text), Ok("my.dir".into()));
    assert_eq!(
        get_archive_name(b"..", PathKind::File),
        Err(ArchiveError::Path("Failed to get file stem from path: ..".to_string()))
    );
    assert_eq!(
        get_archive_name(b"/", PathKind::Directory),
        Err(ArchiveError::Path("Failed to get directory name from path: /".to_string()))
    );
    assert_eq!(
        get_archive_path(b"./docs", PathKind::Directory, b"out/./x").map(text),
        Ok("out/x/docs.slf".into())
    );
    assert_eq!(
        get_archive_path(b"docs", PathKind::Directory, b"").map(text),
        Ok("docs.slf".into())
    );
    assert_eq!(
        get_archive_path(b"a/b/note.txt", PathKind::File, b"out").map(text),
        Ok("out/note.slf".into())
    );
    assert_eq!(
        get_archive_path(b"my.dir", PathKind::Directory, b"out").map(text),
        Ok("out/my.slf".into())
    );
    assert_eq!(
        get_archive_path(b"docs", PathKind::Directory, b"out/../named.slf").map(text),
        Ok("named.slf".into())
    );
    assert_eq!(
        get_archive_path(b"a/../docs", PathKind::Missing, b"out"),
        Err(ArchiveError::Path("Invalid source destination at path: docs".to_string()))
    );
    assert_eq!(
        get_archive_path(b"docs", PathKind::Other, b"out"),
        Err(ArchiveError::Path("Invalid source destination at path: docs".to_string()))
    );
}

#[test]
fn extraction_paths() {
    assert_eq!(
        get_extraction_path(b"in/a.slf", PathKind::File, b"out/./dir", PathKind::Directory)
            .map(text),
        Ok("out/dir".into())
    );
    assert_eq!(
        get_extraction_path(b"in/a.slf", PathKind::File, b"new", PathKind::Missing).map(text),
        Ok("new".into())
    );
    assert_eq!(
        get_extraction_path(b"in/a.slf", PathKind::Missing, b"out", PathKind::Directory),
        Err(ArchiveError::Path("Invalid source destination at path: in/a.slf".to_string()))
    );
    assert_eq!(
        get_extraction_path(b"in/a.slf", PathKind::Directory, b"out", PathKind::Directory),
        Err(ArchiveError::Path("Invalid source destination at path: in/a.slf".to_string()))
    );
    assert_eq!(
        get_extraction_path(b"in/a.zip", PathKind::File, b"out", PathKind::Directory),
        Err(ArchiveError::IncorrectType("zip".to_string()))
    );
    assert_eq!(
        get_extraction_path(b"in/a", PathKind::File, b"out", PathKind::Directory),
        Err(ArchiveError::IncorrectType("".to_string()))
    );
    assert_eq!(
        get_extraction_path(b"in/a.slf", PathKind::File, b"out/f", PathKind::File),
        Err(ArchiveError::Path(
            "Archive can't be unpacked into file at path: out/f".to_string()
        ))
    );
}

#[test]
fn reader_reads_front_to_back() {
    let data = [1u8, 2, 3, 4, 5];
    let mut reader = ArchiveReader::new(&data);
    assert_eq!(reader.stream_position(), 0);
    assert_eq!(reader.read_exact(2).unwrap(), &[1u8, 2][..]);
    assert_eq!(reader.stream_position(), 2);
    assert_eq!(
        reader.read_exact(4).unwrap_err(),
        ArchiveError::Io("failed to fill whole buffer".to_string())
    );
    assert_eq!(reader.stream_position(), 2);
    assert_eq!(reader.read(2), &[3u8, 4][..]);
    assert_eq!(reader.read(10), &[5u8][..]);
    assert_eq!(reader.read(10), &[0u8; 0][..]);
    assert_eq!(reader.read_exact(0).unwrap(), &[0u8; 0][..]);
    assert_eq!(reader.stream_position(), 5);
}

#[test]
fn sink_writes_patches_and_fills_gaps() {
    let mut sink = ArchiveSink::new();
    sink.write_all(b"hello world");
    assert_eq!(sink.stream_position(), 11);
    assert_eq!(sink.seek(6), Ok(6));
    sink.write_all(b"WORLD!!");
    assert_eq!(sink.stream_position(), 13);
    assert_eq!(sink.seek(0), Ok(0));
    sink.write_all(b"H");
    sink.write_all(b"");
    assert_eq!(sink.seek(15), Ok(15));
    sink.write_all(b"");
    sink.write_all(b"x");
    sink.flush();
    assert_eq!(sink.into_bytes(), b"Hello WORLD!!\0\0x".to_vec());
}

#[test]
fn hasher_writer_counts_and_checksums() {
    let mut tee = HasherWriter::new(ArchiveSink::new(), Crc::new());
    assert_eq!(tee.sum(), 0);
    assert_eq!(tee.write(b"hel"), 3);
    assert_eq!(tee.write(b"lo"), 2);
    tee.flush();
    assert_eq!(tee.sum(), 0x3610_a686);
    assert_eq!(tee.sum(), 0x3610_a686);
    assert_eq!(tee.stream_position(), 5);
    assert_eq!(tee.take_written_bytes(), 5);
    assert_eq!(tee.take_written_bytes(), 0);
    assert_eq!(tee.write(b" world"), 6);
    assert_eq!(tee.take_written_bytes(), 6);
    assert_eq!(tee.sum(), {
        let mut crc = Crc::new();
        crc.update(b"hello world");
        crc.sum()
    });
    assert_eq!(tee.into_inner().into_bytes(), b"hello world".to_vec());
}

#[test]
fn inner_file_constructors() {
    let plain = InnerFile::new(b"n".to_vec());
    assert_eq!(plain.name().as_slice(), b"n");
    assert_eq!(
        (plain.original_size(), plain.compressed_size(), plain.original_checksum(),
         plain.compressed_checksum(), plain.position()),
        (0, 0, 0, 0, 0)
    );
    let full = InnerFile::create(b"name".to_vec(), 1, 2, 3, 4);
    assert_eq!(
        (full.original_size(), full.compressed_size(), full.original_checksum(),
         full.compressed_checksum(), full.position()),
        (1, 2, 3, 4, 0)
    );
    let none = InnerFile::default();
    assert!(none.name().is_empty());
    assert_eq!(none.original_size(), 0);
}

#[test]
fn metadata_is_written_and_read_back() {
    let mut file = InnerFile::create(b"dir/name".to_vec(), 0x0102030405060708, 77, 0xaabbccdd, 5);
    let mut sink = ArchiveSink::new();
    sink.write_all(b"xx");
    let offset = file.write_metadata(&mut sink).unwrap();
    assert_eq!(file.position(), 2);
    assert_eq!(offset, 2 + 4 + 8 + 8);
    let bytes = sink.into_bytes();
    let mut expected = b"xx".to_vec();
    expected.extend_from_slice(&[8, 0, 0, 0]);
    expected.extend_from_slice(b"dir/name");
    expected.extend_from_slice(&[8, 7, 6, 5, 4, 3, 2, 1]);
    expected.extend_from_slice(&[77, 0, 0, 0, 0, 0, 0, 0]);
    expected.extend_from_slice(&[0xdd, 0xcc, 0xbb, 0xaa]);
    expected.extend_from_slice(&[5, 0, 0, 0]);
    assert_eq!(bytes, expected);

    let mut reader = ArchiveReader::new(&bytes);
    reader.read_exact(2).unwrap();
    let back = InnerFile::from_archive(&mut reader).unwrap();
    assert_eq!(back.name().as_slice(), b"dir/name");
    assert_eq!(back.original_size(), 0x0102030405060708);
    assert_eq!(back.compressed_size(), 77);
    assert_eq!(back.original_checksum(), 0xaabbccdd);
    assert_eq!(back.compressed_checksum(), 5);
    assert_eq!(back.position(), 2);
    assert_eq!(reader.stream_position(), bytes.len() as u64);
}

#[test]
fn metadata_with_a_long_name_is_not_written() {
    let mut file = InnerFile::new(vec![b'a'; 131073]);
    let mut sink = ArchiveSink::new();
    assert_eq!(file.write_metadata(&mut sink), Err(ArchiveError::BufferOverflow(131073)));
    assert_eq!(sink.stream_position(), 0);
    assert!(sink.into_bytes().is_empty());
}

#[test]
fn metadata_errors_when_reading() {
    let read = |bytes: &[u8]| {
        let mut reader = ArchiveReader::new(bytes);
        InnerFile::from_archive(&mut reader).map(|f| f.name().clone())
    };
    let short = ArchiveError::Io("failed to fill whole buffer".to_string());
    assert_eq!(read(&[1, 0, 0]), Err(short));
    assert_eq!(read(&[0, 0, 0, 0, 9, 9]), Err(ArchiveError::EmptyFilename));
    assert_eq!(read(&[1, 0, 2, 0]), Err(ArchiveError::BufferOverflow(131073)));
    let mut exact = vec![0, 0, 2, 0];
    exact.extend_from_slice(&vec![b'x'; 131072 + 24]);
    assert_eq!(read(&exact), Ok(vec![b'x'; 131072]));
    let mut cut = vec![2, 0, 0, 0];
    cut.extend_from_slice(&[b'a'; 25]);
    assert_eq!(
        read(&cut),
        Err(ArchiveError::Io("failed to fill whole buffer".to_string()))
    );
}

#[test]
fn inner_files_names_and_sizes() {
    let files = vec![
        SourceFile { path: b"root/a.txt".to_vec(), content: vec![1, 2, 3] },
        SourceFile { path: b"root/sub/b".to_vec(), content: Vec::new() },
    ];
    let inners = inner_files(b"root", PathKind::Directory, &files).unwrap();
    assert_eq!(inners.len(), 2);
    assert_eq!(inners[0].name().as_slice(), b"a.txt");
    assert_eq!(inners[0].original_size(), 3);
    assert_eq!(inners[0].compressed_size(), 0);
    assert_eq!(inners[1].name().as_slice(), b"sub/b");
    assert_eq!(inners[1].original_size(), 0);

    let one = vec![SourceFile { path: b"x/y/z.bin".to_vec(), content: vec![0; 10] }];
    let inners = inner_files(b"x/y/z.bin", PathKind::File, &one).unwrap();
    assert_eq!(inners[0].name().as_slice(), b"z.bin");
    assert_eq!(inners[0].original_size(), 10);

    let nameless = vec![SourceFile { path: b"..".to_vec(), content: Vec::new() }];
    assert_eq!(
        inner_files(b"..", PathKind::File, &nameless).map(|v| v.len()),
        Err(ArchiveError::Path("Failed to get file name from path: ..".to_string()))
    );
}

#[test]
fn process_single_file_compresses_into_the_writer() {
    let mut tee = HasherWriter::new(ArchiveSink::new(), Crc::new());
    let content = b"aaaaaaaaaaaaaaaaaaaaaaaaaaaaaaaaaaaaaaaaaaaaaaaaaaaaaaaaaaaaaaaa";
    let (size, (original, compressed)) = process_single_file(content, &mut tee).unwrap();
    assert_eq!(tee.take_written_bytes(), 0);
    let written = tee.into_inner().into_bytes();
    assert_eq!(size as usize, written.len());
    assert!(written.len() < content.len());
    assert_eq!(&written[0..3], &[0x1fu8, 0x8b, 8][..]);
    assert_eq!(original, {
        let mut crc = Crc::new();
        crc.update(content);
        crc.sum()
    });
    assert_eq!(compressed, {
        let mut crc = Crc::new();
        crc.update(&written);
        crc.sum()
    });
}

#[test]
fn two_pass_write_by_hand() {
    let files = vec![
        SourceFile { path: b"r/a".to_vec(), content: b"first".to_vec() },
        SourceFile { path: b"r/b".to_vec(), content: b"second".to_vec() },
    ];
    let mut inners = inner_files(b"r", PathKind::Directory, &files).unwrap();
    let mut sink = ArchiveSink::new();
    sink.write_all(&[0u8; 18]);
    let (offsets, sizes, sums) = process_files(&mut inners, &files, &mut sink).unwrap();
    assert_eq!(offsets.len(), 2);
    assert_eq!(inners[0].position(), 18);
    assert_eq!(offsets[0], 18 + 4 + 1 + 8);
    assert_eq!(inners[1].position(), 18 + 29 + sizes[0]);
    assert_eq!(offsets[1], inners[1].position() + 13);
    let end = sink.stream_position();
    assert_eq!(end, inners[1].position() + 29 + sizes[1]);

    rewrite_temp_fields(&mut sink, offsets.clone(), sizes.clone(), sums.clone()).unwrap();
    assert_eq!(sink.stream_position(), end);
    write_index_array(&mut sink, &inners);
    let bytes = sink.into_bytes();
    assert_eq!(&bytes[10..18], &end.to_le_bytes()[..]);
    let at = offsets[1] as usize;
    assert_eq!(&bytes[at..at + 8], &sizes[1].to_le_bytes()[..]);
    assert_eq!(&bytes[at + 8..at + 12], &sums[1].0.to_le_bytes()[..]);
    assert_eq!(&bytes[at + 12..at + 16], &sums[1].1.to_le_bytes()[..]);
    assert_eq!(bytes.len() as u64, end + 16);
    assert_eq!(&bytes[end as usize..end as usize + 8], &18u64.to_le_bytes()[..]);
}

#[test]
fn rewrite_refuses_an_offset_beyond_usize() {
    if usize::BITS < 64 {
        let mut sink = ArchiveSink::new();
        sink.write_all(&[0u8; 18]);
        assert_eq!(
            rewrite_temp_fields(&mut sink, vec![u64::MAX], vec![1], vec![(2, 3)]),
            Err(ArchiveError::TryFromInt(
                "out of range integral type conversion attempted".to_string()
            ))
        );
    }
    let mut sink = ArchiveSink::new();
    assert_eq!(sink.seek(3), Ok(3));
    assert_eq!(sink.stream_position(), 3);
}

#[test]
fn validate_archive_reads_six_bytes() {
    let good = [b'.', b's', b'l', b'f', 1, 0, 42];
    let mut reader = ArchiveReader::new(&good);
    assert_eq!(validate_archive(&mut reader, b"a.slf"), Ok(()));
    assert_eq!(reader.stream_position(), 6);
    let mut reader = ArchiveReader::new(&good[..5]);
    assert_eq!(
        validate_archive(&mut reader, b"a.slf"),
        Err(ArchiveError::Io("failed to fill whole buffer".to_string()))
    );
    let bad = [b'.', b's', b'l', b'g', 1, 0];
    let mut reader = ArchiveReader::new(&bad);
    assert_eq!(
        validate_archive(&mut reader, b"p/a.slf"),
        Err(ArchiveError::Path(
            "File is corrupted or has incorrect type. File at path: p/a.slf".to_string()
        ))
    );
    let old = [b'.', b's', b'l', b'f', 0, 1];
    let mut reader = ArchiveReader::new(&old);
    assert_eq!(validate_archive(&mut reader, b"a.slf"), Err(ArchiveError::UnsupportedVersion(0)));
}

#[test]
fn single_entries_are_unpacked_from_a_reader() {
    let mut tee = HasherWriter::new(ArchiveSink::new(), Crc::new());
    let (size, (original, compressed)) = process_single_file(b"payload", &mut tee).unwrap();
    let mut stream = tee.into_inner().into_bytes();
    stream.extend_from_slice(b"next entry");
    let entry = InnerFile::create(b"f".to_vec(), 7, size, original, compressed);

    let mut reader = ArchiveReader::new(&stream);
    let mut out = HasherWriter::new(ArchiveSink::new(), Crc::new());
    let sums = unpack_single_file(&entry, &mut reader, &mut out).unwrap();
    assert_eq!(sums, (original, compressed));
    assert_eq!(reader.stream_position(), size);
    assert_eq!(out.take_written_bytes(), 7);
    assert_eq!(out.into_inner().into_bytes(), b"payload".to_vec());

    let too_long = InnerFile::create(b"f".to_vec(), 7, stream.len() as u64 + 1, 0, 0);
    let mut reader = ArchiveReader::new(&stream);
    let mut out = HasherWriter::new(ArchiveSink::new(), Crc::new());
    assert_eq!(
        unpack_single_file(&too_long, &mut reader, &mut out),
        Err(ArchiveError::Io("failed to fill whole buffer".to_string()))
    );

    let one_more = InnerFile::create(b"f".to_vec(), 7, size + 1, original, compressed);
    let mut reader = ArchiveReader::new(&stream);
    let mut out = HasherWriter::new(ArchiveSink::new(), Crc::new());
    assert!(matches!(
        unpack_single_file(&one_more, &mut reader, &mut out),
        Err(ArchiveError::CorruptedArchive(_))
    ));
}

#[test]
fn unpack_files_reads_as_many_entries_as_asked() {
    let files = vec![
        SourceFile { path: b"r/a".to_vec(), content: b"first".to_vec() },
        SourceFile { path: b"r/b".to_vec(), content: b"second".to_vec() },
    ];
    let archive = slf_archive::pack::pack(b"r", PathKind::Directory, &files).unwrap();
    let mut reader = ArchiveReader::new(&archive);
    reader.read_exact(18).unwrap();
    let mut out = Vec::new();
    assert_eq!(unpack_files(&mut reader, 1, &mut out), Ok(()));
    assert_eq!(out.len(), 1);
    assert_eq!(out[0].content, b"first".to_vec());
    assert_eq!(unpack_files(&mut reader, 1, &mut out), Ok(()));
    assert_eq!(out.len(), 2);
    assert_eq!(out[0].content, b"first".to_vec());
    assert_eq!(out[1].path, vec![b"b".to_vec()]);
    assert_eq!(reader.stream_position() as usize, archive.len() - 16);
    assert_eq!(unpack_files(&mut reader, 0, &mut out), Ok(()));
    assert_eq!(out.len(), 2);
}

fn three_files() -> Vec<u8> {
    let files = vec![
        SourceFile { path: b"r/a".to_vec(), content: b"first".to_vec() },
        SourceFile { path: b"r/b".to_vec(), content: b"second".to_vec() },
        SourceFile { path: b"r/c".to_vec(), content: b"third".to_vec() },
    ];
    slf_archive::pack::pack(b"r", PathKind::Directory, &files).unwrap()
}

fn second_entry(archive: &[u8]) -> (usize, usize) {
    let mut reader = ArchiveReader::new(archive);
    reader.read_exact(18).unwrap();
    let first = InnerFile::from_archive(&mut reader).unwrap();
    reader.read_exact(first.compressed_size() as usize).unwrap();
    let start = reader.stream_position() as usize;
    let second = InnerFile::from_archive(&mut reader).unwrap();
    (start, second.compressed_size() as usize)
}

#[test]
fn unpack_files_keeps_what_was_verified_before_a_failure() {
    let mut archive = three_files();
    let (start, size) = second_entry(&archive);
    archive[start + 4 + 1 + 24 + 12] ^= 0x40;
    let mut reader = ArchiveReader::new(&archive);
    reader.read_exact(18).unwrap();
    let mut out = Vec::new();
    let res = unpack_files(&mut reader, 3, &mut out);
    assert!(matches!(res, Err(ArchiveError::CorruptedArchive(_))));
    assert_eq!(out.len(), 1);
    assert_eq!(out[0].path, vec![b"a".to_vec()]);
    assert_eq!(out[0].content, b"first".to_vec());
    assert_eq!(reader.stream_position() as usize, start + 4 + 1 + 24 + size);
}

#[test]
fn unpack_files_stops_at_a_refused_name_before_its_stream() {
    let mut archive = three_files();
    let (start, _) = second_entry(&archive);
    archive[start + 4] = b'/';
    let mut reader = ArchiveReader::new(&archive);
    reader.read_exact(18).unwrap();
    let mut out = Vec::new();
    let res = unpack_files(&mut reader, 3, &mut out);
    assert!(matches!(res, Err(ArchiveError::Path(_))));
    assert_eq!(out.len(), 1);
    assert_eq!(reader.stream_position() as usize, start + 4 + 1 + 24);
}

#[test]
fn unpack_next_reads_one_entry() {
    let archive = three_files();
    let mut open = open_archive(b"dir/r.slf", b"target", &archive).unwrap();
    assert_eq!(open.file_count, 3);
    assert_eq!(open.root, b"target/r".to_vec());
    assert_eq!(open.reader.stream_position(), 18);
    let first = unpack_next(&mut open.reader).unwrap();
    assert_eq!(first.path, vec![b"a".to_vec()]);
    assert_eq!(first.content, b"first".to_vec());
    let (start, _) = second_entry(&archive);
    assert_eq!(open.reader.stream_position() as usize, start);
    let second = unpack_next(&mut open.reader).unwrap();
    assert_eq!(second.content, b"second".to_vec());
    let third = unpack_next(&mut open.reader).unwrap();
    assert_eq!(third.content, b"third".to_vec());
    assert_eq!(open.reader.stream_position() as usize, archive.len() - 24);
    assert_eq!(
        unpack_next(&mut open.reader).map(|f| f.content),
        Err(ArchiveError::Io("failed to fill whole buffer".to_string()))
    );
    assert_eq!(open.reader.stream_position() as usize, archive.len() - 2);
}

#[test]
fn open_archive_refuses_a_bad_header() {
    let archive = three_files();
    assert_eq!(
        open_archive(b"r.slf", b"t", &archive[..17]).map(|o| o.file_count),
        Err(ArchiveError::Io("failed to fill whole buffer".to_string()))
    );
    assert_eq!(
        open_archive(b"..", b"t", &archive).map(|o| o.file_count),
        Err(ArchiveError::Path("Failed to get file stem from path: ..".to_string()))
    );
    let mut other = archive.clone();
    other[4] = 3;
    assert_eq!(
        open_archive(b"r.slf", b"t", &other).map(|o| o.file_count),
        Err(ArchiveError::UnsupportedVersion(3))
    );
}

#[test]
fn validate_archive_reads_no_further_than_it_has_to() {
    let position_after = |bytes: &[u8]| {
        let mut reader = ArchiveReader::new(bytes);
        let res = validate_archive(&mut reader, b"a.slf");
        (res.is_ok(), reader.stream_position())
    };
    assert_eq!(position_after(b".sl"), (false, 0));
    assert_eq!(position_after(b"xslf\x01\x00rest"), (false, 4));
    assert_eq!(position_after(b".slf"), (false, 4));
    assert_eq!(position_after(b".slf\x01"), (false, 4));
    assert_eq!(position_after(&[b'.', b's', b'l', b'f', 2, 0, 9, 9]), (false, 6));
    assert_eq!(position_after(&[b'.', b's', b'l', b'f', 1, 7, 9, 9]), (true, 6));
}

#[test]
fn from_archive_stops_behind_the_last_whole_field() {
    let position_after = |bytes: &[u8]| {
        let mut reader = ArchiveReader::new(bytes);
        let res = InnerFile::from_archive(&mut reader);
        (res.is_ok(), reader.stream_position())
    };
    assert_eq!(position_after(&[1, 0, 0]), (false, 0));
    assert_eq!(position_after(&[0, 0, 0, 0, 1, 2, 3]), (false, 4));
    assert_eq!(position_after(&[1, 0, 2, 0, 1, 2, 3]), (false, 4));
    assert_eq!(position_after(&[3, 0, 0, 0, b'a', b'b']), (false, 4));
    let mut record = vec![3, 0, 0, 0, b'a', b'b', b'c'];
    assert_eq!(position_after(&record), (false, 7));
    record.extend_from_slice(&[0; 9]);
    assert_eq!(position_after(&record), (false, 15));
    record.extend_from_slice(&[0; 8]);
    assert_eq!(position_after(&record), (false, 23));
    record.extend_from_slice(&[0; 4]);
    assert_eq!(position_after(&record), (false, 27));
    record.extend_from_slice(&[0; 3]);
    assert_eq!(position_after(&record), (true, 31));
}

#[test]
fn check_entry_names_the_first_mismatch() {
    let entry = InnerFile::create(b"f".to_vec(), 10, 20, 30, 40);
    assert_eq!(check_entry(&entry, 30, 40, 10), Ok(()));
    assert_eq!(
        check_entry(&entry, 31, 41, 11),
        Err(ArchiveError::CorruptedArchive(
            "Archive corrupted! Unpacked checksums isn't equal to! 31 isn't equal to 30"
                .to_string()
        ))
    );
    assert_eq!(
        check_entry(&entry, 30, 41, 11),
        Err(ArchiveError::CorruptedArchive(
            "Archive corrupted! Unpacked checksums isn't equal to! 41 isn't equal to 40"
                .to_string()
        ))
    );
    assert_eq!(
        check_entry(&entry, 30, 40, 11),
        Err(ArchiveError::CorruptedArchive(
            "Archive corrupted! Unpacked file has another size! 10 isn't equal to 11".to_string()
        ))
    );
    assert_eq!(
        check_entry(&entry, 4294967295, 40, 10),
        Err(ArchiveError::CorruptedArchive(
            "Archive corrupted! Unpacked checksums isn't equal to! 4294967295 isn't equal to 30"
                .to_string()
        ))
    );
}

#[test]
fn undecodable_error_prefers_the_checksum() {
    let entry = InnerFile::create(b"f".to_vec(), 10, 20, 30, 40);
    assert_eq!(
        undecodable_error(&entry, 40),
        ArchiveError::Io("failed to decode the compressed stream".to_string())
    );
    assert_eq!(
        undecodable_error(&entry, 7),
        ArchiveError::CorruptedArchive(
            "Archive corrupted! Unpacked checksums isn't equal to! 7 isn't equal to 40"
                .to_string()
        )
    );
}
