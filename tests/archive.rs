use std::io::Read;

use lupin::archive::{compress_files, ArchiveError, Compressor};
use lupin::packer::Packer;

fn read_entries(bytes: &[u8]) -> Vec<(String, u64, Vec<u8>)> {
    let mut archive = tar::Archive::new(bytes);
    let mut out = Vec::new();
    for entry in archive.entries().unwrap() {
        let mut entry = entry.unwrap();
        let name = entry.path().unwrap().to_string_lossy().to_string();
        let size = entry.header().size().unwrap();
        let mut data = Vec::new();
        entry.read_to_end(&mut data).unwrap();
        out.push((name, size, data));
    }
    out
}

fn round_trip_zstd(bytes: &[u8]) -> Vec<u8> {
    let compressed = zstd::encode_all(bytes, 10).unwrap();
    zstd::decode_all(&compressed[..]).unwrap()
}

#[test]
fn scenario_buffered_and_streamed_entries() {
    let mut packer = Packer::new(0);
    let a = packer.new_file("a.txt".to_string(), None);
    let b = packer.new_file("b.bin".to_string(), Some(3));
    a.write(&mut packer, b"hello").unwrap();
    a.finish(&mut packer).unwrap();
    b.activate_when_unfinished(&mut packer, 3).unwrap();
    b.write(&mut packer, b"foo").unwrap();
    b.finish(&mut packer).unwrap();
    packer.finish().unwrap();
    let bytes = round_trip_zstd(&packer.take_output());
    let entries = read_entries(&bytes);
    assert_eq!(entries.len(), 2);
    assert_eq!(entries[0], ("a.txt".to_string(), 5, b"hello".to_vec()));
    assert_eq!(entries[1], ("b.bin".to_string(), 3, b"foo".to_vec()));
}

#[test]
fn scenario_short_chunked_entry_fails_to_close() {
    let mut packer = Packer::new(0);
    let f = packer.new_file("ten.bin".to_string(), Some(10));
    f.activate_when_unfinished(&mut packer, 10).unwrap();
    f.write(&mut packer, b"1234567").unwrap();
    assert_eq!(f.finish(&mut packer), Err(ArchiveError::Incomplete));
    assert_eq!(packer.finish(), Err(ArchiveError::Incomplete));

    let mut writer = Compressor::new(0);
    let mut chunked = writer.add_chunked_file("ten.bin", 10).unwrap();
    chunked.add_chunk(&mut writer, b"1234567").unwrap();
    assert!(!chunked.is_complete());
    assert_eq!(writer.finish(), Err(ArchiveError::Incomplete));
    assert!(!writer.is_closed());
}

#[test]
fn chunked_exact_size_makes_one_entry() {
    let mut writer = Compressor::new(0);
    let mut chunked = writer.add_chunked_file("n.bin", 6).unwrap();
    chunked.add_chunk(&mut writer, b"ab").unwrap();
    chunked.add_chunk(&mut writer, b"").unwrap();
    chunked.add_chunk(&mut writer, b"cdef").unwrap();
    assert!(chunked.is_complete());
    writer.finish().unwrap();
    let entries = read_entries(&writer.take_output());
    assert_eq!(entries, vec![("n.bin".to_string(), 6, b"abcdef".to_vec())]);
}

#[test]
fn chunked_one_byte_too_many_is_refused() {
    let mut writer = Compressor::new(0);
    let mut chunked = writer.add_chunked_file("n.bin", 4).unwrap();
    chunked.add_chunk(&mut writer, b"abc").unwrap();
    assert_eq!(chunked.add_chunk(&mut writer, b"de"), Err(ArchiveError::Overflow));
    assert!(!writer.is_closed());
    chunked.add_chunk(&mut writer, b"d").unwrap();
    assert_eq!(writer.write_chunk(0, b"e"), Err(ArchiveError::UnknownToken));
    writer.finish().unwrap();
    let entries = read_entries(&writer.take_output());
    assert_eq!(entries, vec![("n.bin".to_string(), 4, b"abcd".to_vec())]);
}

#[test]
fn finish_twice_gives_one_entry() {
    let mut packer = Packer::new(0);
    let f = packer.new_file("once.txt".to_string(), None);
    f.write(&mut packer, b"data").unwrap();
    f.finish(&mut packer).unwrap();
    f.finish(&mut packer).unwrap();
    // Bytes handed over after finishing stay in memory; the entry is not rewritten.
    f.write(&mut packer, b"more").unwrap();
    f.finish(&mut packer).unwrap();
    packer.finish().unwrap();
    let entries = read_entries(&packer.take_output());
    assert_eq!(entries, vec![("once.txt".to_string(), 4, b"data".to_vec())]);
}

#[test]
fn fifty_producers_in_any_order_give_fifty_entries() {
    let mut packer = Packer::new(0);
    let mut files = Vec::new();
    for i in 0..50usize {
        let size = if i % 3 == 0 { None } else { Some(i as u64) };
        files.push((packer.new_file(format!("file-{i}.bin"), size), i));
    }
    // Producers interleave their writes and finish in a scrambled order;
    // every fifth one streams its entry.
    for step in 0..50usize {
        let (f, i) = files[(step * 17) % 50];
        let content = vec![i as u8; i];
        if i % 5 == 1 {
            f.write(&mut packer, &content[..i / 2]).unwrap();
            match f.activate_when_unfinished(&mut packer, i as u64) {
                Ok(()) => {}
                Err(e) => panic!("promotion refused: {:?}", e),
            }
            f.write(&mut packer, &content[i / 2..]).unwrap();
        } else {
            f.write(&mut packer, &content).unwrap();
        }
        f.finish(&mut packer).unwrap();
    }
    packer.finish().unwrap();
    let entries = read_entries(&round_trip_zstd(&packer.take_output()));
    assert_eq!(entries.len(), 50);
    let mut names: Vec<String> = entries.iter().map(|e| e.0.clone()).collect();
    names.sort();
    names.dedup();
    assert_eq!(names.len(), 50);
    for (name, size, data) in entries {
        let i: usize = name["file-".len()..name.len() - ".bin".len()].parse().unwrap();
        assert_eq!(size, i as u64);
        assert_eq!(data, vec![i as u8; i]);
    }
}

#[test]
fn entries_queued_behind_a_streamed_entry_follow_it() {
    let mut writer = Compressor::new(0);
    let mut chunked = writer.add_chunked_file("big.bin", 4).unwrap();
    chunked.add_chunk(&mut writer, b"ab").unwrap();
    writer.add_file_with_data("small.txt", b"x").unwrap();
    assert!(matches!(writer.add_chunked_file("other.bin", 1), Err(ArchiveError::Busy)));
    chunked.add_chunk(&mut writer, b"cd").unwrap();
    writer.finish().unwrap();
    let entries = read_entries(&writer.take_output());
    assert_eq!(
        entries,
        vec![
            ("big.bin".to_string(), 4, b"abcd".to_vec()),
            ("small.txt".to_string(), 1, b"x".to_vec()),
        ]
    );
}

#[test]
fn round_trip_keeps_names_contents_and_order() {
    let files = vec![
        ("first.txt".to_string(), b"one".to_vec()),
        ("empty.txt".to_string(), Vec::new()),
        ("dir/block.bin".to_string(), vec![7u8; 512]),
        ("last.bin".to_string(), vec![1u8; 513]),
    ];
    let bytes = compress_files(&files, 1_700_000_000).unwrap();
    let entries = read_entries(&round_trip_zstd(&bytes));
    assert_eq!(entries.len(), files.len());
    for (entry, (name, data)) in entries.iter().zip(files.iter()) {
        assert_eq!(&entry.0, name);
        assert_eq!(entry.1, data.len() as u64);
        assert_eq!(&entry.2, data);
    }
}

#[test]
fn framing_layout_is_exact() {
    let files = vec![("a".to_string(), b"hello".to_vec())];
    let bytes = compress_files(&files, 0).unwrap();
    assert_eq!(bytes.len(), 512 + 512 + 1024);
    assert_eq!(&bytes[512..517], b"hello");
    assert!(bytes[517..].iter().all(|b| *b == 0));
    assert_eq!(bytes[0], b'a');
    let header = tar::Header::from_byte_slice(&bytes[..512]);
    assert_eq!(header.size().unwrap(), 5);
    assert_eq!(header.mode().unwrap(), 0o644);
    assert_eq!(header.mtime().unwrap(), 0);

    let block = compress_files(&[("b".to_string(), vec![9u8; 512])], 0).unwrap();
    assert_eq!(block.len(), 512 + 512 + 1024);
    let empty = compress_files(&[], 0).unwrap();
    assert_eq!(empty, vec![0u8; 1024]);
}

#[test]
fn header_carries_the_modification_time() {
    let bytes = compress_files(&[("t".to_string(), Vec::new())], 1_234_567).unwrap();
    let header = tar::Header::from_byte_slice(&bytes[..512]);
    assert_eq!(header.mtime().unwrap(), 1_234_567);
    assert_eq!(header.path().unwrap().to_string_lossy(), "t");
}

#[test]
fn invalid_names_are_refused() {
    assert_eq!(
        compress_files(&[("../escape".to_string(), Vec::new())], 0),
        Err(ArchiveError::InvalidName)
    );
    assert_eq!(compress_files(&[("/abs".to_string(), Vec::new())], 0), Err(ArchiveError::InvalidName));
    assert_eq!(compress_files(&[(String::new(), Vec::new())], 0), Err(ArchiveError::InvalidName));
    assert_eq!(compress_files(&[("x".repeat(101), Vec::new())], 0), Err(ArchiveError::InvalidName));
    let mut writer = Compressor::new(0);
    assert_eq!(writer.add_file_with_data("../x", b"a"), Err(ArchiveError::InvalidName));
    assert!(matches!(writer.add_chunked_file("/x", 1), Err(ArchiveError::InvalidName)));
    assert!(writer.take_output().is_empty());
}

#[test]
fn closed_writer_refuses_everything() {
    let mut writer = Compressor::new(0);
    writer.finish().unwrap();
    assert_eq!(writer.finish(), Err(ArchiveError::Closed));
    assert_eq!(writer.add_file_with_data("a", b"a"), Err(ArchiveError::Closed));
    assert!(matches!(writer.add_chunked_file("a", 1), Err(ArchiveError::Closed)));
    assert_eq!(writer.write_chunk(0, b"a"), Err(ArchiveError::Closed));
    assert_eq!(writer.take_output(), vec![0u8; 1024]);
    assert!(writer.take_output().is_empty());
}

#[test]
fn zero_size_chunked_entry_is_complete_at_once() {
    let mut writer = Compressor::new(0);
    let chunked = writer.add_chunked_file("empty.bin", 0).unwrap();
    assert!(chunked.is_complete());
    writer.add_file_with_data("next.txt", b"n").unwrap();
    writer.finish().unwrap();
    let entries = read_entries(&writer.take_output());
    assert_eq!(
        entries,
        vec![
            ("empty.bin".to_string(), 0, Vec::new()),
            ("next.txt".to_string(), 1, b"n".to_vec()),
        ]
    );
}

#[test]
fn output_is_handed_out_once_in_order() {
    let mut writer = Compressor::new(0);
    writer.add_file_with_data("a", b"1").unwrap();
    let first = writer.take_output();
    assert_eq!(first.len(), 1024);
    writer.add_file_with_data("b", b"22").unwrap();
    writer.finish().unwrap();
    let second = writer.take_output();
    assert_eq!(second.len(), 1024 + 1024);
    let mut all = first;
    all.extend_from_slice(&second);
    assert_eq!(all, compress_files(&[("a".to_string(), b"1".to_vec()), ("b".to_string(), b"22".to_vec())], 0).unwrap());
}
