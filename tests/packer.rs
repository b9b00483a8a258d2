use lupin::archive::ArchiveError;
use lupin::packer::{FilePacker, Packer, QueueItem};

#[test]
fn queue_drains_unknown_sizes_first_then_largest() {
    let mut packer = Packer::new(0);
    let small = packer.new_file("small".to_string(), Some(10));
    let unsized_file = packer.new_file("unsized".to_string(), None);
    let big1 = packer.new_file("big1".to_string(), Some(100));
    let big2 = packer.new_file("big2".to_string(), Some(100));
    let max = packer.new_file("max".to_string(), Some(u64::MAX));
    assert_eq!(packer.next_file(), Some(unsized_file));
    assert_eq!(packer.next_file(), Some(max));
    assert_eq!(packer.next_file(), Some(big1));
    assert_eq!(packer.next_file(), Some(big2));
    assert_eq!(packer.next_file(), Some(small));
    assert_eq!(packer.next_file(), None);
}

#[test]
fn queue_item_priority() {
    let f = FilePacker { id: 0 };
    let sized = QueueItem::Sized { path: "a".to_string(), file_packer: f, size: 42 };
    let unsized_item = QueueItem::Unsized { path: "b".to_string(), file_packer: f };
    assert_eq!(sized.priority(), 42);
    assert_eq!(unsized_item.priority(), u64::MAX);
    assert_eq!(sized.file_packer(), f);
}

#[test]
fn promotion_streams_buffered_bytes_first() {
    let mut packer = Packer::new(0);
    let f = packer.new_file("s.bin".to_string(), Some(6));
    f.write(&mut packer, b"abc").unwrap();
    f.activate_when_unfinished(&mut packer, 6).unwrap();
    assert_eq!(f.activate_when_unfinished(&mut packer, 6), Err(ArchiveError::AlreadyActivated));
    assert_eq!(f.write(&mut packer, b"defg"), Err(ArchiveError::Overflow));
    f.write(&mut packer, b"def").unwrap();
    f.finish(&mut packer).unwrap();
    packer.finish().unwrap();
    let out = packer.take_output();
    assert_eq!(out.len(), 512 + 512 + 1024);
    assert_eq!(&out[512..518], b"abcdef");
}

#[test]
fn promotion_refused_when_buffer_exceeds_size() {
    let mut packer = Packer::new(0);
    let f = packer.new_file("s.bin".to_string(), Some(2));
    f.write(&mut packer, b"abc").unwrap();
    assert_eq!(f.activate_when_unfinished(&mut packer, 2), Err(ArchiveError::Overflow));
    f.finish(&mut packer).unwrap();
    assert_eq!(f.activate_when_unfinished(&mut packer, 3), Err(ArchiveError::AlreadyActivated));
    packer.finish().unwrap();
    assert_eq!(packer.take_output().len(), 512 + 512 + 1024);
}

#[test]
fn second_stream_waits_while_one_is_open() {
    let mut packer = Packer::new(0);
    let a = packer.new_file("a.bin".to_string(), Some(2));
    let b = packer.new_file("b.bin".to_string(), Some(2));
    let c = packer.new_file("c.txt".to_string(), None);
    a.activate_when_unfinished(&mut packer, 2).unwrap();
    assert_eq!(b.activate_when_unfinished(&mut packer, 2), Err(ArchiveError::Busy));
    b.write(&mut packer, b"bb").unwrap();
    b.finish(&mut packer).unwrap();
    c.finish(&mut packer).unwrap();
    assert_eq!(packer.finish(), Err(ArchiveError::Incomplete));
    a.write(&mut packer, b"aa").unwrap();
    a.finish(&mut packer).unwrap();
    packer.finish().unwrap();
    let out = packer.take_output();
    // a.bin, then the queued b.bin and the empty c.txt: three frames and the end marker.
    assert_eq!(out.len(), 3 * 512 + 2 * 512 + 1024);
    assert_eq!(&out[512..514], b"aa");
    assert_eq!(&out[3 * 512..3 * 512 + 2], b"bb");
}

#[test]
fn empty_buffered_file_is_still_an_entry() {
    let mut packer = Packer::new(0);
    let f = packer.new_file("empty".to_string(), None);
    f.finish(&mut packer).unwrap();
    packer.finish().unwrap();
    let out = packer.take_output();
    assert_eq!(out.len(), 512 + 1024);
    assert_eq!(out[0], b'e');
}

#[test]
fn unfinished_buffered_file_blocks_closing() {
    let mut packer = Packer::new(0);
    let f = packer.new_file("open".to_string(), None);
    f.write(&mut packer, b"x").unwrap();
    assert_eq!(packer.finish(), Err(ArchiveError::Incomplete));
    assert!(packer.take_output().is_empty());
    f.finish(&mut packer).unwrap();
    packer.finish().unwrap();
}
