use kvs::{BufReaderWithPos, BufWriterWithPos};

#[test]
fn reader_tracks_position() {
    let mut r = BufReaderWithPos::new("abcdef".to_owned());
    assert_eq!(r.pos, 0);
    assert_eq!(r.read(2), "ab");
    assert_eq!(r.pos, 2);
    assert_eq!(r.seek(4), 4);
    assert_eq!(r.read(10), "ef");
    assert_eq!(r.pos, 6);
    assert_eq!(r.read(1), "");
    // a read past the end returns nothing and does not move the position
    assert_eq!(r.seek(10), 10);
    assert_eq!(r.read(3), "");
    assert_eq!(r.pos, 10);
    assert_eq!(r.read_at(10, 3), "");
}

#[test]
fn reader_reads_at_offsets_without_moving() {
    let mut r = BufReaderWithPos::new("hello log".to_owned());
    assert_eq!(r.read_at(6, 3), "log");
    assert_eq!(r.pos, 0);
    r.seek(6);
    assert_eq!(r.read_to_end(), "log");
    assert_eq!(r.pos, 9);
}

#[test]
fn writer_buffers_until_flush() {
    let mut w = BufWriterWithPos::new();
    assert_eq!(w.pos, 0);
    w.write("abc").unwrap();
    // written but not yet flushed: the position has advanced, the
    // durable contents have not
    assert_eq!(w.pos, 3);
    assert_eq!(w.flushed, "");
    assert_eq!(w.pending, "abc");
    w.flush().unwrap();
    assert_eq!(w.flushed, "abc");
    assert_eq!(w.pending, "");
    w.write("de").unwrap();
    assert_eq!(w.pos, 5);
    w.flush().unwrap();
    assert_eq!(w.flushed, "abcde");
}
