use purify::aligned::AlignedReader;

/// Drive the reader over an in-memory device: load the needed block, then
/// serve from it.
fn read_some(reader: &mut AlignedReader, device: &[u8], want: usize) -> Vec<u8> {
    if want == 0 {
        return Vec::new();
    }
    if let Some(start) = reader.needed_block() {
        let s = start as usize;
        let sector = reader.sector_size() as usize;
        let end = usize::min(s + sector, device.len());
        let data = if s < device.len() { &device[s..end] } else { &device[0..0] };
        reader.load_block(start, data);
    }
    reader.read(want)
}

#[test]
fn aligned_reads_match_plain_reads() {
    let data: Vec<u8> = (0..4096u32).map(|i| (i % 251) as u8).collect();
    let mut reader = AlignedReader::new(512);

    // Read an unaligned range spanning multiple sectors.
    reader.seek_start(500);
    let mut buf: Vec<u8> = Vec::new();
    while buf.len() < 1030 {
        let got = read_some(&mut reader, &data, 1030 - buf.len());
        if got.is_empty() {
            break;
        }
        buf.extend_from_slice(&got);
    }
    assert_eq!(buf.len(), 1030);
    assert_eq!(&buf[..], &data[500..1530]);
}

#[test]
fn short_read_at_eof() {
    let data = vec![7u8; 600];
    let mut reader = AlignedReader::new(512);
    reader.seek_start(590);
    let got = read_some(&mut reader, &data, 100);
    assert_eq!(got.len(), 10, "only 10 bytes remain before EOF");
    assert!(got.iter().all(|&b| b == 7));
    assert!(read_some(&mut reader, &data, 100).is_empty());
}

#[test]
fn buffered_block_is_reused_and_seeks_move_the_cursor() {
    let data: Vec<u8> = (0..1024u32).map(|i| (i % 7) as u8).collect();
    let mut reader = AlignedReader::new(512);
    assert_eq!(reader.needed_block(), Some(0));
    let first = read_some(&mut reader, &data, 10);
    assert_eq!(first, data[0..10].to_vec());
    assert_eq!(reader.needed_block(), None);
    assert_eq!(reader.seek_current(600), 610);
    assert_eq!(reader.needed_block(), Some(512));
    assert_eq!(reader.seek_end(1024, -4), 1020);
    let tail = read_some(&mut reader, &data, 100);
    assert_eq!(tail, data[1020..1024].to_vec());
    assert_eq!(reader.pos(), 1024);
}
