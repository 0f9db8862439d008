use dtp_utils::block::BlockInfo;
use dtp_utils::streamparser::StreamParser;

#[test]
fn recv() {
    let mut parser = StreamParser::new(5);
    let buf: [u8; 3] = [0, 1, 2];
    let mut pop_buf: [u8; 5] = [0; 5];
    assert_eq!(3, parser.recv(&buf, 3));
    assert_eq!(2, parser.recv(&buf, 3));
}

fn header(id: u64, start: u64, size: u64, priority: u64, deadline: u64) -> Vec<u8> {
    let mut h = Vec::new();
    for x in [id, start, size, priority, deadline] {
        h.extend_from_slice(&x.to_be_bytes());
    }
    h
}

#[test]
fn one_block_is_reported_once_its_body_is_in() {
    let mut p = StreamParser::new(1000);
    let h = header(7, 0, 10, 2, 300);
    assert_eq!(40, p.recv(&h, 40));
    assert!(p.consume().is_empty());
    let body = [0xaau8; 10];
    assert_eq!(4, p.recv(&body, 4));
    assert!(p.consume().is_empty());
    assert_eq!(6, p.recv(&body, 6));
    let blocks = p.consume();
    assert_eq!(1, blocks.len());
    let b = blocks[0];
    assert_eq!(7, b.id);
    assert_eq!(0, b.start_timestamp);
    assert_eq!(10, b.block_size);
    assert_eq!(2, b.priority);
    assert_eq!(300, b.deadline);
    assert!(b.end_timestamp > 0);
    assert_eq!(b.end_timestamp / 1000, b.bct);
    assert!(p.consume().is_empty());
}

#[test]
fn blocks_split_across_pieces_come_out_in_order() {
    let mut stream = Vec::new();
    for (id, size) in [(1u64, 3u64), (2, 50), (3, 1)] {
        stream.extend(header(id, 5, size, 0, 100));
        stream.extend(std::iter::repeat(id as u8).take(size as usize));
    }
    let mut p = StreamParser::new(64);
    let mut got: Vec<BlockInfo> = Vec::new();
    for piece in stream.chunks(7) {
        assert_eq!(piece.len(), p.recv(piece, piece.len()));
        got.extend(p.consume());
    }
    assert_eq!(vec![1, 2, 3], got.iter().map(|b| b.id).collect::<Vec<u64>>());
    assert_eq!(vec![3, 50, 1], got.iter().map(|b| b.block_size).collect::<Vec<i32>>());
}

#[test]
fn a_clock_behind_the_start_time_gives_zero_completion_time() {
    let mut p = StreamParser::default();
    let mut data = header(9, u64::MAX, 1, 0, 0);
    data.push(0);
    assert_eq!(41, p.recv(&data, 41));
    let blocks = p.consume();
    assert_eq!(1, blocks.len());
    assert_eq!(0, blocks[0].bct);
    assert_eq!(u64::MAX, blocks[0].start_timestamp);
}

#[test]
fn size_field_is_cut_to_32_bits() {
    let mut p = StreamParser::new(200);
    let mut data = header(1, 0, (1u64 << 32) | 2, 0, 0);
    data.extend_from_slice(&[1, 2]);
    assert_eq!(42, p.recv(&data, 42));
    let blocks = p.consume();
    assert_eq!(1, blocks.len());
    assert_eq!(2, blocks[0].block_size);
}

#[test]
fn a_negative_size_keeps_the_parser_skipping_bytes() {
    let mut p = StreamParser::new(200);
    let mut data = header(1, 0, (-5i64) as u64, 0, 0);
    data.extend_from_slice(&[0u8; 100]);
    assert_eq!(140, p.recv(&data, 140));
    assert!(p.consume().is_empty());
    assert_eq!(100, p.recv(&data, 100));
    assert!(p.consume().is_empty());
}

#[test]
fn a_partial_header_waits() {
    let mut p = StreamParser::new(100);
    let h = header(4, 0, 1, 0, 0);
    assert_eq!(39, p.recv(&h, 39));
    assert!(p.consume().is_empty());
    assert_eq!(1, p.recv(&h[39..], 1));
    assert!(p.consume().is_empty());
    assert_eq!(1, p.recv(&[5u8], 1));
    assert_eq!(4, p.consume()[0].id);
}

#[test]
fn headers_are_checked_before_parsing() {
    let mut p = StreamParser::new(300);
    assert!(p.headers_ok());
    let mut data = header(1, 0, 2, 0, 0);
    data.extend_from_slice(&[0, 0]);
    data.extend(header(2, 0, 0, 0, 0));
    assert_eq!(40, p.recv(&data, 40));
    assert!(p.headers_ok());
    assert_eq!(42, p.recv(&data[40..], 42));
    assert!(!p.headers_ok());

    let mut q = StreamParser::new(300);
    let bad_priority = header(1, 0, 5, (-1i64) as u64, 0);
    assert_eq!(40, q.recv(&bad_priority, 40));
    assert!(!q.headers_ok());

    let mut r = StreamParser::new(300);
    let bad_deadline = header(1, 0, 5, 0, (-7i64) as u64);
    assert_eq!(39, r.recv(&bad_deadline, 39));
    assert!(r.headers_ok());
    assert_eq!(1, r.recv(&bad_deadline[39..], 1));
    assert!(!r.headers_ok());

    let mut s = StreamParser::new(300);
    let good = header(3, 0, 1, 0, 0);
    assert_eq!(40, s.recv(&good, 40));
    assert!(s.consume().is_empty());
    assert_eq!(1, s.recv(&[0u8], 1));
    assert!(s.headers_ok());
    assert_eq!(1, s.consume().len());
    assert_eq!(40, s.recv(&bad_deadline, 40));
    assert!(!s.headers_ok());
}

#[test]
fn a_parser_smaller_than_a_header_stalls() {
    let mut p = StreamParser::new(39);
    let mut data = header(1, 0, 1, 0, 0);
    data.push(0);
    assert_eq!(30, p.recv(&data, 30));
    assert!(p.consume().is_empty());
    assert_eq!(9, p.recv(&data[30..], 11));
    assert!(p.consume().is_empty());
    assert_eq!(0, p.recv(&data[39..], 2));
    assert!(p.consume().is_empty());
}

#[test]
fn after_a_parse_only_a_partial_header_is_held() {
    let mut p = StreamParser::new(100);
    let mut data = header(1, 0, 2, 0, 0);
    data.extend_from_slice(&[9, 9]);
    data.extend(header(2, 0, 50, 0, 0));
    assert_eq!(55, p.recv(&data, 55));
    assert_eq!(1, p.consume().len());
    // 13 bytes of the second header are held: room is 100 - 13.
    let filler = [0u8; 200];
    assert_eq!(87, p.recv(&filler, 200));
}

#[test]
fn a_small_parser_stalls_whatever_the_calls() {
    let mut p = StreamParser::new(20);
    let data = header(1, 0, 1, 0, 0);
    assert_eq!(10, p.recv(&data, 10));
    assert!(p.consume().is_empty());
    assert!(p.consume().is_empty());
    assert_eq!(10, p.recv(&data[10..], 15));
    assert_eq!(0, p.recv(&data[20..], 20));
    assert!(p.consume().is_empty());
    assert_eq!(0, p.recv(&data[20..], 1));
}
