use dtp_utils::loopbytes::LoopBytes;

#[test]
fn push() {
    let mut loopbytes = LoopBytes::new(128);
    let mut buf: [u8; 128] = [0; 128];
    assert_eq!(100, loopbytes.push(&buf, 100));
    assert_eq!(100, loopbytes.tail);
    assert_eq!(27, loopbytes.push(&buf, 100));
    assert_eq!(127, loopbytes.tail);
    loopbytes.pop(&mut buf, 100);
    assert_eq!(100, loopbytes.head);
    assert_eq!(100, loopbytes.remaining());
    assert_eq!(127, loopbytes.tail);
    assert_eq!(100, loopbytes.push(&buf, 100));
    assert_eq!(99, loopbytes.tail);
}

#[test]
fn pop() {
    let mut loopbytes = LoopBytes::new(128);
    let mut buf: [u8; 128] = [0; 128];
    assert_eq!(127, loopbytes.push(&buf, 127));
    assert_eq!(127, loopbytes.pop(&mut buf, 127));
    assert_eq!(127, loopbytes.head);
    assert_eq!(127, loopbytes.remaining());
    assert_eq!(100, loopbytes.push(&buf, 100));
    assert_eq!(127, loopbytes.head);
    assert_eq!(100, loopbytes.pop(&mut buf, 100));
}

#[test]
fn new_ring_is_empty() {
    let lb = LoopBytes::new(16);
    assert_eq!(0, lb.size());
    assert_eq!(15, lb.remaining());
    assert_eq!(16, lb.capacity);
    assert_eq!(vec![0u8; 16], lb.bytes);
    let d = LoopBytes::default();
    assert_eq!(65535, d.capacity);
    assert_eq!(65534, d.remaining());
}

#[test]
fn push_keeps_one_cell_free() {
    let mut lb = LoopBytes::new(8);
    let data: Vec<u8> = (1..=20).collect();
    assert_eq!(7, lb.push(&data, 20));
    assert_eq!(0, lb.remaining());
    assert_eq!(0, lb.push(&data, 5));
    assert_eq!(7, lb.size());
}

#[test]
fn zero_sized_requests_do_nothing() {
    let mut lb = LoopBytes::new(4);
    let data = [9u8, 8, 7];
    assert_eq!(0, lb.push(&data, 0));
    let mut out = [0u8; 3];
    assert_eq!(0, lb.pop(&mut out, 3));
    assert_eq!(0, lb.drop(3));
    assert_eq!(3, lb.push(&data, 3));
    assert_eq!(0, lb.pop(&mut out, 0));
    assert_eq!(0, lb.drop(0));
    assert_eq!(3, lb.size());
}

#[test]
fn bytes_come_out_in_order_across_the_wrap() {
    let mut lb = LoopBytes::new(10);
    let first: Vec<u8> = (0..7).collect();
    assert_eq!(7, lb.push(&first, 7));
    let mut out = [0u8; 10];
    assert_eq!(5, lb.pop(&mut out, 5));
    assert_eq!(&[0, 1, 2, 3, 4], &out[..5]);
    let second: Vec<u8> = (100..107).collect();
    // 2 held, 7 free: the push runs past the last cell onto the first ones.
    assert_eq!(7, lb.push(&second, 7));
    assert_eq!(4, lb.tail);
    assert_eq!(9, lb.size());
    let mut out = [0xffu8; 12];
    assert_eq!(9, lb.pop(&mut out, 12));
    assert_eq!(&[5, 6, 100, 101, 102, 103, 104, 105, 106], &out[..9]);
    assert_eq!(&[0xff, 0xff, 0xff], &out[9..]);
    assert_eq!(4, lb.head);
    assert_eq!(0, lb.size());
}

#[test]
fn drop_discards_the_oldest_bytes() {
    let mut lb = LoopBytes::new(6);
    let data = [1u8, 2, 3, 4, 5];
    assert_eq!(5, lb.push(&data, 5));
    assert_eq!(4, lb.drop(4));
    assert_eq!(4, lb.head);
    assert_eq!(4, lb.push(&data, 4));
    assert_eq!(3, lb.drop(3));
    assert_eq!(1, lb.head);
    let mut out = [0u8; 2];
    assert_eq!(2, lb.pop(&mut out, 9));
    assert_eq!([3, 4], out);
    assert_eq!(0, lb.drop(5));
}

#[test]
fn push_then_pop_round_trip() {
    let mut lb = LoopBytes::new(33);
    let data: Vec<u8> = (0..32).map(|i| (i * 7) as u8).collect();
    assert_eq!(32, lb.push(&data, 32));
    let mut out = vec![0u8; 32];
    assert_eq!(32, lb.pop(&mut out, 32));
    assert_eq!(data, out);
    assert_eq!(0, lb.size());
}

#[test]
fn peek_reads_without_taking() {
    let mut lb = LoopBytes::new(5);
    let data = [1u8, 2, 3, 4];
    assert_eq!(4, lb.push(&data, 4));
    assert_eq!(3, lb.drop(3));
    assert_eq!(3, lb.push(&[5, 6, 7], 3));
    let mut out = [0u8; 6];
    lb.peek(1, &mut out, 3);
    assert_eq!([5, 6, 7, 0, 0, 0], out);
    assert_eq!(4, lb.size());
    lb.peek(0, &mut out, 4);
    assert_eq!([4, 5, 6, 7, 0, 0], out);
}

#[test]
fn size_is_pushes_less_removals() {
    let mut lb = LoopBytes::new(9);
    let data: Vec<u8> = (0..30).collect();
    let mut pushed = 0usize;
    let mut removed = 0usize;
    let mut out = [0u8; 16];
    for round in 0..12usize {
        pushed += lb.push(&data[round..], 5);
        if round % 3 == 0 {
            removed += lb.drop(2);
        } else {
            removed += lb.pop(&mut out, 4);
        }
        assert_eq!(pushed - removed, lb.size());
        assert!(lb.size() < 9);
    }
}
