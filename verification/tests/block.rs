use dtp_utils::clock::usec_from_micros;
use dtp_utils::block::read_be_u64;
use dtp_utils::block::BlockInfo;
use dtp_utils::clock::get_current_usec;

#[test]
fn default_block_is_zero() {
    let b = BlockInfo::default();
    assert_eq!(
        BlockInfo {
            id: 0,
            start_timestamp: 0,
            end_timestamp: 0,
            bct: 0,
            block_size: 0,
            priority: 0,
            deadline: 0
        },
        b
    );
}

#[test]
fn big_endian_reads() {
    let bytes = [0xffu8, 1, 2, 3, 4, 5, 6, 7, 8, 0xee];
    assert_eq!(0x0102030405060708, read_be_u64(&bytes, 1));
    assert_eq!(u64::MAX, read_be_u64(&[0xff; 8], 0));
    assert_eq!(0x1234, read_be_u64(&0x1234u64.to_be_bytes(), 0));
}

#[test]
fn clock_reads_microseconds_since_the_epoch() {
    let before = std::time::SystemTime::now()
        .duration_since(std::time::UNIX_EPOCH)
        .unwrap()
        .as_micros() as u64;
    let t = get_current_usec();
    assert!(t >= before);
    assert!(t - before < 60_000_000);
}

#[test]
fn finish_sets_end_and_completion_time() {
    let b = BlockInfo { id: 3, start_timestamp: 10_000, block_size: 7, ..BlockInfo::default() };
    let f = b.finish(12_999);
    assert_eq!(12_999, f.end_timestamp);
    assert_eq!(2, f.bct);
    assert_eq!(7, f.block_size);
    assert_eq!(3, f.id);
    let early = b.finish(9_000);
    assert_eq!(0, early.bct);
    assert_eq!(9_000, early.end_timestamp);
}

#[test]
fn micros_become_a_64_bit_count() {
    assert_eq!(0, usec_from_micros(None));
    assert_eq!(1_700_000_000_000_000, usec_from_micros(Some(1_700_000_000_000_000)));
    assert_eq!(u64::MAX, usec_from_micros(Some(u64::MAX as u128)));
    assert_eq!(u64::MAX, usec_from_micros(Some(u64::MAX as u128 + 1)));
}
