use dtp_utils::wire::i32tou8;
use dtp_utils::wire::u8toi32;

#[test]
fn i32_bytes_are_in_machine_order() {
    assert_eq!(258i32.to_ne_bytes(), i32tou8(258));
    assert_eq!((-2i32).to_ne_bytes(), i32tou8(-2));
    let b = i32tou8(258);
    assert!(b == [2, 1, 0, 0] || b == [0, 0, 1, 2]);
    assert_eq!(258, u8toi32(b));
    assert_eq!(258, u8toi32(258i32.to_ne_bytes()));
    assert_eq!(i32::from_ne_bytes([7, 0, 0, 0]), u8toi32([7, 0, 0, 0]));
}

#[test]
fn i32_bytes_round_trip() {
    for i in [0, 1, -1, 1000, i32::MIN, i32::MAX, 0x1234_5678] {
        assert_eq!(i, u8toi32(i32tou8(i)));
    }
    for b in [[0u8, 0, 0, 0], [1, 2, 3, 4], [0xff, 0, 0x80, 7]] {
        assert_eq!(b, i32tou8(u8toi32(b)));
    }
}
