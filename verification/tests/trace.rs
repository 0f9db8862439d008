use dtp_utils::config::BlockConfig;
use dtp_utils::hex::hex_dump;
use dtp_utils::trace::parse_i32;
use dtp_utils::trace::parse_trace_line;
use dtp_utils::trace::split_words;
use dtp_utils::trace::TraceLine;

#[test]
fn trace_line_fields() {
    assert_eq!(
        TraceLine::Block(b"0.01".to_vec(), BlockConfig { deadline: 100, priority: 1, block_size: 1000 }),
        parse_trace_line(b"0.01 100 1000 1")
    );
    assert_eq!(
        TraceLine::Block(b"0".to_vec(), BlockConfig { deadline: -5, priority: 2, block_size: 7 }),
        parse_trace_line(b"  0\t-5  +7 2 extra\r")
    );
    assert_eq!(TraceLine::Blank, parse_trace_line(b""));
    assert_eq!(TraceLine::Blank, parse_trace_line(b" \t "));
    assert_eq!(TraceLine::Bad, parse_trace_line(b"0.01 100 1000"));
    assert_eq!(TraceLine::Bad, parse_trace_line(b"0.01 100 1x00 1"));
    assert_eq!(TraceLine::Bad, parse_trace_line(b"0.01 100 3000000000 1"));
}

#[test]
fn decimal_numbers_as_i32_reads_them() {
    for t in ["0", "42", "-42", "+42", "2147483647", "-2147483648", "007", "-0"] {
        assert_eq!(t.parse::<i32>().ok(), parse_i32(t.as_bytes()), "{}", t);
    }
    for t in ["", "-", "+", "2147483648", "-2147483649", "1 ", "99999999999999999999", "--1", "1-"] {
        assert_eq!(None, parse_i32(t.as_bytes()), "{}", t);
        assert!(t.parse::<i32>().is_err());
    }
}

#[test]
fn words_are_split_on_white_space() {
    let ws = split_words(b"\tab  c\nd ");
    assert_eq!(vec![b"ab".to_vec(), b"c".to_vec(), b"d".to_vec()], ws);
    assert!(split_words(b"   ").is_empty());
}

#[test]
fn hex_dump_writes_two_lower_case_digits_a_byte() {
    assert_eq!("00ff10a9", hex_dump(&[0x00, 0xff, 0x10, 0xa9]));
    assert_eq!("", hex_dump(&[]));
    let bytes: Vec<u8> = (0..=255).collect();
    let expect: String = bytes.iter().map(|b| format!("{:02x}", b)).collect();
    assert_eq!(expect, hex_dump(&bytes));
}
