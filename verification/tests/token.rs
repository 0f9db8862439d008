use dtp_utils::token::mint_token;
use dtp_utils::token::validate_token;

#[test]
fn minted_token_layout() {
    let t = mint_token(&[9, 8, 7], &[127, 0, 0, 1]);
    assert_eq!(b"quiche\x7f\x00\x00\x01\x09\x08\x07".to_vec(), t);
}

#[test]
fn minted_token_validates_to_its_connection_id() {
    let dcid = [1u8, 2, 3, 4, 5, 6, 7, 8];
    let addr = [10u8, 0, 0, 2];
    let t = mint_token(&dcid, &addr);
    assert_eq!(Some(&dcid[..]), validate_token(&addr, &t));
    let v6 = [0xfeu8; 16];
    let t6 = mint_token(&dcid, &v6);
    assert_eq!(Some(&dcid[..]), validate_token(&v6, &t6));
}

#[test]
fn tokens_that_do_not_match_are_refused() {
    let addr = [10u8, 0, 0, 2];
    let t = mint_token(&[1, 2], &addr);
    assert_eq!(None, validate_token(&[10, 0, 0, 3], &t));
    assert_eq!(None, validate_token(&addr, b"quic"));
    assert_eq!(None, validate_token(&addr, b"quichf\x0a\x00\x00\x02"));
    assert_eq!(None, validate_token(&[0u8; 16], &t));
    assert_eq!(Some(&[][..]), validate_token(&addr, b"quiche\x0a\x00\x00\x02"));
    assert_eq!(Some(&b"rest"[..]), validate_token(&[], b"quicherest"));
}
