use dtp_utils::session::poll_timeout;
use dtp_utils::session::new_conn_action;
use dtp_utils::session::NewConnAction;
use dtp_utils::token::mint_token;
use dtp_utils::session::sender_action;
use dtp_utils::session::ClientTally;
use dtp_utils::session::FinAction;
use dtp_utils::session::SenderAction;
use dtp_utils::wire::i32tou8;

#[test]
fn sender_sends_the_count_first_then_blocks() {
    assert_eq!(SenderAction::Wait, sender_action(0, 3, false, false, true));
    assert_eq!(SenderAction::SendCount, sender_action(0, 3, false, true, true));
    assert_eq!(SenderAction::SendBlocks, sender_action(0, 3, true, true, true));
    assert_eq!(SenderAction::Wait, sender_action(1, 3, true, true, false));
    assert_eq!(SenderAction::Done, sender_action(3, 3, true, true, true));
    assert_eq!(SenderAction::Done, sender_action(0, 0, false, true, true));
}

#[test]
fn client_tally_counts_blocks() {
    let mut t = ClientTally::new();
    t.on_datagram(1200);
    t.on_datagram(30);
    assert_eq!(1230, t.recv_bytes);
    assert_eq!(FinAction::ReadBlockCount, t.on_fin());
    t.read_block_count(i32tou8(2));
    assert_eq!(2, t.block_num);
    assert_eq!(FinAction::RecordBlock, t.on_fin());
    assert!(!t.record_block(1000, 900));
    assert!(t.record_block(500, 500));
    assert_eq!(1500, t.complete_bytes);
    assert_eq!(1400, t.good_bytes);
    assert_eq!(0, t.block_num);
}

#[test]
fn new_connections_go_through_retry() {
    let addr = [127u8, 0, 0, 1];
    let dcid = [7u8; 20];
    let token = mint_token(&dcid, &addr);
    assert_eq!(NewConnAction::NotInitial, new_conn_action(false, true, true, &addr, &token, 20, 20));
    assert_eq!(NewConnAction::NegotiateVersion, new_conn_action(true, false, true, &addr, &token, 20, 20));
    assert_eq!(NewConnAction::Accept(None), new_conn_action(true, true, false, &addr, &[], 20, 8));
    assert_eq!(NewConnAction::Retry, new_conn_action(true, true, true, &addr, &[], 20, 20));
    assert_eq!(NewConnAction::InvalidToken, new_conn_action(true, true, true, &[10, 0, 0, 1], &token, 20, 20));
    assert_eq!(NewConnAction::InvalidDcid, new_conn_action(true, true, true, &addr, &token, 20, 8));
    assert_eq!(NewConnAction::Accept(Some(dcid.to_vec())), new_conn_action(true, true, true, &addr, &token, 20, 20));
}

#[test]
fn poll_waits_for_the_earlier_timeout() {
    assert_eq!(None, poll_timeout(None, None));
    assert_eq!(Some(5), poll_timeout(Some(5), None));
    assert_eq!(Some(7), poll_timeout(None, Some(7)));
    assert_eq!(Some(3), poll_timeout(Some(9), Some(3)));
    assert_eq!(Some(2), poll_timeout(Some(2), Some(8)));
    assert_eq!(Some(4), poll_timeout(Some(4), Some(4)));
}
