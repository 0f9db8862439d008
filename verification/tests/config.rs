use dtp_utils::config::block_send;
use dtp_utils::config::is_last_chunk;
use dtp_utils::config::send_config;
use dtp_utils::config::BlockConfig;
use dtp_utils::config::BlockSend;
use dtp_utils::config::MAX_BLOCK_SIZE;

#[test]
fn block_send_fields() {
    let cfg = BlockConfig { deadline: 100, priority: 1, block_size: 1000 };
    assert_eq!(
        BlockSend { stream_id: 5, block_size: 1000, deadline: 100, priority: 1, depend_id: 5 },
        block_send(&cfg, 0)
    );
    assert_eq!(13, block_send(&cfg, 2).stream_id);
}

#[test]
fn oversized_and_negative_sizes_are_cut_down() {
    let big = BlockConfig { deadline: 1, priority: 0, block_size: i32::MAX };
    assert_eq!(MAX_BLOCK_SIZE, block_send(&big, 0).block_size);
    let neg = BlockConfig { deadline: -1, priority: -2, block_size: -3 };
    let s = block_send(&neg, 0);
    assert_eq!(MAX_BLOCK_SIZE, s.block_size);
    assert_eq!(u64::MAX, s.deadline);
    assert_eq!(u64::MAX - 1, s.priority);
    let exact = BlockConfig { deadline: 0, priority: 0, block_size: 1_000_000_000 };
    assert_eq!(1_000_000_000, block_send(&exact, 0).block_size);
}

#[test]
fn send_config_plans_the_remaining_blocks() {
    let cfgs = vec![
        BlockConfig { deadline: 10, priority: 0, block_size: 1 },
        BlockConfig { deadline: 20, priority: 1, block_size: 2 },
        BlockConfig { deadline: 30, priority: 2, block_size: 3 },
    ];
    let sends = send_config(1, &cfgs);
    assert_eq!(2, sends.len());
    assert_eq!(vec![2, 3], sends.iter().map(|s| s.block_size).collect::<Vec<u64>>());
    assert!(sends.iter().all(|s| s.stream_id == 9 && s.depend_id == 9));
    assert!(send_config(3, &cfgs).is_empty());
    assert!(send_config(7, &cfgs).is_empty());
}

#[test]
fn last_chunk() {
    assert!(is_last_chunk(1_000_000, 0));
    assert!(!is_last_chunk(1_000_001, 0));
    assert!(is_last_chunk(3_000_000, 2_000_000));
    assert!(is_last_chunk(0, 0));
}

#[test]
fn send_config_past_the_end_sends_nothing_for_any_offset() {
    let cfgs: Vec<BlockConfig> = Vec::new();
    assert!(send_config(usize::MAX, &cfgs).is_empty());
}
