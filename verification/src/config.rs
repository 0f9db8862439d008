use vstd::prelude::*;

verus! {

/// The largest block the server sends; larger sizes are cut down to it.
pub const MAX_BLOCK_SIZE: u64 = 1000000000;

/// The most bytes of block data handed to the connection in one call.
pub const CHUNK_SIZE: u64 = 1000000;

/// The integer fields of one line of a block trace: the block's deadline in
/// milliseconds, its priority (0 is the highest), and its size in bytes. The time
/// gap before the block is a float and stays with the caller.
#[derive(Clone, Copy, Debug, PartialEq, Eq)]
pub struct BlockConfig {
    pub deadline: i32,
    pub priority: i32,
    pub block_size: i32,
}

/// What the server hands to the connection for one block.
#[derive(Clone, Copy, Debug, PartialEq, Eq)]
pub struct BlockSend {
    pub stream_id: u64,
    pub block_size: u64,
    pub deadline: u64,
    pub priority: u64,
    pub depend_id: u64,
}

/// The size sent for a configured size: the size read as an unsigned 64-bit number
/// (a negative size reads as a huge one), cut down to [`MAX_BLOCK_SIZE`].
pub open spec fn sent_size(block_size: i32) -> u64 {
    if block_size as u64 <= MAX_BLOCK_SIZE {
        block_size as u64
    } else {
        MAX_BLOCK_SIZE
    }
}

/// The stream that carries the block sent while `offset` blocks were sent before:
/// client-initiated bidirectional streams 5, 9, 13, and so on.
pub open spec fn stream_for(offset: int) -> int {
    4 * (offset + 1) + 1
}

/// What the server hands to the connection for the block `cfg`, on the stream for
/// `offset`; the block depends on its own stream.
pub open spec fn send_for(cfg: BlockConfig, offset: int) -> BlockSend {
    BlockSend {
        stream_id: stream_for(offset) as u64,
        block_size: sent_size(cfg.block_size),
        deadline: cfg.deadline as u64,
        priority: cfg.priority as u64,
        depend_id: stream_for(offset) as u64,
    }
}

/// Tells what the server hands to the connection for the block `cfg` when `offset`
/// blocks were sent before it.
pub fn block_send(cfg: &BlockConfig, offset: usize) -> (s: BlockSend)
    requires
        stream_for(offset as int) <= usize::MAX,
    ensures
        s == send_for(*cfg, offset as int),
{
    let stream_id = (4 * (offset + 1) + 1) as u64;
    let block_size = if cfg.block_size as u64 <= MAX_BLOCK_SIZE {
        cfg.block_size as u64
    } else {
        MAX_BLOCK_SIZE
    };
    BlockSend {
        stream_id,
        block_size,
        deadline: cfg.deadline as u64,
        priority: cfg.priority as u64,
        depend_id: stream_id,
    }
}

/// The sends for the configured blocks from `offset` on, in order. Each of them is
/// made on the stream for `offset` itself, the offset that the server had reached.
pub fn send_config(offset: usize, configs: &Vec<BlockConfig>) -> (sends: Vec<BlockSend>)
    requires
        offset < configs@.len() ==> stream_for(offset as int) <= usize::MAX,
    ensures
        offset >= configs@.len() ==> sends@.len() == 0,
        offset < configs@.len() ==> sends@.len() == configs@.len() - offset,
        forall|k: int|
            0 <= k < sends@.len() ==> #[trigger] sends@[k] == send_for(
                configs@[offset + k],
                offset as int,
            ),
{
    let mut sends: Vec<BlockSend> = Vec::new();
    if offset >= configs.len() {
        return sends;
    }
    let mut i: usize = offset;
    while i < configs.len()
        invariant
            offset <= i <= configs@.len(),
            stream_for(offset as int) <= usize::MAX,
            sends@.len() == i - offset,
            forall|k: int|
                0 <= k < sends@.len() ==> #[trigger] sends@[k] == send_for(
                    configs@[offset + k],
                    offset as int,
                ),
        decreases configs@.len() - i,
    {
        let s = block_send(&configs[i], offset);
        sends.push(s);
        i += 1;
    }
    sends
}

/// What is handed over for a block: the configured size read as unsigned, cut down
/// to a billion bytes and otherwise unchanged; stream `4 * offset + 5`, on which the
/// block also depends; and the deadline and priority read as unsigned.
pub proof fn law_block_send(cfg: BlockConfig, offset: int)
    ensures
        ({
            let s = send_for(cfg, offset);
            let asked = cfg.block_size as u64;
            &&& s.block_size <= 1000000000
            &&& s.block_size <= asked
            &&& asked <= 1000000000 ==> s.block_size == asked
            &&& asked > 1000000000 ==> s.block_size == 1000000000
            &&& 0 <= offset && 4 * offset + 5 <= u64::MAX ==> s.stream_id == 4 * offset + 5
            &&& s.depend_id == s.stream_id
            &&& s.deadline == cfg.deadline as u64
            &&& s.priority == cfg.priority as u64
        }),
{
}

/// Tells whether the chunk handed over after `sent` bytes of a block of `block_size`
/// bytes is its last one: whether at most [`CHUNK_SIZE`] bytes are left.
pub fn is_last_chunk(block_size: u64, sent: u64) -> (last: bool)
    requires
        sent <= block_size,
    ensures
        last == (block_size - sent <= CHUNK_SIZE),
{
    block_size - sent <= CHUNK_SIZE
}

} // verus!
