use vstd::prelude::*;
use crate::wire::ne_value_i32;
use crate::wire::u8toi32;
use crate::token::validate_token;
use crate::token::validated;

verus! {

/// What the server does for one client on one turn of its loop.
#[derive(Clone, Copy, Debug, PartialEq, Eq)]
pub enum SenderAction {
    /// Every configured block was handed over: nothing more to send.
    Done,
    /// Send the number of blocks to come, first of all.
    SendCount,
    /// Send blocks, from the next one on.
    SendBlocks,
    /// Not yet: the connection is not up, or the next block is not due.
    Wait,
}

/// The server's choice for a client that was handed `offset` of `n_blocks` blocks:
/// once the connection is up, the block count goes first (once, before any block),
/// then blocks as they fall due.
pub open spec fn sender_choice(
    offset: int,
    n_blocks: int,
    count_sent: bool,
    established: bool,
    due: bool,
) -> SenderAction {
    if offset >= n_blocks {
        SenderAction::Done
    } else if offset == 0 && !count_sent && established {
        SenderAction::SendCount
    } else if established && due {
        SenderAction::SendBlocks
    } else {
        SenderAction::Wait
    }
}

/// Tells the server what to do for a client that was handed `offset` of `n_blocks`
/// blocks, given whether the block count was sent, whether the connection is up,
/// and whether the next block is due.
pub fn sender_action(
    offset: usize,
    n_blocks: usize,
    count_sent: bool,
    established: bool,
    due: bool,
) -> (a: SenderAction)
    ensures
        a == sender_choice(offset as int, n_blocks as int, count_sent, established, due),
{
    if offset >= n_blocks {
        SenderAction::Done
    } else if offset == 0 && !count_sent && established {
        SenderAction::SendCount
    } else if established && due {
        SenderAction::SendBlocks
    } else {
        SenderAction::Wait
    }
}

/// What the server does with a packet that opens no known connection.
#[derive(Clone, Debug, PartialEq, Eq)]
pub enum NewConnAction {
    /// Drop it: it is not an Initial packet.
    NotInitial,
    /// Answer with a version negotiation packet.
    NegotiateVersion,
    /// Answer with a stateless retry carrying a fresh token.
    Retry,
    /// Drop it: its token does not validate against the client's address.
    InvalidToken,
    /// Drop it: its destination connection ID does not have the server's length.
    InvalidDcid,
    /// Accept it, with the connection ID the client first sent to when the token
    /// gave one (and then the server reuses the packet's destination ID as its own).
    Accept(Option<Vec<u8>>),
}

/// A [`NewConnAction`] with the connection ID it carries seen as a sequence.
pub enum NewConnStep {
    NotInitial,
    NegotiateVersion,
    Retry,
    InvalidToken,
    InvalidDcid,
    Accept(Option<Seq<u8>>),
}

impl View for NewConnAction {
    type V = NewConnStep;

    open spec fn view(&self) -> NewConnStep {
        match self {
            NewConnAction::NotInitial => NewConnStep::NotInitial,
            NewConnAction::NegotiateVersion => NewConnStep::NegotiateVersion,
            NewConnAction::Retry => NewConnStep::Retry,
            NewConnAction::InvalidToken => NewConnStep::InvalidToken,
            NewConnAction::InvalidDcid => NewConnStep::InvalidDcid,
            NewConnAction::Accept(None) => NewConnStep::Accept(None),
            NewConnAction::Accept(Some(v)) => NewConnStep::Accept(Some(v@)),
        }
    }
}

/// The server's answer to a packet that opens no known connection.
pub open spec fn new_conn_choice(
    is_initial: bool,
    version_supported: bool,
    retry: bool,
    addr: Seq<u8>,
    token: Seq<u8>,
    scid_len: int,
    dcid_len: int,
) -> NewConnStep {
    if !is_initial {
        NewConnStep::NotInitial
    } else if !version_supported {
        NewConnStep::NegotiateVersion
    } else if !retry {
        NewConnStep::Accept(None)
    } else if token.len() == 0 {
        NewConnStep::Retry
    } else if validated(addr, token) is None {
        NewConnStep::InvalidToken
    } else if scid_len != dcid_len {
        NewConnStep::InvalidDcid
    } else {
        NewConnStep::Accept(Some(validated(addr, token).unwrap()))
    }
}

/// Tells the server what to do with a packet that opens no known connection: one
/// that is not Initial is dropped, an unsupported version is negotiated, and with
/// stateless retry on, a packet without a token gets a retry while one with a token
/// must carry a token for the client's address `addr` and a destination ID of the
/// server's length `scid_len`.
pub fn new_conn_action(
    is_initial: bool,
    version_supported: bool,
    retry: bool,
    addr: &[u8],
    token: &[u8],
    scid_len: usize,
    dcid_len: usize,
) -> (a: NewConnAction)
    ensures
        a@ == new_conn_choice(
            is_initial,
            version_supported,
            retry,
            addr@,
            token@,
            scid_len as int,
            dcid_len as int,
        ),
{
    if !is_initial {
        return NewConnAction::NotInitial;
    }
    if !version_supported {
        return NewConnAction::NegotiateVersion;
    }
    if !retry {
        return NewConnAction::Accept(None);
    }
    if token.len() == 0 {
        return NewConnAction::Retry;
    }
    match validate_token(addr, token) {
        None => NewConnAction::InvalidToken,
        Some(odcid) => {
            if scid_len != dcid_len {
                NewConnAction::InvalidDcid
            } else {
                let v: Vec<u8> = vstd::slice::slice_to_vec(odcid);
                NewConnAction::Accept(Some(v))
            }
        },
    }
}

/// How long the server waits for packets, given the earliest connection timeout and
/// the time until the earliest block is due (both in nanoseconds, `None` when there
/// is none): the shorter of the two when both are there, the one there is otherwise,
/// and `None` (wait without a limit) when there is neither.
pub open spec fn wait_choice(conn: Option<u64>, sender: Option<u64>) -> Option<u64> {
    match (conn, sender) {
        (None, None) => None,
        (None, Some(s)) => Some(s),
        (Some(c), None) => Some(c),
        (Some(c), Some(s)) => Some(if s < c { s } else { c }),
    }
}

/// Tells how long the server waits for packets: see [`wait_choice`].
pub fn poll_timeout(conn: Option<u64>, sender: Option<u64>) -> (t: Option<u64>)
    ensures
        t == wait_choice(conn, sender),
{
    match (conn, sender) {
        (None, None) => None,
        (None, Some(s)) => Some(s),
        (Some(c), None) => Some(c),
        (Some(c), Some(s)) => Some(if s < c { s } else { c }),
    }
}

/// The server never stops early and never stalls a due block: it is done with a
/// client exactly when every configured block was handed over; before any block,
/// with the connection up and the count not sent yet, it sends the count; with the
/// connection up, a block due and the count sent (or some block sent already), it
/// sends blocks; with the connection down it waits.
pub proof fn law_sender_action(
    offset: int,
    n_blocks: int,
    count_sent: bool,
    established: bool,
    due: bool,
)
    ensures
        ({
            let a = sender_choice(offset, n_blocks, count_sent, established, due);
            &&& (a == SenderAction::Done) <==> offset >= n_blocks
            &&& offset < n_blocks && offset == 0 && !count_sent && established ==> a
                == SenderAction::SendCount
            &&& offset < n_blocks && established && due && (count_sent || offset != 0) ==> a
                == SenderAction::SendBlocks
            &&& offset < n_blocks && !established ==> a == SenderAction::Wait
            &&& offset < n_blocks && established && !due && (count_sent || offset != 0) ==> a
                == SenderAction::Wait
            &&& a == SenderAction::SendCount ==> offset == 0 && offset < n_blocks && !count_sent
                && established
            &&& a == SenderAction::SendBlocks ==> offset < n_blocks && established && due
        }),
{
}

/// The server waits no longer than either timeout: with both there, it waits as long
/// as the shorter one, which is one of them and no longer than either; with one
/// there, as long as that one; with neither, without a limit.
pub proof fn law_poll_timeout(conn: Option<u64>, sender: Option<u64>)
    ensures
        ({
            let t = wait_choice(conn, sender);
            &&& conn is None && sender is None ==> t is None
            &&& conn is Some && sender is None ==> t == conn
            &&& conn is None && sender is Some ==> t == sender
            &&& conn is Some && sender is Some ==> {
                &&& t is Some
                &&& t.unwrap() <= conn.unwrap()
                &&& t.unwrap() <= sender.unwrap()
                &&& (t.unwrap() == conn.unwrap() || t.unwrap() == sender.unwrap())
            }
        }),
{
}

/// The server's answers to a packet that opens no known connection, in their order
/// of precedence: a packet that is not Initial is dropped; an Initial one with an
/// unsupported version gets version negotiation, whatever the retry setting and the
/// token; with retry off, a supported Initial is accepted with no original ID; with
/// retry on, an empty token gets a retry; a token that is `"quiche"`, the client's
/// address bytes and then some ID `x` gives `x` when the destination ID has the
/// server's length, and an invalid-ID drop otherwise; a token that does not start
/// with `"quiche"` followed by the address is refused.
pub proof fn law_new_conn_action(
    is_initial: bool,
    version_supported: bool,
    retry: bool,
    addr: Seq<u8>,
    token: Seq<u8>,
    scid_len: int,
    dcid_len: int,
)
    ensures
        ({
            let a = new_conn_choice(
                is_initial,
                version_supported,
                retry,
                addr,
                token,
                scid_len,
                dcid_len,
            );
            let tag = seq![113u8, 117u8, 105u8, 99u8, 104u8, 101u8];
            &&& !is_initial ==> a == NewConnStep::NotInitial
            &&& is_initial && !version_supported ==> a == NewConnStep::NegotiateVersion
            &&& is_initial && version_supported && !retry ==> a == NewConnStep::Accept(None)
            &&& is_initial && version_supported && retry && token.len() == 0 ==> a
                == NewConnStep::Retry
            &&& is_initial && version_supported && retry && token.len() > 0 ==> {
                &&& (token.len() >= 6 + addr.len() && token.take(6) == tag && token.subrange(
                    6,
                    6 + addr.len() as int,
                ) == addr) ==> a == (if scid_len == dcid_len {
                    NewConnStep::Accept(Some(token.skip(6 + addr.len() as int)))
                } else {
                    NewConnStep::InvalidDcid
                })
                &&& !(token.len() >= 6 + addr.len() && token.take(6) == tag && token.subrange(
                    6,
                    6 + addr.len() as int,
                ) == addr) ==> a == NewConnStep::InvalidToken
            }
        }),
{
    let tag = seq![113u8, 117u8, 105u8, 99u8, 104u8, 101u8];
    assert(crate::token::token_tag() =~= tag);
}

/// A token minted for a client's address and a packet's destination ID opens the
/// connection with that ID, when the ID has the server's length.
pub proof fn law_new_conn_accepts_minted(addr: Seq<u8>, dcid: Seq<u8>, scid_len: int)
    requires
        scid_len == dcid.len(),
    ensures
        new_conn_choice(
            true,
            true,
            true,
            addr,
            crate::token::minted(dcid, addr),
            scid_len,
            dcid.len() as int,
        ) == NewConnStep::Accept(Some(dcid)),
{
    crate::token::law_validate_minted(dcid, addr);
}

/// What the client has seen: the bytes received, the blocks announced and still to
/// come, and the bytes of the blocks that arrived whole and in time.
#[derive(Clone, Copy, Debug, PartialEq, Eq)]
pub struct ClientTally {
    pub recv_bytes: u64,
    pub complete_bytes: u64,
    pub good_bytes: u64,
    pub block_num: i32,
    pub got_block_num: bool,
}

/// What the client does with a stream that has just finished.
#[derive(Clone, Copy, Debug, PartialEq, Eq)]
pub enum FinAction {
    /// The first finished stream carries the number of blocks to come.
    ReadBlockCount,
    /// Every later one is a block to record.
    RecordBlock,
}

impl ClientTally {
    /// Nothing seen yet.
    pub fn new() -> (t: Self)
        ensures
            t == (ClientTally {
                recv_bytes: 0,
                complete_bytes: 0,
                good_bytes: 0,
                block_num: 0,
                got_block_num: false,
            }),
    {
        ClientTally {
            recv_bytes: 0,
            complete_bytes: 0,
            good_bytes: 0,
            block_num: 0,
            got_block_num: false,
        }
    }

    /// Counts a datagram of `len` bytes.
    pub fn on_datagram(&mut self, len: u64)
        requires
            old(self).recv_bytes + len <= u64::MAX,
        ensures
            *final(self) == (ClientTally { recv_bytes: (old(self).recv_bytes + len) as u64, ..*old(self) }),
    {
        self.recv_bytes = self.recv_bytes + len;
    }

    /// What a finished stream is: the block count until it was read, a block after.
    pub fn on_fin(&self) -> (a: FinAction)
        ensures
            a == if self.got_block_num {
                FinAction::RecordBlock
            } else {
                FinAction::ReadBlockCount
            },
    {
        if self.got_block_num {
            FinAction::RecordBlock
        } else {
            FinAction::ReadBlockCount
        }
    }

    /// Reads the block count from the first four bytes of the first finished stream.
    pub fn read_block_count(&mut self, first: [u8; 4])
        ensures
            *final(self) == (ClientTally {
                block_num: ne_value_i32(first@),
                got_block_num: true,
                ..*old(self)
            }),
    {
        self.block_num = u8toi32(first);
        self.got_block_num = true;
    }

    /// Records a block of `block_size` bytes, `good` of which arrived before the
    /// deadline, and tells whether it was the last block announced.
    pub fn record_block(&mut self, block_size: u64, good: u64) -> (last: bool)
        requires
            old(self).complete_bytes + block_size <= u64::MAX,
            old(self).good_bytes + good <= u64::MAX,
            old(self).block_num > i32::MIN,
        ensures
            *final(self) == (ClientTally {
                complete_bytes: (old(self).complete_bytes + block_size) as u64,
                good_bytes: (old(self).good_bytes + good) as u64,
                block_num: (old(self).block_num - 1) as i32,
                ..*old(self)
            }),
            last == (final(self).block_num == 0),
    {
        self.complete_bytes = self.complete_bytes + block_size;
        self.good_bytes = self.good_bytes + good;
        self.block_num = self.block_num - 1;
        self.block_num == 0
    }
}

} // verus!
