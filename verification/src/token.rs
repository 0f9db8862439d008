use vstd::prelude::*;

verus! {

/// The six bytes `"quiche"` that open every address validation token.
pub open spec fn token_tag() -> Seq<u8> {
    seq![0x71u8, 0x75u8, 0x69u8, 0x63u8, 0x68u8, 0x65u8]
}

/// The token minted for a client at address `addr` whose first packet was sent to
/// connection ID `dcid`: the tag, then the address, then the connection ID.
pub open spec fn minted(dcid: Seq<u8>, addr: Seq<u8>) -> Seq<u8> {
    token_tag() + addr + dcid
}

/// What checking `token` against the client address `addr` yields: the connection ID
/// that follows the tag and the address, or `None` when the token does not open
/// with the tag followed by `addr`.
pub open spec fn validated(addr: Seq<u8>, token: Seq<u8>) -> Option<Seq<u8>> {
    if token.len() >= 6 && token.take(6) == token_tag() && token.len() - 6 >= addr.len()
        && token.subrange(6, 6 + addr.len() as int) == addr {
        Some(token.skip(6 + addr.len() as int))
    } else {
        None
    }
}

/// Tells whether `a[a_at .. a_at + n]` and `b[b_at .. b_at + n]` hold the same bytes.
fn same_bytes(a: &[u8], a_at: usize, b: &[u8], b_at: usize, n: usize) -> (eq: bool)
    requires
        a_at + n <= a@.len(),
        b_at + n <= b@.len(),
    ensures
        eq == (a@.subrange(a_at as int, a_at + n) == b@.subrange(b_at as int, b_at + n)),
{
    let mut k: usize = 0;
    while k < n
        invariant
            k <= n,
            a_at + n <= a.len(),
            b_at + n <= b.len(),
            forall|j: int|
                0 <= j < k ==> #[trigger] a@.subrange(a_at as int, a_at + n)[j] == b@.subrange(
                    b_at as int,
                    b_at + n,
                )[j],
        decreases n - k,
    {
        if a[a_at + k] != b[b_at + k] {
            assert(a@.subrange(a_at as int, a_at + n)[k as int] != b@.subrange(b_at as int, b_at + n)[k as int]);
            return false;
        }
        k += 1;
    }
    assert(a@.subrange(a_at as int, a_at + n) =~= b@.subrange(b_at as int, b_at + n));
    true
}

/// Appends the bytes of `src` to `dst`.
fn append_bytes(dst: &mut Vec<u8>, src: &[u8])
    ensures
        final(dst)@ == old(dst)@ + src@,
{
    let mut k: usize = 0;
    while k < src.len()
        invariant
            k <= src@.len(),
            dst@ == old(dst)@ + src@.take(k as int),
        decreases src@.len() - k,
    {
        dst.push(src[k]);
        k += 1;
        assert(dst@ =~= old(dst)@ + src@.take(k as int));
    }
    assert(src@.take(src@.len() as int) =~= src@);
}

/// Makes a stateless retry token for a client at the address whose bytes are `addr`,
/// whose packet was sent to connection ID `dcid`: the static string `"quiche"`,
/// then the address, then the connection ID. It is no cryptographic authenticator.
pub fn mint_token(dcid: &[u8], addr: &[u8]) -> (token: Vec<u8>)
    ensures
        token@ == minted(dcid@, addr@),
{
    let mut token: Vec<u8> = Vec::new();
    token.push(0x71u8);
    token.push(0x75u8);
    token.push(0x69u8);
    token.push(0x63u8);
    token.push(0x68u8);
    token.push(0x65u8);
    assert(token@ =~= token_tag());
    append_bytes(&mut token, addr);
    append_bytes(&mut token, dcid);
    token
}

/// Checks a stateless retry token: it must start with `"quiche"` followed by the
/// bytes `addr` of the client's address. Gives back the rest of the token, the
/// connection ID the client first sent to, or `None`.
pub fn validate_token<'a>(addr: &[u8], token: &'a [u8]) -> (res: Option<&'a [u8]>)
    ensures
        match res {
            Some(odcid) => validated(addr@, token@) == Some(odcid@),
            None => validated(addr@, token@) is None,
        },
{
    if token.len() < 6 {
        return None;
    }
    let tag: [u8; 6] = [0x71u8, 0x75u8, 0x69u8, 0x63u8, 0x68u8, 0x65u8];
    assert(tag@ =~= token_tag());
    if !same_bytes(token, 0, tag.as_slice(), 0, 6) {
        assert(tag@.subrange(0, 6) =~= tag@);
        return None;
    }
    assert(tag@.subrange(0, 6) =~= tag@);
    if token.len() - 6 < addr.len() || !same_bytes(token, 6, addr, 0, addr.len()) {
        proof {
            if token.len() - 6 >= addr.len() {
                assert(addr@.subrange(0, addr@.len() as int) =~= addr@);
            }
        }
        return None;
    }
    assert(addr@.subrange(0, addr@.len() as int) =~= addr@);
    let rest = vstd::slice::slice_subrange(token, 6 + addr.len(), token.len());
    assert(rest@ =~= token@.skip(6 + addr@.len() as int));
    Some(rest)
}

/// A token minted for an address and a connection ID validates, against that
/// address, to that connection ID.
pub proof fn law_validate_minted(dcid: Seq<u8>, addr: Seq<u8>)
    ensures
        validated(addr, minted(dcid, addr)) == Some(dcid),
{
    let t = minted(dcid, addr);
    assert(t.take(6) =~= token_tag());
    assert(t.subrange(6, 6 + addr.len() as int) =~= addr);
    assert(t.skip(6 + addr.len() as int) =~= dcid);
}

/// A token minted for one address does not validate against another address of the
/// same length.
pub proof fn law_other_address_refused(dcid: Seq<u8>, addr: Seq<u8>, other: Seq<u8>)
    requires
        other.len() == addr.len(),
        other != addr,
    ensures
        validated(other, minted(dcid, addr)) is None,
{
    let t = minted(dcid, addr);
    assert(t.subrange(6, 6 + addr.len() as int) =~= addr);
}

} // verus!
