use vstd::prelude::*;

verus! {

/// The lower-case hex digit for `n`, which is below 16.
pub open spec fn hex_digit(n: u8) -> char {
    if n < 10 {
        (n + 48) as char
    } else {
        (n + 87) as char
    }
}

/// The bytes `s` written as lower-case hex, two digits a byte, high digit first.
pub open spec fn hex_of(s: Seq<u8>) -> Seq<char>
    decreases s.len(),
{
    if s.len() == 0 {
        Seq::empty()
    } else {
        hex_of(s.drop_last()).push(hex_digit(s.last() / 16)).push(hex_digit(s.last() % 16))
    }
}

/// A lower-case hex digit: `0` to `9` or `a` to `f`.
pub open spec fn is_lower_hex(c: char) -> bool {
    (48 <= c as int && c as int <= 57) || (97 <= c as int && c as int <= 102)
}

/// The value of the lower-case hex digit `c`.
pub open spec fn lower_hex_value(c: char) -> int {
    if c as int <= 57 {
        c as int - 48
    } else {
        c as int - 87
    }
}

/// The hex digit for a value below 16 is a lower-case hex digit of that value.
proof fn lemma_hex_digit(n: u8)
    requires
        n < 16,
    ensures
        is_lower_hex(hex_digit(n)),
        lower_hex_value(hex_digit(n)) == n,
{
}

/// Hex text is two lower-case hex digits a byte, and each pair, high digit first,
/// spells its byte.
pub proof fn law_hex_of(s: Seq<u8>)
    ensures
        hex_of(s).len() == 2 * s.len(),
        forall|i: int|
            0 <= i < s.len() ==> {
                &&& is_lower_hex(#[trigger] hex_of(s)[2 * i])
                &&& is_lower_hex(hex_of(s)[2 * i + 1])
                &&& lower_hex_value(hex_of(s)[2 * i]) * 16 + lower_hex_value(hex_of(s)[2 * i + 1])
                    == s[i]
            },
    decreases s.len(),
{
    if s.len() > 0 {
        let p = s.drop_last();
        law_hex_of(p);
        let b = s.last();
        lemma_hex_digit(b / 16);
        lemma_hex_digit(b % 16);
        let h = hex_of(s);
        assert forall|i: int| 0 <= i < s.len() implies {
            &&& is_lower_hex(#[trigger] h[2 * i])
            &&& is_lower_hex(h[2 * i + 1])
            &&& lower_hex_value(h[2 * i]) * 16 + lower_hex_value(h[2 * i + 1]) == s[i]
        } by {
            if i < p.len() {
                assert(h[2 * i] == hex_of(p)[2 * i]);
                assert(h[2 * i + 1] == hex_of(p)[2 * i + 1]);
                assert(s[i] == p[i]);
            } else {
                assert(h[2 * i] == hex_digit(b / 16));
                assert(h[2 * i + 1] == hex_digit(b % 16));
                assert((b / 16) * 16 + b % 16 == b);
            }
        }
    }
}

/// Calls `String::push`: appends `c` to the end of `s`.
#[verifier::external_body]
fn push_char(s: &mut String, c: char)
    ensures
        final(s)@ == old(s)@.push(c),
{
    s.push(c)
}

/// The lower-case hex digit for `n`, which is below 16.
fn digit_char(n: u8) -> (c: char)
    requires
        n < 16,
    ensures
        c == hex_digit(n),
{
    if n < 10 {
        (n + 48) as char
    } else {
        (n + 87) as char
    }
}

/// Writes the bytes `buf` as lower-case hex, two digits a byte.
pub fn hex_dump(buf: &[u8]) -> (s: String)
    ensures
        s@ == hex_of(buf@),
{
    let mut s = String::new();
    let mut i: usize = 0;
    while i < buf.len()
        invariant
            i <= buf@.len(),
            s@ == hex_of(buf@.take(i as int)),
        decreases buf@.len() - i,
    {
        let b: u8 = buf[i];
        push_char(&mut s, digit_char(b / 16));
        push_char(&mut s, digit_char(b % 16));
        assert(buf@.take(i + 1).drop_last() =~= buf@.take(i as int));
        i += 1;
    }
    assert(buf@.take(buf@.len() as int) =~= buf@);
    s
}

} // verus!
