use vstd::prelude::*;
use crate::config::BlockConfig;

verus! {

/// An ASCII white-space byte: space, tab, line feed, vertical tab, form feed or
/// carriage return.
pub open spec fn is_space(b: u8) -> bool {
    b == 32 || (9 <= b && b <= 13)
}

/// The length of the run of bytes at the front of `s` that are not white space.
pub open spec fn word_len(s: Seq<u8>) -> nat
    decreases s.len(),
{
    if s.len() == 0 || is_space(s[0]) {
        0
    } else {
        1 + word_len(s.skip(1))
    }
}

/// The front run of `s` that is not white space is no longer than `s`, and holds
/// at least one byte when `s` does not start with white space.
pub proof fn lemma_word_len(s: Seq<u8>)
    ensures
        word_len(s) <= s.len(),
        s.len() > 0 && !is_space(s[0]) ==> word_len(s) >= 1,
    decreases s.len(),
{
    if s.len() > 0 && !is_space(s[0]) {
        lemma_word_len(s.skip(1));
    }
}

/// A run of `m` bytes at the front of `s` that are not white space, followed by the
/// end of `s` or by white space, is the front run.
proof fn lemma_word_len_is(s: Seq<u8>, m: int)
    requires
        0 <= m <= s.len(),
        forall|j: int| 0 <= j < m ==> !is_space(#[trigger] s[j]),
        m == s.len() || is_space(s[m]),
    ensures
        word_len(s) == m,
    decreases m,
{
    if m > 0 {
        let t = s.skip(1);
        assert forall|j: int| 0 <= j < m - 1 implies !is_space(#[trigger] t[j]) by {
            assert(t[j] == s[j + 1]);
        }
        if m < s.len() {
            assert(t[m - 1] == s[m]);
        }
        lemma_word_len_is(t, m - 1);
    }
}

/// The words of `s`: its runs of bytes that are not white space, in order.
pub open spec fn words(s: Seq<u8>) -> Seq<Seq<u8>>
    decreases s.len(),
{
    if s.len() == 0 {
        Seq::empty()
    } else if is_space(s[0]) {
        words(s.skip(1))
    } else {
        let k = word_len(s);
        proof {
            lemma_word_len(s);
        }
        seq![s.take(k as int)] + words(s.skip(k as int))
    }
}

/// Splits `line` into its words (see [`words`]).
pub fn split_words(line: &[u8]) -> (ws: Vec<Vec<u8>>)
    ensures
        ws@.len() == words(line@).len(),
        forall|i: int| 0 <= i < ws@.len() ==> #[trigger] ws@[i]@ == words(line@)[i],
{
    let n = line.len();
    let mut ws: Vec<Vec<u8>> = Vec::new();
    let ghost mut done: Seq<Seq<u8>> = Seq::empty();
    let mut i: usize = 0;
    assert(line@.skip(0) =~= line@);
    while i < n
        invariant
            n == line@.len(),
            i <= n,
            words(line@) == done + words(line@.skip(i as int)),
            ws@.len() == done.len(),
            forall|k: int| 0 <= k < ws@.len() ==> #[trigger] ws@[k]@ == done[k],
        decreases n - i,
    {
        let ghost s = line@.skip(i as int);
        if line[i] == 32 || (9 <= line[i] && line[i] <= 13) {
            assert(s.skip(1) =~= line@.skip(i + 1));
            i += 1;
        } else {
            let start: usize = i;
            let mut word: Vec<u8> = Vec::new();
            while i < n && !(line[i] == 32 || (9 <= line[i] && line[i] <= 13))
                invariant
                    n == line@.len(),
                    start <= i <= n,
                    word@ == line@.subrange(start as int, i as int),
                    forall|j: int| start <= j < i ==> !is_space(#[trigger] line@[j]),
                decreases n - i,
            {
                word.push(line[i]);
                i += 1;
                assert(word@ =~= line@.subrange(start as int, i as int));
            }
            proof {
                let m = (i - start) as int;
                assert forall|j: int| 0 <= j < m implies !is_space(#[trigger] s[j]) by {
                    assert(s[j] == line@[start + j]);
                }
                if i < n {
                    assert(s[m] == line@[i as int]);
                }
                lemma_word_len_is(s, m);
                assert(s.take(m) =~= word@);
                assert(s.skip(m) =~= line@.skip(i as int));
                done = done.push(word@);
            }
            ws.push(word);
            assert(words(line@) =~= done + words(line@.skip(i as int)));
        }
    }
    assert(line@.skip(n as int) =~= Seq::<u8>::empty());
    assert(words(line@) =~= done);
    ws
}

/// An ASCII decimal digit.
pub open spec fn is_digit(b: u8) -> bool {
    48 <= b && b <= 57
}

/// The number that the decimal digits `d` spell.
pub open spec fn digits_value(d: Seq<u8>) -> nat
    decreases d.len(),
{
    if d.len() == 0 {
        0
    } else {
        digits_value(d.drop_last()) * 10 + (d.last() - 48) as nat
    }
}

/// A number spelled by decimal digits is at least what any front part of them spells.
proof fn lemma_digits_value_grows(d: Seq<u8>, k: int)
    requires
        0 <= k <= d.len(),
        forall|j: int| 0 <= j < d.len() ==> is_digit(#[trigger] d[j]),
    ensures
        digits_value(d.take(k)) <= digits_value(d),
    decreases d.len() - k,
{
    if k < d.len() {
        lemma_digits_value_grows(d, k + 1);
        assert(d.take(k + 1).drop_last() =~= d.take(k));
        assert(is_digit(d[k]));
    } else {
        assert(d.take(k) =~= d);
    }
}

/// Every byte of `d` is a decimal digit.
pub open spec fn all_digits(d: Seq<u8>) -> bool {
    forall|j: int| 0 <= j < d.len() ==> is_digit(#[trigger] d[j])
}

/// The length of the sign, `+` or `-`, that `t` starts with: one or zero.
pub open spec fn sign_len(t: Seq<u8>) -> int {
    if t.len() > 0 && (t[0] == 45 || t[0] == 43) {
        1
    } else {
        0
    }
}

/// The 32-bit number that the text `t` spells in decimal, as `i32::from_str` reads
/// it: an optional `+` or `-`, then one digit or more, in range; `None` otherwise.
pub open spec fn decimal_i32(t: Seq<u8>) -> Option<i32> {
    let d = t.skip(sign_len(t));
    if d.len() == 0 || !all_digits(d) {
        None
    } else if t[0] == 45 {
        if digits_value(d) <= 2147483648 {
            Some((0 - digits_value(d)) as i32)
        } else {
            None
        }
    } else {
        if digits_value(d) <= 2147483647 {
            Some(digits_value(d) as i32)
        } else {
            None
        }
    }
}

/// Reads the 32-bit decimal number `t` (see [`decimal_i32`]).
pub fn parse_i32(t: &[u8]) -> (v: Option<i32>)
    ensures
        v == decimal_i32(t@),
{
    let n = t.len();
    let neg: bool = n > 0 && t[0] == 45;
    let from: usize = if n > 0 && (t[0] == 45 || t[0] == 43) {
        1
    } else {
        0
    };
    let ghost d = t@.skip(from as int);
    assert(d == t@.skip(sign_len(t@)));
    if from == n {
        return None;
    }
    let mut acc: u64 = 0;
    let mut i: usize = from;
    while i < n
        invariant
            from <= i <= n,
            n == t@.len(),
            d == t@.skip(from as int),
            d == t@.skip(sign_len(t@)),
            neg == (t@.len() > 0 && t@[0] == 45),
            acc <= 2147483648,
            acc == digits_value(d.take(i - from)),
            forall|j: int| 0 <= j < i - from ==> is_digit(#[trigger] d[j]),
        decreases n - i,
    {
        let b: u8 = t[i];
        if !(48 <= b && b <= 57) {
            assert(d[i - from] == b);
            assert(!is_digit(d[(i - from) as int]));
            assert(!all_digits(d));
            return None;
        }
        assert(d.take(i - from + 1).drop_last() =~= d.take(i - from));
        assert(d[i - from] == b);
        acc = acc * 10 + (b - 48) as u64;
        i += 1;
        if acc > 2147483648 {
            proof {
                if all_digits(d) {
                    lemma_digits_value_grows(d, i - from);
                    assert(digits_value(d) > 2147483648);
                }
            }
            return None;
        }
    }
    assert(d.take(n - from) =~= d);
    assert(all_digits(d));
    assert(acc == digits_value(d));
    if neg {
        if acc <= 2147483648 {
            Some((0 - (acc as i64)) as i32)
        } else {
            None
        }
    } else {
        if acc <= 2147483647 {
            Some(acc as i32)
        } else {
            None
        }
    }
}

/// The decimal digits of `n`, most significant first, with no leading zero.
pub open spec fn decimal_text(n: nat) -> Seq<u8>
    decreases n,
{
    if n < 10 {
        seq![(48 + n) as u8]
    } else {
        decimal_text(n / 10).push((48 + n % 10) as u8)
    }
}

/// The decimal digits of `n` are digits, at least one, and spell `n`.
proof fn lemma_decimal_text(n: nat)
    ensures
        decimal_text(n).len() >= 1,
        all_digits(decimal_text(n)),
        digits_value(decimal_text(n)) == n,
        48 <= decimal_text(n)[0] <= 57,
    decreases n,
{
    if n >= 10 {
        lemma_decimal_text(n / 10);
        let t = decimal_text(n / 10);
        let u = t.push((48 + n % 10) as u8);
        assert(u.drop_last() =~= t);
        assert(u[0] == t[0]);
        assert forall|j: int| 0 <= j < u.len() implies is_digit(#[trigger] u[j]) by {
            if j < t.len() {
                assert(u[j] == t[j]);
            }
        }
        assert((n / 10) * 10 + n % 10 == n) by (nonlinear_arith);
        assert(n % 10 < 10);
        assert(u.last() == (48 + n % 10) as u8);
        assert(digits_value(u) == digits_value(t) * 10 + (n % 10));
    } else {
        let u = seq![(48 + n) as u8];
        assert(u.drop_last() =~= Seq::<u8>::empty());
        assert(digits_value(u) == digits_value(u.drop_last()) * 10 + (u.last() - 48) as nat);
    }
}

/// Every number that fits in 32 bits reads back from its decimal digits: bare or
/// after a `+` when it is not negative, after a `-` for its negation down to
/// `i32::MIN`.
pub proof fn law_decimal_i32_reads_numbers(n: nat)
    ensures
        n <= 2147483647 ==> decimal_i32(decimal_text(n)) == Some(n as i32),
        n <= 2147483647 ==> decimal_i32(seq![43u8] + decimal_text(n)) == Some(n as i32),
        n <= 2147483648 ==> decimal_i32(seq![45u8] + decimal_text(n)) == Some((0 - n) as i32),
{
    lemma_decimal_text(n);
    let t = decimal_text(n);
    assert(t.skip(0) =~= t);
    assert((seq![43u8] + t).skip(1) =~= t);
    assert((seq![45u8] + t).skip(1) =~= t);
}

/// Leading zeros change nothing: a zero before one digit or more reads as the
/// digits alone.
pub proof fn law_decimal_i32_leading_zero(d: Seq<u8>)
    requires
        d.len() >= 1,
        forall|j: int| 0 <= j < d.len() ==> 48 <= #[trigger] d[j] <= 57,
    ensures
        decimal_i32(seq![48u8] + d) == decimal_i32(d),
{
    let z = seq![48u8] + d;
    assert(z.skip(0) =~= z);
    assert(d.skip(0) =~= d);
    assert(all_digits(d));
    assert(all_digits(z)) by {
        assert forall|j: int| 0 <= j < z.len() implies is_digit(#[trigger] z[j]) by {
            if j > 0 {
                assert(z[j] == d[j - 1]);
            }
        }
    }
    lemma_digits_value_front_zero(d);
}

/// A zero in front of decimal digits does not change what they spell.
proof fn lemma_digits_value_front_zero(d: Seq<u8>)
    ensures
        digits_value(seq![48u8] + d) == digits_value(d),
    decreases d.len(),
{
    if d.len() > 0 {
        let z = seq![48u8] + d;
        assert(z.drop_last() =~= seq![48u8] + d.drop_last());
        assert(z.last() == d.last());
        lemma_digits_value_front_zero(d.drop_last());
        assert(digits_value(z) == digits_value(z.drop_last()) * 10 + (z.last() - 48) as nat);
        assert(digits_value(d) == digits_value(d.drop_last()) * 10 + (d.last() - 48) as nat);
    } else {
        let z = seq![48u8] + d;
        assert(z.drop_last() =~= Seq::<u8>::empty());
        assert(z =~= seq![48u8]);
        assert(z.last() == 48u8);
        assert(digits_value(z) == digits_value(z.drop_last()) * 10 + (z.last() - 48) as nat);
        assert(digits_value(d) == 0);
    }
}

/// Only digits are read: text with a byte that is no ASCII digit, other than a sign
/// in front, reads as nothing, and so does a bare sign or nothing at all.
pub proof fn law_decimal_i32_refuses(t: Seq<u8>, j: int)
    requires
        0 <= j < t.len(),
        !(48 <= t[j] <= 57),
        !(j == 0 && (t[0] == 43 || t[0] == 45)),
    ensures
        decimal_i32(t) is None,
        decimal_i32(Seq::<u8>::empty()) is None,
        decimal_i32(seq![43u8]) is None,
        decimal_i32(seq![45u8]) is None,
{
    let k = sign_len(t);
    let d = t.skip(k);
    if d.len() > 0 {
        assert(d[j - k] == t[j]);
        assert(!is_digit(d[j - k]));
    }
    assert(seq![43u8].skip(1).len() == 0);
    assert(seq![45u8].skip(1).len() == 0);
}

/// A number spelled by more digits than fit reads as nothing: digits whose value
/// is past `i32::MAX` are refused bare, and past `2147483648` after a `-`.
pub proof fn law_decimal_i32_out_of_range(n: nat)
    ensures
        n > 2147483647 ==> decimal_i32(decimal_text(n)) is None,
        n > 2147483648 ==> decimal_i32(seq![45u8] + decimal_text(n)) is None,
{
    lemma_decimal_text(n);
    let t = decimal_text(n);
    assert(t.skip(0) =~= t);
    assert((seq![45u8] + t).skip(1) =~= t);
}

/// What one line of a block trace holds, with the gap text seen as a sequence.
pub enum TraceLineView {
    Blank,
    Bad,
    Block(Seq<u8>, BlockConfig),
}

/// What one line of a block trace holds.
#[derive(Clone, Debug, PartialEq, Eq)]
pub enum TraceLine {
    /// No word at all: the line is skipped.
    Blank,
    /// Fewer than four words, or a deadline, size or priority that is no 32-bit
    /// decimal number: the trace ends here.
    Bad,
    /// A block: the text of its time gap (first word), and its deadline, size and
    /// priority (second, third and fourth words).
    Block(Vec<u8>, BlockConfig),
}

impl View for TraceLine {
    type V = TraceLineView;

    open spec fn view(&self) -> TraceLineView {
        match self {
            TraceLine::Blank => TraceLineView::Blank,
            TraceLine::Bad => TraceLineView::Bad,
            TraceLine::Block(gap, cfg) => TraceLineView::Block(gap@, *cfg),
        }
    }
}

/// What the trace line `line` holds: words `gap deadline block_size priority`,
/// further words ignored.
pub open spec fn trace_line(line: Seq<u8>) -> TraceLineView {
    let w = words(line);
    if w.len() == 0 {
        TraceLineView::Blank
    } else if w.len() < 4 {
        TraceLineView::Bad
    } else {
        match (decimal_i32(w[1]), decimal_i32(w[2]), decimal_i32(w[3])) {
            (Some(deadline), Some(block_size), Some(priority)) => TraceLineView::Block(
                w[0],
                BlockConfig { deadline, priority, block_size },
            ),
            _ => TraceLineView::Bad,
        }
    }
}

/// A word followed by white space and more text splits into that word and the
/// words of the rest.
proof fn lemma_words_front(w: Seq<u8>, rest: Seq<u8>)
    requires
        w.len() >= 1,
        forall|j: int| 0 <= j < w.len() ==> !is_space(#[trigger] w[j]),
    ensures
        words(w + seq![32u8] + rest) == seq![w] + words(rest),
        words(w) == seq![w],
{
    let s = w + seq![32u8] + rest;
    assert forall|j: int| 0 <= j < w.len() implies !is_space(#[trigger] s[j]) by {
        assert(s[j] == w[j]);
    }
    assert(s[w.len() as int] == 32u8);
    lemma_word_len_is(s, w.len() as int);
    assert(s.take(w.len() as int) =~= w);
    let sp = s.skip(w.len() as int);
    assert(sp =~= seq![32u8] + rest);
    assert(sp.skip(1) =~= rest);
    assert(words(sp) == words(rest));
    lemma_word_len_is(w, w.len() as int);
    assert(w.take(w.len() as int) =~= w);
    assert(w.skip(w.len() as int) =~= Seq::<u8>::empty());
    assert(words(w.skip(w.len() as int)) =~= Seq::<Seq<u8>>::empty());
    assert(!is_space(w[0]));
    assert(words(w) == seq![w.take(w.len() as int)] + words(w.skip(w.len() as int)));
    assert(words(w) =~= seq![w]);
}

/// The decimal digits of a number hold no white space.
proof fn lemma_decimal_text_no_space(n: nat)
    ensures
        decimal_text(n).len() >= 1,
        forall|j: int| 0 <= j < decimal_text(n).len() ==> !is_space(#[trigger] decimal_text(n)[j]),
{
    lemma_decimal_text(n);
    assert forall|j: int| 0 <= j < decimal_text(n).len() implies !is_space(
        #[trigger] decimal_text(n)[j],
    ) by {
        assert(is_digit(decimal_text(n)[j]));
    }
}

/// A trace line written as `gap deadline block_size priority`, each number in
/// decimal, reads back as that block: the first word is the gap, the second the
/// deadline, the third the size and the fourth the priority.
pub proof fn law_trace_line_fields(gap: Seq<u8>, deadline: nat, block_size: nat, priority: nat)
    requires
        gap.len() >= 1,
        forall|j: int| 0 <= j < gap.len() ==> !is_space(#[trigger] gap[j]),
        deadline <= 2147483647,
        block_size <= 2147483647,
        priority <= 2147483647,
    ensures
        trace_line(
            gap + seq![32u8] + decimal_text(deadline) + seq![32u8] + decimal_text(block_size) + seq![
                32u8,
            ] + decimal_text(priority),
        ) == TraceLineView::Block(
            gap,
            BlockConfig {
                deadline: deadline as i32,
                priority: priority as i32,
                block_size: block_size as i32,
            },
        ),
{
    let td = decimal_text(deadline);
    let tb = decimal_text(block_size);
    let tp = decimal_text(priority);
    lemma_decimal_text_no_space(deadline);
    lemma_decimal_text_no_space(block_size);
    lemma_decimal_text_no_space(priority);
    law_decimal_i32_reads_numbers(deadline);
    law_decimal_i32_reads_numbers(block_size);
    law_decimal_i32_reads_numbers(priority);
    let r3 = tp;
    let r2 = tb + seq![32u8] + r3;
    let r1 = td + seq![32u8] + r2;
    let line = gap + seq![32u8] + r1;
    assert(line =~= gap + seq![32u8] + td + seq![32u8] + tb + seq![32u8] + tp);
    lemma_words_front(tp, Seq::<u8>::empty());
    lemma_words_front(tb, r3);
    lemma_words_front(td, r2);
    lemma_words_front(gap, r1);
    let w = words(line);
    assert(w =~= seq![gap, td, tb, tp]);
}

/// Reads one line of a block trace (see [`trace_line`]).
pub fn parse_trace_line(line: &[u8]) -> (r: TraceLine)
    ensures
        r@ == trace_line(line@),
{
    let ws = split_words(line);
    if ws.len() == 0 {
        return TraceLine::Blank;
    }
    if ws.len() < 4 {
        return TraceLine::Bad;
    }
    let deadline = parse_i32(ws[1].as_slice());
    let block_size = parse_i32(ws[2].as_slice());
    let priority = parse_i32(ws[3].as_slice());
    match (deadline, block_size, priority) {
        (Some(deadline), Some(block_size), Some(priority)) => {
            let gap: Vec<u8> = ws[0].clone();
            TraceLine::Block(gap, BlockConfig { deadline, priority, block_size })
        },
        _ => TraceLine::Bad,
    }
}

} // verus!
