//! Numbers as bytes, least or most significant byte first.
use vstd::prelude::*;

verus! {

/// How many values `n` bytes tell apart.
pub open spec fn span(n: nat) -> nat
    decreases n,
{
    if n == 0 {
        1
    } else {
        256 * span((n - 1) as nat)
    }
}

/// The value of bytes that start with the least significant.
pub open spec fn le_value(s: Seq<u8>) -> nat
    decreases s.len(),
{
    if s.len() == 0 {
        0
    } else {
        s[0] as nat + 256 * le_value(s.subrange(1, s.len() as int))
    }
}

/// A number in `n` bytes, least significant first.
pub open spec fn le_bytes(value: nat, n: nat) -> Seq<u8>
    decreases n,
{
    if n == 0 {
        Seq::empty()
    } else {
        seq![(value % 256) as u8] + le_bytes(value / 256, (n - 1) as nat)
    }
}

/// The value of bytes that start with the most significant.
pub open spec fn be_value(s: Seq<u8>) -> nat
    decreases s.len(),
{
    if s.len() == 0 {
        0
    } else {
        256 * be_value(s.drop_last()) + s.last() as nat
    }
}

/// A number in `n` bytes, most significant first.
pub open spec fn be_bytes(value: nat, n: nat) -> Seq<u8>
    decreases n,
{
    if n == 0 {
        Seq::empty()
    } else {
        be_bytes(value / 256, (n - 1) as nat).push((value % 256) as u8)
    }
}

/// The spans of the widths in use.
pub proof fn lemma_spans()
    ensures
        span(4) == 0x1_0000_0000,
        span(8) == 0x1_0000_0000_0000_0000,
        span(16) == u128::MAX + 1,
{
    reveal_with_fuel(span, 17);
}

/// Bytes stay below the span of their number.
pub proof fn lemma_le_value_bound(s: Seq<u8>)
    ensures
        le_value(s) < span(s.len()),
    decreases s.len(),
{
    if s.len() > 0 {
        lemma_le_value_bound(s.subrange(1, s.len() as int));
    }
}

/// Bytes stay below the span of their number.
pub proof fn lemma_be_value_bound(s: Seq<u8>)
    ensures
        be_value(s) < span(s.len()),
    decreases s.len(),
{
    if s.len() > 0 {
        lemma_be_value_bound(s.drop_last());
    }
}

/// A number is read back from its bytes.
pub proof fn law_le_round_trip(value: nat, n: nat)
    requires
        value < span(n),
    ensures
        le_bytes(value, n).len() == n,
        le_value(le_bytes(value, n)) == value,
    decreases n,
{
    if n > 0 {
        assert(value / 256 < span((n - 1) as nat));
        law_le_round_trip(value / 256, (n - 1) as nat);
        let s = le_bytes(value, n);
        assert(s.subrange(1, s.len() as int) =~= le_bytes(value / 256, (n - 1) as nat));
    }
}

/// A number is read back from its bytes.
pub proof fn law_be_round_trip(value: nat, n: nat)
    requires
        value < span(n),
    ensures
        be_bytes(value, n).len() == n,
        be_value(be_bytes(value, n)) == value,
    decreases n,
{
    if n > 0 {
        assert(value / 256 < span((n - 1) as nat));
        law_be_round_trip(value / 256, (n - 1) as nat);
        let s = be_bytes(value, n);
        assert(s.drop_last() =~= be_bytes(value / 256, (n - 1) as nat));
    }
}

/// Bytes are the bytes of their value.
pub proof fn law_be_bytes_of_value(s: Seq<u8>)
    ensures
        be_bytes(be_value(s), s.len()) == s,
    decreases s.len(),
{
    if s.len() > 0 {
        law_be_bytes_of_value(s.drop_last());
        assert(s.drop_last().push(s.last()) =~= s);
    } else {
        assert(s =~= Seq::<u8>::empty());
    }
}

/// The length of a number's bytes.
pub proof fn lemma_lengths(value: nat, n: nat)
    ensures
        le_bytes(value, n).len() == n,
        be_bytes(value, n).len() == n,
    decreases n,
{
    if n > 0 {
        lemma_lengths(value / 256, (n - 1) as nat);
    }
}

/// Appends a number in `n` bytes, least significant first.
pub fn push_le(out: &mut Vec<u8>, value: u128, n: usize)
    ensures
        final(out)@ == old(out)@ + le_bytes(value as nat, n as nat),
{
    let ghost start = out@;
    let mut rest: u128 = value;
    let mut left: usize = n;
    while left > 0
        invariant
            left <= n,
            out@ + le_bytes(rest as nat, left as nat) =~= start + le_bytes(
                value as nat,
                n as nat,
            ),
        decreases left,
    {
        let ghost before = out@;
        let byte: u8 = (rest % 256) as u8;
        out.push(byte);
        proof {
            assert(le_bytes(rest as nat, left as nat) == seq![byte] + le_bytes(
                (rest / 256) as nat,
                (left - 1) as nat,
            ));
            assert(out@ + le_bytes((rest / 256) as nat, (left - 1) as nat) =~= before + le_bytes(
                rest as nat,
                left as nat,
            ));
        }
        rest = rest / 256;
        left = left - 1;
    }
}

/// Appends a number in sixteen bytes, most significant first.
pub fn push_be(out: &mut Vec<u8>, value: u128)
    ensures
        final(out)@ == old(out)@ + be_bytes(value as nat, 16),
{
    let ghost start = out@;
    let mut divisors: Vec<u8> = Vec::new();
    let mut rest: u128 = value;
    let mut i: usize = 0;
    // The bytes come out last first.
    while i < 16
        invariant
            i <= 16,
            divisors@.len() == i,
            be_bytes(value as nat, 16) =~= be_bytes(rest as nat, (16 - i) as nat)
                + divisors@.reverse(),
        decreases 16 - i,
    {
        let ghost before = divisors@;
        let byte: u8 = (rest % 256) as u8;
        divisors.push(byte);
        proof {
            assert(be_bytes(rest as nat, (16 - i) as nat) == be_bytes(
                (rest / 256) as nat,
                (15 - i) as nat,
            ).push(byte));
            assert(divisors@.reverse() =~= seq![byte] + before.reverse());
            assert(be_bytes((rest / 256) as nat, (15 - i) as nat) + divisors@.reverse()
                =~= be_bytes(rest as nat, (16 - i) as nat) + before.reverse());
        }
        rest = rest / 256;
        i = i + 1;
    }
    assert(be_bytes(value as nat, 16) =~= divisors@.reverse());
    let mut left: usize = 16;
    while left > 0
        invariant
            left <= 16,
            divisors@.len() == 16,
            be_bytes(value as nat, 16) =~= divisors@.reverse(),
            out@ =~= start + divisors@.reverse().subrange(0, 16 - left),
        decreases left,
    {
        left = left - 1;
        out.push(divisors[left]);
    }
    assert(divisors@.reverse().subrange(0, 16) =~= divisors@.reverse());
}

/// Reads a number of at most sixteen bytes, least significant first.
pub fn read_le(bytes: &[u8], at: usize, n: usize) -> (r: u128)
    requires
        at + n <= bytes@.len(),
        n <= 16,
    ensures
        r == le_value(bytes@.subrange(at as int, at + n)),
        r < span(n as nat),
{
    let mut value: u128 = 0;
    let mut left: usize = n;
    let end: usize = bytes.len();
    proof {
        assert(bytes@.subrange(at + n, at + n) =~= Seq::<u8>::empty());
        lemma_le_value_bound(bytes@.subrange(at as int, at + n));
    }
    while left > 0
        invariant
            at + n <= end == bytes@.len(),
            n <= 16,
            left <= n,
            value == le_value(bytes@.subrange(at + left, at + n)),
        decreases left,
    {
        left = left - 1;
        proof {
            let s = bytes@.subrange(at + left, at + n);
            let tail = bytes@.subrange(at + left + 1, at + n);
            assert(s.subrange(1, s.len() as int) =~= tail);
            lemma_le_value_bound(s);
            lemma_span_grows(s.len(), 16);
            lemma_spans();
        }
        let byte: u8 = bytes[at + left];
        value = value * 256 + byte as u128;
    }
    value
}

/// Reads a number of sixteen bytes, most significant first.
pub fn read_be(bytes: &[u8], at: usize) -> (r: u128)
    requires
        at + 16 <= bytes@.len(),
    ensures
        r == be_value(bytes@.subrange(at as int, at + 16)),
{
    let mut value: u128 = 0;
    let mut i: usize = 0;
    let end: usize = bytes.len();
    assert(bytes@.subrange(at as int, at as int) =~= Seq::<u8>::empty());
    while i < 16
        invariant
            at + 16 <= end == bytes@.len(),
            i <= 16,
            value == be_value(bytes@.subrange(at as int, at + i)),
        decreases 16 - i,
    {
        proof {
            let s = bytes@.subrange(at as int, at + i + 1);
            assert(s.drop_last() =~= bytes@.subrange(at as int, at + i));
            lemma_be_value_bound(s);
            lemma_span_grows(s.len(), 16);
            lemma_spans();
        }
        let byte: u8 = bytes[at + i];
        value = value * 256 + byte as u128;
        i = i + 1;
    }
    value
}

/// More bytes tell more values apart.
proof fn lemma_span_grows(a: nat, b: nat)
    requires
        a <= b,
    ensures
        span(a) <= span(b),
    decreases b,
{
    if a < b {
        lemma_span_grows(a, (b - 1) as nat);
    }
}

/// The least significant byte of a number comes first, or last, as the order says.
pub proof fn law_bytes_come_in_order(value: nat, n: nat)
    requires
        n > 0,
    ensures
        le_bytes(value, n).len() == n,
        be_bytes(value, n).len() == n,
        le_bytes(value, n)[0] == value % 256,
        be_bytes(value, n).last() == value % 256,
        n > 1 ==> le_bytes(value, n)[1] == (value / 256) % 256,
        n > 1 ==> be_bytes(value, n)[n - 2] == (value / 256) % 256,
{
    lemma_lengths(value, n);
    reveal_with_fuel(le_bytes, 3);
    reveal_with_fuel(be_bytes, 3);
    lemma_lengths(value / 256, (n - 1) as nat);
}

} // verus!
