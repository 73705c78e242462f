//! Little-endian integers.

use vstd::prelude::*;

verus! {

/// The `n` low bytes of a number, least significant first.
pub open spec fn le_bytes(x: nat, n: nat) -> Seq<u8>
    decreases n,
{
    if n == 0 {
        Seq::empty()
    } else {
        seq![(x % 256) as u8] + le_bytes(x / 256, (n - 1) as nat)
    }
}

/// The number that bytes spell, least significant first.
pub open spec fn le_value(s: Seq<u8>) -> nat
    decreases s.len(),
{
    if s.len() == 0 {
        0
    } else {
        s[0] as nat + 256 * le_value(s.skip(1))
    }
}

/// One more than the largest number that `n` bytes hold.
pub open spec fn byte_limit(n: nat) -> nat
    decreases n,
{
    if n == 0 {
        1
    } else {
        256 * byte_limit((n - 1) as nat)
    }
}

/// A number of at most `n` bytes is spelled by exactly `n` bytes, and they spell it.
pub proof fn law_le_bytes_spell(x: nat, n: nat)
    requires
        x < byte_limit(n),
    ensures
        le_bytes(x, n).len() == n,
        le_value(le_bytes(x, n)) == x,
    decreases n,
{
    if n > 0 {
        law_le_bytes_spell(x / 256, (n - 1) as nat);
        let s = le_bytes(x, n);
        assert(s.skip(1) =~= le_bytes(x / 256, (n - 1) as nat));
    }
}

/// The bytes of a number always number `n`.
pub proof fn lemma_le_bytes_len(x: nat, n: nat)
    ensures
        le_bytes(x, n).len() == n,
    decreases n,
{
    if n > 0 {
        lemma_le_bytes_len(x / 256, (n - 1) as nat);
    }
}

/// Bytes are what their number is spelled with, and it is within their limit.
pub proof fn law_le_value_is_spelled(s: Seq<u8>)
    ensures
        le_value(s) < byte_limit(s.len()),
        le_bytes(le_value(s), s.len()) == s,
    decreases s.len(),
{
    if s.len() > 0 {
        let rest = s.skip(1);
        law_le_value_is_spelled(rest);
        let x = le_value(s);
        assert(x % 256 == s[0] as nat);
        assert(x / 256 == le_value(rest));
        assert(le_bytes(x, s.len()) =~= s);
    } else {
        assert(le_bytes(0, 0) =~= s);
    }
}

/// The limits of the widths in use.
pub proof fn lemma_byte_limits()
    ensures
        byte_limit(4) == 0x1_0000_0000,
        byte_limit(8) == 0x1_0000_0000_0000_0000,
{
    reveal_with_fuel(byte_limit, 9);
}

/// Appends the `n` low bytes of a number.
pub fn put_le(out: &mut Vec<u8>, x: u64, n: usize)
    requires
        n <= 8,
    ensures
        final(out)@ == old(out)@ + le_bytes(x as nat, n as nat),
{
    let ghost start = out@;
    let mut rest: u64 = x;
    let mut left: usize = n;
    assert(start + le_bytes(x as nat, n as nat) == out@ + le_bytes(rest as nat, left as nat));
    while left > 0
        invariant
            left <= n,
            start + le_bytes(x as nat, n as nat) == out@ + le_bytes(rest as nat, left as nat),
        decreases left,
    {
        let ghost before = out@;
        let low: u8 = (rest % 256) as u8;
        out.push(low);
        assert(before + le_bytes(rest as nat, left as nat) =~= out@ + le_bytes(
            (rest / 256) as nat,
            (left - 1) as nat,
        ));
        rest = rest / 256;
        left = left - 1;
    }
    assert(out@ + le_bytes(rest as nat, 0) =~= out@);
}

/// Reads the number spelled by the `n` bytes at `at`.
pub fn get_le(bytes: &[u8], at: usize, n: usize) -> (x: u64)
    requires
        n <= 8,
        at + n <= bytes@.len(),
    ensures
        x == le_value(bytes@.subrange(at as int, at + n)),
{
    let mut x: u64 = 0;
    let mut left: usize = n;
    let total: usize = bytes.len();
    proof {
        lemma_byte_limits();
        assert(bytes@.subrange((at + n) as int, (at + n) as int) =~= Seq::<u8>::empty());
        lemma_limit_monotone(n as nat, 8);
    }
    while left > 0
        invariant
            n <= 8,
            left <= n,
            at + n <= total,
            total == bytes@.len(),
            x == le_value(bytes@.subrange(at + left, at + n)),
        decreases left,
    {
        left = left - 1;
        proof {
            let s = bytes@.subrange(at + left, at + n);
            assert(s.skip(1) =~= bytes@.subrange(at + left + 1, at + n));
            law_le_value_is_spelled(s);
            lemma_limit_monotone(s.len(), 8);
            lemma_byte_limits();
        }
        x = bytes[at + left] as u64 + 256 * x;
    }
    x
}

/// More bytes hold larger numbers.
proof fn lemma_limit_monotone(n: nat, m: nat)
    requires
        n <= m,
    ensures
        byte_limit(n) <= byte_limit(m),
    decreases m,
{
    if n < m {
        lemma_limit_monotone(n, (m - 1) as nat);
    }
}

} // verus!
