//! Numbers written in bytes, the highest byte first.

use vstd::prelude::*;

verus! {

/// The number that `s` writes.
pub open spec fn be_value(s: Seq<u8>) -> nat
    decreases s.len(),
{
    if s.len() == 0 {
        0
    } else {
        be_value(s.drop_last()) * 256 + s.last() as nat
    }
}

/// How many numbers `n` bytes can write.
pub open spec fn be_limit(n: nat) -> nat
    decreases n,
{
    if n == 0 {
        1
    } else {
        256 * be_limit((n - 1) as nat)
    }
}

/// A number is below the limit for its bytes.
pub proof fn lemma_be_value(s: Seq<u8>)
    ensures
        be_value(s) < be_limit(s.len()),
    decreases s.len(),
{
    if s.len() > 0 {
        lemma_be_value(s.drop_last());
    }
}

/// More bytes write more numbers.
proof fn lemma_be_limit_grows(m: nat, n: nat)
    requires
        m <= n,
    ensures
        be_limit(m) <= be_limit(n),
        be_limit(m) >= 1,
    decreases n,
{
    if m < n {
        lemma_be_limit_grows(m, (n - 1) as nat);
    } else if n > 0 {
        lemma_be_limit_grows((m - 1) as nat, (n - 1) as nat);
    }
}

/// The number that up to sixteen bytes write.
pub fn wide_number(data: &[u8]) -> (n: u128)
    requires
        data@.len() <= 16,
    ensures
        n == be_value(data@),
{
    let mut n: u128 = 0;
    let mut p: usize = 0;
    assert(data@.take(0) =~= Seq::<u8>::empty());
    while p < data.len()
        invariant
            p <= data@.len() <= 16,
            n == be_value(data@.take(p as int)),
        decreases data@.len() - p,
    {
        proof {
            assert(data@.take(p + 1).drop_last() =~= data@.take(p as int));
            lemma_be_value(data@.take(p + 1));
            lemma_be_limit_grows((p + 1) as nat, 16);
            assert(be_limit(16) == 0x1_0000_0000_0000_0000_0000_0000_0000_0000) by {
                reveal_with_fuel(be_limit, 17);
            }
        }
        n = n * 256 + data[p] as u128;
        p += 1;
    }
    assert(data@.take(p as int) =~= data@);
    n
}

/// The number that the bytes in `start..end` write.
pub fn be_number(data: &[u8], start: usize, end: usize) -> (n: u64)
    requires
        start <= end <= data@.len(),
        end - start <= 8,
    ensures
        n == be_value(data@.subrange(start as int, end as int)),
{
    let part = vstd::slice::slice_subrange(data, start, end);
    proof {
        lemma_be_value(part@);
        lemma_be_limit_grows(part@.len(), 8);
        assert(be_limit(8) == 0x1_0000_0000_0000_0000) by {
            reveal_with_fuel(be_limit, 9);
        }
    }
    wide_number(part) as u64
}

/// Byte strings of one length that write the same number are the same.
pub proof fn bytes_of_one_length_write_different_numbers(a: Seq<u8>, b: Seq<u8>)
    requires
        a.len() == b.len(),
        be_value(a) == be_value(b),
    ensures
        a == b,
    decreases a.len(),
{
    if a.len() > 0 {
        bytes_of_one_length_write_different_numbers(a.drop_last(), b.drop_last());
        assert(a =~= a.drop_last().push(a.last()));
        assert(b =~= b.drop_last().push(b.last()));
    } else {
        assert(a =~= b);
    }
}

/// The highest byte comes first: the bytes that are put behind others count 256 times less for
/// each of them.
pub proof fn the_highest_byte_comes_first(s: Seq<u8>)
    ensures
        s.len() == 1 ==> be_value(s) == s[0],
        s.len() == 2 ==> be_value(s) == 256 * s[0] + s[1],
        s.len() == 3 ==> be_value(s) == 65536 * s[0] + 256 * s[1] + s[2],
        s.len() == 4 ==> be_value(s) == 16777216 * s[0] + 65536 * s[1] + 256 * s[2] + s[3],
        be_value(s.push(0)) == 256 * be_value(s),
{
    reveal_with_fuel(be_value, 5);
    assert(s.push(0).drop_last() =~= s);
}

/// Numbers of sixteen bytes fit in 128 bits.
pub proof fn lemma_sixteen_bytes(s: Seq<u8>)
    requires
        s.len() == 16,
    ensures
        be_value(s) <= u128::MAX,
{
    lemma_be_value(s);
    assert(be_limit(16) == 0x1_0000_0000_0000_0000_0000_0000_0000_0000) by {
        reveal_with_fuel(be_limit, 17);
    }
}

} // verus!
