//! The per-block integrity value: an Adler-32 checksum.

use vstd::prelude::*;

verus! {

/// The low word of the checksum: 1 plus the byte sum, modulo 65521.
pub open spec fn adler_s1(s: Seq<u8>) -> nat
    decreases s.len(),
{
    if s.len() == 0 {
        1
    } else {
        ((adler_s1(s.drop_last()) + s.last()) % 65521) as nat
    }
}

/// The high word of the checksum: the running sum of the low words, modulo 65521.
pub open spec fn adler_s2(s: Seq<u8>) -> nat
    decreases s.len(),
{
    if s.len() == 0 {
        0
    } else {
        ((adler_s2(s.drop_last()) + adler_s1(s)) % 65521) as nat
    }
}

/// The Adler-32 checksum of a byte sequence.
pub open spec fn adler32_of(s: Seq<u8>) -> nat {
    adler_s2(s) * 0x10000 + adler_s1(s)
}

proof fn lemma_take_succ(s: Seq<u8>, i: int)
    requires
        0 <= i < s.len(),
    ensures
        s.take(i + 1).drop_last() == s.take(i),
        s.take(i + 1).last() == s[i],
{
    assert(s.take(i + 1).drop_last() =~= s.take(i));
}

/// Computes the Adler-32 checksum of `data`.
pub fn adler32(data: &[u8]) -> (r: u32)
    ensures
        r as nat == adler32_of(data@),
{
    let mut a: u32 = 1;
    let mut b: u32 = 0;
    let mut i: usize = 0;
    let n: usize = data.len();
    proof {
        assert(data@.take(0) =~= Seq::<u8>::empty());
    }
    while i < n
        invariant
            n == data@.len(),
            0 <= i <= n,
            a as nat == adler_s1(data@.take(i as int)),
            b as nat == adler_s2(data@.take(i as int)),
        decreases n - i,
    {
        proof {
            lemma_take_succ(data@, i as int);
        }
        a = (a + data[i] as u32) % 65521;
        b = (b + a) % 65521;
        i = i + 1;
    }
    proof {
        assert(data@.take(n as int) =~= data@);
    }
    b * 0x10000 + a
}

/// Sum of all bytes of a sequence.
pub open spec fn byte_sum(s: Seq<u8>) -> nat
    decreases s.len(),
{
    if s.len() == 0 {
        0
    } else {
        (byte_sum(s.drop_last()) + s.last()) as nat
    }
}

proof fn lemma_s1_is_sum_mod(s: Seq<u8>)
    ensures
        adler_s1(s) == (1 + byte_sum(s)) % 65521,
    decreases s.len(),
{
    if s.len() == 0 {
        vstd::arithmetic::div_mod::lemma_small_mod(1, 65521);
    } else {
        let p = s.drop_last();
        let l = s.last();
        lemma_s1_is_sum_mod(p);
        vstd::arithmetic::div_mod::lemma_small_mod(l as nat, 65521);
        vstd::arithmetic::div_mod::lemma_add_mod_noop((1 + byte_sum(p)) as int, l as int, 65521);
    }
}

proof fn lemma_byte_sum_update(s: Seq<u8>, i: int, v: u8)
    requires
        0 <= i < s.len(),
    ensures
        byte_sum(s.update(i, v)) + s[i] == byte_sum(s) + v,
    decreases s.len(),
{
    let t = s.update(i, v);
    if i == s.len() - 1 {
        assert(t.drop_last() =~= s.drop_last());
        assert(t.last() == v);
    } else {
        assert(t.drop_last() =~= s.drop_last().update(i, v));
        assert(t.last() == s.last());
        lemma_byte_sum_update(s.drop_last(), i, v);
    }
}

proof fn lemma_mod_same_implies_close_equal(x: int, y: int)
    requires
        x % 65521 == y % 65521,
        -65521 < y - x < 65521,
    ensures
        x == y,
{
    vstd::arithmetic::div_mod::lemma_fundamental_div_mod(x, 65521);
    vstd::arithmetic::div_mod::lemma_fundamental_div_mod(y, 65521);
    let qx = x / 65521;
    let qy = y / 65521;
    assert(y - x == 65521 * (qy - qx));
    if qy > qx {
        assert(65521 * (qy - qx) >= 65521);
    } else if qy < qx {
        assert(65521 * (qy - qx) <= -65521);
    }
}

/// Changing exactly one byte of a sequence always changes its Adler-32
/// checksum: a single corrupted payload byte can never go unnoticed.
pub proof fn lemma_adler32_detects_single_flip(s: Seq<u8>, i: int, v: u8)
    requires
        0 <= i < s.len(),
        v != s[i],
    ensures
        adler32_of(s.update(i, v)) != adler32_of(s),
{
    let t = s.update(i, v);
    lemma_s1_is_sum_mod(s);
    lemma_s1_is_sum_mod(t);
    lemma_byte_sum_update(s, i, v);
    let x = (1 + byte_sum(s)) as int;
    let y = (1 + byte_sum(t)) as int;
    assert(y - x == v - s[i]);
    assert(adler_s1(s) != adler_s1(t)) by {
        if x % 65521 == y % 65521 {
            lemma_mod_same_implies_close_equal(x, y);
        }
    };
    vstd::arithmetic::div_mod::lemma_mod_division_less_than_divisor(x, 65521);
    vstd::arithmetic::div_mod::lemma_mod_division_less_than_divisor(y, 65521);
    let a1 = adler_s1(s) as int;
    let a2 = adler_s2(s) as int;
    let b1 = adler_s1(t) as int;
    let b2 = adler_s2(t) as int;
    if adler32_of(s) == adler32_of(t) {
        assert(a2 * 0x10000 + a1 == b2 * 0x10000 + b1);
        if a2 > b2 {
            assert((a2 - b2) * 0x10000 >= 0x10000);
        } else if a2 < b2 {
            assert((a2 - b2) * 0x10000 <= -0x10000);
        }
        assert(false);
    }
}

} // verus!
