//! Big-endian fixed-width integer fields of the container.

use vstd::prelude::*;

verus! {

/// A take of one more element appends exactly that element.
pub proof fn lemma_take_succ(s: Seq<u8>, i: int)
    requires
        0 <= i < s.len(),
    ensures
        s.take(i + 1).drop_last() == s.take(i),
        s.take(i + 1).last() == s[i],
{
    assert(s.take(i + 1).drop_last() =~= s.take(i));
}

/// Value of a 2-byte big-endian field.
pub open spec fn be16(s: Seq<u8>) -> nat
    recommends
        s.len() == 2,
{
    (s[0] * 0x100 + s[1]) as nat
}

/// Value of a 4-byte big-endian field.
pub open spec fn be32(s: Seq<u8>) -> nat
    recommends
        s.len() == 4,
{
    (s[0] * 0x1000000 + s[1] * 0x10000 + s[2] * 0x100 + s[3]) as nat
}

/// Value of an 8-byte big-endian field.
pub open spec fn be64(s: Seq<u8>) -> nat
    recommends
        s.len() == 8,
{
    (s[0] * 0x100000000000000 + s[1] * 0x1000000000000 + s[2] * 0x10000000000 + s[3] * 0x100000000
        + s[4] * 0x1000000 + s[5] * 0x10000 + s[6] * 0x100 + s[7]) as nat
}

/// Reads the 2-byte big-endian field at `pos`.
pub fn read_u16(data: &[u8], pos: usize) -> (r: u16)
    requires
        pos + 2 <= data@.len(),
    ensures
        r as nat == be16(data@.subrange(pos as int, pos as int + 2)),
{
    let b0 = data[pos];
    let b1 = data[pos + 1];
    let r: u16 = (b0 as u16) * 0x100 + (b1 as u16);
    proof {
        let s = data@.subrange(pos as int, pos as int + 2);
        assert(s[0] == b0 && s[1] == b1);
    }
    r
}

/// Reads the 4-byte big-endian field at `pos`.
pub fn read_u32(data: &[u8], pos: usize) -> (r: u32)
    requires
        pos + 4 <= data@.len(),
    ensures
        r as nat == be32(data@.subrange(pos as int, pos as int + 4)),
{
    let b0 = data[pos];
    let b1 = data[pos + 1];
    let b2 = data[pos + 2];
    let b3 = data[pos + 3];
    let r: u32 = (b0 as u32) * 0x1000000 + (b1 as u32) * 0x10000 + (b2 as u32) * 0x100 + (
    b3 as u32);
    proof {
        let s = data@.subrange(pos as int, pos as int + 4);
        assert(s[0] == b0 && s[1] == b1 && s[2] == b2 && s[3] == b3);
    }
    r
}

/// Reads the 8-byte big-endian field at `pos`.
pub fn read_u64(data: &[u8], pos: usize) -> (r: u64)
    requires
        pos + 8 <= data@.len(),
    ensures
        r as nat == be64(data@.subrange(pos as int, pos as int + 8)),
{
    let b0 = data[pos];
    let b1 = data[pos + 1];
    let b2 = data[pos + 2];
    let b3 = data[pos + 3];
    let b4 = data[pos + 4];
    let b5 = data[pos + 5];
    let b6 = data[pos + 6];
    let b7 = data[pos + 7];
    let r: u64 = (b0 as u64) * 0x100000000000000 + (b1 as u64) * 0x1000000000000 + (b2 as u64)
        * 0x10000000000 + (b3 as u64) * 0x100000000 + (b4 as u64) * 0x1000000 + (b5 as u64)
        * 0x10000 + (b6 as u64) * 0x100 + (b7 as u64);
    proof {
        let s = data@.subrange(pos as int, pos as int + 8);
        assert(s[0] == b0 && s[1] == b1 && s[2] == b2 && s[3] == b3);
        assert(s[4] == b4 && s[5] == b5 && s[6] == b6 && s[7] == b7);
    }
    r
}

/// Index of the first occurrence of `b` in `s`, or -1.
pub open spec fn find_byte(s: Seq<u8>, b: u8) -> int
    decreases s.len(),
{
    if s.len() == 0 {
        -1
    } else if s[0] == b {
        0
    } else {
        let r = find_byte(s.skip(1), b);
        if r < 0 {
            -1
        } else {
            1 + r
        }
    }
}

/// `find_byte` returns the first occurrence, and -1 exactly when there is none.
pub proof fn lemma_find_byte(s: Seq<u8>, b: u8)
    ensures
        find_byte(s, b) < 0 ==> forall|j: int| 0 <= j < s.len() ==> s[j] != b,
        find_byte(s, b) >= 0 ==> find_byte(s, b) < s.len() && s[find_byte(s, b)] == b && forall|
            j: int,
        | 0 <= j < find_byte(s, b) ==> s[j] != b,
    decreases s.len(),
{
    if s.len() == 0 {
    } else if s[0] == b {
    } else {
        lemma_find_byte(s.skip(1), b);
        let r = find_byte(s.skip(1), b);
        if r < 0 {
            assert forall|j: int| 0 <= j < s.len() implies s[j] != b by {
                if j > 0 {
                    assert(s[j] == s.skip(1)[j - 1]);
                }
            }
        } else {
            assert(s[1 + r] == s.skip(1)[r]);
            assert forall|j: int| 0 <= j < 1 + r implies s[j] != b by {
                if j > 0 {
                    assert(s[j] == s.skip(1)[j - 1]);
                }
            }
        }
    }
}

/// Finds the next `b` at or after `from`.
pub fn find_byte_from(data: &[u8], from: usize, b: u8) -> (r: Option<usize>)
    requires
        from <= data@.len(),
    ensures
        match r {
            Some(i) => from <= i < data@.len() && i - from == find_byte(data@.skip(from as int), b),
            None => find_byte(data@.skip(from as int), b) < 0,
        },
{
    let n: usize = data.len();
    let mut i: usize = from;
    while i < n
        invariant
            from <= i <= n,
            n == data@.len(),
            forall|j: int| from <= j < i ==> data@[j] != b,
        decreases n - i,
    {
        if data[i] == b {
            proof {
                lemma_find_byte(data@.skip(from as int), b);
                let s = data@.skip(from as int);
                let k = i - from;
                assert(s[k as int] == data@[i as int]);
                assert forall|j: int| 0 <= j < k implies s[j] != b by {
                    assert(s[j] == data@[from + j]);
                }
                // find_byte cannot point before k, nor after it
                if find_byte(s, b) < 0 {
                    assert(s[k as int] != b);
                }
                if find_byte(s, b) > k {
                    assert(s[k as int] != b);
                }
                if 0 <= find_byte(s, b) < k {
                    assert(s[find_byte(s, b)] != b);
                }
            }
            return Some(i);
        }
        i = i + 1;
    }
    proof {
        lemma_find_byte(data@.skip(from as int), b);
        let s = data@.skip(from as int);
        if find_byte(s, b) >= 0 {
            let k = find_byte(s, b);
            assert(s[k] == data@[from + k]);
        }
    }
    None
}

} // verus!
