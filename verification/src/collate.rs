//! Mode-parameterized key comparison.
//!
//! Every place keys are ordered or matched — narrowing candidate key blocks,
//! locating an entry inside a decoded block, answering `has_key` — goes
//! through one total comparison: keys are normalized under the mode (case
//! folded and/or stripped of ignorable punctuation), then ordered by plain
//! byte order.

use vstd::prelude::*;

verus! {

/// How keys are matched: `fold_case` makes the comparison case-insensitive,
/// `ignore_punct` makes it skip punctuation and spacing bytes.
#[derive(Clone, Copy, PartialEq, Eq, Structural, Debug)]
pub struct CollateMode {
    pub fold_case: bool,
    pub ignore_punct: bool,
}

impl CollateMode {
    /// Plain byte order: the container's default ordering.
    pub fn binary() -> (r: CollateMode)
        ensures
            r == (CollateMode { fold_case: false, ignore_punct: false }),
    {
        CollateMode { fold_case: false, ignore_punct: false }
    }
}

/// Bytes the punctuation-folding modes skip: ASCII space and punctuation.
pub open spec fn is_ignorable(b: u8) -> bool {
    b == 32 || (33 <= b <= 47) || (58 <= b <= 64) || (91 <= b <= 96) || (123 <= b <= 126)
}

/// ASCII upper-case letters map to lower case; every other byte is kept.
pub open spec fn fold_byte(b: u8) -> u8 {
    if 65 <= b <= 90 {
        (b + 32) as u8
    } else {
        b
    }
}

/// One byte as the mode sees it.
pub open spec fn norm_byte(b: u8, m: CollateMode) -> u8 {
    if m.fold_case {
        fold_byte(b)
    } else {
        b
    }
}

/// A key as the mode sees it: ignorable bytes dropped, the rest folded.
pub open spec fn norm(s: Seq<u8>, m: CollateMode) -> Seq<u8>
    decreases s.len(),
{
    if s.len() == 0 {
        Seq::empty()
    } else if m.ignore_punct && is_ignorable(s.last()) {
        norm(s.drop_last(), m)
    } else {
        norm(s.drop_last(), m).push(norm_byte(s.last(), m))
    }
}

/// Plain lexicographic byte order: -1, 0 or 1.
pub open spec fn lex_cmp(a: Seq<u8>, b: Seq<u8>) -> int
    decreases a.len(),
{
    if a.len() == 0 && b.len() == 0 {
        0
    } else if a.len() == 0 {
        -1
    } else if b.len() == 0 {
        1
    } else if a[0] < b[0] {
        -1
    } else if a[0] > b[0] {
        1
    } else {
        lex_cmp(a.skip(1), b.skip(1))
    }
}

/// The collation order: lexicographic order of the normalized keys.
pub open spec fn key_cmp(a: Seq<u8>, b: Seq<u8>, m: CollateMode) -> int {
    lex_cmp(norm(a, m), norm(b, m))
}

/// `lex_cmp` only takes the values -1, 0 and 1.
pub proof fn lemma_lex_cmp_range(a: Seq<u8>, b: Seq<u8>)
    ensures
        -1 <= lex_cmp(a, b) <= 1,
    decreases a.len(),
{
    if a.len() > 0 && b.len() > 0 && a[0] == b[0] {
        lemma_lex_cmp_range(a.skip(1), b.skip(1));
    }
}

/// `lex_cmp` is zero exactly on equal sequences.
pub proof fn lemma_lex_cmp_eq(a: Seq<u8>, b: Seq<u8>)
    ensures
        lex_cmp(a, b) == 0 <==> a == b,
    decreases a.len(),
{
    if a.len() == 0 && b.len() == 0 {
        assert(a =~= b);
    } else if a.len() > 0 && b.len() > 0 && a[0] == b[0] {
        lemma_lex_cmp_eq(a.skip(1), b.skip(1));
        if lex_cmp(a, b) == 0 {
            assert(a.skip(1) == b.skip(1));
            assert(a.len() == b.len());
            assert forall|j: int| 0 <= j < a.len() implies a[j] == b[j] by {
                if j > 0 {
                    assert(a[j] == a.skip(1)[j - 1]);
                    assert(b[j] == b.skip(1)[j - 1]);
                }
            }
            assert(a =~= b);
        } else {
            if a == b {
                assert(a.skip(1) =~= b.skip(1));
            }
        }
    } else {
        if a == b {
            assert(a.len() == b.len());
            if a.len() > 0 {
                assert(a[0] == b[0]);
            }
        }
    }
}

/// Swapping the arguments flips the sign.
pub proof fn lemma_lex_cmp_antisym(a: Seq<u8>, b: Seq<u8>)
    ensures
        lex_cmp(a, b) == -lex_cmp(b, a),
    decreases a.len(),
{
    if a.len() > 0 && b.len() > 0 && a[0] == b[0] {
        lemma_lex_cmp_antisym(a.skip(1), b.skip(1));
    }
}

/// The order is transitive, and strictness is preserved.
pub proof fn lemma_lex_cmp_trans(a: Seq<u8>, b: Seq<u8>, c: Seq<u8>)
    requires
        lex_cmp(a, b) <= 0,
        lex_cmp(b, c) <= 0,
    ensures
        lex_cmp(a, c) <= 0,
        lex_cmp(a, b) < 0 || lex_cmp(b, c) < 0 ==> lex_cmp(a, c) < 0,
    decreases a.len(),
{
    if a.len() == 0 {
        if c.len() == 0 {
            // b compares at or below the empty sequence, so b is empty too
            // and neither hypothesis is strict.
            assert(b.len() == 0);
        }
    } else {
        assert(b.len() > 0);
        assert(c.len() > 0);
        assert(a[0] <= b[0] && b[0] <= c[0]);
        if a[0] == c[0] {
            lemma_lex_cmp_trans(a.skip(1), b.skip(1), c.skip(1));
        }
    }
}

proof fn lemma_norm_take_succ(s: Seq<u8>, m: CollateMode, i: int)
    requires
        0 <= i < s.len(),
    ensures
        norm(s.take(i + 1), m) == if m.ignore_punct && is_ignorable(s[i]) {
            norm(s.take(i), m)
        } else {
            norm(s.take(i), m).push(norm_byte(s[i], m))
        },
{
    crate::bytes::lemma_take_succ(s, i);
    assert(s.take(i + 1).len() == i + 1);
}

/// Normalizes a key under the mode.
pub fn normalize(s: &[u8], m: CollateMode) -> (r: Vec<u8>)
    ensures
        r@ == norm(s@, m),
{
    let mut r: Vec<u8> = Vec::new();
    let mut i: usize = 0;
    let n: usize = s.len();
    proof {
        assert(s@.take(0) =~= Seq::<u8>::empty());
    }
    while i < n
        invariant
            n == s@.len(),
            0 <= i <= n,
            r@ == norm(s@.take(i as int), m),
        decreases n - i,
    {
        proof {
            lemma_norm_take_succ(s@, m, i as int);
        }
        let b = s[i];
        if m.ignore_punct && (b == 32 || (33 <= b && b <= 47) || (58 <= b && b <= 64) || (91 <= b
            && b <= 96) || (123 <= b && b <= 126)) {
            // ignorable: dropped
        } else if m.fold_case && 65 <= b && b <= 90 {
            r.push(b + 32);
        } else {
            r.push(b);
        }
        i = i + 1;
    }
    proof {
        assert(s@.take(n as int) =~= s@);
    }
    r
}

proof fn lemma_lex_cmp_common_prefix(a: Seq<u8>, b: Seq<u8>, i: int)
    requires
        0 <= i <= a.len(),
        0 <= i <= b.len(),
        forall|j: int| 0 <= j < i ==> a[j] == b[j],
    ensures
        lex_cmp(a, b) == lex_cmp(a.skip(i), b.skip(i)),
    decreases i,
{
    if i > 0 {
        assert(a.len() > 0 && b.len() > 0 && a[0] == b[0]);
        lemma_lex_cmp_common_prefix(a.skip(1), b.skip(1), i - 1);
        assert(a.skip(1).skip(i - 1) =~= a.skip(i));
        assert(b.skip(1).skip(i - 1) =~= b.skip(i));
    } else {
        assert(a.skip(0) =~= a);
        assert(b.skip(0) =~= b);
    }
}

/// Compares two byte strings in plain lexicographic order.
pub fn cmp_bytes(a: &[u8], b: &[u8]) -> (r: i32)
    ensures
        r == lex_cmp(a@, b@),
        -1 <= r <= 1,
{
    let na: usize = a.len();
    let nb: usize = b.len();
    let mut i: usize = 0;
    loop
        invariant
            na == a@.len(),
            nb == b@.len(),
            0 <= i <= na,
            0 <= i <= nb,
            forall|j: int| 0 <= j < i ==> a@[j] == b@[j],
        decreases na - i,
    {
        proof {
            lemma_lex_cmp_common_prefix(a@, b@, i as int);
        }
        if i == na && i == nb {
            return 0;
        } else if i == na {
            return -1;
        } else if i == nb {
            return 1;
        } else {
            let x = a[i];
            let y = b[i];
            if x < y {
                proof {
                    assert(a@.skip(i as int)[0] == x && b@.skip(i as int)[0] == y);
                }
                return -1;
            } else if x > y {
                proof {
                    assert(a@.skip(i as int)[0] == x && b@.skip(i as int)[0] == y);
                }
                return 1;
            }
            i = i + 1;
        }
    }
}

/// Compares two keys under the mode: -1, 0 or 1.
pub fn compare(a: &[u8], b: &[u8], m: CollateMode) -> (r: i32)
    ensures
        r == key_cmp(a@, b@, m),
        -1 <= r <= 1,
{
    let an = normalize(a, m);
    let bn = normalize(b, m);
    cmp_bytes(an.as_slice(), bn.as_slice())
}

/// A key folded to lower case, with nothing else changed.
pub open spec fn fold_of(s: Seq<u8>) -> Seq<u8> {
    s.map_values(|b: u8| fold_byte(b))
}

proof fn lemma_norm_of_folded(s: Seq<u8>, p: bool)
    ensures
        norm(s, CollateMode { fold_case: true, ignore_punct: p }) == norm(
            fold_of(s),
            CollateMode { fold_case: false, ignore_punct: p },
        ),
    decreases s.len(),
{
    let mi = CollateMode { fold_case: true, ignore_punct: p };
    let mf = CollateMode { fold_case: false, ignore_punct: p };
    let f = fold_of(s);
    if s.len() == 0 {
        assert(f =~= Seq::<u8>::empty());
    } else {
        lemma_norm_of_folded(s.drop_last(), p);
        assert(f.drop_last() =~= fold_of(s.drop_last()));
        assert(f.last() == fold_byte(s.last()));
        assert(is_ignorable(fold_byte(s.last())) == is_ignorable(s.last()));
    }
}

/// Case-insensitive comparison is exactly case-sensitive comparison of the
/// case-folded keys: the two case-sensitivity levels differ only by folding.
pub proof fn lemma_insensitive_is_folded_sensitive(a: Seq<u8>, b: Seq<u8>, p: bool)
    ensures
        key_cmp(a, b, CollateMode { fold_case: true, ignore_punct: p }) == key_cmp(
            fold_of(a),
            fold_of(b),
            CollateMode { fold_case: false, ignore_punct: p },
        ),
{
    lemma_norm_of_folded(a, p);
    lemma_norm_of_folded(b, p);
}

/// For a fixed mode the collation is a total order: antisymmetric,
/// transitive, and zero exactly when the normalized keys coincide — so a
/// binary search and a linear scan agree on every match.
pub proof fn lemma_key_cmp_total_order(a: Seq<u8>, b: Seq<u8>, c: Seq<u8>, m: CollateMode)
    ensures
        -1 <= key_cmp(a, b, m) <= 1,
        key_cmp(a, b, m) == -key_cmp(b, a, m),
        key_cmp(a, b, m) == 0 <==> norm(a, m) == norm(b, m),
        key_cmp(a, b, m) <= 0 && key_cmp(b, c, m) <= 0 ==> key_cmp(a, c, m) <= 0,
        key_cmp(a, b, m) <= 0 && key_cmp(b, c, m) < 0 ==> key_cmp(a, c, m) < 0,
        key_cmp(a, b, m) < 0 && key_cmp(b, c, m) <= 0 ==> key_cmp(a, c, m) < 0,
{
    lemma_lex_cmp_range(norm(a, m), norm(b, m));
    lemma_lex_cmp_antisym(norm(a, m), norm(b, m));
    lemma_lex_cmp_eq(norm(a, m), norm(b, m));
    if key_cmp(a, b, m) <= 0 && key_cmp(b, c, m) <= 0 {
        lemma_lex_cmp_trans(norm(a, m), norm(b, m), norm(c, m));
    }
}

} // verus!
