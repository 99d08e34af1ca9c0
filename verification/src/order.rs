//! Lexicographic order on byte sequences, and the truncating comparison rule
//! that the descent resolver applies to a query key and a stored fragment.

use vstd::prelude::*;

verus! {

/// Three-way lexicographic comparison of byte sequences: -1 when `a` sorts
/// before `b`, 0 when they are equal, 1 when `a` sorts after `b`.
pub open spec fn lex_cmp(a: Seq<u8>, b: Seq<u8>) -> int
    decreases a.len(),
{
    if a.len() == 0 && b.len() == 0 {
        0
    } else if a.len() == 0 {
        -1
    } else if b.len() == 0 {
        1
    } else if a[0] < b[0] {
        -1
    } else if a[0] > b[0] {
        1
    } else {
        lex_cmp(a.skip(1), b.skip(1))
    }
}

/// The first `n` bytes of `key`, or all of `key` when it is shorter.
pub open spec fn trunc(key: Seq<u8>, n: int) -> Seq<u8> {
    if key.len() <= n {
        key
    } else {
        key.take(n)
    }
}

/// The comparison rule of the descent: the query key truncated to the stored
/// fragment's length, compared lexicographically against the fragment.
/// 0 means the fragment is a prefix of the key.
pub open spec fn key_cmp(key: Seq<u8>, frag: Seq<u8>) -> int {
    lex_cmp(trunc(key, frag.len() as int), frag)
}

/// What remains of the query key after the compared part.
pub open spec fn key_rest(key: Seq<u8>, frag: Seq<u8>) -> Seq<u8> {
    if key.len() <= frag.len() {
        Seq::<u8>::empty()
    } else {
        key.skip(frag.len() as int)
    }
}

/// Two byte sequences compare equal exactly when they are the same sequence.
pub proof fn lemma_lex_cmp_eq(a: Seq<u8>, b: Seq<u8>)
    ensures
        lex_cmp(a, b) == 0 <==> a == b,
    decreases a.len(),
{
    if a.len() == 0 && b.len() == 0 {
        assert(a =~= b);
    } else if a.len() > 0 && b.len() > 0 && a[0] == b[0] {
        lemma_lex_cmp_eq(a.skip(1), b.skip(1));
        if lex_cmp(a, b) == 0 {
            assert forall|i: int| 0 <= i < a.len() implies a[i] == b[i] by {
                if i > 0 {
                    assert(a.skip(1)[i - 1] == a[i]);
                    assert(b.skip(1)[i - 1] == b[i]);
                }
            }
            assert(a =~= b);
        }
        if a == b {
            assert(a.skip(1) == b.skip(1));
        }
    } else {
        if a == b {
            assert(a.len() == b.len());
            if a.len() > 0 {
                assert(a[0] == b[0]);
            }
        }
    }
}

/// Comparison never leaves {-1, 0, 1}.
pub proof fn lemma_lex_cmp_range(a: Seq<u8>, b: Seq<u8>)
    ensures
        -1 <= lex_cmp(a, b) <= 1,
    decreases a.len(),
{
    if a.len() > 0 && b.len() > 0 && a[0] == b[0] {
        lemma_lex_cmp_range(a.skip(1), b.skip(1));
    }
}

/// The order is transitive, strictly so as soon as one link is strict.
pub proof fn lemma_lex_trans(a: Seq<u8>, b: Seq<u8>, c: Seq<u8>)
    requires
        lex_cmp(a, b) <= 0,
        lex_cmp(b, c) <= 0,
    ensures
        lex_cmp(a, c) <= 0,
        lex_cmp(a, b) < 0 || lex_cmp(b, c) < 0 ==> lex_cmp(a, c) < 0,
    decreases a.len() + b.len() + c.len(),
{
    if a.len() == 0 {
        if c.len() == 0 {
            assert(b.len() == 0);
        }
    } else {
        assert(b.len() > 0);
        assert(c.len() > 0);
        if a[0] == b[0] && b[0] == c[0] {
            lemma_lex_trans(a.skip(1), b.skip(1), c.skip(1));
        }
    }
}

/// A strict comparison between a prefix of `a` and a sequence `b` no longer
/// than that prefix is decided before the prefix ends, so it carries over to
/// `a` itself.
pub proof fn lemma_lex_extend_lt(a: Seq<u8>, b: Seq<u8>, m: int)
    requires
        0 <= m <= a.len(),
        b.len() <= m,
        lex_cmp(a.take(m), b) < 0,
    ensures
        lex_cmp(a, b) < 0,
    decreases m,
{
    if b.len() == 0 {
        assert(false);
    } else {
        assert(m >= 1);
        assert(a.take(m)[0] == a[0]);
        if a[0] == b[0] {
            assert(a.take(m).skip(1) =~= a.skip(1).take(m - 1));
            lemma_lex_extend_lt(a.skip(1), b.skip(1), m - 1);
        }
    }
}

/// A greater-than verdict on a prefix of `a` also carries over to `a`.
pub proof fn lemma_lex_extend_gt(a: Seq<u8>, b: Seq<u8>, m: int)
    requires
        0 <= m <= a.len(),
        lex_cmp(a.take(m), b) > 0,
    ensures
        lex_cmp(a, b) > 0,
    decreases m,
{
    if m == 0 {
        assert(a.take(0).len() == 0);
        assert(false);
    } else if b.len() == 0 {
        assert(a.len() > 0);
    } else {
        assert(a.take(m)[0] == a[0]);
        if a[0] == b[0] {
            assert(a.take(m).skip(1) =~= a.skip(1).take(m - 1));
            lemma_lex_extend_gt(a.skip(1), b.skip(1), m - 1);
        }
    }
}

/// A sequence compares at or above each of its own prefixes, strictly above
/// each proper one.
pub proof fn lemma_lex_prefix(k: Seq<u8>, m: int)
    requires
        0 <= m <= k.len(),
    ensures
        lex_cmp(k, k.take(m)) >= 0,
        m < k.len() ==> lex_cmp(k, k.take(m)) > 0,
    decreases m,
{
    if m > 0 {
        assert(k.take(m)[0] == k[0]);
        assert(k.take(m).skip(1) =~= k.skip(1).take(m - 1));
        lemma_lex_prefix(k.skip(1), m - 1);
    }
}

/// A key below a fragment under the truncating rule is below it outright.
pub proof fn lemma_key_cmp_lt(key: Seq<u8>, frag: Seq<u8>)
    requires
        key_cmp(key, frag) < 0,
    ensures
        lex_cmp(key, frag) < 0,
{
    if key.len() > frag.len() {
        lemma_lex_extend_lt(key, frag, frag.len() as int);
    }
}

/// A key above a fragment under the truncating rule is above it outright.
pub proof fn lemma_key_cmp_gt(key: Seq<u8>, frag: Seq<u8>)
    requires
        key_cmp(key, frag) > 0,
    ensures
        lex_cmp(key, frag) > 0,
        key.len() > 0,
{
    if key.len() > frag.len() {
        lemma_lex_extend_gt(key, frag, frag.len() as int);
    }
    if key.len() == 0 {
        assert(trunc(key, frag.len() as int).len() == 0);
    }
}

/// The truncating rule reports equality exactly when the fragment is a prefix
/// of the key.
pub proof fn lemma_key_cmp_eq(key: Seq<u8>, frag: Seq<u8>)
    ensures
        key_cmp(key, frag) == 0 <==> (frag.len() <= key.len() && frag == key.take(
            frag.len() as int,
        )),
{
    lemma_lex_cmp_eq(trunc(key, frag.len() as int), frag);
    if key.len() < frag.len() && trunc(key, frag.len() as int) == frag {
        assert(false);
    }
    if frag.len() <= key.len() {
        assert(trunc(key, frag.len() as int) =~= key.take(frag.len() as int));
    }
}

/// A key compares equal to any truncation of itself.
pub proof fn lemma_key_cmp_self_trunc(key: Seq<u8>, m: int)
    requires
        0 <= m,
    ensures
        key_cmp(key, trunc(key, m)) == 0,
{
    let frag = trunc(key, m);
    assert(trunc(key, frag.len() as int) =~= frag);
    lemma_lex_cmp_eq(frag, frag);
}

/// A key below one fragment is also below every fragment that sorts after it.
pub proof fn lemma_key_cmp_mono(key: Seq<u8>, f: Seq<u8>, g: Seq<u8>)
    requires
        key_cmp(key, f) < 0,
        lex_cmp(f, g) < 0,
    ensures
        key_cmp(key, g) < 0,
{
    lemma_key_cmp_lt(key, f);
    lemma_lex_trans(key, f, g);
    lemma_lex_cmp_range(trunc(key, g.len() as int), g);
    if key_cmp(key, g) == 0 {
        lemma_key_cmp_eq(key, g);
        lemma_lex_prefix(key, g.len() as int);
        assert(false);
    } else if key_cmp(key, g) > 0 {
        lemma_key_cmp_gt(key, g);
        assert(false);
    }
}

/// Truncating the key to any point at or past the compared region keeps it
/// strictly below the fragment.
pub proof fn lemma_key_trunc_lt(key: Seq<u8>, frag: Seq<u8>, m: int)
    requires
        key_cmp(key, frag) < 0,
        0 <= m,
        frag.len() <= m || key.len() <= m,
    ensures
        lex_cmp(trunc(key, m), frag) < 0,
{
    if key.len() <= m {
        lemma_key_cmp_lt(key, frag);
    } else {
        assert(frag.len() <= m);
        assert(key.len() > m >= frag.len());
        assert(trunc(key, m) =~= key.take(m));
        assert(key.take(m).take(frag.len() as int) =~= key.take(frag.len() as int));
        lemma_lex_extend_lt(key.take(m), frag, frag.len() as int);
    }
}

/// The verdict of comparing equal-length prefixes byte by byte: decided at the
/// first differing position.
pub proof fn lemma_lex_cmp_at_index(a: Seq<u8>, b: Seq<u8>, j: int)
    requires
        0 <= j < a.len(),
        j < b.len(),
        forall|i: int| 0 <= i < j ==> a[i] == b[i],
        a[j] != b[j],
    ensures
        lex_cmp(a, b) == if a[j] < b[j] {
            -1int
        } else {
            1int
        },
    decreases j,
{
    if j > 0 {
        assert(a[0] == b[0]);
        assert(a.skip(1)[j - 1] == a[j]);
        assert(b.skip(1)[j - 1] == b[j]);
        assert forall|i: int| 0 <= i < j - 1 implies a.skip(1)[i] == b.skip(1)[i] by {
            assert(a.skip(1)[i] == a[i + 1]);
            assert(b.skip(1)[i] == b[i + 1]);
        }
        lemma_lex_cmp_at_index(a.skip(1), b.skip(1), j - 1);
    }
}

/// The verdict when one sequence is a prefix of the other: the shorter sorts
/// first, equals sort equal.
pub proof fn lemma_lex_cmp_common_prefix(a: Seq<u8>, b: Seq<u8>)
    requires
        a.len() <= b.len(),
        forall|i: int| 0 <= i < a.len() ==> a[i] == b[i],
    ensures
        lex_cmp(a, b) == if a.len() == b.len() {
            0int
        } else {
            -1int
        },
    decreases a.len(),
{
    if a.len() > 0 {
        assert forall|i: int| 0 <= i < a.len() - 1 implies a.skip(1)[i] == b.skip(1)[i] by {
            assert(a.skip(1)[i] == a[i + 1]);
            assert(b.skip(1)[i] == b[i + 1]);
        }
        lemma_lex_cmp_common_prefix(a.skip(1), b.skip(1));
    }
}

/// Compares the query key, truncated to the fragment's length, against the
/// fragment, byte by byte; the result mirrors `key_cmp`.
pub fn compare_trunc(key: &[u8], frag: &[u8]) -> (c: i8)
    ensures
        c as int == key_cmp(key@, frag@),
{
    let n: usize = if key.len() < frag.len() {
        key.len()
    } else {
        frag.len()
    };
    let mut i: usize = 0;
    while i < n
        invariant
            0 <= i <= n,
            n <= key@.len(),
            n <= frag@.len(),
            n == if key@.len() < frag@.len() {
                key@.len() as int
            } else {
                frag@.len() as int
            },
            forall|j: int| 0 <= j < i ==> key@[j] == frag@[j],
        decreases n - i,
    {
        let kb = key[i];
        let fb = frag[i];
        if kb < fb {
            proof {
                let t = trunc(key@, frag@.len() as int);
                assert(t[i as int] == key@[i as int]);
                assert(forall|j: int| 0 <= j < i ==> t[j] == key@[j]);
                lemma_lex_cmp_at_index(t, frag@, i as int);
            }
            return -1;
        }
        if kb > fb {
            proof {
                let t = trunc(key@, frag@.len() as int);
                assert(t[i as int] == key@[i as int]);
                assert(forall|j: int| 0 <= j < i ==> t[j] == key@[j]);
                lemma_lex_cmp_at_index(t, frag@, i as int);
            }
            return 1;
        }
        i = i + 1;
    }
    proof {
        let t = trunc(key@, frag@.len() as int);
        assert(forall|j: int| 0 <= j < n ==> t[j] == key@[j]);
        assert(t.len() == n);
        lemma_lex_cmp_common_prefix(t, frag@);
    }
    if n < frag.len() {
        -1
    } else {
        0
    }
}

} // verus!
