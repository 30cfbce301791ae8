//! The order of byte strings and of paths: by the first place in which two
//! differ, a proper prefix coming first.

use crate::bencode::strings;
use vstd::prelude::*;

verus! {

/// Byte strings compared as bencode compares dictionary keys: by the first byte
/// in which they differ, a proper prefix coming first.
pub open spec fn bytes_lt(a: Seq<u8>, b: Seq<u8>) -> bool {
    exists|k: int|
        0 <= k <= a.len() && k <= b.len() && #[trigger] a.take(k) == b.take(k) && (if k == a.len() {
            k < b.len()
        } else {
            k < b.len() && a[k] < b[k]
        })
}

/// Byte strings that agree before position `k`, where `a` has the smaller
/// byte, are in order.
pub proof fn lemma_bytes_lt_at(a: Seq<u8>, b: Seq<u8>, k: int)
    requires
        0 <= k < a.len(),
        k < b.len(),
        forall|i: int| 0 <= i < k ==> a[i] == b[i],
        a[k] < b[k],
    ensures
        bytes_lt(a, b),
{
    assert(a.take(k) =~= b.take(k));
}

/// A proper prefix comes before the string it is a prefix of.
pub proof fn lemma_bytes_lt_prefix(a: Seq<u8>, b: Seq<u8>)
    requires
        a.len() < b.len(),
        forall|i: int| 0 <= i < a.len() ==> a[i] == b[i],
    ensures
        bytes_lt(a, b),
{
    assert(a.take(a.len() as int) =~= b.take(a.len() as int));
}

/// No byte string comes before itself.
pub proof fn lemma_bytes_lt_irreflexive(a: Seq<u8>)
    ensures
        !bytes_lt(a, a),
{
}

/// The order of byte strings is transitive.
pub proof fn lemma_bytes_lt_transitive(a: Seq<u8>, b: Seq<u8>, c: Seq<u8>)
    requires
        bytes_lt(a, b),
        bytes_lt(b, c),
    ensures
        bytes_lt(a, c),
{
    let k1: int = choose|k: int|
        0 <= k <= a.len() && k <= b.len() && #[trigger] a.take(k) == b.take(k) && (if k
            == a.len() {
            k < b.len()
        } else {
            k < b.len() && a[k] < b[k]
        });
    let k2: int = choose|k: int|
        0 <= k <= b.len() && k <= c.len() && #[trigger] b.take(k) == c.take(k) && (if k
            == b.len() {
            k < c.len()
        } else {
            k < c.len() && b[k] < c[k]
        });
    let k: int = if k1 < k2 {
        k1
    } else {
        k2
    };
    assert forall|i: int| 0 <= i < k1 implies a[i] == b[i] by {
        assert(a.take(k1)[i] == b.take(k1)[i]);
    }
    assert forall|i: int| 0 <= i < k2 implies b[i] == c[i] by {
        assert(b.take(k2)[i] == c.take(k2)[i]);
    }
    assert(a.take(k) =~= c.take(k));
}

/// Of two byte strings at most one comes before the other.
pub proof fn lemma_bytes_lt_asymmetric(a: Seq<u8>, b: Seq<u8>)
    requires
        bytes_lt(a, b),
    ensures
        !bytes_lt(b, a),
        a != b,
{
    lemma_bytes_lt_irreflexive(a);
    if bytes_lt(b, a) {
        lemma_bytes_lt_transitive(a, b, a);
    }
}

proof fn lemma_bytes_compare_from(a: Seq<u8>, b: Seq<u8>, n: int)
    requires
        0 <= n <= a.len(),
        n <= b.len(),
        a.take(n) == b.take(n),
    ensures
        a == b || bytes_lt(a, b) || bytes_lt(b, a),
    decreases a.len() - n,
{
    if n == a.len() || n == b.len() {
        if a.len() == b.len() {
            assert(a.take(n) =~= a);
            assert(b.take(n) =~= b);
        }
    } else if a[n] == b[n] {
        assert(a.take(n + 1) =~= a.take(n).push(a[n]));
        assert(b.take(n + 1) =~= b.take(n).push(b[n]));
        lemma_bytes_compare_from(a, b, n + 1);
    }
}

/// Two byte strings are equal, or one comes before the other.
pub proof fn lemma_bytes_trichotomy(a: Seq<u8>, b: Seq<u8>)
    ensures
        a == b || bytes_lt(a, b) || bytes_lt(b, a),
{
    assert(a.take(0) =~= b.take(0));
    lemma_bytes_compare_from(a, b, 0);
}

/// Compares two byte strings: -1 where `a` comes first, 1 where `b` does, 0
/// where they are equal.
pub fn compare_bytes(a: &[u8], b: &[u8]) -> (r: i8)
    ensures
        r == -1 || r == 0 || r == 1,
        r == -1 <==> bytes_lt(a@, b@),
        r == 0 <==> a@ == b@,
        r == 1 <==> bytes_lt(b@, a@),
{
    let n: usize = if a.len() < b.len() {
        a.len()
    } else {
        b.len()
    };
    let mut k: usize = 0;
    assert(a@.take(0) =~= b@.take(0));
    while k < n
        invariant
            k <= n,
            n <= a@.len(),
            n <= b@.len(),
            a@.take(k as int) == b@.take(k as int),
        decreases n - k,
    {
        if a[k] < b[k] {
            proof {
                lemma_bytes_lt_asymmetric(a@, b@);
            }
            return -1;
        }
        if a[k] > b[k] {
            proof {
                lemma_bytes_lt_asymmetric(b@, a@);
            }
            return 1;
        }
        k = k + 1;
        assert(a@.take(k as int) =~= a@.take(k - 1).push(a@[k - 1]));
        assert(b@.take(k as int) =~= b@.take(k - 1).push(b@[k - 1]));
    }
    if a.len() < b.len() {
        proof {
            lemma_bytes_lt_asymmetric(a@, b@);
        }
        -1
    } else if a.len() > b.len() {
        proof {
            lemma_bytes_lt_asymmetric(b@, a@);
        }
        1
    } else {
        proof {
            assert(a@.take(k as int) =~= a@);
            assert(b@.take(k as int) =~= b@);
            lemma_bytes_lt_irreflexive(a@);
        }
        0
    }
}

/// Paths compared as a walk meets them when it visits the names of each
/// directory in byte order: by the first component in which they differ, a
/// proper prefix coming first.
pub open spec fn path_lt(a: Seq<Seq<u8>>, b: Seq<Seq<u8>>) -> bool {
    exists|k: int|
        0 <= k <= a.len() && k <= b.len() && #[trigger] a.take(k) == b.take(k) && (if k
            == a.len() {
            k < b.len()
        } else {
            k < b.len() && bytes_lt(a[k], b[k])
        })
}

/// No path comes before itself.
pub proof fn lemma_path_lt_irreflexive(a: Seq<Seq<u8>>)
    ensures
        !path_lt(a, a),
{
    assert forall|k: int| 0 <= k < a.len() implies !bytes_lt(a[k], a[k]) by {
        lemma_bytes_lt_irreflexive(a[k]);
    }
}

/// The order of paths is transitive.
pub proof fn lemma_path_lt_transitive(a: Seq<Seq<u8>>, b: Seq<Seq<u8>>, c: Seq<Seq<u8>>)
    requires
        path_lt(a, b),
        path_lt(b, c),
    ensures
        path_lt(a, c),
{
    let k1: int = choose|k: int|
        0 <= k <= a.len() && k <= b.len() && #[trigger] a.take(k) == b.take(k) && (if k
            == a.len() {
            k < b.len()
        } else {
            k < b.len() && bytes_lt(a[k], b[k])
        });
    let k2: int = choose|k: int|
        0 <= k <= b.len() && k <= c.len() && #[trigger] b.take(k) == c.take(k) && (if k
            == b.len() {
            k < c.len()
        } else {
            k < c.len() && bytes_lt(b[k], c[k])
        });
    let k: int = if k1 < k2 {
        k1
    } else {
        k2
    };
    assert forall|i: int| 0 <= i < k1 implies a[i] == b[i] by {
        assert(a.take(k1)[i] == b.take(k1)[i]);
    }
    assert forall|i: int| 0 <= i < k2 implies b[i] == c[i] by {
        assert(b.take(k2)[i] == c.take(k2)[i]);
    }
    if k1 == k2 && k1 < a.len() {
        lemma_bytes_lt_transitive(a[k], b[k], c[k]);
    }
    assert(a.take(k) =~= c.take(k));
}

/// Of two paths at most one comes before the other.
pub proof fn lemma_path_lt_asymmetric(a: Seq<Seq<u8>>, b: Seq<Seq<u8>>)
    requires
        path_lt(a, b),
    ensures
        !path_lt(b, a),
        a != b,
{
    lemma_path_lt_irreflexive(a);
    if path_lt(b, a) {
        lemma_path_lt_transitive(a, b, a);
    }
}

proof fn lemma_path_compare_from(a: Seq<Seq<u8>>, b: Seq<Seq<u8>>, n: int)
    requires
        0 <= n <= a.len(),
        n <= b.len(),
        a.take(n) == b.take(n),
    ensures
        a == b || path_lt(a, b) || path_lt(b, a),
    decreases a.len() - n,
{
    if n == a.len() || n == b.len() {
        if a.len() == b.len() {
            assert(a.take(n) =~= a);
            assert(b.take(n) =~= b);
        }
    } else {
        lemma_bytes_trichotomy(a[n], b[n]);
        if a[n] == b[n] {
            assert(a.take(n + 1) =~= a.take(n).push(a[n]));
            assert(b.take(n + 1) =~= b.take(n).push(b[n]));
            lemma_path_compare_from(a, b, n + 1);
        }
    }
}

/// Two paths are equal, or one comes before the other.
pub proof fn lemma_path_trichotomy(a: Seq<Seq<u8>>, b: Seq<Seq<u8>>)
    ensures
        a == b || path_lt(a, b) || path_lt(b, a),
{
    assert(a.take(0) =~= b.take(0));
    lemma_path_compare_from(a, b, 0);
}

/// Compares two paths: -1 where `a` comes first, 1 where `b` does, 0 where
/// they are equal.
pub fn compare_paths(a: &Vec<Vec<u8>>, b: &Vec<Vec<u8>>) -> (r: i8)
    ensures
        r == -1 || r == 0 || r == 1,
        r == -1 <==> path_lt(strings(a@), strings(b@)),
        r == 0 <==> strings(a@) == strings(b@),
        r == 1 <==> path_lt(strings(b@), strings(a@)),
{
    let ghost x: Seq<Seq<u8>> = strings(a@);
    let ghost y: Seq<Seq<u8>> = strings(b@);
    let n: usize = if a.len() < b.len() {
        a.len()
    } else {
        b.len()
    };
    let mut k: usize = 0;
    assert(x.take(0) =~= y.take(0));
    while k < n
        invariant
            x == strings(a@),
            y == strings(b@),
            k <= n,
            n <= a@.len(),
            n <= b@.len(),
            x.take(k as int) == y.take(k as int),
        decreases n - k,
    {
        let c: i8 = compare_bytes(a[k].as_slice(), b[k].as_slice());
        assert(x[k as int] == a@[k as int]@);
        assert(y[k as int] == b@[k as int]@);
        if c == -1 {
            proof {
                lemma_path_lt_asymmetric(x, y);
            }
            return -1;
        }
        if c == 1 {
            proof {
                lemma_path_lt_asymmetric(y, x);
            }
            return 1;
        }
        k = k + 1;
        assert(x.take(k as int) =~= x.take(k - 1).push(x[k - 1]));
        assert(y.take(k as int) =~= y.take(k - 1).push(y[k - 1]));
    }
    if a.len() < b.len() {
        proof {
            lemma_path_lt_asymmetric(x, y);
        }
        -1
    } else if a.len() > b.len() {
        proof {
            lemma_path_lt_asymmetric(y, x);
        }
        1
    } else {
        proof {
            assert(x.take(k as int) =~= x);
            assert(y.take(k as int) =~= y);
            lemma_path_lt_irreflexive(x);
        }
        0
    }
}

} // verus!
