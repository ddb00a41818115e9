//! Lexicographic order on byte-string keys, with the comparison function the
//! binary search is built on.

use vstd::prelude::*;

verus! {

/// Strict lexicographic order on byte strings: `a` sorts before `b`.
pub open spec fn key_lt(a: Seq<u8>, b: Seq<u8>) -> bool
    decreases a.len(),
{
    if b.len() == 0 {
        false
    } else if a.len() == 0 {
        true
    } else if a[0] < b[0] {
        true
    } else if a[0] > b[0] {
        false
    } else {
        key_lt(a.drop_first(), b.drop_first())
    }
}

/// `a` sorts before `b`, or equals it.
pub open spec fn key_le(a: Seq<u8>, b: Seq<u8>) -> bool {
    key_lt(a, b) || a == b
}

/// Lexicographic order is total: exactly one of `key_lt(a, b)`, `a == b`,
/// `key_lt(b, a)` holds.
pub proof fn lemma_key_trichotomy(a: Seq<u8>, b: Seq<u8>)
    ensures
        key_lt(a, b) || a == b || key_lt(b, a),
        key_lt(a, b) ==> a != b,
        key_lt(b, a) ==> a != b,
        !(key_lt(a, b) && key_lt(b, a)),
    decreases a.len(),
{
    if a.len() == 0 && b.len() == 0 {
        assert(a =~= b);
    } else if a.len() > 0 && b.len() > 0 && a[0] == b[0] {
        lemma_key_trichotomy(a.drop_first(), b.drop_first());
        if a.drop_first() == b.drop_first() {
            assert forall|k: int| 0 <= k < a.len() implies a[k] == b[k] by {
                if k > 0 {
                    assert(a[k] == a.drop_first()[k - 1]);
                    assert(b[k] == b.drop_first()[k - 1]);
                }
            }
            assert(a =~= b);
        }
        if a == b {
            assert(a.drop_first() =~= b.drop_first());
        }
    }
}

/// Lexicographic order is transitive.
pub proof fn lemma_key_lt_trans(a: Seq<u8>, b: Seq<u8>, c: Seq<u8>)
    requires
        key_lt(a, b),
        key_lt(b, c),
    ensures
        key_lt(a, c),
    decreases a.len(),
{
    if a.len() > 0 && b.len() > 0 && c.len() > 0 && a[0] == b[0] && b[0] == c[0] {
        lemma_key_lt_trans(a.drop_first(), b.drop_first(), c.drop_first());
    }
}

/// Keys that agree on their first `i` bytes compare as their tails from
/// byte `i` onward compare.
pub proof fn lemma_key_lt_skip(a: Seq<u8>, b: Seq<u8>, i: int)
    requires
        0 <= i <= a.len(),
        i <= b.len(),
        forall|j: int| 0 <= j < i ==> a[j] == b[j],
    ensures
        key_lt(a, b) == key_lt(a.skip(i), b.skip(i)),
    decreases i,
{
    if i > 0 {
        assert(a[0] == b[0]);
        lemma_key_lt_skip(a.drop_first(), b.drop_first(), i - 1);
        assert(a.drop_first().skip(i - 1) =~= a.skip(i));
        assert(b.drop_first().skip(i - 1) =~= b.skip(i));
    } else {
        assert(a.skip(0) =~= a);
        assert(b.skip(0) =~= b);
    }
}

/// The outcome of comparing two keys.
pub enum KeyOrdering {
    Less,
    Equal,
    Greater,
}

/// Compares two byte-string keys in lexicographic order.
pub fn compare_keys(a: &[u8], b: &[u8]) -> (r: KeyOrdering)
    ensures
        (r == KeyOrdering::Less <==> key_lt(a@, b@)),
        (r == KeyOrdering::Equal <==> a@ == b@),
        (r == KeyOrdering::Greater <==> key_lt(b@, a@)),
{
    proof {
        lemma_key_trichotomy(a@, b@);
    }
    let mut i: usize = 0;
    while i < a.len() && i < b.len()
        invariant
            i <= a@.len(),
            i <= b@.len(),
            forall|j: int| 0 <= j < i ==> a@[j] == b@[j],
        decreases a@.len() - i,
    {
        let x = a[i];
        let y = b[i];
        if x < y {
            proof {
                lemma_key_lt_skip(a@, b@, i as int);
                assert(a@.skip(i as int)[0] == a@[i as int]);
                assert(b@.skip(i as int)[0] == b@[i as int]);
                assert(key_lt(a@.skip(i as int), b@.skip(i as int)));
                lemma_key_trichotomy(a@, b@);
            }
            return KeyOrdering::Less;
        }
        if x > y {
            proof {
                lemma_key_lt_skip(b@, a@, i as int);
                assert(a@.skip(i as int)[0] == a@[i as int]);
                assert(b@.skip(i as int)[0] == b@[i as int]);
                assert(key_lt(b@.skip(i as int), a@.skip(i as int)));
                lemma_key_trichotomy(a@, b@);
            }
            return KeyOrdering::Greater;
        }
        i += 1;
    }
    if a.len() < b.len() {
        proof {
            lemma_key_lt_skip(a@, b@, i as int);
            assert(a@.skip(i as int).len() == 0);
            assert(b@.skip(i as int).len() > 0);
            assert(key_lt(a@.skip(i as int), b@.skip(i as int)));
            lemma_key_trichotomy(a@, b@);
        }
        KeyOrdering::Less
    } else if b.len() < a.len() {
        proof {
            lemma_key_lt_skip(b@, a@, i as int);
            assert(b@.skip(i as int).len() == 0);
            assert(a@.skip(i as int).len() > 0);
            assert(key_lt(b@.skip(i as int), a@.skip(i as int)));
            lemma_key_trichotomy(a@, b@);
        }
        KeyOrdering::Greater
    } else {
        proof {
            assert(a@ =~= b@);
            lemma_key_trichotomy(a@, b@);
        }
        KeyOrdering::Equal
    }
}

} // verus!
