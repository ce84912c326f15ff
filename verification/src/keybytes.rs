//! Lexicographic order on byte strings, used to sort query keys when a URL
//! is canonicalized.

use vstd::prelude::*;

verus! {

/// Strict lexicographic order on byte sequences: `a` comes before `b`.
pub open spec fn key_lt(a: Seq<u8>, b: Seq<u8>) -> bool
    decreases a.len(),
{
    if b.len() == 0 {
        false
    } else if a.len() == 0 {
        true
    } else if a[0] < b[0] {
        true
    } else if a[0] > b[0] {
        false
    } else {
        key_lt(a.skip(1), b.skip(1))
    }
}

/// Outcome of comparing two byte keys.
pub enum KeyOrder {
    Lt,
    Eq,
    Gt,
}

/// Three-way lexicographic comparison of two byte vectors.
pub fn key_cmp(a: &Vec<u8>, b: &Vec<u8>) -> (r: KeyOrder)
    ensures
        r is Lt <==> key_lt(a@, b@),
        r is Eq <==> a@ == b@,
        r is Gt <==> key_lt(b@, a@),
{
    let mut i: usize = 0;
    proof {
        assert(a@.skip(0) =~= a@);
        assert(b@.skip(0) =~= b@);
        assert(a@.subrange(0, 0) =~= b@.subrange(0, 0));
    }
    loop
        invariant
            i <= a.len(),
            i <= b.len(),
            a@.subrange(0, i as int) == b@.subrange(0, i as int),
            key_lt(a@, b@) == key_lt(a@.skip(i as int), b@.skip(i as int)),
            key_lt(b@, a@) == key_lt(b@.skip(i as int), a@.skip(i as int)),
            (a@ == b@) == (a@.skip(i as int) == b@.skip(i as int)),
        decreases a.len() - i,
    {
        if i == a.len() {
            if i == b.len() {
                proof {
                    assert(a@.skip(i as int) =~= b@.skip(i as int));
                }
                return KeyOrder::Eq;
            } else {
                return KeyOrder::Lt;
            }
        }
        if i == b.len() {
            return KeyOrder::Gt;
        }
        let x = a[i];
        let y = b[i];
        if x < y {
            return KeyOrder::Lt;
        }
        if x > y {
            return KeyOrder::Gt;
        }
        proof {
            let sa = a@.skip(i as int);
            let sb = b@.skip(i as int);
            assert(sa[0] == a@[i as int] && sb[0] == b@[i as int]);
            assert(sa.skip(1) =~= a@.skip(i + 1));
            assert(sb.skip(1) =~= b@.skip(i + 1));
            assert(a@.subrange(0, i + 1) =~= a@.subrange(0, i as int).push(a@[i as int]));
            assert(b@.subrange(0, i + 1) =~= b@.subrange(0, i as int).push(b@[i as int]));
            if sa == sb {
                assert(a@ =~= a@.subrange(0, i as int) + sa);
                assert(b@ =~= b@.subrange(0, i as int) + sb);
            }
            if a@ == b@ {
                assert(sa =~= sb);
            }
            if sa.skip(1) == sb.skip(1) {
                assert(sa =~= sa.subrange(0, 1) + sa.skip(1));
                assert(sb =~= sb.subrange(0, 1) + sb.skip(1));
                assert(sa.subrange(0, 1) =~= sb.subrange(0, 1));
            }
        }
        i = i + 1;
    }
}

/// Of two byte keys, exactly one of `key_lt(a, b)`, `a == b`, `key_lt(b, a)` holds.
pub proof fn lemma_key_trichotomy(a: Seq<u8>, b: Seq<u8>)
    ensures
        key_lt(a, b) || a == b || key_lt(b, a),
        key_lt(a, b) ==> a != b && !key_lt(b, a),
        a == b ==> !key_lt(a, b) && !key_lt(b, a),
    decreases a.len() + b.len(),
{
    if a.len() == 0 && b.len() == 0 {
        assert(a =~= b);
    } else if a.len() == 0 || b.len() == 0 {
    } else if a[0] == b[0] {
        lemma_key_trichotomy(a.skip(1), b.skip(1));
        if a.skip(1) == b.skip(1) {
            assert(a =~= b) by {
                assert(a.len() == b.len());
                assert forall|i: int| 0 <= i < a.len() implies a[i] == b[i] by {
                    if i > 0 {
                        assert(a.skip(1)[i - 1] == b.skip(1)[i - 1]);
                    }
                }
            }
        }
        if a == b {
            assert(a.skip(1) =~= b.skip(1));
        }
    } else {
        if a == b {
            assert(a[0] == b[0]);
        }
    }
}

/// Lexicographic order is transitive.
pub proof fn lemma_key_lt_trans(a: Seq<u8>, b: Seq<u8>, c: Seq<u8>)
    requires
        key_lt(a, b),
        key_lt(b, c),
    ensures
        key_lt(a, c),
    decreases a.len() + b.len() + c.len(),
{
    if a.len() == 0 {
    } else {
        // b and c are nonempty since key_lt(a, b) and key_lt(b, c) hold.
        if a[0] < b[0] {
            if b[0] <= c[0] {
            }
        } else {
            // a[0] == b[0]
            if b[0] < c[0] {
            } else {
                lemma_key_lt_trans(a.skip(1), b.skip(1), c.skip(1));
            }
        }
    }
}

} // verus!
