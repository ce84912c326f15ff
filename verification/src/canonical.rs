//! Canonical ordering of URL query pairs.
//!
//! A URL's query pairs are canonicalized by sorting them in ascending
//! lexicographic key order; when a key occurs more than once, the value seen
//! last wins. The canonical form is what the request digest is computed
//! over, so two URLs whose queries differ only in pair order collapse to the
//! same digest.

use crate::keybytes::{key_cmp, key_lt, lemma_key_lt_trans, lemma_key_trichotomy, KeyOrder};
use vstd::prelude::*;

verus! {

/// One `key=value` pair of a URL query string.
pub struct QueryPair {
    pub key: Vec<u8>,
    pub value: Vec<u8>,
}

impl View for QueryPair {
    type V = (Seq<u8>, Seq<u8>);

    open spec fn view(&self) -> (Seq<u8>, Seq<u8>) {
        (self.key@, self.value@)
    }
}

/// The views of a sequence of query pairs.
pub open spec fn pview(s: Seq<QueryPair>) -> Seq<(Seq<u8>, Seq<u8>)> {
    s.map_values(|p: QueryPair| p@)
}

/// The pairs are in strictly ascending key order (so keys are unique).
pub open spec fn sorted_strict(s: Seq<(Seq<u8>, Seq<u8>)>) -> bool {
    forall|i: int, j: int| 0 <= i < j < s.len() ==> key_lt(s[i].0, s[j].0)
}

/// The value the query associates with `k`: that of the last pair keyed `k`.
pub open spec fn lookup(s: Seq<(Seq<u8>, Seq<u8>)>, k: Seq<u8>) -> Option<Seq<u8>>
    decreases s.len(),
{
    if s.len() == 0 {
        None
    } else if s.last().0 == k {
        Some(s.last().1)
    } else {
        lookup(s.drop_last(), k)
    }
}

/// Insert `p` into a key-sorted pair sequence, replacing an equal key.
pub open spec fn insert_sorted(s: Seq<(Seq<u8>, Seq<u8>)>, p: (Seq<u8>, Seq<u8>)) -> Seq<
    (Seq<u8>, Seq<u8>),
>
    decreases s.len(),
{
    if s.len() == 0 {
        seq![p]
    } else if key_lt(s.last().0, p.0) {
        s.push(p)
    } else if s.last().0 == p.0 {
        s.drop_last().push(p)
    } else {
        insert_sorted(s.drop_last(), p).push(s.last())
    }
}

/// The canonical form of a query: its pairs in ascending key order, with the
/// last value winning among equal keys.
pub open spec fn canon_pairs(q: Seq<(Seq<u8>, Seq<u8>)>) -> Seq<(Seq<u8>, Seq<u8>)>
    decreases q.len(),
{
    if q.len() == 0 {
        Seq::empty()
    } else {
        insert_sorted(canon_pairs(q.drop_last()), q.last())
    }
}

proof fn lemma_insert_sorted_props(s: Seq<(Seq<u8>, Seq<u8>)>, p: (Seq<u8>, Seq<u8>))
    requires
        sorted_strict(s),
    ensures
        sorted_strict(insert_sorted(s, p)),
        forall|j: int|
            0 <= j < insert_sorted(s, p).len() ==> (#[trigger] insert_sorted(s, p)[j].0 == p.0
                || exists|m: int| 0 <= m < s.len() && s[m].0 == insert_sorted(s, p)[j].0),
        forall|k: Seq<u8>|
            #[trigger] lookup(insert_sorted(s, p), k) == if k == p.0 {
                Some(p.1)
            } else {
                lookup(s, k)
            },
    decreases s.len(),
{
    let r = insert_sorted(s, p);
    if s.len() == 0 {
        assert(r =~= seq![p]);
        assert(r.drop_last() =~= Seq::<(Seq<u8>, Seq<u8>)>::empty());
        assert forall|k: Seq<u8>| true implies #[trigger] lookup(r, k) == if k == p.0 {
            Some(p.1)
        } else {
            lookup(s, k)
        } by {
            assert(r.last() == p);
            if k != p.0 {
                assert(lookup(r, k) == lookup(r.drop_last(), k));
            }
        }
    } else if key_lt(s.last().0, p.0) {
        // r == s.push(p)
        assert forall|i: int, j: int| 0 <= i < j < r.len() implies key_lt(r[i].0, r[j].0) by {
            if j == r.len() - 1 {
                if i < s.len() - 1 {
                    lemma_key_lt_trans(s[i].0, s.last().0, p.0);
                }
            }
        }
        assert(r.drop_last() =~= s);
        assert forall|k: Seq<u8>| true implies #[trigger] lookup(r, k) == if k == p.0 {
            Some(p.1)
        } else {
            lookup(s, k)
        } by {
            lemma_key_trichotomy(s.last().0, p.0);
            if k != p.0 {
                assert(lookup(r, k) == lookup(s, k));
            }
        }
    } else if s.last().0 == p.0 {
        // r == s.drop_last().push(p)
        assert forall|i: int, j: int| 0 <= i < j < r.len() implies key_lt(r[i].0, r[j].0) by {
            if j == r.len() - 1 {
                assert(key_lt(s[i].0, s.last().0));
            }
        }
        assert(r.drop_last() =~= s.drop_last());
        assert forall|k: Seq<u8>| true implies #[trigger] lookup(r, k) == if k == p.0 {
            Some(p.1)
        } else {
            lookup(s, k)
        } by {
            if k != p.0 {
                assert(lookup(r, k) == lookup(s.drop_last(), k));
                assert(lookup(s, k) == lookup(s.drop_last(), k));
            }
        }
    } else {
        lemma_key_trichotomy(s.last().0, p.0);
        // key_lt(p.0, s.last().0); r == insert_sorted(s.drop_last(), p).push(s.last())
        let d = s.drop_last();
        assert(sorted_strict(d)) by {
            assert forall|i: int, j: int| 0 <= i < j < d.len() implies key_lt(d[i].0, d[j].0) by {
                assert(key_lt(s[i].0, s[j].0));
            }
        }
        lemma_insert_sorted_props(d, p);
        let ri = insert_sorted(d, p);
        assert forall|i: int, j: int| 0 <= i < j < r.len() implies key_lt(r[i].0, r[j].0) by {
            if j == r.len() - 1 {
                // every key of ri is below s.last().0
                if ri[i].0 == p.0 {
                } else {
                    let m = choose|m: int| 0 <= m < d.len() && d[m].0 == ri[i].0;
                    assert(key_lt(s[m].0, s.last().0));
                }
            }
        }
        assert(r.drop_last() =~= ri);
        assert forall|j: int| 0 <= j < r.len() implies (#[trigger] r[j].0 == p.0 || exists|m: int|
            0 <= m < s.len() && s[m].0 == r[j].0) by {
            if j == r.len() - 1 {
                assert(s[s.len() - 1].0 == r[j].0);
            } else {
                if ri[j].0 != p.0 {
                    let m = choose|m: int| 0 <= m < d.len() && d[m].0 == ri[j].0;
                    assert(s[m].0 == r[j].0);
                }
            }
        }
        assert forall|k: Seq<u8>| true implies #[trigger] lookup(r, k) == if k == p.0 {
            Some(p.1)
        } else {
            lookup(s, k)
        } by {
            if k == s.last().0 {
                assert(lookup(r, k) == Some(s.last().1));
                assert(lookup(s, k) == Some(s.last().1));
            } else {
                assert(lookup(r, k) == lookup(ri, k));
                assert(lookup(s, k) == lookup(d, k));
            }
        }
    }
}

/// Canonicalizing sorts the pairs and keeps exactly the query's entries.
pub proof fn lemma_canon_pairs_props(q: Seq<(Seq<u8>, Seq<u8>)>)
    ensures
        sorted_strict(canon_pairs(q)),
        forall|k: Seq<u8>| #[trigger] lookup(canon_pairs(q), k) == lookup(q, k),
    decreases q.len(),
{
    if q.len() == 0 {
    } else {
        lemma_canon_pairs_props(q.drop_last());
        lemma_insert_sorted_props(canon_pairs(q.drop_last()), q.last());
        assert forall|k: Seq<u8>| true implies #[trigger] lookup(canon_pairs(q), k) == lookup(q, k)
        by {
            if k != q.last().0 {
                assert(lookup(canon_pairs(q), k) == lookup(canon_pairs(q.drop_last()), k));
            }
        }
    }
}

/// A query that is already canonical is left unchanged.
pub proof fn lemma_canon_of_sorted(s: Seq<(Seq<u8>, Seq<u8>)>)
    requires
        sorted_strict(s),
    ensures
        canon_pairs(s) == s,
    decreases s.len(),
{
    if s.len() == 0 {
        assert(canon_pairs(s) =~= s);
    } else {
        let d = s.drop_last();
        assert(sorted_strict(d)) by {
            assert forall|i: int, j: int| 0 <= i < j < d.len() implies key_lt(d[i].0, d[j].0) by {
                assert(key_lt(s[i].0, s[j].0));
            }
        }
        lemma_canon_of_sorted(d);
        if d.len() == 0 {
            assert(canon_pairs(s) =~= seq![s.last()]);
            assert(canon_pairs(s) =~= s);
        } else {
            assert(key_lt(d.last().0, s.last().0)) by {
                assert(key_lt(s[s.len() - 2].0, s[s.len() - 1].0));
            }
            assert(canon_pairs(s) == d.push(s.last()));
            assert(d.push(s.last()) =~= s);
        }
    }
}

/// Canonicalization is idempotent: canonicalizing a canonical query changes
/// nothing.
pub proof fn lemma_canon_idempotent(q: Seq<(Seq<u8>, Seq<u8>)>)
    ensures
        canon_pairs(canon_pairs(q)) == canon_pairs(q),
{
    lemma_canon_pairs_props(q);
    lemma_canon_of_sorted(canon_pairs(q));
}

proof fn lemma_insert_sorted_position(
    s: Seq<(Seq<u8>, Seq<u8>)>,
    p: (Seq<u8>, Seq<u8>),
    i: int,
)
    requires
        sorted_strict(s),
        0 <= i <= s.len(),
        forall|j: int| 0 <= j < i ==> key_lt(s[j].0, p.0),
        i < s.len() ==> !key_lt(s[i].0, p.0),
    ensures
        insert_sorted(s, p) == if i < s.len() && s[i].0 == p.0 {
            s.update(i, p)
        } else {
            s.insert(i, p)
        },
    decreases s.len(),
{
    let r = insert_sorted(s, p);
    if s.len() == 0 {
        assert(r =~= s.insert(0, p));
    } else if i == s.len() {
        assert(key_lt(s.last().0, p.0));
        assert(r =~= s.insert(i, p));
    } else if i == s.len() - 1 {
        lemma_key_trichotomy(s.last().0, p.0);
        if s[i].0 == p.0 {
            assert(r == s.drop_last().push(p));
            assert(r =~= s.update(i, p));
        } else {
            // key_lt(p.0, s.last().0)
            let d = s.drop_last();
            assert(sorted_strict(d)) by {
                assert forall|a: int, b: int| 0 <= a < b < d.len() implies key_lt(
                    d[a].0,
                    d[b].0,
                ) by {
                    assert(key_lt(s[a].0, s[b].0));
                }
            }
            lemma_insert_sorted_position(d, p, i);
            assert(r == d.insert(i, p).push(s.last()));
            assert(d.insert(i, p).push(s.last()) =~= s.insert(i, p));
        }
    } else {
        // i < s.len() - 1, so p's place is strictly inside; the last key is above p.
        lemma_key_trichotomy(s[i].0, p.0);
        assert(key_lt(p.0, s.last().0)) by {
            assert(key_lt(s[i].0, s[s.len() - 1].0));
            if s[i].0 != p.0 {
                lemma_key_lt_trans(p.0, s[i].0, s.last().0);
            }
        }
        lemma_key_trichotomy(s.last().0, p.0);
        let d = s.drop_last();
        assert(sorted_strict(d)) by {
            assert forall|a: int, b: int| 0 <= a < b < d.len() implies key_lt(d[a].0, d[b].0) by {
                assert(key_lt(s[a].0, s[b].0));
            }
        }
        lemma_insert_sorted_position(d, p, i);
        assert(r == insert_sorted(d, p).push(s.last()));
        if s[i].0 == p.0 {
            assert(r =~= s.update(i, p));
        } else {
            assert(r =~= s.insert(i, p));
        }
    }
}

/// Find the canonical position for a key in a key-sorted vector of pairs.
fn find_pos(out: &Vec<QueryPair>, key: &Vec<u8>) -> (i: usize)
    requires
        sorted_strict(pview(out@)),
    ensures
        i <= out.len(),
        forall|j: int| 0 <= j < i ==> key_lt(#[trigger] pview(out@)[j].0, key@),
        i < out.len() ==> !key_lt(pview(out@)[i as int].0, key@),
{
    let ghost s = pview(out@);
    let mut i: usize = 0;
    loop
        invariant
            s == pview(out@),
            i <= out.len(),
            forall|j: int| 0 <= j < i ==> key_lt(#[trigger] s[j].0, key@),
        decreases out.len() - i,
    {
        if i == out.len() {
            return i;
        }
        match key_cmp(&out[i].key, key) {
            KeyOrder::Lt => {
                i = i + 1;
            },
            KeyOrder::Eq => {
                proof {
                    lemma_key_trichotomy(s[i as int].0, key@);
                }
                return i;
            },
            KeyOrder::Gt => {
                proof {
                    lemma_key_trichotomy(s[i as int].0, key@);
                }
                return i;
            },
        }
    }
}

/// Insert one pair into a canonically ordered vector of pairs.
fn insert_pair(out: &mut Vec<QueryPair>, p: QueryPair)
    requires
        sorted_strict(pview(old(out)@)),
    ensures
        pview(final(out)@) == insert_sorted(pview(old(out)@), p@),
        sorted_strict(pview(final(out)@)),
{
    proof {
        lemma_insert_sorted_props(pview(out@), p@);
    }
    let ghost s = pview(out@);
    let ghost pv = p@;
    let i = find_pos(out, &p.key);
    proof {
        lemma_insert_sorted_position(s, pv, i as int);
    }
    if i < out.len() {
        let same = match key_cmp(&out[i].key, &p.key) {
            KeyOrder::Eq => true,
            _ => false,
        };
        if same {
            out.set(i, p);
            proof {
                assert(pview(out@) =~= s.update(i as int, pv));
            }
            return ;
        }
    }
    out.insert(i, p);
    proof {
        assert(pview(out@) =~= s.insert(i as int, pv));
    }
}

/// Canonicalize a query: sort its pairs by key, later values winning among
/// equal keys.
pub fn canon_query(mut q: Vec<QueryPair>) -> (r: Vec<QueryPair>)
    ensures
        pview(r@) == canon_pairs(pview(q@)),
        sorted_strict(pview(r@)),
{
    let ghost full = pview(q@);
    let mut out: Vec<QueryPair> = Vec::new();
    let mut i: usize = 0;
    let n = q.len();
    proof {
        assert(full.len() == n as int);
        assert(pview(out@) =~= canon_pairs(full.take(0)));
    }
    while q.len() > 0
        invariant
            full.len() <= usize::MAX,
            i + q.len() == full.len(),
            pview(q@) =~= full.skip(i as int),
            pview(out@) == canon_pairs(full.take(i as int)),
            sorted_strict(pview(out@)),
        decreases q.len(),
    {
        let ghost oldq = q@;
        let p = q.remove(0);
        proof {
            lemma_canon_pairs_props(full.take(i as int));
            assert(full.take(i as int + 1).drop_last() =~= full.take(i as int));
            assert(full.take(i as int + 1).last() == full[i as int]);
            assert(pview(oldq)[0] == oldq[0]@);
            assert(full.skip(i as int)[0] == full[i as int]);
            assert(p@ == full[i as int]);
        }
        insert_pair(&mut out, p);
        proof {
            assert forall|j: int| 0 <= j < q@.len() implies pview(q@)[j] == full.skip(
                i as int + 1,
            )[j] by {
                assert(q@[j] == oldq.remove(0)[j]);
                assert(oldq.remove(0)[j] == oldq[j + 1]);
                assert(pview(oldq)[j + 1] == oldq[j + 1]@);
            }
            assert(pview(q@) =~= full.skip(i as int + 1));
        }
        i = i + 1;
    }
    proof {
        assert(full.take(i as int) =~= full);
    }
    out
}

} // verus!
