//! A multi-way selector: fans a growing set of item queues into one
//! sequence. Polling rotates over the queues so no queue is starved;
//! drained queues are dropped. Nothing is lost and nothing invented: the
//! multiset of items polled out plus those still queued equals the multiset
//! pushed in.

use vstd::multiset::Multiset;
use vstd::prelude::*;

verus! {

/// The items held by a sequence of queues, as a multiset.
pub open spec fn queues_content<T>(qs: Seq<Vec<T>>) -> Multiset<T>
    decreases qs.len(),
{
    if qs.len() == 0 {
        Multiset::empty()
    } else {
        queues_content(qs.drop_last()).add(qs.last()@.to_multiset())
    }
}

proof fn lemma_queues_content_push<T>(qs: Seq<Vec<T>>, q: Vec<T>)
    ensures
        queues_content(qs.push(q)) == queues_content(qs).add(q@.to_multiset()),
{
    assert(qs.push(q).drop_last() =~= qs);
    assert(qs.push(q).last() == q);
}

proof fn lemma_queues_content_remove<T>(qs: Seq<Vec<T>>, i: int)
    requires
        0 <= i < qs.len(),
    ensures
        queues_content(qs) == queues_content(qs.remove(i)).add(qs[i]@.to_multiset()),
    decreases qs.len(),
{
    if i == qs.len() - 1 {
        assert(qs.remove(i) =~= qs.drop_last());
    } else {
        let d = qs.drop_last();
        lemma_queues_content_remove(d, i);
        assert(qs.remove(i).drop_last() =~= d.remove(i));
        assert(qs.remove(i).last() == qs.last());
        assert(queues_content(qs.remove(i)) == queues_content(d.remove(i)).add(
            qs.last()@.to_multiset(),
        ));
        assert(queues_content(d.remove(i)).add(qs.last()@.to_multiset()).add(
            qs[i]@.to_multiset(),
        ) =~= queues_content(d.remove(i)).add(qs[i]@.to_multiset()).add(
            qs.last()@.to_multiset(),
        ));
    }
}

proof fn lemma_queues_content_insert<T>(qs: Seq<Vec<T>>, i: int, q: Vec<T>)
    requires
        0 <= i <= qs.len(),
    ensures
        queues_content(qs.insert(i, q)) == queues_content(qs).add(q@.to_multiset()),
{
    let r = qs.insert(i, q);
    assert(r.remove(i) =~= qs);
    assert(r[i] == q);
    lemma_queues_content_remove(r, i);
}

/// A round-robin fan-in over a dynamically growing set of item queues.
pub struct SelectAll<T> {
    pub queues: Vec<Vec<T>>,
    pub cursor: usize,
}

impl<T> SelectAll<T> {
    /// The items currently queued, as a multiset.
    pub open spec fn content(&self) -> Multiset<T> {
        queues_content(self.queues@)
    }

    /// The held queues as sequences, in order.
    pub open spec fn queue_views(&self) -> Seq<Seq<T>> {
        self.queues@.map_values(|q: Vec<T>| q@)
    }

    /// The queue the next poll serves: the cursor's, wrapping to the front.
    pub open spec fn rotation_index(&self) -> int {
        if self.cursor < self.queues@.len() {
            self.cursor as int
        } else {
            0
        }
    }

    /// One successful poll step: `x` was the head of the rotation's queue;
    /// that queue lost its head (and is dropped when drained) and the
    /// rotation moved past it.
    pub open spec fn polled(pre: SelectAll<T>, post: SelectAll<T>, x: T) -> bool {
        let idx = pre.rotation_index();
        &&& pre.queue_views().len() > 0
        &&& x == pre.queue_views()[idx][0]
        &&& if pre.queue_views()[idx].len() == 1 {
            post.queue_views() == pre.queue_views().remove(idx) && post.cursor == idx
        } else {
            post.queue_views() == pre.queue_views().update(
                idx,
                pre.queue_views()[idx].skip(1),
            ) && post.cursor == idx + 1
        }
    }

    /// Every held queue is nonempty and the rotation cursor is in range.
    pub open spec fn wf(&self) -> bool {
        &&& forall|i: int| 0 <= i < self.queues@.len() ==> #[trigger] self.queues@[i]@.len() > 0
        &&& self.cursor <= self.queues@.len()
    }

    /// An empty selector.
    pub fn new() -> (r: SelectAll<T>)
        ensures
            r.wf(),
            r.content() == Multiset::<T>::empty(),
            r.is_empty_spec(),
    {
        SelectAll { queues: Vec::new(), cursor: 0 }
    }

    /// Whether no queue is held.
    pub open spec fn is_empty_spec(&self) -> bool {
        self.queues@.len() == 0
    }

    /// Add one sub-sequence of items; an empty one is dropped at once.
    pub fn push(&mut self, items: Vec<T>)
        requires
            old(self).wf(),
        ensures
            final(self).wf(),
            final(self).content() == old(self).content().add(items@.to_multiset()),
            final(self).queue_views() == if items@.len() == 0 {
                old(self).queue_views()
            } else {
                old(self).queue_views().push(items@)
            },
    {
        if items.len() == 0 {
            proof {
                broadcast use vstd::seq_lib::group_to_multiset_ensures;

                assert(items@.to_multiset() =~= Multiset::<T>::empty()) by {
                    assert forall|x: T| items@.to_multiset().count(x) == 0 by {
                        assert(!items@.contains(x));
                    }
                }
                assert(self.content().add(items@.to_multiset()) =~= self.content());
            }
            return ;
        }
        let ghost qs = self.queues@;
        self.queues.push(items);
        proof {
            lemma_queues_content_push(qs, self.queues@.last());
        }
    }

    /// Pull the next item: the head of the cursor's queue, so items of one
    /// queue come out in their own order and the rotation moves past the
    /// served queue each time. Returns nothing only when no items are
    /// queued; a drained queue is dropped.
    pub fn poll(&mut self) -> (r: Option<T>)
        requires
            old(self).wf(),
        ensures
            final(self).wf(),
            match r {
                Some(x) => SelectAll::polled(*old(self), *final(self), x) && old(self).content().contains(x) && final(self).content() == old(self).content().remove(x),
                None => old(self).content() == Multiset::<T>::empty() && final(self).content()
                    == Multiset::<T>::empty() && final(self).is_empty_spec() && *final(self)
                    == *old(self),
            },
    {
        if self.queues.len() == 0 {
            proof {
                assert(self.queues@ =~= Seq::<Vec<T>>::empty());
            }
            return None;
        }
        let idx = if self.cursor < self.queues.len() {
            self.cursor
        } else {
            0
        };
        let ghost qs = self.queues@;
        let mut q = self.queues.remove(idx);
        proof {
            lemma_queues_content_remove(qs, idx as int);
        }
        let x = q.remove(0);
        proof {
            broadcast use vstd::seq_lib::group_to_multiset_ensures;

            assert(qs[idx as int]@.to_multiset().contains(x)) by {
                assert(qs[idx as int]@[0] == x);
                assert(qs[idx as int]@.contains(x));
            }
            assert(q@ == qs[idx as int]@.remove(0));
        }
        proof {
            broadcast use vstd::seq_lib::group_to_multiset_ensures;

            let m = qs[idx as int]@.to_multiset();
            assert(q@.to_multiset() =~= m.remove(x)) by {
                assert(qs[idx as int]@.remove(0).to_multiset() =~= m.remove(x));
            }
        }
        if q.len() > 0 {
            let ghost qs2 = self.queues@;
            let ghost qv = q@;
            self.queues.insert(idx, q);
            proof {
                lemma_queues_content_insert(qs2, idx as int, self.queues@[idx as int]);
                let m = qs[idx as int]@.to_multiset();
                assert(self.content() =~= queues_content(qs).remove(x)) by {
                    assert(queues_content(qs2).add(qv.to_multiset())
                        =~= queues_content(qs2).add(m).remove(x));
                }
            }
            self.cursor = idx + 1;
        } else {
            proof {
                broadcast use vstd::seq_lib::group_to_multiset_ensures;

                assert(q@.to_multiset() =~= Multiset::<T>::empty()) by {
                    assert forall|y: T| q@.to_multiset().count(y) == 0 by {
                        assert(!q@.contains(y));
                    }
                }
                let m = qs[idx as int]@.to_multiset();
                assert(self.content() =~= queues_content(qs).remove(x)) by {
                    assert(queues_content(self.queues@).add(m).remove(x) =~= queues_content(
                        self.queues@,
                    ).add(q@.to_multiset()));
                }
            }
            self.cursor = idx;
        }
        proof {
            let pre = *old(self);
            let ri = pre.rotation_index();
            assert(ri == idx as int);
            assert(pre.queue_views()[ri] == qs[idx as int]@);
            assert(x == pre.queue_views()[ri][0]);
            if qs[idx as int]@.len() == 1 {
                assert(self.queue_views() =~= pre.queue_views().remove(ri));
                assert(self.cursor == ri);
            } else {
                assert(self.queue_views() =~= pre.queue_views().update(
                    ri,
                    pre.queue_views()[ri].skip(1),
                ));
                assert(self.cursor == ri + 1);
            }
            assert(SelectAll::polled(pre, *self, x));
        }
        Some(x)
    }
}

} // verus!
