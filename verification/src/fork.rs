//! A stream fork: splits one sequence of routed items into per-route
//! prongs. The first item seen for a route creates that route's prong; all
//! items sharing a route arrive on its prong in their source order. An
//! error of the source reaches every prong; so does the end of the source.
//!
//! Fidelity: for every route, the items delivered by its prong followed by
//! those still queued equal exactly the route's items in source order, so
//! concatenating the prongs' outputs in source order reproduces the source.

use vstd::prelude::*;

verus! {

/// The tag a router assigns to an item.
#[derive(Clone, Copy, PartialEq, Eq, Structural, Hash)]
pub struct Route<R>(pub R);

/// The items of `h` routed to `r`, in source order.
pub open spec fn route_items<T>(h: Seq<(Route<u64>, T)>, r: Route<u64>) -> Seq<T> {
    h.filter(|p: (Route<u64>, T)| p.0 == r).map_values(|p: (Route<u64>, T)| p.1)
}

/// One output branch of a fork.
pub struct ProngState<T> {
    pub route: Route<u64>,
    pub queue: Vec<T>,
    pub delivered: Ghost<Seq<T>>,
}

/// What a prong's poll reports.
pub enum ProngPoll<T> {
    /// The next item routed here.
    Item(T),
    /// The source ended; the prong is drained.
    End,
    /// The source raised an error; the prong is drained.
    Failed,
    /// Nothing queued and the source is still open.
    Pending,
}

/// A fork over routed items.
pub struct Fork<T> {
    pub prongs: Vec<ProngState<T>>,
    pub history: Ghost<Seq<(Route<u64>, T)>>,
    pub ended: bool,
    pub failed: bool,
}

impl<T> Fork<T> {
    /// All items pushed so far, with their routes, in source order.
    pub open spec fn hist(&self) -> Seq<(Route<u64>, T)> {
        self.history@
    }

    /// The routes with a prong, in order of discovery.
    pub open spec fn routes(&self) -> Seq<Route<u64>> {
        self.prongs@.map_values(|p: ProngState<T>| p.route)
    }

    /// Whether a prong exists for `r`.
    pub open spec fn has_route(&self, r: Route<u64>) -> bool {
        self.routes().contains(r)
    }

    pub open spec fn prong_index(&self, r: Route<u64>) -> int {
        choose|i: int| 0 <= i < self.prongs@.len() && self.prongs@[i].route == r
    }

    /// The items already handed out on route `r`.
    pub open spec fn output(&self, r: Route<u64>) -> Seq<T> {
        if self.has_route(r) {
            self.prongs@[self.prong_index(r)].delivered@
        } else {
            Seq::empty()
        }
    }

    /// The items still queued on route `r`.
    pub open spec fn queued(&self, r: Route<u64>) -> Seq<T> {
        if self.has_route(r) {
            self.prongs@[self.prong_index(r)].queue@
        } else {
            Seq::empty()
        }
    }

    /// Each route has one prong; each prong has handed out, then still
    /// holds, exactly its route's items in source order; a route without a
    /// prong never occurred.
    pub open spec fn wf(&self) -> bool {
        &&& self.routes().no_duplicates()
        &&& forall|i: int|
            0 <= i < self.prongs@.len() ==> #[trigger] self.prongs@[i].delivered@
                + self.prongs@[i].queue@ == route_items(self.hist(), self.prongs@[i].route)
        &&& forall|r: Route<u64>| !self.has_route(r) ==> route_items(self.hist(), r) == Seq::<T>::empty()
    }

    /// Find the prong index of a route, or the prong count if none.
    fn find_route(&self, route: Route<u64>) -> (i: usize)
        ensures
            i <= self.prongs@.len(),
            i < self.prongs@.len() ==> self.prongs@[i as int].route == route,
            i == self.prongs@.len() ==> forall|j: int|
                0 <= j < self.prongs@.len() ==> #[trigger] self.prongs@[j].route != route,
    {
        let mut i: usize = 0;
        while i < self.prongs.len()
            invariant
                i <= self.prongs@.len(),
                forall|j: int| 0 <= j < i ==> #[trigger] self.prongs@[j].route != route,
            decreases self.prongs@.len() - i,
        {
            if self.prongs[i].route == route {
                return i;
            }
            i = i + 1;
        }
        i
    }

    proof fn lemma_index_of(&self, i: int)
        requires
            self.wf(),
            0 <= i < self.prongs@.len(),
        ensures
            self.prong_index(self.prongs@[i].route) == i,
            self.has_route(self.prongs@[i].route),
    {
        let r = self.prongs@[i].route;
        assert(self.routes()[i] == r);
        assert(self.has_route(r));
        let j = self.prong_index(r);
        assert(self.prongs@[j].route == r);
        if i != j {
            assert(self.routes()[i] == self.routes()[j]);
        }
    }

    /// Route one item of the source into the fork. Returns whether a new
    /// prong was created for its route.
    pub fn push(&mut self, route: Route<u64>, item: T) -> (new_prong: bool)
        requires
            old(self).wf(),
            !old(self).ended,
            !old(self).failed,
        ensures
            final(self).wf(),
            final(self).hist() == old(self).hist().push((route, item)),
            final(self).ended == old(self).ended,
            final(self).failed == old(self).failed,
            new_prong == !old(self).has_route(route),
            final(self).routes() == if new_prong {
                old(self).routes().push(route)
            } else {
                old(self).routes()
            },
            final(self).output(route) == old(self).output(route),
            final(self).queued(route) == old(self).queued(route).push(item),
            forall|r2: Route<u64>|
                r2 != route ==> #[trigger] final(self).output(r2) == old(self).output(r2)
                    && final(self).queued(r2) == old(self).queued(r2),
    {
        proof {
            broadcast use vstd::prelude::Seq::lemma_filter_push;
            broadcast use vstd::prelude::Seq::lemma_push_map_commute;
        }
        let ghost h0 = self.hist();
        let n = self.prongs.len();
        let i = self.find_route(route);
        proof {
            if i < n {
                self.lemma_index_of(i as int);
            } else {
                if self.has_route(route) {
                    let j = choose|j: int|
                        0 <= j < self.routes().len() && self.routes()[j] == route;
                    assert(self.prongs@[j].route != route);
                }
            }
        }
        self.history = Ghost(h0.push((route, item)));
        proof {
            assert forall|r2: Route<u64>| true implies route_items(self.hist(), r2) == if r2 == route {
                route_items(h0, r2).push(item)
            } else {
                route_items(h0, r2)
            } by {
                let pred = |p: (Route<u64>, T)| p.0 == r2;
                assert(h0.push((route, item)).filter(pred) == if pred((route, item)) {
                    h0.filter(pred).push((route, item))
                } else {
                    h0.filter(pred)
                });
                if r2 == route {
                    assert(h0.filter(pred).push((route, item)).map_values(|p: (Route<u64>, T)| p.1)
                        == h0.filter(pred).map_values(|p: (Route<u64>, T)| p.1).push(item));
                }
            }
        }
        if i < n {
            let ghost ps0 = self.prongs@;
            let mut p = self.prongs.remove(i);
            p.queue.push(item);
            self.prongs.insert(i, p);
            proof {
                assert(self.prongs@ =~= ps0.update(
                    i as int,
                    ProngState {
                        route: ps0[i as int].route,
                        queue: self.prongs@[i as int].queue,
                        delivered: ps0[i as int].delivered,
                    },
                ));
                assert(self.routes() =~= old(self).routes());
                assert forall|j: int| 0 <= j < self.prongs@.len() implies #[trigger] self.prongs@[
                    j
                ].delivered@ + self.prongs@[j].queue@ == route_items(
                    self.hist(),
                    self.prongs@[j].route,
                ) by {
                    if j == i as int {
                        assert(self.prongs@[j].queue@ == ps0[j].queue@.push(item));
                        assert(ps0[j].delivered@ + ps0[j].queue@.push(item) =~= (ps0[j].delivered@
                            + ps0[j].queue@).push(item));
                    } else {
                        assert(old(self).routes()[j] == ps0[j].route);
                        assert(old(self).routes()[i as int] == route);
                        assert(ps0[j].route != route);
                    }
                }
                assert(self.routes()[i as int] == route);
                assert(self.has_route(route));
                assert forall|r2: Route<u64>| !self.has_route(r2) implies route_items(self.hist(), r2)
                    == Seq::<T>::empty() by {
                    assert(r2 != route);
                    assert(!old(self).has_route(r2)) by {
                        if old(self).has_route(r2) {
                            let j = choose|j: int|
                                0 <= j < old(self).routes().len() && old(self).routes()[j] == r2;
                            assert(self.routes()[j] == r2);
                        }
                    }
                }
                assert(self.wf());
                self.lemma_index_of(i as int);
                assert(self.output(route) =~= old(self).output(route));
                assert(self.queued(route) =~= old(self).queued(route).push(item));
                assert forall|r2: Route<u64>| r2 != route implies #[trigger] self.output(r2) == old(self).output(r2) && self.queued(r2) == old(self).queued(r2) by {
                    if self.has_route(r2) {
                        let j = choose|j: int|
                            0 <= j < self.routes().len() && self.routes()[j] == r2;
                        assert(self.prongs@[j].route == r2);
                        self.lemma_index_of(j);
                        old(self).lemma_index_of(j);
                        assert(self.prong_index(r2) == j);
                    } else {
                        assert(!old(self).has_route(r2)) by {
                            if old(self).has_route(r2) {
                                let j = choose|j: int|
                                    0 <= j < old(self).routes().len() && old(self).routes()[j]
                                        == r2;
                                assert(self.routes()[j] == r2);
                            }
                        }
                    }
                }
            }
            false
        } else {
            let ghost ps0 = self.prongs@;
            let mut queue: Vec<T> = Vec::new();
            queue.push(item);
            let p = ProngState { route, queue, delivered: Ghost(Seq::empty()) };
            self.prongs.push(p);
            proof {
                assert(self.routes() =~= old(self).routes().push(route));
                crate::rfp::lemma_push_no_duplicates(old(self).routes(), route);
                assert forall|j: int| 0 <= j < self.prongs@.len() implies #[trigger] self.prongs@[
                    j
                ].delivered@ + self.prongs@[j].queue@ == route_items(
                    self.hist(),
                    self.prongs@[j].route,
                ) by {
                    if j < ps0.len() {
                        assert(self.prongs@[j] == ps0[j]);
                        assert(ps0[j].route != route);
                    } else {
                        assert(self.prongs@[j].route == route);
                        assert(route_items(h0, route) =~= Seq::<T>::empty());
                        assert(self.prongs@[j].delivered@ + self.prongs@[j].queue@ =~= route_items(
                            h0,
                            route,
                        ).push(item));
                    }
                }
                assert forall|r2: Route<u64>| !self.has_route(r2) implies route_items(self.hist(), r2)
                    == Seq::<T>::empty() by {
                    assert(r2 != route) by {
                        assert(self.routes().last() == route);
                        assert(self.routes().contains(route));
                    }
                    assert(!old(self).has_route(r2)) by {
                        if old(self).has_route(r2) {
                            let j = choose|j: int|
                                0 <= j < old(self).routes().len() && old(self).routes()[j] == r2;
                            assert(self.routes()[j] == r2);
                        }
                    }
                }
                assert(self.wf());
                self.lemma_index_of(ps0.len() as int);
                assert(self.output(route) =~= old(self).output(route));
                assert(self.queued(route) =~= old(self).queued(route).push(item));
                assert forall|r2: Route<u64>| r2 != route implies #[trigger] self.output(r2) == old(self).output(r2) && self.queued(r2) == old(self).queued(r2) by {
                    if self.has_route(r2) {
                        let j = choose|j: int|
                            0 <= j < self.routes().len() && self.routes()[j] == r2;
                        assert(j < ps0.len());
                        self.lemma_index_of(j);
                        old(self).lemma_index_of(j);
                    } else {
                        assert(!old(self).has_route(r2)) by {
                            if old(self).has_route(r2) {
                                let j = choose|j: int|
                                    0 <= j < old(self).routes().len() && old(self).routes()[j]
                                        == r2;
                                assert(self.routes()[j] == r2);
                            }
                        }
                    }
                }
            }
            true
        }
    }

    /// The source ended: every prong drains, then reports end.
    pub fn close(&mut self)
        ensures
            *final(self) == (Fork { ended: true, ..*old(self) }),
    {
        self.ended = true;
    }

    /// The source raised an error: it is broadcast, and every prong
    /// terminates once drained.
    pub fn fail(&mut self)
        ensures
            *final(self) == (Fork { failed: true, ..*old(self) }),
    {
        self.failed = true;
    }

    /// Poll the prong of `route`: its next queued item, or how it stands.
    pub fn poll_prong(&mut self, route: Route<u64>) -> (r: ProngPoll<T>)
        requires
            old(self).wf(),
        ensures
            final(self).wf(),
            final(self).hist() == old(self).hist(),
            final(self).routes() == old(self).routes(),
            final(self).ended == old(self).ended,
            final(self).failed == old(self).failed,
            forall|r2: Route<u64>|
                r2 != route ==> #[trigger] final(self).output(r2) == old(self).output(r2)
                    && final(self).queued(r2) == old(self).queued(r2),
            match r {
                ProngPoll::Item(x) => old(self).queued(route).len() > 0 && x == old(self).queued(
                    route,
                )[0] && final(self).output(route) == old(self).output(route).push(x) && final(self).queued(route) == old(self).queued(route).skip(1),
                ProngPoll::End => old(self).queued(route).len() == 0 && old(self).ended && !old(self).failed && final(self).output(route) == old(self).output(route) && final(self).queued(route) == old(self).queued(route),
                ProngPoll::Failed => old(self).queued(route).len() == 0 && old(self).failed
                    && final(self).output(route) == old(self).output(route) && final(self).queued(
                    route,
                ) == old(self).queued(route),
                ProngPoll::Pending => old(self).queued(route).len() == 0 && !old(self).ended
                    && !old(self).failed && final(self).output(route) == old(self).output(route)
                    && final(self).queued(route) == old(self).queued(route),
            },
    {
        let n = self.prongs.len();
        let i = self.find_route(route);
        proof {
            if i < n {
                self.lemma_index_of(i as int);
            } else {
                if self.has_route(route) {
                    let j = choose|j: int|
                        0 <= j < self.routes().len() && self.routes()[j] == route;
                    assert(self.prongs@[j].route != route);
                }
            }
        }
        let has = i < n;
        let empty = if has {
            self.prongs[i].queue.len() == 0
        } else {
            true
        };
        if !empty {
            let ghost ps0 = self.prongs@;
            let mut p = self.prongs.remove(i);
            let x = p.queue.remove(0);
            proof {
                p.delivered@ = p.delivered@.push(x);
            }
            self.prongs.insert(i, p);
            proof {
                assert(self.prongs@ =~= ps0.update(i as int, self.prongs@[i as int]));
                assert(self.routes() =~= old(self).routes());
                assert forall|j: int| 0 <= j < self.prongs@.len() implies #[trigger] self.prongs@[
                    j
                ].delivered@ + self.prongs@[j].queue@ == route_items(
                    self.hist(),
                    self.prongs@[j].route,
                ) by {
                    if j == i as int {
                        assert(ps0[j].queue@[0] == x);
                        assert(self.prongs@[j].delivered@ + self.prongs@[j].queue@ =~= ps0[
                            j
                        ].delivered@ + ps0[j].queue@);
                    }
                }
                assert forall|r2: Route<u64>| !self.has_route(r2) implies route_items(self.hist(), r2)
                    == Seq::<T>::empty() by {
                    assert(!old(self).has_route(r2)) by {
                        if old(self).has_route(r2) {
                            let j = choose|j: int|
                                0 <= j < old(self).routes().len() && old(self).routes()[j] == r2;
                            assert(self.routes()[j] == r2);
                        }
                    }
                }
                assert(self.wf());
                self.lemma_index_of(i as int);
                assert(self.output(route) =~= old(self).output(route).push(x));
                assert(self.queued(route) =~= old(self).queued(route).skip(1));
                assert forall|r2: Route<u64>| r2 != route implies #[trigger] self.output(r2) == old(self).output(r2) && self.queued(r2) == old(self).queued(r2) by {
                    if self.has_route(r2) {
                        let j = choose|j: int|
                            0 <= j < self.routes().len() && self.routes()[j] == r2;
                        self.lemma_index_of(j);
                        old(self).lemma_index_of(j);
                    } else {
                        assert(!old(self).has_route(r2)) by {
                            if old(self).has_route(r2) {
                                let j = choose|j: int|
                                    0 <= j < old(self).routes().len() && old(self).routes()[j]
                                        == r2;
                                assert(self.routes()[j] == r2);
                            }
                        }
                    }
                }
            }
            return ProngPoll::Item(x);
        }
        if self.failed {
            ProngPoll::Failed
        } else if self.ended {
            ProngPoll::End
        } else {
            ProngPoll::Pending
        }
    }
}

/// Build an empty fork; prongs appear as routes are first seen.
pub fn fork<T>() -> (r: Fork<T>)
    ensures
        r.wf(),
        r.hist() == Seq::<(Route<u64>, T)>::empty(),
        r.routes() == Seq::<Route<u64>>::empty(),
        !r.ended,
        !r.failed,
{
    let r = Fork {
        prongs: Vec::new(),
        history: Ghost(Seq::empty()),
        ended: false,
        failed: false,
    };
    proof {
        assert(r.routes() =~= Seq::<Route<u64>>::empty());
        assert forall|r2: Route<u64>| !r.has_route(r2) implies route_items(r.hist(), r2) == Seq::<
            T,
        >::empty() by {
            assert(r.hist().filter(|p: (Route<u64>, T)| p.0 == r2) =~= Seq::<(Route<u64>, T)>::empty());
            assert(route_items(r.hist(), r2) =~= Seq::<T>::empty());
        }
    }
    r
}

/// Fork fidelity: for any route, the items its prong has delivered followed
/// by those still queued are exactly the source's items for that route, in
/// source order. Concatenating prong outputs in source order therefore
/// reproduces the source.
pub proof fn lemma_fork_fidelity<T>(f: &Fork<T>, r: Route<u64>)
    requires
        f.wf(),
    ensures
        f.output(r) + f.queued(r) == route_items(f.hist(), r),
{
    if f.has_route(r) {
        let j = f.prong_index(r);
        assert(f.prongs@[j].delivered@ + f.prongs@[j].queue@ == route_items(f.hist(), r));
    } else {
        assert(f.output(r) + f.queued(r) =~= Seq::<T>::empty());
    }
}

} // verus!
