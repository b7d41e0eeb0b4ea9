//! One route table: a mapping from prefix to route.
use vstd::prelude::*;
use crate::assoc::{has_key, keys_unique, pairs_map, lemma_pairs_map_at, lemma_pairs_map_push,
    lemma_pairs_map_update, lemma_pairs_map_remove};
use crate::types::{Prefix, Route, RouteView};

verus! {

/// The entries of a table as (prefix, route) values.
pub open spec fn entry_views(e: Seq<(Prefix, Route)>) -> Seq<(Prefix, RouteView)> {
    e.map_values(|x: (Prefix, Route)| (x.0, x.1@))
}

/// The routes of one table, at most one per prefix.
pub struct RouteTable {
    entries: Vec<(Prefix, Route)>,
}

impl View for RouteTable {
    type V = Map<Prefix, RouteView>;

    open spec fn view(&self) -> Map<Prefix, RouteView> {
        pairs_map(self.entries())
    }
}

impl RouteTable {
    /// The entries in the order in which a scan visits them.
    pub closed spec fn entries(&self) -> Seq<(Prefix, RouteView)> {
        entry_views(self.entries@)
    }

    pub open spec fn wf(&self) -> bool {
        keys_unique(self.entries())
    }

    pub fn new() -> (r: RouteTable)
        ensures
            r.wf(),
            r.entries() == Seq::<(Prefix, RouteView)>::empty(),
            r@ == Map::<Prefix, RouteView>::empty(),
    {
        let r = RouteTable { entries: Vec::new() };
        assert(r.entries() =~= Seq::<(Prefix, RouteView)>::empty());
        assert(r@ =~= Map::<Prefix, RouteView>::empty());
        r
    }

    pub fn len(&self) -> (n: usize)
        ensures
            n == self.entries().len(),
    {
        self.entries.len()
    }

    /// The prefix and route at a scan position.
    pub fn entry_at(&self, i: usize) -> (r: (&Prefix, &Route))
        requires
            i < self.entries().len(),
        ensures
            *r.0 == self.entries()[i as int].0,
            r.1@ == self.entries()[i as int].1,
    {
        let e = &self.entries[i];
        (&e.0, &e.1)
    }

    /// The scan position of a prefix, if the table holds it.
    pub fn position(&self, net: &Prefix) -> (r: Option<usize>)
        requires
            self.wf(),
        ensures
            r is None <==> !self@.contains_key(*net),
            r matches Some(i) ==> i < self.entries().len() && self.entries()[i as int].0 == *net,
    {
        let mut i: usize = 0;
        while i < self.entries.len()
            invariant
                i <= self.entries@.len(),
                forall|j: int| 0 <= j < i ==> self.entries()[j].0 != *net,
            decreases self.entries@.len() - i,
        {
            if self.entries[i].0 == *net {
                return Some(i);
            }
            i = i + 1;
        }
        proof {
            if has_key(self.entries(), *net) {
                let j = choose|j: int| 0 <= j < self.entries().len() && self.entries()[j].0 == *net;
                assert(false);
            }
        }
        None
    }

    /// The route for a prefix.
    pub fn get(&self, net: &Prefix) -> (r: Option<&Route>)
        requires
            self.wf(),
        ensures
            r is None <==> !self@.contains_key(*net),
            r matches Some(route) ==> route@ == self@[*net],
    {
        match self.position(net) {
            None => None,
            Some(i) => {
                proof {
                    lemma_pairs_map_at(self.entries(), i as int);
                }
                Some(&self.entries[i].1)
            },
        }
    }

    /// Inserts or replaces the route for a prefix.
    pub fn insert(&mut self, net: Prefix, route: Route)
        requires
            old(self).wf(),
        ensures
            final(self).wf(),
            final(self)@ == old(self)@.insert(net, route@),
    {
        let ghost rv = route@;
        match self.position(&net) {
            Some(i) => {
                proof {
                    lemma_pairs_map_update(self.entries(), i as int, rv);
                }
                self.entries[i] = (net, route);
                assert(self.entries() =~= old(self).entries().update(i as int, (net, rv)));
            },
            None => {
                proof {
                    lemma_pairs_map_push(self.entries(), net, rv);
                }
                self.entries.push((net, route));
                assert(self.entries() =~= old(self).entries().push((net, rv)));
            },
        }
    }

    /// Removes the route for a prefix, if there is one.
    pub fn remove(&mut self, net: &Prefix)
        requires
            old(self).wf(),
        ensures
            final(self).wf(),
            final(self)@ == old(self)@.remove(*net),
    {
        match self.position(net) {
            Some(i) => {
                proof {
                    lemma_pairs_map_remove(self.entries(), i as int);
                }
                self.entries.remove(i);
                assert(self.entries() =~= old(self).entries().remove(i as int));
            },
            None => {
                assert(self@ =~= old(self)@.remove(*net));
            },
        }
    }
}

} // verus!
