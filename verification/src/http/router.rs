//! The routing table: a handler for each `(path, method)` pair, found by
//! exact match.

use vstd::prelude::*;
use vstd::std_specs::cmp::PartialEqSpecImpl;
use crate::assoc::{distinct_keys, key_index, lemma_key_index_unique, lemma_put, lookup, put};
use crate::text::bytes_equal;

verus! {

/// What a `RouterKey` stands for: a path and a method.
pub type Route = (Seq<u8>, Seq<u8>);

/// The key of a route. Two keys are equal if both their paths and their
/// methods hold the same bytes; nothing is normalized.
#[derive(Debug, Eq, Hash)]
pub struct RouterKey {
    pub path: Vec<u8>,
    pub method: Vec<u8>,
}

impl View for RouterKey {
    type V = Route;

    open spec fn view(&self) -> Route {
        (self.path@, self.method@)
    }
}

impl Clone for RouterKey {
    fn clone(&self) -> (copy: RouterKey)
        ensures
            copy@ == self@,
    {
        RouterKey { path: self.path.clone(), method: self.method.clone() }
    }
}

impl PartialEq for RouterKey {
    fn eq(&self, other: &RouterKey) -> (same: bool) {
        bytes_equal(self.path.as_slice(), other.path.as_slice()) && bytes_equal(
            self.method.as_slice(),
            other.method.as_slice(),
        )
    }
}

impl PartialEqSpecImpl for RouterKey {
    open spec fn obeys_eq_spec() -> bool {
        true
    }

    open spec fn eq_spec(&self, other: &RouterKey) -> bool {
        self@ == other@
    }
}

/// A routing table with handlers of type `H`. No route occurs twice.
pub struct Router<H> {
    routes: Vec<(RouterKey, H)>,
}

impl<H> View for Router<H> {
    type V = Seq<(Route, H)>;

    closed spec fn view(&self) -> Seq<(Route, H)> {
        Seq::new(self.routes@.len(), |i: int| (self.routes@[i].0@, self.routes@[i].1))
    }
}

impl<H> Router<H> {
    /// What holds of every routing table at all times.
    #[verifier::type_invariant]
    pub open spec fn routes_are_distinct(self) -> bool {
        distinct_keys(self@)
    }

    /// A table without routes.
    pub fn new() -> (router: Router<H>)
        ensures
            router@ == Seq::<(Route, H)>::empty(),
    {
        let router = Router { routes: Vec::new() };
        assert(router@ =~= Seq::<(Route, H)>::empty());
        router
    }

    /// The number of routes.
    pub fn len(&self) -> (n: usize)
        ensures
            n == self@.len(),
    {
        self.routes.len()
    }

    /// Where the route `key` stands, or `len()` if there is no such route.
    fn position(&self, key: &RouterKey) -> (i: usize)
        ensures
            i == key_index(self@, key@),
    {
        let mut i: usize = 0;
        while i < self.routes.len() && !(self.routes[i].0 == *key)
            invariant
                i <= self@.len(),
                self@.len() == self.routes@.len(),
                forall|j: int| 0 <= j < i ==> self@[j].0 != key@,
            decreases self.routes.len() - i,
        {
            i += 1;
        }
        proof {
            lemma_key_index_unique(self@, key@, i as int);
        }
        i
    }

    /// The handler of the route `key`, if there is such a route. Only a route
    /// with exactly this path and this method is found.
    pub fn get(&self, key: &RouterKey) -> (handler: Option<&H>)
        ensures
            match handler {
                Some(found) => lookup(self@, key@) == Some(*found),
                None => lookup(self@, key@) is None,
            },
    {
        let i = self.position(key);
        if i < self.routes.len() {
            Some(&self.routes[i].1)
        } else {
            None
        }
    }

    /// Gives the route `key` the handler `handler`, in place of the one it
    /// had, if it had one.
    pub fn insert(&mut self, key: RouterKey, handler: H)
        ensures
            final(self)@ == put(old(self)@, key@, handler),
            distinct_keys(final(self)@),
    {
        proof {
            use_type_invariant(&*self);
            lemma_put(self@, key@, handler);
        }
        let i = self.position(&key);
        let ghost before = self@;
        let mut routes: Vec<(RouterKey, H)> = Vec::new();
        std::mem::swap(&mut routes, &mut self.routes);
        if i < routes.len() {
            routes[i] = (key, handler);
        } else {
            routes.push((key, handler));
        }
        proof {
            let after = Seq::new(routes@.len(), |k: int| (routes@[k].0@, routes@[k].1));
            assert(after =~= put(before, key@, handler));
        }
        self.routes = routes;
    }
}

} // verus!
