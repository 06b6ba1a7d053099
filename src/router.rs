//! Per-method dispatch over path tries, with a fallback endpoint.

use crate::http_codec::{has_header, has_header_value, Request, RequestView};
use crate::trie_laws::{lemma_trie_answers, matches_all};
use crate::path_trie::{
    flat, inserted, lookup, parse_key, parse_path, str_eq, until, upto, wf_node, Captures, Node,
    Params, PathErrorView,
};
use vstd::prelude::*;
use vstd::string::StringSliceAdditionalSpecFns;

verus! {

/// One trie per HTTP method of interest, one for WebSocket upgrades, and
/// the endpoint for everything that matches none of them.
pub struct Router<E> {
    pub get_routes: Node<E>,
    pub post_routes: Node<E>,
    pub put_routes: Node<E>,
    pub delete_routes: Node<E>,
    pub ws: Node<E>,
    pub not_found: E,
}

/// The path without its query.
pub open spec fn path_part(p: Seq<char>) -> Seq<char> {
    p.subrange(0, upto(p, '?', 0))
}

/// Whether the request asks for a WebSocket upgrade.
pub open spec fn wants_upgrade(req: RequestView) -> bool {
    has_header_value(req.headers, "upgrade"@, "websocket".spec_bytes())
}

/// The trie a request is matched against: the WebSocket one for an upgrade,
/// else the one of its method, if it has one.
pub open spec fn trie_for<E>(r: Router<E>, req: RequestView) -> Option<Node<E>> {
    if wants_upgrade(req) {
        Some(r.ws)
    } else if req.method == "GET"@ {
        Some(r.get_routes)
    } else if req.method == "POST"@ {
        Some(r.post_routes)
    } else if req.method == "PUT"@ {
        Some(r.put_routes)
    } else if req.method == "DELETE"@ {
        Some(r.delete_routes)
    } else {
        None
    }
}

/// The endpoint and captures a request is dispatched to.
pub open spec fn route_of<E>(r: Router<E>, req: RequestView) -> (E, Captures) {
    match trie_for(r, req) {
        None => (r.not_found, Seq::empty()),
        Some(t) => match lookup(t, path_part(req.path)) {
            Some((v, caps)) => (v, caps),
            None => (r.not_found, Seq::empty()),
        },
    }
}


/// A request whose path matches none of the routes registered in the trie
/// it is matched against (its method's, or the WebSocket one for an
/// upgrade) goes to the fallback endpoint with no captures, never to an
/// endpoint of another route. `tries` are that trie's states from empty,
/// each the one before with the parsed path `paths[j]` registered.
pub proof fn lemma_route_fallback<E>(
    r: Router<E>,
    req: RequestView,
    tries: Seq<Node<E>>,
    paths: Seq<Seq<char>>,
    keys: Seq<Seq<Seq<char>>>,
    values: Seq<E>,
)
    requires
        trie_for(r, req) is Some ==> tries.last() == trie_for(r, req)->Some_0,
        tries.len() == keys.len() + 1,
        paths.len() == keys.len(),
        values.len() == keys.len(),
        tries[0].path@.len() == 0,
        tries[0].data is None,
        tries[0].children@.len() == 0,
        forall|j: int|
            0 <= j < keys.len() ==> parse_path(#[trigger] paths[j]) == Ok::<
                Seq<Seq<char>>,
                PathErrorView,
            >(keys[j]),
        forall|j: int|
            0 <= j < keys.len() ==> inserted(tries[j], #[trigger] tries[j + 1], flat(keys[j]), values[j]),
        forall|j: int| 0 <= j < keys.len() ==> !matches_all(#[trigger] keys[j], path_part(req.path)),
    ensures
        route_of(r, req) == (r.not_found, Seq::<(Seq<char>, Seq<char>)>::empty()),
{
    if trie_for(r, req) is Some {
        lemma_trie_answers(tries, paths, keys, values, path_part(req.path));
    }
}

impl<E> Router<E> {
    pub open spec fn wf(&self) -> bool {
        &&& wf_node(self.get_routes)
        &&& wf_node(self.post_routes)
        &&& wf_node(self.put_routes)
        &&& wf_node(self.delete_routes)
        &&& wf_node(self.ws)
    }

    /// A router with no routes that sends everything to `not_found`.
    pub fn new(not_found: E) -> (r: Self)
        ensures
            r.wf(),
            r.not_found == not_found,
            r.get_routes.children@.len() == 0,
            r.post_routes.children@.len() == 0,
            r.put_routes.children@.len() == 0,
            r.delete_routes.children@.len() == 0,
            r.ws.children@.len() == 0,
    {
        Router {
            get_routes: Node::new(Vec::new()),
            post_routes: Node::new(Vec::new()),
            put_routes: Node::new(Vec::new()),
            delete_routes: Node::new(Vec::new()),
            ws: Node::new(Vec::new()),
            not_found,
        }
    }

    fn add(trie: &mut Node<E>, path: &str, route: E)
        requires
            wf_node(*old(trie)),
            parse_path(path@) is Ok,
        ensures
            inserted(*old(trie), *final(trie), flat(parse_path(path@)->Ok_0), route),
    {
        match parse_key(path) {
            Ok(keys) => trie.insert(keys.as_slice(), route),
            Err(_) => {},
        }
    }

    /// Registers `route` for GET requests on `path`.
    pub fn get(self, path: &str, route: E) -> (r: Self)
        requires
            self.wf(),
            parse_path(path@) is Ok,
        ensures
            r.wf(),
            inserted(self.get_routes, r.get_routes, flat(parse_path(path@)->Ok_0), route),
            r.post_routes == self.post_routes && r.put_routes == self.put_routes,
            r.delete_routes == self.delete_routes && r.ws == self.ws,
            r.not_found == self.not_found,
    {
        let mut r = self;
        Self::add(&mut r.get_routes, path, route);
        r
    }

    /// Registers `route` for POST requests on `path`.
    pub fn post(self, path: &str, route: E) -> (r: Self)
        requires
            self.wf(),
            parse_path(path@) is Ok,
        ensures
            r.wf(),
            inserted(self.post_routes, r.post_routes, flat(parse_path(path@)->Ok_0), route),
            r.get_routes == self.get_routes && r.put_routes == self.put_routes,
            r.delete_routes == self.delete_routes && r.ws == self.ws,
            r.not_found == self.not_found,
    {
        let mut r = self;
        Self::add(&mut r.post_routes, path, route);
        r
    }

    /// Registers `route` for PUT requests on `path`.
    pub fn put(self, path: &str, route: E) -> (r: Self)
        requires
            self.wf(),
            parse_path(path@) is Ok,
        ensures
            r.wf(),
            inserted(self.put_routes, r.put_routes, flat(parse_path(path@)->Ok_0), route),
            r.get_routes == self.get_routes && r.post_routes == self.post_routes,
            r.delete_routes == self.delete_routes && r.ws == self.ws,
            r.not_found == self.not_found,
    {
        let mut r = self;
        Self::add(&mut r.put_routes, path, route);
        r
    }

    /// Registers `route` for DELETE requests on `path`.
    pub fn delete(self, path: &str, route: E) -> (r: Self)
        requires
            self.wf(),
            parse_path(path@) is Ok,
        ensures
            r.wf(),
            inserted(self.delete_routes, r.delete_routes, flat(parse_path(path@)->Ok_0), route),
            r.get_routes == self.get_routes && r.post_routes == self.post_routes,
            r.put_routes == self.put_routes && r.ws == self.ws,
            r.not_found == self.not_found,
    {
        let mut r = self;
        Self::add(&mut r.delete_routes, path, route);
        r
    }

    /// Registers `route` for WebSocket upgrades on `path`.
    pub fn ws(self, path: &str, route: E) -> (r: Self)
        requires
            self.wf(),
            parse_path(path@) is Ok,
        ensures
            r.wf(),
            inserted(self.ws, r.ws, flat(parse_path(path@)->Ok_0), route),
            r.get_routes == self.get_routes && r.post_routes == self.post_routes,
            r.put_routes == self.put_routes && r.delete_routes == self.delete_routes,
            r.not_found == self.not_found,
    {
        let mut r = self;
        Self::add(&mut r.ws, path, route);
        r
    }

    /// Replaces the fallback endpoint.
    pub fn not_found(self, route: E) -> (r: Self)
        ensures
            r.not_found == route,
            r.get_routes == self.get_routes && r.post_routes == self.post_routes,
            r.put_routes == self.put_routes && r.delete_routes == self.delete_routes,
            r.ws == self.ws,
    {
        let mut r = self;
        r.not_found = route;
        r
    }

    /// The endpoint a request goes to and the parameters its path captured.
    pub fn route<'a>(&'a self, req: &Request) -> (r: (&'a E, Params))
        ensures
            *r.0 == route_of(*self, req@).0,
            r.1@ == route_of(*self, req@).1,
    {
        proof {
            reveal_strlit("?");
        }
        let path = until(req.path.as_str(), "?");
        let trie = if has_header(req.headers.as_slice(), "upgrade", "websocket") {
            Some(&self.ws)
        } else {
            let m = req.method.as_str();
            if str_eq(m, "GET") {
                Some(&self.get_routes)
            } else if str_eq(m, "POST") {
                Some(&self.post_routes)
            } else if str_eq(m, "PUT") {
                Some(&self.put_routes)
            } else if str_eq(m, "DELETE") {
                Some(&self.delete_routes)
            } else {
                None
            }
        };
        match trie {
            None => (&self.not_found, Params::new()),
            Some(t) => match t.get(path) {
                Some((v, params)) => (v, params),
                None => (&self.not_found, Params::new()),
            },
        }
    }
}

} // verus!
