//! The router: one routing trie per HTTP method, a registration API, and
//! dispatch with a configurable not-found fallback.

use vstd::prelude::*;

use crate::Error;
use crate::method::{Method, MethodV};
use crate::pattern::brace_free;
use crate::trie::{
    CaptureMap, NodeView, TrieNode, empty_node_view, get_spec, node_view, pairs_to_map,
    trie_insert_spec,
};

verus! {

/// A router: routes are registered per method and resolved by `dispatch`.
///
/// The four `redirect_*`/`handle_*` flags mirror common router knobs; they
/// are recorded and may be toggled, but `dispatch` applies none of them:
/// it resolves the method's trie and falls back to the not-found handler.
pub struct Router<T> {
    /// One routing trie per method that has routes.
    pub trees: Vec<(Method, TrieNode<T>)>,
    /// Recorded toggle: redirect when only the variant of the path with or
    /// without a trailing slash is routable. Not applied by `dispatch`.
    pub redirect_trailing_slash: bool,
    /// Recorded toggle: redirect after cleaning superfluous path elements.
    /// Not applied by `dispatch`.
    pub redirect_fixed_path: bool,
    /// Recorded toggle: answer with "method not allowed" when another
    /// method has the route. Not applied by `dispatch`.
    pub handle_method_not_allowed: bool,
    /// Recorded toggle: answer OPTIONS requests automatically. Not applied
    /// by `dispatch`.
    pub handle_options: bool,
    /// The handler consulted when no route matches, if one was installed.
    pub not_found: Option<T>,
}

/// The position of the tree registered for method `m`, scanning from `i`.
pub open spec fn tree_index_from<T>(ts: Seq<(Method, TrieNode<T>)>, m: MethodV, i: int) -> Option<
    int,
>
    decreases ts.len() - i,
    when 0 <= i <= ts.len()
{
    if i == ts.len() {
        None
    } else if ts[i].0@ == m {
        Some(i)
    } else {
        tree_index_from(ts, m, i + 1)
    }
}

impl<T: Copy> Router<T> {
    /// The trie holding method `m`'s routes, if any route was registered
    /// for `m`.
    pub open spec fn tree_view(&self, m: MethodV) -> Option<NodeView<T>> {
        match tree_index_from(self.trees@, m, 0) {
            Some(i) => Some(node_view(self.trees@[i].1)),
            None => None,
        }
    }

    /// The handler consulted when no route matches.
    pub open spec fn fallback(&self) -> Option<T> {
        self.not_found
    }

    /// Every registered trie has an ordinary literal root.
    pub open spec fn wf(&self) -> bool {
        forall|k: int|
            0 <= k < self.trees@.len() ==> (#[trigger] node_view(self.trees@[k].1)).param is None
    }

    /// What `handle` leaves behind: on success the method's trie grew by
    /// the route; on any error everything is as it was. A method without a
    /// tree gets a fresh one to insert into.
    pub open spec fn register_post(
        pre: Router<T>,
        post: Router<T>,
        m: MethodV,
        pattern: Seq<char>,
        handler: T,
        r: Result<(), Error>,
    ) -> bool {
        let t0 = match pre.tree_view(m) {
            Some(t) => t,
            None => empty_node_view::<T>(),
        };
        match trie_insert_spec(t0, pattern, handler) {
            Ok(nv) => {
                &&& r == Ok::<(), Error>(())
                &&& post.tree_view(m) == Some(nv)
                &&& forall|m2: MethodV| m2 != m ==> post.tree_view(m2) == pre.tree_view(m2)
                &&& post.fallback() == pre.fallback()
            },
            Err(e) => {
                &&& r == Err::<(), Error>(e)
                &&& forall|m2: MethodV| post.tree_view(m2) == pre.tree_view(m2)
                &&& post.fallback() == pre.fallback()
            },
        }
    }

    /// A fresh router: no routes, no fallback, all toggles on.
    pub fn new() -> (r: Self)
        ensures
            r.wf(),
            forall|m: MethodV| r.tree_view(m) is None,
            r.fallback() is None,
            r.redirect_trailing_slash && r.redirect_fixed_path && r.handle_method_not_allowed
                && r.handle_options,
    {
        Router {
            trees: Vec::new(),
            redirect_trailing_slash: true,
            redirect_fixed_path: true,
            handle_method_not_allowed: true,
            handle_options: true,
            not_found: None,
        }
    }

    /// Installs the handler used when no route matches.
    pub fn set_not_found_handler(&mut self, handler: T)
        requires
            old(self).wf(),
        ensures
            final (self).wf(),
            final (self).fallback() == Some(handler),
            forall|m: MethodV| final (self).tree_view(m) == old(self).tree_view(m),
    {
        self.not_found = Some(handler);
    }

    /// Registers a new request handler for the given path and method.
    ///
    /// The pattern is validated before anything is touched, so a rejected
    /// pattern, like a duplicate route, changes nothing.
    #[verifier::rlimit(100)]
    pub fn handle(&mut self, method: Method, path: &str, handler: T) -> (r: Result<(), Error>)
        requires
            old(self).wf(),
        ensures
            final (self).wf(),
            Self::register_post(*old(self), *final (self), method@, path@, handler, r),
    {
        let ghost pre = *old(self);
        let ghost m = method@;
        match crate::pattern::parse_pattern(path) {
            Err(e) => {
                return Err(e);
            },
            Ok(_segs) => {},
        }
        proof {
            crate::pattern::lemma_segs_scan_wf(path@, 0);
        }
        match Self::find_tree(&self.trees, &method) {
            Some(i) => {
                // the method has a tree: insert into it
                let mut entry = self.trees.remove(i);
                let ghost t0 = node_view(entry.1);
                proof {
                    assert(t0.param is None);
                    assert(pre.tree_view(m) == Some(t0));
                    crate::trie::lemma_insert_keeps_literal_root(t0, path@, handler);
                }
                let res = entry.1.insert(path, handler);
                let ghost entry_now = entry;
                self.trees.insert(i, entry);
                proof {
                    assert(self.trees@ =~= pre.trees@.update(i as int, entry_now));
                    lemma_tree_index_update(pre.trees@, i as int, entry_now, m);
                    assert forall|m2: MethodV| #[trigger] self.tree_view(m2) == pre.tree_view(m2)
                        || m2 == m by {
                        if m2 != m {
                            lemma_tree_index_props(pre.trees@, m2, 0);
                            match tree_index_from(pre.trees@, m2, 0) {
                                Some(k) => {
                                    assert(pre.trees@[k].0@ == m2);
                                    assert(k != i);
                                    assert(self.trees@[k] == pre.trees@[k]);
                                },
                                None => {},
                            }
                        }
                    }
                    match trie_insert_spec(t0, path@, handler) {
                        Ok(nv) => {
                            assert(node_view(entry_now.1) == nv);
                            assert(self.tree_view(m) == Some(nv));
                            assert forall|k: int| 0 <= k < self.trees@.len() implies (
                            #[trigger] node_view(self.trees@[k].1)).param is None by {
                                if k != i {
                                    assert(self.trees@[k] == pre.trees@[k]);
                                }
                            }
                        },
                        Err(e) => {
                            assert(node_view(entry_now.1) == t0);
                            assert(self.tree_view(m) == Some(t0));
                            assert forall|k: int| 0 <= k < self.trees@.len() implies (
                            #[trigger] node_view(self.trees@[k].1)).param is None by {
                                if k != i {
                                    assert(self.trees@[k] == pre.trees@[k]);
                                }
                            }
                        },
                    }
                }
                res
            },
            None => {
                // first route for this method: a fresh tree takes it
                let mut tree = TrieNode::<T>::new();
                proof {
                    crate::trie::lemma_insert_keeps_literal_root(
                        empty_node_view::<T>(),
                        path@,
                        handler,
                    );
                }
                let res = tree.insert(path, handler);
                proof {
                    assert(res is Ok);
                }
                let entry = (method, tree);
                let ghost entry_g = entry;
                self.trees.push(entry);
                proof {
                    lemma_tree_index_push(pre.trees@, entry_g, m);
                    assert(pre.tree_view(m) is None);
                    assert(tree_index_from(self.trees@, m, 0) == Some(pre.trees@.len() as int));
                    assert(self.trees@[pre.trees@.len() as int] == entry_g);
                    assert forall|m2: MethodV| m2 != m implies #[trigger] self.tree_view(m2)
                        == pre.tree_view(m2) by {
                        lemma_tree_index_props(pre.trees@, m2, 0);
                        match tree_index_from(pre.trees@, m2, 0) {
                            Some(k) => {
                                assert(pre.trees@[k].0@ == m2);
                                assert(self.trees@[k] == pre.trees@[k]);
                            },
                            None => {
                                assert(entry_g.0@ == m && m2 != m);
                            },
                        }
                    }
                    assert forall|k: int| 0 <= k < self.trees@.len() implies (
                    #[trigger] node_view(self.trees@[k].1)).param is None by {
                        if k < pre.trees@.len() {
                            assert(self.trees@[k] == pre.trees@[k]);
                        }
                    }
                }
                res
            },
        }
    }

    /// `get` is a shortcut for registering a route under `Method::Get`.
    pub fn get(&mut self, path: &str, handle: T) -> (r: Result<(), Error>)
        requires
            old(self).wf(),
        ensures
            final (self).wf(),
            Self::register_post(*old(self), *final (self), MethodV::Get, path@, handle, r),
    {
        self.handle(Method::Get, path, handle)
    }

    /// `head` is a shortcut for registering a route under `Method::Head`.
    pub fn head(&mut self, path: &str, handle: T) -> (r: Result<(), Error>)
        requires
            old(self).wf(),
        ensures
            final (self).wf(),
            Self::register_post(*old(self), *final (self), MethodV::Head, path@, handle, r),
    {
        self.handle(Method::Head, path, handle)
    }

    /// `options` is a shortcut for registering a route under
    /// `Method::Options`.
    pub fn options(&mut self, path: &str, handle: T) -> (r: Result<(), Error>)
        requires
            old(self).wf(),
        ensures
            final (self).wf(),
            Self::register_post(*old(self), *final (self), MethodV::Options, path@, handle, r),
    {
        self.handle(Method::Options, path, handle)
    }

    /// `post` is a shortcut for registering a route under `Method::Post`.
    pub fn post(&mut self, path: &str, handle: T) -> (r: Result<(), Error>)
        requires
            old(self).wf(),
        ensures
            final (self).wf(),
            Self::register_post(*old(self), *final (self), MethodV::Post, path@, handle, r),
    {
        self.handle(Method::Post, path, handle)
    }

    /// `put` is a shortcut for registering a route under `Method::Put`.
    pub fn put(&mut self, path: &str, handle: T) -> (r: Result<(), Error>)
        requires
            old(self).wf(),
        ensures
            final (self).wf(),
            Self::register_post(*old(self), *final (self), MethodV::Put, path@, handle, r),
    {
        self.handle(Method::Put, path, handle)
    }

    /// `patch` is a shortcut for registering a route under `Method::Patch`.
    pub fn patch(&mut self, path: &str, handle: T) -> (r: Result<(), Error>)
        requires
            old(self).wf(),
        ensures
            final (self).wf(),
            Self::register_post(*old(self), *final (self), MethodV::Patch, path@, handle, r),
    {
        self.handle(Method::Patch, path, handle)
    }

    /// `delete` is a shortcut for registering a route under
    /// `Method::Delete`.
    pub fn delete(&mut self, path: &str, handle: T) -> (r: Result<(), Error>)
        requires
            old(self).wf(),
        ensures
            final (self).wf(),
            Self::register_post(*old(self), *final (self), MethodV::Delete, path@, handle, r),
    {
        self.handle(Method::Delete, path, handle)
    }

    fn find_tree(trees: &Vec<(Method, TrieNode<T>)>, method: &Method) -> (r: Option<usize>)
        ensures
            match r {
                Some(i) => i < trees@.len() && trees@[i as int].0@ == method@
                    && tree_index_from(trees@, method@, 0) == Some(i as int),
                None => tree_index_from(trees@, method@, 0) is None,
            },
    {
        let n = trees.len();
        let mut i: usize = 0;
        while i < n
            invariant
                n == trees@.len(),
                0 <= i <= n,
                tree_index_from(trees@, method@, 0) == tree_index_from(trees@, method@, i as int),
            decreases n - i,
        {
            if trees[i].0.eq(method) {
                return Some(i);
            }
            i = i + 1;
        }
        None
    }

    /// Resolves a request: the handler of the route matching `path` under
    /// `method` with its captures, or the fallback handler (and no
    /// captures) when nothing matches.
    pub fn dispatch(&self, method: &Method, path: &str) -> (r: (Option<T>, CaptureMap))
        ensures
            match self.tree_view(method@) {
                Some(tv) => match get_spec(tv, path@) {
                    Some(hit) => r.0 == Some(hit.0) && r.1@ == pairs_to_map(hit.1),
                    None => r.0 == self.fallback() && r.1@ == Map::<Seq<char>, Seq<char>>::empty(),
                },
                None => r.0 == self.fallback() && r.1@ == Map::<Seq<char>, Seq<char>>::empty(),
            },
    {
        match Self::find_tree(&self.trees, method) {
            Some(i) => {
                match self.trees[i].1.get(path) {
                    Some(hit) => (hit.0, hit.1),
                    None => (self.not_found, CaptureMap::new()),
                }
            },
            None => (self.not_found, CaptureMap::new()),
        }
    }
}

/// Updating one entry without changing its method leaves every method's
/// first tree where it was.
proof fn lemma_tree_index_update<T>(
    ts: Seq<(Method, TrieNode<T>)>,
    i: int,
    entry: (Method, TrieNode<T>),
    m: MethodV,
)
    requires
        0 <= i < ts.len(),
        entry.0@ == ts[i].0@,
    ensures
        forall|m2: MethodV, j: int|
            0 <= j <= ts.len() ==> #[trigger] tree_index_from(ts.update(i, entry), m2, j)
                == tree_index_from(ts, m2, j),
    decreases ts.len(),
{
    assert forall|m2: MethodV, j: int|
        0 <= j <= ts.len() implies #[trigger] tree_index_from(ts.update(i, entry), m2, j)
        == tree_index_from(ts, m2, j) by {
        lemma_tree_index_update_one(ts, i, entry, m2, j);
    }
}

proof fn lemma_tree_index_update_one<T>(
    ts: Seq<(Method, TrieNode<T>)>,
    i: int,
    entry: (Method, TrieNode<T>),
    m2: MethodV,
    j: int,
)
    requires
        0 <= i < ts.len(),
        entry.0@ == ts[i].0@,
        0 <= j <= ts.len(),
    ensures
        tree_index_from(ts.update(i, entry), m2, j) == tree_index_from(ts, m2, j),
    decreases ts.len() - j,
{
    let ts2 = ts.update(i, entry);
    if j == ts.len() {
    } else {
        assert(ts2[j].0@ == ts[j].0@);
        lemma_tree_index_update_one(ts, i, entry, m2, j + 1);
    }
}

/// Appending an entry only gives a tree to the methods that had none.
proof fn lemma_tree_index_push<T>(
    ts: Seq<(Method, TrieNode<T>)>,
    entry: (Method, TrieNode<T>),
    m: MethodV,
)
    ensures
        forall|m2: MethodV, j: int|
            0 <= j <= ts.len() ==> #[trigger] tree_index_from(ts.push(entry), m2, j) == (
            match tree_index_from(ts, m2, j) {
                Some(k) => Some(k),
                None => if entry.0@ == m2 {
                    Some(ts.len() as int)
                } else {
                    None
                },
            }),
{
    assert forall|m2: MethodV, j: int|
        0 <= j <= ts.len() implies #[trigger] tree_index_from(ts.push(entry), m2, j) == (
    match tree_index_from(ts, m2, j) {
        Some(k) => Some(k),
        None => if entry.0@ == m2 {
            Some(ts.len() as int)
        } else {
            None
        },
    }) by {
        lemma_tree_index_push_one(ts, entry, m2, j);
    }
}

proof fn lemma_tree_index_push_one<T>(
    ts: Seq<(Method, TrieNode<T>)>,
    entry: (Method, TrieNode<T>),
    m2: MethodV,
    j: int,
)
    requires
        0 <= j <= ts.len(),
    ensures
        tree_index_from(ts.push(entry), m2, j) == (match tree_index_from(ts, m2, j) {
            Some(k) => Some(k),
            None => if entry.0@ == m2 {
                Some(ts.len() as int)
            } else {
                None
            },
        }),
    decreases ts.len() - j,
{
    let ts2 = ts.push(entry);
    if j == ts.len() {
        if entry.0@ == m2 {
        } else {
        }
    } else {
        assert(ts2[j].0@ == ts[j].0@);
        lemma_tree_index_push_one(ts, entry, m2, j + 1);
    }
}


/// Where a found tree index lies, and whose method it carries.
proof fn lemma_tree_index_props<T>(ts: Seq<(Method, TrieNode<T>)>, m: MethodV, i: int)
    requires
        0 <= i <= ts.len(),
    ensures
        match tree_index_from(ts, m, i) {
            Some(k) => i <= k < ts.len() && ts[k].0@ == m,
            None => true,
        },
    decreases ts.len() - i,
{
    if i < ts.len() && !(ts[i].0@ == m) {
        lemma_tree_index_props(ts, m, i + 1);
    }
}


/// A registration whose pattern does not begin with `/` is answered with
/// `StartWithSlash`, and no trie and no fallback changes.
pub proof fn lemma_register_needs_slash<T: Copy>(
    pre: Router<T>,
    post: Router<T>,
    m: MethodV,
    pattern: Seq<char>,
    handler: T,
    r: Result<(), Error>,
)
    requires
        Router::register_post(pre, post, m, pattern, handler, r),
        pattern.len() == 0 || pattern[0] != '/',
    ensures
        r == Err::<(), Error>(Error::StartWithSlash),
        forall|m2: MethodV| post.tree_view(m2) == pre.tree_view(m2),
        post.fallback() == pre.fallback(),
{
}

/// Registering the same brace-free literal path twice under one method:
/// the second registration is answered with `DuplicateRoute` and leaves
/// every trie and the fallback as the first registration left them.
pub proof fn lemma_register_duplicate<T: Copy>(
    pre: Router<T>,
    mid: Router<T>,
    post: Router<T>,
    m: MethodV,
    pattern: Seq<char>,
    h1: T,
    h2: T,
    r2: Result<(), Error>,
)
    requires
        pre.wf(),
        Router::register_post(pre, mid, m, pattern, h1, Ok::<(), Error>(())),
        Router::register_post(mid, post, m, pattern, h2, r2),
        pattern.len() > 0,
        pattern[0] == '/',
        brace_free(pattern),
    ensures
        r2 == Err::<(), Error>(Error::DuplicateRoute),
        forall|m2: MethodV| post.tree_view(m2) == mid.tree_view(m2),
        post.fallback() == mid.fallback(),
{
    let t0 = match pre.tree_view(m) {
        Some(t) => t,
        None => empty_node_view::<T>(),
    };
    match tree_index_from(pre.trees@, m, 0) {
        Some(i) => {
            lemma_tree_index_props(pre.trees@, m, 0);
            assert(node_view(pre.trees@[i].1).param is None);
        },
        None => {},
    }
    assert(t0.param is None);
    crate::trie::lemma_insert_duplicate(t0, pattern, h1, h2);
}

} // verus!\n