//! The routing trie: a prefix tree whose nodes carry literal key fragments
//! or named, regex-constrained parameters.
//!
//! `insert` adds a route pattern, splitting nodes so that siblings never
//! share a literal prefix; `get` resolves a path, trying literal children
//! before parameter children and collecting a capture map on the way down.

use vstd::prelude::*;

use crate::Error;
use crate::chars::{chars_slice, chars_to_string, str_eq, str_to_chars};
use crate::pattern::{
    SegV, Segment, after_slash, after_slash_spec, brace_free, find_char, find_from,
    lemma_after_slash_bounds, lemma_find_shift, lemma_match_len_agree, lemma_match_len_at,
    lemma_match_len_le, lemma_match_len_self, lemma_match_len_skip, lemma_match_len_stop,
    lemma_match_len_take, lemma_parse_literal,
    lemma_segs_scan_wf, match_len_from, match_len_spec, parse_pattern, parse_spec, segs_view,
    segs_wf,
};
use crate::rx::{ParamRegex, regex_accepts};

verus! {

broadcast use vstd::seq::group_seq_axioms, vstd::std_specs::vec::group_vec_axioms;

/// A node of the routing trie. `key` is a literal fragment, or the parameter
/// name when `param` is set; `value` is bound when some route ends here;
/// `param` carries the compiled constraint of a parameter node.
pub struct TrieNode<T> {
    /// The key associated with this node.
    pub key: String,
    /// The value associated with this node, if any.
    pub value: Option<T>,
    /// All branches from this node.
    pub children: Vec<TrieNode<T>>,
    /// When set, this node stands for a parameter named `key`, and matches
    /// path segments that its regex accepts.
    pub param: Option<ParamRegex>,
}

/// What contracts see of a trie node: the key fragment, the bound value,
/// the children in order, and the regex pattern of a parameter node.
#[verifier::ext_equal]
pub struct NodeView<T> {
    pub key: Seq<char>,
    pub value: Option<T>,
    pub children: Seq<NodeView<T>>,
    pub param: Option<Seq<char>>,
}

/// The view of a trie node, taken recursively over its children.
pub open spec fn node_view<T>(n: TrieNode<T>) -> NodeView<T>
    decreases n, 0int,
{
    NodeView {
        key: n.key@,
        value: n.value,
        children: children_views(n.children@),
        param: match n.param {
            Some(pr) => Some(pr@),
            None => None,
        },
    }
}

/// The views of a sequence of trie nodes, in order.
pub open spec fn children_views<T>(cs: Seq<TrieNode<T>>) -> Seq<NodeView<T>>
    decreases cs, 0int,
{
    if cs.len() == 0 {
        Seq::empty()
    } else {
        children_views(cs.drop_last()).push(node_view(cs.last()))
    }
}

/// `children_views` is the element-wise view.
pub broadcast proof fn lemma_children_views<T>(cs: Seq<TrieNode<T>>)
    ensures
        (#[trigger] children_views(cs)).len() == cs.len(),
        forall|i: int| 0 <= i < cs.len() ==> children_views(cs)[i] == node_view(cs[i]),
    decreases cs.len(),
{
    if cs.len() > 0 {
        lemma_children_views(cs.drop_last());
    }
}

impl<T> View for TrieNode<T> {
    type V = NodeView<T>;

    open spec fn view(&self) -> NodeView<T> {
        node_view(*self)
    }
}

/// The view of an empty trie: the node a fresh trie consists of.
pub open spec fn empty_node_view<T>() -> NodeView<T> {
    NodeView { key: Seq::empty(), value: None, children: Seq::empty(), param: None }
}

/// Folds capture pairs into a map; a later pair with the same name wins.
pub open spec fn pairs_to_map(s: Seq<(Seq<char>, Seq<char>)>) -> Map<Seq<char>, Seq<char>>
    decreases s.len(),
{
    if s.len() == 0 {
        Map::empty()
    } else {
        pairs_to_map(s.drop_last()).insert(s.last().0, s.last().1)
    }
}

/// The view of a list of owned capture pairs.
pub open spec fn pairs_view(ps: Seq<(String, String)>) -> Seq<(Seq<char>, Seq<char>)> {
    ps.map_values(|p: (String, String)| (p.0@, p.1@))
}

/// The parameter captures of a successful lookup: names bound to the path
/// fragments they matched.
pub struct CaptureMap {
    pairs: Vec<(String, String)>,
}

impl View for CaptureMap {
    type V = Map<Seq<char>, Seq<char>>;

    closed spec fn view(&self) -> Map<Seq<char>, Seq<char>> {
        pairs_to_map(pairs_view(self.pairs@))
    }
}

proof fn lemma_pairs_get(s: Seq<(Seq<char>, Seq<char>)>, name: Seq<char>, i: int)
    requires
        0 <= i <= s.len(),
        forall|k: int| i <= k < s.len() ==> (#[trigger] s[k]).0 != name,
    ensures
        pairs_to_map(s).contains_key(name) == pairs_to_map(s.take(i)).contains_key(name),
        pairs_to_map(s).contains_key(name) ==> pairs_to_map(s)[name] == pairs_to_map(
            s.take(i),
        )[name],
    decreases s.len() - i,
{
    if i == s.len() {
        assert(s.take(i) =~= s);
    } else {
        lemma_pairs_get(s, name, i + 1);
        assert(s.take(i + 1).drop_last() =~= s.take(i));
        assert(s.take(i + 1).last() == s[i]);
    }
}

impl CaptureMap {
    /// A capture map with no bindings.
    pub fn new() -> (r: CaptureMap)
        ensures
            r@ == Map::<Seq<char>, Seq<char>>::empty(),
    {
        let r = CaptureMap { pairs: Vec::new() };
        proof {
            assert(pairs_view(r.pairs@) =~= Seq::<(Seq<char>, Seq<char>)>::empty());
        }
        r
    }

    /// Looks a parameter name up, returning the substring it captured.
    pub fn get(&self, name: &str) -> (r: Option<String>)
        ensures
            match r {
                Some(v) => self@.contains_key(name@) && v@ == self@[name@],
                None => !self@.contains_key(name@),
            },
    {
        let ghost pv = pairs_view(self.pairs@);
        let mut i: usize = self.pairs.len();
        while i > 0
            invariant
                i <= self.pairs@.len(),
                pv == pairs_view(self.pairs@),
                forall|k: int| i <= k < pv.len() ==> (#[trigger] pv[k]).0 != name@,
            decreases i,
        {
            i = i - 1;
            if str_eq(self.pairs[i].0.as_str(), name) {
                let v = self.pairs[i].1.clone();
                proof {
                    lemma_pairs_get(pv, name@, i as int + 1);
                    assert(pv.take(i as int + 1).drop_last() =~= pv.take(i as int));
                    assert(pv.take(i as int + 1).last() == pv[i as int]);
                    assert(pairs_to_map(pv.take(i as int + 1))[name@] == pv[i as int].1);
                }
                return Some(v);
            }
            proof {
                assert(pv[i as int].0 != name@);
            }
        }
        proof {
            lemma_pairs_get(pv, name@, 0);
            assert(pv.take(0) =~= Seq::<(Seq<char>, Seq<char>)>::empty());
        }
        None
    }

}

/// What looking `path` up below `n` yields: the value of the route that
/// matches, with the parameter captures made on the way, or nothing.
///
/// At a parameter node the segment up to the next `/` (or the whole rest)
/// must pass the node's regex and is captured under the node's name. At a
/// literal node the node key must be a prefix of the path; a fully consumed
/// path ends at this node's value.
pub open spec fn get_spec<T>(n: NodeView<T>, path: Seq<char>) -> Option<
    (T, Seq<(Seq<char>, Seq<char>)>),
>
    decreases n, 1int, 0int,
{
    match n.param {
        Some(pat) => match find_from(path, '/', 0) {
            Some(sl) => if regex_accepts(pat, path.take(sl)) {
                match children_lookup(n.children, path.skip(sl)) {
                    Some((v, caps)) => Some((v, seq![(n.key, path.take(sl))] + caps)),
                    None => None,
                }
            } else {
                None
            },
            None => if regex_accepts(pat, path) {
                match n.value {
                    Some(v) => Some((v, seq![(n.key, path)])),
                    None => None,
                }
            } else {
                None
            },
        },
        None => {
            let ml = match_len_spec(n.key, path) as int;
            if ml == n.key.len() {
                if ml == path.len() {
                    match n.value {
                        Some(v) => Some((v, Seq::empty())),
                        None => None,
                    }
                } else {
                    children_lookup(n.children, path.skip(ml))
                }
            } else {
                None
            }
        },
    }
}

/// Lookup across the children of a node: every literal child is tried in
/// order before any parameter child.
pub open spec fn children_lookup<T>(cs: Seq<NodeView<T>>, path: Seq<char>) -> Option<
    (T, Seq<(Seq<char>, Seq<char>)>),
>
    decreases cs, 3int, 0int,
{
    match children_pass(cs, path, false) {
        Some(r) => Some(r),
        None => children_pass(cs, path, true),
    }
}

/// One pass over children: tries, in order, exactly those children whose
/// parameter-ness equals `params`, and yields the first hit.
pub open spec fn children_pass<T>(cs: Seq<NodeView<T>>, path: Seq<char>, params: bool) -> Option<
    (T, Seq<(Seq<char>, Seq<char>)>),
>
    decreases cs, 2int, 0int,
{
    if cs.len() == 0 {
        None
    } else {
        let r0 = if (cs[0].param is Some) == params {
            get_spec(cs[0], path)
        } else {
            None
        };
        if r0 is Some {
            r0
        } else {
            children_pass(cs.drop_first(), path, params)
        }
    }
}

impl<T: Copy> TrieNode<T> {
    /// Creates a new, empty trie.
    pub fn new() -> (t: Self)
        ensures
            t@ == empty_node_view::<T>(),
    {
        let t = TrieNode { key: String::new(), value: None, children: Vec::new(), param: None };
        proof {
            assert(children_views(t.children@) =~= Seq::<NodeView<T>>::empty());
            assert(t@ =~= empty_node_view::<T>());
        }
        t
    }

    /// Looks `key` up. On a hit, yields the value of the best-matching
    /// route and the capture map; literal branches beat parameter branches.
    pub fn get(&self, key: &str) -> (r: Option<(Option<T>, CaptureMap)>)
        ensures
            match r {
                Some(p) => {
                    &&& get_spec(self@, key@) is Some
                    &&& p.0 == Some(get_spec(self@, key@)->Some_0.0)
                    &&& p.1@ == pairs_to_map(get_spec(self@, key@)->Some_0.1)
                },
                None => get_spec(self@, key@) is None,
            },
    {
        let path = str_to_chars(key);
        proof {
            assert(path@.skip(0) =~= key@);
        }
        match self.get_rec(&path, 0) {
            Some((v, caps)) => Some((Some(v), CaptureMap { pairs: caps })),
            None => None,
        }
    }

    fn get_rec(&self, path: &Vec<char>, pos: usize) -> (r: Option<(T, Vec<(String, String)>)>)
        requires
            pos <= path@.len(),
        ensures
            match r {
                Some(p) => {
                    &&& get_spec(self@, path@.skip(pos as int)) is Some
                    &&& p.0 == get_spec(self@, path@.skip(pos as int))->Some_0.0
                    &&& pairs_view(p.1@) == get_spec(self@, path@.skip(pos as int))->Some_0.1
                },
                None => get_spec(self@, path@.skip(pos as int)) is None,
            },
        decreases *self, 1int, 0int,
    {
        let ghost tail = path@.skip(pos as int);
        match &self.param {
            Some(pr) => {
                proof {
                    lemma_find_shift(path@, '/', pos as int, 0);
                }
                match find_char(path, '/', pos) {
                    Some(sl) => {
                        let head = chars_to_string(path, pos, sl);
                        proof {
                            assert(head@ =~= tail.take(sl - pos));
                        }
                        if pr.is_match(head.as_str()) {
                            proof {
                                assert(path@.skip(sl as int) =~= tail.skip(sl - pos));
                            }
                            match self.get_children_rec(path, sl) {
                                Some((v, caps)) => {
                                    let name = self.key.clone();
                                    let mut caps2 = caps;
                                    let ghost inner = pairs_view(caps2@);
                                    caps2.insert(0, (name, head));
                                    proof {
                                        assert(pairs_view(caps2@) =~= seq![
                                            (self@.key, tail.take(sl - pos)),
                                        ] + inner);
                                    }
                                    Some((v, caps2))
                                },
                                None => None,
                            }
                        } else {
                            None
                        }
                    },
                    None => {
                        let whole = chars_to_string(path, pos, path.len());
                        proof {
                            assert(whole@ =~= tail);
                        }
                        if pr.is_match(whole.as_str()) {
                            match self.value {
                                Some(v) => {
                                    let name = self.key.clone();
                                    let caps = vec![(name, whole)];
                                    proof {
                                        assert(pairs_view(caps@) =~= seq![(self@.key, tail)]);
                                    }
                                    Some((v, caps))
                                },
                                None => None,
                            }
                        } else {
                            None
                        }
                    },
                }
            },
            None => {
                let kchars = str_to_chars(self.key.as_str());
                let ml = match_len_from(&kchars, path, pos);
                if ml == kchars.len() {
                    let pl = path.len();
                    if pos + ml == pl {
                        match self.value {
                            Some(v) => Some((v, Vec::new())),
                            None => None,
                        }
                    } else {
                        proof {
                            assert(path@.skip((pos + ml) as int) =~= tail.skip(ml as int));
                        }
                        self.get_children_rec(path, pos + ml)
                    }
                } else {
                    None
                }
            },
        }
    }

    fn get_children_rec(&self, path: &Vec<char>, pos: usize) -> (r: Option<
        (T, Vec<(String, String)>),
    >)
        requires
            pos <= path@.len(),
        ensures
            match r {
                Some(p) => {
                    &&& children_lookup(self@.children, path@.skip(pos as int)) is Some
                    &&& p.0 == children_lookup(self@.children, path@.skip(pos as int))->Some_0.0
                    &&& pairs_view(p.1@) == children_lookup(
                        self@.children,
                        path@.skip(pos as int),
                    )->Some_0.1
                },
                None => children_lookup(self@.children, path@.skip(pos as int)) is None,
            },
        decreases *self, 0int, 0int,
    {
        let ghost tail = path@.skip(pos as int);
        let ghost cs = self@.children;
        proof {
            lemma_children_views(self.children@);
            assert(cs.skip(0) =~= cs);
        }
        let mut i: usize = 0;
        while i < self.children.len()
            invariant
                pos <= path@.len(),
                i <= self.children@.len(),
                cs == self@.children,
                tail == path@.skip(pos as int),
                cs.len() == self.children@.len(),
                forall|k: int| 0 <= k < cs.len() ==> cs[k] == node_view(self.children@[k]),
                children_pass(cs, tail, false) == children_pass(cs.skip(i as int), tail, false),
            decreases self.children@.len() - i,
        {
            let child = &self.children[i];
            proof {
                assert(cs.skip(i as int)[0] == node_view(self.children@[i as int]));
            }
            if child.param.is_none() {
                let r = child.get_rec(path, pos);
                if r.is_some() {
                    proof {
                        assert(children_pass(cs.skip(i as int), tail, false) == get_spec(
                            cs[i as int],
                            tail,
                        ));
                    }
                    return r;
                }
            }
            proof {
                assert(cs.skip(i as int).drop_first() =~= cs.skip(i as int + 1));
            }
            i = i + 1;
        }
        proof {
            assert(cs.skip(i as int) =~= Seq::<NodeView<T>>::empty());
            assert(children_pass(cs, tail, false) is None);
        }
        let mut j: usize = 0;
        proof {
            assert(cs.skip(0) =~= cs);
        }
        while j < self.children.len()
            invariant
                pos <= path@.len(),
                j <= self.children@.len(),
                cs == self@.children,
                tail == path@.skip(pos as int),
                cs.len() == self.children@.len(),
                forall|k: int| 0 <= k < cs.len() ==> cs[k] == node_view(self.children@[k]),
                children_pass(cs, tail, false) is None,
                children_pass(cs, tail, true) == children_pass(cs.skip(j as int), tail, true),
            decreases self.children@.len() - j,
        {
            let child = &self.children[j];
            proof {
                assert(cs.skip(j as int)[0] == node_view(self.children@[j as int]));
            }
            if child.param.is_some() {
                let r = child.get_rec(path, pos);
                if r.is_some() {
                    proof {
                        assert(children_pass(cs.skip(j as int), tail, true) == get_spec(
                            cs[j as int],
                            tail,
                        ));
                    }
                    return r;
                }
            }
            proof {
                assert(cs.skip(j as int).drop_first() =~= cs.skip(j as int + 1));
            }
            j = j + 1;
        }
        proof {
            assert(cs.skip(j as int) =~= Seq::<NodeView<T>>::empty());
            assert(children_pass(cs, tail, true) is None);
        }
        None
    }
}


/// Whether `c` is the child an insertion descends into: a literal child
/// sharing a prefix with the pending literal text, or, when a parameter is
/// pending, a parameter child whose name shares a prefix with it.
pub open spec fn child_matches<T>(c: NodeView<T>, rem: Seq<char>, segs: Seq<SegV>, si: int) -> bool {
    if rem.len() > 0 {
        c.param is None && match_len_spec(c.key, rem) > 0
    } else if 0 <= si < segs.len() && segs[si] is Par {
        c.param is Some && match_len_spec(c.key, segs[si]->Par_0) > 0
    } else {
        false
    }
}

/// The branch a fresh part of a route becomes: a literal node for the
/// pending text `rem`, continuing into a parameter chain for the segments
/// from `si` on; the value sits at the branch's end.
pub open spec fn build_chain_spec<T>(rem: Seq<char>, segs: Seq<SegV>, si: int, value: T) -> NodeView<T>
    decreases segs.len() - si, 1int,
{
    if rem.len() > 0 {
        if si >= segs.len() {
            NodeView { key: rem, value: Some(value), children: Seq::empty(), param: None }
        } else {
            NodeView {
                key: rem,
                value: None,
                children: seq![param_chain_spec(segs, si, value)],
                param: None,
            }
        }
    } else {
        param_chain_spec(segs, si, value)
    }
}

/// The parameter node for `segs[si]`, continuing past the next `/`.
pub open spec fn param_chain_spec<T>(segs: Seq<SegV>, si: int, value: T) -> NodeView<T>
    decreases segs.len() - si, 0int,
{
    if !(0 <= si < segs.len() && segs[si] is Par) {
        // never the case: a chain is built on a pending parameter
        NodeView { key: Seq::empty(), value: Some(value), children: Seq::empty(), param: None }
    } else {
        let name = segs[si]->Par_0;
        let rx = segs[si]->Par_1;
        let rem2 = after_slash_spec(segs, si + 1).0;
        let si2 = after_slash_spec(segs, si + 1).1;
        if rem2.len() == 0 && si2 >= segs.len() {
            NodeView { key: name, value: Some(value), children: Seq::empty(), param: Some(rx) }
        } else if !(si < si2 <= segs.len()) {
            // never the case: the resumption point lies past the parameter
            NodeView { key: name, value: Some(value), children: Seq::empty(), param: Some(rx) }
        } else {
            NodeView {
                key: name,
                value: None,
                children: seq![build_chain_spec(rem2, segs, si2, value)],
                param: Some(rx),
            }
        }
    }
}

/// What inserting the route tail `(rem, segs[si..])` below `n` yields: the
/// reshaped node, or `DuplicateRoute` when the route's end carries a value
/// already.
///
/// A literal node whose key is only partly matched is split: the shared
/// prefix keeps the node's place, and its old suffix, value and children
/// move into a child. A parameter node consumes the pending parameter and
/// resumes past the next `/`.
pub open spec fn insert_spec<T>(n: NodeView<T>, rem: Seq<char>, segs: Seq<SegV>, si: int, value: T) -> Result<NodeView<T>, Error>
    decreases n, 1int, 0int,
{
    match n.param {
        Some(_) => {
            if !(0 <= si && si + 1 <= segs.len()) {
                // never the case: a parameter node is entered on its own segment
                Err(Error::DuplicateRoute)
            } else {
                let rem2 = after_slash_spec(segs, si + 1).0;
                let si2 = after_slash_spec(segs, si + 1).1;
                if rem2.len() == 0 && si2 >= segs.len() {
                    match n.value {
                        Some(_) => Err(Error::DuplicateRoute),
                        None => Ok(NodeView { value: Some(value), ..n }),
                    }
                } else {
                    match children_insert_spec(n.children, 0, rem2, segs, si2, value) {
                        Ok(cs) => Ok(NodeView { children: cs, ..n }),
                        Err(e) => Err(e),
                    }
                }
            }
        },
        None => {
            let ml = match_len_spec(n.key, rem) as int;
            let rem2 = rem.skip(ml);
            if ml == n.key.len() {
                if rem2.len() == 0 && si >= segs.len() {
                    match n.value {
                        Some(_) => Err(Error::DuplicateRoute),
                        None => Ok(NodeView { value: Some(value), ..n }),
                    }
                } else {
                    match children_insert_spec(n.children, 0, rem2, segs, si, value) {
                        Ok(cs) => Ok(NodeView { children: cs, ..n }),
                        Err(e) => Err(e),
                    }
                }
            } else {
                let suffix = NodeView {
                    key: n.key.skip(ml),
                    value: n.value,
                    children: n.children,
                    param: None,
                };
                if rem2.len() == 0 && si >= segs.len() {
                    Ok(NodeView {
                        key: n.key.take(ml),
                        value: Some(value),
                        children: seq![suffix],
                        param: None,
                    })
                } else {
                    Ok(NodeView {
                        key: n.key.take(ml),
                        value: None,
                        children: seq![suffix, build_chain_spec(rem2, segs, si, value)],
                        param: None,
                    })
                }
            }
        },
    }
}

/// Inserting below a node's children, scanning from child `j` on: the
/// first matching child takes the route; with none, a new branch is
/// appended.
pub open spec fn children_insert_spec<T>(cs: Seq<NodeView<T>>, j: int, rem: Seq<char>, segs: Seq<SegV>, si: int, value: T) -> Result<Seq<NodeView<T>>, Error>
    decreases cs, 0int, cs.len() - j,
    when 0 <= j <= cs.len()
{
    if j >= cs.len() {
        Ok(cs.push(build_chain_spec(rem, segs, si, value)))
    } else if child_matches(cs[j], rem, segs, si) {
        match insert_spec(cs[j], rem, segs, si, value) {
            Ok(nv) => Ok(cs.update(j, nv)),
            Err(e) => Err(e),
        }
    } else {
        children_insert_spec(cs, j + 1, rem, segs, si, value)
    }
}

/// A node that holds no route at all: the state a fresh trie is in.
pub open spec fn is_empty_root<T>(n: NodeView<T>) -> bool {
    n.key.len() == 0 && n.value is None && n.children.len() == 0 && n.param is None
}

/// What inserting a whole route pattern into a trie yields: a parse error,
/// `DuplicateRoute`, or the reshaped trie. A first route simply becomes
/// the root's branch.
pub open spec fn trie_insert_spec<T>(n: NodeView<T>, pattern: Seq<char>, value: T) -> Result<NodeView<T>, Error> {
    match parse_spec(pattern) {
        Err(e) => Err(e),
        Ok(segs) => {
            if !(segs.len() > 0 && segs[0] is Lit) {
                // never the case: a parsed pattern opens with its leading literal
                Err(Error::StartWithSlash)
            } else {
                let rem0 = segs[0]->Lit_0;
                if is_empty_root(n) {
                    Ok(build_chain_spec(rem0, segs, 1, value))
                } else {
                    insert_spec(n, rem0, segs, 1, value)
                }
            }
        },
    }
}


impl<T: Copy> TrieNode<T> {
    fn build_chain(rem: Vec<char>, segs: &Vec<Segment>, si: usize, value: T) -> (node: TrieNode<
        T,
    >)
        requires
            si <= segs@.len(),
            segs_wf(segs_view(segs@)),
            rem@.len() == 0 ==> si < segs@.len() && segs_view(segs@)[si as int] is Par,
            si < segs@.len() ==> segs_view(segs@)[si as int] is Par,
        ensures
            node@ == build_chain_spec(rem@, segs_view(segs@), si as int, value),
        decreases segs@.len() - si, 1int,
    {
        let ghost segv = segs_view(segs@);
        if rem.len() > 0 {
            let key = chars_to_string(&rem, 0, rem.len());
            proof {
                assert(key@ =~= rem@);
            }
            if si >= segs.len() {
                let node = TrieNode { key, value: Some(value), children: Vec::new(), param: None };
                proof {
                    assert(children_views(node.children@) =~= Seq::<NodeView<T>>::empty());
                    assert(node@ =~= build_chain_spec(rem@, segv, si as int, value));
                }
                node
            } else {
                let child = Self::build_param_chain(segs, si, value);
                let mut cs: Vec<TrieNode<T>> = Vec::new();
                cs.push(child);
                let node = TrieNode { key, value: None, children: cs, param: None };
                proof {
                    lemma_children_views(node.children@);
                    assert(children_views(node.children@) =~= seq![
                        param_chain_spec(segv, si as int, value),
                    ]);
                    assert(node@ =~= build_chain_spec(rem@, segv, si as int, value));
                }
                node
            }
        } else {
            Self::build_param_chain(segs, si, value)
        }
    }

    #[verifier::rlimit(100)]
    fn build_param_chain(segs: &Vec<Segment>, si: usize, value: T) -> (node: TrieNode<T>)
        requires
            si < segs@.len(),
            segs_wf(segs_view(segs@)),
            segs_view(segs@)[si as int] is Par,
        ensures
            node@ == param_chain_spec(segs_view(segs@), si as int, value),
        decreases segs@.len() - si, 0int,
    {
        let ghost segv = segs_view(segs@);
        proof {
            assert(segv[si as int] == segs@[si as int]@);
        }
        let (name, rx): (String, ParamRegex) = match &segs[si] {
            Segment::Par(n, r) => (n.clone(), r.duplicate()),
            Segment::Lit(_) => {
                proof {
                    assert(false);
                }
                vstd::pervasive::unreached()
            },
        };
        let sl = segs.len();
        proof {
            assert(si < sl);
        }
        let (rem2, si2) = after_slash(segs, si + 1);
        proof {
            lemma_after_slash_bounds(segv, si as int + 1);
        }
        if rem2.len() == 0 && si2 >= segs.len() {
            let node = TrieNode { key: name, value: Some(value), children: Vec::new(), param: Some(rx) };
            proof {
                assert(children_views(node.children@) =~= Seq::<NodeView<T>>::empty());
                assert(node@ =~= param_chain_spec(segv, si as int, value));
            }
            node
        } else {
            proof {
                if rem2@.len() == 0 {
                    assert(si2 < segv.len());
                    assert(segv[si2 - 1] is Lit);
                    assert(segv[si2 as int] is Par);
                }
                if si2 < segv.len() {
                    assert(segv[si2 - 1] is Lit);
                    assert(segv[si2 as int] is Par);
                }
            }
            let child = Self::build_chain(rem2, segs, si2, value);
            let mut cs: Vec<TrieNode<T>> = Vec::new();
            cs.push(child);
            let node = TrieNode { key: name, value: None, children: cs, param: Some(rx) };
            proof {
                lemma_children_views(node.children@);
                assert(children_views(node.children@) =~= seq![child@]);
                assert(node@ =~= param_chain_spec(segv, si as int, value));
            }
            node
        }
    }

    #[verifier::rlimit(100)]
    fn insert_rec(&mut self, rem: Vec<char>, segs: &Vec<Segment>, si: usize, value: T) -> (r:
        Result<(), Error>)
        requires
            si <= segs@.len(),
            segs_wf(segs_view(segs@)),
            si < segs@.len() ==> segs_view(segs@)[si as int] is Par,
            old(self)@.param is Some ==> rem@.len() == 0 && si < segs@.len(),
        ensures
            match insert_spec(old(self)@, rem@, segs_view(segs@), si as int, value) {
                Ok(nv) => r == Ok::<(), Error>(()) && final (self)@ == nv,
                Err(e) => r == Err::<(), Error>(e) && final (self)@ == old(self)@,
            },
        decreases *old(self), 1int, 0int,
    {
        let ghost n0 = self@;
        let ghost segv = segs_view(segs@);
        if self.param.is_some() {
            let sl = segs.len();
            proof {
                assert(si < sl);
            }
            let (rem2, si2) = after_slash(segs, si + 1);
            proof {
                lemma_after_slash_bounds(segv, si as int + 1);
            }
            if rem2.len() == 0 && si2 >= segs.len() {
                if self.value.is_some() {
                    Err(Error::DuplicateRoute)
                } else {
                    self.value = Some(value);
                    proof {
                        assert(self@ =~= NodeView { value: Some(value), ..n0 });
                    }
                    Ok(())
                }
            } else {
                proof {
                    if si2 < segv.len() {
                        assert(segv[si2 - 1] is Lit);
                        assert(segv[si2 as int] is Par);
                    }
                }
                self.insert_children(rem2, segs, si2, value)
            }
        } else {
            let kchars = str_to_chars(self.key.as_str());
            let ml = match_len_from(&kchars, &rem, 0);
            proof {
                assert(rem@.skip(0) =~= rem@);
            }
            let rem2 = chars_slice(&rem, ml, rem.len());
            proof {
                assert(rem2@ =~= rem@.skip(ml as int));
            }
            if ml == kchars.len() {
                if rem2.len() == 0 && si >= segs.len() {
                    if self.value.is_some() {
                        Err(Error::DuplicateRoute)
                    } else {
                        self.value = Some(value);
                        proof {
                            assert(self@ =~= NodeView { value: Some(value), ..n0 });
                        }
                        Ok(())
                    }
                } else {
                    self.insert_children(rem2, segs, si, value)
                }
            } else {
                // split: the shared prefix keeps this node's place; the old
                // suffix, value and children move into a child of their own
                let new_key = chars_to_string(&kchars, 0, ml);
                let suffix_key = chars_to_string(&kchars, ml, kchars.len());
                let old_value = self.value.take();
                let mut moved: Vec<TrieNode<T>> = Vec::new();
                core::mem::swap(&mut self.children, &mut moved);
                let suffix = TrieNode { key: suffix_key, value: old_value, children: moved, param: None };
                proof {
                    assert(suffix@ =~= (NodeView {
                        key: n0.key.skip(ml as int),
                        value: n0.value,
                        children: n0.children,
                        param: None,
                    }));
                }
                self.key = new_key;
                self.children.push(suffix);
                if rem2.len() == 0 && si >= segs.len() {
                    self.value = Some(value);
                    proof {
                        lemma_children_views(self.children@);
                        assert(self@.children =~= seq![
                            insert_spec(n0, rem@, segv, si as int, value)->Ok_0.children[0],
                        ]);
                        assert(self@ =~= insert_spec(n0, rem@, segv, si as int, value)->Ok_0);
                    }
                    Ok(())
                } else {
                    let chain = Self::build_chain(rem2, segs, si, value);
                    self.children.push(chain);
                    proof {
                        lemma_children_views(self.children@);
                        assert(self@.children =~= seq![
                            insert_spec(n0, rem@, segv, si as int, value)->Ok_0.children[0],
                            insert_spec(n0, rem@, segv, si as int, value)->Ok_0.children[1],
                        ]);
                        assert(self@ =~= insert_spec(n0, rem@, segv, si as int, value)->Ok_0);
                    }
                    Ok(())
                }
            }
        }
    }

    fn insert_children(&mut self, rem: Vec<char>, segs: &Vec<Segment>, si: usize, value: T) -> (r:
        Result<(), Error>)
        requires
            si <= segs@.len(),
            segs_wf(segs_view(segs@)),
            si < segs@.len() ==> segs_view(segs@)[si as int] is Par,
            rem@.len() > 0 || si < segs@.len(),
        ensures
            match children_insert_spec(
                old(self)@.children,
                0,
                rem@,
                segs_view(segs@),
                si as int,
                value,
            ) {
                Ok(cs) => r == Ok::<(), Error>(()) && final (self)@ == (NodeView {
                    children: cs,
                    ..old(self)@
                }),
                Err(e) => r == Err::<(), Error>(e) && final (self)@ == old(self)@,
            },
        decreases *old(self), 0int, 0int,
    {
        let ghost n0 = self@;
        let ghost csv = n0.children;
        let ghost segv = segs_view(segs@);
        proof {
            lemma_children_views(self.children@);
        }
        let mut j: usize = 0;
        while j < self.children.len()
            invariant
                j <= self.children@.len(),
                *self == *old(self),
                n0 == self@,
                csv == n0.children,
                segv == segs_view(segs@),
                si <= segs@.len(),
                segs_wf(segv),
                si < segs@.len() ==> segv[si as int] is Par,
                rem@.len() > 0 || si < segs@.len(),
                csv.len() == self.children@.len(),
                forall|k: int| 0 <= k < csv.len() ==> csv[k] == node_view(self.children@[k]),
                children_insert_spec(csv, 0, rem@, segv, si as int, value)
                    == children_insert_spec(csv, j as int, rem@, segv, si as int, value),
                forall|k: int| 0 <= k < j ==> !child_matches(csv[k], rem@, segv, si as int),
            decreases self.children@.len() - j,
        {
            let child_is_param = self.children[j].param.is_some();
            let m: bool = if rem.len() > 0 {
                if !child_is_param {
                    let ck = str_to_chars(self.children[j].key.as_str());
                    proof {
                        assert(rem@.skip(0) =~= rem@);
                    }
                    match_len_from(&ck, &rem, 0) > 0
                } else {
                    false
                }
            } else {
                if child_is_param {
                    match &segs[si] {
                        Segment::Par(nm, _) => {
                            let ck = str_to_chars(self.children[j].key.as_str());
                            let nv = str_to_chars(nm.as_str());
                            proof {
                                assert(segv[si as int] == segs@[si as int]@);
                                assert(nv@.skip(0) =~= nv@);
                            }
                            match_len_from(&ck, &nv, 0) > 0
                        },
                        Segment::Lit(_) => {
                            proof {
                                assert(segv[si as int] == segs@[si as int]@);
                                assert(false);
                            }
                            vstd::pervasive::unreached()
                        },
                    }
                } else {
                    false
                }
            };
            proof {
                assert(m == child_matches(csv[j as int], rem@, segv, si as int));
            }
            if m {
                let mut child = self.children.remove(j);
                let ghost cv0 = child@;
                proof {
                    assert(cv0 == csv[j as int]);
                    assert(cv0.param is Some ==> rem@.len() == 0 && si < segs@.len());
                }
                let res = child.insert_rec(rem, segs, si, value);
                self.children.insert(j, child);
                proof {
                    lemma_children_views(self.children@);
                    assert(self.children@ =~= old(self).children@.update(j as int, child));
                    match insert_spec(cv0, rem@, segv, si as int, value) {
                        Ok(nv) => {
                            assert(child@ == nv);
                            assert(self@.children =~= csv.update(j as int, nv));
                            assert(self@ =~= (NodeView {
                                children: csv.update(j as int, nv),
                                ..n0
                            }));
                        },
                        Err(e) => {
                            assert(child@ == cv0);
                            assert(self@.children =~= csv);
                            assert(self@ =~= n0);
                        },
                    }
                }
                return res;
            }
            j = j + 1;
        }
        let chain = Self::build_chain(rem, segs, si, value);
        self.children.push(chain);
        proof {
            lemma_children_views(self.children@);
            assert(self@.children =~= csv.push(build_chain_spec(rem@, segv, si as int, value)));
            assert(self@ =~= (NodeView {
                children: csv.push(build_chain_spec(rem@, segv, si as int, value)),
                ..n0
            }));
        }
        Ok(())
    }

    /// Registers the route `key`, binding `value` at its end. The pattern
    /// is parsed and validated first, so a rejected pattern leaves the trie
    /// untouched; registering a route whose end already carries a value
    /// reports `DuplicateRoute`, leaving the trie untouched too.
    pub fn insert(&mut self, key: &str, value: T) -> (r: Result<(), Error>)
        requires
            old(self)@.param is None,
        ensures
            match trie_insert_spec(old(self)@, key@, value) {
                Ok(nv) => r == Ok::<(), Error>(()) && final (self)@ == nv,
                Err(e) => r == Err::<(), Error>(e) && final (self)@ == old(self)@,
            },
    {
        let ghost n0 = self@;
        match parse_pattern(key) {
            Err(e) => Err(e),
            Ok(segs) => {
                let ghost segv = segs_view(segs@);
                proof {
                    lemma_segs_scan_wf(key@, 0);
                    assert(segv.len() > 0 && segv[0] is Lit);
                    assert(segv[0] == segs@[0]@);
                    if 1 < segv.len() {
                        assert(segv[1] is Par);
                    }
                }
                let rem0: Vec<char> = match &segs[0] {
                    Segment::Lit(t) => str_to_chars(t.as_str()),
                    Segment::Par(_n, _r) => {
                        proof {
                            assert(false);
                        }
                        vstd::pervasive::unreached()
                    },
                };
                proof {
                    assert(rem0@.len() > 0);
                }
                if self.key.as_str().is_empty() && self.value.is_none() && self.children.len()
                    == 0 && self.param.is_none() {
                    proof {
                        lemma_children_views(self.children@);
                        assert(is_empty_root(n0));
                    }
                    let node = Self::build_chain(rem0, &segs, 1, value);
                    *self = node;
                    Ok(())
                } else {
                    proof {
                        lemma_children_views(self.children@);
                        assert(!is_empty_root(n0));
                    }
                    self.insert_rec(rem0, &segs, 1, value)
                }
            },
        }
    }
}


/// Inserting never turns the root into a parameter node.
pub proof fn lemma_insert_keeps_literal_root<T>(n: NodeView<T>, pattern: Seq<char>, value: T)
    requires
        n.param is None,
    ensures
        match trie_insert_spec(n, pattern, value) {
            Ok(nv) => nv.param is None,
            Err(_) => true,
        },
{
    match parse_spec(pattern) {
        Err(_) => {},
        Ok(segs) => {
            if pattern.len() > 0 && pattern[0] == '/' {
                lemma_segs_scan_wf(pattern, 0);
            }
        },
    }
}


proof fn lemma_ins_match_preserved<T>(c: NodeView<T>, rem: Seq<char>, segs: Seq<SegV>, si: int, v1: T)
    requires
        rem.len() > 0,
        brace_free(rem),
        child_matches(c, rem, segs, si),
        insert_spec(c, rem, segs, si, v1) is Ok,
    ensures
        ({
            let c1 = insert_spec(c, rem, segs, si, v1)->Ok_0;
            child_matches(c1, rem, segs, si) && c1.param is None
        }),
{
    let ml = match_len_spec(c.key, rem) as int;
    lemma_match_len_le(c.key, rem);
    if ml < c.key.len() {
        lemma_match_len_agree(c.key, rem);
        lemma_match_len_at(c.key.take(ml), rem, ml);
    }
}

proof fn lemma_ins_twice<T>(n: NodeView<T>, rem: Seq<char>, segs: Seq<SegV>, si: int, v1: T, v2: T)
    requires
        n.param is None,
        0 <= si == segs.len(),
        brace_free(rem),
        insert_spec(n, rem, segs, si, v1) is Ok,
    ensures
        ({
            let n1 = insert_spec(n, rem, segs, si, v1)->Ok_0;
            &&& insert_spec(n1, rem, segs, si, v2) == Err::<NodeView<T>, Error>(
                Error::DuplicateRoute,
            )
            &&& !is_empty_root(n1)
        }),
    decreases n, 1int, 0int,
{
    let n1 = insert_spec(n, rem, segs, si, v1)->Ok_0;
    let ml = match_len_spec(n.key, rem) as int;
    let rem2 = rem.skip(ml);
    lemma_match_len_le(n.key, rem);
    assert(brace_free(rem2)) by {
        assert(forall|j: int| 0 <= j < rem2.len() ==> rem2[j] == rem[j + ml]);
    }
    if ml == n.key.len() {
        if rem2.len() == 0 {
            assert(n1 == NodeView { value: Some(v1), ..n });
            assert(insert_spec(n1, rem, segs, si, v2) == Err::<NodeView<T>, Error>(
                Error::DuplicateRoute,
            ));
        } else {
            lemma_children_ins_twice(n.children, 0, rem2, segs, si, v1, v2);
            let cs1 = children_insert_spec(n.children, 0, rem2, segs, si, v1)->Ok_0;
            assert(n1 == NodeView { children: cs1, ..n });
            assert(children_insert_spec(cs1, 0, rem2, segs, si, v2) == Err::<
                Seq<NodeView<T>>,
                Error,
            >(Error::DuplicateRoute));
            assert(insert_spec(n1, rem, segs, si, v2) == Err::<NodeView<T>, Error>(
                Error::DuplicateRoute,
            ));
        }
    } else {
        let key1 = n.key.take(ml);
        lemma_match_len_agree(n.key, rem);
        lemma_match_len_at(key1, rem, ml);
        if rem2.len() == 0 {
            assert(insert_spec(n1, rem, segs, si, v2) == Err::<NodeView<T>, Error>(
                Error::DuplicateRoute,
            ));
        } else {
            lemma_match_len_stop(n.key, rem);
            let suffix = NodeView {
                key: n.key.skip(ml),
                value: n.value,
                children: n.children,
                param: None,
            };
            assert(n.key.skip(ml)[0] == n.key[ml]);
            assert(rem2[0] == rem[ml]);
            assert(match_len_spec(suffix.key, rem2) == 0);
            lemma_match_len_self(rem2);
            let chain = build_chain_spec(rem2, segs, si, v1);
            assert(chain.key == rem2 && chain.value == Some(v1) && chain.param is None);
            assert(rem2.skip(rem2.len() as int) =~= Seq::<char>::empty());
            let cs1 = seq![suffix, chain];
            assert(n1 == NodeView { key: key1, value: None, children: cs1, param: None });
            assert(!child_matches(cs1[0], rem2, segs, si));
            assert(child_matches(cs1[1], rem2, segs, si));
            assert(insert_spec(chain, rem2, segs, si, v2) == Err::<NodeView<T>, Error>(
                Error::DuplicateRoute,
            ));
            assert(children_insert_spec(cs1, 1, rem2, segs, si, v2) == Err::<
                Seq<NodeView<T>>,
                Error,
            >(Error::DuplicateRoute));
            assert(children_insert_spec(cs1, 0, rem2, segs, si, v2) == Err::<
                Seq<NodeView<T>>,
                Error,
            >(Error::DuplicateRoute));
            assert(insert_spec(n1, rem, segs, si, v2) == Err::<NodeView<T>, Error>(
                Error::DuplicateRoute,
            ));
        }
    }
}

proof fn lemma_children_ins_twice<T>(
    cs: Seq<NodeView<T>>,
    j: int,
    rem: Seq<char>,
    segs: Seq<SegV>,
    si: int,
    v1: T,
    v2: T,
)
    requires
        0 <= si == segs.len(),
        rem.len() > 0,
        brace_free(rem),
        0 <= j <= cs.len(),
        children_insert_spec(cs, j, rem, segs, si, v1) is Ok,
    ensures
        ({
            let cs1 = children_insert_spec(cs, j, rem, segs, si, v1)->Ok_0;
            &&& cs1.len() >= cs.len()
            &&& cs1.len() >= 1
            &&& forall|k: int| 0 <= k < j ==> cs1[k] == cs[k]
            &&& children_insert_spec(cs1, j, rem, segs, si, v2) == Err::<
                Seq<NodeView<T>>,
                Error,
            >(Error::DuplicateRoute)
        }),
    decreases cs, 0int, cs.len() - j,
{
    let cs1 = children_insert_spec(cs, j, rem, segs, si, v1)->Ok_0;
    if j == cs.len() {
        let chain = build_chain_spec(rem, segs, si, v1);
        assert(chain.key == rem && chain.value == Some(v1) && chain.param is None);
        assert(cs1 == cs.push(chain));
        assert(cs1[j] == chain);
        lemma_match_len_self(rem);
        assert(child_matches(cs1[j], rem, segs, si));
        assert(rem.skip(rem.len() as int) =~= Seq::<char>::empty());
        assert(insert_spec(chain, rem, segs, si, v2) == Err::<NodeView<T>, Error>(
            Error::DuplicateRoute,
        ));
    } else if child_matches(cs[j], rem, segs, si) {
        let c1 = insert_spec(cs[j], rem, segs, si, v1)->Ok_0;
        lemma_ins_twice(cs[j], rem, segs, si, v1, v2);
        lemma_ins_match_preserved(cs[j], rem, segs, si, v1);
        assert(cs1 == cs.update(j, c1));
        assert(cs1[j] == c1);
    } else {
        lemma_children_ins_twice(cs, j + 1, rem, segs, si, v1, v2);
        assert(cs1[j] == cs[j]);
        assert(!child_matches(cs1[j], rem, segs, si));
    }
}

/// Registering the same brace-free literal path a second time reports
/// `DuplicateRoute`, whatever values the two registrations bind.
pub proof fn lemma_insert_duplicate<T>(n: NodeView<T>, pattern: Seq<char>, v1: T, v2: T)
    requires
        n.param is None,
        pattern.len() > 0,
        pattern[0] == '/',
        brace_free(pattern),
        trie_insert_spec(n, pattern, v1) is Ok,
    ensures
        trie_insert_spec(trie_insert_spec(n, pattern, v1)->Ok_0, pattern, v2) == Err::<
            NodeView<T>,
            Error,
        >(Error::DuplicateRoute),
{
    lemma_parse_literal(pattern);
    let segs = seq![SegV::Lit(pattern)];
    let t1 = trie_insert_spec(n, pattern, v1)->Ok_0;
    if is_empty_root(n) {
        assert(t1 == build_chain_spec(pattern, segs, 1, v1));
        assert(t1.key == pattern && t1.value == Some(v1) && t1.param is None);
        lemma_match_len_self(pattern);
        assert(pattern.skip(pattern.len() as int) =~= Seq::<char>::empty());
        assert(!is_empty_root(t1));
        assert(insert_spec(t1, pattern, segs, 1, v2) == Err::<NodeView<T>, Error>(
            Error::DuplicateRoute,
        ));
    } else {
        lemma_ins_twice(n, pattern, segs, 1, v1, v2);
    }
}


/// A purely literal trie: no parameter nodes anywhere, and every child key
/// nonempty.
pub open spec fn lit_wf<T>(n: NodeView<T>) -> bool
    decreases n,
{
    n.param is None && forall|i: int|
        0 <= i < n.children.len() ==> (#[trigger] n.children[i]).key.len() > 0 && lit_wf(
            n.children[i],
        )
}

proof fn lemma_ins_lookup<T>(n: NodeView<T>, rem: Seq<char>, segs: Seq<SegV>, si: int, v: T)
    requires
        lit_wf(n),
        0 <= si == segs.len(),
        brace_free(rem),
        insert_spec(n, rem, segs, si, v) is Ok,
    ensures
        ({
            let n1 = insert_spec(n, rem, segs, si, v)->Ok_0;
            &&& lit_wf(n1)
            &&& n1.key == n.key || n1.key == n.key.take(match_len_spec(n.key, rem) as int)
            &&& get_spec(n1, rem) == Some((v, Seq::<(Seq<char>, Seq<char>)>::empty()))
        }),
    decreases n, 1int, 0int,
{
    let n1 = insert_spec(n, rem, segs, si, v)->Ok_0;
    let ml = match_len_spec(n.key, rem) as int;
    let rem2 = rem.skip(ml);
    lemma_match_len_le(n.key, rem);
    assert(brace_free(rem2)) by {
        assert(forall|j: int| 0 <= j < rem2.len() ==> rem2[j] == rem[j + ml]);
    }
    if ml == n.key.len() {
        if rem2.len() == 0 {
            assert(get_spec(n1, rem) == Some((v, Seq::<(Seq<char>, Seq<char>)>::empty())));
        } else {
            lemma_children_ins_lookup(n.children, 0, rem2, segs, si, v);
            let cs1 = children_insert_spec(n.children, 0, rem2, segs, si, v)->Ok_0;
            assert(n1 == NodeView { children: cs1, ..n });
            assert(cs1.skip(0) =~= cs1);
            assert(get_spec(n1, rem) == Some((v, Seq::<(Seq<char>, Seq<char>)>::empty())));
        }
    } else {
        let key1 = n.key.take(ml);
        lemma_match_len_agree(n.key, rem);
        lemma_match_len_at(key1, rem, ml);
        let suffix = NodeView {
            key: n.key.skip(ml),
            value: n.value,
            children: n.children,
            param: None,
        };
        assert(lit_wf(suffix));
        if rem2.len() == 0 {
            assert(n1 == NodeView {
                key: key1,
                value: Some(v),
                children: seq![suffix],
                param: None,
            });
            assert(get_spec(n1, rem) == Some((v, Seq::<(Seq<char>, Seq<char>)>::empty())));
            assert(lit_wf(n1));
        } else {
            lemma_match_len_stop(n.key, rem);
            lemma_match_len_self(rem2);
            let chain = build_chain_spec(rem2, segs, si, v);
            assert(chain.key == rem2 && chain.value == Some(v) && chain.param is None
                && chain.children.len() == 0);
            assert(lit_wf(chain));
            let cs1 = seq![suffix, chain];
            assert(n1 == NodeView { key: key1, value: None, children: cs1, param: None });
            assert(n.key.skip(ml)[0] == n.key[ml]);
            assert(rem2[0] == rem[ml]);
            assert(match_len_spec(suffix.key, rem2) == 0);
            assert(get_spec(suffix, rem2) is None);
            assert(rem2.skip(rem2.len() as int) =~= Seq::<char>::empty());
            assert(get_spec(chain, rem2) == Some((v, Seq::<(Seq<char>, Seq<char>)>::empty())));
            assert(cs1.drop_first() =~= seq![chain]);
            assert(children_pass(seq![chain], rem2, false) == Some((
                v,
                Seq::<(Seq<char>, Seq<char>)>::empty(),
            )));
            assert(children_pass(cs1, rem2, false) == Some((
                v,
                Seq::<(Seq<char>, Seq<char>)>::empty(),
            )));
            assert(get_spec(n1, rem) == Some((v, Seq::<(Seq<char>, Seq<char>)>::empty())));
            assert(lit_wf(n1));
        }
    }
}

proof fn lemma_children_ins_lookup<T>(
    cs: Seq<NodeView<T>>,
    j: int,
    rem: Seq<char>,
    segs: Seq<SegV>,
    si: int,
    v: T,
)
    requires
        0 <= si == segs.len(),
        rem.len() > 0,
        brace_free(rem),
        0 <= j <= cs.len(),
        forall|k: int| 0 <= k < cs.len() ==> (#[trigger] cs[k]).key.len() > 0 && lit_wf(cs[k]),
        children_insert_spec(cs, j, rem, segs, si, v) is Ok,
    ensures
        ({
            let cs1 = children_insert_spec(cs, j, rem, segs, si, v)->Ok_0;
            &&& cs1.len() >= cs.len()
            &&& cs1.len() >= 1
            &&& forall|k: int|
                0 <= k < cs1.len() ==> (#[trigger] cs1[k]).key.len() > 0 && lit_wf(cs1[k])
            &&& forall|k: int| 0 <= k < j ==> cs1[k] == cs[k]
            &&& children_pass(cs1.skip(j), rem, false) == Some((
                v,
                Seq::<(Seq<char>, Seq<char>)>::empty(),
            ))
        }),
    decreases cs, 0int, cs.len() - j,
{
    let cs1 = children_insert_spec(cs, j, rem, segs, si, v)->Ok_0;
    if j == cs.len() {
        let chain = build_chain_spec(rem, segs, si, v);
        assert(chain.key == rem && chain.value == Some(v) && chain.param is None
            && chain.children.len() == 0);
        assert(lit_wf(chain));
        assert(cs1 == cs.push(chain));
        lemma_match_len_self(rem);
        assert(rem.skip(rem.len() as int) =~= Seq::<char>::empty());
        assert(get_spec(chain, rem) == Some((v, Seq::<(Seq<char>, Seq<char>)>::empty())));
        assert(cs1.skip(j) =~= seq![chain]);
        assert(children_pass(seq![chain], rem, false) == Some((
            v,
            Seq::<(Seq<char>, Seq<char>)>::empty(),
        )));
    } else if child_matches(cs[j], rem, segs, si) {
        let c1 = insert_spec(cs[j], rem, segs, si, v)->Ok_0;
        lemma_ins_lookup(cs[j], rem, segs, si, v);
        assert(cs1 == cs.update(j, c1));
        assert(c1.key.len() > 0) by {
            let mlj = match_len_spec(cs[j].key, rem) as int;
            lemma_match_len_le(cs[j].key, rem);
            if c1.key == cs[j].key.take(mlj) {
                assert(mlj >= 1);
            }
        }
        assert(cs1.skip(j)[0] == c1);
        assert(get_spec(c1, rem) == Some((v, Seq::<(Seq<char>, Seq<char>)>::empty())));
        assert(children_pass(cs1.skip(j), rem, false) == Some((
            v,
            Seq::<(Seq<char>, Seq<char>)>::empty(),
        )));
    } else {
        lemma_children_ins_lookup(cs, j + 1, rem, segs, si, v);
        assert(cs1[j] == cs[j]);
        assert(match_len_spec(cs1[j].key, rem) == 0);
        assert(get_spec(cs1[j], rem) is None);
        assert(cs1.skip(j)[0] == cs1[j]);
        assert(cs1.skip(j).drop_first() =~= cs1.skip(j + 1));
        assert(children_pass(cs1.skip(j), rem, false) == children_pass(
            cs1.skip(j + 1),
            rem,
            false,
        ));
    }
}


proof fn lemma_pass_all_literal_none<T>(cs: Seq<NodeView<T>>, p: Seq<char>)
    requires
        forall|k: int| 0 <= k < cs.len() ==> (#[trigger] cs[k]).param is None,
    ensures
        children_pass(cs, p, true) is None,
    decreases cs,
{
    if cs.len() > 0 {
        lemma_pass_all_literal_none(cs.drop_first(), p);
    }
}

proof fn lemma_pass_push_nohit<T>(cs: Seq<NodeView<T>>, x: NodeView<T>, p: Seq<char>, b: bool)
    requires
        ((x.param is Some) == b) ==> get_spec(x, p) is None,
    ensures
        children_pass(cs.push(x), p, b) == children_pass(cs, p, b),
    decreases cs,
{
    let cs2 = cs.push(x);
    if cs.len() == 0 {
        assert(cs2[0] == x);
        assert(cs2.drop_first() =~= cs);
    } else {
        assert(cs2[0] == cs[0]);
        assert(cs2.drop_first() =~= cs.drop_first().push(x));
        lemma_pass_push_nohit(cs.drop_first(), x, p, b);
    }
}

proof fn lemma_pass_update_same<T>(
    cs: Seq<NodeView<T>>,
    j: int,
    c1: NodeView<T>,
    p: Seq<char>,
    b: bool,
)
    requires
        0 <= j < cs.len(),
        get_spec(c1, p) == get_spec(cs[j], p),
        (c1.param is Some) == (cs[j].param is Some),
    ensures
        children_pass(cs.update(j, c1), p, b) == children_pass(cs, p, b),
    decreases cs,
{
    let cs2 = cs.update(j, c1);
    if j == 0 {
        assert(cs2[0] == c1);
        assert(cs2.drop_first() =~= cs.drop_first());
    } else {
        assert(cs2[0] == cs[0]);
        assert(cs2.drop_first() =~= cs.drop_first().update(j - 1, c1));
        lemma_pass_update_same(cs.drop_first(), j - 1, c1, p, b);
    }
}

proof fn lemma_ins_preserves<T>(
    n: NodeView<T>,
    rem: Seq<char>,
    segs: Seq<SegV>,
    si: int,
    v: T,
    q: Seq<char>,
)
    requires
        lit_wf(n),
        0 <= si == segs.len(),
        brace_free(rem),
        insert_spec(n, rem, segs, si, v) is Ok,
        q != rem,
    ensures
        get_spec(insert_spec(n, rem, segs, si, v)->Ok_0, q) == get_spec(n, q),
    decreases n, 1int, 0int,
{
    let n1 = insert_spec(n, rem, segs, si, v)->Ok_0;
    let ml = match_len_spec(n.key, rem) as int;
    let rem2 = rem.skip(ml);
    let mlq = match_len_spec(n.key, q) as int;
    lemma_match_len_le(n.key, rem);
    lemma_match_len_le(n.key, q);
    lemma_match_len_agree(n.key, rem);
    lemma_match_len_agree(n.key, q);
    assert(brace_free(rem2)) by {
        assert(forall|j: int| 0 <= j < rem2.len() ==> rem2[j] == rem[j + ml]);
    }
    if ml == n.key.len() {
        if rem2.len() == 0 {
            // only the node's value changed; `q` cannot end exactly here,
            // since then it would spell the inserted route
            if mlq == n.key.len() && mlq == q.len() {
                assert(q =~= rem);
            }
        } else {
            if mlq == n.key.len() && mlq < q.len() {
                let q2 = q.skip(mlq);
                if q2 == rem2 {
                    assert forall|t: int| 0 <= t < q.len() implies q[t] == rem[t] by {
                        if t < ml {
                            assert(q[t] == n.key[t]);
                            assert(rem[t] == n.key[t]);
                        } else {
                            assert(q[t] == q2[t - ml]);
                            assert(rem[t] == rem2[t - ml]);
                        }
                    }
                    assert(q =~= rem);
                }
                lemma_children_ins_preserves(n.children, 0, rem2, segs, si, v, q2);
                let cs1 = children_insert_spec(n.children, 0, rem2, segs, si, v)->Ok_0;
                assert(n1 == NodeView { children: cs1, ..n });
                assert(children_lookup(cs1, q2) == children_lookup(n.children, q2));
            }
        }
    } else {
        let key1 = n.key.take(ml);
        let suffix = NodeView {
            key: n.key.skip(ml),
            value: n.value,
            children: n.children,
            param: None,
        };
        lemma_match_len_take(n.key, q, ml);
        lemma_match_len_at(key1, rem, ml);
        lemma_match_len_stop(n.key, rem);
        if mlq < ml {
            // both fail on the shared prefix
            assert(match_len_spec(key1, q) == mlq);
            assert(get_spec(n1, q) is None);
            assert(get_spec(n, q) is None);
        } else {
            assert(match_len_spec(key1, q) == ml);
            let q2 = q.skip(ml);
            lemma_match_len_skip(n.key, q, ml);
            assert(match_len_spec(suffix.key, q2) == mlq - ml);
            // the new branch never answers for `q`
            if rem2.len() > 0 {
                let chain = build_chain_spec(rem2, segs, si, v);
                assert(chain.key == rem2 && chain.value == Some(v) && chain.param is None);
                if get_spec(chain, q2) is Some {
                    lemma_match_len_le(rem2, q2);
                    lemma_match_len_agree(rem2, q2);
                    assert(match_len_spec(rem2, q2) == rem2.len());
                    assert(q2.len() == rem2.len());
                    assert forall|t: int| 0 <= t < q2.len() implies q2[t] == rem2[t] by {
                        assert(rem2[t] == q2[t]);
                    }
                    assert(q2 =~= rem2);
                    assert forall|t: int| 0 <= t < q.len() implies q[t] == rem[t] by {
                        if t < ml {
                            assert(q[t] == n.key[t]);
                            assert(rem[t] == n.key[t]);
                        } else {
                            assert(q[t] == q2[t - ml]);
                            assert(rem[t] == rem2[t - ml]);
                        }
                    }
                    assert(q =~= rem);
                }
                assert(get_spec(chain, q2) is None);
            }
            if q.len() == ml {
                // `q` ends at the split point, where nothing is bound
                if rem2.len() == 0 {
                    assert(q =~= rem);
                }
                assert(q2.len() == 0);
                assert(match_len_spec(suffix.key, q2) == 0);
                assert(get_spec(suffix, q2) is None);
                assert(get_spec(n, q) is None);
                if rem2.len() > 0 {
                    let chain = build_chain_spec(rem2, segs, si, v);
                    let cs1 = seq![suffix, chain];
                    assert(cs1[0] == suffix && cs1[1] == chain);
                    assert(cs1.drop_first() =~= seq![chain]);
                    assert(seq![chain].drop_first() =~= Seq::<NodeView<T>>::empty());
                    assert(match_len_spec(chain.key, q2) == 0);
                    assert(get_spec(chain, q2) is None);
                    assert(children_pass(seq![chain], q2, false) is None);
                    assert(children_pass(cs1, q2, false) is None);
                    lemma_pass_all_literal_none(cs1, q2);
                    assert(get_spec(n1, q) is None);
                }
            } else {
                // `q` continues below: the suffix child answers exactly as
                // the unsplit node did
                assert(get_spec(suffix, q2) == get_spec(n, q)) by {
                    if mlq == n.key.len() {
                        assert(match_len_spec(suffix.key, q2) == suffix.key.len());
                        if mlq == q.len() {
                            assert(q2.len() == suffix.key.len());
                        } else {
                            assert(q2.skip(suffix.key.len() as int) =~= q.skip(mlq));
                        }
                    } else {
                        assert(match_len_spec(suffix.key, q2) < suffix.key.len());
                        assert(get_spec(suffix, q2) is None);
                        assert(get_spec(n, q) is None);
                    }
                }
                if rem2.len() == 0 {
                    assert(n1 == NodeView {
                        key: key1,
                        value: Some(v),
                        children: seq![suffix],
                        param: None,
                    });
                    assert(seq![suffix].drop_first() =~= Seq::<NodeView<T>>::empty());
                    lemma_pass_all_literal_none(seq![suffix], q2);
                    assert(seq![suffix][0] == suffix);
                    assert(children_pass(seq![suffix], q2, false) == get_spec(suffix, q2)) by {
                        match get_spec(suffix, q2) {
                            Some(_hit) => {},
                            None => {
                                assert(children_pass(
                                    Seq::<NodeView<T>>::empty(),
                                    q2,
                                    false,
                                ) is None);
                            },
                        }
                    }
                    assert(get_spec(n1, q) == get_spec(n, q));
                } else {
                    let chain = build_chain_spec(rem2, segs, si, v);
                    let cs1 = seq![suffix, chain];
                    assert(n1 == NodeView { key: key1, value: None, children: cs1, param: None });
                    assert(cs1.drop_first() =~= seq![chain]);
                    assert(seq![chain].drop_first() =~= Seq::<NodeView<T>>::empty());
                    lemma_pass_all_literal_none(cs1, q2);
                    assert(get_spec(chain, q2) is None) by {
                        if get_spec(chain, q2) is Some {
                            lemma_match_len_le(rem2, q2);
                            lemma_match_len_agree(rem2, q2);
                            assert(match_len_spec(rem2, q2) == rem2.len());
                            assert(q2.len() == rem2.len());
                            assert forall|t: int| 0 <= t < q2.len() implies q2[t] == rem2[t] by {
                                assert(rem2[t] == q2[t]);
                            }
                            assert(q2 =~= rem2);
                            assert forall|t: int| 0 <= t < q.len() implies q[t] == rem[t] by {
                                if t < ml {
                                    assert(q[t] == n.key[t]);
                                    assert(rem[t] == n.key[t]);
                                } else {
                                    assert(q[t] == q2[t - ml]);
                                    assert(rem[t] == rem2[t - ml]);
                                }
                            }
                            assert(q =~= rem);
                        }
                    }
                    assert(children_pass(seq![chain], q2, false) is None);
                    assert(cs1[0] == suffix && cs1[1] == chain);
                    assert(children_pass(cs1, q2, false) == get_spec(suffix, q2)) by {
                        match get_spec(suffix, q2) {
                            Some(_hit) => {},
                            None => {
                                assert(children_pass(cs1, q2, false) == children_pass(
                                    seq![chain],
                                    q2,
                                    false,
                                ));
                            },
                        }
                    }
                    assert(get_spec(n1, q) == get_spec(n, q));
                }
            }
        }
    }
}

proof fn lemma_children_ins_preserves<T>(
    cs: Seq<NodeView<T>>,
    j: int,
    rem: Seq<char>,
    segs: Seq<SegV>,
    si: int,
    v: T,
    q: Seq<char>,
)
    requires
        0 <= si == segs.len(),
        rem.len() > 0,
        brace_free(rem),
        q != rem,
        0 <= j <= cs.len(),
        forall|k: int| 0 <= k < cs.len() ==> (#[trigger] cs[k]).key.len() > 0 && lit_wf(cs[k]),
        children_insert_spec(cs, j, rem, segs, si, v) is Ok,
    ensures
        ({
            let cs1 = children_insert_spec(cs, j, rem, segs, si, v)->Ok_0;
            &&& children_pass(cs1, q, false) == children_pass(cs, q, false)
            &&& children_lookup(cs1, q) == children_lookup(cs, q)
        }),
    decreases cs, 0int, cs.len() - j,
{
    let cs1 = children_insert_spec(cs, j, rem, segs, si, v)->Ok_0;
    lemma_children_ins_lookup(cs, j, rem, segs, si, v);
    lemma_pass_all_literal_none(cs, q);
    lemma_pass_all_literal_none(cs1, q);
    if j == cs.len() {
        let chain = build_chain_spec(rem, segs, si, v);
        assert(chain.key == rem && chain.value == Some(v) && chain.param is None);
        if get_spec(chain, q) is Some {
            lemma_match_len_le(rem, q);
            lemma_match_len_agree(rem, q);
            assert(q =~= rem);
        }
        assert(cs1 == cs.push(chain));
        lemma_pass_push_nohit(cs, chain, q, false);
    } else if child_matches(cs[j], rem, segs, si) {
        let c1 = insert_spec(cs[j], rem, segs, si, v)->Ok_0;
        lemma_ins_preserves(cs[j], rem, segs, si, v, q);
        lemma_ins_lookup(cs[j], rem, segs, si, v);
        assert(cs1 == cs.update(j, c1));
        lemma_pass_update_same(cs, j, c1, q, false);
    } else {
        lemma_children_ins_preserves(cs, j + 1, rem, segs, si, v, q);
    }
}


/// After registering a brace-free literal route, looking that route up
/// yields exactly the value just bound, with no captures.
pub proof fn lemma_insert_lookup<T>(n: NodeView<T>, pattern: Seq<char>, v: T)
    requires
        lit_wf(n),
        pattern.len() > 0,
        pattern[0] == '/',
        brace_free(pattern),
        trie_insert_spec(n, pattern, v) is Ok,
    ensures
        ({
            let t1 = trie_insert_spec(n, pattern, v)->Ok_0;
            &&& lit_wf(t1)
            &&& get_spec(t1, pattern) == Some((v, Seq::<(Seq<char>, Seq<char>)>::empty()))
        }),
{
    lemma_parse_literal(pattern);
    let segs = seq![SegV::Lit(pattern)];
    let t1 = trie_insert_spec(n, pattern, v)->Ok_0;
    if is_empty_root(n) {
        assert(t1 == build_chain_spec(pattern, segs, 1, v));
        assert(t1.key == pattern && t1.value == Some(v) && t1.param is None
            && t1.children.len() == 0);
        lemma_match_len_self(pattern);
        assert(lit_wf(t1));
        assert(get_spec(t1, pattern) == Some((v, Seq::<(Seq<char>, Seq<char>)>::empty())));
    } else {
        lemma_ins_lookup(n, pattern, segs, 1, v);
    }
}

/// Registering a brace-free literal route changes the lookup of no other
/// path.
pub proof fn lemma_insert_preserves<T>(n: NodeView<T>, pattern: Seq<char>, v: T, q: Seq<char>)
    requires
        lit_wf(n),
        pattern.len() > 0,
        pattern[0] == '/',
        brace_free(pattern),
        trie_insert_spec(n, pattern, v) is Ok,
        q != pattern,
    ensures
        get_spec(trie_insert_spec(n, pattern, v)->Ok_0, q) == get_spec(n, q),
{
    lemma_parse_literal(pattern);
    let segs = seq![SegV::Lit(pattern)];
    let t1 = trie_insert_spec(n, pattern, v)->Ok_0;
    if is_empty_root(n) {
        assert(t1 == build_chain_spec(pattern, segs, 1, v));
        assert(t1.key == pattern && t1.value == Some(v) && t1.param is None
            && t1.children.len() == 0);
        assert(get_spec(t1, q) is None) by {
            if get_spec(t1, q) is Some {
                lemma_match_len_le(pattern, q);
                lemma_match_len_agree(pattern, q);
                assert(match_len_spec(pattern, q) == pattern.len());
                assert(q.len() == pattern.len());
                assert forall|t: int| 0 <= t < q.len() implies q[t] == pattern[t] by {
                    assert(pattern[t] == q[t]);
                }
                assert(q =~= pattern);
            }
        }
        assert(get_spec(n, q) is None) by {
            assert(match_len_spec(n.key, q) == 0);
        }
    } else {
        lemma_ins_preserves(n, pattern, segs, 1, v, q);
    }
}

/// The trie that a whole list of registrations builds, from entry `k` on.
pub open spec fn insert_all<T>(n: NodeView<T>, rs: Seq<(Seq<char>, T)>, k: int) -> Result<
    NodeView<T>,
    Error,
>
    decreases rs.len() - k,
    when 0 <= k <= rs.len()
{
    if k >= rs.len() {
        Ok(n)
    } else {
        match trie_insert_spec(n, rs[k].0, rs[k].1) {
            Ok(n2) => insert_all(n2, rs, k + 1),
            Err(e) => Err(e),
        }
    }
}

proof fn lemma_insert_all_from<T>(n: NodeView<T>, rs: Seq<(Seq<char>, T)>, k: int)
    requires
        lit_wf(n),
        0 <= k <= rs.len(),
        forall|i: int|
            k <= i < rs.len() ==> (#[trigger] rs[i]).0.len() > 0 && rs[i].0[0] == '/'
                && brace_free(rs[i].0),
        forall|i: int, j: int| k <= i < j < rs.len() ==> rs[i].0 != rs[j].0,
        insert_all(n, rs, k) is Ok,
    ensures
        ({
            let t = insert_all(n, rs, k)->Ok_0;
            &&& lit_wf(t)
            &&& forall|i: int|
                k <= i < rs.len() ==> get_spec(t, (#[trigger] rs[i]).0) == Some(
                    (rs[i].1, Seq::<(Seq<char>, Seq<char>)>::empty()),
                )
            &&& forall|q: Seq<char>|
                (forall|i: int| k <= i < rs.len() ==> q != (#[trigger] rs[i]).0)
                    ==> #[trigger] get_spec(t, q) == get_spec(n, q)
        }),
    decreases rs.len() - k,
{
    if k < rs.len() {
        let n2 = trie_insert_spec(n, rs[k].0, rs[k].1)->Ok_0;
        lemma_insert_lookup(n, rs[k].0, rs[k].1);
        lemma_insert_all_from(n2, rs, k + 1);
        let t = insert_all(n, rs, k)->Ok_0;
        assert(t == insert_all(n2, rs, k + 1)->Ok_0);
        assert(get_spec(t, rs[k].0) == Some((rs[k].1, Seq::<(Seq<char>, Seq<char>)>::empty())))
            by {
            assert(forall|i: int| k + 1 <= i < rs.len() ==> rs[k].0 != (#[trigger] rs[i]).0);
            assert(get_spec(t, rs[k].0) == get_spec(n2, rs[k].0));
        }
        assert forall|q: Seq<char>|
            (forall|i: int| k <= i < rs.len() ==> q != (#[trigger] rs[i]).0)
                implies #[trigger] get_spec(t, q) == get_spec(n, q) by {
            assert(get_spec(t, q) == get_spec(n2, q));
            lemma_insert_preserves(n, rs[k].0, rs[k].1, q);
        }
    }
}

/// For any set of distinct brace-free literal routes registered into a
/// fresh trie, looking each route up returns exactly the value bound to
/// it, with no captures.
pub proof fn lemma_distinct_literal_routes<T>(rs: Seq<(Seq<char>, T)>)
    requires
        forall|i: int|
            0 <= i < rs.len() ==> (#[trigger] rs[i]).0.len() > 0 && rs[i].0[0] == '/'
                && brace_free(rs[i].0),
        forall|i: int, j: int| 0 <= i < j < rs.len() ==> rs[i].0 != rs[j].0,
        insert_all(empty_node_view::<T>(), rs, 0) is Ok,
    ensures
        forall|i: int|
            0 <= i < rs.len() ==> get_spec(
                insert_all(empty_node_view::<T>(), rs, 0)->Ok_0,
                (#[trigger] rs[i]).0,
            ) == Some((rs[i].1, Seq::<(Seq<char>, Seq<char>)>::empty())),
{
    assert(lit_wf(empty_node_view::<T>()));
    lemma_insert_all_from(empty_node_view::<T>(), rs, 0);
}

} // verus!\n