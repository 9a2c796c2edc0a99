use vstd::prelude::*;
use vstd::string::StringExecFns;
use crate::error::ObsidianError;
use crate::method::Method;
use crate::model::{
    empty_trie, find_static, join_segs, spec_can_insert, spec_search, tail_valid, terminal_apply,
    RegAction, SpecChild, SpecMatch, SpecParam, SpecTrie,
};
use crate::resource::{parse_path, pattern_view, spec_parse, spec_split, split_path, Resource};
use crate::route::{Middleware, Route};

verus! {

// ---------------------------------------------------------------------------
// The executable prefix tree.
// ---------------------------------------------------------------------------

/// One path-segment position of the tree.
pub struct TrieNode {
    pub statics: Vec<StaticChild>,
    pub param: Option<ParamChild>,
    pub wildcard: Option<Box<TrieNode>>,
    pub routes: Vec<Route>,
    pub mws: Vec<Middleware>,
}

/// A child reached by literal segment text.
pub struct StaticChild {
    pub key: String,
    pub node: TrieNode,
}

/// The at-most-one child reached by a parameter segment.
pub struct ParamChild {
    pub name: String,
    pub node: Box<TrieNode>,
}

/// The model of a node: the tree with every string replaced by its text.
pub open spec fn node_model(n: TrieNode) -> SpecTrie
    decreases n,
{
    SpecTrie {
        statics: children_model_of(n.statics@),
        param: match n.param {
            Some(p) => Some(SpecParam { name: p.name@, node: Box::new(node_model(*p.node)) }),
            None => None,
        },
        wildcard: match n.wildcard {
            Some(w) => Some(Box::new(node_model(*w))),
            None => None,
        },
        routes: n.routes@,
        mws: n.mws@,
    }
}

pub open spec fn children_model_of(s: Seq<StaticChild>) -> Seq<SpecChild>
    decreases s,
{
    if s.len() == 0 {
        Seq::empty()
    } else {
        seq![SpecChild { key: s[0].key@, node: node_model(s[0].node) }] + children_model_of(
            s.drop_first(),
        )
    }
}

/// The model of a child list is elementwise.
pub proof fn lemma_children_model(s: Seq<StaticChild>)
    ensures
        children_model_of(s).len() == s.len(),
        forall|k: int|
            0 <= k < s.len() ==> #[trigger] children_model_of(s)[k] == (SpecChild {
                key: s[k].key@,
                node: node_model(s[k].node),
            }),
    decreases s.len(),
{
    if s.len() == 0 {
    } else {
        lemma_children_model(s.drop_first());
        assert forall|k: int|
            0 <= k < s.len() implies #[trigger] children_model_of(s)[k] == SpecChild {
            key: s[k].key@,
            node: node_model(s[k].node),
        } by {
            if k == 0 {
            } else {
                assert(children_model_of(s)[k] == children_model_of(s.drop_first())[k - 1]);
                assert(s.drop_first()[k - 1] == s[k]);
            }
        }
    }
}

impl View for TrieNode {
    type V = SpecTrie;

    open spec fn view(&self) -> SpecTrie {
        node_model(*self)
    }
}

impl TrieNode {
    pub fn empty() -> (r: TrieNode)
        ensures
            r@ == empty_trie(),
            r.statics@ == Seq::<StaticChild>::empty(),
            r.param is None,
            r.wildcard is None,
            r.routes@ == Seq::<Route>::empty(),
            r.mws@ == Seq::<Middleware>::empty(),
    {
        let r = TrieNode {
            statics: Vec::new(),
            param: None,
            wildcard: None,
            routes: Vec::new(),
            mws: Vec::new(),
        };
        proof {
            assert(children_model_of(r.statics@) =~= Seq::<SpecChild>::empty());
            assert(r@ =~= empty_trie());
        }
        r
    }
}

/// The first literal child whose key is the segment, if any.
fn find_static_idx(statics: &Vec<StaticChild>, key: &String) -> (r: Option<usize>)
    ensures
        match r {
            Some(j) => j < statics@.len() && find_static(children_model_of(statics@), key@)
                == Some(j as int),
            None => find_static(children_model_of(statics@), key@) is None,
        },
{
    proof {
        lemma_children_model(statics@);
        crate::model::lemma_find_static_props(children_model_of(statics@), key@);
    }
    let ghost cm = children_model_of(statics@);
    let mut i: usize = 0;
    while i < statics.len()
        invariant
            i <= statics@.len(),
            cm == children_model_of(statics@),
            cm.len() == statics@.len(),
            forall|k: int|
                0 <= k < statics@.len() ==> #[trigger] cm[k].key == statics@[k].key@,
            forall|k: int| 0 <= k < i ==> #[trigger] cm[k].key != key@,
        decreases statics@.len() - i,
    {
        if statics[i].key == *key {
            proof {
                crate::model::lemma_find_static_at(cm, key@, i as int);
            }
            return Some(i);
        }
        i = i + 1;
    }
    None
}

// ---------------------------------------------------------------------------
// Small verified helpers over vectors of plain values.
// ---------------------------------------------------------------------------

fn copy_routes(v: &Vec<Route>) -> (r: Vec<Route>)
    ensures
        r@ == v@,
{
    let mut out: Vec<Route> = Vec::new();
    let mut i: usize = 0;
    while i < v.len()
        invariant
            i <= v@.len(),
            out@ == v@.take(i as int),
        decreases v@.len() - i,
    {
        out.push(v[i]);
        proof {
            assert(v@.take(i + 1) =~= v@.take(i as int).push(v@[i as int]));
        }
        i = i + 1;
    }
    proof {
        assert(v@.take(v@.len() as int) =~= v@);
    }
    out
}

fn copy_mws(v: &Vec<Middleware>) -> (r: Vec<Middleware>)
    ensures
        r@ == v@,
{
    let mut out: Vec<Middleware> = Vec::new();
    let mut i: usize = 0;
    while i < v.len()
        invariant
            i <= v@.len(),
            out@ == v@.take(i as int),
        decreases v@.len() - i,
    {
        out.push(v[i]);
        proof {
            assert(v@.take(i + 1) =~= v@.take(i as int).push(v@[i as int]));
        }
        i = i + 1;
    }
    proof {
        assert(v@.take(v@.len() as int) =~= v@);
    }
    out
}

/// `front` followed by `back`.
fn concat_mws(front: &Vec<Middleware>, mut back: Vec<Middleware>) -> (r: Vec<Middleware>)
    ensures
        r@ == front@ + back@,
{
    let mut out = copy_mws(front);
    let ghost b = back@;
    out.append(&mut back);
    proof {
        assert(out@ =~= front@ + b);
    }
    out
}

/// The remaining path segments joined back together with `/`.
fn join_tail(segs: &Vec<String>, i: usize) -> (r: String)
    requires
        i <= segs@.len(),
    ensures
        r@ == join_segs(segs@.map_values(|t: String| t@), i as int),
    decreases segs@.len() - i,
{
    let ghost sv = segs@.map_values(|t: String| t@);
    if i >= segs.len() {
        let r = String::new();
        proof {
            assert(r@ =~= join_segs(sv, i as int));
        }
        r
    } else if i == segs.len() - 1 {
        let r = String::from_str(segs[i].as_str());
        proof {
            assert(sv[i as int] == segs@[i as int]@);
        }
        r
    } else {
        let rest = join_tail(segs, i + 1);
        let mut r = String::from_str(segs[i].as_str());
        r.append("/");
        let r2 = r.concat(rest.as_str());
        proof {
            reveal_strlit("/");
            assert(sv[i as int] == segs@[i as int]@);
            assert(r2@ =~= sv[i as int] + seq!['/'] + join_segs(sv, i + 1));
        }
        r2
    }
}

// ---------------------------------------------------------------------------
// The result of a lookup.
// ---------------------------------------------------------------------------

/// One bound parameter: the pattern's name and the path's literal text.
pub struct ParamBinding {
    pub name: String,
    pub value: String,
}

/// What a successful lookup returns: every route registered at the matched
/// node, the middleware chain from the root down to it, the parameter
/// bindings (outermost first), and the remainder a wildcard captured.
pub struct RouteValueResult {
    pub routes: Vec<Route>,
    pub middlewares: Vec<Middleware>,
    pub params: Vec<ParamBinding>,
    pub wildcard: Option<String>,
}

impl View for RouteValueResult {
    type V = SpecMatch;

    open spec fn view(&self) -> SpecMatch {
        SpecMatch {
            routes: self.routes@,
            mws: self.middlewares@,
            params: self.params@.map_values(|p: ParamBinding| (p.name@, p.value@)),
            wildcard: match self.wildcard {
                Some(w) => Some(w@),
                None => None,
            },
        }
    }
}

impl RouteValueResult {
    /// The route registered at the matched node for the method, if any.
    pub fn get_route(&self, method: &Method) -> (r: Option<Route>)
        ensures
            match r {
                Some(route) => crate::model::has_method(self@.routes, *method) && exists|k: int|
                    0 <= k < self@.routes.len() && self@.routes[k] == route && route.method
                        == *method,
                None => !crate::model::has_method(self@.routes, *method),
            },
    {
        let mut i: usize = 0;
        while i < self.routes.len()
            invariant
                i <= self.routes@.len(),
                forall|k: int| 0 <= k < i ==> self.routes@[k].method != *method,
            decreases self.routes@.len() - i,
        {
            if self.routes[i].method == *method {
                proof {
                    assert(self@.routes[i as int].method == *method);
                    assert(crate::model::has_method(self@.routes, *method));
                }
                return Some(self.routes[i]);
            }
            i = i + 1;
        }
        None
    }

    /// The resolved middleware chain, root scope first.
    pub fn get_middleware(&self) -> (r: &Vec<Middleware>)
        ensures
            r@ == self@.mws,
    {
        &self.middlewares
    }

    /// The text bound to a parameter name, if the matched pattern binds it.
    pub fn get_param(&self, name: &String) -> (r: Option<&String>)
        ensures
            match r {
                Some(v) => exists|k: int|
                    0 <= k < self@.params.len() && self@.params[k] == (name@, v@),
                None => forall|k: int|
                    0 <= k < self@.params.len() ==> (#[trigger] self@.params[k]).0 != name@,
            },
    {
        let mut i: usize = 0;
        while i < self.params.len()
            invariant
                i <= self.params@.len(),
                forall|k: int| 0 <= k < i ==> (#[trigger] self.params@[k]).name@ != name@,
            decreases self.params@.len() - i,
        {
            if self.params[i].name == *name {
                proof {
                    assert(self@.params[i as int] == (self.params@[i as int].name@, self.params@[
                        i as int
                    ].value@));
                }
                return Some(&self.params[i].value);
            }
            i = i + 1;
        }
        proof {
            assert forall|k: int|
                0 <= k < self@.params.len() implies (#[trigger] self@.params[k]).0 != name@ by {
                assert(self@.params[k] == (self.params@[k].name@, self.params@[k].value@));
            }
        }
        None
    }

    /// The remainder of the path captured by a wildcard match, if any.
    pub fn get_wildcard(&self) -> (r: &Option<String>)
        ensures
            match r {
                Some(w) => self@.wildcard == Some(w@),
                None => self@.wildcard is None,
            },
    {
        &self.wildcard
    }
}

// ---------------------------------------------------------------------------
// Search.
// ---------------------------------------------------------------------------

/// Walks the tree from `node` over `segs[i..]` with the precedence
/// literal > parameter > wildcard and no backtracking.
pub fn search_node(node: &TrieNode, segs: &Vec<String>, i: usize) -> (r: Option<RouteValueResult>)
    requires
        i <= segs@.len(),
    ensures
        match r {
            Some(rv) => spec_search(node@, segs@.map_values(|t: String| t@), i as int) == Some(
                rv@,
            ),
            None => spec_search(node@, segs@.map_values(|t: String| t@), i as int) is None,
        },
    decreases segs@.len() - i,
{
    let ghost sv = segs@.map_values(|t: String| t@);
    proof {
        lemma_children_model(node.statics@);
    }
    if i >= segs.len() {
        let rv = RouteValueResult {
            routes: copy_routes(&node.routes),
            middlewares: copy_mws(&node.mws),
            params: Vec::new(),
            wildcard: None,
        };
        proof {
            assert(rv@.params =~= Seq::<(Seq<char>, Seq<char>)>::empty());
            assert(spec_search(node@, sv, i as int) == Some(rv@));
        }
        return Some(rv);
    }
    proof {
        assert(sv[i as int] == segs@[i as int]@);
    }
    match find_static_idx(&node.statics, &segs[i]) {
        Some(j) => {
            proof {
                assert(node@.statics[j as int].node == node_model(node.statics@[j as int].node));
            }
            match search_node(&node.statics[j].node, segs, i + 1) {
                Some(rv) => {
                    let chain = concat_mws(&node.mws, rv.middlewares);
                    let out = RouteValueResult {
                        routes: rv.routes,
                        middlewares: chain,
                        params: rv.params,
                        wildcard: rv.wildcard,
                    };
                    proof {
                        assert(spec_search(node@, sv, i as int) == Some(out@));
                    }
                    Some(out)
                },
                None => None,
            }
        },
        None => {
            match &node.param {
                Some(pc) => {
                    match search_node(&pc.node, segs, i + 1) {
                        Some(rv) => {
                            let ghost rvv = rv@;
                            let binding = ParamBinding {
                                name: String::from_str(pc.name.as_str()),
                                value: String::from_str(segs[i].as_str()),
                            };
                            let mut ps: Vec<ParamBinding> = Vec::new();
                            ps.push(binding);
                            let ghost subparams = rv.params@;
                            let mut rest = rv.params;
                            ps.append(&mut rest);
                            let chain = concat_mws(&node.mws, rv.middlewares);
                            let out = RouteValueResult {
                                routes: rv.routes,
                                middlewares: chain,
                                params: ps,
                                wildcard: rv.wildcard,
                            };
                            proof {
                                assert(ps@ =~= seq![binding] + subparams);
                                assert(out@.params =~= seq![(pc.name@, sv[i as int])]
                                    + rvv.params);
                                assert(node@.statics == children_model_of(node.statics@));
                                assert(find_static(node@.statics, sv[i as int]) is None);
                                assert(node@.param == Some(
                                    SpecParam {
                                        name: pc.name@,
                                        node: Box::new(node_model(*pc.node)),
                                    },
                                ));
                                assert(spec_search(node_model(*pc.node), sv, i as int + 1)
                                    == Some(rvv));
                                let expected = SpecMatch {
                                    routes: rvv.routes,
                                    mws: node@.mws + rvv.mws,
                                    params: seq![(pc.name@, sv[i as int])] + rvv.params,
                                    wildcard: rvv.wildcard,
                                };
                                assert(out@ == expected);
                                assert(spec_search(node@, sv, i as int) == Some(expected));
                                assert(spec_search(node@, sv, i as int) == Some(out@));
                            }
                            Some(out)
                        },
                        None => None,
                    }
                },
                None => {
                    match &node.wildcard {
                        Some(w) => {
                            let captured = join_tail(segs, i);
                            let chain = concat_mws(&node.mws, copy_mws(&w.mws));
                            let out = RouteValueResult {
                                routes: copy_routes(&w.routes),
                                middlewares: chain,
                                params: Vec::new(),
                                wildcard: Some(captured),
                            };
                            proof {
                                assert(out@.params =~= Seq::<(Seq<char>, Seq<char>)>::empty());
                                assert(node@.statics == children_model_of(node.statics@));
                                assert(find_static(node@.statics, sv[i as int]) is None);
                                assert(node@.param is None);
                                assert(node@.wildcard == Some(Box::new(node_model(**w))));
                                let expected = SpecMatch {
                                    routes: node_model(**w).routes,
                                    mws: node@.mws + node_model(**w).mws,
                                    params: Seq::empty(),
                                    wildcard: Some(join_segs(sv, i as int)),
                                };
                                assert(out@ == expected);
                                assert(spec_search(node@, sv, i as int) == Some(expected));
                                assert(spec_search(node@, sv, i as int) == Some(out@));
                            }
                            Some(out)
                        },
                        None => None,
                    }
                },
            }
        },
    }
}

// ---------------------------------------------------------------------------
// Registration: the read-only conflict check, then the insertion. Nothing is
// created unless the whole registration is possible, so a failed call leaves
// the tree exactly as it was.
// ---------------------------------------------------------------------------

fn has_method_idx(routes: &Vec<Route>, m: Method) -> (r: bool)
    ensures
        r == crate::model::has_method(routes@, m),
{
    let mut i: usize = 0;
    while i < routes.len()
        invariant
            i <= routes@.len(),
            forall|k: int| 0 <= k < i ==> routes@[k].method != m,
        decreases routes@.len() - i,
    {
        if routes[i].method == m {
            return true;
        }
        i = i + 1;
    }
    false
}

fn terminal_check_node(node: &TrieNode, act: RegAction) -> (r: Result<(), ObsidianError>)
    ensures
        r == crate::model::terminal_check(node@, act),
{
    match act {
        RegAction::AddRoute(route) => {
            if has_method_idx(&node.routes, route.method) {
                Err(ObsidianError::DuplicateRoute)
            } else {
                Ok(())
            }
        },
        RegAction::AddMw(_) => Ok(()),
    }
}

/// Whether any wildcard in `pat[i..]` stands last.
fn check_tail(pat: &Vec<Resource>, i: usize) -> (r: bool)
    requires
        i <= pat@.len(),
    ensures
        r == tail_valid(pattern_view(pat@), i as int),
{
    let ghost pv = pattern_view(pat@);
    let mut j: usize = i;
    while j < pat.len()
        invariant
            i <= j <= pat@.len(),
            pv == pattern_view(pat@),
            pv.len() == pat@.len(),
            forall|k: int|
                i <= k < j && (#[trigger] pv[k]) is Wildcard ==> k == pv.len() - 1,
        decreases pat@.len() - j,
    {
        proof {
            assert(pv[j as int] == pat@[j as int]@);
        }
        match &pat[j] {
            Resource::Wildcard => {
                if j != pat.len() - 1 {
                    return false;
                }
            },
            _ => {},
        }
        j = j + 1;
    }
    true
}

/// The read-only walk that decides whether a registration is possible, and
/// with which error it is refused.
fn can_insert_node(node: &TrieNode, pat: &Vec<Resource>, i: usize, act: RegAction) -> (r: Result<
    (),
    ObsidianError,
>)
    requires
        i <= pat@.len(),
    ensures
        r == spec_can_insert(node@, pattern_view(pat@), i as int, act),
    decreases pat@.len() - i,
{
    let ghost pv = pattern_view(pat@);
    proof {
        lemma_children_model(node.statics@);
    }
    if i >= pat.len() {
        return terminal_check_node(node, act);
    }
    proof {
        assert(pv[i as int] == pat@[i as int]@);
    }
    match &pat[i] {
        Resource::Static(key) => {
            match find_static_idx(&node.statics, key) {
                Some(j) => {
                    proof {
                        assert(node@.statics[j as int].node == node_model(
                            node.statics@[j as int].node,
                        ));
                    }
                    can_insert_node(&node.statics[j].node, pat, i + 1, act)
                },
                None => {
                    if node.param.is_some() {
                        Err(ObsidianError::RouteConflict)
                    } else if check_tail(pat, i + 1) {
                        Ok(())
                    } else {
                        Err(ObsidianError::RouteConflict)
                    }
                },
            }
        },
        Resource::Param(name) => {
            if node.statics.len() > 0 {
                proof {
                    assert(node@.statics.len() > 0);
                }
                Err(ObsidianError::RouteConflict)
            } else {
                proof {
                    assert(node@.statics.len() == 0);
                }
                match &node.param {
                    Some(pc) => {
                        if pc.name == *name {
                            can_insert_node(&pc.node, pat, i + 1, act)
                        } else {
                            Err(ObsidianError::RouteConflict)
                        }
                    },
                    None => {
                        if check_tail(pat, i + 1) {
                            Ok(())
                        } else {
                            Err(ObsidianError::RouteConflict)
                        }
                    },
                }
            }
        },
        Resource::Wildcard => {
            if i != pat.len() - 1 {
                Err(ObsidianError::RouteConflict)
            } else {
                match &node.wildcard {
                    Some(w) => terminal_check_node(w, act),
                    None => Ok(()),
                }
            }
        },
    }
}

/// Adds the action at an existing terminal node.
fn terminal_apply_node(mut node: TrieNode, act: RegAction) -> (r: TrieNode)
    ensures
        r@ == terminal_apply(node@, act),
{
    let ghost pre = node@;
    match act {
        RegAction::AddRoute(route) => {
            node.routes.push(route);
        },
        RegAction::AddMw(mw) => {
            node.mws.push(mw);
        },
    }
    proof {
        assert(node@ == terminal_apply(pre, act));
    }
    node
}

/// The chain of fresh nodes a pattern tail creates.
fn fresh_chain_node(pat: &Vec<Resource>, i: usize, act: RegAction) -> (r: TrieNode)
    ensures
        r@ == crate::model::fresh_chain(pattern_view(pat@), i as int, act),
    decreases pat@.len() - i,
{
    let ghost pv = pattern_view(pat@);
    if i >= pat.len() {
        return terminal_apply_node(TrieNode::empty(), act);
    }
    proof {
        assert(pv[i as int] == pat@[i as int]@);
    }
    let mut node = TrieNode::empty();
    match &pat[i] {
        Resource::Static(key) => {
            let sub = fresh_chain_node(pat, i + 1, act);
            node.statics.push(
                StaticChild { key: String::from_str(key.as_str()), node: sub },
            );
            proof {
                lemma_children_model(node.statics@);
                assert(node@.statics =~= seq![
                    SpecChild {
                        key: key@,
                        node: crate::model::fresh_chain(pv, i as int + 1, act),
                    },
                ]);
                assert(node@ == crate::model::fresh_chain(pv, i as int, act));
            }
        },
        Resource::Param(name) => {
            let sub = fresh_chain_node(pat, i + 1, act);
            node.param = Some(
                ParamChild { name: String::from_str(name.as_str()), node: Box::new(sub) },
            );
            proof {
                assert(node@.statics =~= Seq::<SpecChild>::empty());
                assert(node@ == crate::model::fresh_chain(pv, i as int, act));
            }
        },
        Resource::Wildcard => {
            node.wildcard = Some(Box::new(terminal_apply_node(TrieNode::empty(), act)));
            proof {
                assert(node@.statics =~= Seq::<SpecChild>::empty());
                assert(node@ == crate::model::fresh_chain(pv, i as int, act));
            }
        },
    }
    node
}

/// Registers `pat[i..]` below `node`. The caller has checked that the
/// registration is possible; the result is the model's insertion, exactly.
fn insert_node(mut node: TrieNode, pat: &Vec<Resource>, i: usize, act: RegAction) -> (r: TrieNode)
    ensures
        r@ == crate::model::spec_insert(node@, pattern_view(pat@), i as int, act),
    decreases pat@.len() - i,
{
    let ghost pre = node@;
    let ghost pv = pattern_view(pat@);
    proof {
        lemma_children_model(node.statics@);
    }
    if i >= pat.len() {
        return terminal_apply_node(node, act);
    }
    proof {
        assert(pv[i as int] == pat@[i as int]@);
    }
    match &pat[i] {
        Resource::Static(key) => {
            match find_static_idx(&node.statics, key) {
                Some(j) => {
                    let ghost prestatics = node.statics@;
                    let child = node.statics.remove(j);
                    let sub = insert_node(child.node, pat, i + 1, act);
                    let newchild = StaticChild { key: child.key, node: sub };
                    node.statics.insert(j, newchild);
                    proof {
                        assert(node.statics@ =~= prestatics.update(j as int, newchild));
                        lemma_children_model(node.statics@);
                        lemma_children_model(prestatics);
                        crate::model::lemma_find_static_props(pre.statics, key@);
                        assert(pre.statics[j as int].key == key@);
                        assert forall|k: int|
                            0 <= k < node.statics@.len() implies #[trigger] node@.statics[k]
                            == pre.statics.update(
                            j as int,
                            SpecChild {
                                key: key@,
                                node: crate::model::spec_insert(
                                    pre.statics[j as int].node,
                                    pv,
                                    i as int + 1,
                                    act,
                                ),
                            },
                        )[k] by {
                            if k != j as int {
                                assert(node.statics@[k] == prestatics[k]);
                            }
                        }
                        assert(node@.statics =~= pre.statics.update(
                            j as int,
                            SpecChild {
                                key: key@,
                                node: crate::model::spec_insert(
                                    pre.statics[j as int].node,
                                    pv,
                                    i as int + 1,
                                    act,
                                ),
                            },
                        ));
                        assert(node@ == crate::model::spec_insert(pre, pv, i as int, act));
                    }
                    node
                },
                None => {
                    let sub = fresh_chain_node(pat, i + 1, act);
                    let ghost prestatics = node.statics@;
                    let newchild = StaticChild { key: String::from_str(key.as_str()), node: sub };
                    node.statics.push(newchild);
                    proof {
                        lemma_children_model(node.statics@);
                        lemma_children_model(prestatics);
                        assert(node.statics@ =~= prestatics.push(newchild));
                        assert(node@.statics =~= pre.statics.push(
                            SpecChild {
                                key: key@,
                                node: crate::model::fresh_chain(pv, i as int + 1, act),
                            },
                        ));
                        assert(node@ == crate::model::spec_insert(pre, pv, i as int, act));
                    }
                    node
                },
            }
        },
        Resource::Param(name) => {
            let taken = node.param.take();
            match taken {
                Some(pc) => {
                    let sub = insert_node(*pc.node, pat, i + 1, act);
                    node.param = Some(ParamChild { name: pc.name, node: Box::new(sub) });
                    proof {
                        assert(node@ == crate::model::spec_insert(pre, pv, i as int, act));
                    }
                    node
                },
                None => {
                    let sub = fresh_chain_node(pat, i + 1, act);
                    node.param = Some(
                        ParamChild { name: String::from_str(name.as_str()), node: Box::new(sub) },
                    );
                    proof {
                        assert(node@ == crate::model::spec_insert(pre, pv, i as int, act));
                    }
                    node
                },
            }
        },
        Resource::Wildcard => {
            let taken = node.wildcard.take();
            match taken {
                Some(w) => {
                    let nw = terminal_apply_node(*w, act);
                    node.wildcard = Some(Box::new(nw));
                    proof {
                        assert(node@ == crate::model::spec_insert(pre, pv, i as int, act));
                    }
                    node
                },
                None => {
                    node.wildcard = Some(Box::new(terminal_apply_node(TrieNode::empty(), act)));
                    proof {
                        assert(node@ == crate::model::spec_insert(pre, pv, i as int, act));
                    }
                    node
                },
            }
        },
    }
}

// ---------------------------------------------------------------------------
// The tree as a whole.
// ---------------------------------------------------------------------------

/// The prefix tree over path segments: insertion, conflict detection,
/// lookup, and sub-tree merge.
pub struct RouteTrie {
    pub root: TrieNode,
}

impl View for RouteTrie {
    type V = SpecTrie;

    open spec fn view(&self) -> SpecTrie {
        self.root@
    }
}

impl Clone for RouteTrie {
    /// A structural copy: the same tree, model for model.
    fn clone(&self) -> (r: Self)
        ensures
            r@ == self@,
    {
        RouteTrie { root: deep_copy(&self.root) }
    }
}

impl RouteTrie {
    pub fn new() -> (r: RouteTrie)
        ensures
            r@ == empty_trie(),
            crate::model::wf(r@),
    {
        let r = RouteTrie { root: TrieNode::empty() };
        proof {
            crate::model::lemma_empty_wf();
        }
        r
    }

    /// Registers the action under the pattern. A refused registration
    /// returns the conflict and leaves the tree untouched.
    pub fn register(&mut self, pat: &Vec<Resource>, act: RegAction) -> (r: Result<
        (),
        ObsidianError,
    >)
        requires
            crate::model::wf(old(self)@),
        ensures
            crate::model::wf(final(self)@),
            match r {
                Ok(()) => spec_can_insert(old(self)@, pattern_view(pat@), 0, act) is Ok
                    && final(self)@ == crate::model::spec_insert(
                    old(self)@,
                    pattern_view(pat@),
                    0,
                    act,
                ),
                Err(e) => spec_can_insert(old(self)@, pattern_view(pat@), 0, act)
                    == Result::<(), ObsidianError>::Err(e) && final(self)@ == old(self)@,
            },
    {
        match can_insert_node(&self.root, pat, 0, act) {
            Err(e) => Err(e),
            Ok(()) => {
                let mut tmp = TrieNode::empty();
                core::mem::swap(&mut self.root, &mut tmp);
                let newroot = insert_node(tmp, pat, 0, act);
                self.root = newroot;
                proof {
                    crate::model::lemma_insert_wf(old(self)@, pattern_view(pat@), 0, act);
                }
                Ok(())
            },
        }
    }

    /// Registers a route under the pattern the path parses to. Fails with
    /// `DuplicateRoute` where the method is already taken at that exact
    /// node, and with `RouteConflict` on an ambiguous pattern; a failed call
    /// leaves the tree untouched.
    pub fn insert_route(&mut self, path: &str, route: Route) -> (r: Result<(), ObsidianError>)
        requires
            crate::model::wf(old(self)@),
        ensures
            crate::model::wf(final(self)@),
            match r {
                Ok(()) => spec_can_insert(
                    old(self)@,
                    spec_parse(path@),
                    0,
                    RegAction::AddRoute(route),
                ) is Ok && final(self)@ == crate::model::spec_insert(
                    old(self)@,
                    spec_parse(path@),
                    0,
                    RegAction::AddRoute(route),
                ),
                Err(e) => spec_can_insert(old(self)@, spec_parse(path@), 0, RegAction::AddRoute(route))
                    == Result::<(), ObsidianError>::Err(e) && final(self)@ == old(self)@,
            },
    {
        let pat = parse_path(path);
        self.register(&pat, RegAction::AddRoute(route))
    }

    /// Appends middleware at the node the path leads to, creating the nodes
    /// of the pattern as registration does.
    pub fn insert_middleware(&mut self, path: &str, mw: Middleware) -> (r: Result<
        (),
        ObsidianError,
    >)
        requires
            crate::model::wf(old(self)@),
        ensures
            crate::model::wf(final(self)@),
            match r {
                Ok(()) => spec_can_insert(old(self)@, spec_parse(path@), 0, RegAction::AddMw(mw))
                    is Ok && final(self)@ == crate::model::spec_insert(
                    old(self)@,
                    spec_parse(path@),
                    0,
                    RegAction::AddMw(mw),
                ),
                Err(e) => spec_can_insert(old(self)@, spec_parse(path@), 0, RegAction::AddMw(mw))
                    == Result::<(), ObsidianError>::Err(e) && final(self)@ == old(self)@,
            },
    {
        let pat = parse_path(path);
        self.register(&pat, RegAction::AddMw(mw))
    }

    /// Appends middleware at the root, so every route inherits it.
    pub fn insert_default_middleware(&mut self, mw: Middleware)
        requires
            crate::model::wf(old(self)@),
        ensures
            crate::model::wf(final(self)@),
            final(self)@ == crate::model::spec_insert(
                old(self)@,
                Seq::<crate::resource::SpecResource>::empty(),
                0,
                RegAction::AddMw(mw),
            ),
            final(self)@.mws == old(self)@.mws.push(mw),
    {
        let pat: Vec<Resource> = Vec::new();
        proof {
            assert(pattern_view(pat@) =~= Seq::<crate::resource::SpecResource>::empty());
        }
        let r = self.register(&pat, RegAction::AddMw(mw));
        proof {
            assert(r is Ok);
        }
    }

    /// Looks a concrete path up. A node that holds a route for any method,
    /// or whose resolved chain holds middleware, is a match; a dead end, or
    /// a bare node with neither, is `RouteNotFound`.
    pub fn search_route(&self, path: &str) -> (r: Result<RouteValueResult, ObsidianError>)
        ensures
            match r {
                Ok(rv) => spec_search(self@, spec_split(path@), 0) == Some(rv@) && (rv@.routes.len()
                    > 0 || rv@.mws.len() > 0),
                Err(e) => e == ObsidianError::RouteNotFound && match spec_search(
                    self@,
                    spec_split(path@),
                    0,
                ) {
                    Some(m) => m.routes.len() == 0 && m.mws.len() == 0,
                    None => true,
                },
            },
    {
        let segs = split_path(path);
        match search_node(&self.root, &segs, 0) {
            Some(rv) => {
                if rv.routes.len() == 0 && rv.middlewares.len() == 0 {
                    Err(ObsidianError::RouteNotFound)
                } else {
                    Ok(rv)
                }
            },
            None => Err(ObsidianError::RouteNotFound),
        }
    }

    /// Merges another tree below the node the path leads to, by replaying
    /// every registration the other tree holds. Any collision fails exactly
    /// as direct registration would, and a failed merge leaves this tree
    /// untouched.
    pub fn insert_sub_route(&mut self, path: &str, sub: &RouteTrie) -> (r: Result<
        (),
        ObsidianError,
    >)
        requires
            crate::model::wf(old(self)@),
        ensures
            crate::model::wf(final(self)@),
            match r {
                Ok(()) => crate::model::spec_replay(
                    old(self)@,
                    crate::model::spec_flatten(sub@, spec_parse(path@)),
                    0,
                ) == Result::<SpecTrie, ObsidianError>::Ok(final(self)@),
                Err(e) => crate::model::spec_replay(
                    old(self)@,
                    crate::model::spec_flatten(sub@, spec_parse(path@)),
                    0,
                ) == Result::<SpecTrie, ObsidianError>::Err(e) && final(self)@ == old(self)@,
            },
    {
        let prefix = parse_path(path);
        let mut regs: Vec<Registration> = Vec::new();
        proof {
            assert(reg_views(regs@) =~= Seq::<crate::model::SpecReg>::empty());
        }
        collect_regs(&sub.root, &prefix, &mut regs);
        let ghost rv = reg_views(regs@);
        proof {
            assert(rv =~= crate::model::spec_flatten(sub@, spec_parse(path@)));
        }
        let mut scratch = RouteTrie { root: deep_copy(&self.root) };
        let mut k: usize = 0;
        while k < regs.len()
            invariant
                k <= regs@.len(),
                rv == reg_views(regs@),
                rv == crate::model::spec_flatten(sub@, spec_parse(path@)),
                crate::model::wf(scratch@),
                crate::model::spec_replay(old(self)@, rv, 0) == crate::model::spec_replay(
                    scratch@,
                    rv,
                    k as int,
                ),
                self@ == old(self)@,
                crate::model::wf(self@),
            decreases regs@.len() - k,
        {
            let ghost pre = scratch@;
            let act = regs[k].act;
            proof {
                assert(rv[k as int] == (pattern_view(regs@[k as int].pat@), act));
            }
            match scratch.register(&regs[k].pat, act) {
                Ok(()) => {
                    proof {
                        assert(crate::model::spec_replay(pre, rv, k as int)
                            == crate::model::spec_replay(scratch@, rv, k as int + 1));
                    }
                    k = k + 1;
                },
                Err(e) => {
                    proof {
                        assert(crate::model::spec_replay(pre, rv, k as int)
                            == Result::<SpecTrie, ObsidianError>::Err(e));
                    }
                    return Err(e);
                },
            }
        }
        proof {
            assert(crate::model::spec_replay(scratch@, rv, regs@.len() as int)
                == Result::<SpecTrie, ObsidianError>::Ok(scratch@));
        }
        self.root = scratch.root;
        Ok(())
    }
}

// ---------------------------------------------------------------------------
// Flattening a tree into the registrations that built it, for merging.
// ---------------------------------------------------------------------------

/// One recorded registration of a tree being merged.
pub struct Registration {
    pub pat: Vec<Resource>,
    pub act: RegAction,
}

impl View for Registration {
    type V = crate::model::SpecReg;

    open spec fn view(&self) -> crate::model::SpecReg {
        (pattern_view(self.pat@), self.act)
    }
}

pub open spec fn reg_views(v: Seq<Registration>) -> Seq<crate::model::SpecReg> {
    v.map_values(|g: Registration| g@)
}

/// A structural copy of a pattern.
fn clone_pattern(pat: &Vec<Resource>) -> (r: Vec<Resource>)
    ensures
        pattern_view(r@) == pattern_view(pat@),
{
    let mut out: Vec<Resource> = Vec::new();
    let mut i: usize = 0;
    proof {
        assert(pattern_view(out@) =~= pattern_view(pat@).take(0));
    }
    while i < pat.len()
        invariant
            i <= pat@.len(),
            pattern_view(out@) == pattern_view(pat@).take(i as int),
        decreases pat@.len() - i,
    {
        let c = pat[i].duplicate();
        proof {
            assert(pattern_view(out@.push(c)) =~= pattern_view(out@).push(c@));
            assert(pattern_view(pat@).take(i as int + 1) =~= pattern_view(pat@).take(
                i as int,
            ).push(pattern_view(pat@)[i as int]));
            assert(pattern_view(pat@)[i as int] == pat@[i as int]@);
        }
        out.push(c);
        i = i + 1;
    }
    proof {
        assert(pattern_view(pat@).take(pat@.len() as int) =~= pattern_view(pat@));
    }
    out
}

/// Appends every registration below `node`, each under `prefix` extended by
/// the segments that reach it.
fn collect_regs(node: &TrieNode, prefix: &Vec<Resource>, out: &mut Vec<Registration>)
    ensures
        reg_views(final(out)@) == reg_views(old(out)@) + crate::model::spec_flatten(
            node@,
            pattern_view(prefix@),
        ),
    decreases *node,
{
    let ghost base = reg_views(out@);
    let ghost pv = pattern_view(prefix@);
    let ghost pa = crate::model::mw_regs(node@, pv);
    let ghost pb = crate::model::route_regs(node@, pv);
    proof {
        lemma_children_model(node.statics@);
    }
    let mut k: usize = 0;
    while k < node.mws.len()
        invariant
            k <= node.mws@.len(),
            pa == crate::model::mw_regs(node@, pv),
            pv == pattern_view(prefix@),
            node@.mws == node.mws@,
            reg_views(out@) == base + pa.take(k as int),
        decreases node.mws@.len() - k,
    {
        let g = Registration { pat: clone_pattern(prefix), act: RegAction::AddMw(node.mws[k]) };
        proof {
            assert(pa.len() == node@.mws.len());
            assert(pa[k as int] == (pv, RegAction::AddMw(node@.mws[k as int])));
            assert(pattern_view(g.pat@) == pv);
            assert(g.act == RegAction::AddMw(node@.mws[k as int]));
            assert(g@ == pa[k as int]);
            assert(reg_views(out@.push(g)) =~= reg_views(out@).push(g@));
            assert(pa.take(k as int + 1) =~= pa.take(k as int).push(pa[k as int]));
        }
        out.push(g);
        k = k + 1;
    }
    proof {
        assert(pa.take(node.mws@.len() as int) =~= pa);
    }
    let mut k2: usize = 0;
    while k2 < node.routes.len()
        invariant
            k2 <= node.routes@.len(),
            pb == crate::model::route_regs(node@, pv),
            pv == pattern_view(prefix@),
            node@.routes == node.routes@,
            reg_views(out@) == base + pa + pb.take(k2 as int),
        decreases node.routes@.len() - k2,
    {
        let g = Registration {
            pat: clone_pattern(prefix),
            act: RegAction::AddRoute(node.routes[k2]),
        };
        proof {
            assert(g@ == pb[k2 as int]);
            assert(reg_views(out@.push(g)) =~= reg_views(out@).push(g@));
            assert(pb.take(k2 as int + 1) =~= pb.take(k2 as int).push(pb[k2 as int]));
            assert(base + pa + pb.take(k2 as int + 1) =~= (base + pa + pb.take(k2 as int)).push(
                pb[k2 as int],
            ));
        }
        out.push(g);
        k2 = k2 + 1;
    }
    proof {
        assert(pb.take(node.routes@.len() as int) =~= pb);
    }
    let mut j: usize = 0;
    while j < node.statics.len()
        invariant
            j <= node.statics@.len(),
            node@.statics.len() == node.statics@.len(),
            node@.statics == children_model_of(node.statics@),
            pv == pattern_view(prefix@),
            reg_views(out@) == base + pa + pb + crate::model::flatten_children(
                node@.statics.take(j as int),
                pv,
            ),
        decreases node.statics@.len() - j,
    {
        proof {
            lemma_children_model(node.statics@);
        }
        let mut pre2 = clone_pattern(prefix);
        pre2.push(Resource::Static(String::from_str(node.statics[j].key.as_str())));
        proof {
            assert(pattern_view(pre2@) =~= pv.push(
                crate::resource::SpecResource::Static(node@.statics[j as int].key),
            ));
        }
        collect_regs(&node.statics[j].node, &pre2, out);
        proof {
            assert(node@.statics[j as int].node == node_model(node.statics@[j as int].node));
            assert(node@.statics.take(j as int + 1) =~= node@.statics.take(j as int).push(
                node@.statics[j as int],
            ));
            crate::model::lemma_flatten_children_push(
                node@.statics.take(j as int),
                node@.statics[j as int],
                pv,
            );
            assert(reg_views(out@) =~= base + pa + pb + crate::model::flatten_children(
                node@.statics.take(j as int + 1),
                pv,
            ));
        }
        j = j + 1;
    }
    proof {
        assert(node@.statics.take(node@.statics.len() as int) =~= node@.statics);
    }
    let ghost pc_part = match node@.param {
        Some(p) => crate::model::spec_flatten(
            *p.node,
            pv.push(crate::resource::SpecResource::Param(p.name)),
        ),
        None => Seq::<crate::model::SpecReg>::empty(),
    };
    match &node.param {
        Some(pc) => {
            let mut pre2 = clone_pattern(prefix);
            pre2.push(Resource::Param(String::from_str(pc.name.as_str())));
            proof {
                assert(pattern_view(pre2@) =~= pv.push(
                    crate::resource::SpecResource::Param(pc.name@),
                ));
            }
            collect_regs(&pc.node, &pre2, out);
        },
        None => {},
    }
    proof {
        assert(reg_views(out@) =~= base + pa + pb + crate::model::flatten_children(
            node@.statics,
            pv,
        ) + pc_part);
    }
    let ghost w_part = match node@.wildcard {
        Some(w) => crate::model::spec_flatten(*w, pv.push(crate::resource::SpecResource::Wildcard)),
        None => Seq::<crate::model::SpecReg>::empty(),
    };
    match &node.wildcard {
        Some(w) => {
            let mut pre2 = clone_pattern(prefix);
            pre2.push(Resource::Wildcard);
            proof {
                assert(pattern_view(pre2@) =~= pv.push(crate::resource::SpecResource::Wildcard));
            }
            collect_regs(w, &pre2, out);
        },
        None => {},
    }
    proof {
        assert(reg_views(out@) =~= base + pa + pb + crate::model::flatten_children(
            node@.statics,
            pv,
        ) + pc_part + w_part);
        assert(crate::model::spec_flatten(node@, pv) == pa + pb
            + crate::model::flatten_children(node@.statics, pv) + pc_part + w_part);
        assert(reg_views(out@) =~= base + crate::model::spec_flatten(node@, pv));
    }
}

/// A structural copy of a whole tree.
fn deep_copy(node: &TrieNode) -> (r: TrieNode)
    ensures
        r@ == node@,
    decreases *node,
{
    proof {
        lemma_children_model(node.statics@);
    }
    let mut statics2: Vec<StaticChild> = Vec::new();
    let mut j: usize = 0;
    while j < node.statics.len()
        invariant
            j <= node.statics@.len(),
            statics2@.len() == j,
            forall|k: int|
                0 <= k < j ==> (#[trigger] statics2@[k]).key@ == node.statics@[k].key@
                    && node_model(statics2@[k].node) == node_model(node.statics@[k].node),
        decreases node.statics@.len() - j,
    {
        let c = StaticChild {
            key: String::from_str(node.statics[j].key.as_str()),
            node: deep_copy(&node.statics[j].node),
        };
        statics2.push(c);
        j = j + 1;
    }
    let param2 = match &node.param {
        Some(pc) => Some(
            ParamChild {
                name: String::from_str(pc.name.as_str()),
                node: Box::new(deep_copy(&pc.node)),
            },
        ),
        None => None,
    };
    let wildcard2 = match &node.wildcard {
        Some(w) => Some(Box::new(deep_copy(w))),
        None => None,
    };
    let r = TrieNode {
        statics: statics2,
        param: param2,
        wildcard: wildcard2,
        routes: copy_routes(&node.routes),
        mws: copy_mws(&node.mws),
    };
    proof {
        lemma_children_model(r.statics@);
        assert(r@.statics =~= node@.statics);
        assert(r@ == node@);
    }
    r
}

} // verus!
