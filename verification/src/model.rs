use vstd::prelude::*;
use crate::error::ObsidianError;
use crate::method::Method;
use crate::resource::SpecResource;
use crate::route::{Middleware, Route};

verus! {

// ---------------------------------------------------------------------------
// The mathematical model of the route trie.
//
// Every executable trie value is abstracted to a `SpecTrie`; all contracts
// and laws of the router are stated over this model.
// ---------------------------------------------------------------------------

/// The model of one trie node: one path-segment position.
pub struct SpecTrie {
    /// Children keyed by literal segment text, in insertion order.
    pub statics: Seq<SpecChild>,
    /// At most one parameter child (its name and subtree).
    pub param: Option<SpecParam>,
    /// At most one wildcard child; always a leaf.
    pub wildcard: Option<Box<SpecTrie>>,
    /// The routes registered directly at this node.
    pub routes: Seq<Route>,
    /// The middleware registered at this node's own scope, in call order.
    pub mws: Seq<Middleware>,
}

pub struct SpecChild {
    pub key: Seq<char>,
    pub node: SpecTrie,
}

pub struct SpecParam {
    pub name: Seq<char>,
    pub node: Box<SpecTrie>,
}

/// What a successful lookup yields: the matched node's routes, the middleware
/// chain concatenated from the root down to the matched node, the text bound
/// to each parameter segment (outermost first), and the remainder captured by
/// a wildcard match, if any.
pub struct SpecMatch {
    pub routes: Seq<Route>,
    pub mws: Seq<Middleware>,
    pub params: Seq<(Seq<char>, Seq<char>)>,
    pub wildcard: Option<Seq<char>>,
}

/// What one registration step adds at the terminal node of its pattern.
#[derive(Clone, Copy, PartialEq, Eq, Structural, Debug)]
pub enum RegAction {
    AddRoute(Route),
    AddMw(Middleware),
}

pub open spec fn empty_trie() -> SpecTrie {
    SpecTrie {
        statics: Seq::empty(),
        param: None,
        wildcard: None,
        routes: Seq::empty(),
        mws: Seq::empty(),
    }
}

/// A node with no children at all.
pub open spec fn is_leaf(t: SpecTrie) -> bool {
    t.statics.len() == 0 && t.param is None && t.wildcard is None
}

/// Well-formedness: literal keys are distinct, methods at one node are
/// distinct, a node never has a parameter child beside literal children,
/// and a wildcard child is a leaf.
pub open spec fn wf(t: SpecTrie) -> bool
    decreases t,
{
    &&& (forall|i: int, j: int|
        0 <= i < j < t.statics.len() ==> t.statics[i].key != t.statics[j].key)
    &&& (forall|i: int, j: int|
        0 <= i < j < t.routes.len() ==> t.routes[i].method != t.routes[j].method)
    &&& (t.param is Some ==> t.statics.len() == 0)
    &&& (forall|i: int| 0 <= i < t.statics.len() ==> wf(#[trigger] t.statics[i].node))
    &&& (t.param matches Some(p) ==> wf(*p.node))
    &&& (t.wildcard matches Some(w) ==> is_leaf(*w) && wf(*w))
}

// ---------------------------------------------------------------------------
// Lookup among literal children: the first child whose key matches.
// ---------------------------------------------------------------------------

pub open spec fn find_static(s: Seq<SpecChild>, key: Seq<char>) -> Option<int>
    decreases s.len(),
{
    if s.len() == 0 {
        None
    } else if s[0].key == key {
        Some(0int)
    } else {
        match find_static(s.drop_first(), key) {
            Some(j) => Some(j + 1),
            None => None,
        }
    }
}

pub proof fn lemma_find_static_props(s: Seq<SpecChild>, key: Seq<char>)
    ensures
        match find_static(s, key) {
            Some(j) => 0 <= j < s.len() && s[j].key == key && (forall|k: int|
                0 <= k < j ==> s[k].key != key),
            None => forall|k: int| 0 <= k < s.len() ==> s[k].key != key,
        },
    decreases s.len(),
{
    if s.len() == 0 {
    } else if s[0].key == key {
    } else {
        lemma_find_static_props(s.drop_first(), key);
        assert forall|k: int| 1 <= k < s.len() implies s.drop_first()[k - 1] == s[k] by {}
    }
}

/// Where a key first occurs is where it is found.
pub proof fn lemma_find_static_at(s: Seq<SpecChild>, key: Seq<char>, j: int)
    requires
        0 <= j < s.len(),
        s[j].key == key,
        forall|k: int| 0 <= k < j ==> s[k].key != key,
    ensures
        find_static(s, key) == Some(j),
    decreases s.len(),
{
    if j == 0 {
    } else {
        assert(s[0].key != key);
        assert forall|k: int| 0 <= k < j - 1 implies s.drop_first()[k].key != key by {
            assert(s.drop_first()[k] == s[k + 1]);
        }
        assert(s.drop_first()[j - 1] == s[j]);
        lemma_find_static_at(s.drop_first(), key, j - 1);
    }
}

/// Two child lists with pointwise-equal keys are searched alike.
pub proof fn lemma_find_static_same_keys(s1: Seq<SpecChild>, s2: Seq<SpecChild>, key: Seq<char>)
    requires
        s1.len() == s2.len(),
        forall|k: int| 0 <= k < s1.len() ==> s1[k].key == s2[k].key,
    ensures
        find_static(s1, key) == find_static(s2, key),
    decreases s1.len(),
{
    if s1.len() == 0 {
    } else {
        assert forall|k: int|
            0 <= k < s1.drop_first().len() implies s1.drop_first()[k].key == s2.drop_first()[k].key
        by {
            assert(s1.drop_first()[k] == s1[k + 1]);
            assert(s2.drop_first()[k] == s2[k + 1]);
        }
        lemma_find_static_same_keys(s1.drop_first(), s2.drop_first(), key);
    }
}

/// Appending a child does not change where earlier keys are found, and a key
/// not found before is found at the appended child if it carries it.
pub proof fn lemma_find_static_push(s: Seq<SpecChild>, c: SpecChild, key: Seq<char>)
    ensures
        match find_static(s, key) {
            Some(j) => find_static(s.push(c), key) == Some(j),
            None => find_static(s.push(c), key) == if c.key == key {
                Some(s.len() as int)
            } else {
                None::<int>
            },
        },
    decreases s.len(),
{
    if s.len() == 0 {
        assert(s.push(c)[0] == c);
        assert(s.push(c).drop_first() =~= Seq::<SpecChild>::empty());
        if c.key == key {
            assert(find_static(s.push(c), key) == Some(0int));
        } else {
            assert(find_static(s.push(c).drop_first(), key) == None::<int>);
            assert(find_static(s.push(c), key) == None::<int>);
        }
    } else {
        assert(s.push(c)[0] == s[0]);
        assert(s.push(c).drop_first() =~= s.drop_first().push(c));
        lemma_find_static_push(s.drop_first(), c, key);
        if s[0].key == key {
            assert(find_static(s, key) == Some(0int));
            assert(find_static(s.push(c), key) == Some(0int));
        } else {
            assert(find_static(s, key) == match find_static(s.drop_first(), key) {
                Some(j) => Some(j + 1),
                None => None::<int>,
            });
            assert(find_static(s.push(c), key) == match find_static(
                s.drop_first().push(c),
                key,
            ) {
                Some(j) => Some(j + 1),
                None => None::<int>,
            });
        }
    }
}

// ---------------------------------------------------------------------------
// Search.
// ---------------------------------------------------------------------------

/// The remaining segments joined back with `/`: what a wildcard captures.
pub open spec fn join_segs(segs: Seq<Seq<char>>, i: int) -> Seq<char>
    decreases segs.len() - i,
{
    if i < 0 || i >= segs.len() {
        Seq::empty()
    } else if i == segs.len() - 1 {
        segs[i]
    } else {
        segs[i] + seq!['/'] + join_segs(segs, i + 1)
    }
}

/// Whether some route at the node answers the method.
pub open spec fn has_method(routes: Seq<Route>, m: Method) -> bool {
    exists|k: int| 0 <= k < routes.len() && routes[k].method == m
}

/// Walking the tree over the path's segments, with the fixed precedence
/// literal > parameter > wildcard and no backtracking. A branch, once
/// chosen, is final. An existing node is a match even if it holds no route.
pub open spec fn spec_search(t: SpecTrie, segs: Seq<Seq<char>>, i: int) -> Option<SpecMatch>
    decreases segs.len() - i,
{
    if i < 0 || i >= segs.len() {
        Some(
            SpecMatch {
                routes: t.routes,
                mws: t.mws,
                params: Seq::empty(),
                wildcard: None,
            },
        )
    } else {
        let sub = match find_static(t.statics, segs[i]) {
            Some(j) => spec_search(t.statics[j].node, segs, i + 1),
            None => match t.param {
                Some(p) => match spec_search(*p.node, segs, i + 1) {
                    Some(m) => Some(
                        SpecMatch {
                            routes: m.routes,
                            mws: m.mws,
                            params: seq![(p.name, segs[i])] + m.params,
                            wildcard: m.wildcard,
                        },
                    ),
                    None => None,
                },
                None => match t.wildcard {
                    Some(w) => Some(
                        SpecMatch {
                            routes: w.routes,
                            mws: w.mws,
                            params: Seq::empty(),
                            wildcard: Some(join_segs(segs, i)),
                        },
                    ),
                    None => None,
                },
            },
        };
        match sub {
            Some(m) => Some(
                SpecMatch {
                    routes: m.routes,
                    mws: t.mws + m.mws,
                    params: m.params,
                    wildcard: m.wildcard,
                },
            ),
            None => None,
        }
    }
}

// ---------------------------------------------------------------------------
// Registration: conflict checking and insertion.
// ---------------------------------------------------------------------------

/// A pattern tail is creatable if any wildcard in it stands last.
pub open spec fn tail_valid(pat: Seq<SpecResource>, i: int) -> bool {
    forall|j: int|
        i <= j < pat.len() && pat[j] is Wildcard ==> j == pat.len() - 1
}

/// What adding the action at an existing terminal node requires.
pub open spec fn terminal_check(t: SpecTrie, act: RegAction) -> Result<(), ObsidianError> {
    match act {
        RegAction::AddRoute(r) => if has_method(t.routes, r.method) {
            Err(ObsidianError::DuplicateRoute)
        } else {
            Ok(())
        },
        RegAction::AddMw(_) => Ok(()),
    }
}

/// Whether registering `pat[i..]` at `t` succeeds, and with which error it
/// fails. Walking is read-only: nothing is created unless the whole
/// registration is possible.
pub open spec fn spec_can_insert(
    t: SpecTrie,
    pat: Seq<SpecResource>,
    i: int,
    act: RegAction,
) -> Result<(), ObsidianError>
    decreases pat.len() - i,
{
    if i < 0 || i >= pat.len() {
        terminal_check(t, act)
    } else {
        match pat[i] {
            SpecResource::Static(key) => match find_static(t.statics, key) {
                Some(j) => spec_can_insert(t.statics[j].node, pat, i + 1, act),
                None => if t.param is Some {
                    Err(ObsidianError::RouteConflict)
                } else if tail_valid(pat, i + 1) {
                    Ok(())
                } else {
                    Err(ObsidianError::RouteConflict)
                },
            },
            SpecResource::Param(name) => if t.statics.len() > 0 {
                Err(ObsidianError::RouteConflict)
            } else {
                match t.param {
                    Some(p) => if p.name == name {
                        spec_can_insert(*p.node, pat, i + 1, act)
                    } else {
                        Err(ObsidianError::RouteConflict)
                    },
                    None => if tail_valid(pat, i + 1) {
                        Ok(())
                    } else {
                        Err(ObsidianError::RouteConflict)
                    },
                }
            },
            SpecResource::Wildcard => if i != pat.len() - 1 {
                Err(ObsidianError::RouteConflict)
            } else {
                match t.wildcard {
                    Some(w) => terminal_check(*w, act),
                    None => Ok(()),
                }
            },
        }
    }
}

pub open spec fn terminal_apply(t: SpecTrie, act: RegAction) -> SpecTrie {
    match act {
        RegAction::AddRoute(r) => SpecTrie {
            statics: t.statics,
            param: t.param,
            wildcard: t.wildcard,
            routes: t.routes.push(r),
            mws: t.mws,
        },
        RegAction::AddMw(m) => SpecTrie {
            statics: t.statics,
            param: t.param,
            wildcard: t.wildcard,
            routes: t.routes,
            mws: t.mws.push(m),
        },
    }
}

/// The chain of fresh nodes a pattern tail creates, ending at the action.
pub open spec fn fresh_chain(pat: Seq<SpecResource>, i: int, act: RegAction) -> SpecTrie
    decreases pat.len() - i,
{
    if i < 0 || i >= pat.len() {
        terminal_apply(empty_trie(), act)
    } else {
        match pat[i] {
            SpecResource::Static(key) => SpecTrie {
                statics: seq![SpecChild { key, node: fresh_chain(pat, i + 1, act) }],
                param: None,
                wildcard: None,
                routes: Seq::empty(),
                mws: Seq::empty(),
            },
            SpecResource::Param(name) => SpecTrie {
                statics: Seq::empty(),
                param: Some(SpecParam { name, node: Box::new(fresh_chain(pat, i + 1, act)) }),
                wildcard: None,
                routes: Seq::empty(),
                mws: Seq::empty(),
            },
            SpecResource::Wildcard => SpecTrie {
                statics: Seq::empty(),
                param: None,
                wildcard: Some(Box::new(terminal_apply(empty_trie(), act))),
                routes: Seq::empty(),
                mws: Seq::empty(),
            },
        }
    }
}

/// The tree after registering `pat[i..]` at `t`. Meaningful where
/// `spec_can_insert` allows it.
pub open spec fn spec_insert(
    t: SpecTrie,
    pat: Seq<SpecResource>,
    i: int,
    act: RegAction,
) -> SpecTrie
    decreases pat.len() - i,
{
    if i < 0 || i >= pat.len() {
        terminal_apply(t, act)
    } else {
        match pat[i] {
            SpecResource::Static(key) => match find_static(t.statics, key) {
                Some(j) => SpecTrie {
                    statics: t.statics.update(
                        j,
                        SpecChild { key, node: spec_insert(t.statics[j].node, pat, i + 1, act) },
                    ),
                    param: t.param,
                    wildcard: t.wildcard,
                    routes: t.routes,
                    mws: t.mws,
                },
                None => SpecTrie {
                    statics: t.statics.push(
                        SpecChild { key, node: fresh_chain(pat, i + 1, act) },
                    ),
                    param: t.param,
                    wildcard: t.wildcard,
                    routes: t.routes,
                    mws: t.mws,
                },
            },
            SpecResource::Param(name) => match t.param {
                Some(p) => SpecTrie {
                    statics: t.statics,
                    param: Some(
                        SpecParam {
                            name: p.name,
                            node: Box::new(spec_insert(*p.node, pat, i + 1, act)),
                        },
                    ),
                    wildcard: t.wildcard,
                    routes: t.routes,
                    mws: t.mws,
                },
                None => SpecTrie {
                    statics: t.statics,
                    param: Some(
                        SpecParam { name, node: Box::new(fresh_chain(pat, i + 1, act)) },
                    ),
                    wildcard: t.wildcard,
                    routes: t.routes,
                    mws: t.mws,
                },
            },
            SpecResource::Wildcard => match t.wildcard {
                Some(w) => SpecTrie {
                    statics: t.statics,
                    param: t.param,
                    wildcard: Some(Box::new(terminal_apply(*w, act))),
                    routes: t.routes,
                    mws: t.mws,
                },
                None => SpecTrie {
                    statics: t.statics,
                    param: t.param,
                    wildcard: Some(Box::new(terminal_apply(empty_trie(), act))),
                    routes: t.routes,
                    mws: t.mws,
                },
            },
        }
    }
}

// ---------------------------------------------------------------------------
// Insertion keeps the tree well-formed.
// ---------------------------------------------------------------------------

pub proof fn lemma_empty_wf()
    ensures
        wf(empty_trie()),
{
}

pub proof fn lemma_terminal_apply_wf(t: SpecTrie, act: RegAction)
    requires
        wf(t),
        terminal_check(t, act) is Ok,
    ensures
        wf(terminal_apply(t, act)),
        is_leaf(t) ==> is_leaf(terminal_apply(t, act)),
{
    let t2 = terminal_apply(t, act);
    match act {
        RegAction::AddRoute(r) => {
            assert forall|i: int, j: int|
                0 <= i < j < t2.routes.len() implies t2.routes[i].method != t2.routes[j].method
            by {
                if j == t.routes.len() as int {
                    assert(t2.routes[j] == r);
                    assert(!has_method(t.routes, r.method));
                    assert(t2.routes[i] == t.routes[i]);
                }
            }
        },
        RegAction::AddMw(_) => {},
    }
}

pub proof fn lemma_fresh_chain_wf(pat: Seq<SpecResource>, i: int, act: RegAction)
    requires
        tail_valid(pat, i),
    ensures
        wf(fresh_chain(pat, i, act)),
    decreases pat.len() - i,
{
    lemma_empty_wf();
    lemma_terminal_apply_wf(empty_trie(), act);
    if i < 0 || i >= pat.len() {
    } else {
        match pat[i] {
            SpecResource::Static(key) => {
                lemma_fresh_chain_wf(pat, i + 1, act);
            },
            SpecResource::Param(name) => {
                lemma_fresh_chain_wf(pat, i + 1, act);
            },
            SpecResource::Wildcard => {},
        }
    }
}

pub proof fn lemma_insert_wf(t: SpecTrie, pat: Seq<SpecResource>, i: int, act: RegAction)
    requires
        wf(t),
        spec_can_insert(t, pat, i, act) is Ok,
    ensures
        wf(spec_insert(t, pat, i, act)),
    decreases pat.len() - i,
{
    let t2 = spec_insert(t, pat, i, act);
    if i < 0 || i >= pat.len() {
        lemma_terminal_apply_wf(t, act);
    } else {
        match pat[i] {
            SpecResource::Static(key) => {
                match find_static(t.statics, key) {
                    Some(j) => {
                        lemma_find_static_props(t.statics, key);
                        lemma_insert_wf(t.statics[j].node, pat, i + 1, act);
                        assert forall|a: int, b: int|
                            0 <= a < b < t2.statics.len() implies t2.statics[a].key
                            != t2.statics[b].key by {
                            assert(t2.statics[a].key == t.statics[a].key);
                            assert(t2.statics[b].key == t.statics[b].key);
                        }
                        assert forall|a: int|
                            0 <= a < t2.statics.len() implies wf(#[trigger] t2.statics[a].node)
                        by {
                            if a != j {
                                assert(t2.statics[a] == t.statics[a]);
                            }
                        }
                    },
                    None => {
                        lemma_find_static_props(t.statics, key);
                        lemma_fresh_chain_wf(pat, i + 1, act);
                        assert forall|a: int, b: int|
                            0 <= a < b < t2.statics.len() implies t2.statics[a].key
                            != t2.statics[b].key by {
                            if b == t.statics.len() as int {
                                assert(t2.statics[a] == t.statics[a]);
                                assert(t2.statics[b].key == key);
                            } else {
                                assert(t2.statics[a] == t.statics[a]);
                                assert(t2.statics[b] == t.statics[b]);
                            }
                        }
                        assert forall|a: int|
                            0 <= a < t2.statics.len() implies wf(#[trigger] t2.statics[a].node)
                        by {
                            if a < t.statics.len() {
                                assert(t2.statics[a] == t.statics[a]);
                            } else {
                                assert(t2.statics[a].node == fresh_chain(pat, i + 1, act));
                            }
                        }
                    },
                }
            },
            SpecResource::Param(name) => {
                match t.param {
                    Some(p) => {
                        lemma_insert_wf(*p.node, pat, i + 1, act);
                    },
                    None => {
                        lemma_fresh_chain_wf(pat, i + 1, act);
                    },
                }
            },
            SpecResource::Wildcard => {
                match t.wildcard {
                    Some(w) => {
                        lemma_terminal_apply_wf(*w, act);
                    },
                    None => {
                        lemma_empty_wf();
                        lemma_terminal_apply_wf(empty_trie(), act);
                    },
                }
            },
        }
    }
}

// ---------------------------------------------------------------------------
// Replaying a list of registrations: how one tree is merged into another.
// ---------------------------------------------------------------------------

/// One recorded registration: a full pattern and what it adds at the end.
pub type SpecReg = (Seq<SpecResource>, RegAction);

/// Registers each entry in turn; the first failure wins and nothing after it
/// is applied.
pub open spec fn spec_replay(t: SpecTrie, regs: Seq<SpecReg>, i: int) -> Result<
    SpecTrie,
    ObsidianError,
>
    decreases regs.len() - i,
{
    if i < 0 || i >= regs.len() {
        Ok(t)
    } else {
        match spec_can_insert(t, regs[i].0, 0, regs[i].1) {
            Ok(()) => spec_replay(spec_insert(t, regs[i].0, 0, regs[i].1), regs, i + 1),
            Err(e) => Err(e),
        }
    }
}

/// The middleware registrations of one node, in call order.
pub open spec fn mw_regs(t: SpecTrie, prefix: Seq<SpecResource>) -> Seq<SpecReg> {
    Seq::new(t.mws.len(), |k: int| (prefix, RegAction::AddMw(t.mws[k])))
}

/// The route registrations of one node.
pub open spec fn route_regs(t: SpecTrie, prefix: Seq<SpecResource>) -> Seq<SpecReg> {
    Seq::new(t.routes.len(), |k: int| (prefix, RegAction::AddRoute(t.routes[k])))
}

/// Every registration a tree holds, each under the pattern that reaches it:
/// this node's middleware and routes first, the literal children in order,
/// the parameter child, the wildcard child last.
pub open spec fn spec_flatten(t: SpecTrie, prefix: Seq<SpecResource>) -> Seq<SpecReg>
    decreases t,
{
    mw_regs(t, prefix) + route_regs(t, prefix) + flatten_children(t.statics, prefix) + (match t.param {
        Some(p) => spec_flatten(*p.node, prefix.push(SpecResource::Param(p.name))),
        None => Seq::empty(),
    }) + (match t.wildcard {
        Some(w) => spec_flatten(*w, prefix.push(SpecResource::Wildcard)),
        None => Seq::empty(),
    })
}

pub open spec fn flatten_children(s: Seq<SpecChild>, prefix: Seq<SpecResource>) -> Seq<SpecReg>
    decreases s,
{
    if s.len() == 0 {
        Seq::empty()
    } else {
        spec_flatten(s[0].node, prefix.push(SpecResource::Static(s[0].key)))
            + flatten_children(s.drop_first(), prefix)
    }
}

// ---------------------------------------------------------------------------
// Literal routes: the pattern a plain path registers, and what holds of it.
// ---------------------------------------------------------------------------

/// The pattern of a path with only literal segments.
pub open spec fn literal_pattern(segs: Seq<Seq<char>>) -> Seq<SpecResource> {
    segs.map_values(|s: Seq<char>| SpecResource::Static(s))
}

/// The tree holds a route for the method at the end of the literal path
/// `segs[i..]`, every step over an exact literal child.
pub open spec fn literal_found(t: SpecTrie, segs: Seq<Seq<char>>, i: int, m: Method) -> bool
    decreases segs.len() - i,
{
    if i < 0 || i >= segs.len() {
        has_method(t.routes, m)
    } else {
        match find_static(t.statics, segs[i]) {
            Some(j) => literal_found(t.statics[j].node, segs, i + 1, m),
            None => false,
        }
    }
}

/// A literally held route is what a lookup of that very path returns:
/// literal children take precedence, so the walk follows the same children.
pub proof fn lemma_literal_found_search(t: SpecTrie, segs: Seq<Seq<char>>, i: int, m: Method)
    requires
        literal_found(t, segs, i, m),
    ensures
        spec_search(t, segs, i) matches Some(mm) && has_method(mm.routes, m),
    decreases segs.len() - i,
{
    if i < 0 || i >= segs.len() {
    } else {
        let j = find_static(t.statics, segs[i])->Some_0;
        lemma_literal_found_search(t.statics[j].node, segs, i + 1, m);
    }
}

/// A fresh literal chain ends at its route.
pub proof fn lemma_fresh_literal_found(segs: Seq<Seq<char>>, i: int, r: Route)
    requires
        0 <= i <= segs.len(),
    ensures
        literal_found(fresh_chain(literal_pattern(segs), i, RegAction::AddRoute(r)), segs, i, r.method),
    decreases segs.len() - i,
{
    let pat = literal_pattern(segs);
    let f = fresh_chain(pat, i, RegAction::AddRoute(r));
    if i >= segs.len() {
        assert(f.routes == Seq::<Route>::empty().push(r));
        assert(f.routes[0] == r);
    } else {
        assert(pat[i] == SpecResource::Static(segs[i]));
        lemma_fresh_literal_found(segs, i + 1, r);
        assert(f.statics[0].key == segs[i]);
        assert(find_static(f.statics, segs[i]) == Some(0int));
        assert(f.statics[0].node == fresh_chain(pat, i + 1, RegAction::AddRoute(r)));
    }
}

/// Registering a route under a literal path puts it where the literal walk
/// finds it.
pub proof fn lemma_insert_literal_found(t: SpecTrie, segs: Seq<Seq<char>>, i: int, r: Route)
    requires
        0 <= i <= segs.len(),
        spec_can_insert(t, literal_pattern(segs), i, RegAction::AddRoute(r)) is Ok,
    ensures
        literal_found(
            spec_insert(t, literal_pattern(segs), i, RegAction::AddRoute(r)),
            segs,
            i,
            r.method,
        ),
    decreases segs.len() - i,
{
    let pat = literal_pattern(segs);
    let act = RegAction::AddRoute(r);
    let t2 = spec_insert(t, pat, i, act);
    if i >= segs.len() {
        assert(t2.routes == t.routes.push(r));
        assert(t2.routes[t.routes.len() as int] == r);
    } else {
        assert(pat[i] == SpecResource::Static(segs[i]));
        match find_static(t.statics, segs[i]) {
            Some(j) => {
                lemma_find_static_props(t.statics, segs[i]);
                lemma_insert_literal_found(t.statics[j].node, segs, i + 1, r);
                assert forall|k: int|
                    0 <= k < t2.statics.len() implies t2.statics[k].key == t.statics[k].key by {
                    if k != j {
                        assert(t2.statics[k] == t.statics[k]);
                    }
                }
                lemma_find_static_same_keys(t2.statics, t.statics, segs[i]);
                assert(t2.statics[j].node == spec_insert(t.statics[j].node, pat, i + 1, act));
            },
            None => {
                let c = SpecChild { key: segs[i], node: fresh_chain(pat, i + 1, act) };
                lemma_find_static_push(t.statics, c, segs[i]);
                assert(find_static(t2.statics, segs[i]) == Some(t.statics.len() as int));
                assert(t2.statics[t.statics.len() as int] == c);
                lemma_fresh_literal_found(segs, i + 1, r);
            },
        }
    }
}

/// Registering the same literal path and method again is refused as a
/// duplicate, whatever handler comes with it.
pub proof fn lemma_literal_found_duplicate(t: SpecTrie, segs: Seq<Seq<char>>, i: int, r: Route)
    requires
        0 <= i <= segs.len(),
        literal_found(t, segs, i, r.method),
    ensures
        spec_can_insert(t, literal_pattern(segs), i, RegAction::AddRoute(r)) == Result::<
            (),
            ObsidianError,
        >::Err(ObsidianError::DuplicateRoute),
    decreases segs.len() - i,
{
    let pat = literal_pattern(segs);
    if i >= segs.len() {
    } else {
        assert(pat[i] == SpecResource::Static(segs[i]));
        let j = find_static(t.statics, segs[i])->Some_0;
        lemma_literal_found_duplicate(t.statics[j].node, segs, i + 1, r);
    }
}

/// No registration, of whatever pattern or kind, removes a literally held
/// route: literal children and the routes at their nodes only grow.
pub proof fn lemma_insert_preserves_literal_found(
    t: SpecTrie,
    segs: Seq<Seq<char>>,
    si: int,
    m: Method,
    pat: Seq<SpecResource>,
    pi: int,
    act: RegAction,
)
    requires
        literal_found(t, segs, si, m),
    ensures
        literal_found(spec_insert(t, pat, pi, act), segs, si, m),
    decreases pat.len() - pi,
{
    let t2 = spec_insert(t, pat, pi, act);
    if pi < 0 || pi >= pat.len() {
        if si < 0 || si >= segs.len() {
            let k = choose|k: int| 0 <= k < t.routes.len() && t.routes[k].method == m;
            assert(t2.routes[k] == t.routes[k]);
        } else {
            assert(t2.statics == t.statics);
        }
    } else {
        match pat[pi] {
            SpecResource::Static(key) => {
                match find_static(t.statics, key) {
                    Some(j) => {
                        lemma_find_static_props(t.statics, key);
                        if si < 0 || si >= segs.len() {
                        } else {
                            let k = find_static(t.statics, segs[si])->Some_0;
                            lemma_find_static_props(t.statics, segs[si]);
                            assert forall|a: int|
                                0 <= a < t2.statics.len() implies t2.statics[a].key
                                == t.statics[a].key by {
                                if a != j {
                                    assert(t2.statics[a] == t.statics[a]);
                                }
                            }
                            lemma_find_static_same_keys(t2.statics, t.statics, segs[si]);
                            if k == j {
                                lemma_insert_preserves_literal_found(
                                    t.statics[j].node,
                                    segs,
                                    si + 1,
                                    m,
                                    pat,
                                    pi + 1,
                                    act,
                                );
                            } else {
                                assert(t2.statics[k] == t.statics[k]);
                            }
                        }
                    },
                    None => {
                        if si < 0 || si >= segs.len() {
                        } else {
                            let k = find_static(t.statics, segs[si])->Some_0;
                            lemma_find_static_props(t.statics, segs[si]);
                            let c = SpecChild {
                                key,
                                node: fresh_chain(pat, pi + 1, act),
                            };
                            lemma_find_static_push(t.statics, c, segs[si]);
                            assert(find_static(t2.statics, segs[si]) == Some(k));
                            assert(t2.statics[k] == t.statics[k]);
                        }
                    },
                }
            },
            SpecResource::Param(name) => {
                if si < 0 || si >= segs.len() {
                } else {
                    assert(t2.statics == t.statics);
                }
            },
            SpecResource::Wildcard => {
                if si < 0 || si >= segs.len() {
                } else {
                    assert(t2.statics == t.statics);
                }
            },
        }
    }
}

/// A replayed merge preserves every literally held route of the target.
pub proof fn lemma_replay_preserves_literal_found(
    t: SpecTrie,
    regs: Seq<SpecReg>,
    i: int,
    segs: Seq<Seq<char>>,
    m: Method,
)
    requires
        literal_found(t, segs, 0, m),
        spec_replay(t, regs, i) is Ok,
    ensures
        literal_found(spec_replay(t, regs, i)->Ok_0, segs, 0, m),
    decreases regs.len() - i,
{
    if i < 0 || i >= regs.len() {
    } else {
        let t2 = spec_insert(t, regs[i].0, 0, regs[i].1);
        lemma_insert_preserves_literal_found(t, segs, 0, m, regs[i].0, 0, regs[i].1);
        lemma_replay_preserves_literal_found(t2, regs, i + 1, segs, m);
    }
}

/// A merge whose replayed list registers a method the target already holds
/// at the same literal path is refused.
pub proof fn lemma_replay_duplicate(
    t: SpecTrie,
    regs: Seq<SpecReg>,
    i: int,
    k: int,
    segs: Seq<Seq<char>>,
    m: Method,
)
    requires
        literal_found(t, segs, 0, m),
        0 <= i <= k < regs.len(),
        regs[k].0 == literal_pattern(segs),
        regs[k].1 matches RegAction::AddRoute(r2) && r2.method == m,
    ensures
        spec_replay(t, regs, i) is Err,
    decreases k - i,
{
    if i == k {
        let r2 = regs[k].1->AddRoute_0;
        lemma_literal_found_duplicate(t, segs, 0, Route { method: m, handler: r2.handler });
        assert(spec_can_insert(t, regs[k].0, 0, regs[k].1) == Result::<(), ObsidianError>::Err(
            ObsidianError::DuplicateRoute,
        ));
    } else {
        match spec_can_insert(t, regs[i].0, 0, regs[i].1) {
            Ok(()) => {
                let t2 = spec_insert(t, regs[i].0, 0, regs[i].1);
                lemma_insert_preserves_literal_found(t, segs, 0, m, regs[i].0, 0, regs[i].1);
                lemma_replay_duplicate(t2, regs, i + 1, k, segs, m);
            },
            Err(e) => {},
        }
    }
}

/// Every literal route a successful merge replays is literally held
/// afterwards.
pub proof fn lemma_replay_reaches(
    t: SpecTrie,
    regs: Seq<SpecReg>,
    i: int,
    k: int,
    segs: Seq<Seq<char>>,
    r: Route,
)
    requires
        spec_replay(t, regs, i) is Ok,
        0 <= i <= k < regs.len(),
        regs[k].0 == literal_pattern(segs),
        regs[k].1 == RegAction::AddRoute(r),
    ensures
        literal_found(spec_replay(t, regs, i)->Ok_0, segs, 0, r.method),
    decreases regs.len() - i,
{
    let t2 = spec_insert(t, regs[i].0, 0, regs[i].1);
    if i == k {
        assert(literal_pattern(segs).len() == segs.len());
        lemma_insert_literal_found(t, segs, 0, r);
        lemma_replay_preserves_literal_found(t2, regs, i + 1, segs, r.method);
    } else {
        lemma_replay_reaches(t2, regs, i + 1, k, segs, r);
    }
}

proof fn lemma_concat_contains<A>(a: Seq<A>, b: Seq<A>, x: A)
    requires
        a.contains(x) || b.contains(x),
    ensures
        (a + b).contains(x),
{
    if a.contains(x) {
        let k = choose|k: int| 0 <= k < a.len() && a[k] == x;
        assert((a + b)[k] == x);
    } else {
        let k = choose|k: int| 0 <= k < b.len() && b[k] == x;
        assert((a + b)[a.len() + k] == x);
    }
}

/// What one child's subtree registers, the whole child list registers.
proof fn lemma_flatten_children_contains(
    s: Seq<SpecChild>,
    j: int,
    prefix: Seq<SpecResource>,
    e: SpecReg,
)
    requires
        0 <= j < s.len(),
        spec_flatten(s[j].node, prefix.push(SpecResource::Static(s[j].key))).contains(e),
    ensures
        flatten_children(s, prefix).contains(e),
    decreases j,
{
    if j == 0 {
        lemma_concat_contains(
            spec_flatten(s[0].node, prefix.push(SpecResource::Static(s[0].key))),
            flatten_children(s.drop_first(), prefix),
            e,
        );
    } else {
        assert(s.drop_first()[j - 1] == s[j]);
        lemma_flatten_children_contains(s.drop_first(), j - 1, prefix, e);
        lemma_concat_contains(
            spec_flatten(s[0].node, prefix.push(SpecResource::Static(s[0].key))),
            flatten_children(s.drop_first(), prefix),
            e,
        );
    }
}

/// A route the tree holds at a literal path appears in its flattening,
/// under the prefix extended by that very path.
pub proof fn lemma_flatten_has_literal_route(
    t: SpecTrie,
    prefix: Seq<SpecResource>,
    segs: Seq<Seq<char>>,
    i: int,
    m: Method,
)
    requires
        0 <= i <= segs.len(),
        literal_found(t, segs, i, m),
    ensures
        exists|rr: Route|
            rr.method == m && #[trigger] spec_flatten(t, prefix).contains(
                (prefix + literal_pattern(segs.skip(i)), RegAction::AddRoute(rr)),
            ),
    decreases segs.len() - i,
{
    let fl = spec_flatten(t, prefix);
    let pa = mw_regs(t, prefix);
    let pb = route_regs(t, prefix);
    let pc = flatten_children(t.statics, prefix);
    let pd = match t.param {
        Some(p) => spec_flatten(*p.node, prefix.push(SpecResource::Param(p.name))),
        None => Seq::<SpecReg>::empty(),
    };
    let pe = match t.wildcard {
        Some(w) => spec_flatten(*w, prefix.push(SpecResource::Wildcard)),
        None => Seq::<SpecReg>::empty(),
    };
    assert(fl == pa + pb + pc + pd + pe);
    if i >= segs.len() {
        let ki = choose|ki: int| 0 <= ki < t.routes.len() && t.routes[ki].method == m;
        let rr = t.routes[ki];
        assert(segs.skip(i) =~= Seq::<Seq<char>>::empty());
        assert(literal_pattern(segs.skip(i)) =~= Seq::<SpecResource>::empty());
        assert(prefix + literal_pattern(segs.skip(i)) =~= prefix);
        let e = (prefix, RegAction::AddRoute(rr));
        assert(pb[ki] == e);
        assert(pb.contains(e));
        lemma_concat_contains(pa, pb, e);
        lemma_concat_contains(pa + pb, pc, e);
        lemma_concat_contains(pa + pb + pc, pd, e);
        lemma_concat_contains(pa + pb + pc + pd, pe, e);
        assert(rr.method == m && spec_flatten(t, prefix).contains(
            (prefix + literal_pattern(segs.skip(i)), RegAction::AddRoute(rr)),
        ));
    } else {
        let j = find_static(t.statics, segs[i])->Some_0;
        lemma_find_static_props(t.statics, segs[i]);
        let prefix2 = prefix.push(SpecResource::Static(segs[i]));
        lemma_flatten_has_literal_route(t.statics[j].node, prefix2, segs, i + 1, m);
        let rr = choose|rr: Route|
            rr.method == m && #[trigger] spec_flatten(t.statics[j].node, prefix2).contains(
                (prefix2 + literal_pattern(segs.skip(i + 1)), RegAction::AddRoute(rr)),
            );
        assert(prefix2 + literal_pattern(segs.skip(i + 1)) =~= prefix + literal_pattern(
            segs.skip(i),
        )) by {
            assert(literal_pattern(segs.skip(i)).len() == segs.len() - i);
            assert forall|n: int|
                0 <= n < segs.len() - i implies #[trigger] literal_pattern(segs.skip(i))[n]
                == SpecResource::Static(segs[i + n]) by {
                assert(segs.skip(i)[n] == segs[i + n]);
            }
            assert forall|n: int|
                0 <= n < segs.len() - i - 1 implies #[trigger] literal_pattern(segs.skip(i + 1))[n]
                == SpecResource::Static(segs[i + 1 + n]) by {
                assert(segs.skip(i + 1)[n] == segs[i + 1 + n]);
            }
        }
        let e = (prefix + literal_pattern(segs.skip(i)), RegAction::AddRoute(rr));
        assert(t.statics[j].key == segs[i]);
        assert(spec_flatten(t.statics[j].node, prefix.push(
            SpecResource::Static(t.statics[j].key),
        )).contains(e));
        lemma_flatten_children_contains(t.statics, j, prefix, e);
        lemma_concat_contains(pa + pb, pc, e);
        lemma_concat_contains(pa + pb + pc, pd, e);
        lemma_concat_contains(pa + pb + pc + pd, pe, e);
        assert(rr.method == m && spec_flatten(t, prefix).contains(e));
    }
}

/// Flattening child by child from the front appends at the back.
pub proof fn lemma_flatten_children_push(s: Seq<SpecChild>, c: SpecChild, p: Seq<SpecResource>)
    ensures
        flatten_children(s.push(c), p) == flatten_children(s, p) + spec_flatten(
            c.node,
            p.push(SpecResource::Static(c.key)),
        ),
    decreases s.len(),
{
    if s.len() == 0 {
        assert(s.push(c)[0] == c);
        assert(s.push(c).drop_first() =~= Seq::<SpecChild>::empty());
        assert(flatten_children(Seq::<SpecChild>::empty(), p) == Seq::<SpecReg>::empty());
        assert(flatten_children(s.push(c), p) == spec_flatten(
            c.node,
            p.push(SpecResource::Static(c.key)),
        ) + Seq::<SpecReg>::empty());
        assert(flatten_children(s, p) == Seq::<SpecReg>::empty());
        assert(flatten_children(s.push(c), p) =~= flatten_children(s, p) + spec_flatten(
            c.node,
            p.push(SpecResource::Static(c.key)),
        ));
    } else {
        assert(s.push(c)[0] == s[0]);
        assert(s.push(c).drop_first() =~= s.drop_first().push(c));
        lemma_flatten_children_push(s.drop_first(), c, p);
        assert(flatten_children(s.push(c), p) == spec_flatten(
            s[0].node,
            p.push(SpecResource::Static(s[0].key)),
        ) + flatten_children(s.drop_first().push(c), p));
        assert(flatten_children(s, p) == spec_flatten(
            s[0].node,
            p.push(SpecResource::Static(s[0].key)),
        ) + flatten_children(s.drop_first(), p));
        assert(flatten_children(s.push(c), p) =~= flatten_children(s, p) + spec_flatten(
            c.node,
            p.push(SpecResource::Static(c.key)),
        ));
    }
}

} // verus!
