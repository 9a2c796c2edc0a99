use vstd::prelude::*;
use crate::context::{spec_trace, ChainEvent};
use crate::error::ObsidianError;
use crate::method::Method;
use crate::model::{
    empty_trie, find_static, has_method, join_segs, lemma_find_static_props,
    lemma_find_static_push, lemma_find_static_same_keys, lemma_insert_literal_found,
    lemma_insert_preserves_literal_found, lemma_literal_found_duplicate,
    lemma_literal_found_search, lemma_replay_duplicate, lemma_replay_preserves_literal_found,
    lemma_replay_reaches, literal_found, literal_pattern, spec_can_insert, spec_insert,
    spec_replay, spec_search, RegAction, SpecChild, SpecReg, SpecTrie,
};
use crate::resource::SpecResource;
use crate::route::{Handler, Middleware, Route};

verus! {

// ---------------------------------------------------------------------------
// The laws of the router, each a statement over the tree model that the
// public operations' contracts speak in.
// ---------------------------------------------------------------------------

/// A route registered under a literal path is returned by a lookup of that
/// very path: the match holds a route for the registered method.
pub proof fn law_registered_route_found(t: SpecTrie, segs: Seq<Seq<char>>, r: Route)
    requires
        spec_can_insert(t, literal_pattern(segs), 0, RegAction::AddRoute(r)) is Ok,
    ensures
        spec_search(spec_insert(t, literal_pattern(segs), 0, RegAction::AddRoute(r)), segs, 0)
            matches Some(m) && has_method(m.routes, r.method),
{
    assert(literal_pattern(segs).len() == segs.len());
    let t2 = spec_insert(t, literal_pattern(segs), 0, RegAction::AddRoute(r));
    lemma_insert_literal_found(t, segs, 0, r);
    lemma_literal_found_search(t2, segs, 0, r.method);
}

/// No later registration, of whatever pattern or kind, takes a literally
/// held route away: together with the law above, every registered
/// (method, literal path) pair stays found for the router's whole life.
pub proof fn law_registration_preserves_found(
    t: SpecTrie,
    segs: Seq<Seq<char>>,
    m: Method,
    pat: Seq<SpecResource>,
    act: RegAction,
)
    requires
        literal_found(t, segs, 0, m),
    ensures
        literal_found(spec_insert(t, pat, 0, act), segs, 0, m),
        spec_search(spec_insert(t, pat, 0, act), segs, 0) matches Some(mm) && has_method(
            mm.routes,
            m,
        ),
{
    lemma_insert_preserves_literal_found(t, segs, 0, m, pat, 0, act);
    lemma_literal_found_search(spec_insert(t, pat, 0, act), segs, 0, m);
}

/// Registering the same (method, literal path) twice is refused as a
/// duplicate, whatever handler the second registration carries. The
/// operation contracts add that a refused registration changes nothing.
pub proof fn law_duplicate_registration_refused(
    t: SpecTrie,
    segs: Seq<Seq<char>>,
    r: Route,
    r2: Route,
)
    requires
        r2.method == r.method,
        spec_can_insert(t, literal_pattern(segs), 0, RegAction::AddRoute(r)) is Ok,
    ensures
        spec_can_insert(
            spec_insert(t, literal_pattern(segs), 0, RegAction::AddRoute(r)),
            literal_pattern(segs),
            0,
            RegAction::AddRoute(r2),
        ) == Result::<(), ObsidianError>::Err(ObsidianError::DuplicateRoute),
{
    assert(literal_pattern(segs).len() == segs.len());
    let t2 = spec_insert(t, literal_pattern(segs), 0, RegAction::AddRoute(r));
    lemma_insert_literal_found(t, segs, 0, r);
    lemma_literal_found_duplicate(t2, segs, 0, r2);
}

/// After a parameter is registered below a position, a literal sibling at
/// that position is refused as ambiguous.
pub proof fn law_param_then_literal_conflict(
    t: SpecTrie,
    a: Seq<char>,
    x: Seq<char>,
    b: Seq<char>,
    r1: Route,
    r2: Route,
)
    requires
        spec_can_insert(
            t,
            seq![SpecResource::Static(a), SpecResource::Param(x)],
            0,
            RegAction::AddRoute(r1),
        ) is Ok,
    ensures
        spec_can_insert(
            spec_insert(
                t,
                seq![SpecResource::Static(a), SpecResource::Param(x)],
                0,
                RegAction::AddRoute(r1),
            ),
            seq![SpecResource::Static(a), SpecResource::Static(b)],
            0,
            RegAction::AddRoute(r2),
        ) == Result::<(), ObsidianError>::Err(ObsidianError::RouteConflict),
{
    let pat1 = seq![SpecResource::Static(a), SpecResource::Param(x)];
    let pat2 = seq![SpecResource::Static(a), SpecResource::Static(b)];
    let act1 = RegAction::AddRoute(r1);
    let t2 = spec_insert(t, pat1, 0, act1);
    assert(pat1[0] == SpecResource::Static(a));
    assert(pat1[1] == SpecResource::Param(x));
    assert(pat2[0] == SpecResource::Static(a));
    assert(pat2[1] == SpecResource::Static(b));
    match find_static(t.statics, a) {
        Some(j) => {
            lemma_find_static_props(t.statics, a);
            let child = t.statics[j].node;
            assert(spec_can_insert(child, pat1, 1, act1) is Ok);
            assert(child.statics.len() == 0);
            let child2 = spec_insert(child, pat1, 1, act1);
            assert(child2.statics == child.statics);
            assert(child2.param is Some);
            assert forall|k: int|
                0 <= k < t2.statics.len() implies t2.statics[k].key == t.statics[k].key by {
                if k != j {
                    assert(t2.statics[k] == t.statics[k]);
                }
            }
            lemma_find_static_same_keys(t2.statics, t.statics, a);
            assert(find_static(t2.statics, a) == Some(j));
            assert(t2.statics[j].node == child2);
            assert(find_static(child2.statics, b) is None);
            assert(spec_can_insert(child2, pat2, 1, RegAction::AddRoute(r2))
                == Result::<(), ObsidianError>::Err(ObsidianError::RouteConflict));
        },
        None => {
            let fresh = crate::model::fresh_chain(pat1, 1, act1);
            let c = SpecChild { key: a, node: fresh };
            lemma_find_static_push(t.statics, c, a);
            assert(find_static(t2.statics, a) == Some(t.statics.len() as int));
            assert(t2.statics[t.statics.len() as int] == c);
            assert(fresh.statics.len() == 0);
            assert(fresh.param is Some);
            assert(find_static(fresh.statics, b) is None);
            assert(spec_can_insert(fresh, pat2, 1, RegAction::AddRoute(r2))
                == Result::<(), ObsidianError>::Err(ObsidianError::RouteConflict));
        },
    }
}

/// And the other way round: after a literal child exists at a position, a
/// parameter sibling there is refused as ambiguous.
pub proof fn law_literal_then_param_conflict(
    t: SpecTrie,
    a: Seq<char>,
    b: Seq<char>,
    x: Seq<char>,
    r1: Route,
    r2: Route,
)
    requires
        spec_can_insert(
            t,
            seq![SpecResource::Static(a), SpecResource::Static(b)],
            0,
            RegAction::AddRoute(r1),
        ) is Ok,
    ensures
        spec_can_insert(
            spec_insert(
                t,
                seq![SpecResource::Static(a), SpecResource::Static(b)],
                0,
                RegAction::AddRoute(r1),
            ),
            seq![SpecResource::Static(a), SpecResource::Param(x)],
            0,
            RegAction::AddRoute(r2),
        ) == Result::<(), ObsidianError>::Err(ObsidianError::RouteConflict),
{
    let pat1 = seq![SpecResource::Static(a), SpecResource::Static(b)];
    let pat2 = seq![SpecResource::Static(a), SpecResource::Param(x)];
    let act1 = RegAction::AddRoute(r1);
    let t2 = spec_insert(t, pat1, 0, act1);
    assert(pat1[0] == SpecResource::Static(a));
    assert(pat1[1] == SpecResource::Static(b));
    assert(pat2[0] == SpecResource::Static(a));
    assert(pat2[1] == SpecResource::Param(x));
    match find_static(t.statics, a) {
        Some(j) => {
            lemma_find_static_props(t.statics, a);
            let child = t.statics[j].node;
            let child2 = spec_insert(child, pat1, 1, act1);
            match find_static(child.statics, b) {
                Some(jb) => {
                    lemma_find_static_props(child.statics, b);
                    assert(child2.statics.len() == child.statics.len());
                },
                None => {
                    assert(child2.statics.len() == child.statics.len() + 1);
                },
            }
            assert(child2.statics.len() > 0);
            assert forall|k: int|
                0 <= k < t2.statics.len() implies t2.statics[k].key == t.statics[k].key by {
                if k != j {
                    assert(t2.statics[k] == t.statics[k]);
                }
            }
            lemma_find_static_same_keys(t2.statics, t.statics, a);
            assert(find_static(t2.statics, a) == Some(j));
            assert(t2.statics[j].node == child2);
            assert(spec_can_insert(child2, pat2, 1, RegAction::AddRoute(r2))
                == Result::<(), ObsidianError>::Err(ObsidianError::RouteConflict));
        },
        None => {
            let fresh = crate::model::fresh_chain(pat1, 1, act1);
            let c = SpecChild { key: a, node: fresh };
            lemma_find_static_push(t.statics, c, a);
            assert(find_static(t2.statics, a) == Some(t.statics.len() as int));
            assert(t2.statics[t.statics.len() as int] == c);
            assert(fresh.statics.len() == 1);
            assert(spec_can_insert(fresh, pat2, 1, RegAction::AddRoute(r2))
                == Result::<(), ObsidianError>::Err(ObsidianError::RouteConflict));
        },
    }
}

/// A parameter segment binds the path's literal text to the parameter's
/// name: registering `u/:x` and looking `u/v` up yields the binding
/// `x = v`, for any text `v`.
pub proof fn law_param_binding(u: Seq<char>, x: Seq<char>, v: Seq<char>, r: Route)
    ensures
        spec_search(
            spec_insert(
                empty_trie(),
                seq![SpecResource::Static(u), SpecResource::Param(x)],
                0,
                RegAction::AddRoute(r),
            ),
            seq![u, v],
            0,
        ) matches Some(m) && m.params == seq![(x, v)] && has_method(m.routes, r.method),
{
    let pat = seq![SpecResource::Static(u), SpecResource::Param(x)];
    let act = RegAction::AddRoute(r);
    let segs = seq![u, v];
    assert(pat[0] == SpecResource::Static(u));
    assert(pat[1] == SpecResource::Param(x));
    assert(segs[0] == u);
    assert(segs[1] == v);
    let t = spec_insert(empty_trie(), pat, 0, act);
    let fresh = crate::model::fresh_chain(pat, 1, act);
    assert(find_static(empty_trie().statics, u) is None);
    assert(t.statics == empty_trie().statics.push(SpecChild { key: u, node: fresh }));
    assert(t.statics[0] == SpecChild { key: u, node: fresh });
    assert(find_static(t.statics, u) == Some(0int));
    let terminal = crate::model::fresh_chain(pat, 2, act);
    assert(fresh.statics.len() == 0);
    assert(find_static(fresh.statics, v) is None);
    assert(fresh.param == Some(crate::model::SpecParam { name: x, node: Box::new(terminal) }));
    assert(terminal.routes == Seq::<Route>::empty().push(r));
    assert(terminal.routes[0] == r);
    let m2 = crate::model::SpecMatch {
        routes: terminal.routes,
        mws: terminal.mws,
        params: Seq::empty(),
        wildcard: None,
    };
    assert(spec_search(terminal, segs, 2) == Some(m2));
    let m1 = crate::model::SpecMatch {
        routes: m2.routes,
        mws: fresh.mws + m2.mws,
        params: seq![(x, v)] + m2.params,
        wildcard: None,
    };
    assert(spec_search(fresh, segs, 1) == Some(m1));
    let m0 = crate::model::SpecMatch {
        routes: m1.routes,
        mws: t.mws + m1.mws,
        params: m1.params,
        wildcard: None,
    };
    assert(spec_search(t, segs, 0) == Some(m0));
    assert(m0.params =~= seq![(x, v)]);
    assert(m0.routes[0] == r);
}

/// A wildcard captures the remainder of the path verbatim: registering
/// `f/*` and looking up `f` followed by any further segments yields those
/// segments joined back with `/`.
pub proof fn law_wildcard_capture(f: Seq<char>, rest: Seq<Seq<char>>, r: Route)
    requires
        rest.len() > 0,
    ensures
        spec_search(
            spec_insert(
                empty_trie(),
                seq![SpecResource::Static(f), SpecResource::Wildcard],
                0,
                RegAction::AddRoute(r),
            ),
            seq![f] + rest,
            0,
        ) matches Some(m) && m.wildcard == Some(join_segs(seq![f] + rest, 1)) && has_method(
            m.routes,
            r.method,
        ),
{
    let pat = seq![SpecResource::Static(f), SpecResource::Wildcard];
    let act = RegAction::AddRoute(r);
    let segs = seq![f] + rest;
    assert(pat[0] == SpecResource::Static(f));
    assert(pat[1] == SpecResource::Wildcard);
    assert(segs[0] == f);
    assert(segs.len() == 1 + rest.len());
    let t = spec_insert(empty_trie(), pat, 0, act);
    let fresh = crate::model::fresh_chain(pat, 1, act);
    assert(find_static(empty_trie().statics, f) is None);
    assert(t.statics == empty_trie().statics.push(SpecChild { key: f, node: fresh }));
    assert(t.statics[0] == SpecChild { key: f, node: fresh });
    assert(find_static(t.statics, f) == Some(0int));
    assert(fresh.statics.len() == 0);
    assert(find_static(fresh.statics, segs[1]) is None);
    assert(fresh.param is None);
    let wnode = crate::model::terminal_apply(empty_trie(), act);
    assert(fresh.wildcard == Some(Box::new(wnode)));
    assert(wnode.routes == Seq::<Route>::empty().push(r));
    assert(wnode.routes[0] == r);
    let m1 = crate::model::SpecMatch {
        routes: wnode.routes,
        mws: fresh.mws + wnode.mws,
        params: Seq::empty(),
        wildcard: Some(join_segs(segs, 1)),
    };
    assert(spec_search(fresh, segs, 1) == Some(m1));
    let m0 = crate::model::SpecMatch {
        routes: m1.routes,
        mws: t.mws + m1.mws,
        params: m1.params,
        wildcard: m1.wildcard,
    };
    assert(spec_search(t, segs, 0) == Some(m0));
    assert(m0.routes[0] == r);
    assert(has_method(m0.routes, r.method));
}

/// Middleware at the root wraps everything: whenever a lookup succeeds, the
/// resolved chain opens with the root's own middleware list, in order.
pub proof fn law_root_middleware_prefix(t: SpecTrie, segs: Seq<Seq<char>>)
    requires
        spec_search(t, segs, 0) is Some,
    ensures
        (spec_search(t, segs, 0)->Some_0).mws.take(t.mws.len() as int) == t.mws,
{
    let m = spec_search(t, segs, 0)->Some_0;
    if segs.len() == 0 {
        assert(m.mws == t.mws);
        assert(m.mws.take(t.mws.len() as int) =~= t.mws);
    } else {
        match find_static(t.statics, segs[0]) {
            Some(j) => {
                let inner = spec_search(t.statics[j].node, segs, 1)->Some_0;
                assert(m.mws == t.mws + inner.mws);
            },
            None => {
                match t.param {
                    Some(p) => {
                        let inner = spec_search(*p.node, segs, 1)->Some_0;
                        assert(m.mws == t.mws + (seq![(p.name, segs[0])], inner).1.mws);
                    },
                    None => {
                        match t.wildcard {
                            Some(w) => {
                                assert(m.mws == t.mws + w.mws);
                            },
                            None => {
                                assert(false);
                            },
                        }
                    },
                }
            },
        }
        assert(m.mws.take(t.mws.len() as int) =~= t.mws);
    }
}

/// Middleware attached under a literal scope is in the resolved chain of a
/// lookup of that scope.
pub proof fn law_scoped_middleware_reaches(t: SpecTrie, segs: Seq<Seq<char>>, mw: Middleware)
    requires
        spec_can_insert(t, literal_pattern(segs), 0, RegAction::AddMw(mw)) is Ok,
    ensures
        spec_search(spec_insert(t, literal_pattern(segs), 0, RegAction::AddMw(mw)), segs, 0)
            matches Some(m) && m.mws.contains(mw),
{
    assert(literal_pattern(segs).len() == segs.len());
    lemma_insert_mw_literal_chain(t, segs, 0, mw);
}

proof fn lemma_fresh_mw_chain(segs: Seq<Seq<char>>, i: int, mw: Middleware)
    requires
        0 <= i <= segs.len(),
    ensures
        spec_search(crate::model::fresh_chain(literal_pattern(segs), i, RegAction::AddMw(mw)), segs, i)
            matches Some(m) && m.mws.contains(mw),
    decreases segs.len() - i,
{
    let pat = literal_pattern(segs);
    let act = RegAction::AddMw(mw);
    let f = crate::model::fresh_chain(pat, i, act);
    if i >= segs.len() {
        assert(f.mws == Seq::<Middleware>::empty().push(mw));
        assert(f.mws[0] == mw);
        let m = spec_search(f, segs, i)->Some_0;
        assert(m.mws.contains(mw));
    } else {
        assert(pat[i] == SpecResource::Static(segs[i]));
        lemma_fresh_mw_chain(segs, i + 1, mw);
        assert(f.statics[0].key == segs[i]);
        assert(find_static(f.statics, segs[i]) == Some(0int));
        assert(f.statics[0].node == crate::model::fresh_chain(pat, i + 1, act));
        let inner = spec_search(f.statics[0].node, segs, i + 1)->Some_0;
        let ki = choose|k: int| 0 <= k < inner.mws.len() && inner.mws[k] == mw;
        let m = spec_search(f, segs, i)->Some_0;
        assert(m.mws == f.mws + inner.mws);
        assert(m.mws[f.mws.len() + ki] == mw);
        assert(m.mws.contains(mw));
    }
}

proof fn lemma_insert_mw_literal_chain(t: SpecTrie, segs: Seq<Seq<char>>, i: int, mw: Middleware)
    requires
        0 <= i <= segs.len(),
        spec_can_insert(t, literal_pattern(segs), i, RegAction::AddMw(mw)) is Ok,
    ensures
        spec_search(spec_insert(t, literal_pattern(segs), i, RegAction::AddMw(mw)), segs, i)
            matches Some(m) && m.mws.contains(mw),
    decreases segs.len() - i,
{
    let pat = literal_pattern(segs);
    let act = RegAction::AddMw(mw);
    let t2 = spec_insert(t, pat, i, act);
    if i >= segs.len() {
        assert(t2.mws == t.mws.push(mw));
        assert(t2.mws[t.mws.len() as int] == mw);
        let m = spec_search(t2, segs, i)->Some_0;
        assert(m.mws.contains(mw));
    } else {
        assert(pat[i] == SpecResource::Static(segs[i]));
        match find_static(t.statics, segs[i]) {
            Some(j) => {
                lemma_find_static_props(t.statics, segs[i]);
                lemma_insert_mw_literal_chain(t.statics[j].node, segs, i + 1, mw);
                assert forall|k: int|
                    0 <= k < t2.statics.len() implies t2.statics[k].key == t.statics[k].key by {
                    if k != j {
                        assert(t2.statics[k] == t.statics[k]);
                    }
                }
                lemma_find_static_same_keys(t2.statics, t.statics, segs[i]);
                assert(find_static(t2.statics, segs[i]) == Some(j));
                assert(t2.statics[j].node == spec_insert(t.statics[j].node, pat, i + 1, act));
                let inner = spec_search(t2.statics[j].node, segs, i + 1)->Some_0;
                let ki = choose|k: int| 0 <= k < inner.mws.len() && inner.mws[k] == mw;
                let m = spec_search(t2, segs, i)->Some_0;
                assert(m.mws == t2.mws + inner.mws);
                assert(t2.mws == t.mws);
                assert(m.mws[t.mws.len() + ki] == mw);
                assert(m.mws.contains(mw));
            },
            None => {
                let c = SpecChild {
                    key: segs[i],
                    node: crate::model::fresh_chain(pat, i + 1, act),
                };
                lemma_find_static_push(t.statics, c, segs[i]);
                assert(find_static(t2.statics, segs[i]) == Some(t.statics.len() as int));
                assert(t2.statics[t.statics.len() as int] == c);
                lemma_fresh_mw_chain(segs, i + 1, mw);
                let inner = spec_search(c.node, segs, i + 1)->Some_0;
                let ki = choose|k: int| 0 <= k < inner.mws.len() && inner.mws[k] == mw;
                let m = spec_search(t2, segs, i)->Some_0;
                assert(m.mws == t2.mws + inner.mws);
                assert(m.mws[t2.mws.len() + ki] == mw);
                assert(m.mws.contains(mw));
            },
        }
    }
}

/// The token appears in none of the tree's own middleware lists.
pub open spec fn mw_absent(t: SpecTrie, mw: Middleware) -> bool
    decreases t,
{
    &&& !t.mws.contains(mw)
    &&& (forall|i: int| 0 <= i < t.statics.len() ==> mw_absent(#[trigger] t.statics[i].node, mw))
    &&& (t.param matches Some(p) ==> mw_absent(*p.node, mw))
    &&& (t.wildcard matches Some(w) ==> mw_absent(*w, mw))
}

proof fn lemma_concat_not_contains(a: Seq<Middleware>, b: Seq<Middleware>, mw: Middleware)
    requires
        !a.contains(mw),
        !b.contains(mw),
    ensures
        !(a + b).contains(mw),
{
    assert forall|k: int| 0 <= k < (a + b).len() implies (a + b)[k] != mw by {
        if k < a.len() {
            assert((a + b)[k] == a[k]);
        } else {
            assert((a + b)[k] == b[k - a.len()]);
        }
    }
}

/// A chain resolved in a tree the token is absent from cannot contain it.
proof fn lemma_search_mw_absent(t: SpecTrie, segs: Seq<Seq<char>>, i: int, mw: Middleware)
    requires
        mw_absent(t, mw),
        spec_search(t, segs, i) is Some,
    ensures
        !(spec_search(t, segs, i)->Some_0).mws.contains(mw),
    decreases segs.len() - i,
{
    if i < 0 || i >= segs.len() {
    } else {
        match find_static(t.statics, segs[i]) {
            Some(j) => {
                lemma_find_static_props(t.statics, segs[i]);
                lemma_search_mw_absent(t.statics[j].node, segs, i + 1, mw);
                let inner = spec_search(t.statics[j].node, segs, i + 1)->Some_0;
                lemma_concat_not_contains(t.mws, inner.mws, mw);
            },
            None => {
                match t.param {
                    Some(p) => {
                        lemma_search_mw_absent(*p.node, segs, i + 1, mw);
                        let inner = spec_search(*p.node, segs, i + 1)->Some_0;
                        lemma_concat_not_contains(t.mws, inner.mws, mw);
                    },
                    None => {
                        match t.wildcard {
                            Some(w) => {
                                assert(mw_absent(*w, mw));
                                lemma_concat_not_contains(t.mws, w.mws, mw);
                            },
                            None => {},
                        }
                    },
                }
            },
        }
    }
}

/// Inside a freshly created literal chain, a path that is not an extension
/// of the chain's remaining segments never reaches the middleware at its
/// end.
proof fn lemma_fresh_mw_outside(
    xs: Seq<Seq<char>>,
    ps: Seq<Seq<char>>,
    i: int,
    mw: Middleware,
)
    requires
        0 <= i <= xs.len(),
        i <= ps.len(),
        !(xs.len() <= ps.len() && (forall|k: int| i <= k < xs.len() ==> xs[k] == ps[k])),
    ensures
        spec_search(crate::model::fresh_chain(literal_pattern(xs), i, RegAction::AddMw(mw)), ps, i)
            matches Some(m) ==> !m.mws.contains(mw),
    decreases ps.len() - i,
{
    let pat = literal_pattern(xs);
    let act = RegAction::AddMw(mw);
    let f = crate::model::fresh_chain(pat, i, act);
    if i >= ps.len() {
        if i >= xs.len() {
            assert(false);
        } else {
            assert(pat[i] == SpecResource::Static(xs[i]));
            assert(f.mws == Seq::<Middleware>::empty());
        }
    } else if i >= xs.len() {
        assert(false);
    } else {
        assert(pat[i] == SpecResource::Static(xs[i]));
        assert(f.statics[0].key == xs[i]);
        if ps[i] == xs[i] {
            assert(find_static(f.statics, ps[i]) == Some(0int));
            lemma_fresh_mw_outside(xs, ps, i + 1, mw);
            match spec_search(f.statics[0].node, ps, i + 1) {
                Some(inner) => {
                    lemma_concat_not_contains(f.mws, inner.mws, mw);
                },
                None => {},
            }
        } else {
            assert(f.statics.drop_first() =~= Seq::<SpecChild>::empty());
            assert(find_static(f.statics.drop_first(), ps[i]) is None);
            assert(find_static(f.statics, ps[i]) is None);
            assert(spec_search(f, ps, i) is None);
        }
    }
}

/// Middleware attached under a literal scope is absent from the resolved
/// chain of any path that does not extend that scope, provided the token is
/// new to the router, as a freshly made middleware handle is.
pub proof fn law_scoped_middleware_absent_outside(
    t: SpecTrie,
    xs: Seq<Seq<char>>,
    ps: Seq<Seq<char>>,
    mw: Middleware,
)
    requires
        mw_absent(t, mw),
        spec_can_insert(t, literal_pattern(xs), 0, RegAction::AddMw(mw)) is Ok,
        !(xs.len() <= ps.len() && (forall|k: int| 0 <= k < xs.len() ==> xs[k] == ps[k])),
    ensures
        spec_search(spec_insert(t, literal_pattern(xs), 0, RegAction::AddMw(mw)), ps, 0)
            matches Some(m) ==> !m.mws.contains(mw),
{
    assert(literal_pattern(xs).len() == xs.len());
    lemma_insert_mw_outside(t, xs, ps, 0, mw);
}

proof fn lemma_insert_mw_outside(
    t: SpecTrie,
    xs: Seq<Seq<char>>,
    ps: Seq<Seq<char>>,
    i: int,
    mw: Middleware,
)
    requires
        mw_absent(t, mw),
        0 <= i <= xs.len(),
        i <= ps.len(),
        spec_can_insert(t, literal_pattern(xs), i, RegAction::AddMw(mw)) is Ok,
        !(xs.len() <= ps.len() && (forall|k: int| i <= k < xs.len() ==> xs[k] == ps[k])),
    ensures
        spec_search(spec_insert(t, literal_pattern(xs), i, RegAction::AddMw(mw)), ps, i)
            matches Some(m) ==> !m.mws.contains(mw),
    decreases ps.len() - i,
{
    let pat = literal_pattern(xs);
    let act = RegAction::AddMw(mw);
    let t2 = spec_insert(t, pat, i, act);
    if i >= ps.len() {
        if i >= xs.len() {
            assert(false);
        } else {
            assert(pat[i] == SpecResource::Static(xs[i]));
            assert(t2.mws == t.mws);
        }
    } else if i >= xs.len() {
        assert(false);
    } else {
        assert(pat[i] == SpecResource::Static(xs[i]));
        match find_static(t.statics, xs[i]) {
            Some(j) => {
                lemma_find_static_props(t.statics, xs[i]);
                assert forall|a: int|
                    0 <= a < t2.statics.len() implies t2.statics[a].key == t.statics[a].key by {
                    if a != j {
                        assert(t2.statics[a] == t.statics[a]);
                    }
                }
                lemma_find_static_same_keys(t2.statics, t.statics, ps[i]);
                if ps[i] == xs[i] {
                    assert(find_static(t2.statics, ps[i]) == Some(j));
                    assert(t2.statics[j].node == spec_insert(t.statics[j].node, pat, i + 1, act));
                    lemma_insert_mw_outside(t.statics[j].node, xs, ps, i + 1, mw);
                    match spec_search(t2.statics[j].node, ps, i + 1) {
                        Some(inner) => {
                            lemma_concat_not_contains(t.mws, inner.mws, mw);
                        },
                        None => {},
                    }
                } else {
                    match find_static(t.statics, ps[i]) {
                        Some(k) => {
                            lemma_find_static_props(t.statics, ps[i]);
                            assert(k != j);
                            assert(t2.statics[k] == t.statics[k]);
                            match spec_search(t.statics[k].node, ps, i + 1) {
                                Some(inner) => {
                                    lemma_search_mw_absent(t.statics[k].node, ps, i + 1, mw);
                                    lemma_concat_not_contains(t.mws, inner.mws, mw);
                                },
                                None => {},
                            }
                        },
                        None => {
                            match t.param {
                                Some(p) => {
                                    match spec_search(*p.node, ps, i + 1) {
                                        Some(inner) => {
                                            lemma_search_mw_absent(*p.node, ps, i + 1, mw);
                                            lemma_concat_not_contains(t.mws, inner.mws, mw);
                                        },
                                        None => {},
                                    }
                                },
                                None => {
                                    match t.wildcard {
                                        Some(w) => {
                                            assert(mw_absent(*w, mw));
                                            lemma_concat_not_contains(t.mws, w.mws, mw);
                                        },
                                        None => {},
                                    }
                                },
                            }
                        },
                    }
                }
            },
            None => {
                let c = SpecChild {
                    key: xs[i],
                    node: crate::model::fresh_chain(pat, i + 1, act),
                };
                lemma_find_static_push(t.statics, c, ps[i]);
                lemma_find_static_props(t.statics, ps[i]);
                if ps[i] == xs[i] {
                    assert(find_static(t2.statics, ps[i]) == Some(t.statics.len() as int));
                    assert(t2.statics[t.statics.len() as int] == c);
                    lemma_fresh_mw_outside(xs, ps, i + 1, mw);
                    match spec_search(c.node, ps, i + 1) {
                        Some(inner) => {
                            lemma_concat_not_contains(t.mws, inner.mws, mw);
                        },
                        None => {},
                    }
                } else {
                    match find_static(t.statics, ps[i]) {
                        Some(k) => {
                            assert(find_static(t2.statics, ps[i]) == Some(k));
                            assert(t2.statics[k] == t.statics[k]);
                            match spec_search(t.statics[k].node, ps, i + 1) {
                                Some(inner) => {
                                    lemma_search_mw_absent(t.statics[k].node, ps, i + 1, mw);
                                    lemma_concat_not_contains(t.mws, inner.mws, mw);
                                },
                                None => {},
                            }
                        },
                        None => {
                            assert(find_static(t2.statics, ps[i]) is None);
                            assert(t.param is None);
                            match t.wildcard {
                                Some(w) => {
                                    assert(mw_absent(*w, mw));
                                    lemma_concat_not_contains(t.mws, w.mws, mw);
                                },
                                None => {},
                            }
                        },
                    }
                }
            },
        }
    }
}

/// Merging a router that registers a method the target already holds at the
/// same literal path is refused; the merge contract adds that a refused
/// merge changes nothing.
pub proof fn law_merge_collision(
    t: SpecTrie,
    regs: Seq<SpecReg>,
    k: int,
    segs: Seq<Seq<char>>,
    m: Method,
)
    requires
        literal_found(t, segs, 0, m),
        0 <= k < regs.len(),
        regs[k].0 == literal_pattern(segs),
        regs[k].1 matches RegAction::AddRoute(r2) && r2.method == m,
    ensures
        spec_replay(t, regs, 0) is Err,
{
    lemma_replay_duplicate(t, regs, 0, k, segs, m);
}

/// Two routers that hold the same method at the same literal path, one of
/// them under the mount prefix, cannot be merged: the replayed list of the
/// mounted router carries that registration, and replaying it is refused.
pub proof fn law_merge_collision_of_trees(
    main: SpecTrie,
    sub: SpecTrie,
    mount: Seq<Seq<char>>,
    segs: Seq<Seq<char>>,
    m: Method,
)
    requires
        literal_found(main, mount + segs, 0, m),
        literal_found(sub, segs, 0, m),
    ensures
        spec_replay(main, crate::model::spec_flatten(sub, literal_pattern(mount)), 0) is Err,
{
    let mp = literal_pattern(mount);
    let fl = crate::model::spec_flatten(sub, mp);
    crate::model::lemma_flatten_has_literal_route(sub, mp, segs, 0, m);
    let rr = choose|rr: Route|
        rr.method == m && #[trigger] fl.contains(
            (mp + literal_pattern(segs.skip(0)), RegAction::AddRoute(rr)),
        );
    assert(segs.skip(0) =~= segs);
    let e = (mp + literal_pattern(segs), RegAction::AddRoute(rr));
    assert(fl.contains(e));
    let k = choose|k: int| 0 <= k < fl.len() && fl[k] == e;
    assert(mp + literal_pattern(segs) =~= literal_pattern(mount + segs)) by {
        assert forall|n: int|
            0 <= n < mount.len() implies #[trigger] literal_pattern(mount)[n]
            == SpecResource::Static(mount[n]) by {}
        assert forall|n: int|
            0 <= n < segs.len() implies #[trigger] literal_pattern(segs)[n]
            == SpecResource::Static(segs[n]) by {}
        assert forall|n: int|
            0 <= n < mount.len() + segs.len() implies #[trigger] literal_pattern(mount + segs)[n]
            == SpecResource::Static((mount + segs)[n]) by {}
    }
    assert(fl[k].0 == literal_pattern(mount + segs));
    lemma_replay_duplicate(main, fl, 0, k, mount + segs, m);
}

/// A successful merge keeps every literal route the target held, and each
/// stays found by lookup.
pub proof fn law_merge_preserves_routes(
    t: SpecTrie,
    regs: Seq<SpecReg>,
    segs: Seq<Seq<char>>,
    m: Method,
)
    requires
        literal_found(t, segs, 0, m),
        spec_replay(t, regs, 0) is Ok,
    ensures
        spec_search(spec_replay(t, regs, 0)->Ok_0, segs, 0) matches Some(mm) && has_method(
            mm.routes,
            m,
        ),
{
    lemma_replay_preserves_literal_found(t, regs, 0, segs, m);
    lemma_literal_found_search(spec_replay(t, regs, 0)->Ok_0, segs, 0, m);
}

/// After a successful merge, every literal route the merged router brought
/// is found by a lookup of its mount-prefixed path.
pub proof fn law_merge_mounts_routes(
    t: SpecTrie,
    regs: Seq<SpecReg>,
    k: int,
    segs: Seq<Seq<char>>,
    r: Route,
)
    requires
        spec_replay(t, regs, 0) is Ok,
        0 <= k < regs.len(),
        regs[k].0 == literal_pattern(segs),
        regs[k].1 == RegAction::AddRoute(r),
    ensures
        spec_search(spec_replay(t, regs, 0)->Ok_0, segs, 0) matches Some(mm) && has_method(
            mm.routes,
            r.method,
        ),
{
    lemma_replay_reaches(t, regs, 0, k, segs, r);
    lemma_literal_found_search(spec_replay(t, regs, 0)->Ok_0, segs, 0, r.method);
}

/// Looking any non-empty path up in a fresh router is a dead end.
pub proof fn law_unregistered_not_found(segs: Seq<Seq<char>>)
    requires
        segs.len() > 0,
    ensures
        spec_search(empty_trie(), segs, 0) is None,
{
    assert(find_static(empty_trie().statics, segs[0]) is None);
}

// ---------------------------------------------------------------------------
// The dispatch chain runs as an onion.
// ---------------------------------------------------------------------------

/// The chain's members entered in order, from position `i` on.
pub open spec fn enters_from(chain: Seq<Middleware>, i: int) -> Seq<ChainEvent> {
    Seq::new((chain.len() - i) as nat, |k: int| ChainEvent::Enter(chain[i + k]))
}

/// The chain's members left in reverse order, down to position `i`.
pub open spec fn leaves_down_to(chain: Seq<Middleware>, i: int) -> Seq<ChainEvent> {
    Seq::new((chain.len() - i) as nat, |k: int| ChainEvent::Leave(chain[chain.len() - 1 - k]))
}

/// When every middleware forwards, a request runs as an onion: each
/// middleware's work before forwarding happens in chain order, the handler
/// runs once after all of them, and the work after forwarding happens in
/// the reverse order, innermost first.
pub proof fn law_chain_onion(chain: Seq<Middleware>, forwards: Seq<bool>, h: Handler)
    requires
        forwards.len() == chain.len(),
        forall|k: int| 0 <= k < forwards.len() ==> forwards[k],
    ensures
        spec_trace(chain, forwards, 0, h) == enters_from(chain, 0) + seq![ChainEvent::Handle(h)]
            + leaves_down_to(chain, 0),
{
    lemma_chain_onion_from(chain, forwards, 0, h);
}

proof fn lemma_chain_onion_from(chain: Seq<Middleware>, forwards: Seq<bool>, i: int, h: Handler)
    requires
        forwards.len() == chain.len(),
        0 <= i <= chain.len(),
        forall|k: int| i <= k < forwards.len() ==> forwards[k],
    ensures
        spec_trace(chain, forwards, i, h) == enters_from(chain, i) + seq![ChainEvent::Handle(h)]
            + leaves_down_to(chain, i),
    decreases chain.len() - i,
{
    if i >= chain.len() {
        assert(enters_from(chain, i) =~= Seq::<ChainEvent>::empty());
        assert(leaves_down_to(chain, i) =~= Seq::<ChainEvent>::empty());
        assert(spec_trace(chain, forwards, i, h) =~= enters_from(chain, i) + seq![
            ChainEvent::Handle(h),
        ] + leaves_down_to(chain, i));
    } else {
        lemma_chain_onion_from(chain, forwards, i + 1, h);
        assert(spec_trace(chain, forwards, i, h) == seq![ChainEvent::Enter(chain[i])] + (
        enters_from(chain, i + 1) + seq![ChainEvent::Handle(h)] + leaves_down_to(chain, i + 1))
            + seq![ChainEvent::Leave(chain[i])]);
        assert(spec_trace(chain, forwards, i, h) =~= enters_from(chain, i) + seq![
            ChainEvent::Handle(h),
        ] + leaves_down_to(chain, i));
    }
}

} // verus!
