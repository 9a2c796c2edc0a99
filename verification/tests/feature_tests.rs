use obsidian::context::{run_chain, ChainEvent, ChainStep, Context};
use obsidian::error::ObsidianError;
use obsidian::method::Method;
use obsidian::route::{Handler, Middleware};
use obsidian::router::Router;

#[test]
fn param_segment_binds_text() {
    let mut router = Router::new();
    router.get("/users/:id", Handler::new(7)).unwrap();

    let result = router.search_route("/users/42").unwrap();
    let bound = result.get_param(&String::from("id")).unwrap();
    assert_eq!(bound.as_str(), "42");
    assert_eq!(result.get_route(&Method::GET).unwrap().handler.id, 7);
}

#[test]
fn wildcard_captures_remainder() {
    let mut router = Router::new();
    router.get("/files/*", Handler::new(3)).unwrap();

    let result = router.search_route("/files/a/b/c").unwrap();
    assert_eq!(result.get_wildcard().as_ref().unwrap().as_str(), "a/b/c");
    assert_eq!(result.get_route(&Method::GET).unwrap().handler.id, 3);
}

#[test]
fn use_static_appends_wildcard_route() {
    let mut router = Router::new();
    router.use_static_to("/files", Handler::new(9)).unwrap();

    let result = router.search_route("/files/css/site.css").unwrap();
    assert_eq!(result.get_wildcard().as_ref().unwrap().as_str(), "css/site.css");
    assert_eq!(result.get_route(&Method::GET).unwrap().handler.id, 9);
}

#[test]
fn duplicate_route_error_and_no_mutation() {
    let mut router = Router::new();
    router.get("a/b", Handler::new(1)).unwrap();

    let second = router.get("a/b", Handler::new(2));
    assert_eq!(second, Err(ObsidianError::DuplicateRoute));

    // The refused call left the tree as it was: the first handler answers.
    let result = router.search_route("a/b").unwrap();
    assert_eq!(result.get_route(&Method::GET).unwrap().handler.id, 1);
    assert!(router.search_route("a/c").is_err());
}

#[test]
fn ambiguous_route_error() {
    let mut router = Router::new();
    router.get("a/:x", Handler::new(1)).unwrap();
    assert_eq!(router.get("a/b", Handler::new(2)), Err(ObsidianError::RouteConflict));

    let mut other = Router::new();
    other.get("a/b", Handler::new(1)).unwrap();
    assert_eq!(other.get("a/:x", Handler::new(2)), Err(ObsidianError::RouteConflict));
}

#[test]
fn mid_pattern_wildcard_is_refused() {
    let mut router = Router::new();
    assert_eq!(router.get("a/*/b", Handler::new(1)), Err(ObsidianError::RouteConflict));
}

#[test]
fn unregistered_path_not_found() {
    let router = Router::new();
    match router.search_route("nowhere") {
        Err(e) => assert_eq!(e, ObsidianError::RouteNotFound),
        Ok(_) => assert!(false),
    }
    match router.search_route("/") {
        Err(e) => assert_eq!(e, ObsidianError::RouteNotFound),
        Ok(_) => assert!(false),
    }
}

#[test]
fn scoped_middleware_only_beneath_scope() {
    let mut router = Router::new();
    router.get("/x/y", Handler::new(1)).unwrap();
    router.get("/z", Handler::new(2)).unwrap();
    router.use_service_to("/x", Middleware::new(5)).unwrap();

    let under = router.search_route("/x/y").unwrap();
    assert_eq!(under.get_middleware().len(), 1);
    assert_eq!(under.get_middleware()[0].id, 5);

    let sibling = router.search_route("/z").unwrap();
    assert_eq!(sibling.get_middleware().len(), 0);
}

#[test]
fn root_middleware_wraps_every_route() {
    let mut router = Router::new();
    router.use_service(Middleware::new(1));
    router.get("/a", Handler::new(1)).unwrap();
    router.use_service_to("/a", Middleware::new(2)).unwrap();

    let result = router.search_route("/a").unwrap();
    let chain = result.get_middleware();
    assert_eq!(chain.len(), 2);
    // Root scope first, leaf scope after: the resolved chain is root-to-leaf.
    assert_eq!(chain[0].id, 1);
    assert_eq!(chain[1].id, 2);
}

#[test]
fn merge_disjoint_routers_keeps_both() {
    let mut main_router = Router::new();
    let mut sub_router = Router::new();
    main_router.get("alpha", Handler::new(1)).unwrap();
    sub_router.get("beta", Handler::new(2)).unwrap();

    main_router.use_router("mounted", sub_router).unwrap();

    assert!(main_router.search_route("alpha").is_ok());
    let merged = main_router.search_route("mounted/beta").unwrap();
    assert_eq!(merged.get_route(&Method::GET).unwrap().handler.id, 2);
}

#[test]
fn merge_collision_reports_duplicate() {
    let mut main_router = Router::new();
    let mut sub_router = Router::new();
    main_router.get("test", Handler::new(1)).unwrap();
    sub_router.get("test", Handler::new(2)).unwrap();

    let r = main_router.use_router("/", sub_router);
    assert_eq!(r, Err(ObsidianError::DuplicateRoute));

    // The failed merge left the target untouched.
    let result = main_router.search_route("test").unwrap();
    assert_eq!(result.get_route(&Method::GET).unwrap().handler.id, 1);
}

#[test]
fn param_beats_wildcard_without_backtracking() {
    let mut router = Router::new();
    router.get("/p/:x", Handler::new(2)).unwrap();
    router.get("/p/*", Handler::new(3)).unwrap();

    // The parameter branch wins over the wildcard for a one-segment tail.
    let via_param = router.search_route("/p/anything").unwrap();
    assert_eq!(via_param.get_route(&Method::GET).unwrap().handler.id, 2);
    assert_eq!(via_param.get_param(&String::from("x")).unwrap().as_str(), "anything");

    // A deeper tail still takes the parameter branch, which then dead-ends:
    // a chosen branch is never reconsidered.
    assert!(router.search_route("/p/a/b").is_err());

    // With no parameter in the way, the wildcard answers deep tails.
    let mut other = Router::new();
    other.get("/p/*", Handler::new(3)).unwrap();
    let via_wild = other.search_route("/p/a/b").unwrap();
    assert_eq!(via_wild.get_route(&Method::GET).unwrap().handler.id, 3);
    assert_eq!(via_wild.get_wildcard().as_ref().unwrap().as_str(), "a/b");
}

#[test]
fn context_hands_chain_out_in_order() {
    let chain = vec![Middleware::new(1), Middleware::new(2)];
    let mut ctx = Context::new(chain, Handler::new(9));

    assert_eq!(ctx.next(), ChainStep::Run(Middleware::new(1)));
    assert_eq!(ctx.next(), ChainStep::Run(Middleware::new(2)));
    assert_eq!(ctx.next(), ChainStep::Terminal(Handler::new(9)));
    assert_eq!(ctx.next(), ChainStep::Terminal(Handler::new(9)));
}

#[test]
fn chain_runs_as_an_onion() {
    let m1 = Middleware::new(1);
    let m2 = Middleware::new(2);
    let h = Handler::new(9);

    let trace = run_chain(&vec![m1, m2], &vec![true, true], h);
    assert_eq!(
        trace,
        vec![
            ChainEvent::Enter(m1),
            ChainEvent::Enter(m2),
            ChainEvent::Handle(h),
            ChainEvent::Leave(m2),
            ChainEvent::Leave(m1),
        ]
    );
}

#[test]
fn short_circuit_stops_the_chain() {
    let m1 = Middleware::new(1);
    let m2 = Middleware::new(2);
    let h = Handler::new(9);

    let trace = run_chain(&vec![m1, m2], &vec![true, false], h);
    assert_eq!(
        trace,
        vec![
            ChainEvent::Enter(m1),
            ChainEvent::Enter(m2),
            ChainEvent::Leave(m2),
            ChainEvent::Leave(m1),
        ]
    );
}

#[test]
fn cloned_router_answers_alike() {
    let mut router = Router::new();
    router.get("/a/b", Handler::new(4)).unwrap();

    let copy = router.clone();
    let hit = copy.search_route("/a/b").unwrap();
    assert_eq!(hit.get_route(&Method::GET).unwrap().handler.id, 4);
    assert!(copy.search_route("/a").is_err());

    // The copy is independent: registering on it leaves the original alone.
    let mut copy2 = router.clone();
    copy2.get("/c", Handler::new(5)).unwrap();
    assert!(copy2.search_route("/c").is_ok());
    assert!(router.search_route("/c").is_err());
}

#[test]
fn default_router_is_empty() {
    let router = Router::default();
    assert!(router.search_route("/").is_err());
    assert!(router.search_route("anything").is_err());
}

#[test]
fn method_not_registered_is_still_a_match() {
    let mut router = Router::new();
    router.get("only/get", Handler::new(1)).unwrap();

    let result = router.search_route("only/get").unwrap();
    assert!(result.get_route(&Method::POST).is_none());
    assert!(result.get_route(&Method::GET).is_some());
}

#[test]
fn same_param_name_is_reused() {
    let mut router = Router::new();
    router.get("/v/:id", Handler::new(1)).unwrap();
    router.post("/v/:id", Handler::new(2)).unwrap();

    let result = router.search_route("/v/5").unwrap();
    assert!(result.get_route(&Method::GET).is_some());
    assert!(result.get_route(&Method::POST).is_some());

    // A differently named parameter at the same position is ambiguous.
    let mut other = Router::new();
    other.get("/v/:a", Handler::new(1)).unwrap();
    assert_eq!(other.get("/v/:b", Handler::new(2)), Err(ObsidianError::RouteConflict));
}
