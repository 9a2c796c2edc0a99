use obsidian::method::Method;
use obsidian::route::{Handler, Middleware};
use obsidian::router::Router;

#[test]
fn router_get_test() {
    let mut router = Router::new();
    let handler = Handler::new(1);

    router.get("router/test", handler).unwrap();

    let result = router.search_route("router/test");
    let fail_result = router.search_route("failed");

    assert!(result.is_ok());
    assert!(fail_result.is_err());

    match result {
        Ok(route) => {
            let middleware = route.get_middleware();
            let route_value = route.get_route(&Method::GET).unwrap();

            assert_eq!(middleware.len(), 0);
            assert_eq!(route_value.method, Method::GET);
        }
        _ => {
            assert!(false);
        }
    }
}

#[test]
fn router_post_test() {
    let mut router = Router::new();
    let handler = Handler::new(1);

    router.post("router/test", handler).unwrap();

    let result = router.search_route("router/test");
    let fail_result = router.search_route("failed");

    assert!(result.is_ok());
    assert!(fail_result.is_err());

    match result {
        Ok(route) => {
            let middleware = route.get_middleware();
            let route_value = route.get_route(&Method::POST).unwrap();

            assert_eq!(middleware.len(), 0);
            assert_eq!(route_value.method, Method::POST);
        }
        _ => {
            assert!(false);
        }
    }
}

#[test]
fn router_put_test() {
    let mut router = Router::new();
    let handler = Handler::new(1);

    router.put("router/test", handler).unwrap();

    let result = router.search_route("router/test");
    let fail_result = router.search_route("failed");

    assert!(result.is_ok());
    assert!(fail_result.is_err());

    match result {
        Ok(route) => {
            let middleware = route.get_middleware();
            let route_value = route.get_route(&Method::PUT).unwrap();

            assert_eq!(middleware.len(), 0);
            assert_eq!(route_value.method, Method::PUT);
        }
        _ => {
            assert!(false);
        }
    }
}

#[test]
fn router_delete_test() {
    let mut router = Router::new();
    let handler = Handler::new(1);

    router.delete("router/test", handler).unwrap();

    let result = router.search_route("router/test");
    let fail_result = router.search_route("failed");

    assert!(result.is_ok());
    assert!(fail_result.is_err());

    match result {
        Ok(route) => {
            let middleware = route.get_middleware();
            let route_value = route.get_route(&Method::DELETE).unwrap();

            assert_eq!(middleware.len(), 0);
            assert_eq!(route_value.method, Method::DELETE);
        }
        _ => {
            assert!(false);
        }
    }
}

#[test]
fn router_root_middleware_test() {
    let mut router = Router::new();
    let logger = Middleware::new(1);

    router.use_service(logger);

    let result = router.search_route("/");
    let fail_result = router.search_route("failed");

    assert!(result.is_ok());
    assert!(fail_result.is_err());

    match result {
        Ok(route) => {
            let middleware = route.get_middleware();

            assert_eq!(middleware.len(), 1);
        }
        _ => {
            assert!(false);
        }
    }
}

#[test]
fn router_relative_middleware_test() {
    let mut router = Router::new();
    let logger = Middleware::new(1);

    router.use_service_to("middleware/child", logger).unwrap();

    let result = router.search_route("/middleware/child");
    let fail_result = router.search_route("/");

    assert!(result.is_ok());
    assert!(fail_result.is_err());

    match result {
        Ok(route) => {
            let middleware = route.get_middleware();

            assert_eq!(middleware.len(), 1);
        }
        _ => {
            assert!(false);
        }
    }
}

#[test]
fn router_search_test() {
    let mut router = Router::new();
    let handler = Handler::new(1);

    router.get("router/test", handler).unwrap();
    router.post("router/test", handler).unwrap();
    router.put("router/test", handler).unwrap();
    router.delete("router/test", handler).unwrap();

    router.get("route/diff_route", handler).unwrap();

    let result = router.search_route("router/test");
    let diff_result = router.search_route("route/diff_route");
    let fail_result = router.search_route("failed");

    assert!(result.is_ok());
    assert!(diff_result.is_ok());
    assert!(fail_result.is_err());

    match result {
        Ok(route) => {
            let middleware = route.get_middleware();
            let route_value = route.get_route(&Method::GET).unwrap();

            assert_eq!(middleware.len(), 0);
            assert_eq!(route_value.method, Method::GET);

            let route_value = route.get_route(&Method::POST).unwrap();

            assert_eq!(middleware.len(), 0);
            assert_eq!(route_value.method, Method::POST);

            let route_value = route.get_route(&Method::PUT).unwrap();

            assert_eq!(middleware.len(), 0);
            assert_eq!(route_value.method, Method::PUT);

            let route_value = route.get_route(&Method::DELETE).unwrap();

            assert_eq!(middleware.len(), 0);
            assert_eq!(route_value.method, Method::DELETE);
        }
        _ => {
            assert!(false);
        }
    }

    match diff_result {
        Ok(route) => {
            let middleware = route.get_middleware();
            let route_value = route.get_route(&Method::GET).unwrap();

            assert_eq!(middleware.len(), 0);
            assert_eq!(route_value.method, Method::GET);
        }
        _ => {
            assert!(false);
        }
    }
}

#[test]
fn router_merge_test() {
    let mut main_router = Router::new();
    let mut sub_router = Router::new();
    let handler = Handler::new(1);

    main_router.get("router/test", handler).unwrap();
    sub_router.get("router/test", handler).unwrap();

    let logger = Middleware::new(1);

    sub_router.use_service(logger);

    main_router.use_router("sub_router", sub_router).unwrap();

    let result = main_router.search_route("router/test");
    let sub_result = main_router.search_route("sub_router/router/test");
    let fail_result = main_router.search_route("failed");

    assert!(result.is_ok());
    assert!(sub_result.is_ok());
    assert!(fail_result.is_err());

    match result {
        Ok(route) => {
            let middleware = route.get_middleware();
            let route_value = route.get_route(&Method::GET).unwrap();

            assert_eq!(middleware.len(), 0);
            assert_eq!(route_value.method, Method::GET);
        }
        _ => {
            assert!(false);
        }
    }

    match sub_result {
        Ok(route) => {
            let middleware = route.get_middleware();
            let route_value = route.get_route(&Method::GET).unwrap();

            assert_eq!(middleware.len(), 1);
            assert_eq!(route_value.method, Method::GET);
        }
        _ => {
            assert!(false);
        }
    }
}

#[should_panic]
#[test]
fn router_duplicate_path_test() {
    let mut router = Router::new();
    let handler = Handler::new(1);

    router.get("router/test", handler).unwrap();
    router.get("router/test", handler).unwrap();
}

#[should_panic]
#[test]
fn router_ambiguous_path_test() {
    let mut router = Router::new();
    let handler = Handler::new(1);

    router.get("router/:test", handler).unwrap();
    router.get("router/test", handler).unwrap();
}

#[should_panic]
#[test]
fn router_duplicate_merge_test() {
    let mut main_router = Router::new();
    let mut sub_router = Router::new();
    let handler = Handler::new(1);

    main_router.get("sub_router/test", handler).unwrap();
    sub_router.get("test", handler).unwrap();

    let logger = Middleware::new(1);

    sub_router.use_service(logger);

    main_router.use_router("sub_router", sub_router).unwrap();
}
