use std::sync::Arc;

use thrust_build::codegen::{build_stmt, container_plan, first_invalid_path, graph_nodes, router_plan, BuildStmt};
use thrust_build::graph::Adjacency;
use thrust_build::models::{BeanInfo, ComponentInfo, LayerInfo, RawRouteInfo, RouteInfo, TraitImpl};
use thrust_build::pipeline::{plan_generation, BuildError};
use thrust_build::scanner::ScanResult;
use thrust_build::services::{EmailService, PostgresUserRepository, UserRepository, UserService};
use thrust_build::validate::DependencyError;

fn s(x: &str) -> String {
    x.to_string()
}

fn names(xs: &[&str]) -> Vec<String> {
    xs.iter().map(|x| x.to_string()).collect()
}

fn component(name: &str, deps: &[(&str, &str)]) -> ComponentInfo {
    ComponentInfo { name: s(name), deps: deps.iter().map(|(f, t)| (s(f), s(t))).collect() }
}

fn bean(name: &str, fn_name: &str, deps: &[&str], is_async: bool, returns_arc: bool, mod_path: &str) -> BeanInfo {
    BeanInfo { name: s(name), fn_name: s(fn_name), is_async, returns_arc, deps: names(deps), mod_path: s(mod_path) }
}

fn route(fn_name: &str, method: &str, path: &str, params: &[&str]) -> RawRouteInfo {
    RawRouteInfo { fn_name: s(fn_name), method: s(method), path: s(path), mod_path: s("crate::controllers"), arc_params: names(params) }
}

fn scan(components: Vec<ComponentInfo>, beans: Vec<BeanInfo>, raw_routes: Vec<RawRouteInfo>, trait_impls: Vec<TraitImpl>) -> ScanResult {
    ScanResult { components, beans, layers: vec![LayerInfo { fn_name: s("trace"), mod_path: s("crate::config") }], raw_routes, trait_impls }
}

#[test]
fn component_statement_clones_dependency_variables() {
    let cs = vec![component("UserService", &[("repo", "PostgresUserRepository")])];
    match build_stmt(&s("UserService"), &cs, &vec![]) {
        BuildStmt::Construct { var, ty, fields } => {
            assert_eq!(var, "user_service");
            assert_eq!(ty, "UserService");
            assert_eq!(fields, vec![(s("repo"), s("postgres_user_repository"))]);
        }
        _ => panic!("expected a construction"),
    }
}

#[test]
fn bean_statement_calls_factory() {
    let bs = vec![bean("DbPool", "db_pool", &["Config"], true, false, "crate::db")];
    match build_stmt(&s("DbPool"), &vec![], &bs) {
        BuildStmt::CallBean { var, mod_path, fn_name, args, is_async, wrap_arc } => {
            assert_eq!(var, "db_pool");
            assert_eq!(mod_path, "crate::db");
            assert_eq!(fn_name, "db_pool");
            assert_eq!(args, names(&["config"]));
            assert!(is_async);
            assert!(wrap_arc);
        }
        _ => panic!("expected a bean call"),
    }
}

#[test]
fn component_takes_precedence_over_bean_of_same_name() {
    let cs = vec![component("X", &[])];
    let bs = vec![bean("X", "x", &[], false, true, "")];
    assert!(matches!(build_stmt(&s("X"), &cs, &bs), BuildStmt::Construct { .. }));
}

#[test]
fn container_fields_follow_order() {
    let cs = vec![component("A", &[("b", "B")]), component("B", &[])];
    let plan = container_plan(&names(&["B", "A"]), &cs, &vec![], false);
    assert_eq!(plan.fields, vec![(s("b"), s("B")), (s("a"), s("A"))]);
    assert_eq!(plan.stmts.len(), 2);
    assert!(!plan.is_async);
}

#[test]
fn graph_nodes_follow_order() {
    let mut adj = Adjacency::new();
    adj.insert(s("A"), names(&["B"]));
    adj.insert(s("B"), names(&[]));
    let nodes = graph_nodes(&names(&["B", "A"]), &adj);
    assert_eq!(nodes, vec![(s("B"), names(&[])), (s("A"), names(&["B"]))]);
}

#[test]
fn router_plan_names_wrappers_and_state_fields() {
    let routes = vec![RouteInfo { fn_name: s("list_users"), method: s("get"), path: s("/users"), mod_path: s("crate::controllers"), service_params: names(&["UserService"]) }];
    let layers = vec![LayerInfo { fn_name: s("trace"), mod_path: s("") }];
    let plan = router_plan(&routes, &layers, true, false);
    assert_eq!(plan.routes[0].wrapper, "__thrust_list_users");
    assert_eq!(plan.routes[0].state_fields, names(&["user_service"]));
    assert_eq!(plan.layers[0].fn_name, "trace");
    assert!(plan.build_async);
    assert!(!plan.has_server_config);
}

#[test]
fn module_paths_must_be_crate_paths() {
    assert_eq!(first_invalid_path(&names(&["", "crate", "crate::db", "crate::a::b", "crate::_x9"])), None);
    assert_eq!(first_invalid_path(&names(&["crate::db", "crate::(", "\"open"])), Some(s("crate::(")));
    assert_eq!(first_invalid_path(&names(&["crate::my-mod"])), Some(s("crate::my-mod")));
    assert_eq!(first_invalid_path(&names(&["crate::api::"])), Some(s("crate::api::")));
    assert_eq!(first_invalid_path(&names(&["crate::9lives"])), Some(s("crate::9lives")));
    assert_eq!(first_invalid_path(&names(&["crate::_"])), Some(s("crate::_")));
    assert_eq!(first_invalid_path(&names(&["self::db"])), Some(s("self::db")));
    assert_eq!(first_invalid_path(&names(&["crate:db"])), Some(s("crate:db")));
    assert_eq!(first_invalid_path(&names(&["crate::café", "crate::日本::_x", "crate::ünï9"])), None);
    assert_eq!(first_invalid_path(&names(&["crate::café-bar"])), Some(s("crate::café-bar")));
    assert_eq!(first_invalid_path(&names(&["crate::·x"])), Some(s("crate::·x")));
}

#[test]
fn full_plan_orders_dependencies_first() {
    let sc = scan(
        vec![
            component("UserService", &[("repo", "UserRepository"), ("pool", "DbPool")]),
            component("PostgresUserRepository", &[]),
            component("EmailService", &[("repo", "UserRepository")]),
        ],
        vec![bean("DbPool", "db_pool", &[], false, true, "crate::db"), bean("ServerConfig", "server_config", &[], false, false, "crate::config")],
        vec![route("list_users", "get", "/users", &["UserService"]), route("create_user", "post", "/users", &["UserService", "EmailService"])],
        vec![TraitImpl { trait_name: s("UserRepository"), concrete: s("PostgresUserRepository") }],
    );
    let plan = match plan_generation(sc) {
        Ok(p) => p,
        Err(_) => panic!("expected a plan"),
    };
    let pos = |n: &str| plan.order.iter().position(|x| x == n).unwrap();
    assert_eq!(plan.order.len(), 5);
    assert!(pos("PostgresUserRepository") < pos("UserService"));
    assert!(pos("DbPool") < pos("UserService"));
    assert!(pos("PostgresUserRepository") < pos("EmailService"));
    assert_eq!(plan.components[0].deps[0].1, "PostgresUserRepository");
    let router = plan.router.unwrap();
    assert_eq!(router.routes.len(), 2);
    assert!(router.has_server_config);
    assert_eq!(router.routes[1].state_fields, names(&["user_service", "email_service"]));
}

#[test]
fn plan_without_routes_has_no_router() {
    let sc = ScanResult { components: vec![component("A", &[])], beans: vec![], layers: vec![], raw_routes: vec![], trait_impls: vec![] };
    let plan = plan_generation(sc).ok().unwrap();
    assert!(plan.router.is_none());
    assert_eq!(plan.order, names(&["A"]));
}

#[test]
fn plan_refuses_missing_dependency() {
    let sc = scan(vec![component("A", &[("b", "B")])], vec![], vec![], vec![]);
    match plan_generation(sc) {
        Err(BuildError::UnresolvedDependencies(es)) => {
            assert_eq!(es.len(), 1);
            assert!(matches!(&es[0], DependencyError::ComponentField { component, field, ty } if component == "A" && field == "b" && ty == "B"));
        },
        _ => panic!("expected unresolved dependencies"),
    }
}

#[test]
fn plan_refuses_cycle() {
    let sc = scan(vec![component("A", &[("b", "B")]), component("B", &[("a", "A")])], vec![], vec![], vec![]);
    match plan_generation(sc) {
        Err(BuildError::Cycle(c)) => assert_eq!(c, names(&["A", "B", "A"])),
        _ => panic!("expected a cycle"),
    }
}

#[test]
fn plan_refuses_ambiguous_trait() {
    let sc = scan(
        vec![component("S", &[("r", "Repo")]), component("A", &[]), component("B", &[])],
        vec![],
        vec![],
        vec![TraitImpl { trait_name: s("Repo"), concrete: s("A") }, TraitImpl { trait_name: s("Repo"), concrete: s("B") }],
    );
    assert!(matches!(plan_generation(sc), Err(BuildError::AmbiguousTrait(_))));
}

#[test]
fn plan_refuses_duplicate_route() {
    let sc = scan(vec![component("A", &[])], vec![], vec![route("x", "get", "/", &[]), route("y", "get", "/", &[])], vec![]);
    assert!(matches!(plan_generation(sc), Err(BuildError::InvalidRoutes(_))));
}

#[test]
fn plan_refuses_invalid_module_path() {
    let sc = scan(vec![], vec![bean("P", "p", &[], false, true, "crate::(")], vec![], vec![]);
    match plan_generation(sc) {
        Err(BuildError::InvalidModulePath(p)) => assert_eq!(p, "crate::("),
        _ => panic!("expected an invalid module path"),
    }
}

#[test]
fn user_service_greets_with_repository_user() {
    let repo = Arc::new(PostgresUserRepository);
    assert_eq!(repo.find_user(), "user from postgres");
    let svc = UserService { repo: repo.clone() };
    assert_eq!(svc.hello(), "hello from UserService \u{2014} user from postgres");
    let email = EmailService { repo };
    assert_eq!(email.repo.find_user(), "user from postgres");
}

#[test]
fn plan_refuses_unknown_bean_param() {
    let sc = scan(vec![component("A", &[])], vec![bean("P", "make_p", &["Missing"], false, true, "crate::db")], vec![], vec![]);
    match plan_generation(sc) {
        Err(BuildError::UnresolvedDependencies(es)) => {
            assert_eq!(es.len(), 1);
            assert!(matches!(&es[0], DependencyError::BeanParam { bean, fn_name, ty } if bean == "P" && fn_name == "make_p" && ty == "Missing"));
        },
        _ => panic!("expected unresolved dependencies"),
    }
}

#[test]
fn plan_wires_bare_dyn_field_to_implementor() {
    let sc = scan(
        vec![
            component("PostgresUserRepository", &[]),
            component("UserService", &[("repo", "UserRepository")]),
            component("EmailService", &[("repo", "UserRepository")]),
        ],
        vec![],
        vec![],
        vec![TraitImpl { trait_name: s("UserRepository"), concrete: s("PostgresUserRepository") }],
    );
    let plan = plan_generation(sc).ok().unwrap();
    assert_eq!(plan.components[1].deps, vec![(s("repo"), s("PostgresUserRepository"))]);
    assert_eq!(plan.components[2].deps, vec![(s("repo"), s("PostgresUserRepository"))]);
    assert_eq!(plan.order[0], "PostgresUserRepository");
}
