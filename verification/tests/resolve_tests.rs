use thrust_build::graph::find_name;
use thrust_build::models::{BeanInfo, ComponentInfo, RawRouteInfo, TraitImpl};
use thrust_build::resolve::{build_adjacency, resolve_routes, resolve_trait_deps};
use thrust_build::validate::{validate_bean_deps, validate_routes, validate_service_deps, DependencyError, RouteError};

fn s(x: &str) -> String {
    x.to_string()
}

fn names(xs: &[&str]) -> Vec<String> {
    xs.iter().map(|x| x.to_string()).collect()
}

fn component(name: &str, deps: &[(&str, &str)]) -> ComponentInfo {
    ComponentInfo { name: s(name), deps: deps.iter().map(|(f, t)| (s(f), s(t))).collect() }
}

fn bean(name: &str, deps: &[&str]) -> BeanInfo {
    BeanInfo {
        name: s(name),
        fn_name: s("make"),
        is_async: false,
        returns_arc: true,
        deps: names(deps),
        mod_path: s("crate::config"),
    }
}

fn route(fn_name: &str, method: &str, path: &str, params: &[&str]) -> RawRouteInfo {
    RawRouteInfo {
        fn_name: s(fn_name),
        method: s(method),
        path: s(path),
        mod_path: s("crate::controllers"),
        arc_params: names(params),
    }
}

fn implementation(t: &str, c: &str) -> TraitImpl {
    TraitImpl { trait_name: s(t), concrete: s(c) }
}

#[test]
fn trait_dependency_resolves_to_its_single_implementor() {
    let impls = vec![implementation("UserRepository", "PostgresUserRepository")];
    let mut components = vec![
        component("UserService", &[("repo", "UserRepository"), ("mail", "Mailer")]),
        component("PostgresUserRepository", &[]),
    ];
    let mut beans = vec![bean("Pool", &["UserRepository"])];
    let mut routes = vec![route("list", "get", "/users", &["UserRepository", "UserService"])];
    assert!(resolve_trait_deps(&impls, &mut components, &mut beans, &mut routes).is_ok());
    assert_eq!(components[0].deps[0].1, "PostgresUserRepository");
    assert_eq!(components[0].deps[0].0, "repo");
    assert_eq!(components[0].deps[1].1, "Mailer");
    assert_eq!(beans[0].deps, names(&["PostgresUserRepository"]));
    assert_eq!(routes[0].arc_params, names(&["PostgresUserRepository", "UserService"]));
}

#[test]
fn ambiguous_trait_is_refused_and_nothing_is_rewritten() {
    let impls = vec![
        implementation("Repo", "A"),
        implementation("Other", "X"),
        implementation("Repo", "B"),
    ];
    let mut components = vec![component("S", &[("o", "Other"), ("r", "Repo")])];
    let mut beans = vec![];
    let mut routes = vec![];
    let err = resolve_trait_deps(&impls, &mut components, &mut beans, &mut routes).unwrap_err();
    assert_eq!(err.trait_name, "Repo");
    assert_eq!(err.implementors, names(&["A", "B"]));
    assert_eq!(components[0].deps[0].1, "Other");
    assert_eq!(
        err.message(),
        "thrust: trait `Repo` is implemented by multiple components (A, B); cannot decide which to inject for `Arc<dyn Repo>`"
    );
}

#[test]
fn unused_ambiguous_trait_is_no_error() {
    let impls = vec![implementation("Repo", "A"), implementation("Repo", "B")];
    let mut components = vec![component("S", &[("x", "Plain")])];
    let mut beans = vec![];
    let mut routes = vec![];
    assert!(resolve_trait_deps(&impls, &mut components, &mut beans, &mut routes).is_ok());
    assert_eq!(components[0].deps[0].1, "Plain");
}

#[test]
fn adjacency_keeps_known_dependencies_and_beans_replace_components() {
    let components = vec![
        component("A", &[("b", "B"), ("x", "Unknown")]),
        component("B", &[]),
        component("C", &[("a", "A")]),
    ];
    let beans = vec![bean("C", &["B", "Nope"])];
    let known = names(&["A", "B", "C"]);
    let adj = build_adjacency(&components, &beans, &known);
    assert_eq!(adj.get(&s("A")), Some(&names(&["B"])));
    assert_eq!(adj.get(&s("B")), Some(&names(&[])));
    assert_eq!(adj.get(&s("C")), Some(&names(&["B"])));
    assert_eq!(adj.get(&s("Unknown")), None);
}

#[test]
fn routes_keep_only_known_service_parameters() {
    let raw = vec![route("h", "get", "/", &["A", "Missing", "B"])];
    let routes = resolve_routes(raw, &names(&["A", "B"]));
    assert_eq!(routes.len(), 1);
    assert_eq!(routes[0].service_params, names(&["A", "B"]));
    assert_eq!(routes[0].fn_name, "h");
    assert_eq!(routes[0].path, "/");
}

#[test]
fn unresolved_component_dependency_is_reported() {
    let components = vec![component("UserService", &[("repo", "Repo"), ("db", "Db")])];
    let errors = validate_service_deps(&components, &names(&["UserService", "Db"]));
    assert_eq!(errors.len(), 1);
    match &errors[0] {
        DependencyError::ComponentField { component, field, ty } => {
            assert_eq!(component, "UserService");
            assert_eq!(field, "repo");
            assert_eq!(ty, "Repo");
        },
        _ => panic!("expected a component field error"),
    }
    assert_eq!(
        errors[0].message(),
        "`UserService::repo` depends on `Repo`, which is not a @service or @bean component"
    );
}

#[test]
fn resolved_dependencies_pass_validation() {
    let components = vec![component("A", &[("b", "B")]), component("B", &[])];
    assert!(validate_service_deps(&components, &names(&["A", "B"])).is_empty());
}

#[test]
fn route_with_unknown_parameter_is_reported() {
    let raw = vec![route("list", "get", "/users", &["Missing"])];
    let errors = validate_routes(&raw, &names(&["A"]));
    assert_eq!(errors.len(), 1);
    assert_eq!(
        errors[0].message(),
        "handler `list` has Arc<Missing> parameter but `Missing` is not a @service or @bean component"
    );
}

#[test]
fn duplicate_route_is_reported_with_upper_case_method() {
    let raw = vec![
        route("a", "get", "/users", &[]),
        route("b", "post", "/users", &[]),
        route("c", "get", "/users", &[]),
    ];
    let errors = validate_routes(&raw, &names(&[]));
    assert_eq!(errors.len(), 1);
    match &errors[0] {
        RouteError::DuplicateRoute { method, path } => {
            assert_eq!(method, "get");
            assert_eq!(path, "/users");
        }
        _ => panic!("expected a duplicate route"),
    }
    assert_eq!(
        errors[0].message(),
        "duplicate route `GET /users` \u{2014} only one handler per method+path is allowed"
    );
}

#[test]
fn find_name_reports_position() {
    let v = names(&["a", "b", "c"]);
    assert_eq!(find_name(&v, &s("c")), Some(2));
    assert_eq!(find_name(&v, &s("z")), None);
}

#[test]
fn valid_routes_keep_every_parameter_when_resolved() {
    let known = names(&["A", "B"]);
    let raw = vec![route("x", "get", "/a", &["A"]), route("y", "get", "/b", &["B", "A"])];
    assert!(validate_routes(&raw, &known).is_empty());
    let routes = resolve_routes(raw, &known);
    assert_eq!(routes[0].service_params, names(&["A"]));
    assert_eq!(routes[1].service_params, names(&["B", "A"]));
}

#[test]
fn unresolved_bean_param_is_reported() {
    let beans = vec![bean("Svc", &["Db", "Missing"])];
    let errors = validate_bean_deps(&beans, &names(&["Svc", "Db"]));
    assert_eq!(errors.len(), 1);
    match &errors[0] {
        DependencyError::BeanParam { bean, fn_name, ty } => {
            assert_eq!(bean, "Svc");
            assert_eq!(fn_name, "make");
            assert_eq!(ty, "Missing");
        },
        _ => panic!("expected a bean parameter error"),
    }
    assert_eq!(
        errors[0].message(),
        "`#[bean]` function `make` producing `Svc` takes Arc<Missing>, but `Missing` is not a @service or @bean component"
    );
    assert!(validate_bean_deps(&beans, &names(&["Svc", "Db", "Missing"])).is_empty());
}

#[test]
fn resolving_twice_changes_nothing() {
    let impls = vec![implementation("UserRepository", "PostgresUserRepository"), implementation("Mailer", "SmtpMailer")];
    let mut components = vec![
        component("UserService", &[("repo", "UserRepository"), ("mail", "Mailer")]),
        component("PostgresUserRepository", &[]),
    ];
    let mut beans = vec![bean("Pool", &["UserRepository", "Config"])];
    let mut routes = vec![route("list", "get", "/users", &["Mailer", "UserService"])];
    assert!(resolve_trait_deps(&impls, &mut components, &mut beans, &mut routes).is_ok());
    let once = (format!("{:?}", components), format!("{:?}", beans), format!("{:?}", routes));
    assert!(resolve_trait_deps(&impls, &mut components, &mut beans, &mut routes).is_ok());
    let twice = (format!("{:?}", components), format!("{:?}", beans), format!("{:?}", routes));
    assert_eq!(once, twice);
    assert_eq!(components[0].deps[1].1, "SmtpMailer");
}
