use thrust_build::scanner::{
    collect_bean, collect_impl, collect_layer, collect_routes, collect_service, scan_file, scan_items,
    try_unwrap_arc, type_to_string, unwrap_arc, AttrInfo, FieldInfo, FnInfo, ImplInfo, ItemInfo,
    ScanError, ScanResult, SegmentInfo, StructInfo, TypeInfo,
};

fn s(x: &str) -> String {
    x.to_string()
}

fn plain(name: &str) -> TypeInfo {
    TypeInfo { tokens: s(name), path: Some(vec![SegmentInfo { ident: s(name), args: vec![] }]), trait_bounds: None }
}

fn arc(inner: &str) -> TypeInfo {
    TypeInfo {
        tokens: format!("Arc < {} >", inner),
        path: Some(vec![SegmentInfo { ident: s("std"), args: vec![] }, SegmentInfo { ident: s("Arc"), args: vec![Some(s(inner))] }]),
        trait_bounds: None,
    }
}

fn attr(name: &str) -> AttrInfo {
    AttrInfo { ident: Some(s(name)), str_arg: None }
}

fn route_attr(method: &str, path: &str) -> AttrInfo {
    AttrInfo { ident: Some(s(method)), str_arg: Some(s(path)) }
}

fn function(attrs: Vec<AttrInfo>, name: &str, is_async: bool, inputs: Vec<Option<TypeInfo>>, output: Option<TypeInfo>) -> FnInfo {
    FnInfo { attrs, name: s(name), is_async, inputs, output }
}

#[test]
fn type_text_drops_spaces() {
    assert_eq!(type_to_string("Arc < dyn Repo + Send >"), "Arc<dynRepo+Send>");
    assert_eq!(type_to_string("u8"), "u8");
}

#[test]
fn arc_is_unwrapped() {
    assert_eq!(try_unwrap_arc(&arc("Db Pool")), Some(s("DbPool")));
    assert_eq!(try_unwrap_arc(&plain("DbPool")), None);
    assert_eq!(unwrap_arc(&arc("DbPool")), "DbPool");
    assert_eq!(unwrap_arc(&plain("DbPool")), "DbPool");
    let no_args = TypeInfo { tokens: s("Arc"), path: Some(vec![SegmentInfo { ident: s("Arc"), args: vec![] }]), trait_bounds: None };
    assert_eq!(try_unwrap_arc(&no_args), None);
    assert_eq!(unwrap_arc(&no_args), "Arc");
}

#[test]
fn service_struct_becomes_component() {
    let st = StructInfo {
        attrs: vec![attr("derive"), attr("service")],
        name: s("UserService"),
        named_fields: Some(vec![
            FieldInfo { name: Some(s("repo")), ty: arc("Repo") },
            FieldInfo { name: Some(s("pool")), ty: plain("DbPool") },
        ]),
    };
    let c = collect_service(&st).unwrap();
    assert_eq!(c.name, "UserService");
    assert_eq!(c.deps, vec![(s("repo"), s("Repo")), (s("pool"), s("DbPool"))]);
}

#[test]
fn struct_without_service_attribute_is_ignored() {
    let st = StructInfo { attrs: vec![attr("derive")], name: s("Plain"), named_fields: None };
    assert!(collect_service(&st).is_none());
}

#[test]
fn unit_service_has_no_dependencies() {
    let st = StructInfo { attrs: vec![attr("service")], name: s("Repo"), named_fields: None };
    assert!(collect_service(&st).unwrap().deps.is_empty());
}

#[test]
fn trait_impl_is_recorded() {
    let i = ImplInfo { trait_name: Some(s("UserRepository")), self_ty: plain("PostgresUserRepository") };
    let t = collect_impl(&i).unwrap();
    assert_eq!(t.trait_name, "UserRepository");
    assert_eq!(t.concrete, "PostgresUserRepository");
    let inherent = ImplInfo { trait_name: None, self_ty: plain("X") };
    assert!(collect_impl(&inherent).is_none());
}

#[test]
fn bean_returning_arc() {
    let f = function(vec![attr("bean")], "db_pool", false, vec![Some(arc("Config")), Some(plain("u8"))], Some(arc("DbPool")));
    let b = collect_bean(&f, "crate::config").unwrap().unwrap();
    assert_eq!(b.name, "DbPool");
    assert!(b.returns_arc);
    assert_eq!(b.deps, vec![s("Config")]);
    assert_eq!(b.mod_path, "crate::config");
    assert_eq!(b.fn_name, "db_pool");
}

#[test]
fn bean_returning_bare_type_is_wrapped() {
    let f = function(vec![attr("bean")], "server_config", true, vec![], Some(plain("ServerConfig")));
    let b = collect_bean(&f, "").unwrap().unwrap();
    assert_eq!(b.name, "ServerConfig");
    assert!(!b.returns_arc);
    assert!(b.is_async);
}

#[test]
fn bean_without_return_type_is_refused() {
    let f = function(vec![attr("bean")], "nothing", false, vec![], None);
    match collect_bean(&f, "") {
        Err(e @ ScanError::BeanWithoutType { .. }) => {
            assert_eq!(e.message(), "thrust: `#[bean]` function `nothing` must return `T` or `Arc<T>`");
        }
        _ => panic!("expected an error"),
    }
}

#[test]
fn layer_function_is_recorded() {
    let f = function(vec![attr("layer")], "tracing", false, vec![], None);
    let l = collect_layer(&f, "crate::config").unwrap();
    assert_eq!(l.fn_name, "tracing");
    assert_eq!(l.mod_path, "crate::config");
    assert!(collect_layer(&function(vec![], "x", false, vec![], None), "").is_none());
}

#[test]
fn each_method_attribute_declares_a_route() {
    let f = function(
        vec![route_attr("get", "/users"), attr("allow"), route_attr("post", "/users")],
        "users",
        true,
        vec![Some(arc("UserService")), Some(plain("Json"))],
        None,
    );
    let rs = collect_routes(&f, "crate::controllers").unwrap();
    assert_eq!(rs.len(), 2);
    assert_eq!(rs[0].method, "get");
    assert_eq!(rs[1].method, "post");
    assert_eq!(rs[0].path, "/users");
    assert_eq!(rs[0].arc_params, vec![s("UserService")]);
}

#[test]
fn route_on_sync_function_is_refused() {
    let f = function(vec![route_attr("get", "/")], "h", false, vec![], None);
    let e = collect_routes(&f, "").err().unwrap();
    assert_eq!(e.message(), "thrust: `#[get]` on `h` must be async");
}

#[test]
fn route_without_path_is_refused() {
    let f = function(vec![attr("delete")], "h", true, vec![], None);
    let e = collect_routes(&f, "").err().unwrap();
    assert_eq!(e.message(), "thrust: `#[delete]` on `h` requires a string literal path");
}

#[test]
fn items_of_a_file_are_collected_in_order() {
    let items = vec![
        ItemInfo::Struct(StructInfo { attrs: vec![attr("service")], name: s("Repo"), named_fields: None }),
        ItemInfo::Impl(ImplInfo { trait_name: Some(s("R")), self_ty: plain("Repo") }),
        ItemInfo::Fn(function(vec![attr("bean")], "pool", false, vec![], Some(arc("Pool")))),
        ItemInfo::Fn(function(vec![attr("layer")], "trace", false, vec![], None)),
        ItemInfo::Fn(function(vec![route_attr("get", "/")], "index", true, vec![], None)),
        ItemInfo::Other,
    ];
    let mut out = ScanResult::new();
    assert!(scan_items(&items, "crate::app", &mut out).is_ok());
    assert_eq!(out.components.len(), 1);
    assert_eq!(out.trait_impls.len(), 1);
    assert_eq!(out.beans.len(), 1);
    assert_eq!(out.layers.len(), 1);
    assert_eq!(out.raw_routes.len(), 1);
    assert_eq!(out.raw_routes[0].mod_path, "crate::app");
}

#[test]
fn bean_attribute_wins_over_route_attribute() {
    let items = vec![ItemInfo::Fn(function(vec![attr("bean"), route_attr("get", "/")], "b", false, vec![], Some(plain("B"))))];
    let mut out = ScanResult::new();
    assert!(scan_items(&items, "", &mut out).is_ok());
    assert_eq!(out.beans.len(), 1);
    assert!(out.raw_routes.is_empty());
}

#[test]
fn bare_dyn_field_records_its_trait() {
    let dyn_ty = |bounds: Vec<Option<String>>| TypeInfo { tokens: s("dyn UserRepository"), path: None, trait_bounds: Some(bounds) };
    let st = StructInfo {
        attrs: vec![attr("service")],
        name: s("UserService"),
        named_fields: Some(vec![
            FieldInfo { name: Some(s("repo")), ty: dyn_ty(vec![Some(s("UserRepository"))]) },
            FieldInfo { name: Some(s("other")), ty: dyn_ty(vec![None, Some(s("Repo"))]) },
        ]),
    };
    let c = collect_service(&st).unwrap();
    assert_eq!(c.deps, vec![(s("repo"), s("UserRepository")), (s("other"), s("Repo"))]);
}

#[test]
fn scan_file_reads_source_text() {
    let source = "use std::sync::Arc;\n\
        #[service]\npub struct UserService { pub repo: dyn UserRepository, pub pool: Arc<DbPool> }\n\
        impl UserRepository for PostgresUserRepository {}\n\
        #[bean]\npub async fn db_pool(cfg: Arc<Config>) -> Arc<DbPool> { todo!() }\n";
    let mut out = ScanResult::new();
    assert_eq!(scan_file("src/api/mod.rs", "src", source, &mut out).ok(), Some(true));
    assert_eq!(out.components.len(), 1);
    assert_eq!(out.components[0].name, "UserService");
    assert_eq!(out.components[0].deps, vec![(s("repo"), s("UserRepository")), (s("pool"), s("DbPool"))]);
    assert_eq!(out.trait_impls[0].trait_name, "UserRepository");
    assert_eq!(out.trait_impls[0].concrete, "PostgresUserRepository");
    assert_eq!(out.beans[0].name, "DbPool");
    assert_eq!(out.beans[0].deps, vec![s("Config")]);
    assert!(out.beans[0].is_async);
    assert_eq!(out.beans[0].mod_path, "crate::api");
}

#[test]
fn scan_file_skips_text_that_does_not_parse() {
    let mut out = ScanResult::new();
    assert_eq!(scan_file("src/broken.rs", "src", "fn (", &mut out).ok(), Some(false));
    assert!(out.components.is_empty() && out.beans.is_empty() && out.trait_impls.is_empty());
}

#[test]
fn scan_file_refuses_sync_route() {
    let mut out = ScanResult::new();
    match scan_file("src/app.rs", "src", "#[get(\"/x\")]\nfn h() {}\n", &mut out) {
        Err(ScanError::RouteNotAsync { method, fn_name }) => {
            assert_eq!(method, "get");
            assert_eq!(fn_name, "h");
        },
        _ => panic!("expected a refused route"),
    }
}

#[test]
fn arc_with_non_type_first_argument_is_not_unwrapped() {
    let t = TypeInfo {
        tokens: s("Arc < 'a , X >"),
        path: Some(vec![SegmentInfo { ident: s("Arc"), args: vec![None, Some(s("X"))] }]),
        trait_bounds: None,
    };
    assert_eq!(try_unwrap_arc(&t), None);
    assert_eq!(unwrap_arc(&t), "Arc<'a,X>");
    let empty = TypeInfo { tokens: s("X"), path: Some(vec![]), trait_bounds: None };
    assert_eq!(try_unwrap_arc(&empty), None);
}
