use vstd::prelude::*;

use crate::codegen::{
    find_last_bean, find_last_component, build_stmt_spec, container_plan, first_invalid_path, graph_nodes, is_declared,
    last_bean_index, last_component_index, route_plan_spec, router_plan,
    ContainerPlan, RouterPlan,
};
use crate::graph::{
    deps_first, detect_cycles, has_reachable_cycle, is_search_report, law_acyclic_names_buildable,
    order_nodes, topological_sort,
};
use crate::models::{strs, views, BeanInfo, BeanModel, ComponentInfo, ComponentModel, RawRouteModel};
use crate::resolve::{
    build_adjacency, component_adjacency, declared_names, first_ambiguous_at, implementors,
    injected_types, is_ambiguous, lemma_component_adjacency, lemma_with_beans, resolve_routes,
    resolve_trait_deps, resolved_bean, resolved_component, resolved_raw_route, resolved_route,
    with_beans, AmbiguousTrait,
};
use crate::scanner::{ScanModel, ScanResult};
use crate::utils::is_module_path;
use crate::validate::{
    missing_bean_deps, missing_deps, route_errors, validate_bean_deps, validate_routes,
    validate_service_deps, DependencyError, RouteError,
};

verus! {

/// Why the generator refuses a scanned crate.
#[derive(Debug)]
pub enum BuildError {
    /// A dependency is typed by a trait with several implementors.
    AmbiguousTrait(AmbiguousTrait),
    /// Component fields and bean parameters whose types are neither services
    /// nor beans.
    UnresolvedDependencies(Vec<DependencyError>),
    /// A dependency cycle, as `detect_cycles` reports it.
    Cycle(Vec<String>),
    /// Route handlers with unknown parameters or repeated method and path.
    InvalidRoutes(Vec<RouteError>),
    /// A non-empty module path that is not `crate` followed by `::`-separated
    /// identifiers.
    InvalidModulePath(String),
}

/// Everything the generated code is rendered from.
#[derive(Debug)]
pub struct GenerationPlan {
    /// The components, with trait dependencies resolved (the metadata).
    pub components: Vec<ComponentInfo>,
    /// The build order of all components and beans.
    pub order: Vec<String>,
    /// The dependency graph, one node per name of `order`.
    pub graph: Vec<(String, Vec<String>)>,
    /// The container.
    pub container: ContainerPlan,
    /// The router and server start-up, when there are routes.
    pub router: Option<RouterPlan>,
}

/// The components with trait dependencies resolved.
pub open spec fn resolved_components_of(m: ScanModel) -> Seq<ComponentModel> {
    m.components.map_values(|c: ComponentModel| resolved_component(m.trait_impls, c))
}

/// The beans with trait dependencies resolved.
pub open spec fn resolved_beans_of(m: ScanModel) -> Seq<BeanModel> {
    m.beans.map_values(|b: BeanModel| resolved_bean(m.trait_impls, b))
}

/// The raw routes with trait parameters resolved.
pub open spec fn resolved_raw_routes_of(m: ScanModel) -> Seq<RawRouteModel> {
    m.raw_routes.map_values(|r: RawRouteModel| resolved_raw_route(m.trait_impls, r))
}

/// The names that can be injected: components, then beans.
pub open spec fn known_of(m: ScanModel) -> Seq<Seq<char>> {
    declared_names(resolved_components_of(m), resolved_beans_of(m))
}

/// The dependency adjacency of the resolved components and beans.
pub open spec fn adjacency_of(m: ScanModel) -> Map<Seq<char>, Seq<Seq<char>>> {
    with_beans(
        component_adjacency(resolved_components_of(m), known_of(m)),
        resolved_beans_of(m),
        known_of(m),
    )
}

/// Some injected type names a trait with several implementors.
pub open spec fn has_ambiguous_trait(m: ScanModel) -> bool {
    exists|i: int|
        0 <= i < injected_types(m.components, m.beans, m.raw_routes).len() && is_ambiguous(
            m.trait_impls,
            #[trigger] injected_types(m.components, m.beans, m.raw_routes)[i],
        )
}

/// The module path the container statement for `name` calls through: that of
/// the bean it calls, none for a component.
pub open spec fn stmt_paths(name: Seq<char>, cs: Seq<ComponentModel>, bs: Seq<BeanModel>) -> Seq<Seq<char>> {
    match last_component_index(cs, name) {
        Some(_) => Seq::empty(),
        None => match last_bean_index(bs, name) {
            Some(i) => seq![bs[i].mod_path],
            None => Seq::empty(),
        },
    }
}

/// The module paths the container calls through, name by name.
pub open spec fn container_paths(names: Seq<Seq<char>>, cs: Seq<ComponentModel>, bs: Seq<BeanModel>) -> Seq<
    Seq<char>,
>
    decreases names.len(),
{
    if names.len() == 0 {
        Seq::empty()
    } else {
        container_paths(names.drop_last(), cs, bs) + stmt_paths(names.last(), cs, bs)
    }
}

/// The module paths generated code calls through: beans, then (when there are
/// routes) route handlers and layers.
pub open spec fn used_paths(m: ScanModel) -> Seq<Seq<char>> {
    let rs = resolved_raw_routes_of(m);
    container_paths(known_of(m), resolved_components_of(m), resolved_beans_of(m)) + if rs.len() > 0 {
        rs.map_values(|r: RawRouteModel| r.mod_path) + m.layers.map_values(
            |l: (Seq<char>, Seq<char>)| l.1,
        )
    } else {
        Seq::empty()
    }
}

/// `p` is the first non-empty path of `paths` that is not a module path.
pub open spec fn first_invalid_path_at(paths: Seq<Seq<char>>, p: Seq<char>) -> bool {
    exists|i: int|
        0 <= i < paths.len() && #[trigger] paths[i] == p && p.len() > 0 && !is_module_path(p)
            && forall|j: int| 0 <= j < i ==> (#[trigger] paths[j]).len() == 0 || is_module_path(paths[j])
}

/// Every non-empty path of `paths` is a module path.
pub open spec fn all_valid_paths(paths: Seq<Seq<char>>) -> bool {
    forall|j: int| 0 <= j < paths.len() ==> (#[trigger] paths[j]).len() == 0 || is_module_path(paths[j])
}

/// The checks a scan passes before it can be generated, in order.
pub open spec fn passes_traits(m: ScanModel) -> bool {
    !has_ambiguous_trait(m)
}

pub open spec fn passes_deps(m: ScanModel) -> bool {
    passes_traits(m) && missing_deps(resolved_components_of(m), known_of(m)).len() == 0
        && missing_bean_deps(resolved_beans_of(m), known_of(m)).len() == 0
}

pub open spec fn passes_cycles(m: ScanModel) -> bool {
    passes_deps(m) && !has_reachable_cycle(adjacency_of(m), known_of(m))
}

pub open spec fn passes_routes(m: ScanModel) -> bool {
    passes_cycles(m) && route_errors(resolved_raw_routes_of(m), known_of(m)).len() == 0
}

pub open spec fn passes_paths(m: ScanModel) -> bool {
    passes_routes(m) && all_valid_paths(used_paths(m))
}

/// The names of the components and then of the beans.
fn declared_name_list(components: &Vec<ComponentInfo>, beans: &Vec<BeanInfo>) -> (r: Vec<String>)
    ensures
        strs(r@) == declared_names(views(components@), views(beans@)),
{
    let mut r: Vec<String> = Vec::new();
    let mut i: usize = 0;
    while i < components.len()
        invariant
            i <= components@.len(),
            strs(r@) == views(components@).take(i as int).map_values(|c: ComponentModel| c.name),
        decreases components@.len() - i,
    {
        let ghost r0 = strs(r@);
        r.push(components[i].name.clone());
        assert(strs(r@) =~= r0.push(components@[i as int].name@));
        assert(strs(r@) =~= views(components@).take(i + 1).map_values(|c: ComponentModel| c.name));
        i = i + 1;
    }
    let ghost cn = strs(r@);
    assert(views(components@).take(components@.len() as int) =~= views(components@));
    let mut j: usize = 0;
    while j < beans.len()
        invariant
            j <= beans@.len(),
            strs(r@) == cn + views(beans@).take(j as int).map_values(|b: BeanModel| b.name),
        decreases beans@.len() - j,
    {
        let ghost r0 = strs(r@);
        r.push(beans[j].name.clone());
        assert(strs(r@) =~= r0.push(beans@[j as int].name@));
        assert(strs(r@) =~= cn + views(beans@).take(j + 1).map_values(|b: BeanModel| b.name));
        j = j + 1;
    }
    assert(views(beans@).take(beans@.len() as int) =~= views(beans@));
    r
}

/// Whether some bean is async.
fn any_async_bean(beans: &Vec<BeanInfo>) -> (r: bool)
    ensures
        r == exists|i: int| 0 <= i < beans@.len() && (#[trigger] beans@[i]).is_async,
{
    let mut i: usize = 0;
    while i < beans.len()
        invariant
            i <= beans@.len(),
            forall|m: int| 0 <= m < i ==> !(#[trigger] beans@[m]).is_async,
        decreases beans@.len() - i,
    {
        if beans[i].is_async {
            return true;
        }
        i = i + 1;
    }
    false
}

/// Whether some bean produces `ServerConfig`.
fn has_server_config_bean(beans: &Vec<BeanInfo>) -> (r: bool)
    ensures
        r == exists|i: int| 0 <= i < beans@.len() && (#[trigger] beans@[i]).name@ == "ServerConfig"@,
{
    let wanted = String::from_str("ServerConfig");
    let mut i: usize = 0;
    while i < beans.len()
        invariant
            wanted@ == "ServerConfig"@,
            i <= beans@.len(),
            forall|m: int| 0 <= m < i ==> (#[trigger] beans@[m]).name@ != "ServerConfig"@,
        decreases beans@.len() - i,
    {
        if beans[i].name == wanted {
            return true;
        }
        i = i + 1;
    }
    false
}


/// The module paths generated code calls through (see `used_paths`).
fn collect_used_paths(
    known: &Vec<String>,
    components: &Vec<ComponentInfo>,
    beans: &Vec<BeanInfo>,
    raw_routes: &Vec<crate::models::RawRouteInfo>,
    layers: &Vec<crate::models::LayerInfo>,
) -> (r: Vec<String>)
    ensures
        strs(r@) == container_paths(strs(known@), views(components@), views(beans@)) + if raw_routes@.len() > 0 {
            views(raw_routes@).map_values(|r: RawRouteModel| r.mod_path) + views(layers@).map_values(
                |l: (Seq<char>, Seq<char>)| l.1,
            )
        } else {
            Seq::empty()
        },
{
    let ghost kv = strs(known@);
    let ghost cs = views(components@);
    let ghost bs = views(beans@);
    let mut r: Vec<String> = Vec::new();
    let mut i: usize = 0;
    assert(strs(r@) =~= Seq::<Seq<char>>::empty());
    while i < known.len()
        invariant
            kv == strs(known@),
            cs == views(components@),
            bs == views(beans@),
            i <= known@.len(),
            strs(r@) == container_paths(kv.take(i as int), cs, bs),
        decreases known@.len() - i,
    {
        proof {
            assert(kv.take(i + 1).drop_last() =~= kv.take(i as int));
            assert(kv.take(i + 1).last() == known@[i as int]@);
        }
        let ghost r0 = strs(r@);
        match find_last_component(components, &known[i]) {
            Some(_) => {
                assert(strs(r@) =~= r0 + stmt_paths(known@[i as int]@, cs, bs));
            },
            None => {
                match find_last_bean(beans, &known[i]) {
                    Some(b) => {
                        proof { crate::codegen::lemma_last_bean_index(bs, known@[i as int]@); }
                        r.push(beans[b].mod_path.clone());
                        assert(strs(r@) =~= r0 + stmt_paths(known@[i as int]@, cs, bs));
                    },
                    None => {
                        assert(strs(r@) =~= r0 + stmt_paths(known@[i as int]@, cs, bs));
                    },
                }
            },
        }
        i = i + 1;
    }
    assert(kv.take(known@.len() as int) =~= kv);
    if raw_routes.len() > 0 {
        let ghost c0 = strs(r@);
        let mut j: usize = 0;
        while j < raw_routes.len()
            invariant
                j <= raw_routes@.len(),
                strs(r@) == c0 + views(raw_routes@).take(j as int).map_values(|r: RawRouteModel| r.mod_path),
            decreases raw_routes@.len() - j,
        {
            let ghost r0 = strs(r@);
            r.push(raw_routes[j].mod_path.clone());
            assert(strs(r@) =~= r0.push(raw_routes@[j as int].mod_path@));
            assert(strs(r@) =~= c0 + views(raw_routes@).take(j + 1).map_values(|r: RawRouteModel| r.mod_path));
            j = j + 1;
        }
        assert(views(raw_routes@).take(raw_routes@.len() as int) =~= views(raw_routes@));
        let ghost c1 = strs(r@);
        let mut k: usize = 0;
        while k < layers.len()
            invariant
                k <= layers@.len(),
                strs(r@) == c1 + views(layers@).take(k as int).map_values(|l: (Seq<char>, Seq<char>)| l.1),
            decreases layers@.len() - k,
        {
            let ghost r0 = strs(r@);
            r.push(layers[k].mod_path.clone());
            assert(strs(r@) =~= r0.push(layers@[k as int].mod_path@));
            assert(strs(r@) =~= c1 + views(layers@).take(k + 1).map_values(|l: (Seq<char>, Seq<char>)| l.1));
            k = k + 1;
        }
        assert(views(layers@).take(layers@.len() as int) =~= views(layers@));
    }
    r
}

/// The plan renders the scan: resolved components as metadata; every known
/// name exactly once in an order where dependencies come first; the graph,
/// container and router along that order.
pub open spec fn plan_renders(m: ScanModel, p: GenerationPlan) -> bool {
    let cs = resolved_components_of(m);
    let bs = resolved_beans_of(m);
    let known = known_of(m);
    let adj = adjacency_of(m);
    let order = strs(p.order@);
    &&& views(p.components@) == cs
    &&& order.no_duplicates()
    &&& forall|x: Seq<char>| order.contains(x) <==> known.contains(x)
    &&& deps_first(adj, order)
    &&& p.graph@.len() == order.len()
    &&& forall|i: int|
        0 <= i < order.len() ==> #[trigger] p.graph@[i].0@ == order[i] && strs(p.graph@[i].1@) == adj[order[i]]
    &&& p.container.fields@.len() == order.len()
    &&& p.container.stmts@.len() == order.len()
    &&& forall|i: int|
        0 <= i < order.len() ==> #[trigger] p.container.fields@[i].0@ == crate::utils::snake_case(order[i])
            && p.container.fields@[i].1@ == order[i]
    &&& forall|i: int| 0 <= i < order.len() ==> #[trigger] p.container.stmts@[i]@ == build_stmt_spec(order[i], cs, bs)
    &&& p.container.is_async == exists|i: int| 0 <= i < bs.len() && (#[trigger] bs[i]).is_async
    &&& (p.router is Some <==> m.raw_routes.len() > 0)
    &&& p.router matches Some(rp) ==> {
        &&& rp.routes@.len() == m.raw_routes.len()
        &&& forall|i: int|
            0 <= i < m.raw_routes.len() ==> #[trigger] rp.routes@[i]@ == route_plan_spec(
                resolved_route(resolved_raw_routes_of(m)[i], known),
            )
        &&& views(rp.layers@) == m.layers
        &&& rp.build_async == p.container.is_async
        &&& rp.has_server_config == exists|i: int| 0 <= i < bs.len() && (#[trigger] bs[i]).name == "ServerConfig"@
    }
}

/// What a concatenation contains.
pub(crate) proof fn lemma_concat_contains(a: Seq<Seq<char>>, b: Seq<Seq<char>>, x: Seq<char>)
    ensures
        (a + b).contains(x) <==> (a.contains(x) || b.contains(x)),
{
    if (a + b).contains(x) {
        let i = choose|i: int| 0 <= i < (a + b).len() && (a + b)[i] == x;
        if i < a.len() {
            assert(a[i] == x);
        } else {
            assert(b[i - a.len()] == x);
        }
    }
    if a.contains(x) {
        let i = choose|i: int| 0 <= i < a.len() && a[i] == x;
        assert((a + b)[i] == x);
    }
    if b.contains(x) {
        let i = choose|i: int| 0 <= i < b.len() && b[i] == x;
        assert((a + b)[a.len() + i] == x);
    }
}

/// Checks a scanned crate and plans the code to generate for it. The checks
/// run in order, and the first that fails refuses the crate: a dependency on
/// an ambiguous trait, unresolved component dependencies, a dependency cycle,
/// invalid routes, a module path that generated code cannot call through. Otherwise every
/// component and bean is placed in a build order where its dependencies come
/// first, and the container, graph and router are planned along it.
pub fn plan_generation(scan: ScanResult) -> (r: Result<GenerationPlan, BuildError>)
    ensures
        (r matches Err(BuildError::AmbiguousTrait(_))) <==> !passes_traits(scan@),
        (r matches Err(BuildError::UnresolvedDependencies(_))) <==> passes_traits(scan@) && !passes_deps(scan@),
        (r matches Err(BuildError::Cycle(_))) <==> passes_deps(scan@) && !passes_cycles(scan@),
        (r matches Err(BuildError::InvalidRoutes(_))) <==> passes_cycles(scan@) && !passes_routes(scan@),
        (r matches Err(BuildError::InvalidModulePath(_))) <==> passes_routes(scan@) && !passes_paths(scan@),
        r is Ok <==> passes_paths(scan@),
        r matches Err(BuildError::AmbiguousTrait(e)) ==> (exists|i: int|
            first_ambiguous_at(
                scan@.trait_impls,
                injected_types(scan@.components, scan@.beans, scan@.raw_routes),
                i,
            ) && e.trait_name@ == injected_types(scan@.components, scan@.beans, scan@.raw_routes)[i])
            && strs(e.implementors@) == implementors(scan@.trait_impls, e.trait_name@),
        r matches Err(BuildError::UnresolvedDependencies(es)) ==> views(es@) == missing_deps(
            resolved_components_of(scan@),
            known_of(scan@),
        ) + missing_bean_deps(resolved_beans_of(scan@), known_of(scan@)),
        r matches Err(BuildError::Cycle(c)) ==> is_search_report(adjacency_of(scan@), known_of(scan@), strs(c@)),
        r matches Err(BuildError::InvalidRoutes(es)) ==> views(es@) == route_errors(
            resolved_raw_routes_of(scan@),
            known_of(scan@),
        ),
        r matches Err(BuildError::InvalidModulePath(p)) ==> first_invalid_path_at(used_paths(scan@), p@),
        r matches Ok(plan) ==> plan_renders(scan@, plan),
{
    let ghost m = scan@;
    let ScanResult { mut components, mut beans, layers, mut raw_routes, trait_impls } = scan;
    assert(views(trait_impls@) == m.trait_impls);
    match resolve_trait_deps(&trait_impls, &mut components, &mut beans, &mut raw_routes) {
        Err(e) => {
            return Err(BuildError::AmbiguousTrait(e));
        },
        Ok(()) => {},
    }
    let ghost cs = views(components@);
    let ghost bs = views(beans@);
    assert(cs == resolved_components_of(m));
    assert(bs == resolved_beans_of(m));
    assert(views(raw_routes@) == resolved_raw_routes_of(m));
    let known = declared_name_list(&components, &beans);
    let ghost kv = strs(known@);
    assert(kv == known_of(m));
    let mut dep_errors = validate_service_deps(&components, &known);
    let mut bean_errors = validate_bean_deps(&beans, &known);
    let ghost ce = views(dep_errors@);
    let ghost be = views(bean_errors@);
    dep_errors.append(&mut bean_errors);
    assert(views(dep_errors@) =~= ce + be);
    if dep_errors.len() > 0 {
        return Err(BuildError::UnresolvedDependencies(dep_errors));
    }
    let adjacency = build_adjacency(&components, &beans, &known);
    assert(adjacency@ == adjacency_of(m));
    match detect_cycles(&adjacency, &known) {
        Some(c) => {
            return Err(BuildError::Cycle(c));
        },
        None => {},
    }
    let order = topological_sort(&adjacency, &known);
    let route_errs = validate_routes(&raw_routes, &known);
    if route_errs.len() > 0 {
        return Err(BuildError::InvalidRoutes(route_errs));
    }
    let paths = collect_used_paths(&known, &components, &beans, &raw_routes, &layers);
    assert(strs(paths@) == used_paths(m));
    match first_invalid_path(&paths) {
        Some(p) => {
            proof {
                let i = choose|i: int|
                    0 <= i < paths@.len() && #[trigger] paths@[i]@ == p@ && p@.len() > 0 && !is_module_path(p@)
                        && forall|j: int| 0 <= j < i ==> (#[trigger] paths@[j]@).len() == 0 || is_module_path(paths@[j]@);
                assert(strs(paths@)[i] == p@);
                assert(!all_valid_paths(strs(paths@)));
                assert forall|j: int| 0 <= j < i implies (#[trigger] strs(paths@)[j]).len() == 0 || is_module_path(strs(paths@)[j]) by {
                    assert(strs(paths@)[j] == paths@[j]@);
                }
                assert(first_invalid_path_at(strs(paths@), p@));
            }
            return Err(BuildError::InvalidModulePath(p));
        },
        None => {
            proof {
                assert forall|j: int| 0 <= j < strs(paths@).len() implies (#[trigger] strs(paths@)[j]).len() == 0 || is_module_path(strs(paths@)[j]) by {
                    assert(strs(paths@)[j] == paths@[j]@);
                }
            }
        },
    }
    let ghost rrs = views(raw_routes@);
    let routes = resolve_routes(raw_routes, &known);
    let has_async = any_async_bean(&beans);
    let has_server_config = has_server_config_bean(&beans);
    let ghost adj = adjacency@;
    let ghost ov = strs(order@);
    proof {
        let names_c = cs.map_values(|c: ComponentModel| c.name);
        let names_b = bs.map_values(|b: BeanModel| b.name);
        lemma_component_adjacency(cs, kv);
        lemma_with_beans(component_adjacency(cs, kv), bs, kv);
        assert(kv == names_c + names_b);
        assert(adj == with_beans(component_adjacency(cs, kv), bs, kv));
        assert forall|k: Seq<char>| adj.contains_key(k) <==> kv.contains(k) by {
            lemma_concat_contains(names_c, names_b, k);
            assert(component_adjacency(cs, kv).contains_key(k) <==> names_c.contains(k));
            assert(adj.contains_key(k) <==> (component_adjacency(cs, kv).contains_key(k) || names_b.contains(k)));
        }
        assert forall|u: Seq<char>, v: Seq<char>| #[trigger] crate::graph::depends_on(adj, u, v) implies kv.contains(v) by {
            assert(adj[u].contains(v));
        }
        assert forall|x: Seq<char>| order_nodes(adj, kv).contains(x) <==> kv.contains(x) by {
            assert(kv.to_set().contains(x) == kv.contains(x));
        }
        assert forall|x: Seq<char>| ov.contains(x) <==> kv.contains(x) by {
            if ov.contains(x) {
                let i = choose|i: int| 0 <= i < ov.len() && ov[i] == x;
                assert(order_nodes(adj, kv).contains(ov[i]));
            }
            if kv.contains(x) {
                law_acyclic_names_buildable(adj, kv, x);
            }
        }
        assert forall|i: int| 0 <= i < order@.len() implies is_declared(#[trigger] order@[i]@, cs, bs) by {
            assert(ov[i] == order@[i]@);
            assert(ov.contains(ov[i]));
            assert(kv.contains(ov[i]));
            lemma_concat_contains(names_c, names_b, ov[i]);
            if names_c.contains(ov[i]) {
                let j = choose|j: int| 0 <= j < names_c.len() && names_c[j] == ov[i];
                assert(cs[j].name == ov[i]);
            } else {
                let j = choose|j: int| 0 <= j < names_b.len() && names_b[j] == ov[i];
                assert(bs[j].name == ov[i]);
            }
        }
        assert forall|i: int| 0 <= i < order@.len() implies adjacency@.contains_key(#[trigger] order@[i]@) by {
            assert(ov[i] == order@[i]@);
            assert(ov.contains(ov[i]));
        }
    }
    let graph = graph_nodes(&order, &adjacency);
    let container = container_plan(&order, &components, &beans, has_async);
    let router = if routes.len() > 0 {
        Some(router_plan(&routes, &layers, has_async, has_server_config))
    } else {
        None
    };
    let plan = GenerationPlan { components, order, graph, container, router };
    proof {
        assert forall|i: int| 0 <= i < ov.len() implies #[trigger] plan.graph@[i].0@ == ov[i] && strs(plan.graph@[i].1@) == adj[ov[i]] by {
            assert(ov[i] == order@[i]@);
        }
        assert forall|i: int| 0 <= i < ov.len() implies #[trigger] plan.container.stmts@[i]@ == build_stmt_spec(ov[i], cs, bs) by {
            assert(ov[i] == order@[i]@);
        }
        assert forall|i: int| 0 <= i < ov.len() implies #[trigger] plan.container.fields@[i].0@ == crate::utils::snake_case(ov[i])
            && plan.container.fields@[i].1@ == ov[i] by {
            assert(ov[i] == order@[i]@);
        }
        assert(has_async == exists|i: int| 0 <= i < bs.len() && (#[trigger] bs[i]).is_async) by {
            if has_async {
                let i = choose|i: int| 0 <= i < beans@.len() && (#[trigger] beans@[i]).is_async;
                assert(bs[i].is_async);
            }
            if exists|i: int| 0 <= i < bs.len() && (#[trigger] bs[i]).is_async {
                let i = choose|i: int| 0 <= i < bs.len() && (#[trigger] bs[i]).is_async;
                assert(beans@[i].is_async);
            }
        }
        assert(has_server_config == exists|i: int| 0 <= i < bs.len() && (#[trigger] bs[i]).name == "ServerConfig"@) by {
            if has_server_config {
                let i = choose|i: int| 0 <= i < beans@.len() && (#[trigger] beans@[i]).name@ == "ServerConfig"@;
                assert(bs[i].name == "ServerConfig"@);
            }
            if exists|i: int| 0 <= i < bs.len() && (#[trigger] bs[i]).name == "ServerConfig"@ {
                let i = choose|i: int| 0 <= i < bs.len() && (#[trigger] bs[i]).name == "ServerConfig"@;
                assert(beans@[i].name@ == "ServerConfig"@);
            }
        }
        assert(rrs.len() == m.raw_routes.len());
        if plan.router is Some {
            let rp = plan.router->0;
            assert forall|i: int| 0 <= i < m.raw_routes.len() implies #[trigger] rp.routes@[i]@ == route_plan_spec(
                resolved_route(resolved_raw_routes_of(m)[i], kv),
            ) by {
                assert(routes@[i]@ == resolved_route(rrs[i], kv));
            }
        }
    }
    Ok(plan)
}

} // verus!
