use vstd::prelude::*;

use crate::graph::{contains_name, Adjacency};
use crate::models::{
    strs, views, BeanInfo, BeanModel, ComponentInfo, ComponentModel, RawRouteInfo, RawRouteModel,
    RouteInfo, TraitImpl,
};

verus! {

/// The entries of `s` that are among `known`, in order.
pub open spec fn keep_known(s: Seq<Seq<char>>, known: Seq<Seq<char>>) -> Seq<Seq<char>>
    decreases s.len(),
{
    if s.len() == 0 {
        s
    } else {
        let r = keep_known(s.drop_last(), known);
        if known.contains(s.last()) {
            r.push(s.last())
        } else {
            r
        }
    }
}

/// The dependency types of a component's `(field, type)` pairs.
pub open spec fn dep_types(deps: Seq<(Seq<char>, Seq<char>)>) -> Seq<Seq<char>> {
    deps.map_values(|p: (Seq<char>, Seq<char>)| p.1)
}

/// The entries of `v` that are among `known`, in order.
pub fn filter_known(v: &Vec<String>, known: &Vec<String>) -> (r: Vec<String>)
    ensures
        strs(r@) == keep_known(strs(v@), strs(known@)),
{
    let mut r: Vec<String> = Vec::new();
    let mut i: usize = 0;
    while i < v.len()
        invariant
            i <= v@.len(),
            strs(r@) == keep_known(strs(v@).take(i as int), strs(known@)),
        decreases v@.len() - i,
    {
        proof {
            assert(strs(v@).take(i + 1).drop_last() =~= strs(v@).take(i as int));
            assert(strs(v@).take(i + 1).last() == v@[i as int]@);
        }
        let ghost r0 = strs(r@);
        if contains_name(known, &v[i]) {
            r.push(v[i].clone());
            assert(strs(r@) =~= r0.push(v@[i as int]@));
        }
        i = i + 1;
    }
    assert(strs(v@).take(v@.len() as int) =~= strs(v@));
    r
}

/// The dependency types of `deps` that are among `known`, in order.
fn filter_known_types(deps: &Vec<(String, String)>, known: &Vec<String>) -> (r: Vec<String>)
    ensures
        strs(r@) == keep_known(dep_types(crate::models::str_pairs(deps@)), strs(known@)),
{
    let mut types: Vec<String> = Vec::new();
    let mut i: usize = 0;
    while i < deps.len()
        invariant
            i <= deps@.len(),
            strs(types@) == dep_types(crate::models::str_pairs(deps@)).take(i as int),
        decreases deps@.len() - i,
    {
        let ghost t0 = strs(types@);
        types.push(deps[i].1.clone());
        assert(strs(types@) =~= t0.push(deps@[i as int].1@));
        assert(dep_types(crate::models::str_pairs(deps@))[i as int] == deps@[i as int].1@);
        assert(strs(types@) =~= dep_types(crate::models::str_pairs(deps@)).take(i + 1));
        i = i + 1;
    }
    assert(dep_types(crate::models::str_pairs(deps@)).take(deps@.len() as int) =~= dep_types(
        crate::models::str_pairs(deps@),
    ));
    filter_known(&types, known)
}

/// The adjacency the components alone give: each component mapped to its
/// known dependency types, later components replacing earlier ones of the
/// same name.
pub open spec fn component_adjacency(cs: Seq<ComponentModel>, known: Seq<Seq<char>>) -> Map<
    Seq<char>,
    Seq<Seq<char>>,
>
    decreases cs.len(),
{
    if cs.len() == 0 {
        Map::empty()
    } else {
        component_adjacency(cs.drop_last(), known).insert(
            cs.last().name,
            keep_known(dep_types(cs.last().deps), known),
        )
    }
}

/// `base` with each bean mapped to its known dependency types, later beans
/// replacing earlier entries of the same name.
pub open spec fn with_beans(
    base: Map<Seq<char>, Seq<Seq<char>>>,
    bs: Seq<BeanModel>,
    known: Seq<Seq<char>>,
) -> Map<Seq<char>, Seq<Seq<char>>>
    decreases bs.len(),
{
    if bs.len() == 0 {
        base
    } else {
        with_beans(base, bs.drop_last(), known).insert(
            bs.last().name,
            keep_known(bs.last().deps, known),
        )
    }
}

/// The dependency adjacency of components and beans, restricted to the known
/// component names. A bean replaces a component of the same name.
pub fn build_adjacency(
    components: &Vec<ComponentInfo>,
    beans: &Vec<BeanInfo>,
    known: &Vec<String>,
) -> (r: Adjacency)
    ensures
        r@ == with_beans(
            component_adjacency(views(components@), strs(known@)),
            views(beans@),
            strs(known@),
        ),
{
    let ghost kv = strs(known@);
    let mut adjacency = Adjacency::new();
    let mut i: usize = 0;
    while i < components.len()
        invariant
            kv == strs(known@),
            i <= components@.len(),
            adjacency@ == component_adjacency(views(components@).take(i as int), kv),
        decreases components@.len() - i,
    {
        proof {
            assert(views(components@).take(i + 1).drop_last() =~= views(components@).take(i as int));
        }
        let edges = filter_known_types(&components[i].deps, known);
        adjacency.insert(components[i].name.clone(), edges);
        i = i + 1;
    }
    assert(views(components@).take(components@.len() as int) =~= views(components@));
    let ghost base = adjacency@;
    let mut j: usize = 0;
    while j < beans.len()
        invariant
            kv == strs(known@),
            j <= beans@.len(),
            adjacency@ == with_beans(base, views(beans@).take(j as int), kv),
        decreases beans@.len() - j,
    {
        proof {
            assert(views(beans@).take(j + 1).drop_last() =~= views(beans@).take(j as int));
        }
        let edges = filter_known(&beans[j].deps, known);
        adjacency.insert(beans[j].name.clone(), edges);
        j = j + 1;
    }
    assert(views(beans@).take(beans@.len() as int) =~= views(beans@));
    adjacency
}

/// A raw route with its `Arc` parameters restricted to known components.
pub open spec fn resolved_route(r: RawRouteModel, known: Seq<Seq<char>>) -> crate::models::RouteModel {
    crate::models::RouteModel {
        fn_name: r.fn_name,
        method: r.method,
        path: r.path,
        mod_path: r.mod_path,
        service_params: keep_known(r.arc_params, known),
    }
}

/// Resolves each route: its service parameters are the `Arc` parameters whose
/// types are known components; the rest of the route is kept.
pub fn resolve_routes(raw_routes: Vec<RawRouteInfo>, known: &Vec<String>) -> (r: Vec<RouteInfo>)
    ensures
        r@.len() == raw_routes@.len(),
        forall|i: int|
            0 <= i < r@.len() ==> #[trigger] r@[i]@ == resolved_route(raw_routes@[i]@, strs(known@)),
{
    let mut out: Vec<RouteInfo> = Vec::new();
    let mut i: usize = 0;
    while i < raw_routes.len()
        invariant
            i <= raw_routes@.len(),
            out@.len() == i,
            forall|m: int|
                0 <= m < i ==> #[trigger] out@[m]@ == resolved_route(raw_routes@[m]@, strs(known@)),
        decreases raw_routes@.len() - i,
    {
        let r = &raw_routes[i];
        let params = filter_known(&r.arc_params, known);
        out.push(
            RouteInfo {
                fn_name: r.fn_name.clone(),
                method: r.method.clone(),
                path: r.path.clone(),
                mod_path: r.mod_path.clone(),
                service_params: params,
            },
        );
        i = i + 1;
    }
    out
}


/// A trait that more than one component implements, met where a dependency
/// was to be injected; the implementors are listed in declaration order.
#[derive(Clone, Debug)]
pub struct AmbiguousTrait {
    pub trait_name: String,
    pub implementors: Vec<String>,
}

/// The implementors of the trait `t`, in declaration order.
pub open spec fn implementors(impls: Seq<(Seq<char>, Seq<char>)>, t: Seq<char>) -> Seq<Seq<char>>
    decreases impls.len(),
{
    if impls.len() == 0 {
        Seq::empty()
    } else {
        let r = implementors(impls.drop_last(), t);
        if impls.last().0 == t {
            r.push(impls.last().1)
        } else {
            r
        }
    }
}

/// More than one component implements the trait `t`.
pub open spec fn is_ambiguous(impls: Seq<(Seq<char>, Seq<char>)>, t: Seq<char>) -> bool {
    implementors(impls, t).len() > 1
}

/// The type injected for the dependency type `t`: its implementor when `t` is a
/// trait with one, otherwise `t` itself.
pub open spec fn resolve_type(impls: Seq<(Seq<char>, Seq<char>)>, t: Seq<char>) -> Seq<char> {
    if implementors(impls, t).len() > 0 {
        implementors(impls, t)[0]
    } else {
        t
    }
}

/// Every dependency type of the components, in order.
pub open spec fn component_types(cs: Seq<ComponentModel>) -> Seq<Seq<char>>
    decreases cs.len(),
{
    if cs.len() == 0 {
        Seq::empty()
    } else {
        component_types(cs.drop_last()) + dep_types(cs.last().deps)
    }
}

/// Every dependency type of the beans, in order.
pub open spec fn bean_types(bs: Seq<BeanModel>) -> Seq<Seq<char>>
    decreases bs.len(),
{
    if bs.len() == 0 {
        Seq::empty()
    } else {
        bean_types(bs.drop_last()) + bs.last().deps
    }
}

/// Every `Arc` parameter type of the routes, in order.
pub open spec fn route_types(rs: Seq<RawRouteModel>) -> Seq<Seq<char>>
    decreases rs.len(),
{
    if rs.len() == 0 {
        Seq::empty()
    } else {
        route_types(rs.drop_last()) + rs.last().arc_params
    }
}

/// Every type that is to be injected: component fields, then bean
/// parameters, then route parameters.
pub open spec fn injected_types(
    cs: Seq<ComponentModel>,
    bs: Seq<BeanModel>,
    rs: Seq<RawRouteModel>,
) -> Seq<Seq<char>> {
    component_types(cs) + bean_types(bs) + route_types(rs)
}

/// The component with each dependency type resolved.
pub open spec fn resolved_component(impls: Seq<(Seq<char>, Seq<char>)>, c: ComponentModel) -> ComponentModel {
    ComponentModel {
        name: c.name,
        deps: c.deps.map_values(|p: (Seq<char>, Seq<char>)| (p.0, resolve_type(impls, p.1))),
    }
}

/// The bean with each dependency type resolved.
pub open spec fn resolved_bean(impls: Seq<(Seq<char>, Seq<char>)>, b: BeanModel) -> BeanModel {
    BeanModel { deps: b.deps.map_values(|t: Seq<char>| resolve_type(impls, t)), ..b }
}

/// The route with each `Arc` parameter type resolved.
pub open spec fn resolved_raw_route(impls: Seq<(Seq<char>, Seq<char>)>, r: RawRouteModel) -> RawRouteModel {
    RawRouteModel { arc_params: r.arc_params.map_values(|t: Seq<char>| resolve_type(impls, t)), ..r }
}

/// The implementors of the trait `t`, in declaration order.
fn implementors_of(trait_impls: &Vec<TraitImpl>, t: &String) -> (r: Vec<String>)
    ensures
        strs(r@) == implementors(views(trait_impls@), t@),
{
    let mut r: Vec<String> = Vec::new();
    let mut i: usize = 0;
    while i < trait_impls.len()
        invariant
            i <= trait_impls@.len(),
            strs(r@) == implementors(views(trait_impls@).take(i as int), t@),
        decreases trait_impls@.len() - i,
    {
        proof {
            assert(views(trait_impls@).take(i + 1).drop_last() =~= views(trait_impls@).take(i as int));
            assert(views(trait_impls@).take(i + 1).last() == trait_impls@[i as int]@);
        }
        let ghost r0 = strs(r@);
        if trait_impls[i].trait_name == *t {
            r.push(trait_impls[i].concrete.clone());
            assert(strs(r@) =~= r0.push(trait_impls@[i as int].concrete@));
        }
        i = i + 1;
    }
    assert(views(trait_impls@).take(trait_impls@.len() as int) =~= views(trait_impls@));
    r
}

/// The type injected for the dependency type `t`.
fn resolve_name(trait_impls: &Vec<TraitImpl>, t: &String) -> (r: String)
    ensures
        r@ == resolve_type(views(trait_impls@), t@),
{
    let found = implementors_of(trait_impls, t);
    if found.len() > 0 {
        assert(strs(found@)[0] == found@[0]@);
        found[0].clone()
    } else {
        t.clone()
    }
}

/// Each name of `v` resolved.
fn resolve_names(trait_impls: &Vec<TraitImpl>, v: &Vec<String>) -> (r: Vec<String>)
    ensures
        strs(r@) == strs(v@).map_values(|t: Seq<char>| resolve_type(views(trait_impls@), t)),
{
    let mut r: Vec<String> = Vec::new();
    let mut i: usize = 0;
    while i < v.len()
        invariant
            i <= v@.len(),
            r@.len() == i,
            forall|m: int| 0 <= m < i ==> #[trigger] r@[m]@ == resolve_type(views(trait_impls@), v@[m]@),
        decreases v@.len() - i,
    {
        r.push(resolve_name(trait_impls, &v[i]));
        i = i + 1;
    }
    assert(strs(r@) =~= strs(v@).map_values(|t: Seq<char>| resolve_type(views(trait_impls@), t)));
    r
}

/// Each dependency type of `deps` resolved, field names kept.
fn resolve_pairs(trait_impls: &Vec<TraitImpl>, deps: &Vec<(String, String)>) -> (r: Vec<(String, String)>)
    ensures
        crate::models::str_pairs(r@) == crate::models::str_pairs(deps@).map_values(
            |p: (Seq<char>, Seq<char>)| (p.0, resolve_type(views(trait_impls@), p.1)),
        ),
{
    let mut r: Vec<(String, String)> = Vec::new();
    let mut i: usize = 0;
    while i < deps.len()
        invariant
            i <= deps@.len(),
            r@.len() == i,
            forall|m: int|
                0 <= m < i ==> #[trigger] r@[m].0@ == deps@[m].0@ && r@[m].1@ == resolve_type(
                    views(trait_impls@),
                    deps@[m].1@,
                ),
        decreases deps@.len() - i,
    {
        r.push((deps[i].0.clone(), resolve_name(trait_impls, &deps[i].1)));
        i = i + 1;
    }
    assert(crate::models::str_pairs(r@) =~= crate::models::str_pairs(deps@).map_values(
        |p: (Seq<char>, Seq<char>)| (p.0, resolve_type(views(trait_impls@), p.1)),
    ));
    r
}

/// Appends the names of `v` to `out`.
fn append_names(out: &mut Vec<String>, v: &Vec<String>)
    ensures
        strs(final(out)@) == strs(old(out)@) + strs(v@),
{
    let ghost o = strs(out@);
    let mut i: usize = 0;
    while i < v.len()
        invariant
            i <= v@.len(),
            strs(out@) == o + strs(v@).take(i as int),
        decreases v@.len() - i,
    {
        let ghost o1 = strs(out@);
        out.push(v[i].clone());
        assert(strs(out@) =~= o1.push(v@[i as int]@));
        assert(strs(out@) =~= o + strs(v@).take(i + 1));
        i = i + 1;
    }
    assert(strs(v@).take(v@.len() as int) =~= strs(v@));
}

/// Every type to be injected, in the order `injected_types` gives.
fn collect_injected(
    components: &Vec<ComponentInfo>,
    beans: &Vec<BeanInfo>,
    raw_routes: &Vec<RawRouteInfo>,
) -> (r: Vec<String>)
    ensures
        strs(r@) == injected_types(views(components@), views(beans@), views(raw_routes@)),
{
    let mut all: Vec<String> = Vec::new();
    let mut i: usize = 0;
    assert(strs(all@) =~= Seq::<Seq<char>>::empty());
    while i < components.len()
        invariant
            i <= components@.len(),
            strs(all@) == component_types(views(components@).take(i as int)),
        decreases components@.len() - i,
    {
        proof {
            assert(views(components@).take(i + 1).drop_last() =~= views(components@).take(i as int));
        }
        let mut j: usize = 0;
        let ghost a0 = strs(all@);
        let ghost dt = dep_types(views(components@)[i as int].deps);
        while j < components[i].deps.len()
            invariant
                i < components@.len(),
                dt == dep_types(crate::models::str_pairs(components@[i as int].deps@)),
                j <= components@[i as int].deps@.len(),
                strs(all@) == a0 + dt.take(j as int),
            decreases components@[i as int].deps@.len() - j,
        {
            let ghost a1 = strs(all@);
            all.push(components[i].deps[j].1.clone());
            assert(dt[j as int] == components@[i as int].deps@[j as int].1@);
            assert(strs(all@) =~= a1.push(dt[j as int]));
            assert(strs(all@) =~= a0 + dt.take(j + 1));
            j = j + 1;
        }
        assert(dt.take(dt.len() as int) =~= dt);
        i = i + 1;
    }
    assert(views(components@).take(components@.len() as int) =~= views(components@));
    let ghost ct = strs(all@);
    let mut i: usize = 0;
    while i < beans.len()
        invariant
            i <= beans@.len(),
            strs(all@) == ct + bean_types(views(beans@).take(i as int)),
        decreases beans@.len() - i,
    {
        proof {
            assert(views(beans@).take(i + 1).drop_last() =~= views(beans@).take(i as int));
        }
        let ghost a0 = strs(all@);
        append_names(&mut all, &beans[i].deps);
        assert(strs(all@) =~= ct + bean_types(views(beans@).take(i + 1)));
        i = i + 1;
    }
    assert(views(beans@).take(beans@.len() as int) =~= views(beans@));
    let ghost cbt = strs(all@);
    let mut i: usize = 0;
    while i < raw_routes.len()
        invariant
            i <= raw_routes@.len(),
            strs(all@) == cbt + route_types(views(raw_routes@).take(i as int)),
        decreases raw_routes@.len() - i,
    {
        proof {
            assert(views(raw_routes@).take(i + 1).drop_last() =~= views(raw_routes@).take(i as int));
        }
        append_names(&mut all, &raw_routes[i].arc_params);
        assert(strs(all@) =~= cbt + route_types(views(raw_routes@).take(i + 1)));
        i = i + 1;
    }
    assert(views(raw_routes@).take(raw_routes@.len() as int) =~= views(raw_routes@));
    all
}


/// `t` is the first ambiguous trait among `all`, found at position `i`.
pub open spec fn first_ambiguous_at(
    impls: Seq<(Seq<char>, Seq<char>)>,
    all: Seq<Seq<char>>,
    i: int,
) -> bool {
    &&& 0 <= i < all.len()
    &&& is_ambiguous(impls, all[i])
    &&& forall|j: int| 0 <= j < i ==> !is_ambiguous(impls, #[trigger] all[j])
}

/// Rewrites every dependency typed by a trait (recorded under the bare trait
/// name) to the component that implements it, in component fields, bean
/// parameters and route parameters. A trait implemented by more than one
/// component cannot be decided: the first such dependency is reported and
/// nothing is rewritten.
pub fn resolve_trait_deps(
    trait_impls: &Vec<TraitImpl>,
    components: &mut Vec<ComponentInfo>,
    beans: &mut Vec<BeanInfo>,
    raw_routes: &mut Vec<RawRouteInfo>,
) -> (r: Result<(), AmbiguousTrait>)
    ensures
        r is Err <==> exists|i: int|
            0 <= i < injected_types(views(old(components)@), views(old(beans)@), views(old(raw_routes)@)).len()
                && is_ambiguous(
                views(trait_impls@),
                #[trigger] injected_types(views(old(components)@), views(old(beans)@), views(old(raw_routes)@))[i],
            ),
        r matches Err(e) ==> exists|i: int|
            first_ambiguous_at(
                views(trait_impls@),
                injected_types(views(old(components)@), views(old(beans)@), views(old(raw_routes)@)),
                i,
            ) && e.trait_name@ == injected_types(views(old(components)@), views(old(beans)@), views(old(raw_routes)@))[i]
                && strs(e.implementors@) == implementors(views(trait_impls@), e.trait_name@),
        r is Err ==> final(components)@ == old(components)@ && final(beans)@ == old(beans)@
            && final(raw_routes)@ == old(raw_routes)@,
        r is Ok ==> views(final(components)@) == views(old(components)@).map_values(
            |c: ComponentModel| resolved_component(views(trait_impls@), c),
        ),
        r is Ok ==> views(final(beans)@) == views(old(beans)@).map_values(
            |b: BeanModel| resolved_bean(views(trait_impls@), b),
        ),
        r is Ok ==> views(final(raw_routes)@) == views(old(raw_routes)@).map_values(
            |rr: RawRouteModel| resolved_raw_route(views(trait_impls@), rr),
        ),
{
    let ghost iv = views(trait_impls@);
    let all = collect_injected(components, beans, raw_routes);
    let ghost av = strs(all@);
    let mut i: usize = 0;
    while i < all.len()
        invariant
            av == strs(all@),
            av == injected_types(views(old(components)@), views(old(beans)@), views(old(raw_routes)@)),
            components@ == old(components)@,
            beans@ == old(beans)@,
            raw_routes@ == old(raw_routes)@,
            iv == views(trait_impls@),
            i <= all@.len(),
            forall|j: int| 0 <= j < i ==> !is_ambiguous(iv, #[trigger] av[j]),
        decreases all@.len() - i,
    {
        let found = implementors_of(trait_impls, &all[i]);
        assert(av[i as int] == all@[i as int]@);
        if found.len() > 1 {
            let e = AmbiguousTrait { trait_name: all[i].clone(), implementors: found };
            assert(first_ambiguous_at(iv, av, i as int));
            assert(strs(e.implementors@) == implementors(iv, e.trait_name@));
            assert(is_ambiguous(iv, av[i as int]));
            return Err(e);
        }
        i = i + 1;
    }
    let mut new_components: Vec<ComponentInfo> = Vec::new();
    let mut k: usize = 0;
    while k < components.len()
        invariant
            iv == views(trait_impls@),
            k <= components@.len(),
            new_components@.len() == k,
            forall|m: int|
                0 <= m < k ==> #[trigger] new_components@[m]@ == resolved_component(
                    iv,
                    components@[m]@,
                ),
        decreases components@.len() - k,
    {
        let deps = resolve_pairs(trait_impls, &components[k].deps);
        new_components.push(ComponentInfo { name: components[k].name.clone(), deps });
        k = k + 1;
    }
    let mut new_beans: Vec<BeanInfo> = Vec::new();
    let mut k: usize = 0;
    while k < beans.len()
        invariant
            iv == views(trait_impls@),
            k <= beans@.len(),
            new_beans@.len() == k,
            forall|m: int|
                0 <= m < k ==> #[trigger] new_beans@[m]@ == resolved_bean(iv, beans@[m]@),
        decreases beans@.len() - k,
    {
        let b = &beans[k];
        let deps = resolve_names(trait_impls, &b.deps);
        new_beans.push(
            BeanInfo {
                name: b.name.clone(),
                fn_name: b.fn_name.clone(),
                is_async: b.is_async,
                returns_arc: b.returns_arc,
                deps,
                mod_path: b.mod_path.clone(),
            },
        );
        k = k + 1;
    }
    let mut new_routes: Vec<RawRouteInfo> = Vec::new();
    let mut k: usize = 0;
    while k < raw_routes.len()
        invariant
            iv == views(trait_impls@),
            k <= raw_routes@.len(),
            new_routes@.len() == k,
            forall|m: int|
                0 <= m < k ==> #[trigger] new_routes@[m]@ == resolved_raw_route(iv, raw_routes@[m]@),
        decreases raw_routes@.len() - k,
    {
        let rr = &raw_routes[k];
        let params = resolve_names(trait_impls, &rr.arc_params);
        new_routes.push(
            RawRouteInfo {
                fn_name: rr.fn_name.clone(),
                method: rr.method.clone(),
                path: rr.path.clone(),
                mod_path: rr.mod_path.clone(),
                arc_params: params,
            },
        );
        k = k + 1;
    }
    proof {
        assert(views(new_components@) =~= views(components@).map_values(
            |c: ComponentModel| resolved_component(iv, c),
        ));
        assert(views(new_beans@) =~= views(beans@).map_values(|b: BeanModel| resolved_bean(iv, b)));
        assert(views(new_routes@) =~= views(raw_routes@).map_values(
            |rr: RawRouteModel| resolved_raw_route(iv, rr),
        ));
    }
    *components = new_components;
    *beans = new_beans;
    *raw_routes = new_routes;
    Ok(())
}


/// The names of the components, then of the beans.
pub open spec fn declared_names(cs: Seq<ComponentModel>, bs: Seq<BeanModel>) -> Seq<Seq<char>> {
    cs.map_values(|c: ComponentModel| c.name) + bs.map_values(|b: BeanModel| b.name)
}

pub proof fn lemma_keep_known(s: Seq<Seq<char>>, known: Seq<Seq<char>>)
    ensures
        forall|x: Seq<char>| keep_known(s, known).contains(x) ==> known.contains(x),
    decreases s.len(),
{
    if s.len() > 0 {
        lemma_keep_known(s.drop_last(), known);
        let r = keep_known(s.drop_last(), known);
        assert forall|x: Seq<char>| keep_known(s, known).contains(x) implies known.contains(x) by {
            if known.contains(s.last()) {
                let j = choose|j: int| 0 <= j < r.push(s.last()).len() && r.push(s.last())[j] == x;
                if j < r.len() {
                    assert(r[j] == x);
                }
            }
        }
    }
}

/// The component adjacency has an entry exactly for each component name, and
/// every dependency it records is known.
pub proof fn lemma_component_adjacency(cs: Seq<ComponentModel>, known: Seq<Seq<char>>)
    ensures
        forall|k: Seq<char>|
            component_adjacency(cs, known).contains_key(k) <==> cs.map_values(|c: ComponentModel| c.name).contains(k),
        forall|k: Seq<char>, v: Seq<char>|
            component_adjacency(cs, known).contains_key(k) && #[trigger] component_adjacency(cs, known)[k].contains(v)
                ==> known.contains(v),
    decreases cs.len(),
{
    if cs.len() > 0 {
        let pre = cs.drop_last();
        lemma_component_adjacency(pre, known);
        lemma_keep_known(dep_types(cs.last().deps), known);
        let names = cs.map_values(|c: ComponentModel| c.name);
        let pnames = pre.map_values(|c: ComponentModel| c.name);
        assert(names =~= pnames.push(cs.last().name));
        let m = component_adjacency(pre, known);
        let kl = keep_known(dep_types(cs.last().deps), known);
        assert(component_adjacency(cs, known) == m.insert(cs.last().name, kl));
        assert forall|k: Seq<char>| component_adjacency(cs, known).contains_key(k) <==> names.contains(k) by {
            crate::graph::lemma_contains_name_push(pnames, cs.last().name, k);
        }
        assert forall|k: Seq<char>, v: Seq<char>|
            component_adjacency(cs, known).contains_key(k) && #[trigger] component_adjacency(cs, known)[k].contains(v)
                implies known.contains(v) by {
            if k != cs.last().name {
                assert(m[k].contains(v));
            }
        }
    }
}

/// With the beans added, the adjacency has an entry exactly for the entries of
/// `base` and the bean names, and every dependency it records is known when
/// those of `base` are.
pub proof fn lemma_with_beans(
    base: Map<Seq<char>, Seq<Seq<char>>>,
    bs: Seq<BeanModel>,
    known: Seq<Seq<char>>,
)
    requires
        forall|k: Seq<char>, v: Seq<char>| base.contains_key(k) && #[trigger] base[k].contains(v) ==> known.contains(v),
    ensures
        forall|k: Seq<char>|
            with_beans(base, bs, known).contains_key(k) <==> (base.contains_key(k) || bs.map_values(
                |b: BeanModel| b.name,
            ).contains(k)),
        forall|k: Seq<char>, v: Seq<char>|
            with_beans(base, bs, known).contains_key(k) && #[trigger] with_beans(base, bs, known)[k].contains(v)
                ==> known.contains(v),
    decreases bs.len(),
{
    if bs.len() > 0 {
        let pre = bs.drop_last();
        lemma_with_beans(base, pre, known);
        lemma_keep_known(bs.last().deps, known);
        let names = bs.map_values(|b: BeanModel| b.name);
        let pnames = pre.map_values(|b: BeanModel| b.name);
        assert(names =~= pnames.push(bs.last().name));
        let m = with_beans(base, pre, known);
        let kl = keep_known(bs.last().deps, known);
        assert(with_beans(base, bs, known) == m.insert(bs.last().name, kl));
        assert forall|k: Seq<char>|
            with_beans(base, bs, known).contains_key(k) <==> (base.contains_key(k) || names.contains(k)) by {
            crate::graph::lemma_contains_name_push(pnames, bs.last().name, k);
        }
        assert forall|k: Seq<char>, v: Seq<char>|
            with_beans(base, bs, known).contains_key(k) && #[trigger] with_beans(base, bs, known)[k].contains(v)
                implies known.contains(v) by {
            if k != bs.last().name {
                assert(m[k].contains(v));
            }
        }
    }
}


/// Law: the adjacency of components and beans has an entry for every
/// component and bean name and for nothing else, and every dependency it
/// records is a known name.
pub proof fn law_adjacency_closed(cs: Seq<ComponentModel>, bs: Seq<BeanModel>, known: Seq<Seq<char>>)
    ensures
        forall|k: Seq<char>|
            with_beans(component_adjacency(cs, known), bs, known).contains_key(k) <==> declared_names(cs, bs).contains(k),
        forall|k: Seq<char>, v: Seq<char>|
            with_beans(component_adjacency(cs, known), bs, known).contains_key(k)
                && #[trigger] with_beans(component_adjacency(cs, known), bs, known)[k].contains(v) ==> known.contains(v),
{
    lemma_component_adjacency(cs, known);
    lemma_with_beans(component_adjacency(cs, known), bs, known);
    let names_c = cs.map_values(|c: ComponentModel| c.name);
    let names_b = bs.map_values(|b: BeanModel| b.name);
    assert forall|k: Seq<char>|
        with_beans(component_adjacency(cs, known), bs, known).contains_key(k) <==> declared_names(cs, bs).contains(k) by {
        crate::pipeline::lemma_concat_contains(names_c, names_b, k);
        assert(declared_names(cs, bs) == names_c + names_b);
        assert(component_adjacency(cs, known).contains_key(k) <==> names_c.contains(k));
    }
}


/// No type that implements a trait is itself the name of an implemented trait.
pub open spec fn impls_not_traits(impls: Seq<(Seq<char>, Seq<char>)>) -> bool {
    forall|i: int, j: int| 0 <= i < impls.len() && 0 <= j < impls.len() ==> impls[i].1 != impls[j].0
}

/// The components with each dependency type resolved.
pub open spec fn resolved_components(impls: Seq<(Seq<char>, Seq<char>)>, cs: Seq<ComponentModel>) -> Seq<ComponentModel> {
    cs.map_values(|c: ComponentModel| resolved_component(impls, c))
}

/// The beans with each dependency type resolved.
pub open spec fn resolved_beans(impls: Seq<(Seq<char>, Seq<char>)>, bs: Seq<BeanModel>) -> Seq<BeanModel> {
    bs.map_values(|b: BeanModel| resolved_bean(impls, b))
}

/// The routes with each `Arc` parameter type resolved.
pub open spec fn resolved_raw_routes(impls: Seq<(Seq<char>, Seq<char>)>, rs: Seq<RawRouteModel>) -> Seq<RawRouteModel> {
    rs.map_values(|r: RawRouteModel| resolved_raw_route(impls, r))
}

proof fn lemma_implementor_is_impl(impls: Seq<(Seq<char>, Seq<char>)>, t: Seq<char>, m: int)
    requires
        0 <= m < implementors(impls, t).len(),
    ensures
        exists|k: int| 0 <= k < impls.len() && impls[k].0 == t && #[trigger] impls[k].1 == implementors(impls, t)[m],
    decreases impls.len(),
{
    let p = impls.drop_last();
    let r = implementors(p, t);
    if m < r.len() {
        lemma_implementor_is_impl(p, t, m);
        let k = choose|k: int| 0 <= k < p.len() && p[k].0 == t && #[trigger] p[k].1 == r[m];
        assert(impls[k] == p[k]);
        assert(impls[k].1 == implementors(impls, t)[m]);
    } else {
        assert(impls[impls.len() - 1].1 == implementors(impls, t)[m]);
    }
}

proof fn lemma_no_implementors(impls: Seq<(Seq<char>, Seq<char>)>, u: Seq<char>)
    requires
        forall|k: int| 0 <= k < impls.len() ==> #[trigger] impls[k].0 != u,
    ensures
        implementors(impls, u).len() == 0,
    decreases impls.len(),
{
    if impls.len() > 0 {
        let p = impls.drop_last();
        assert forall|k: int| 0 <= k < p.len() implies #[trigger] p[k].0 != u by {
            assert(p[k] == impls[k]);
        }
        lemma_no_implementors(p, u);
        assert(impls[impls.len() - 1].0 != u);
    }
}

/// A resolved type is not ambiguous, and resolving it again gives it back.
proof fn lemma_resolve_type_stable(impls: Seq<(Seq<char>, Seq<char>)>, t: Seq<char>)
    requires
        impls_not_traits(impls),
    ensures
        !is_ambiguous(impls, resolve_type(impls, t)),
        resolve_type(impls, resolve_type(impls, t)) == resolve_type(impls, t),
{
    if implementors(impls, t).len() > 0 {
        let u = implementors(impls, t)[0];
        lemma_implementor_is_impl(impls, t, 0);
        let k = choose|k: int| 0 <= k < impls.len() && impls[k].0 == t && #[trigger] impls[k].1 == u;
        assert forall|j: int| 0 <= j < impls.len() implies #[trigger] impls[j].0 != u by {
            assert(impls[k].1 != impls[j].0);
        }
        lemma_no_implementors(impls, u);
    }
}

proof fn lemma_component_types_stable(impls: Seq<(Seq<char>, Seq<char>)>, cs: Seq<ComponentModel>)
    requires
        impls_not_traits(impls),
    ensures
        forall|k: int|
            0 <= k < component_types(resolved_components(impls, cs)).len() ==> !is_ambiguous(
                impls,
                #[trigger] component_types(resolved_components(impls, cs))[k],
            ),
    decreases cs.len(),
{
    if cs.len() > 0 {
        let p = cs.drop_last();
        lemma_component_types_stable(impls, p);
        let rc = resolved_components(impls, cs);
        assert(rc.drop_last() =~= resolved_components(impls, p));
        let a = component_types(rc.drop_last());
        let b = dep_types(rc.last().deps);
        assert(component_types(rc) == a + b);
        assert forall|k: int| 0 <= k < (a + b).len() implies !is_ambiguous(impls, #[trigger] (a + b)[k]) by {
            if k >= a.len() {
                let j = k - a.len();
                assert(b[j] == rc.last().deps[j].1);
                assert(rc.last() == resolved_component(impls, cs.last()));
                lemma_resolve_type_stable(impls, cs.last().deps[j].1);
            } else {
                assert((a + b)[k] == a[k]);
            }
        }
    }
}

proof fn lemma_bean_types_stable(impls: Seq<(Seq<char>, Seq<char>)>, bs: Seq<BeanModel>)
    requires
        impls_not_traits(impls),
    ensures
        forall|k: int|
            0 <= k < bean_types(resolved_beans(impls, bs)).len() ==> !is_ambiguous(
                impls,
                #[trigger] bean_types(resolved_beans(impls, bs))[k],
            ),
    decreases bs.len(),
{
    if bs.len() > 0 {
        let p = bs.drop_last();
        lemma_bean_types_stable(impls, p);
        let rb = resolved_beans(impls, bs);
        assert(rb.drop_last() =~= resolved_beans(impls, p));
        let a = bean_types(rb.drop_last());
        let b = rb.last().deps;
        assert(bean_types(rb) == a + b);
        assert forall|k: int| 0 <= k < (a + b).len() implies !is_ambiguous(impls, #[trigger] (a + b)[k]) by {
            if k >= a.len() {
                let j = k - a.len();
                assert(rb.last() == resolved_bean(impls, bs.last()));
                assert(b[j] == resolve_type(impls, bs.last().deps[j]));
                lemma_resolve_type_stable(impls, bs.last().deps[j]);
            } else {
                assert((a + b)[k] == a[k]);
            }
        }
    }
}

proof fn lemma_route_types_stable(impls: Seq<(Seq<char>, Seq<char>)>, rs: Seq<RawRouteModel>)
    requires
        impls_not_traits(impls),
    ensures
        forall|k: int|
            0 <= k < route_types(resolved_raw_routes(impls, rs)).len() ==> !is_ambiguous(
                impls,
                #[trigger] route_types(resolved_raw_routes(impls, rs))[k],
            ),
    decreases rs.len(),
{
    if rs.len() > 0 {
        let p = rs.drop_last();
        lemma_route_types_stable(impls, p);
        let rr = resolved_raw_routes(impls, rs);
        assert(rr.drop_last() =~= resolved_raw_routes(impls, p));
        let a = route_types(rr.drop_last());
        let b = rr.last().arc_params;
        assert(route_types(rr) == a + b);
        assert forall|k: int| 0 <= k < (a + b).len() implies !is_ambiguous(impls, #[trigger] (a + b)[k]) by {
            if k >= a.len() {
                let j = k - a.len();
                assert(rr.last() == resolved_raw_route(impls, rs.last()));
                assert(b[j] == resolve_type(impls, rs.last().arc_params[j]));
                lemma_resolve_type_stable(impls, rs.last().arc_params[j]);
            } else {
                assert((a + b)[k] == a[k]);
            }
        }
    }
}

/// Law: resolving trait dependencies a second time changes nothing, when no
/// implementing type is itself the name of an implemented trait. No resolved
/// dependency is ambiguous, so `resolve_trait_deps` succeeds again, and
/// resolving the components, beans and routes again gives them back.
pub proof fn law_resolve_idempotent(
    impls: Seq<(Seq<char>, Seq<char>)>,
    cs: Seq<ComponentModel>,
    bs: Seq<BeanModel>,
    rs: Seq<RawRouteModel>,
)
    requires
        impls_not_traits(impls),
    ensures
        forall|k: int|
            0 <= k < injected_types(resolved_components(impls, cs), resolved_beans(impls, bs), resolved_raw_routes(impls, rs)).len()
                ==> !is_ambiguous(
                impls,
                #[trigger] injected_types(
                    resolved_components(impls, cs),
                    resolved_beans(impls, bs),
                    resolved_raw_routes(impls, rs),
                )[k],
            ),
        resolved_components(impls, resolved_components(impls, cs)) == resolved_components(impls, cs),
        resolved_beans(impls, resolved_beans(impls, bs)) == resolved_beans(impls, bs),
        resolved_raw_routes(impls, resolved_raw_routes(impls, rs)) == resolved_raw_routes(impls, rs),
{
    lemma_component_types_stable(impls, cs);
    lemma_bean_types_stable(impls, bs);
    lemma_route_types_stable(impls, rs);
    let a = component_types(resolved_components(impls, cs));
    let b = bean_types(resolved_beans(impls, bs));
    let c = route_types(resolved_raw_routes(impls, rs));
    assert forall|k: int| 0 <= k < (a + b + c).len() implies !is_ambiguous(impls, #[trigger] (a + b + c)[k]) by {
        if k < a.len() {
            assert((a + b + c)[k] == a[k]);
        } else if k < a.len() + b.len() {
            assert((a + b + c)[k] == b[k - a.len()]);
        } else {
            assert((a + b + c)[k] == c[k - a.len() - b.len()]);
        }
    }
    let rc = resolved_components(impls, cs);
    assert forall|i: int| 0 <= i < rc.len() implies #[trigger] resolved_component(impls, rc[i]) == rc[i] by {
        let d = rc[i].deps;
        assert forall|j: int| 0 <= j < d.len() implies resolve_type(impls, #[trigger] d[j].1) == d[j].1 by {
            lemma_resolve_type_stable(impls, cs[i].deps[j].1);
        }
        assert(resolved_component(impls, rc[i]).deps =~= d);
    }
    assert(resolved_components(impls, rc) =~= rc);
    let rb = resolved_beans(impls, bs);
    assert forall|i: int| 0 <= i < rb.len() implies #[trigger] resolved_bean(impls, rb[i]) == rb[i] by {
        let d = rb[i].deps;
        assert forall|j: int| 0 <= j < d.len() implies resolve_type(impls, #[trigger] d[j]) == d[j] by {
            lemma_resolve_type_stable(impls, bs[i].deps[j]);
        }
        assert(resolved_bean(impls, rb[i]).deps =~= d);
    }
    assert(resolved_beans(impls, rb) =~= rb);
    let rr = resolved_raw_routes(impls, rs);
    assert forall|i: int| 0 <= i < rr.len() implies #[trigger] resolved_raw_route(impls, rr[i]) == rr[i] by {
        let d = rr[i].arc_params;
        assert forall|j: int| 0 <= j < d.len() implies resolve_type(impls, #[trigger] d[j]) == d[j] by {
            lemma_resolve_type_stable(impls, rs[i].arc_params[j]);
        }
        assert(resolved_raw_route(impls, rr[i]).arc_params =~= d);
    }
    assert(resolved_raw_routes(impls, rr) =~= rr);
}

} // verus!
