use vstd::prelude::*;

use crate::graph::contains_name;
use crate::models::{strs, views, BeanInfo, BeanModel, ComponentInfo, ComponentModel, RawRouteInfo, RawRouteModel};
use crate::resolve::{keep_known, resolved_route};

verus! {

/// A dependency that is neither a service nor a bean.
#[derive(Clone, Debug)]
pub enum DependencyError {
    /// A component field of type `ty`.
    ComponentField { component: String, field: String, ty: String },
    /// An `Arc<ty>` parameter of the bean function `fn_name` producing `bean`.
    BeanParam { bean: String, fn_name: String, ty: String },
}

/// The abstract value of a dependency error.
pub enum DependencyErrorModel {
    ComponentField { component: Seq<char>, field: Seq<char>, ty: Seq<char> },
    BeanParam { bean: Seq<char>, fn_name: Seq<char>, ty: Seq<char> },
}

impl View for DependencyError {
    type V = DependencyErrorModel;

    open spec fn view(&self) -> DependencyErrorModel {
        match self {
            DependencyError::ComponentField { component, field, ty } =>
                DependencyErrorModel::ComponentField { component: component@, field: field@, ty: ty@ },
            DependencyError::BeanParam { bean, fn_name, ty } => DependencyErrorModel::BeanParam {
                bean: bean@,
                fn_name: fn_name@,
                ty: ty@,
            },
        }
    }
}

/// The abstract value of a route error.
pub enum RouteErrorModel {
    UnknownParam { handler: Seq<char>, ty: Seq<char> },
    DuplicateRoute { method: Seq<char>, path: Seq<char> },
}

/// A problem with a route handler.
#[derive(Clone, Debug)]
pub enum RouteError {
    /// The handler takes `Arc<ty>` but `ty` is neither a service nor a bean.
    UnknownParam { handler: String, ty: String },
    /// An earlier handler already serves this method and path.
    DuplicateRoute { method: String, path: String },
}

impl View for RouteError {
    type V = RouteErrorModel;

    open spec fn view(&self) -> RouteErrorModel {
        match self {
            RouteError::UnknownParam { handler, ty } => RouteErrorModel::UnknownParam {
                handler: handler@,
                ty: ty@,
            },
            RouteError::DuplicateRoute { method, path } => RouteErrorModel::DuplicateRoute {
                method: method@,
                path: path@,
            },
        }
    }
}

/// The `(component, field, type)` triples of the fields of one component
/// whose types are not known.
pub open spec fn missing_in(
    name: Seq<char>,
    deps: Seq<(Seq<char>, Seq<char>)>,
    known: Seq<Seq<char>>,
) -> Seq<DependencyErrorModel>
    decreases deps.len(),
{
    if deps.len() == 0 {
        Seq::empty()
    } else {
        let r = missing_in(name, deps.drop_last(), known);
        if known.contains(deps.last().1) {
            r
        } else {
            r.push(
                DependencyErrorModel::ComponentField {
                    component: name,
                    field: deps.last().0,
                    ty: deps.last().1,
                },
            )
        }
    }
}

/// The unresolved dependencies of all components, in order.
pub open spec fn missing_deps(cs: Seq<ComponentModel>, known: Seq<Seq<char>>) -> Seq<
    DependencyErrorModel,
>
    decreases cs.len(),
{
    if cs.len() == 0 {
        Seq::empty()
    } else {
        missing_deps(cs.drop_last(), known) + missing_in(cs.last().name, cs.last().deps, known)
    }
}

/// Every component field whose type is not a known component, in order; the
/// build is refused when there is any.
pub fn validate_service_deps(components: &Vec<ComponentInfo>, known: &Vec<String>) -> (errors: Vec<
    DependencyError,
>)
    ensures
        views(errors@) == missing_deps(views(components@), strs(known@)),
{
    let ghost kv = strs(known@);
    let mut errors: Vec<DependencyError> = Vec::new();
    let mut i: usize = 0;
    assert(views(errors@) =~= Seq::<DependencyErrorModel>::empty());
    while i < components.len()
        invariant
            kv == strs(known@),
            i <= components@.len(),
            views(errors@) == missing_deps(views(components@).take(i as int), kv),
        decreases components@.len() - i,
    {
        proof {
            assert(views(components@).take(i + 1).drop_last() =~= views(components@).take(i as int));
        }
        let c = &components[i];
        let ghost e0 = views(errors@);
        let ghost dv = crate::models::str_pairs(c.deps@);
        let mut j: usize = 0;
        while j < c.deps.len()
            invariant
                kv == strs(known@),
                dv == crate::models::str_pairs(c.deps@),
                j <= c.deps@.len(),
                views(errors@) == e0 + missing_in(c.name@, dv.take(j as int), kv),
            decreases c.deps@.len() - j,
        {
            proof {
                assert(dv.take(j + 1).drop_last() =~= dv.take(j as int));
                assert(dv.take(j + 1).last() == (c.deps@[j as int].0@, c.deps@[j as int].1@));
            }
            let ghost e1 = views(errors@);
            if !contains_name(known, &c.deps[j].1) {
                errors.push(
                    DependencyError::ComponentField {
                        component: c.name.clone(),
                        field: c.deps[j].0.clone(),
                        ty: c.deps[j].1.clone(),
                    },
                );
                assert(views(errors@) =~= e1.push(
                    DependencyErrorModel::ComponentField {
                        component: c.name@,
                        field: c.deps@[j as int].0@,
                        ty: c.deps@[j as int].1@,
                    },
                ));
            }
            assert(views(errors@) =~= e0 + missing_in(c.name@, dv.take(j + 1), kv));
            j = j + 1;
        }
        assert(dv.take(dv.len() as int) =~= dv);
        i = i + 1;
    }
    assert(views(components@).take(components@.len() as int) =~= views(components@));
    errors
}

/// The errors for the parameters of one bean whose types are not known.
pub open spec fn missing_params(bean: Seq<char>, fn_name: Seq<char>, params: Seq<Seq<char>>, known: Seq<Seq<char>>) -> Seq<
    DependencyErrorModel,
>
    decreases params.len(),
{
    if params.len() == 0 {
        Seq::empty()
    } else {
        let r = missing_params(bean, fn_name, params.drop_last(), known);
        if known.contains(params.last()) {
            r
        } else {
            r.push(DependencyErrorModel::BeanParam { bean, fn_name, ty: params.last() })
        }
    }
}

/// The unresolved parameters of all beans, in order.
pub open spec fn missing_bean_deps(bs: Seq<BeanModel>, known: Seq<Seq<char>>) -> Seq<DependencyErrorModel>
    decreases bs.len(),
{
    if bs.len() == 0 {
        Seq::empty()
    } else {
        missing_bean_deps(bs.drop_last(), known) + missing_params(
            bs.last().name,
            bs.last().fn_name,
            bs.last().deps,
            known,
        )
    }
}

/// Every `Arc` parameter of a bean whose type is not a known component, in
/// order; the build is refused when there is any.
pub fn validate_bean_deps(beans: &Vec<BeanInfo>, known: &Vec<String>) -> (errors: Vec<DependencyError>)
    ensures
        views(errors@) == missing_bean_deps(views(beans@), strs(known@)),
{
    let ghost kv = strs(known@);
    let mut errors: Vec<DependencyError> = Vec::new();
    let mut i: usize = 0;
    assert(views(errors@) =~= Seq::<DependencyErrorModel>::empty());
    while i < beans.len()
        invariant
            kv == strs(known@),
            i <= beans@.len(),
            views(errors@) == missing_bean_deps(views(beans@).take(i as int), kv),
        decreases beans@.len() - i,
    {
        proof {
            assert(views(beans@).take(i + 1).drop_last() =~= views(beans@).take(i as int));
        }
        let b = &beans[i];
        let ghost e0 = views(errors@);
        let ghost pv = strs(b.deps@);
        let mut j: usize = 0;
        while j < b.deps.len()
            invariant
                kv == strs(known@),
                pv == strs(b.deps@),
                j <= b.deps@.len(),
                views(errors@) == e0 + missing_params(b.name@, b.fn_name@, pv.take(j as int), kv),
            decreases b.deps@.len() - j,
        {
            proof {
                assert(pv.take(j + 1).drop_last() =~= pv.take(j as int));
                assert(pv.take(j + 1).last() == b.deps@[j as int]@);
            }
            let ghost e1 = views(errors@);
            if !contains_name(known, &b.deps[j]) {
                errors.push(
                    DependencyError::BeanParam {
                        bean: b.name.clone(),
                        fn_name: b.fn_name.clone(),
                        ty: b.deps[j].clone(),
                    },
                );
                assert(views(errors@) =~= e1.push(
                    DependencyErrorModel::BeanParam {
                        bean: b.name@,
                        fn_name: b.fn_name@,
                        ty: b.deps@[j as int]@,
                    },
                ));
            }
            assert(views(errors@) =~= e0 + missing_params(b.name@, b.fn_name@, pv.take(j + 1), kv));
            j = j + 1;
        }
        assert(pv.take(pv.len() as int) =~= pv);
        i = i + 1;
    }
    assert(views(beans@).take(beans@.len() as int) =~= views(beans@));
    errors
}

/// The errors for the `Arc` parameters of a handler whose types are not known.
pub open spec fn unknown_params(handler: Seq<char>, params: Seq<Seq<char>>, known: Seq<Seq<char>>) -> Seq<
    RouteErrorModel,
>
    decreases params.len(),
{
    if params.len() == 0 {
        Seq::empty()
    } else {
        let r = unknown_params(handler, params.drop_last(), known);
        if known.contains(params.last()) {
            r
        } else {
            r.push(RouteErrorModel::UnknownParam { handler, ty: params.last() })
        }
    }
}

/// Some route before the last one of `rs` has the same path and method.
pub open spec fn repeats_earlier(rs: Seq<RawRouteModel>) -> bool {
    exists|j: int|
        0 <= j < rs.len() - 1 && #[trigger] rs[j].path == rs.last().path && rs[j].method
            == rs.last().method
}

/// The route errors, route by route: unknown parameters, then a duplicate
/// method and path.
pub open spec fn route_errors(rs: Seq<RawRouteModel>, known: Seq<Seq<char>>) -> Seq<RouteErrorModel>
    decreases rs.len(),
{
    if rs.len() == 0 {
        Seq::empty()
    } else {
        let r = route_errors(rs.drop_last(), known) + unknown_params(
            rs.last().fn_name,
            rs.last().arc_params,
            known,
        );
        if repeats_earlier(rs) {
            r.push(RouteErrorModel::DuplicateRoute { method: rs.last().method, path: rs.last().path })
        } else {
            r
        }
    }
}

/// Whether an earlier route than `i` serves the same path and method.
fn seen_before(raw: &Vec<RawRouteInfo>, i: usize) -> (r: bool)
    requires
        i < raw@.len(),
    ensures
        r == repeats_earlier(views(raw@).take(i + 1)),
{
    let ghost rs = views(raw@).take(i + 1);
    let mut j: usize = 0;
    while j < i
        invariant
            i < raw@.len(),
            rs == views(raw@).take(i + 1),
            j <= i,
            forall|m: int| 0 <= m < j ==> !(#[trigger] rs[m].path == rs.last().path && rs[m].method == rs.last().method),
        decreases i - j,
    {
        if raw[j].path == raw[i].path && raw[j].method == raw[i].method {
            assert(rs[j as int].path == rs.last().path && rs[j as int].method == rs.last().method);
            return true;
        }
        j = j + 1;
    }
    false
}

/// Every problem with the routes, in order: for each handler, each `Arc`
/// parameter whose type is not a known component, then whether an earlier
/// handler has the same method and path. The build is refused when there is
/// any.
pub fn validate_routes(raw: &Vec<RawRouteInfo>, known: &Vec<String>) -> (errors: Vec<RouteError>)
    ensures
        views(errors@) == route_errors(views(raw@), strs(known@)),
{
    let ghost kv = strs(known@);
    let mut errors: Vec<RouteError> = Vec::new();
    let mut i: usize = 0;
    assert(views(errors@) =~= Seq::<RouteErrorModel>::empty());
    while i < raw.len()
        invariant
            kv == strs(known@),
            i <= raw@.len(),
            views(errors@) == route_errors(views(raw@).take(i as int), kv),
        decreases raw@.len() - i,
    {
        let ghost rs = views(raw@).take(i + 1);
        proof {
            assert(rs.drop_last() =~= views(raw@).take(i as int));
        }
        let r = &raw[i];
        let ghost e0 = views(errors@);
        let ghost pv = strs(r.arc_params@);
        let mut j: usize = 0;
        while j < r.arc_params.len()
            invariant
                kv == strs(known@),
                pv == strs(r.arc_params@),
                j <= r.arc_params@.len(),
                views(errors@) == e0 + unknown_params(r.fn_name@, pv.take(j as int), kv),
            decreases r.arc_params@.len() - j,
        {
            proof {
                assert(pv.take(j + 1).drop_last() =~= pv.take(j as int));
                assert(pv.take(j + 1).last() == r.arc_params@[j as int]@);
            }
            let ghost e1 = views(errors@);
            if !contains_name(known, &r.arc_params[j]) {
                errors.push(RouteError::UnknownParam { handler: r.fn_name.clone(), ty: r.arc_params[j].clone() });
                assert(views(errors@) =~= e1.push(RouteErrorModel::UnknownParam { handler: r.fn_name@, ty: r.arc_params@[j as int]@ }));
            }
            assert(views(errors@) =~= e0 + unknown_params(r.fn_name@, pv.take(j + 1), kv));
            j = j + 1;
        }
        assert(pv.take(pv.len() as int) =~= pv);
        let ghost e2 = views(errors@);
        if seen_before(raw, i) {
            errors.push(RouteError::DuplicateRoute { method: r.method.clone(), path: r.path.clone() });
            assert(views(errors@) =~= e2.push(RouteErrorModel::DuplicateRoute { method: r.method@, path: r.path@ }));
        }
        assert(rs.last() == raw@[i as int]@);
        assert(views(errors@) == route_errors(rs, kv));
        i = i + 1;
    }
    assert(views(raw@).take(raw@.len() as int) =~= views(raw@));
    errors
}


proof fn lemma_no_unknown_params(handler: Seq<char>, params: Seq<Seq<char>>, known: Seq<Seq<char>>)
    requires
        unknown_params(handler, params, known).len() == 0,
    ensures
        forall|t: Seq<char>| params.contains(t) ==> known.contains(t),
        keep_known(params, known) == params,
    decreases params.len(),
{
    if params.len() > 0 {
        let pre = params.drop_last();
        if !known.contains(params.last()) {
            assert(unknown_params(handler, params, known).len() > 0);
        }
        lemma_no_unknown_params(handler, pre, known);
        assert forall|t: Seq<char>| params.contains(t) implies known.contains(t) by {
            let j = choose|j: int| 0 <= j < params.len() && params[j] == t;
            if j < params.len() - 1 {
                assert(pre[j] == t);
            }
        }
        assert(pre.push(params.last()) =~= params);
    }
}

/// Law: when route validation reports nothing, no two handlers share a method
/// and path, every `Arc` parameter of a handler is a known component, and
/// resolving the routes keeps every parameter.
pub proof fn law_valid_routes(rs: Seq<RawRouteModel>, known: Seq<Seq<char>>)
    requires
        route_errors(rs, known).len() == 0,
    ensures
        forall|i: int, j: int|
            0 <= i < j < rs.len() ==> !(#[trigger] rs[i].path == #[trigger] rs[j].path && rs[i].method
                == rs[j].method),
        forall|i: int, t: Seq<char>|
            0 <= i < rs.len() && #[trigger] rs[i].arc_params.contains(t) ==> known.contains(t),
        forall|i: int|
            0 <= i < rs.len() ==> (#[trigger] resolved_route(rs[i], known)).service_params == rs[i].arc_params,
    decreases rs.len(),
{
    if rs.len() > 0 {
        let pre = rs.drop_last();
        let a = route_errors(pre, known);
        let b = unknown_params(rs.last().fn_name, rs.last().arc_params, known);
        assert((a + b).len() == a.len() + b.len());
        if repeats_earlier(rs) {
            assert(route_errors(rs, known).len() > 0);
        }
        law_valid_routes(pre, known);
        lemma_no_unknown_params(rs.last().fn_name, rs.last().arc_params, known);
        assert forall|i: int, j: int|
            0 <= i < j < rs.len() implies !(#[trigger] rs[i].path == #[trigger] rs[j].path && rs[i].method
                == rs[j].method) by {
            if j < rs.len() - 1 {
                assert(rs[i] == pre[i] && rs[j] == pre[j]);
            } else {
                if rs[i].path == rs.last().path && rs[i].method == rs.last().method {
                    assert(repeats_earlier(rs));
                }
            }
        }
        assert forall|i: int, t: Seq<char>|
            0 <= i < rs.len() && #[trigger] rs[i].arc_params.contains(t) implies known.contains(t) by {
            if i < rs.len() - 1 {
                assert(rs[i] == pre[i]);
            }
        }
        assert forall|i: int| 0 <= i < rs.len() implies (#[trigger] resolved_route(rs[i], known)).service_params
            == rs[i].arc_params by {
            if i < rs.len() - 1 {
                assert(rs[i] == pre[i]);
            }
        }
    }
}


proof fn lemma_missing_in_exact(name: Seq<char>, deps: Seq<(Seq<char>, Seq<char>)>, known: Seq<Seq<char>>)
    ensures
        forall|k: int|
            0 <= k < deps.len() && !known.contains(#[trigger] deps[k].1) ==> missing_in(name, deps, known).contains(
                DependencyErrorModel::ComponentField { component: name, field: deps[k].0, ty: deps[k].1 },
            ),
        forall|e: DependencyErrorModel|
            #[trigger] missing_in(name, deps, known).contains(e) ==> exists|k: int|
                0 <= k < deps.len() && !known.contains(#[trigger] deps[k].1) && e
                    == (DependencyErrorModel::ComponentField { component: name, field: deps[k].0, ty: deps[k].1 }),
    decreases deps.len(),
{
    if deps.len() > 0 {
        let p = deps.drop_last();
        lemma_missing_in_exact(name, p, known);
        let r = missing_in(name, p, known);
        let all = missing_in(name, deps, known);
        let d = deps.last();
        assert(deps[deps.len() - 1] == d);
        assert forall|x: DependencyErrorModel| r.contains(x) implies all.contains(x) by {
            let j = choose|j: int| 0 <= j < r.len() && r[j] == x;
            assert(all[j] == r[j]);
        }
        assert forall|k: int|
            0 <= k < deps.len() && !known.contains(#[trigger] deps[k].1) implies all.contains(
                DependencyErrorModel::ComponentField { component: name, field: deps[k].0, ty: deps[k].1 },
            ) by {
            if k < p.len() {
                assert(deps[k] == p[k]);
            } else {
                assert(all[r.len() as int] == DependencyErrorModel::ComponentField {
                    component: name,
                    field: deps[k].0,
                    ty: deps[k].1,
                });
            }
        }
        assert forall|e: DependencyErrorModel| #[trigger] all.contains(e) implies exists|k: int|
            0 <= k < deps.len() && !known.contains(#[trigger] deps[k].1) && e
                == (DependencyErrorModel::ComponentField { component: name, field: deps[k].0, ty: deps[k].1 }) by {
            let j = choose|j: int| 0 <= j < all.len() && all[j] == e;
            if j < r.len() {
                assert(r[j] == e);
                assert(r.contains(e));
                let k = choose|k: int|
                    0 <= k < p.len() && !known.contains(#[trigger] p[k].1) && e
                        == (DependencyErrorModel::ComponentField { component: name, field: p[k].0, ty: p[k].1 });
                assert(deps[k] == p[k]);
            } else {
                assert(deps[deps.len() - 1] == d);
            }
        }
    }
}

/// Law: the unresolved dependencies of the components are exactly their
/// fields whose types are not known: every such field is reported with its
/// component, field name and type, every report is such a field, and nothing
/// is reported exactly when every field's type is known.
pub proof fn law_missing_deps_exact(cs: Seq<ComponentModel>, known: Seq<Seq<char>>)
    ensures
        forall|i: int, k: int|
            0 <= i < cs.len() && 0 <= k < cs[i].deps.len() && !known.contains(#[trigger] cs[i].deps[k].1)
                ==> missing_deps(cs, known).contains(
                DependencyErrorModel::ComponentField {
                    component: cs[i].name,
                    field: cs[i].deps[k].0,
                    ty: cs[i].deps[k].1,
                },
            ),
        forall|e: DependencyErrorModel|
            #[trigger] missing_deps(cs, known).contains(e) ==> exists|i: int, k: int|
                0 <= i < cs.len() && 0 <= k < cs[i].deps.len() && !known.contains(#[trigger] cs[i].deps[k].1)
                    && e == (DependencyErrorModel::ComponentField {
                    component: cs[i].name,
                    field: cs[i].deps[k].0,
                    ty: cs[i].deps[k].1,
                }),
        missing_deps(cs, known).len() == 0 <==> forall|i: int, k: int|
            0 <= i < cs.len() && 0 <= k < cs[i].deps.len() ==> known.contains(#[trigger] cs[i].deps[k].1),
    decreases cs.len(),
{
    if cs.len() > 0 {
        let p = cs.drop_last();
        law_missing_deps_exact(p, known);
        let c = cs.last();
        assert(cs[cs.len() - 1] == c);
        lemma_missing_in_exact(c.name, c.deps, known);
        let a = missing_deps(p, known);
        let b = missing_in(c.name, c.deps, known);
        let all = missing_deps(cs, known);
        assert(all == a + b);
        assert forall|x: DependencyErrorModel| (a.contains(x) || b.contains(x)) <==> all.contains(x) by {
            if a.contains(x) {
                let j = choose|j: int| 0 <= j < a.len() && a[j] == x;
                assert(all[j] == x);
            }
            if b.contains(x) {
                let j = choose|j: int| 0 <= j < b.len() && b[j] == x;
                assert(all[a.len() + j] == x);
            }
            if all.contains(x) {
                let j = choose|j: int| 0 <= j < all.len() && all[j] == x;
                if j < a.len() {
                    assert(a[j] == x);
                } else {
                    assert(b[j - a.len()] == x);
                }
            }
        }
        assert forall|i: int, k: int|
            0 <= i < cs.len() && 0 <= k < cs[i].deps.len() && !known.contains(#[trigger] cs[i].deps[k].1)
                implies all.contains(
                DependencyErrorModel::ComponentField {
                    component: cs[i].name,
                    field: cs[i].deps[k].0,
                    ty: cs[i].deps[k].1,
                },
            ) by {
            if i < p.len() {
                assert(cs[i] == p[i]);
            }
        }
        assert forall|e: DependencyErrorModel| #[trigger] all.contains(e) implies exists|i: int, k: int|
            0 <= i < cs.len() && 0 <= k < cs[i].deps.len() && !known.contains(#[trigger] cs[i].deps[k].1)
                && e == (DependencyErrorModel::ComponentField {
                component: cs[i].name,
                field: cs[i].deps[k].0,
                ty: cs[i].deps[k].1,
            }) by {
            if a.contains(e) {
                let (i, k) = choose|i: int, k: int|
                    0 <= i < p.len() && 0 <= k < p[i].deps.len() && !known.contains(#[trigger] p[i].deps[k].1)
                        && e == (DependencyErrorModel::ComponentField {
                        component: p[i].name,
                        field: p[i].deps[k].0,
                        ty: p[i].deps[k].1,
                    });
                assert(cs[i] == p[i]);
            } else {
                assert(b.contains(e));
                let k = choose|k: int|
                    0 <= k < c.deps.len() && !known.contains(#[trigger] c.deps[k].1) && e
                        == (DependencyErrorModel::ComponentField { component: c.name, field: c.deps[k].0, ty: c.deps[k].1 });
                assert(cs[cs.len() - 1] == c);
            }
        }
        if all.len() == 0 {
            assert forall|i: int, k: int| 0 <= i < cs.len() && 0 <= k < cs[i].deps.len() implies known.contains(
                #[trigger] cs[i].deps[k].1,
            ) by {
                if !known.contains(cs[i].deps[k].1) {
                    let e = DependencyErrorModel::ComponentField {
                        component: cs[i].name,
                        field: cs[i].deps[k].0,
                        ty: cs[i].deps[k].1,
                    };
                    assert(all.contains(e));
                }
            }
        }
        if forall|i: int, k: int|
            0 <= i < cs.len() && 0 <= k < cs[i].deps.len() ==> known.contains(#[trigger] cs[i].deps[k].1) {
            if all.len() > 0 {
                assert(all.contains(all[0]));
            }
        }
    }
}


proof fn lemma_missing_params_exact(bean: Seq<char>, fn_name: Seq<char>, params: Seq<Seq<char>>, known: Seq<Seq<char>>)
    ensures
        forall|k: int|
            0 <= k < params.len() && !known.contains(#[trigger] params[k]) ==> missing_params(
                bean,
                fn_name,
                params,
                known,
            ).contains(DependencyErrorModel::BeanParam { bean, fn_name, ty: params[k] }),
        forall|e: DependencyErrorModel|
            #[trigger] missing_params(bean, fn_name, params, known).contains(e) ==> exists|k: int|
                0 <= k < params.len() && !known.contains(#[trigger] params[k]) && e
                    == (DependencyErrorModel::BeanParam { bean, fn_name, ty: params[k] }),
    decreases params.len(),
{
    if params.len() > 0 {
        let p = params.drop_last();
        lemma_missing_params_exact(bean, fn_name, p, known);
        let r = missing_params(bean, fn_name, p, known);
        let all = missing_params(bean, fn_name, params, known);
        assert forall|x: DependencyErrorModel| r.contains(x) implies all.contains(x) by {
            let j = choose|j: int| 0 <= j < r.len() && r[j] == x;
            assert(all[j] == r[j]);
        }
        assert forall|k: int| 0 <= k < params.len() && !known.contains(#[trigger] params[k]) implies all.contains(
            DependencyErrorModel::BeanParam { bean, fn_name, ty: params[k] },
        ) by {
            if k < p.len() {
                assert(params[k] == p[k]);
            } else {
                assert(all[r.len() as int] == DependencyErrorModel::BeanParam { bean, fn_name, ty: params[k] });
            }
        }
        assert forall|e: DependencyErrorModel| #[trigger] all.contains(e) implies exists|k: int|
            0 <= k < params.len() && !known.contains(#[trigger] params[k]) && e
                == (DependencyErrorModel::BeanParam { bean, fn_name, ty: params[k] }) by {
            let j = choose|j: int| 0 <= j < all.len() && all[j] == e;
            if j < r.len() {
                assert(r[j] == e);
                assert(r.contains(e));
                let k = choose|k: int|
                    0 <= k < p.len() && !known.contains(#[trigger] p[k]) && e
                        == (DependencyErrorModel::BeanParam { bean, fn_name, ty: p[k] });
                assert(params[k] == p[k]);
            } else {
                assert(params[params.len() - 1] == params.last());
            }
        }
    }
}

/// Law: the unresolved bean parameters are exactly the parameters whose
/// types are not known: each is reported with its bean, factory function and
/// type, every report is such a parameter, and nothing is reported exactly
/// when every parameter's type is known.
pub proof fn law_missing_bean_deps_exact(bs: Seq<BeanModel>, known: Seq<Seq<char>>)
    ensures
        forall|i: int, k: int|
            0 <= i < bs.len() && 0 <= k < bs[i].deps.len() && !known.contains(#[trigger] bs[i].deps[k])
                ==> missing_bean_deps(bs, known).contains(
                DependencyErrorModel::BeanParam { bean: bs[i].name, fn_name: bs[i].fn_name, ty: bs[i].deps[k] },
            ),
        forall|e: DependencyErrorModel|
            #[trigger] missing_bean_deps(bs, known).contains(e) ==> exists|i: int, k: int|
                0 <= i < bs.len() && 0 <= k < bs[i].deps.len() && !known.contains(#[trigger] bs[i].deps[k])
                    && e == (DependencyErrorModel::BeanParam {
                    bean: bs[i].name,
                    fn_name: bs[i].fn_name,
                    ty: bs[i].deps[k],
                }),
        missing_bean_deps(bs, known).len() == 0 <==> forall|i: int, k: int|
            0 <= i < bs.len() && 0 <= k < bs[i].deps.len() ==> known.contains(#[trigger] bs[i].deps[k]),
    decreases bs.len(),
{
    if bs.len() > 0 {
        let p = bs.drop_last();
        law_missing_bean_deps_exact(p, known);
        let c = bs.last();
        assert(bs[bs.len() - 1] == c);
        lemma_missing_params_exact(c.name, c.fn_name, c.deps, known);
        let a = missing_bean_deps(p, known);
        let b = missing_params(c.name, c.fn_name, c.deps, known);
        let all = missing_bean_deps(bs, known);
        assert(all == a + b);
        assert forall|x: DependencyErrorModel| (a.contains(x) || b.contains(x)) <==> all.contains(x) by {
            if a.contains(x) {
                let j = choose|j: int| 0 <= j < a.len() && a[j] == x;
                assert(all[j] == x);
            }
            if b.contains(x) {
                let j = choose|j: int| 0 <= j < b.len() && b[j] == x;
                assert(all[a.len() + j] == x);
            }
            if all.contains(x) {
                let j = choose|j: int| 0 <= j < all.len() && all[j] == x;
                if j < a.len() {
                    assert(a[j] == x);
                } else {
                    assert(b[j - a.len()] == x);
                }
            }
        }
        assert forall|i: int, k: int|
            0 <= i < bs.len() && 0 <= k < bs[i].deps.len() && !known.contains(#[trigger] bs[i].deps[k])
                implies all.contains(
                DependencyErrorModel::BeanParam { bean: bs[i].name, fn_name: bs[i].fn_name, ty: bs[i].deps[k] },
            ) by {
            if i < p.len() {
                assert(bs[i] == p[i]);
            }
        }
        assert forall|e: DependencyErrorModel| #[trigger] all.contains(e) implies exists|i: int, k: int|
            0 <= i < bs.len() && 0 <= k < bs[i].deps.len() && !known.contains(#[trigger] bs[i].deps[k])
                && e == (DependencyErrorModel::BeanParam {
                bean: bs[i].name,
                fn_name: bs[i].fn_name,
                ty: bs[i].deps[k],
            }) by {
            if a.contains(e) {
                let (i, k) = choose|i: int, k: int|
                    0 <= i < p.len() && 0 <= k < p[i].deps.len() && !known.contains(#[trigger] p[i].deps[k])
                        && e == (DependencyErrorModel::BeanParam {
                        bean: p[i].name,
                        fn_name: p[i].fn_name,
                        ty: p[i].deps[k],
                    });
                assert(bs[i] == p[i]);
            } else {
                assert(b.contains(e));
                let k = choose|k: int|
                    0 <= k < c.deps.len() && !known.contains(#[trigger] c.deps[k]) && e
                        == (DependencyErrorModel::BeanParam { bean: c.name, fn_name: c.fn_name, ty: c.deps[k] });
            }
        }
        if all.len() == 0 {
            assert forall|i: int, k: int| 0 <= i < bs.len() && 0 <= k < bs[i].deps.len() implies known.contains(
                #[trigger] bs[i].deps[k],
            ) by {
                if !known.contains(bs[i].deps[k]) {
                    let e = DependencyErrorModel::BeanParam {
                        bean: bs[i].name,
                        fn_name: bs[i].fn_name,
                        ty: bs[i].deps[k],
                    };
                    assert(all.contains(e));
                }
            }
        }
        if forall|i: int, k: int|
            0 <= i < bs.len() && 0 <= k < bs[i].deps.len() ==> known.contains(#[trigger] bs[i].deps[k]) {
            if all.len() > 0 {
                assert(all.contains(all[0]));
            }
        }
    }
}

} // verus!
