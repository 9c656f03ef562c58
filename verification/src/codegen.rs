use vstd::prelude::*;

use crate::graph::Adjacency;
use crate::models::{strs, views, BeanInfo, BeanModel, ComponentInfo, ComponentModel, LayerInfo, RouteInfo, RouteModel};
use crate::utils::{is_module_path, snake_case, to_snake_case, valid_module_path};

verus! {

/// One statement of the generated `Container::build`, binding the component
/// `ty` to the variable `var`.
#[derive(Clone, Debug)]
pub enum BuildStmt {
    /// `let var = Arc::new(Ty { field: dep_var.clone(), .. })`; with no
    /// fields, `Arc::new(Ty)`.
    Construct { var: String, ty: String, fields: Vec<(String, String)> },
    /// `let var = path::fn_name(arg.clone(), ..)`, awaited when `is_async`,
    /// wrapped in `Arc::new` when `wrap_arc`.
    CallBean {
        var: String,
        mod_path: String,
        fn_name: String,
        args: Vec<String>,
        is_async: bool,
        wrap_arc: bool,
    },
}

/// The abstract value of a build statement.
pub enum BuildStmtModel {
    Construct { var: Seq<char>, ty: Seq<char>, fields: Seq<(Seq<char>, Seq<char>)> },
    CallBean {
        var: Seq<char>,
        mod_path: Seq<char>,
        fn_name: Seq<char>,
        args: Seq<Seq<char>>,
        is_async: bool,
        wrap_arc: bool,
    },
}

impl View for BuildStmt {
    type V = BuildStmtModel;

    open spec fn view(&self) -> BuildStmtModel {
        match self {
            BuildStmt::Construct { var, ty, fields } => BuildStmtModel::Construct {
                var: var@,
                ty: ty@,
                fields: crate::models::str_pairs(fields@),
            },
            BuildStmt::CallBean { var, mod_path, fn_name, args, is_async, wrap_arc } =>
                BuildStmtModel::CallBean {
                var: var@,
                mod_path: mod_path@,
                fn_name: fn_name@,
                args: strs(args@),
                is_async: *is_async,
                wrap_arc: *wrap_arc,
            },
        }
    }
}

/// The index of the last component named `name`, if any.
pub open spec fn last_component_index(cs: Seq<ComponentModel>, name: Seq<char>) -> Option<int>
    decreases cs.len(),
{
    if cs.len() == 0 {
        None
    } else if cs.last().name == name {
        Some(cs.len() - 1)
    } else {
        last_component_index(cs.drop_last(), name)
    }
}

/// The index of the last bean named `name`, if any.
pub open spec fn last_bean_index(bs: Seq<BeanModel>, name: Seq<char>) -> Option<int>
    decreases bs.len(),
{
    if bs.len() == 0 {
        None
    } else if bs.last().name == name {
        Some(bs.len() - 1)
    } else {
        last_bean_index(bs.drop_last(), name)
    }
}

proof fn lemma_last_component_index(cs: Seq<ComponentModel>, name: Seq<char>)
    ensures
        last_component_index(cs, name) matches Some(i) ==> 0 <= i < cs.len() && cs[i].name == name,
        last_component_index(cs, name) is None ==> forall|i: int| 0 <= i < cs.len() ==> #[trigger] cs[i].name != name,
    decreases cs.len(),
{
    if cs.len() > 0 && cs.last().name != name {
        lemma_last_component_index(cs.drop_last(), name);
        assert forall|i: int| 0 <= i < cs.len() - 1 implies #[trigger] cs[i] == cs.drop_last()[i] by {}
    }
}

/// `last_bean_index` finds a bean of that name, or there is none.
pub(crate) proof fn lemma_last_bean_index(bs: Seq<BeanModel>, name: Seq<char>)
    ensures
        last_bean_index(bs, name) matches Some(i) ==> 0 <= i < bs.len() && bs[i].name == name,
        last_bean_index(bs, name) is None ==> forall|i: int| 0 <= i < bs.len() ==> #[trigger] bs[i].name != name,
    decreases bs.len(),
{
    if bs.len() > 0 && bs.last().name != name {
        lemma_last_bean_index(bs.drop_last(), name);
        assert forall|i: int| 0 <= i < bs.len() - 1 implies #[trigger] bs[i] == bs.drop_last()[i] by {}
    }
}

/// The statement that builds `name`: a component (the last of that name) is
/// constructed from its dependencies' variables; otherwise the last bean of
/// that name is called with its dependencies' variables.
pub open spec fn build_stmt_spec(name: Seq<char>, cs: Seq<ComponentModel>, bs: Seq<BeanModel>) -> BuildStmtModel {
    match last_component_index(cs, name) {
        Some(i) => BuildStmtModel::Construct {
            var: snake_case(name),
            ty: name,
            fields: cs[i].deps.map_values(|p: (Seq<char>, Seq<char>)| (p.0, snake_case(p.1))),
        },
        None => {
            let b = bs[last_bean_index(bs, name)->0];
            BuildStmtModel::CallBean {
                var: snake_case(name),
                mod_path: b.mod_path,
                fn_name: b.fn_name,
                args: b.deps.map_values(|t: Seq<char>| snake_case(t)),
                is_async: b.is_async,
                wrap_arc: !b.returns_arc,
            }
        },
    }
}

/// `name` is the name of a component or of a bean.
pub open spec fn is_declared(name: Seq<char>, cs: Seq<ComponentModel>, bs: Seq<BeanModel>) -> bool {
    (exists|i: int| 0 <= i < cs.len() && #[trigger] cs[i].name == name) || (exists|i: int|
        0 <= i < bs.len() && #[trigger] bs[i].name == name)
}

/// The index of the last component named `name`, if any.
pub(crate) fn find_last_component(cs: &Vec<ComponentInfo>, name: &String) -> (r: Option<usize>)
    ensures
        r matches Some(i) ==> last_component_index(views(cs@), name@) == Some(i as int),
        r is None ==> last_component_index(views(cs@), name@) is None,
{
    let mut i: usize = cs.len();
    assert(views(cs@).take(cs@.len() as int) =~= views(cs@));
    while i > 0
        invariant
            i <= cs@.len(),
            last_component_index(views(cs@), name@) == last_component_index(views(cs@).take(i as int), name@),
        decreases i,
    {
        proof {
            assert(views(cs@).take(i as int).drop_last() =~= views(cs@).take(i - 1));
        }
        if cs[i - 1].name == *name {
            return Some(i - 1);
        }
        i = i - 1;
    }
    None
}

/// The index of the last bean named `name`, if any.
pub(crate) fn find_last_bean(bs: &Vec<BeanInfo>, name: &String) -> (r: Option<usize>)
    ensures
        r matches Some(i) ==> last_bean_index(views(bs@), name@) == Some(i as int),
        r is None ==> last_bean_index(views(bs@), name@) is None,
{
    let mut i: usize = bs.len();
    assert(views(bs@).take(bs@.len() as int) =~= views(bs@));
    while i > 0
        invariant
            i <= bs@.len(),
            last_bean_index(views(bs@), name@) == last_bean_index(views(bs@).take(i as int), name@),
        decreases i,
    {
        proof {
            assert(views(bs@).take(i as int).drop_last() =~= views(bs@).take(i - 1));
        }
        if bs[i - 1].name == *name {
            return Some(i - 1);
        }
        i = i - 1;
    }
    None
}

/// The snake-case variables of the names in `v`.
fn snake_names(v: &Vec<String>) -> (r: Vec<String>)
    ensures
        strs(r@) == strs(v@).map_values(|t: Seq<char>| snake_case(t)),
{
    let mut r: Vec<String> = Vec::new();
    let mut i: usize = 0;
    while i < v.len()
        invariant
            i <= v@.len(),
            r@.len() == i,
            forall|m: int| 0 <= m < i ==> #[trigger] r@[m]@ == snake_case(v@[m]@),
        decreases v@.len() - i,
    {
        r.push(to_snake_case(v[i].as_str()));
        i = i + 1;
    }
    assert(strs(r@) =~= strs(v@).map_values(|t: Seq<char>| snake_case(t)));
    r
}

/// The statement of the generated container that builds `name`.
pub fn build_stmt(name: &String, components: &Vec<ComponentInfo>, beans: &Vec<BeanInfo>) -> (r: BuildStmt)
    requires
        is_declared(name@, views(components@), views(beans@)),
    ensures
        r@ == build_stmt_spec(name@, views(components@), views(beans@)),
{
    let var = to_snake_case(name.as_str());
    match find_last_component(components, name) {
        Some(i) => {
            proof { lemma_last_component_index(views(components@), name@); }
            let c = &components[i];
            let mut fields: Vec<(String, String)> = Vec::new();
            let mut j: usize = 0;
            while j < c.deps.len()
                invariant
                    j <= c.deps@.len(),
                    fields@.len() == j,
                    forall|m: int|
                        0 <= m < j ==> #[trigger] fields@[m].0@ == c.deps@[m].0@ && fields@[m].1@
                            == snake_case(c.deps@[m].1@),
                decreases c.deps@.len() - j,
            {
                fields.push((c.deps[j].0.clone(), to_snake_case(c.deps[j].1.as_str())));
                j = j + 1;
            }
            proof {
                assert(views(components@)[i as int] == c@);
                assert(crate::models::str_pairs(fields@) =~= c@.deps.map_values(
                    |p: (Seq<char>, Seq<char>)| (p.0, snake_case(p.1)),
                ));
            }
            BuildStmt::Construct { var, ty: name.clone(), fields }
        },
        None => {
            proof {
                lemma_last_component_index(views(components@), name@);
                lemma_last_bean_index(views(beans@), name@);
                if exists|k: int| 0 <= k < components@.len() && #[trigger] views(components@)[k].name == name@ {
                    let k = choose|k: int| 0 <= k < components@.len() && #[trigger] views(components@)[k].name == name@;
                    assert(false);
                }
            }
            match find_last_bean(beans, name) {
                Some(i) => {
                    let b = &beans[i];
                    assert(i < beans@.len());
                    assert(views(beans@)[i as int] == b@);
                    BuildStmt::CallBean {
                        var,
                        mod_path: b.mod_path.clone(),
                        fn_name: b.fn_name.clone(),
                        args: snake_names(&b.deps),
                        is_async: b.is_async,
                        wrap_arc: !b.returns_arc,
                    }
                },
                None => {
                    proof {
                        let k = choose|k: int| 0 <= k < beans@.len() && #[trigger] views(beans@)[k].name == name@;
                        assert(views(beans@)[k].name != name@);
                    }
                    BuildStmt::Construct { var, ty: name.clone(), fields: Vec::new() }
                },
            }
        },
    }
}

/// What the generated container holds: a field per component in build
/// order, the statements that build them, and whether building is async.
#[derive(Clone, Debug)]
pub struct ContainerPlan {
    pub fields: Vec<(String, String)>,
    pub stmts: Vec<BuildStmt>,
    pub is_async: bool,
}

/// The plan of the generated container: for each name of `order`, a field
/// `snake_case(name): Arc<name>` and the statement that builds it; building is
/// async when some bean is.
pub fn container_plan(
    order: &Vec<String>,
    components: &Vec<ComponentInfo>,
    beans: &Vec<BeanInfo>,
    has_async_bean: bool,
) -> (r: ContainerPlan)
    requires
        forall|i: int| 0 <= i < order@.len() ==> is_declared(#[trigger] order@[i]@, views(components@), views(beans@)),
    ensures
        r.is_async == has_async_bean,
        r.fields@.len() == order@.len(),
        r.stmts@.len() == order@.len(),
        forall|i: int|
            0 <= i < order@.len() ==> #[trigger] r.fields@[i].0@ == snake_case(order@[i]@) && r.fields@[i].1@
                == order@[i]@,
        forall|i: int|
            0 <= i < order@.len() ==> #[trigger] r.stmts@[i]@ == build_stmt_spec(
                order@[i]@,
                views(components@),
                views(beans@),
            ),
{
    let mut fields: Vec<(String, String)> = Vec::new();
    let mut stmts: Vec<BuildStmt> = Vec::new();
    let mut i: usize = 0;
    while i < order.len()
        invariant
            forall|i: int| 0 <= i < order@.len() ==> is_declared(#[trigger] order@[i]@, views(components@), views(beans@)),
            i <= order@.len(),
            fields@.len() == i,
            stmts@.len() == i,
            forall|m: int|
                0 <= m < i ==> #[trigger] fields@[m].0@ == snake_case(order@[m]@) && fields@[m].1@ == order@[m]@,
            forall|m: int|
                0 <= m < i ==> #[trigger] stmts@[m]@ == build_stmt_spec(
                    order@[m]@,
                    views(components@),
                    views(beans@),
                ),
        decreases order@.len() - i,
    {
        fields.push((to_snake_case(order[i].as_str()), order[i].clone()));
        stmts.push(build_stmt(&order[i], components, beans));
        i = i + 1;
    }
    ContainerPlan { fields, stmts, is_async: has_async_bean }
}

/// A copy of a list of names.
pub fn copy_names(v: &Vec<String>) -> (r: Vec<String>)
    ensures
        strs(r@) == strs(v@),
{
    let mut r: Vec<String> = Vec::new();
    let mut i: usize = 0;
    while i < v.len()
        invariant
            i <= v@.len(),
            strs(r@) == strs(v@).take(i as int),
        decreases v@.len() - i,
    {
        let ghost r0 = strs(r@);
        r.push(v[i].clone());
        assert(strs(r@) =~= r0.push(v@[i as int]@));
        assert(strs(r@) =~= strs(v@).take(i + 1));
        i = i + 1;
    }
    assert(strs(v@).take(v@.len() as int) =~= strs(v@));
    r
}

/// The nodes of the generated dependency graph: each name of `order` with its
/// dependencies.
pub fn graph_nodes(order: &Vec<String>, adjacency: &Adjacency) -> (r: Vec<(String, Vec<String>)>)
    requires
        forall|i: int| 0 <= i < order@.len() ==> adjacency@.contains_key(#[trigger] order@[i]@),
    ensures
        r@.len() == order@.len(),
        forall|i: int|
            0 <= i < order@.len() ==> #[trigger] r@[i].0@ == order@[i]@ && strs(r@[i].1@) == adjacency@[order@[i]@],
{
    let mut r: Vec<(String, Vec<String>)> = Vec::new();
    let mut i: usize = 0;
    while i < order.len()
        invariant
            forall|i: int| 0 <= i < order@.len() ==> adjacency@.contains_key(#[trigger] order@[i]@),
            i <= order@.len(),
            r@.len() == i,
            forall|m: int|
                0 <= m < i ==> #[trigger] r@[m].0@ == order@[m]@ && strs(r@[m].1@) == adjacency@[order@[m]@],
        decreases order@.len() - i,
    {
        assert(adjacency@.contains_key(order@[i as int]@));
        match adjacency.get(&order[i]) {
            Some(deps) => {
                r.push((order[i].clone(), copy_names(deps)));
            },
            None => {
                assert(false);
            },
        }
        i = i + 1;
    }
    r
}

/// One route of the generated router: the wrapper that extracts the
/// container, the handler it calls with the services it needs, and the
/// method and path it is served on.
#[derive(Clone, Debug)]
pub struct RoutePlan {
    pub wrapper: String,
    pub handler: String,
    pub mod_path: String,
    pub method: String,
    pub path: String,
    pub state_fields: Vec<String>,
}

/// The abstract value of a route plan.
pub struct RoutePlanModel {
    pub wrapper: Seq<char>,
    pub handler: Seq<char>,
    pub mod_path: Seq<char>,
    pub method: Seq<char>,
    pub path: Seq<char>,
    pub state_fields: Seq<Seq<char>>,
}

impl View for RoutePlan {
    type V = RoutePlanModel;

    open spec fn view(&self) -> RoutePlanModel {
        RoutePlanModel {
            wrapper: self.wrapper@,
            handler: self.handler@,
            mod_path: self.mod_path@,
            method: self.method@,
            path: self.path@,
            state_fields: strs(self.state_fields@),
        }
    }
}

/// The route plan of a resolved route: wrapper `__thrust_<handler>`, and the
/// container fields of its service parameters.
pub open spec fn route_plan_spec(r: RouteModel) -> RoutePlanModel {
    RoutePlanModel {
        wrapper: "__thrust_"@ + r.fn_name,
        handler: r.fn_name,
        mod_path: r.mod_path,
        method: r.method,
        path: r.path,
        state_fields: r.service_params.map_values(|t: Seq<char>| snake_case(t)),
    }
}

/// The plan of the generated router and server start-up.
#[derive(Clone, Debug)]
pub struct RouterPlan {
    pub routes: Vec<RoutePlan>,
    pub layers: Vec<LayerInfo>,
    pub build_async: bool,
    pub has_server_config: bool,
}

/// The plan of the generated router: a wrapper and a route per handler, the
/// layers in order, whether the container is built asynchronously, and
/// whether a `ServerConfig` bean configures the server.
pub fn router_plan(
    routes: &Vec<RouteInfo>,
    layers: &Vec<LayerInfo>,
    has_async_bean: bool,
    has_server_config: bool,
) -> (r: RouterPlan)
    ensures
        r.routes@.len() == routes@.len(),
        forall|i: int| 0 <= i < routes@.len() ==> #[trigger] r.routes@[i]@ == route_plan_spec(routes@[i]@),
        forall|i: int|
            0 <= i < routes@.len() ==> (#[trigger] r.routes@[i]).method@ == routes@[i].method@
                && r.routes@[i].path@ == routes@[i].path@ && r.routes@[i].handler@ == routes@[i].fn_name@
                && r.routes@[i].mod_path@ == routes@[i].mod_path@,
        views(r.layers@) == views(layers@),
        r.build_async == has_async_bean,
        r.has_server_config == has_server_config,
{
    let mut plans: Vec<RoutePlan> = Vec::new();
    let mut i: usize = 0;
    while i < routes.len()
        invariant
            i <= routes@.len(),
            plans@.len() == i,
            forall|m: int| 0 <= m < i ==> #[trigger] plans@[m]@ == route_plan_spec(routes@[m]@),
        decreases routes@.len() - i,
    {
        let rt = &routes[i];
        let mut wrapper = String::from_str("__thrust_");
        wrapper.append(rt.fn_name.as_str());
        plans.push(
            RoutePlan {
                wrapper,
                handler: rt.fn_name.clone(),
                mod_path: rt.mod_path.clone(),
                method: rt.method.clone(),
                path: rt.path.clone(),
                state_fields: snake_names(&rt.service_params),
            },
        );
        i = i + 1;
    }
    let mut ls: Vec<LayerInfo> = Vec::new();
    let mut j: usize = 0;
    while j < layers.len()
        invariant
            j <= layers@.len(),
            ls@.len() == j,
            forall|m: int| 0 <= m < j ==> #[trigger] ls@[m]@ == layers@[m]@,
        decreases layers@.len() - j,
    {
        ls.push(LayerInfo { fn_name: layers[j].fn_name.clone(), mod_path: layers[j].mod_path.clone() });
        j = j + 1;
    }
    assert(views(ls@) =~= views(layers@));
    assert forall|i: int| 0 <= i < routes@.len() implies (#[trigger] plans@[i]).method@ == routes@[i].method@
        && plans@[i].path@ == routes@[i].path@ && plans@[i].handler@ == routes@[i].fn_name@
        && plans@[i].mod_path@ == routes@[i].mod_path@ by {
        assert(plans@[i]@ == route_plan_spec(routes@[i]@));
    }
    RouterPlan { routes: plans, layers: ls, build_async: has_async_bean, has_server_config }
}

/// The first non-empty module path of `paths` that generated code cannot
/// call through, if any.
pub fn first_invalid_path(paths: &Vec<String>) -> (r: Option<String>)
    ensures
        r matches Some(p) ==> exists|i: int|
            0 <= i < paths@.len() && #[trigger] paths@[i]@ == p@ && p@.len() > 0 && !is_module_path(p@)
                && forall|j: int| 0 <= j < i ==> (#[trigger] paths@[j]@).len() == 0 || is_module_path(paths@[j]@),
        r is None ==> forall|j: int| 0 <= j < paths@.len() ==> (#[trigger] paths@[j]@).len() == 0 || is_module_path(paths@[j]@),
{
    let mut i: usize = 0;
    while i < paths.len()
        invariant
            i <= paths@.len(),
            forall|j: int| 0 <= j < i ==> (#[trigger] paths@[j]@).len() == 0 || is_module_path(paths@[j]@),
        decreases paths@.len() - i,
    {
        if paths[i].as_str().unicode_len() > 0 && !valid_module_path(paths[i].as_str()) {
            return Some(paths[i].clone());
        }
        i = i + 1;
    }
    None
}


proof fn lemma_last_bean_index_at(bs: Seq<BeanModel>, name: Seq<char>, i: int)
    requires
        0 <= i < bs.len(),
        bs[i].name == name,
        forall|j: int| i < j < bs.len() ==> #[trigger] bs[j].name != name,
    ensures
        last_bean_index(bs, name) == Some(i),
    decreases bs.len(),
{
    if i < bs.len() - 1 {
        let p = bs.drop_last();
        assert(bs[bs.len() - 1].name != name);
        assert forall|j: int| i < j < p.len() implies #[trigger] p[j].name != name by {
            assert(p[j] == bs[j]);
        }
        lemma_last_bean_index_at(p, name, i);
    }
}

/// Law: a name that no component has is built by calling the factory of the
/// last bean of that name: its function, in its module, awaited when it is
/// async, wrapped in `Arc` when it returns a bare value, with one argument
/// per parameter.
pub proof fn law_bean_statement_calls_factory(
    name: Seq<char>,
    cs: Seq<ComponentModel>,
    bs: Seq<BeanModel>,
    i: int,
)
    requires
        forall|j: int| 0 <= j < cs.len() ==> #[trigger] cs[j].name != name,
        0 <= i < bs.len(),
        bs[i].name == name,
        forall|j: int| i < j < bs.len() ==> #[trigger] bs[j].name != name,
    ensures
        build_stmt_spec(name, cs, bs) matches BuildStmtModel::CallBean {
            var,
            mod_path,
            fn_name,
            args,
            is_async,
            wrap_arc,
        } && fn_name == bs[i].fn_name && mod_path == bs[i].mod_path && is_async == bs[i].is_async
            && wrap_arc == !bs[i].returns_arc && args.len() == bs[i].deps.len(),
{
    lemma_last_component_index(cs, name);
    lemma_last_bean_index_at(bs, name, i);
}

/// Law: the plan of a route keeps its handler, module, method and path, has
/// one container field per service parameter, and names its wrapper after
/// the handler.
pub proof fn law_route_plan_keeps_route(r: RouteModel)
    ensures
        route_plan_spec(r).method == r.method,
        route_plan_spec(r).path == r.path,
        route_plan_spec(r).handler == r.fn_name,
        route_plan_spec(r).mod_path == r.mod_path,
        route_plan_spec(r).state_fields.len() == r.service_params.len(),
        route_plan_spec(r).wrapper.subrange(9, route_plan_spec(r).wrapper.len() as int) == r.fn_name,
{
    reveal_strlit("__thrust_");
    assert("__thrust_"@.len() == 9);
    assert(("__thrust_"@ + r.fn_name).subrange(9, 9 + r.fn_name.len() as int) =~= r.fn_name);
}


proof fn lemma_last_component_index_at(cs: Seq<ComponentModel>, name: Seq<char>, i: int)
    requires
        0 <= i < cs.len(),
        cs[i].name == name,
        forall|j: int| i < j < cs.len() ==> #[trigger] cs[j].name != name,
    ensures
        last_component_index(cs, name) == Some(i),
    decreases cs.len(),
{
    if i < cs.len() - 1 {
        let p = cs.drop_last();
        assert(cs[cs.len() - 1].name != name);
        assert forall|j: int| i < j < p.len() implies #[trigger] p[j].name != name by {
            assert(p[j] == cs[j]);
        }
        lemma_last_component_index_at(p, name, i);
    }
}

/// Law: a component is built by constructing its own type, with one field
/// per dependency of the last component of that name, in order and under
/// the same field names.
pub proof fn law_component_statement_constructs(name: Seq<char>, cs: Seq<ComponentModel>, bs: Seq<BeanModel>, i: int)
    requires
        0 <= i < cs.len(),
        cs[i].name == name,
        forall|j: int| i < j < cs.len() ==> #[trigger] cs[j].name != name,
    ensures
        build_stmt_spec(name, cs, bs) matches BuildStmtModel::Construct { var, ty, fields } && ty == name
            && fields.len() == cs[i].deps.len() && forall|k: int|
            0 <= k < fields.len() ==> (#[trigger] fields[k]).0 == cs[i].deps[k].0,
{
    lemma_last_component_index_at(cs, name, i);
}

} // verus!
