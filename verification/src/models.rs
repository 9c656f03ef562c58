use vstd::prelude::*;

verus! {

/// The abstract value of a `#[service]` struct: its name and its
/// `(field name, dependency type)` pairs.
pub struct ComponentModel {
    pub name: Seq<char>,
    pub deps: Seq<(Seq<char>, Seq<char>)>,
}

/// The abstract value of a `#[bean]` factory function.
pub struct BeanModel {
    pub name: Seq<char>,
    pub fn_name: Seq<char>,
    pub is_async: bool,
    pub returns_arc: bool,
    pub deps: Seq<Seq<char>>,
    pub mod_path: Seq<char>,
}

/// The abstract value of a route handler before its parameters are resolved.
pub struct RawRouteModel {
    pub fn_name: Seq<char>,
    pub method: Seq<char>,
    pub path: Seq<char>,
    pub mod_path: Seq<char>,
    pub arc_params: Seq<Seq<char>>,
}

/// The abstract value of a resolved route handler.
pub struct RouteModel {
    pub fn_name: Seq<char>,
    pub method: Seq<char>,
    pub path: Seq<char>,
    pub mod_path: Seq<char>,
    pub service_params: Seq<Seq<char>>,
}

/// A `#[service]` struct: its name and, per named field, the field name and the
/// dependency type (`Arc<T>` already unwrapped to `T`).
#[derive(Clone, Debug)]
pub struct ComponentInfo {
    pub name: String,
    pub deps: Vec<(String, String)>,
}

/// A `#[bean]` factory function. `name` is the type it produces; `deps` are the
/// types of its `Arc<T>` parameters. `returns_arc` records whether the function
/// already returns `Arc<T>` (otherwise the container wraps the bare `T`).
#[derive(Clone, Debug)]
pub struct BeanInfo {
    pub name: String,
    pub fn_name: String,
    pub is_async: bool,
    pub returns_arc: bool,
    pub deps: Vec<String>,
    pub mod_path: String,
}

/// A `#[layer]` function whose result is applied to the generated router.
#[derive(Clone, Debug)]
pub struct LayerInfo {
    pub fn_name: String,
    pub mod_path: String,
}

/// An `impl Trait for Concrete` block.
#[derive(Clone, Debug)]
pub struct TraitImpl {
    pub trait_name: String,
    pub concrete: String,
}

/// A route handler as scanned: `arc_params` are the inner types of its `Arc<T>`
/// parameters.
#[derive(Clone, Debug)]
pub struct RawRouteInfo {
    pub fn_name: String,
    pub method: String,
    pub path: String,
    pub mod_path: String,
    pub arc_params: Vec<String>,
}

/// A route handler whose parameters have been restricted to known components.
#[derive(Clone, Debug)]
pub struct RouteInfo {
    pub fn_name: String,
    pub method: String,
    pub path: String,
    pub mod_path: String,
    pub service_params: Vec<String>,
}

/// The views of a sequence of owned strings.
pub open spec fn strs(s: Seq<String>) -> Seq<Seq<char>> {
    s.map_values(|x: String| x@)
}

/// The views of a sequence of pairs of owned strings.
pub open spec fn str_pairs(s: Seq<(String, String)>) -> Seq<(Seq<char>, Seq<char>)> {
    s.map_values(|p: (String, String)| (p.0@, p.1@))
}

impl View for ComponentInfo {
    type V = ComponentModel;

    open spec fn view(&self) -> ComponentModel {
        ComponentModel { name: self.name@, deps: str_pairs(self.deps@) }
    }
}

impl View for BeanInfo {
    type V = BeanModel;

    open spec fn view(&self) -> BeanModel {
        BeanModel {
            name: self.name@,
            fn_name: self.fn_name@,
            is_async: self.is_async,
            returns_arc: self.returns_arc,
            deps: strs(self.deps@),
            mod_path: self.mod_path@,
        }
    }
}

impl View for LayerInfo {
    type V = (Seq<char>, Seq<char>);

    open spec fn view(&self) -> (Seq<char>, Seq<char>) {
        (self.fn_name@, self.mod_path@)
    }
}

impl View for TraitImpl {
    type V = (Seq<char>, Seq<char>);

    open spec fn view(&self) -> (Seq<char>, Seq<char>) {
        (self.trait_name@, self.concrete@)
    }
}

impl View for RawRouteInfo {
    type V = RawRouteModel;

    open spec fn view(&self) -> RawRouteModel {
        RawRouteModel {
            fn_name: self.fn_name@,
            method: self.method@,
            path: self.path@,
            mod_path: self.mod_path@,
            arc_params: strs(self.arc_params@),
        }
    }
}

impl View for RouteInfo {
    type V = RouteModel;

    open spec fn view(&self) -> RouteModel {
        RouteModel {
            fn_name: self.fn_name@,
            method: self.method@,
            path: self.path@,
            mod_path: self.mod_path@,
            service_params: strs(self.service_params@),
        }
    }
}

/// The views of a sequence of values.
pub open spec fn views<T: View>(s: Seq<T>) -> Seq<T::V> {
    s.map_values(|x: T| x@)
}

} // verus!
