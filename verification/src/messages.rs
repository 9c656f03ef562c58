use vstd::prelude::*;

use crate::models::strs;
use crate::resolve::AmbiguousTrait;
use crate::scanner::ScanError;
use crate::validate::{DependencyError, RouteError};

verus! {

/// The texts of `list` with `sep` between consecutive ones.
pub open spec fn joined(list: Seq<Seq<char>>, sep: Seq<char>) -> Seq<char>
    decreases list.len(),
{
    if list.len() == 0 {
        Seq::empty()
    } else if list.len() == 1 {
        list[0]
    } else {
        joined(list.drop_last(), sep) + sep + list.last()
    }
}

/// Joins the texts of `list` with `sep` between consecutive ones.
pub fn join_names(list: &Vec<String>, sep: &str) -> (r: String)
    ensures
        r@ == joined(strs(list@), sep@),
{
    let mut r = String::new();
    let mut i: usize = 0;
    while i < list.len()
        invariant
            i <= list@.len(),
            r@ == joined(strs(list@).take(i as int), sep@),
        decreases list@.len() - i,
    {
        proof {
            assert(strs(list@).take(i + 1).drop_last() =~= strs(list@).take(i as int));
            assert(strs(list@).take(i + 1).last() == list@[i as int]@);
        }
        if i > 0 {
            r.append(sep);
        } else {
            assert(r@ =~= Seq::<char>::empty());
        }
        r.append(list[i].as_str());
        i = i + 1;
    }
    assert(strs(list@).take(list@.len() as int) =~= strs(list@));
    r
}

/// Name for what `str::to_uppercase` returns: the Unicode upper-case mapping
/// of a text.
pub uninterp spec fn uppercase(s: Seq<char>) -> Seq<char>;

/// The ASCII upper-case form of `c`; other characters are unchanged.
pub open spec fn ascii_upper(c: char) -> char {
    if 'a' <= c && c <= 'z' {
        ((c as u32) - 32) as char
    } else {
        c
    }
}

/// Every character of `s` is ASCII.
pub open spec fn all_ascii(s: Seq<char>) -> bool {
    forall|i: int| 0 <= i < s.len() ==> (s[i] as u32) < 128
}

/// Calls `str::to_uppercase`. The contract names its result and states the
/// ASCII part of the Unicode mapping, which maps `a` to `z` onto `A` to `Z` and
/// keeps every other ASCII character; beyond ASCII the mapping is not spelled
/// out.
#[verifier::external_body]
fn to_uppercase(s: &str) -> (r: String)
    ensures
        r@ == uppercase(s@),
        all_ascii(s@) ==> r@ == s@.map_values(|c: char| ascii_upper(c)),
{
    s.to_uppercase()
}

/// The text reporting an unresolved component field.
pub open spec fn dependency_text(component: Seq<char>, field: Seq<char>, ty: Seq<char>) -> Seq<char> {
    "`"@ + component + "::"@ + field + "` depends on `"@ + ty
        + "`, which is not a @service or @bean component"@
}

/// The text reporting a handler parameter that is not a component.
pub open spec fn unknown_param_text(handler: Seq<char>, ty: Seq<char>) -> Seq<char> {
    "handler `"@ + handler + "` has Arc<"@ + ty + "> parameter but `"@ + ty
        + "` is not a @service or @bean component"@
}

/// The text reporting a repeated route, given the method already in upper case.
pub open spec fn duplicate_route_text(method_upper: Seq<char>, path: Seq<char>) -> Seq<char> {
    "duplicate route `"@ + method_upper + " "@ + path
        + "` \u{2014} only one handler per method+path is allowed"@
}

/// The text reporting an ambiguous trait.
pub open spec fn ambiguous_trait_text(t: Seq<char>, implementors: Seq<Seq<char>>) -> Seq<char> {
    "thrust: trait `"@ + t + "` is implemented by multiple components ("@ + joined(
        implementors,
        ", "@,
    ) + "); cannot decide which to inject for `Arc<dyn "@ + t + ">`"@
}

/// The text reporting a dependency cycle.
pub open spec fn cycle_text(cycle: Seq<Seq<char>>) -> Seq<char> {
    "thrust: dependency cycle detected: "@ + joined(cycle, " -> "@)
}

/// The text reporting an unresolved bean parameter.
pub open spec fn bean_param_text(bean: Seq<char>, fn_name: Seq<char>, ty: Seq<char>) -> Seq<char> {
    "`#[bean]` function `"@ + fn_name + "` producing `"@ + bean + "` takes Arc<"@ + ty
        + ">, but `"@ + ty + "` is not a @service or @bean component"@
}

impl DependencyError {
    /// The message that reports this error.
    pub fn message(&self) -> (r: String)
        ensures
            self matches DependencyError::ComponentField { component, field, ty } ==> r@
                == dependency_text(component@, field@, ty@),
            self matches DependencyError::BeanParam { bean, fn_name, ty } ==> r@ == bean_param_text(
                bean@,
                fn_name@,
                ty@,
            ),
    {
        match self {
            DependencyError::ComponentField { component, field, ty } => {
                let mut r = String::new();
                r.append("`");
                r.append(component.as_str());
                r.append("::");
                r.append(field.as_str());
                r.append("` depends on `");
                r.append(ty.as_str());
                r.append("`, which is not a @service or @bean component");
                assert(r@ =~= dependency_text(component@, field@, ty@));
                r
            },
            DependencyError::BeanParam { bean, fn_name, ty } => {
                let mut r = String::new();
                r.append("`#[bean]` function `");
                r.append(fn_name.as_str());
                r.append("` producing `");
                r.append(bean.as_str());
                r.append("` takes Arc<");
                r.append(ty.as_str());
                r.append(">, but `");
                r.append(ty.as_str());
                r.append("` is not a @service or @bean component");
                assert(r@ =~= bean_param_text(bean@, fn_name@, ty@));
                r
            },
        }
    }
}

/// The message for a repeated route, from the method already in upper case.
pub fn duplicate_route_message(method_upper: &str, path: &str) -> (r: String)
    ensures
        r@ == duplicate_route_text(method_upper@, path@),
{
    let mut r = String::new();
    r.append("duplicate route `");
    r.append(method_upper);
    r.append(" ");
    r.append(path);
    r.append("` \u{2014} only one handler per method+path is allowed");
    assert(r@ =~= duplicate_route_text(method_upper@, path@));
    r
}

impl RouteError {
    /// The message that reports this error; a repeated route is named with
    /// its method in upper case.
    pub fn message(&self) -> (r: String)
        ensures
            self matches RouteError::UnknownParam { handler, ty } ==> r@ == unknown_param_text(
                handler@,
                ty@,
            ),
            self matches RouteError::DuplicateRoute { method, path } ==> r@ == duplicate_route_text(
                uppercase(method@),
                path@,
            ),
            self matches RouteError::DuplicateRoute { method, path } ==> all_ascii(method@) ==> r@
                == duplicate_route_text(method@.map_values(|c: char| ascii_upper(c)), path@),
    {
        match self {
            RouteError::UnknownParam { handler, ty } => {
                let mut r = String::new();
                r.append("handler `");
                r.append(handler.as_str());
                r.append("` has Arc<");
                r.append(ty.as_str());
                r.append("> parameter but `");
                r.append(ty.as_str());
                r.append("` is not a @service or @bean component");
                assert(r@ =~= unknown_param_text(handler@, ty@));
                r
            },
            RouteError::DuplicateRoute { method, path } => {
                let upper = to_uppercase(method.as_str());
                duplicate_route_message(upper.as_str(), path.as_str())
            },
        }
    }
}

impl AmbiguousTrait {
    /// The message that reports this error.
    pub fn message(&self) -> (r: String)
        ensures
            r@ == ambiguous_trait_text(self.trait_name@, strs(self.implementors@)),
    {
        let list = join_names(&self.implementors, ", ");
        let mut r = String::new();
        r.append("thrust: trait `");
        r.append(self.trait_name.as_str());
        r.append("` is implemented by multiple components (");
        r.append(list.as_str());
        r.append("); cannot decide which to inject for `Arc<dyn ");
        r.append(self.trait_name.as_str());
        r.append(">`");
        assert(r@ =~= ambiguous_trait_text(self.trait_name@, strs(self.implementors@)));
        r
    }
}

/// The message that reports a dependency cycle found by `detect_cycles`.
pub fn cycle_message(cycle: &Vec<String>) -> (r: String)
    ensures
        r@ == cycle_text(strs(cycle@)),
{
    let list = join_names(cycle, " -> ");
    let mut r = String::new();
    r.append("thrust: dependency cycle detected: ");
    r.append(list.as_str());
    assert(r@ =~= cycle_text(strs(cycle@)));
    r
}


/// The text reporting a refused source construct.
pub open spec fn scan_error_text(e: crate::scanner::ScanErrorModel) -> Seq<char> {
    match e {
        crate::scanner::ScanErrorModel::BeanWithoutType { fn_name } => "thrust: `#[bean]` function `"@
            + fn_name + "` must return `T` or `Arc<T>`"@,
        crate::scanner::ScanErrorModel::RouteNotAsync { method, fn_name } => "thrust: `#["@ + method
            + "]` on `"@ + fn_name + "` must be async"@,
        crate::scanner::ScanErrorModel::RouteWithoutPath { method, fn_name } => "thrust: `#["@ + method
            + "]` on `"@ + fn_name + "` requires a string literal path"@,
    }
}

impl ScanError {
    /// The message that reports this error.
    pub fn message(&self) -> (r: String)
        ensures
            r@ == scan_error_text(self@),
    {
        match self {
            ScanError::BeanWithoutType { fn_name } => {
                let mut r = String::from_str("thrust: `#[bean]` function `");
                r.append(fn_name.as_str());
                r.append("` must return `T` or `Arc<T>`");
                assert(r@ =~= scan_error_text(self@));
                r
            },
            ScanError::RouteNotAsync { method, fn_name } => {
                let mut r = String::from_str("thrust: `#[");
                r.append(method.as_str());
                r.append("]` on `");
                r.append(fn_name.as_str());
                r.append("` must be async");
                assert(r@ =~= scan_error_text(self@));
                r
            },
            ScanError::RouteWithoutPath { method, fn_name } => {
                let mut r = String::from_str("thrust: `#[");
                r.append(method.as_str());
                r.append("]` on `");
                r.append(fn_name.as_str());
                r.append("` requires a string literal path");
                assert(r@ =~= scan_error_text(self@));
                r
            },
        }
    }
}

} // verus!
