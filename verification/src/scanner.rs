use vstd::prelude::*;

use crate::markers::{first_trait, first_trait_ident};
use crate::syntax::{parse_items, syn_parses};
use crate::utils::{derive_module_path, module_path_spec, path_components};
use crate::models::{
    strs, views, BeanInfo, BeanModel, ComponentInfo, ComponentModel, LayerInfo, RawRouteInfo,
    RawRouteModel, TraitImpl,
};

verus! {

/// A segment of a path type: its identifier and its angle-bracketed
/// arguments, each a type's tokens as printed or `None` for an argument that
/// is not a type (none for other arguments).
#[derive(Clone, Debug)]
pub struct SegmentInfo {
    pub ident: String,
    pub args: Vec<Option<String>>,
}

/// What the scanner reads of a type: its tokens as printed (with spaces
/// between tokens), for a path type its segments, and for a bare trait
/// object its bounds (each the last path segment of a trait bound, or `None`
/// for another bound).
#[derive(Clone, Debug)]
pub struct TypeInfo {
    pub tokens: String,
    pub path: Option<Vec<SegmentInfo>>,
    pub trait_bounds: Option<Vec<Option<String>>>,
}

/// An attribute: its path when that is a single identifier, and its argument
/// when that is a single string literal.
#[derive(Clone, Debug)]
pub struct AttrInfo {
    pub ident: Option<String>,
    pub str_arg: Option<String>,
}

/// A struct field: its name (named fields) and type.
#[derive(Clone, Debug)]
pub struct FieldInfo {
    pub name: Option<String>,
    pub ty: TypeInfo,
}

/// A struct item; `named_fields` is `None` for tuple and unit structs.
#[derive(Clone, Debug)]
pub struct StructInfo {
    pub attrs: Vec<AttrInfo>,
    pub name: String,
    pub named_fields: Option<Vec<FieldInfo>>,
}

/// A function item; each input is `None` for a `self` receiver.
#[derive(Clone, Debug)]
pub struct FnInfo {
    pub attrs: Vec<AttrInfo>,
    pub name: String,
    pub is_async: bool,
    pub inputs: Vec<Option<TypeInfo>>,
    pub output: Option<TypeInfo>,
}

/// An impl block: the last segment of the implemented trait (none for an
/// inherent impl) and the implementing type.
#[derive(Clone, Debug)]
pub struct ImplInfo {
    pub trait_name: Option<String>,
    pub self_ty: TypeInfo,
}

/// A top-level item of a source file.
#[derive(Clone, Debug)]
pub enum ItemInfo {
    Struct(StructInfo),
    Impl(ImplInfo),
    Fn(FnInfo),
    Other,
}

/// The abstract value of a path segment.
pub struct SegmentModel {
    pub ident: Seq<char>,
    pub args: Seq<Option<Seq<char>>>,
}

/// The abstract value of a type as the scanner reads it.
pub struct TypeModel {
    pub tokens: Seq<char>,
    pub path: Option<Seq<SegmentModel>>,
    pub trait_bounds: Option<Seq<Option<Seq<char>>>>,
}

/// The abstract value of an attribute.
pub struct AttrModel {
    pub ident: Option<Seq<char>>,
    pub str_arg: Option<Seq<char>>,
}

/// The abstract value of a struct field.
pub struct FieldModel {
    pub name: Option<Seq<char>>,
    pub ty: TypeModel,
}

/// The abstract value of a struct item.
pub struct StructModel {
    pub attrs: Seq<AttrModel>,
    pub name: Seq<char>,
    pub named_fields: Option<Seq<FieldModel>>,
}

/// The abstract value of a function item.
pub struct FnModel {
    pub attrs: Seq<AttrModel>,
    pub name: Seq<char>,
    pub is_async: bool,
    pub inputs: Seq<Option<TypeModel>>,
    pub output: Option<TypeModel>,
}

/// The abstract value of an impl block.
pub struct ImplModel {
    pub trait_name: Option<Seq<char>>,
    pub self_ty: TypeModel,
}

/// The abstract value of a top-level item.
pub enum ItemModel {
    Struct(StructModel),
    Impl(ImplModel),
    Fn(FnModel),
    Other,
}

/// The view of an optional value.
pub open spec fn option_view<T: View>(o: Option<T>) -> Option<T::V> {
    match o {
        Some(x) => Some(x@),
        None => None,
    }
}

impl View for SegmentInfo {
    type V = SegmentModel;

    open spec fn view(&self) -> SegmentModel {
        SegmentModel { ident: self.ident@, args: self.args.deep_view() }
    }
}

impl View for TypeInfo {
    type V = TypeModel;

    open spec fn view(&self) -> TypeModel {
        TypeModel {
            tokens: self.tokens@,
            path: match self.path {
                Some(segs) => Some(views(segs@)),
                None => None,
            },
            trait_bounds: self.trait_bounds.deep_view(),
        }
    }
}

impl View for AttrInfo {
    type V = AttrModel;

    open spec fn view(&self) -> AttrModel {
        AttrModel { ident: self.ident.deep_view(), str_arg: self.str_arg.deep_view() }
    }
}

impl View for FieldInfo {
    type V = FieldModel;

    open spec fn view(&self) -> FieldModel {
        FieldModel { name: self.name.deep_view(), ty: self.ty@ }
    }
}

impl View for StructInfo {
    type V = StructModel;

    open spec fn view(&self) -> StructModel {
        StructModel {
            attrs: views(self.attrs@),
            name: self.name@,
            named_fields: match self.named_fields {
                Some(fs) => Some(views(fs@)),
                None => None,
            },
        }
    }
}

impl View for FnInfo {
    type V = FnModel;

    open spec fn view(&self) -> FnModel {
        FnModel {
            attrs: views(self.attrs@),
            name: self.name@,
            is_async: self.is_async,
            inputs: self.inputs@.map_values(|o: Option<TypeInfo>| option_view(o)),
            output: option_view(self.output),
        }
    }
}

impl View for ImplInfo {
    type V = ImplModel;

    open spec fn view(&self) -> ImplModel {
        ImplModel { trait_name: self.trait_name.deep_view(), self_ty: self.self_ty@ }
    }
}

impl View for ItemInfo {
    type V = ItemModel;

    open spec fn view(&self) -> ItemModel {
        match self {
            ItemInfo::Struct(s) => ItemModel::Struct(s@),
            ItemInfo::Impl(i) => ItemModel::Impl(i@),
            ItemInfo::Fn(f) => ItemModel::Fn(f@),
            ItemInfo::Other => ItemModel::Other,
        }
    }
}

/// The items of a parse as a sequence, `None` where it failed.
pub open spec fn parsed_seq(r: Option<Vec<ItemInfo>>) -> Option<Seq<ItemInfo>> {
    match r {
        Some(v) => Some(v@),
        None => None,
    }
}

/// The views of the items of a parse, `None` where it failed.
pub open spec fn parse_view(p: Option<Seq<ItemInfo>>) -> Option<Seq<ItemModel>> {
    match p {
        Some(items) => Some(views(items)),
        None => None,
    }
}

/// What one scan collects.
#[derive(Clone, Debug)]
pub struct ScanResult {
    pub components: Vec<ComponentInfo>,
    pub beans: Vec<BeanInfo>,
    pub layers: Vec<LayerInfo>,
    pub raw_routes: Vec<RawRouteInfo>,
    pub trait_impls: Vec<TraitImpl>,
}

/// The abstract value of a scan result.
pub struct ScanModel {
    pub components: Seq<ComponentModel>,
    pub beans: Seq<BeanModel>,
    pub layers: Seq<(Seq<char>, Seq<char>)>,
    pub raw_routes: Seq<RawRouteModel>,
    pub trait_impls: Seq<(Seq<char>, Seq<char>)>,
}

impl View for ScanResult {
    type V = ScanModel;

    open spec fn view(&self) -> ScanModel {
        ScanModel {
            components: views(self.components@),
            beans: views(self.beans@),
            layers: views(self.layers@),
            raw_routes: views(self.raw_routes@),
            trait_impls: views(self.trait_impls@),
        }
    }
}

/// A source construct the scanner refuses.
#[derive(Clone, Debug)]
pub enum ScanError {
    /// A `#[bean]` function that returns nothing.
    BeanWithoutType { fn_name: String },
    /// A route attribute on a function that is not `async`.
    RouteNotAsync { method: String, fn_name: String },
    /// A route attribute whose argument is not a string literal path.
    RouteWithoutPath { method: String, fn_name: String },
}

/// The abstract value of a scan error.
pub enum ScanErrorModel {
    BeanWithoutType { fn_name: Seq<char> },
    RouteNotAsync { method: Seq<char>, fn_name: Seq<char> },
    RouteWithoutPath { method: Seq<char>, fn_name: Seq<char> },
}

impl View for ScanError {
    type V = ScanErrorModel;

    open spec fn view(&self) -> ScanErrorModel {
        match self {
            ScanError::BeanWithoutType { fn_name } => ScanErrorModel::BeanWithoutType {
                fn_name: fn_name@,
            },
            ScanError::RouteNotAsync { method, fn_name } => ScanErrorModel::RouteNotAsync {
                method: method@,
                fn_name: fn_name@,
            },
            ScanError::RouteWithoutPath { method, fn_name } => ScanErrorModel::RouteWithoutPath {
                method: method@,
                fn_name: fn_name@,
            },
        }
    }
}

/// `s` without its space characters.
pub open spec fn remove_spaces(s: Seq<char>) -> Seq<char>
    decreases s.len(),
{
    if s.len() == 0 {
        s
    } else {
        let r = remove_spaces(s.drop_last());
        if s.last() == ' ' {
            r
        } else {
            r.push(s.last())
        }
    }
}

/// The compact text of a type: its printed tokens without spaces.
pub open spec fn type_text(t: TypeInfo) -> Seq<char> {
    remove_spaces(t.tokens@)
}

/// The compact text of `T` when the type is `Arc<T>` (a path whose last
/// segment is `Arc` with a type as first argument).
pub open spec fn arc_inner(t: TypeInfo) -> Option<Seq<char>> {
    match t.path {
        Some(segs) => if segs@.len() > 0 && segs@.last().ident@ == "Arc"@ && segs@.last().args@.len() > 0 {
            match segs@.last().args@[0] {
                Some(a) => Some(remove_spaces(a@)),
                None => None,
            }
        } else {
            None
        },
        None => None,
    }
}

/// The compact text of a type with an outer `Arc` removed.
pub open spec fn unwrapped_type(t: TypeInfo) -> Seq<char> {
    match arc_inner(t) {
        Some(x) => x,
        None => type_text(t),
    }
}

/// The dependency type of a component field: for a bare trait object
/// (`dyn Trait + ..`) the trait of its first trait bound, so that the field is
/// wired to that trait's implementor; otherwise the type with an outer `Arc`
/// removed.
pub open spec fn field_type(t: TypeInfo) -> Seq<char> {
    match t.trait_bounds {
        Some(bs) => match first_trait(bs@) {
            Some(n) => n,
            None => unwrapped_type(t),
        },
        None => unwrapped_type(t),
    }
}

/// The dependency type of a component field (see `field_type`).
pub fn field_type_name(ty: &TypeInfo) -> (r: String)
    ensures
        r@ == field_type(*ty),
{
    match &ty.trait_bounds {
        Some(bs) => match first_trait_ident(bs) {
            Some(n) => n,
            None => unwrap_arc(ty),
        },
        None => unwrap_arc(ty),
    }
}

/// Removes the spaces from the printed tokens of a type.
pub fn type_to_string(tokens: &str) -> (r: String)
    ensures
        r@ == remove_spaces(tokens@),
{
    let n = tokens.unicode_len();
    let mut r = String::new();
    let mut i: usize = 0;
    while i < n
        invariant
            n == tokens@.len(),
            i <= n,
            r@ == remove_spaces(tokens@.take(i as int)),
        decreases n - i,
    {
        proof {
            assert(tokens@.take(i + 1).drop_last() =~= tokens@.take(i as int));
        }
        let c = tokens.get_char(i);
        if c != ' ' {
            crate::utils::push_char(&mut r, c);
        }
        i = i + 1;
    }
    assert(tokens@.take(n as int) =~= tokens@);
    r
}

/// The compact text of `T` when `ty` is `Arc<T>`.
pub fn try_unwrap_arc(ty: &TypeInfo) -> (r: Option<String>)
    ensures
        r matches Some(s) ==> arc_inner(*ty) == Some(s@),
        r is None ==> arc_inner(*ty) is None,
{
    match &ty.path {
        Some(segs) => {
            let n = segs.len();
            if n == 0 {
                return None;
            }
            let seg = &segs[n - 1];
            let arc = String::from_str("Arc");
            if seg.ident == arc && seg.args.len() > 0 {
                match &seg.args[0] {
                    Some(a) => Some(type_to_string(a.as_str())),
                    None => None,
                }
            } else {
                None
            }
        },
        None => None,
    }
}

/// The compact text of `ty`, with an outer `Arc` removed.
pub fn unwrap_arc(ty: &TypeInfo) -> (r: String)
    ensures
        r@ == unwrapped_type(*ty),
{
    match try_unwrap_arc(ty) {
        Some(s) => s,
        None => type_to_string(ty.tokens.as_str()),
    }
}

/// The attribute is the bare identifier `name`.
pub open spec fn attr_is(a: AttrInfo, name: Seq<char>) -> bool {
    match a.ident {
        Some(id) => id@ == name,
        None => false,
    }
}

/// Some attribute is the bare identifier `name`.
pub open spec fn has_attr(attrs: Seq<AttrInfo>, name: Seq<char>) -> bool {
    exists|i: int| 0 <= i < attrs.len() && attr_is(#[trigger] attrs[i], name)
}

/// Whether some attribute is the bare identifier `name`.
fn find_attr(attrs: &Vec<AttrInfo>, name: &str) -> (r: bool)
    ensures
        r == has_attr(attrs@, name@),
{
    let wanted = String::from_str(name);
    let mut i: usize = 0;
    while i < attrs.len()
        invariant
            wanted@ == name@,
            i <= attrs@.len(),
            forall|j: int| 0 <= j < i ==> !attr_is(#[trigger] attrs@[j], name@),
        decreases attrs@.len() - i,
    {
        match &attrs[i].ident {
            Some(id) => {
                if *id == wanted {
                    assert(attr_is(attrs@[i as int], name@));
                    return true;
                }
            },
            None => {},
        }
        i = i + 1;
    }
    false
}

/// The `(field, dependency type)` pairs of named fields.
pub open spec fn field_deps(fields: Seq<FieldInfo>) -> Seq<(Seq<char>, Seq<char>)>
    decreases fields.len(),
{
    if fields.len() == 0 {
        Seq::empty()
    } else {
        let r = field_deps(fields.drop_last());
        match fields.last().name {
            Some(n) => r.push((n@, field_type(fields.last().ty))),
            None => r,
        }
    }
}

/// The component a struct declares, if it carries `#[service]`: its name and
/// the dependencies of its named fields, a field typed by a bare `dyn Trait`
/// recorded under that trait (the last segment of its first trait bound), so
/// that resolution wires it to the trait's implementor.
pub open spec fn service_of(s: StructInfo) -> Option<ComponentModel> {
    if has_attr(s.attrs@, "service"@) {
        Some(
            ComponentModel {
                name: s.name@,
                deps: match s.named_fields {
                    Some(fs) => field_deps(fs@),
                    None => Seq::empty(),
                },
            },
        )
    } else {
        None
    }
}

/// The component a `#[service]` struct declares: its name and, for each named
/// field, the field name and its dependency type (`field_type`: the trait of a
/// bare `dyn Trait`, otherwise the type with an outer `Arc` removed).
pub fn collect_service(s: &StructInfo) -> (r: Option<ComponentInfo>)
    ensures
        r matches Some(c) ==> service_of(*s) == Some(c@),
        r is None ==> service_of(*s) is None,
{
    if !find_attr(&s.attrs, "service") {
        return None;
    }
    let mut deps: Vec<(String, String)> = Vec::new();
    match &s.named_fields {
        Some(fields) => {
            let mut i: usize = 0;
            while i < fields.len()
                invariant
                    i <= fields@.len(),
                    crate::models::str_pairs(deps@) == field_deps(fields@.take(i as int)),
                decreases fields@.len() - i,
            {
                proof {
                    assert(fields@.take(i + 1).drop_last() =~= fields@.take(i as int));
                }
                let ghost d0 = crate::models::str_pairs(deps@);
                match &fields[i].name {
                    Some(n) => {
                        deps.push((n.clone(), field_type_name(&fields[i].ty)));
                        assert(crate::models::str_pairs(deps@) =~= d0.push(
                            (n@, field_type(fields@[i as int].ty)),
                        ));
                    },
                    None => {},
                }
                i = i + 1;
            }
            assert(fields@.take(fields@.len() as int) =~= fields@);
        },
        None => {
            assert(crate::models::str_pairs(deps@) =~= Seq::<(Seq<char>, Seq<char>)>::empty());
        },
    }
    Some(ComponentInfo { name: s.name.clone(), deps })
}

/// The trait implementation an impl block records, if it implements a trait.
pub open spec fn impl_of(i: ImplInfo) -> Option<(Seq<char>, Seq<char>)> {
    match i.trait_name {
        Some(t) => Some((t@, type_text(i.self_ty))),
        None => None,
    }
}

/// Records `impl Trait for Concrete` blocks; inherent impls give nothing.
pub fn collect_impl(i: &ImplInfo) -> (r: Option<TraitImpl>)
    ensures
        r matches Some(t) ==> impl_of(*i) == Some(t@),
        r is None ==> impl_of(*i) is None,
{
    match &i.trait_name {
        Some(t) => Some(
            TraitImpl { trait_name: t.clone(), concrete: type_to_string(i.self_ty.tokens.as_str()) },
        ),
        None => None,
    }
}

/// The types `T` of the `Arc<T>` inputs, in order.
pub open spec fn arc_params(inputs: Seq<Option<TypeInfo>>) -> Seq<Seq<char>>
    decreases inputs.len(),
{
    if inputs.len() == 0 {
        Seq::empty()
    } else {
        let r = arc_params(inputs.drop_last());
        match inputs.last() {
            Some(t) => match arc_inner(t) {
                Some(x) => r.push(x),
                None => r,
            },
            None => r,
        }
    }
}

/// The types `T` of the `Arc<T>` inputs, in order.
fn collect_arc_params(inputs: &Vec<Option<TypeInfo>>) -> (r: Vec<String>)
    ensures
        strs(r@) == arc_params(inputs@),
{
    let mut r: Vec<String> = Vec::new();
    let mut i: usize = 0;
    assert(strs(r@) =~= Seq::<Seq<char>>::empty());
    while i < inputs.len()
        invariant
            i <= inputs@.len(),
            strs(r@) == arc_params(inputs@.take(i as int)),
        decreases inputs@.len() - i,
    {
        proof {
            assert(inputs@.take(i + 1).drop_last() =~= inputs@.take(i as int));
        }
        let ghost r0 = strs(r@);
        match &inputs[i] {
            Some(t) => {
                match try_unwrap_arc(t) {
                    Some(x) => {
                        r.push(x);
                        assert(strs(r@) =~= r0.push(arc_inner(*t)->0));
                    },
                    None => {},
                }
            },
            None => {},
        }
        i = i + 1;
    }
    assert(inputs@.take(inputs@.len() as int) =~= inputs@);
    r
}

/// What `collect_bean` gives for a function: nothing unless it carries
/// `#[bean]`; an error when it returns nothing; otherwise the bean, named by
/// its return type with an outer `Arc` removed.
pub open spec fn bean_of(f: FnInfo, mod_path: Seq<char>) -> Result<Option<BeanModel>, ScanErrorModel> {
    if !has_attr(f.attrs@, "bean"@) {
        Ok(None)
    } else {
        match f.output {
            None => Err(ScanErrorModel::BeanWithoutType { fn_name: f.name@ }),
            Some(t) => Ok(
                Some(
                    BeanModel {
                        name: unwrapped_type(t),
                        fn_name: f.name@,
                        is_async: f.is_async,
                        returns_arc: arc_inner(t) is Some,
                        deps: arc_params(f.inputs@),
                        mod_path,
                    },
                ),
            ),
        }
    }
}

/// The bean a `#[bean]` function declares: named by its return type `T` or
/// `Arc<T>`, with the `Arc<T>` parameters as dependencies.
pub fn collect_bean(f: &FnInfo, mod_path: &str) -> (r: Result<Option<BeanInfo>, ScanError>)
    ensures
        r matches Ok(Some(b)) ==> bean_of(*f, mod_path@) == Ok::<Option<BeanModel>, ScanErrorModel>(Some(b@)),
        r matches Ok(None) ==> bean_of(*f, mod_path@) == Ok::<Option<BeanModel>, ScanErrorModel>(None),
        r matches Err(e) ==> bean_of(*f, mod_path@) == Err::<Option<BeanModel>, ScanErrorModel>(e@),
{
    if !find_attr(&f.attrs, "bean") {
        return Ok(None);
    }
    match &f.output {
        None => Err(ScanError::BeanWithoutType { fn_name: f.name.clone() }),
        Some(t) => {
            let inner = try_unwrap_arc(t);
            let returns_arc = inner.is_some();
            let name = match inner {
                Some(x) => x,
                None => type_to_string(t.tokens.as_str()),
            };
            Ok(
                Some(
                    BeanInfo {
                        name,
                        fn_name: f.name.clone(),
                        is_async: f.is_async,
                        returns_arc,
                        deps: collect_arc_params(&f.inputs),
                        mod_path: String::from_str(mod_path),
                    },
                ),
            )
        },
    }
}

/// The layer a `#[layer]` function declares.
pub open spec fn layer_of(f: FnInfo, mod_path: Seq<char>) -> Option<(Seq<char>, Seq<char>)> {
    if has_attr(f.attrs@, "layer"@) {
        Some((f.name@, mod_path))
    } else {
        None
    }
}

/// The layer a `#[layer]` function declares.
pub fn collect_layer(f: &FnInfo, mod_path: &str) -> (r: Option<LayerInfo>)
    ensures
        r matches Some(l) ==> layer_of(*f, mod_path@) == Some(l@),
        r is None ==> layer_of(*f, mod_path@) is None,
{
    if !find_attr(&f.attrs, "layer") {
        return None;
    }
    Some(LayerInfo { fn_name: f.name.clone(), mod_path: String::from_str(mod_path) })
}

/// The HTTP methods a route attribute may name.
pub open spec fn is_http_method(m: Seq<char>) -> bool {
    m == "get"@ || m == "post"@ || m == "put"@ || m == "delete"@ || m == "patch"@
}

/// Whether `m` names an HTTP method a route attribute may use.
pub fn http_method(m: &String) -> (r: bool)
    ensures
        r == is_http_method(m@),
{
    *m == String::from_str("get") || *m == String::from_str("post") || *m == String::from_str(
        "put",
    ) || *m == String::from_str("delete") || *m == String::from_str("patch")
}

/// The routes the attributes of `f` declare, attribute by attribute: each
/// attribute naming an HTTP method declares a route, provided `f` is async and
/// the attribute's argument is a string literal path.
pub open spec fn routes_of(attrs: Seq<AttrInfo>, f: FnInfo, mod_path: Seq<char>) -> Result<
    Seq<RawRouteModel>,
    ScanErrorModel,
>
    decreases attrs.len(),
{
    if attrs.len() == 0 {
        Ok(Seq::empty())
    } else {
        match routes_of(attrs.drop_last(), f, mod_path) {
            Err(e) => Err(e),
            Ok(rs) => match attrs.last().ident {
                Some(m) => if is_http_method(m@) {
                    if !f.is_async {
                        Err(ScanErrorModel::RouteNotAsync { method: m@, fn_name: f.name@ })
                    } else {
                        match attrs.last().str_arg {
                            None => Err(
                                ScanErrorModel::RouteWithoutPath { method: m@, fn_name: f.name@ },
                            ),
                            Some(p) => Ok(
                                rs.push(
                                    RawRouteModel {
                                        fn_name: f.name@,
                                        method: m@,
                                        path: p@,
                                        mod_path,
                                        arc_params: arc_params(f.inputs@),
                                    },
                                ),
                            ),
                        }
                    }
                } else {
                    Ok(rs)
                },
                None => Ok(rs),
            },
        }
    }
}

proof fn lemma_routes_error_stays(attrs: Seq<AttrInfo>, f: FnInfo, mod_path: Seq<char>, i: int, k: int)
    requires
        0 <= i <= k <= attrs.len(),
        routes_of(attrs.take(i), f, mod_path) is Err,
    ensures
        routes_of(attrs.take(k), f, mod_path) == routes_of(attrs.take(i), f, mod_path),
    decreases k - i,
{
    if k > i {
        lemma_routes_error_stays(attrs, f, mod_path, i, k - 1);
        assert(attrs.take(k).drop_last() =~= attrs.take(k - 1));
    }
}

/// The routes a handler function declares (see `routes_of`).
pub fn collect_routes(f: &FnInfo, mod_path: &str) -> (r: Result<Vec<RawRouteInfo>, ScanError>)
    ensures
        r matches Ok(rs) ==> routes_of(f.attrs@, *f, mod_path@) == Ok::<Seq<RawRouteModel>, ScanErrorModel>(views(rs@)),
        r matches Err(e) ==> routes_of(f.attrs@, *f, mod_path@) == Err::<Seq<RawRouteModel>, ScanErrorModel>(e@),
{
    let mut routes: Vec<RawRouteInfo> = Vec::new();
    let mut i: usize = 0;
    assert(views(routes@) =~= Seq::<RawRouteModel>::empty());
    while i < f.attrs.len()
        invariant
            i <= f.attrs@.len(),
            routes_of(f.attrs@.take(i as int), *f, mod_path@) == Ok::<Seq<RawRouteModel>, ScanErrorModel>(views(routes@)),
        decreases f.attrs@.len() - i,
    {
        proof {
            assert(f.attrs@.take(i + 1).drop_last() =~= f.attrs@.take(i as int));
            assert(f.attrs@.take(i + 1).last() == f.attrs@[i as int]);
        }
        let attr = &f.attrs[i];
        match &attr.ident {
            Some(m) => {
                if http_method(m) {
                    if !f.is_async {
                        let e = ScanError::RouteNotAsync { method: m.clone(), fn_name: f.name.clone() };
                        proof {
                            assert(routes_of(f.attrs@.take(i + 1), *f, mod_path@) == Err::<Seq<RawRouteModel>, ScanErrorModel>(e@));
                            lemma_routes_error_stays(f.attrs@, *f, mod_path@, i + 1, f.attrs@.len() as int);
                            assert(f.attrs@.take(f.attrs@.len() as int) =~= f.attrs@);
                        }
                        return Err(e);
                    }
                    match &attr.str_arg {
                        None => {
                            let e = ScanError::RouteWithoutPath { method: m.clone(), fn_name: f.name.clone() };
                            proof {
                                assert(routes_of(f.attrs@.take(i + 1), *f, mod_path@) == Err::<Seq<RawRouteModel>, ScanErrorModel>(e@));
                                lemma_routes_error_stays(f.attrs@, *f, mod_path@, i + 1, f.attrs@.len() as int);
                                assert(f.attrs@.take(f.attrs@.len() as int) =~= f.attrs@);
                            }
                            return Err(e);
                        },
                        Some(p) => {
                            let ghost r0 = views(routes@);
                            routes.push(
                                RawRouteInfo {
                                    fn_name: f.name.clone(),
                                    method: m.clone(),
                                    path: p.clone(),
                                    mod_path: String::from_str(mod_path),
                                    arc_params: collect_arc_params(&f.inputs),
                                },
                            );
                            assert(views(routes@) =~= r0.push(routes@.last()@));
                        },
                    }
                }
            },
            None => {},
        }
        i = i + 1;
    }
    assert(f.attrs@.take(f.attrs@.len() as int) =~= f.attrs@);
    Ok(routes)
}


/// What one item adds to a scan: a `#[service]` struct its component, a trait
/// impl its implementation, and a function, tried in turn as a bean, a layer
/// and route handlers.
pub open spec fn item_step(acc: ScanModel, item: ItemInfo, mod_path: Seq<char>) -> Result<
    ScanModel,
    ScanErrorModel,
> {
    match item {
        ItemInfo::Struct(s) => Ok(
            match service_of(s) {
                Some(c) => ScanModel { components: acc.components.push(c), ..acc },
                None => acc,
            },
        ),
        ItemInfo::Impl(i) => Ok(
            match impl_of(i) {
                Some(t) => ScanModel { trait_impls: acc.trait_impls.push(t), ..acc },
                None => acc,
            },
        ),
        ItemInfo::Fn(f) => match bean_of(f, mod_path) {
            Err(e) => Err(e),
            Ok(Some(b)) => Ok(ScanModel { beans: acc.beans.push(b), ..acc }),
            Ok(None) => match layer_of(f, mod_path) {
                Some(l) => Ok(ScanModel { layers: acc.layers.push(l), ..acc }),
                None => match routes_of(f.attrs@, f, mod_path) {
                    Err(e) => Err(e),
                    Ok(rs) => Ok(ScanModel { raw_routes: acc.raw_routes + rs, ..acc }),
                },
            },
        },
        ItemInfo::Other => Ok(acc),
    }
}

/// The scan of the items of one file, item by item, stopping at the first
/// refused construct.
pub open spec fn scan_items_spec(acc: ScanModel, items: Seq<ItemInfo>, mod_path: Seq<char>) -> Result<
    ScanModel,
    ScanErrorModel,
>
    decreases items.len(),
{
    if items.len() == 0 {
        Ok(acc)
    } else {
        match scan_items_spec(acc, items.drop_last(), mod_path) {
            Err(e) => Err(e),
            Ok(m) => item_step(m, items.last(), mod_path),
        }
    }
}

proof fn lemma_scan_error_stays(acc: ScanModel, items: Seq<ItemInfo>, mod_path: Seq<char>, i: int, k: int)
    requires
        0 <= i <= k <= items.len(),
        scan_items_spec(acc, items.take(i), mod_path) is Err,
    ensures
        scan_items_spec(acc, items.take(k), mod_path) == scan_items_spec(acc, items.take(i), mod_path),
    decreases k - i,
{
    if k > i {
        lemma_scan_error_stays(acc, items, mod_path, i, k - 1);
        assert(items.take(k).drop_last() =~= items.take(k - 1));
    }
}

impl ScanResult {
    /// A scan result with nothing collected.
    pub fn new() -> (r: ScanResult)
        ensures
            r@.components.len() == 0,
            r@.beans.len() == 0,
            r@.layers.len() == 0,
            r@.raw_routes.len() == 0,
            r@.trait_impls.len() == 0,
    {
        ScanResult {
            components: Vec::new(),
            beans: Vec::new(),
            layers: Vec::new(),
            raw_routes: Vec::new(),
            trait_impls: Vec::new(),
        }
    }
}

/// Collects the components, beans, layers, routes and trait implementations
/// that the items of one source file declare, in order, into `out`; the items
/// belong to the module `mod_path`. Stops at the first refused construct.
pub fn scan_items(items: &Vec<ItemInfo>, mod_path: &str, out: &mut ScanResult) -> (r: Result<(), ScanError>)
    ensures
        r is Ok ==> scan_items_spec(old(out)@, items@, mod_path@) == Ok::<ScanModel, ScanErrorModel>(final(out)@),
        r matches Err(e) ==> scan_items_spec(old(out)@, items@, mod_path@) == Err::<ScanModel, ScanErrorModel>(e@),
{
    let ghost acc = out@;
    let mut i: usize = 0;
    while i < items.len()
        invariant
            acc == old(out)@,
            i <= items@.len(),
            scan_items_spec(acc, items@.take(i as int), mod_path@) == Ok::<ScanModel, ScanErrorModel>(out@),
        decreases items@.len() - i,
    {
        proof {
            assert(items@.take(i + 1).drop_last() =~= items@.take(i as int));
            assert(items@.take(i + 1).last() == items@[i as int]);
        }
        let ghost m0 = out@;
        match &items[i] {
            ItemInfo::Struct(s) => {
                match collect_service(s) {
                    Some(c) => {
                        out.components.push(c);
                        assert(out@.components =~= m0.components.push(out.components@.last()@));
                    },
                    None => {},
                }
            },
            ItemInfo::Impl(im) => {
                match collect_impl(im) {
                    Some(t) => {
                        out.trait_impls.push(t);
                        assert(out@.trait_impls =~= m0.trait_impls.push(out.trait_impls@.last()@));
                    },
                    None => {},
                }
            },
            ItemInfo::Fn(f) => {
                match collect_bean(f, mod_path) {
                    Err(e) => {
                        proof {
                            assert(scan_items_spec(acc, items@.take(i + 1), mod_path@) == Err::<ScanModel, ScanErrorModel>(e@));
                            lemma_scan_error_stays(acc, items@, mod_path@, i + 1, items@.len() as int);
                            assert(items@.take(items@.len() as int) =~= items@);
                        }
                        return Err(e);
                    },
                    Ok(Some(b)) => {
                        out.beans.push(b);
                        assert(out@.beans =~= m0.beans.push(out.beans@.last()@));
                    },
                    Ok(None) => {
                        match collect_layer(f, mod_path) {
                            Some(l) => {
                                out.layers.push(l);
                                assert(out@.layers =~= m0.layers.push(out.layers@.last()@));
                            },
                            None => {
                                match collect_routes(f, mod_path) {
                                    Err(e) => {
                                        proof {
                                            assert(scan_items_spec(acc, items@.take(i + 1), mod_path@) == Err::<ScanModel, ScanErrorModel>(e@));
                                            lemma_scan_error_stays(acc, items@, mod_path@, i + 1, items@.len() as int);
                                            assert(items@.take(items@.len() as int) =~= items@);
                                        }
                                        return Err(e);
                                    },
                                    Ok(rs) => {
                                        let ghost rv = views(rs@);
                                        let mut rs = rs;
                                        out.raw_routes.append(&mut rs);
                                        assert(out@.raw_routes =~= m0.raw_routes + rv);
                                    },
                                }
                            },
                        }
                    },
                }
            },
            ItemInfo::Other => {},
        }
        i = i + 1;
    }
    assert(items@.take(items@.len() as int) =~= items@);
    Ok(())
}


/// The module path of the source file `file_path` inside `src_dir`.
pub open spec fn file_module_path(file_path: Seq<char>, src_dir: Seq<char>) -> Seq<char> {
    module_path_spec(path_components(file_path), path_components(src_dir))
}

/// `r` and `after` are what scanning `items` into `acc` under `mod_path`
/// gives: `Ok(true)` and the collected declarations, or the refused
/// construct.
pub open spec fn scanned(
    acc: ScanModel,
    items: Seq<ItemInfo>,
    mod_path: Seq<char>,
    r: Result<bool, ScanError>,
    after: ScanModel,
) -> bool {
    match scan_items_spec(acc, items, mod_path) {
        Ok(m) => r == Ok::<bool, ScanError>(true) && after == m,
        Err(e) => r matches Err(x) && x@ == e,
    }
}

/// Scans one source file whose items were parsed into `parsed`, `None` where
/// the text did not parse: such a file is skipped and `Ok(false)` answered.
/// Otherwise its items are scanned into `out` under the module path of
/// `file_path` inside `src_dir`, and `Ok(true)` answered, or the first
/// refused construct.
pub fn scan_parsed(parsed: Option<Vec<ItemInfo>>, file_path: &str, src_dir: &str, out: &mut ScanResult) -> (r: Result<
    bool,
    ScanError,
>)
    ensures
        parsed is None ==> r == Ok::<bool, ScanError>(false) && final(out)@ == old(out)@,
        parsed matches Some(items) ==> scanned(
            old(out)@,
            items@,
            file_module_path(file_path@, src_dir@),
            r,
            final(out)@,
        ),
{
    match parsed {
        None => Ok(false),
        Some(items) => {
            let mod_path = derive_module_path(file_path, src_dir);
            match scan_items(&items, mod_path.as_str(), out) {
                Ok(()) => Ok(true),
                Err(e) => Err(e),
            }
        },
    }
}

/// Parses the text `source` of the file `file_path` with syn and scans its
/// items into `out`, as `scan_parsed` does with what the parse gave: a text
/// that syn refuses is skipped (`Ok(false)`, `out` unchanged); otherwise the
/// items that syn read from `source` are scanned.
pub fn scan_file(file_path: &str, src_dir: &str, source: &str, out: &mut ScanResult) -> (r: Result<bool, ScanError>)
    ensures
        r == Ok::<bool, ScanError>(false) ==> final(out)@ == old(out)@,
        exists|p: Option<Seq<ItemInfo>>|
            #[trigger] syn_parses(source@, parse_view(p)) && match p {
                None => r == Ok::<bool, ScanError>(false) && final(out)@ == old(out)@,
                Some(items) => scanned(old(out)@, items, file_module_path(file_path@, src_dir@), r, final(out)@),
            },
{
    let parsed = parse_items(source);
    let ghost p = parsed_seq(parsed);
    let r = scan_parsed(parsed, file_path, src_dir, out);
    proof {
        assert(syn_parses(source@, parse_view(p)));
    }
    r
}


/// Law: on an async function whose attributes all carry a string argument,
/// the scan of its attributes succeeds; every attribute named `get`, `post`,
/// `put`, `delete` or `patch` gives a route of that method and path, for this
/// function in this module; and every route has one of those five methods.
pub proof fn law_route_attributes_become_routes(attrs: Seq<AttrInfo>, f: FnInfo, mod_path: Seq<char>)
    requires
        f.is_async,
        forall|i: int| 0 <= i < attrs.len() ==> (#[trigger] attrs[i]).str_arg is Some,
    ensures
        routes_of(attrs, f, mod_path) is Ok,
        forall|i: int|
            0 <= i < attrs.len() && (#[trigger] attrs[i]).ident is Some && (attrs[i].ident->0@ == "get"@
                || attrs[i].ident->0@ == "post"@ || attrs[i].ident->0@ == "put"@ || attrs[i].ident->0@
                == "delete"@ || attrs[i].ident->0@ == "patch"@) ==> exists|j: int|
                0 <= j < routes_of(attrs, f, mod_path)->Ok_0.len() && #[trigger] routes_of(
                    attrs,
                    f,
                    mod_path,
                )->Ok_0[j] == (RawRouteModel {
                    fn_name: f.name@,
                    method: attrs[i].ident->0@,
                    path: attrs[i].str_arg->0@,
                    mod_path: mod_path,
                    arc_params: arc_params(f.inputs@),
                }),
        forall|j: int|
            0 <= j < routes_of(attrs, f, mod_path)->Ok_0.len() ==> {
                let m = (#[trigger] routes_of(attrs, f, mod_path)->Ok_0[j]).method;
                m == "patch"@ || m == "delete"@ || m == "put"@ || m == "post"@ || m == "get"@
            },
    decreases attrs.len(),
{
    if attrs.len() > 0 {
        let p = attrs.drop_last();
        assert forall|i: int| 0 <= i < p.len() implies (#[trigger] p[i]).str_arg is Some by {
            assert(p[i] == attrs[i]);
        }
        law_route_attributes_become_routes(p, f, mod_path);
        let rs = routes_of(p, f, mod_path)->Ok_0;
        let all = routes_of(attrs, f, mod_path)->Ok_0;
        let a = attrs.last();
        assert(attrs[attrs.len() - 1] == a);
        assert(a.str_arg is Some);
        assert(rs.len() <= all.len());
        assert forall|j: int| 0 <= j < rs.len() implies #[trigger] all[j] == rs[j] by {}
        assert forall|i: int|
            0 <= i < attrs.len() && (#[trigger] attrs[i]).ident is Some && (attrs[i].ident->0@ == "get"@
                || attrs[i].ident->0@ == "post"@ || attrs[i].ident->0@ == "put"@ || attrs[i].ident->0@
                == "delete"@ || attrs[i].ident->0@ == "patch"@) implies exists|j: int|
                0 <= j < all.len() && #[trigger] all[j] == (RawRouteModel {
                    fn_name: f.name@,
                    method: attrs[i].ident->0@,
                    path: attrs[i].str_arg->0@,
                    mod_path: mod_path,
                    arc_params: arc_params(f.inputs@),
                }) by {
            if i < p.len() {
                assert(attrs[i] == p[i]);
                let j = choose|j: int| 0 <= j < rs.len() && #[trigger] rs[j] == (RawRouteModel {
                    fn_name: f.name@,
                    method: p[i].ident->0@,
                    path: p[i].str_arg->0@,
                    mod_path: mod_path,
                    arc_params: arc_params(f.inputs@),
                });
                assert(all[j] == rs[j]);
            } else {
                assert(is_http_method(a.ident->0@));
                assert(all[rs.len() as int] == (RawRouteModel {
                    fn_name: f.name@,
                    method: attrs[i].ident->0@,
                    path: attrs[i].str_arg->0@,
                    mod_path: mod_path,
                    arc_params: arc_params(f.inputs@),
                }));
            }
        }
        assert forall|j: int| 0 <= j < all.len() implies {
            let m = (#[trigger] all[j]).method;
            m == "patch"@ || m == "delete"@ || m == "put"@ || m == "post"@ || m == "get"@
        } by {
            if j < rs.len() {
                assert(all[j] == rs[j]);
            }
        }
    }
}


/// Law: scanning an async function that is neither a bean nor a layer, whose
/// attributes all carry a string argument, keeps everything collected so far
/// and adds, for each attribute named `get`, `post`, `put`, `delete` or
/// `patch`, a route of that method and path for this function and module.
pub proof fn law_route_function_scanned(acc: ScanModel, f: FnInfo, mod_path: Seq<char>)
    requires
        f.is_async,
        !has_attr(f.attrs@, "bean"@),
        !has_attr(f.attrs@, "layer"@),
        forall|i: int| 0 <= i < f.attrs@.len() ==> (#[trigger] f.attrs@[i]).str_arg is Some,
    ensures
        scan_items_spec(acc, seq![ItemInfo::Fn(f)], mod_path) is Ok,
        ({
            let m = scan_items_spec(acc, seq![ItemInfo::Fn(f)], mod_path)->Ok_0;
            &&& m.components == acc.components
            &&& m.beans == acc.beans
            &&& m.layers == acc.layers
            &&& m.trait_impls == acc.trait_impls
            &&& m.raw_routes.len() >= acc.raw_routes.len()
            &&& m.raw_routes.subrange(0, acc.raw_routes.len() as int) == acc.raw_routes
            &&& forall|i: int|
                0 <= i < f.attrs@.len() && (#[trigger] f.attrs@[i]).ident is Some && (f.attrs@[i].ident->0@
                    == "patch"@ || f.attrs@[i].ident->0@ == "delete"@ || f.attrs@[i].ident->0@ == "put"@
                    || f.attrs@[i].ident->0@ == "post"@ || f.attrs@[i].ident->0@ == "get"@) ==> exists|j: int|
                    acc.raw_routes.len() <= j < m.raw_routes.len() && #[trigger] m.raw_routes[j] == (RawRouteModel {
                        fn_name: f.name@,
                        method: f.attrs@[i].ident->0@,
                        path: f.attrs@[i].str_arg->0@,
                        mod_path: mod_path,
                        arc_params: arc_params(f.inputs@),
                    })
        }),
{
    law_route_attributes_become_routes(f.attrs@, f, mod_path);
    let items = seq![ItemInfo::Fn(f)];
    assert(items.drop_last() =~= Seq::<ItemInfo>::empty());
    assert(items.last() == ItemInfo::Fn(f));
    let rs = routes_of(f.attrs@, f, mod_path)->Ok_0;
    assert(scan_items_spec(acc, items.drop_last(), mod_path) == Ok::<ScanModel, ScanErrorModel>(acc));
    assert(bean_of(f, mod_path) == Ok::<Option<BeanModel>, ScanErrorModel>(None));
    assert(layer_of(f, mod_path) is None);
    assert(item_step(acc, ItemInfo::Fn(f), mod_path) == Ok::<ScanModel, ScanErrorModel>(
        ScanModel { raw_routes: acc.raw_routes + rs, ..acc },
    ));
    let m = scan_items_spec(acc, items, mod_path)->Ok_0;
    assert(m.raw_routes == acc.raw_routes + rs);
    assert(m.raw_routes.subrange(0, acc.raw_routes.len() as int) =~= acc.raw_routes);
    assert forall|i: int|
        0 <= i < f.attrs@.len() && (#[trigger] f.attrs@[i]).ident is Some && (f.attrs@[i].ident->0@
            == "patch"@ || f.attrs@[i].ident->0@ == "delete"@ || f.attrs@[i].ident->0@ == "put"@
            || f.attrs@[i].ident->0@ == "post"@ || f.attrs@[i].ident->0@ == "get"@) implies exists|j: int|
            acc.raw_routes.len() <= j < m.raw_routes.len() && #[trigger] m.raw_routes[j] == (RawRouteModel {
                fn_name: f.name@,
                method: f.attrs@[i].ident->0@,
                path: f.attrs@[i].str_arg->0@,
                mod_path: mod_path,
                arc_params: arc_params(f.inputs@),
            }) by {
        let j = choose|j: int| 0 <= j < rs.len() && #[trigger] rs[j] == (RawRouteModel {
            fn_name: f.name@,
            method: f.attrs@[i].ident->0@,
            path: f.attrs@[i].str_arg->0@,
            mod_path: mod_path,
            arc_params: arc_params(f.inputs@),
        });
        assert(m.raw_routes[acc.raw_routes.len() + j] == rs[j]);
    }
}

} // verus!
