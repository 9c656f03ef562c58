use vstd::prelude::*;

use quote::ToTokens;

use crate::scanner::{
    parse_view, parsed_seq, AttrInfo, FieldInfo, FnInfo, ImplInfo, ItemInfo, ItemModel, SegmentInfo, StructInfo, TypeInfo,
};

verus! {

#[verifier::external_type_specification]
#[verifier::external_body]
pub struct ExSynItem(syn::Item);

#[verifier::external_type_specification]
#[verifier::external_body]
pub struct ExSynItemStruct(syn::ItemStruct);

#[verifier::external_type_specification]
#[verifier::external_body]
pub struct ExSynItemFn(syn::ItemFn);

#[verifier::external_type_specification]
#[verifier::external_body]
pub struct ExSynField(syn::Field);

#[verifier::external_type_specification]
#[verifier::external_body]
pub struct ExSynFnArg(syn::FnArg);

#[verifier::external_type_specification]
#[verifier::external_body]
pub struct ExSynType(syn::Type);

#[verifier::external_type_specification]
#[verifier::external_body]
pub struct ExSynPathSegment(syn::PathSegment);

#[verifier::external_type_specification]
#[verifier::external_body]
pub struct ExSynGenericArgument(syn::GenericArgument);

#[verifier::external_type_specification]
#[verifier::external_body]
pub struct ExSynTypeParamBound(syn::TypeParamBound);

#[verifier::external_type_specification]
#[verifier::external_body]
pub struct ExSynAttribute(syn::Attribute);

/// Whether syn, run in this process on the source text `source`, gives the
/// items `items` (`None`: it refuses the text). This relates a text to the
/// outcomes its parse may have; it does not claim that one text has one
/// outcome, since proc-macro2 lexes with the compiler's lexer inside a
/// procedural macro and with its own elsewhere.
pub uninterp spec fn syn_parses(source: Seq<char>, items: Option<Seq<ItemModel>>) -> bool;

/// Calls `syn::parse_file` on the text of a source file and hands back its
/// top-level items in the library's plain form, or `None` where syn refuses
/// the text. The contract ties what came back to the text it was parsed from
/// (`syn_parses`) and says nothing more of it: which texts syn refuses is not
/// spelled out, and proc-macro2's documentation leaves open that some lexing
/// errors panic, without saying which texts those are.
#[verifier::external_body]
pub(crate) fn parse_items(source: &str) -> (r: Option<Vec<ItemInfo>>)
    ensures
        syn_parses(source@, parse_view(parsed_seq(r))),
{
    match syn::parse_file(source) {
        Ok(file) => Some(file.items.iter().map(item_info).collect()),
        Err(_) => None,
    }
}

/// Converts one `syn::Item`: structs, impls and functions into their plain
/// form, every other kind of item into `ItemInfo::Other`. Called only by
/// `parse_items`, whose contract states nothing of it.
#[verifier::external_body]
fn item_info(item: &syn::Item) -> (r: ItemInfo) {
    match item {
        syn::Item::Struct(s) => ItemInfo::Struct(struct_info(s)),
        syn::Item::Impl(i) => ItemInfo::Impl(ImplInfo {
            trait_name: i.trait_.as_ref().and_then(|(_, path, _)| path.segments.last().map(|s| s.ident.to_string())),
            self_ty: type_info(&i.self_ty),
        }),
        syn::Item::Fn(f) => ItemInfo::Fn(fn_info(f)),
        _ => ItemInfo::Other,
    }
}

/// Converts a `syn::ItemStruct`: its attributes, name and named fields.
/// Called only by `item_info`.
#[verifier::external_body]
fn struct_info(s: &syn::ItemStruct) -> (r: StructInfo) {
    StructInfo {
        attrs: s.attrs.iter().map(attr_info).collect(),
        name: s.ident.to_string(),
        named_fields: match &s.fields {
            syn::Fields::Named(named) => Some(named.named.iter().map(field_info).collect()),
            _ => None,
        },
    }
}

/// Converts a `syn::Field`: its name and type. Called only by `struct_info`.
#[verifier::external_body]
fn field_info(f: &syn::Field) -> (r: FieldInfo) {
    FieldInfo { name: f.ident.as_ref().map(|id| id.to_string()), ty: type_info(&f.ty) }
}

/// Converts a `syn::ItemFn`: its attributes, name, `async`, inputs and
/// output type. Called only by `item_info`.
#[verifier::external_body]
fn fn_info(f: &syn::ItemFn) -> (r: FnInfo) {
    FnInfo {
        attrs: f.attrs.iter().map(attr_info).collect(),
        name: f.sig.ident.to_string(),
        is_async: f.sig.asyncness.is_some(),
        inputs: f.sig.inputs.iter().map(input_info).collect(),
        output: match &f.sig.output {
            syn::ReturnType::Type(_, ty) => Some(type_info(ty)),
            syn::ReturnType::Default => None,
        },
    }
}

/// Converts a `syn::FnArg`: the type of a typed input, `None` for a `self`
/// receiver. Called only by `fn_info`.
#[verifier::external_body]
fn input_info(arg: &syn::FnArg) -> (r: Option<TypeInfo>) {
    match arg {
        syn::FnArg::Typed(pt) => Some(type_info(&pt.ty)),
        syn::FnArg::Receiver(_) => None,
    }
}

/// Converts a `syn::Type`: its tokens as `quote` prints them, the segments of
/// a path type, and the bounds of a bare trait object. Called only
/// by the other conversions.
#[verifier::external_body]
fn type_info(ty: &syn::Type) -> (r: TypeInfo) {
    TypeInfo {
        tokens: ty.to_token_stream().to_string(),
        path: match ty {
            syn::Type::Path(tp) => Some(tp.path.segments.iter().map(segment_info).collect()),
            _ => None,
        },
        trait_bounds: match ty {
            syn::Type::TraitObject(to) => Some(to.bounds.iter().map(bound_name).collect()),
            _ => None,
        },
    }
}

/// Converts a `syn::PathSegment`: its identifier and its angle-bracketed
/// arguments, a type argument as its printed tokens and any other as `None`.
/// Called only by `type_info`.
#[verifier::external_body]
fn segment_info(seg: &syn::PathSegment) -> (r: SegmentInfo) {
    SegmentInfo {
        ident: seg.ident.to_string(),
        args: match &seg.arguments {
            syn::PathArguments::AngleBracketed(args) => args.args.iter().map(generic_arg_info).collect(),
            _ => Vec::new(),
        },
    }
}

/// Converts a `syn::GenericArgument`: a type as its printed tokens, `None`
/// for another argument. Called only by `segment_info`.
#[verifier::external_body]
fn generic_arg_info(arg: &syn::GenericArgument) -> (r: Option<String>) {
    match arg {
        syn::GenericArgument::Type(inner) => Some(inner.to_token_stream().to_string()),
        _ => None,
    }
}

/// Converts a `syn::TypeParamBound`: the last path segment of a trait bound,
/// `None` for another bound. Called only by `type_info`.
#[verifier::external_body]
fn bound_name(b: &syn::TypeParamBound) -> (r: Option<String>) {
    match b {
        syn::TypeParamBound::Trait(tb) => tb.path.segments.last().map(|s| s.ident.to_string()),
        _ => None,
    }
}

/// Converts a `syn::Attribute`: its path when that is one identifier, and its
/// argument when that parses as one string literal. Called only by the
/// struct and function conversions.
#[verifier::external_body]
fn attr_info(a: &syn::Attribute) -> (r: AttrInfo) {
    AttrInfo {
        ident: a.path().get_ident().map(|id| id.to_string()),
        str_arg: a.parse_args::<syn::LitStr>().ok().map(|lit| lit.value()),
    }
}

} // verus!
