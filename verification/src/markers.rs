use vstd::prelude::*;

verus! {

/// The first trait named among the bounds of a trait object (each bound is
/// the last path segment of a trait bound, or `None` for another bound).
pub open spec fn first_trait(bounds: Seq<Option<String>>) -> Option<Seq<char>>
    decreases bounds.len(),
{
    if bounds.len() == 0 {
        None
    } else {
        match bounds[0] {
            Some(t) => Some(t@),
            None => first_trait(bounds.drop_first()),
        }
    }
}

/// The last path segment of the first trait bound of a trait object:
/// `dyn UserRepository + Send` gives `UserRepository`.
pub fn first_trait_ident(bounds: &Vec<Option<String>>) -> (r: Option<String>)
    ensures
        r matches Some(t) ==> first_trait(bounds@) == Some(t@),
        r is None ==> first_trait(bounds@) is None,
{
    let mut i: usize = 0;
    assert(bounds@.skip(0) =~= bounds@);
    while i < bounds.len()
        invariant
            i <= bounds@.len(),
            first_trait(bounds@) == first_trait(bounds@.skip(i as int)),
        decreases bounds@.len() - i,
    {
        proof {
            assert(bounds@.skip(i as int)[0] == bounds@[i as int]);
            assert(bounds@.skip(i as int).drop_first() =~= bounds@.skip(i + 1));
        }
        match &bounds[i] {
            Some(t) => {
                return Some(t.clone());
            },
            None => {},
        }
        i = i + 1;
    }
    assert(bounds@.skip(i as int).len() == 0);
    None
}

/// What `#[service]` does to a field: a field typed by a bare trait object
/// (`Some(bounds)`) with a trait bound is rewritten to
/// `Arc<dyn Trait + Send + Sync>` with that trait; other fields are kept.
pub open spec fn field_rewrite(field: Option<Vec<Option<String>>>) -> Option<Seq<char>> {
    match field {
        Some(bounds) => first_trait(bounds@),
        None => None,
    }
}

/// For each named field of a `#[service]` struct, the trait to inject it as,
/// when it is written as a bare trait object (see `field_rewrite`).
pub fn service_field_rewrites(fields: &Vec<Option<Vec<Option<String>>>>) -> (r: Vec<Option<String>>)
    ensures
        r@.len() == fields@.len(),
        forall|i: int|
            0 <= i < fields@.len() ==> match #[trigger] r@[i] {
                Some(t) => field_rewrite(fields@[i]) == Some(t@),
                None => field_rewrite(fields@[i]) is None,
            },
{
    let mut r: Vec<Option<String>> = Vec::new();
    let mut i: usize = 0;
    while i < fields.len()
        invariant
            i <= fields@.len(),
            r@.len() == i,
            forall|m: int|
                0 <= m < i ==> match #[trigger] r@[m] {
                    Some(t) => field_rewrite(fields@[m]) == Some(t@),
                    None => field_rewrite(fields@[m]) is None,
                },
        decreases fields@.len() - i,
    {
        let rewrite = match &fields[i] {
            Some(bounds) => first_trait_ident(bounds),
            None => None,
        };
        r.push(rewrite);
        i = i + 1;
    }
    r
}

} // verus!
