//! Reading a request: on whose behalf it is made, and which identities its
//! name-and-value pairs hold.

use crate::model::{Oid, TreeError};
use vstd::prelude::*;

verus! {

/// The owner on whose behalf a request is made: the identity that the
/// sign-in check has verified. A request without one is turned away as
/// `Unauthenticated`.
pub fn resolve_caller(verified: Option<Oid>) -> (caller: Result<Oid, TreeError>)
    ensures
        caller == match verified {
            Some(id) => Ok::<Oid, TreeError>(id),
            None => Err::<Oid, TreeError>(TreeError::Unauthenticated),
        },
{
    match verified {
        Some(id) => Ok(id),
        None => Err(TreeError::Unauthenticated),
    }
}

/// The views of a list of pairs, in order.
pub open spec fn pairs_view(pairs: Seq<(String, Oid)>) -> Seq<(Seq<char>, Oid)> {
    pairs.map_values(|p: (String, Oid)| (p.0@, p.1))
}

/// The values that stand under `name`, in order.
pub open spec fn values_under(pairs: Seq<(Seq<char>, Oid)>, name: Seq<char>) -> Seq<Oid>
    decreases pairs.len(),
{
    if pairs.len() == 0 {
        Seq::empty()
    } else if pairs.last().0 == name {
        values_under(pairs.drop_last(), name).push(pairs.last().1)
    } else {
        values_under(pairs.drop_last(), name)
    }
}

/// The first value that stands under `name`, if there is one.
pub open spec fn first_under(pairs: Seq<(Seq<char>, Oid)>, name: Seq<char>) -> Option<Oid> {
    if values_under(pairs, name).len() > 0 {
        Some(values_under(pairs, name)[0])
    } else {
        None
    }
}

/// Collects the values that stand under `name`, in order.
pub fn values_for(pairs: &Vec<(String, Oid)>, name: &str) -> (values: Vec<Oid>)
    ensures
        values@ == values_under(pairs_view(pairs@), name@),
{
    let key = name.to_owned();
    let ghost all = pairs_view(pairs@);
    let mut values: Vec<Oid> = Vec::new();
    let mut i: usize = 0;
    while i < pairs.len()
        invariant
            i <= pairs.len(),
            all == pairs_view(pairs@),
            key@ == name@,
            values@ == values_under(all.take(i as int), name@),
        decreases pairs.len() - i,
    {
        assert(all.take(i + 1).drop_last() =~= all.take(i as int));
        assert(all.take(i + 1).last() == (pairs@[i as int].0@, pairs@[i as int].1));
        if pairs[i].0 == key {
            values.push(pairs[i].1);
        }
        i += 1;
    }
    assert(all.take(pairs.len() as int) =~= all);
    values
}

/// Finds the first value that stands under `name`.
pub fn first_for(pairs: &Vec<(String, Oid)>, name: &str) -> (value: Option<Oid>)
    ensures
        value == first_under(pairs_view(pairs@), name@),
{
    let values = values_for(pairs, name);
    if values.len() > 0 {
        Some(values[0])
    } else {
        None
    }
}

} // verus!
