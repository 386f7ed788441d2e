//! How the inclusion probabilities of a request are obtained: the shortcuts and the general walk.

use crate::error::Error;
use crate::table::{check, is_fair, table_fair, table_valid};
use vstd::prelude::*;

verus! {

/// How the inclusion probabilities of a request are obtained.
#[derive(PartialEq, Eq, Structural, Clone, Copy, Debug)]
pub enum Method {
    /// Every item has probability 0.
    Zero,
    /// Every item has probability 1.
    One,
    /// Every item has probability `amount / table length`.
    Uniform,
    /// Each item's probability is its normalized weight.
    Weight,
    /// Each item's probability is `1 - (1 - w)^amount`, for its normalized weight `w`.
    Independent,
    /// The probabilities come from walking the selection tree, one walk for
    /// each first pick.
    Enumerate,
}

/// The method for `amount` picks from the table `ws`: the shortcuts in their
/// order, then the general walk.
pub open spec fn method_of(ws: Seq<u64>, inversed: bool, repetitive: bool, amount: nat) -> Result<
    Method,
    Error,
> {
    if amount == 0 {
        Ok(Method::Zero)
    } else if !repetitive && amount > ws.len() {
        Err(Error::InvalidAmount)
    } else if !repetitive && amount == ws.len() {
        Ok(Method::One)
    } else if !repetitive && table_fair(ws, inversed) {
        Ok(Method::Uniform)
    } else if !table_valid(ws, inversed) {
        Err(Error::InvalidTable)
    } else if amount == 1 {
        Ok(Method::Weight)
    } else if repetitive {
        Ok(Method::Independent)
    } else {
        Ok(Method::Enumerate)
    }
}

/// Chooses how to compute the probability of each entry of the table `ws`
/// to be among `amount` picks.
pub fn plan(ws: &Vec<u64>, inversed: bool, repetitive: bool, amount: usize) -> (r: Result<
    Method,
    Error,
>)
    ensures
        r == method_of(ws@, inversed, repetitive, amount as nat),
        amount == 0 ==> r == Ok::<Method, Error>(Method::Zero),
        amount > 0 && !repetitive && amount > ws@.len() ==> r is Err && r->Err_0 is InvalidAmount,
        amount > 0 && !repetitive && amount == ws@.len() ==> r == Ok::<Method, Error>(Method::One),
        r is Err && r->Err_0 is InvalidTable ==> !table_valid(ws@, inversed),
{
    if amount == 0 {
        return Ok(Method::Zero);
    }
    if !repetitive {
        if amount > ws.len() {
            return Err(Error::InvalidAmount);
        }
        if amount == ws.len() {
            return Ok(Method::One);
        }
        if is_fair(ws, inversed) {
            return Ok(Method::Uniform);
        }
    }
    if check(ws, inversed).is_err() {
        return Err(Error::InvalidTable);
    }
    if amount == 1 {
        Ok(Method::Weight)
    } else if repetitive {
        Ok(Method::Independent)
    } else {
        Ok(Method::Enumerate)
    }
}

} // verus!
